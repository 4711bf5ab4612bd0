//! The state of the installer window and how it reacts: the welcome text,
//! choosing and checking the game folder, starting and cancelling the
//! install, taking in the install's messages and the detection result,
//! and guarding against closing mid-install. Drawing stays with the caller.

use std::sync::atomic::AtomicBool;
use std::sync::atomic::Ordering;
use std::sync::Arc;
use vstd::prelude::*;

use crate::config::APP_TITLE;
use crate::detect::{find_app_asar, resources_asar};
use crate::install::{message_view, messages_view, Level, Message, MessageView};
use crate::installer::cat;
use crate::steam::{answered, pview, trim_text, trimmed_of};
use crate::text::owned;

verus! {

/// The window title.
pub fn title() -> (t: &'static str)
    ensures
        t@ == APP_TITLE@,
{
    APP_TITLE
}

/// One line of the log panel.
#[derive(Debug, Clone)]
pub struct LogLine {
    pub text: String,
    pub level: Level,
}

/// A dialog shown over the window.
#[derive(Debug, Clone)]
pub enum Dialog {
    Info { title: String, body: String },
    Error { title: String, body: String },
    ConfirmQuit,
}

/// A dialog with its texts as character sequences.
pub enum DialogView {
    Info(Seq<char>, Seq<char>),
    Error(Seq<char>, Seq<char>),
    ConfirmQuit,
}

/// The view of a dialog.
pub open spec fn dialog_view(d: Dialog) -> DialogView {
    match d {
        Dialog::Info { title, body } => DialogView::Info(title@, body@),
        Dialog::Error { title, body } => DialogView::Error(title@, body@),
        Dialog::ConfirmQuit => DialogView::ConfirmQuit,
    }
}

/// The view of an optional dialog.
pub open spec fn odialog(d: Option<Dialog>) -> Option<DialogView> {
    match d {
        Some(x) => Some(dialog_view(x)),
        None => None,
    }
}

/// The installer window's state.
pub struct PatcherApp {
    path_input: String,
    path_valid: Option<bool>,
    log: Vec<LogLine>,
    progress: u8,
    installing: bool,
    cancel: Arc<AtomicBool>,
    listening: bool,
    detecting: bool,
    dialog: Option<Dialog>,
}

/// The window's state, its texts as character sequences.
pub struct AppView {
    /// The game folder typed or chosen.
    pub path_input: Seq<char>,
    /// Whether that folder holds the game's `app.asar`, once checked.
    pub path_valid: Option<bool>,
    /// The log lines.
    pub log: Seq<(Seq<char>, Level)>,
    /// The install's progress, in percent.
    pub progress: u8,
    /// Whether an install runs.
    pub installing: bool,
    /// Whether the install's messages are still awaited.
    pub listening: bool,
    /// Whether a detection runs.
    pub detecting: bool,
    /// The dialog shown, if any.
    pub dialog: Option<DialogView>,
}

/// The view of the log lines.
pub open spec fn log_view(v: Vec<LogLine>) -> Seq<(Seq<char>, Level)> {
    v@.map_values(|l: LogLine| (l.text@, l.level))
}

impl PatcherApp {
    /// The window's state.
    pub closed spec fn view(&self) -> AppView {
        AppView {
            path_input: self.path_input@,
            path_valid: self.path_valid,
            log: log_view(self.log),
            progress: self.progress,
            installing: self.installing,
            listening: self.listening,
            detecting: self.detecting,
            dialog: odialog(self.dialog),
        }
    }

    /// The cancellation flag shared with the running install.
    pub closed spec fn cancel_flag(&self) -> Arc<AtomicBool> {
        self.cancel
    }
}

pub const MSG_THANKS: &'static str = "메인 시나리오 번역 검수 'Ewan'님, 이미지 번역 '토니', '체퓨'님, 영상 번역 '민버드'님";
pub const MSG_HOWTO: &'static str = "'자동 감지' 버튼을 클릭하거나 게임 경로를 직접 선택해주세요.";
pub const MSG_SEARCHING: &'static str = "게임 경로를 자동으로 검색 중...";
pub const MSG_PATH_CHOSEN: &'static str = "게임 경로 선택: ";
pub const MSG_NO_ASAR_HERE: &'static str = "app.asar 파일을 찾을 수 없습니다. 올바른 게임 폴더인지 확인하세요.";
pub const TITLE_NO_PATH: &'static str = "경로 없음";
pub const BODY_NO_PATH: &'static str = "게임 경로를 먼저 선택해주세요.";
pub const TITLE_BAD_PATH: &'static str = "잘못된 게임 경로";
pub const BODY_BAD_PATH: &'static str = "선택한 폴더에서 게임 파일(app.asar)을 찾을 수 없습니다.\n\n올바른 게임 설치 폴더를 선택해주세요.";
pub const TITLE_DONE: &'static str = "설치 완료";
pub const TITLE_FAILED: &'static str = "설치 오류";
pub const MSG_FOUND: &'static str = "게임을 찾았습니다!";
pub const MSG_NOT_FOUND: &'static str = "게임 경로를 자동으로 찾지 못했습니다.";
pub const MSG_BROWSE: &'static str = "'찾아보기' 버튼으로 직접 선택해주세요.";
pub const TITLE_NOT_FOUND: &'static str = "경로 감지 실패";
pub const BODY_NOT_FOUND: &'static str = "게임 경로를 자동으로 찾지 못했습니다.\n\n'찾아보기' 버튼을 눌러 직접 선택해주세요.";

/// The welcome lines of a new window.
pub open spec fn welcome_lines() -> Seq<(Seq<char>, Level)> {
    seq![(MSG_THANKS@, Level::Success), (""@, Level::Info), (MSG_HOWTO@, Level::Info)]
}

/// The window after folder `display` was chosen, `found` telling whether it
/// holds `app.asar`.
pub open spec fn chosen(s: AppView, display: Seq<char>, found: bool) -> AppView {
    AppView {
        path_input: display,
        path_valid: Some(found),
        log: s.log + if found {
            seq![(MSG_PATH_CHOSEN@ + display, Level::Success)]
        } else {
            seq![(MSG_PATH_CHOSEN@ + display, Level::Info), (MSG_NO_ASAR_HERE@, Level::Warning)]
        },
        ..s
    }
}

/// The window after the install's messages `ms` arrived, in order.
pub open spec fn take_messages(s: AppView, ms: Seq<MessageView>) -> AppView
    decreases ms.len(),
{
    if ms.len() == 0 {
        s
    } else {
        let t = take_messages(s, ms.drop_last());
        match ms.last() {
            MessageView::Log(text, level) => AppView { log: t.log.push((text, level)), ..t },
            MessageView::Progress(p) => AppView { progress: p, ..t },
            MessageView::Finished(..) => t,
        }
    }
}

/// The last `Finished` message among `ms`, if any.
pub open spec fn last_finished(ms: Seq<MessageView>) -> Option<(bool, Seq<char>)>
    decreases ms.len(),
{
    if ms.len() == 0 {
        None
    } else {
        match ms.last() {
            MessageView::Finished(ok, m) => Some((ok, m)),
            _ => last_finished(ms.drop_last()),
        }
    }
}

/// The window once the install has finished with `ok` and `message`.
pub open spec fn finished(s: AppView, ok: bool, message: Seq<char>) -> AppView {
    if ok {
        AppView {
            installing: false,
            listening: false,
            path_valid: None,
            dialog: Some(DialogView::Info(TITLE_DONE@, message)),
            ..s
        }
    } else {
        AppView {
            installing: false,
            listening: false,
            dialog: Some(DialogView::Error(TITLE_FAILED@, message)),
            ..s
        }
    }
}

/// The window after the messages `ms` arrived.
pub open spec fn after_messages(s: AppView, ms: Seq<MessageView>) -> AppView {
    let t = take_messages(s, ms);
    match last_finished(ms) {
        Some((ok, m)) => finished(t, ok, m),
        None => t,
    }
}

proof fn lemma_take_keeps(s: AppView, ms: Seq<MessageView>)
    ensures
        take_messages(s, ms).installing == s.installing,
        take_messages(s, ms).listening == s.listening,
        take_messages(s, ms).detecting == s.detecting,
        take_messages(s, ms).dialog == s.dialog,
    decreases ms.len(),
{
    if ms.len() > 0 {
        lemma_take_keeps(s, ms.drop_last());
    }
}

proof fn lemma_last_finished(ms: Seq<MessageView>, j: int)
    requires
        0 <= j < ms.len(),
        ms[j] is Finished,
        forall|k: int| j < k < ms.len() ==> !(#[trigger] ms[k] is Finished),
    ensures
        last_finished(ms) == Some((ms[j]->Finished_0, ms[j]->Finished_1)),
    decreases ms.len(),
{
    if j < ms.len() - 1 {
        let d = ms.drop_last();
        assert forall|k: int| j < k < d.len() implies !(#[trigger] d[k] is Finished) by {
            assert(d[k] == ms[k]);
        }
        lemma_last_finished(d, j);
    }
}

proof fn lemma_no_finished(ms: Seq<MessageView>)
    requires
        forall|k: int| 0 <= k < ms.len() ==> !(#[trigger] ms[k] is Finished),
    ensures
        last_finished(ms) is None,
    decreases ms.len(),
{
    if ms.len() > 0 {
        let d = ms.drop_last();
        assert forall|k: int| 0 <= k < d.len() implies !(#[trigger] d[k] is Finished) by {
            assert(d[k] == ms[k]);
        }
        lemma_no_finished(d);
    }
}

/// A batch of install messages that holds a final message ends the install
/// in the window, whether it succeeded or failed: the install no longer
/// runs, its messages are no longer awaited, and the dialog shows the last
/// final message, as a success or as an error. A batch without one leaves
/// the install running or not as it was.
pub proof fn lemma_finish_ends_install(s: AppView, ms: Seq<MessageView>)
    ensures
        (exists|i: int| 0 <= i < ms.len() && #[trigger] ms[i] is Finished) ==> {
            &&& !after_messages(s, ms).installing
            &&& !after_messages(s, ms).listening
            &&& watching(after_messages(s, ms)) == s.detecting
        },
        forall|j: int|
            0 <= j < ms.len() && (#[trigger] ms[j] matches MessageView::Finished(ok, m)) && (forall|k: int|
                j < k < ms.len() ==> !(#[trigger] ms[k] is Finished)) ==> after_messages(s, ms).dialog
                == Some(
                if ms[j]->Finished_0 {
                    DialogView::Info(TITLE_DONE@, ms[j]->Finished_1)
                } else {
                    DialogView::Error(TITLE_FAILED@, ms[j]->Finished_1)
                },
            ),
        (forall|k: int| 0 <= k < ms.len() ==> !(#[trigger] ms[k] is Finished)) ==> {
            &&& after_messages(s, ms).installing == s.installing
            &&& after_messages(s, ms).listening == s.listening
        },
{
    lemma_take_keeps(s, ms);
    if exists|i: int| 0 <= i < ms.len() && #[trigger] ms[i] is Finished {
        let i = choose|i: int| 0 <= i < ms.len() && #[trigger] ms[i] is Finished;
        lemma_last_index(ms, i);
        let j = choose|j: int|
            i <= j < ms.len() && ms[j] is Finished && forall|k: int| j < k < ms.len() ==> !(#[trigger] ms[k] is Finished);
        lemma_last_finished(ms, j);
    }
    assert forall|j: int|
        0 <= j < ms.len() && (#[trigger] ms[j] matches MessageView::Finished(ok, m)) && (forall|k: int|
            j < k < ms.len() ==> !(#[trigger] ms[k] is Finished)) implies after_messages(s, ms).dialog == Some(
        if ms[j]->Finished_0 {
            DialogView::Info(TITLE_DONE@, ms[j]->Finished_1)
        } else {
            DialogView::Error(TITLE_FAILED@, ms[j]->Finished_1)
        },
    ) by {
        lemma_last_finished(ms, j);
    }
    if forall|k: int| 0 <= k < ms.len() ==> !(#[trigger] ms[k] is Finished) {
        lemma_no_finished(ms);
    }
}

/// Some final message of `ms` from position `i` on is the last one.
proof fn lemma_last_index(ms: Seq<MessageView>, i: int)
    requires
        0 <= i < ms.len(),
        ms[i] is Finished,
    ensures
        exists|j: int|
            i <= j < ms.len() && ms[j] is Finished && forall|k: int| j < k < ms.len() ==> !(#[trigger] ms[k] is Finished),
    decreases ms.len() - i,
{
    if exists|k: int| i < k < ms.len() && #[trigger] ms[k] is Finished {
        let k = choose|k: int| i < k < ms.len() && #[trigger] ms[k] is Finished;
        lemma_last_index(ms, k);
    } else {
        assert(forall|k: int| i < k < ms.len() ==> !(#[trigger] ms[k] is Finished));
    }
}

/// The window after a detection that found nothing.
pub open spec fn not_detected(s: AppView) -> AppView {
    AppView {
        detecting: false,
        path_valid: None,
        log: s.log + seq![(MSG_NOT_FOUND@, Level::Warning), (MSG_BROWSE@, Level::Info)],
        dialog: Some(DialogView::Error(TITLE_NOT_FOUND@, BODY_NOT_FOUND@)),
        ..s
    }
}

/// Whether the window keeps redrawing to watch for news.
pub open spec fn watching(s: AppView) -> bool {
    s.installing || s.listening || s.detecting
}

/// What a choice in a dialog does.
#[derive(Debug, Clone, Copy, PartialEq, Eq, Structural)]
pub enum Choice {
    /// Close the dialog.
    Dismiss,
    /// Stop the install and close the window.
    ForceQuit,
}

/// The window after a detection found the folder `display`, `found`
/// telling whether it holds `app.asar`.
pub open spec fn detected_at(s: AppView, display: Seq<char>, found: bool) -> AppView {
    let c = chosen(AppView { detecting: false, ..s }, display, found);
    AppView { log: c.log.push((MSG_FOUND@, Level::Success)), ..c }
}

/// Appends a log line.
fn push_line(log: &mut Vec<LogLine>, text: String, level: Level)
    ensures
        log_view(*final(log)) == log_view(*old(log)).push((text@, level)),
{
    let ghost before = *log;
    log.push(LogLine { text, level });
    assert(log_view(*log) =~= log_view(before).push((text@, level)));
}

impl PatcherApp {
    /// A fresh window, greeting the user.
    pub fn new() -> (app: Self)
        ensures
            app@ == (AppView {
                path_input: seq![],
                path_valid: None,
                log: welcome_lines(),
                progress: 0,
                installing: false,
                listening: false,
                detecting: false,
                dialog: None,
            }),
    {
        let mut app = PatcherApp {
            path_input: String::new(),
            path_valid: None,
            log: Vec::new(),
            progress: 0,
            installing: false,
            cancel: Arc::new(AtomicBool::new(false)),
            listening: false,
            detecting: false,
            dialog: None,
        };
        assert(log_view(app.log) =~= Seq::<(Seq<char>, Level)>::empty());
        app.welcome();
        assert(log_view(app.log) =~= welcome_lines());
        app
    }

    /// Writes the welcome lines: thanks to the translators, a blank line,
    /// and how to begin.
    pub fn welcome(&mut self)
        ensures
            final(self)@ == (AppView { log: old(self)@.log + welcome_lines(), ..old(self)@ }),
    {
        let ghost before = self@;
        self.log_line(owned(MSG_THANKS), Level::Success);
        self.log_line(owned(""), Level::Info);
        self.log_line(owned(MSG_HOWTO), Level::Info);
        assert(self@.log =~= before.log + welcome_lines());
    }

    /// Adds a line to the log.
    pub fn log_line(&mut self, text: String, level: Level)
        ensures
            final(self)@ == (AppView { log: old(self)@.log.push((text@, level)), ..old(self)@ }),
    {
        push_line(&mut self.log, text, level);
    }

    /// Notes that a detection has begun.
    pub fn start_auto_detect(&mut self)
        ensures
            final(self)@ == (AppView {
                log: old(self)@.log.push((MSG_SEARCHING@, Level::Info)),
                detecting: true,
                ..old(self)@
            }),
    {
        self.log_line(owned(MSG_SEARCHING), Level::Info);
        self.detecting = true;
    }

    /// Takes the folder `path`, shown as `display`, as the game folder, and
    /// checks with `is_file` whether it holds `app.asar`.
    pub fn set_path<F: Fn(&Vec<String>) -> bool>(
        &mut self,
        path: &Vec<String>,
        display: String,
        is_file: &F,
    )
        requires
            forall|q: &Vec<String>| is_file.requires((q,)),
        ensures
            exists|b: bool|
                answered(*is_file, resources_asar(pview(*path)), b) && final(self)@ == #[trigger] chosen(
                    old(self)@,
                    display@,
                    b,
                ),
    {
        let valid = find_app_asar(path, is_file).is_some();
        let ghost before = self@;
        self.path_valid = Some(valid);
        if valid {
            self.log_line(cat(MSG_PATH_CHOSEN, display.as_str()), Level::Success);
        } else {
            self.log_line(cat(MSG_PATH_CHOSEN, display.as_str()), Level::Info);
            self.log_line(owned(MSG_NO_ASAR_HERE), Level::Warning);
        }
        self.path_input = display;
        assert(self@.log =~= chosen(before, display@, valid).log);
        assert(self@ == chosen(before, display@, valid));
    }

    /// Replaces the typed game folder.
    pub fn set_path_input(&mut self, text: String)
        ensures
            final(self)@ == (AppView { path_input: text@, ..old(self)@ }),
    {
        self.path_input = text;
    }

    /// Starts an install of the typed folder if it holds `app.asar`, as
    /// `is_file` tells; gives the folder and a fresh cancellation flag for
    /// the install. Otherwise it shows why not.
    pub fn start_install<F: Fn(&Vec<String>) -> bool>(&mut self, is_file: &F) -> (r: Option<
        (String, Arc<AtomicBool>),
    >)
        requires
            forall|q: &Vec<String>| is_file.requires((q,)),
        ensures
            ({
                let t = trimmed_of(old(self)@.path_input);
                if t.len() == 0 {
                    r is None && final(self)@ == (AppView {
                        dialog: Some(DialogView::Error(TITLE_NO_PATH@, BODY_NO_PATH@)),
                        ..old(self)@
                    })
                } else {
                    exists|b: bool|
                        #[trigger] answered(*is_file, resources_asar(seq![t]), b) && if b {
                            (r matches Some((p, _)) && p@ == t) && final(self)@ == (AppView {
                                installing: true,
                                progress: 0,
                                listening: true,
                                ..old(self)@
                            })
                        } else {
                            r is None && final(self)@ == (AppView {
                                path_valid: Some(false),
                                dialog: Some(DialogView::Error(TITLE_BAD_PATH@, BODY_BAD_PATH@)),
                                ..old(self)@
                            })
                        }
                }
            }),
    {
        let t = owned(trim_text(self.path_input.as_str()));
        if t.unicode_len() == 0 {
            self.dialog = Some(Dialog::Error { title: owned(TITLE_NO_PATH), body: owned(BODY_NO_PATH) });
            return None;
        }
        let mut path: Vec<String> = Vec::new();
        path.push(t.clone());
        assert(pview(path) =~= seq![t@]);
        let found = find_app_asar(&path, is_file);
        match found {
            None => {
                self.path_valid = Some(false);
                self.dialog = Some(
                    Dialog::Error { title: owned(TITLE_BAD_PATH), body: owned(BODY_BAD_PATH) },
                );
                None
            },
            Some(_) => {
                self.installing = true;
                self.progress = 0;
                self.cancel = Arc::new(AtomicBool::new(false));
                self.listening = true;
                Some((t, self.cancel.clone()))
            },
        }
    }

    /// Asks the running install to stop: sets the cancellation flag it
    /// shares with the install, which stays the same flag.
    pub fn cancel_install(&mut self)
        ensures
            final(self)@ == old(self)@,
            final(self).cancel_flag() == old(self).cancel_flag(),
    {
        self.cancel.store(true, Ordering::Relaxed);
    }

    /// Reacts to a request to close the window: while an install runs, the
    /// close is refused and the quit confirmation shown. Gives whether the
    /// close is refused.
    pub fn guard_close(&mut self, close_requested: bool) -> (refuse: bool)
        ensures
            refuse == (close_requested && old(self)@.installing),
            refuse ==> final(self)@ == (AppView { dialog: Some(DialogView::ConfirmQuit), ..old(self)@ }),
            !refuse ==> final(self)@ == old(self)@,
    {
        if !close_requested {
            return false;
        }
        if self.installing {
            let confirming = match &self.dialog {
                Some(Dialog::ConfirmQuit) => true,
                _ => false,
            };
            if !confirming {
                self.dialog = Some(Dialog::ConfirmQuit);
            }
            true
        } else {
            false
        }
    }
}

impl PatcherApp {
    /// Takes in the install's messages `msgs`, in the order they came: log
    /// lines are added, the progress follows, and a final message ends the
    /// install with a dialog.
    pub fn take_install_messages(&mut self, msgs: Vec<Message>)
        ensures
            final(self)@ == after_messages(old(self)@, messages_view(msgs)),
    {
        let ghost s0 = self@;
        let mut finished_with: Option<(bool, String)> = None;
        let mut i: usize = 0;
        let n = msgs.len();
        let mut rest = msgs;
        let ghost all = messages_view(rest);
        assert(all.skip(0) =~= all);
        while i < n
            invariant
                n == all.len(),
                i <= n,
                rest@.len() == n - i,
                messages_view(rest) == all.skip(i as int),
                self@ == take_messages(s0, all.take(i as int)),
                match finished_with {
                    Some((ok, m)) => last_finished(all.take(i as int)) == Some((ok, m@)),
                    None => last_finished(all.take(i as int)) is None,
                },
            decreases n - i,
        {
            let ghost before = rest;
            let m = rest.remove(0);
            proof {
                assert(messages_view(rest) =~= messages_view(before).drop_first());
                assert(message_view(m) == messages_view(before)[0]);
                assert(all.skip(i + 1) =~= all.skip(i as int).drop_first());
                assert(all.take(i + 1).drop_last() =~= all.take(i as int));
            }
            match m {
                Message::Log { text, level } => {
                    push_line(&mut self.log, text, level);
                },
                Message::Progress(p) => {
                    self.progress = p;
                },
                Message::Finished { success, message } => {
                    finished_with = Some((success, message));
                },
            }
            i = i + 1;
        }
        assert(all.take(n as int) =~= all);
        match finished_with {
            Some((ok, message)) => {
                self.installing = false;
                self.listening = false;
                if ok {
                    self.path_valid = None;
                    self.dialog = Some(Dialog::Info { title: owned(TITLE_DONE), body: message });
                } else {
                    self.dialog = Some(Dialog::Error { title: owned(TITLE_FAILED), body: message });
                }
            },
            None => {},
        }
    }

    /// Takes in the result of a detection: the game folder found, with how
    /// it is displayed, or nothing; `is_file` checks the folder.
    pub fn take_detection<F: Fn(&Vec<String>) -> bool>(
        &mut self,
        found: Option<(Vec<String>, String)>,
        is_file: &F,
    )
        requires
            forall|q: &Vec<String>| is_file.requires((q,)),
        ensures
            match found {
                Some((p, d)) => exists|b: bool|
                    answered(*is_file, resources_asar(pview(p)), b) && final(self)@
                        == #[trigger] detected_at(old(self)@, d@, b),
                None => final(self)@ == not_detected(old(self)@),
            },
    {
        self.detecting = false;
        match found {
            Some((path, display)) => {
                let ghost mid = self@;
                let ghost dv = display@;
                self.set_path(&path, display, is_file);
                let ghost b = choose|b: bool|
                    answered(*is_file, resources_asar(pview(path)), b) && self@ == #[trigger] chosen(
                        mid,
                        dv,
                        b,
                    );
                self.log_line(owned(MSG_FOUND), Level::Success);
                assert(self@ == detected_at(old(self)@, dv, b));
            },
            None => {
                self.path_valid = None;
                self.log_line(owned(MSG_NOT_FOUND), Level::Warning);
                self.log_line(owned(MSG_BROWSE), Level::Info);
                self.dialog = Some(
                    Dialog::Error { title: owned(TITLE_NOT_FOUND), body: owned(BODY_NOT_FOUND) },
                );
                assert(self@.log =~= not_detected(old(self)@).log);
            },
        }
    }

    /// One round of news: the install's messages `msgs`, then the detection
    /// result if one came; gives whether the window keeps watching.
    pub fn pump_messages<F: Fn(&Vec<String>) -> bool>(
        &mut self,
        msgs: Vec<Message>,
        detected: Option<Option<(Vec<String>, String)>>,
        is_file: &F,
    ) -> (watch: bool)
        requires
            forall|q: &Vec<String>| is_file.requires((q,)),
        ensures
            watch == watching(final(self)@),
            ({
                let s1 = after_messages(old(self)@, messages_view(msgs));
                match detected {
                    None => final(self)@ == s1,
                    Some(None) => final(self)@ == not_detected(s1),
                    Some(Some((p, d))) => exists|b: bool|
                        answered(*is_file, resources_asar(pview(p)), b) && final(self)@
                            == #[trigger] detected_at(s1, d@, b),
                }
            }),
    {
        self.take_install_messages(msgs);
        match detected {
            Some(found) => self.take_detection(found, is_file),
            None => {},
        }
        self.installing || self.listening || self.detecting
    }

    /// Closes the dialog `dialog`, just shown, as the user chose: without a
    /// choice it stays; a forced quit also stops the install. Gives whether
    /// the window is to close.
    pub fn close_dialog(&mut self, dialog: Dialog, choice: Option<Choice>) -> (quit: bool)
        ensures
            quit == (choice == Some(Choice::ForceQuit)),
            choice is None ==> final(self)@ == (AppView { dialog: Some(dialog_view(dialog)), ..old(self)@ }),
            choice is Some ==> final(self)@ == old(self)@,
    {
        match choice {
            None => {
                self.dialog = Some(dialog);
                false
            },
            Some(Choice::Dismiss) => false,
            Some(Choice::ForceQuit) => {
                self.cancel.store(true, Ordering::Relaxed);
                true
            },
        }
    }

    /// Takes the dialog out to show it.
    pub fn take_dialog(&mut self) -> (d: Option<Dialog>)
        ensures
            odialog(d) == old(self)@.dialog,
            final(self)@ == (AppView { dialog: None, ..old(self)@ }),
    {
        self.dialog.take()
    }

    /// The typed game folder.
    pub fn path_input(&self) -> (t: &str)
        ensures
            t@ == self@.path_input,
    {
        self.path_input.as_str()
    }

    /// Whether the typed folder was found to hold `app.asar`.
    pub fn path_valid(&self) -> (v: Option<bool>)
        ensures
            v == self@.path_valid,
    {
        self.path_valid
    }

    /// The log lines.
    pub fn log(&self) -> (l: &Vec<LogLine>)
        ensures
            log_view(*l) == self@.log,
    {
        &self.log
    }

    /// The install's progress, in percent.
    pub fn progress(&self) -> (p: u8)
        ensures
            p == self@.progress,
    {
        self.progress
    }

    /// Whether an install runs.
    pub fn installing(&self) -> (b: bool)
        ensures
            b == self@.installing,
    {
        self.installing
    }

    /// Whether a detection runs.
    pub fn detecting(&self) -> (b: bool)
        ensures
            b == self@.detecting,
    {
        self.detecting
    }
}

} // verus!
