//! The seven-step install as the desktop window runs it: an existing backup
//! is kept, extraction and packing report their own progress, and only a
//! cancelled install puts the untouched `app.asar` back.
//!
//! The steps that touch the file system are performed by the caller; the
//! `Installer` decides what to report and what to do next.

use std::sync::atomic::AtomicBool;
use std::sync::atomic::Ordering;
use std::sync::Arc;
use vstd::prelude::*;

use crate::asar::error::AsarError;
use crate::installer::{
    bundled, bundled_dirs, cat, flag_count, lemma_bundled_exact, patch_dir, patch_dirs, writes_backup,
    Place, Work, MSG_ASAR_AT,
    MSG_BACKUP_DONE, MSG_CANCELLED_END, MSG_CANCELLING, MSG_COMPLETE, MSG_COPIED, MSG_COPYING,
    MSG_DIR_PREFIX, MSG_DONE, MSG_ERROR_AT, MSG_EXTRACTED, MSG_FAILED_END, MSG_NO_ASAR,
    MSG_ORIG_REMOVED, MSG_PACKED, MSG_PLAY, MSG_REMOVED, MSG_REMOVING_APP, MSG_RESTORED,
    MSG_RESTORE_FAIL, MSG_START, MSG_STEP1, MSG_STEP2, MSG_STEP3, MSG_STEP4, MSG_STEP5, MSG_STEP6,
    MSG_STEP7, MSG_TEMP_REMOVED, PATCH_DIR_COUNT, RULE,
};
use crate::text::owned;

verus! {

/// How a log line is shown.
#[derive(Debug, Clone, Copy, PartialEq, Eq, Structural)]
pub enum Level {
    Info,
    Success,
    Warning,
    Error,
}

/// What the install reports to the window.
#[derive(Debug, Clone)]
pub enum Message {
    Log { text: String, level: Level },
    Progress(u8),
    Finished { success: bool, message: String },
}

/// A message with its texts as character sequences.
pub enum MessageView {
    Log(Seq<char>, Level),
    Progress(u8),
    Finished(bool, Seq<char>),
}

/// The view of a message.
pub open spec fn message_view(m: Message) -> MessageView {
    match m {
        Message::Log { text, level } => MessageView::Log(text@, level),
        Message::Progress(p) => MessageView::Progress(p),
        Message::Finished { success, message } => MessageView::Finished(success, message@),
    }
}

/// The views of a list of messages.
pub open spec fn messages_view(v: Vec<Message>) -> Seq<MessageView> {
    v@.map_values(|m: Message| message_view(m))
}

/// Why the install stops.
#[derive(Debug, Clone)]
pub enum InstallError {
    /// The user cancelled.
    Cancelled,
    /// Anything else, as its text.
    Other(String),
}

/// An install error with its text as a character sequence.
pub enum ErrorView {
    Cancelled,
    Other(Seq<char>),
}

/// The view of an install error.
pub open spec fn error_view(e: InstallError) -> ErrorView {
    match e {
        InstallError::Cancelled => ErrorView::Cancelled,
        InstallError::Other(t) => ErrorView::Other(t@),
    }
}

/// `Err(Cancelled)` when the flag is set. The flag is shared with the
/// window's thread, so what it reads is not known here: the answer is that
/// of `stop_answer` for what was read.
pub fn check_cancel(cancel: &Arc<AtomicBool>) -> (r: Result<(), InstallError>)
    ensures
        exists|set: bool| r == #[trigger] stop_result(set),
{
    let set = cancel.load(Ordering::Relaxed);
    let r = stop_answer(set);
    assert(r == stop_result(set));
    r
}

/// The answer of a cancellation check whose flag read `set`.
pub open spec fn stop_result(set: bool) -> Result<(), InstallError> {
    if set {
        Err(InstallError::Cancelled)
    } else {
        Ok(())
    }
}

/// The answer of a cancellation check whose flag read `set`:
/// `Err(Cancelled)` exactly when it was set.
pub fn stop_answer(set: bool) -> (r: Result<(), InstallError>)
    ensures
        r == stop_result(set),
{
    if set {
        Err(InstallError::Cancelled)
    } else {
        Ok(())
    }
}

/// The install error for an archive error whose text is `text`: a
/// cancellation stays one, anything else is reported by its text.
pub fn map_asar_err(e: &AsarError, text: String) -> (r: InstallError)
    ensures
        (e matches AsarError::Cancelled) ==> error_view(r) == ErrorView::Cancelled,
        !(e matches AsarError::Cancelled) ==> error_view(r) == ErrorView::Other(text@),
{
    match e {
        AsarError::Cancelled => InstallError::Cancelled,
        _ => InstallError::Other(text),
    }
}

/// A log message.
pub fn log(text: String, level: Level) -> (m: Message)
    ensures
        message_view(m) == MessageView::Log(text@, level),
{
    Message::Log { text, level }
}

pub const MSG_NO_RESOURCES: &'static str = "resources 경로 계산 실패";
pub const MSG_KEEP_BACKUP: &'static str = "백업 파일이 이미 존재합니다. 기존 백업을 유지합니다.";
pub const MSG_NO_PATCHES: &'static str = "번들된 번역 파일이 없습니다. 빌드에 patches/ 폴더를 포함했는지 확인하세요.";

/// What the caller's last operation gave.
#[derive(Debug)]
pub enum Outcome {
    /// The install is to begin.
    Started,
    /// `app.asar` was found, with its path as displayed and whether it has a
    /// parent folder; or it was not found.
    Asar(Option<(String, bool)>),
    /// The answer to `Exists` or `IsFile`.
    Flag(bool),
    /// The operation succeeded or failed.
    Done(Result<(), InstallError>),
    /// For each translation folder, whether it is bundled.
    Patches(Vec<bool>),
}

/// An outcome with its texts as character sequences.
pub enum OutcomeView {
    Started,
    Asar(Option<(Seq<char>, bool)>),
    Flag(bool),
    Done(Result<(), ErrorView>),
    Patches(Seq<bool>),
}

/// The view of an outcome.
pub open spec fn outcome_view(o: Outcome) -> OutcomeView {
    match o {
        Outcome::Started => OutcomeView::Started,
        Outcome::Asar(a) => OutcomeView::Asar(
            match a {
                Some((d, p)) => Some((d@, p)),
                None => None,
            },
        ),
        Outcome::Flag(b) => OutcomeView::Flag(b),
        Outcome::Done(r) => OutcomeView::Done(
            match r {
                Ok(()) => Ok(()),
                Err(e) => Err(error_view(e)),
            },
        ),
        Outcome::Patches(v) => OutcomeView::Patches(v@),
    }
}

/// Where the install stands: which outcome it waits for.
#[derive(Clone, Copy, Debug, PartialEq, Eq, Structural)]
pub enum Stage {
    Ready,
    FindingAsar,
    BackupChecked,
    BackupCopied,
    AppChecked,
    AppRemoved,
    Extracted,
    Listed,
    Writing,
    AsarChecked,
    AsarRemoved,
    Packed,
    TempChecked,
    TempRemoved,
    RestoreAppChecked,
    RestoreAppRemoved,
    RestoreBackupChecked,
    RestoreCopied,
    Over,
}

/// An install of the translation into the game at `game_path`; `cancel`
/// stops it.
pub struct Installer {
    pub game_path: String,
    pub cancel: Arc<AtomicBool>,
    stage: Stage,
    asar_known: bool,
    folders_known: bool,
    valid: Vec<usize>,
    k: usize,
}

/// The state of an install.
pub struct InstallerView {
    /// The game folder.
    pub game_path: Seq<char>,
    /// The cancellation flag.
    pub cancel: Arc<AtomicBool>,
    pub stage: Stage,
    /// Whether the path of `app.asar` is known (to restore it).
    pub asar_known: bool,
    /// Whether the backup and `app` folder paths are known (to restore).
    pub folders_known: bool,
    /// The bundled translation folders, by index.
    pub valid: Seq<usize>,
    /// The translation folder being written, as a position in `valid`.
    pub k: usize,
}

impl Installer {
    /// The state of this install.
    pub closed spec fn view(&self) -> InstallerView {
        InstallerView {
            game_path: self.game_path@,
            cancel: self.cancel,
            stage: self.stage,
            asar_known: self.asar_known,
            folders_known: self.folders_known,
            valid: self.valid@,
            k: self.k,
        }
    }
}

/// The state invariant of an install.
pub open spec fn wf(s: InstallerView) -> bool {
    &&& forall|i: int| 0 <= i < s.valid.len() ==> s.valid[i] < PATCH_DIR_COUNT
    &&& s.valid.len() <= PATCH_DIR_COUNT
    &&& s.k <= s.valid.len()
    &&& s.stage == Stage::Writing ==> s.k < s.valid.len()
}

/// Whether the install in state `s` takes the outcome `o`.
pub open spec fn accepts(s: InstallerView, o: OutcomeView) -> bool {
    match s.stage {
        Stage::Ready => o is Started,
        Stage::FindingAsar => o is Asar,
        Stage::BackupChecked | Stage::AppChecked | Stage::AsarChecked | Stage::TempChecked
        | Stage::RestoreAppChecked | Stage::RestoreBackupChecked => o is Flag,
        Stage::Listed => o is Patches,
        Stage::Over => false,
        _ => o is Done,
    }
}

/// What a step gives: the next state, the messages, the next work.
pub type Next = (InstallerView, Seq<MessageView>, Work);

/// A log message.
pub open spec fn lg(level: Level, m: Seq<char>) -> MessageView {
    MessageView::Log(m, level)
}

/// `s` moved to stage `st`.
pub open spec fn at(s: InstallerView, st: Stage) -> InstallerView {
    InstallerView { stage: st, ..s }
}

/// The text of a failed operation.
pub open spec fn error_text(e: ErrorView) -> Seq<char> {
    match e {
        ErrorView::Other(t) => t,
        ErrorView::Cancelled => "cancelled"@,
    }
}

/// The end of a cancelled install.
pub open spec fn finish_cancel(s: InstallerView, ms: Seq<MessageView>) -> Next {
    (at(s, Stage::Over), ms.push(MessageView::Finished(false, MSG_CANCELLED_END@)), Work::Done)
}

/// Copying the backup back, if its path is known.
pub open spec fn restore_backup(s: InstallerView, ms: Seq<MessageView>) -> Next {
    if s.folders_known && s.asar_known {
        (at(s, Stage::RestoreBackupChecked), ms, Work::Exists(Place::Backup))
    } else {
        finish_cancel(s, ms)
    }
}

/// A failure: a cancellation restores the untouched archive, anything else is
/// reported and ends the install.
pub open spec fn fail(s: InstallerView, ms: Seq<MessageView>, e: ErrorView) -> Next {
    match e {
        ErrorView::Cancelled => {
            let ms2 = ms.push(lg(Level::Warning, MSG_CANCELLING@));
            if s.folders_known {
                (at(s, Stage::RestoreAppChecked), ms2, Work::Exists(Place::AppFolder))
            } else {
                restore_backup(s, ms2)
            }
        },
        ErrorView::Other(t) => (
            at(s, Stage::Over),
            ms + seq![
                lg(Level::Error, RULE@),
                lg(Level::Error, MSG_ERROR_AT@ + t),
                lg(Level::Error, RULE@),
                MessageView::Finished(false, MSG_FAILED_END@ + t),
            ],
            Work::Done,
        ),
    }
}

/// The percentage after translation folder `k` of `total` has been written.
pub open spec fn patch_pct(k: int, total: int) -> u8 {
    let p = 40 + 40 * (k + 1) / total;
    (if p < 80 { p } else { 80 }) as u8
}

/// The number the patch percentages are divided by.
pub open spec fn patch_total(s: InstallerView) -> int {
    if s.valid.len() >= 1 {
        s.valid.len() as int
    } else {
        1
    }
}

/// The translation folder at position `k` of the bundled ones, or the
/// repacking when they are all written.
pub open spec fn next_patch(s: InstallerView, ms: Seq<MessageView>, k: int, c: bool) -> Next {
    if c {
        fail(s, ms, ErrorView::Cancelled)
    } else if k < s.valid.len() {
        (
            InstallerView { stage: Stage::Writing, k: k as usize, ..s },
            ms.push(lg(Level::Info, MSG_DIR_PREFIX@ + patch_dirs()[s.valid[k] as int] + MSG_COPYING@)),
            Work::WritePatchDir(s.valid[k]),
        )
    } else {
        (at(s, Stage::AsarChecked), ms.push(lg(Level::Info, MSG_STEP6@)), Work::IsFile(Place::Asar))
    }
}

/// The end of a successful install.
pub open spec fn finish_ok(s: InstallerView, ms: Seq<MessageView>) -> Next {
    (
        InstallerView { stage: Stage::Over, asar_known: false, folders_known: false, ..s },
        ms + seq![
            MessageView::Progress(100),
            lg(Level::Info, RULE@),
            lg(Level::Success, MSG_DONE@),
            lg(Level::Success, MSG_PLAY@),
            lg(Level::Info, RULE@),
            MessageView::Finished(true, MSG_COMPLETE@),
        ],
        Work::Done,
    )
}

/// After the backup: progress, then clearing an old extraction.
pub open spec fn after_backup(s: InstallerView, ms: Seq<MessageView>, c: bool) -> Next {
    let ms2 = ms.push(MessageView::Progress(15));
    if c {
        fail(s, ms2, ErrorView::Cancelled)
    } else {
        (at(s, Stage::AppChecked), ms2.push(lg(Level::Info, MSG_STEP3@)), Work::Exists(Place::AppFolder))
    }
}

/// After the old `app` folder is gone: extraction.
pub open spec fn after_clean(s: InstallerView, ms: Seq<MessageView>, c: bool) -> Next {
    let ms2 = ms.push(MessageView::Progress(20));
    if c {
        fail(s, ms2, ErrorView::Cancelled)
    } else {
        (at(s, Stage::Extracted), ms2.push(lg(Level::Info, MSG_STEP4@)), Work::Extract)
    }
}

/// The bundled folders and the warning when there are none.
pub open spec fn listed(s: InstallerView, bs: Seq<bool>, c: bool) -> Next {
    let s2 = InstallerView { valid: bundled(bs, flag_count(bs)), k: 0, ..s };
    let ms = if s2.valid.len() == 0 {
        seq![lg(Level::Warning, MSG_NO_PATCHES@)]
    } else {
        seq![]
    };
    next_patch(s2, ms, 0, c)
}

/// One step of the install: what it does with outcome `o` when the
/// cancellation flag reads `c` at its check.
pub open spec fn next(s: InstallerView, o: OutcomeView, c: bool) -> Next {
    let none = Seq::<MessageView>::empty();
    match s.stage {
        Stage::Ready => (
            at(s, Stage::FindingAsar),
            seq![lg(Level::Info, RULE@), lg(Level::Info, MSG_START@), lg(Level::Info, MSG_STEP1@)],
            Work::FindAsar,
        ),
        Stage::FindingAsar => match o {
            OutcomeView::Asar(Some((d, has_parent))) => {
                let s2 = InstallerView { asar_known: true, ..s };
                let ms = seq![lg(Level::Success, MSG_ASAR_AT@ + d), MessageView::Progress(5)];
                if c {
                    fail(s2, ms, ErrorView::Cancelled)
                } else if !has_parent {
                    fail(s2, ms, ErrorView::Other(MSG_NO_RESOURCES@))
                } else {
                    (
                        InstallerView { stage: Stage::BackupChecked, folders_known: true, ..s2 },
                        ms.push(lg(Level::Info, MSG_STEP2@)),
                        Work::Exists(Place::Backup),
                    )
                }
            },
            _ => fail(s, none, ErrorView::Other(MSG_NO_ASAR@)),
        },
        Stage::BackupChecked => if o == OutcomeView::Flag(true) {
            after_backup(s, seq![lg(Level::Info, MSG_KEEP_BACKUP@)], c)
        } else {
            (at(s, Stage::BackupCopied), none, Work::Copy(Place::Asar, Place::Backup))
        },
        Stage::BackupCopied => match o {
            OutcomeView::Done(Err(e)) => fail(s, none, e),
            _ => after_backup(s, seq![lg(Level::Success, MSG_BACKUP_DONE@)], c),
        },
        Stage::AppChecked => if o == OutcomeView::Flag(true) {
            (
                at(s, Stage::AppRemoved),
                seq![lg(Level::Info, MSG_REMOVING_APP@)],
                Work::RemoveDirAll(Place::AppFolder),
            )
        } else {
            after_clean(s, none, c)
        },
        Stage::AppRemoved => match o {
            OutcomeView::Done(Err(e)) => fail(s, none, e),
            _ => after_clean(s, seq![lg(Level::Success, MSG_REMOVED@)], c),
        },
        Stage::Extracted => match o {
            OutcomeView::Done(Err(e)) => fail(s, none, e),
            _ => {
                let ms = seq![lg(Level::Success, MSG_EXTRACTED@), MessageView::Progress(40)];
                if c {
                    fail(s, ms, ErrorView::Cancelled)
                } else {
                    (at(s, Stage::Listed), ms.push(lg(Level::Info, MSG_STEP5@)), Work::ListPatchDirs)
                }
            },
        },
        Stage::Listed => match o {
            OutcomeView::Patches(bs) => listed(s, bs, c),
            _ => listed(s, seq![], c),
        },
        Stage::Writing => match o {
            OutcomeView::Done(Err(e)) => fail(s, none, e),
            _ => next_patch(
                s,
                seq![
                    lg(
                        Level::Success,
                        MSG_DIR_PREFIX@ + patch_dirs()[s.valid[s.k as int] as int] + MSG_COPIED@,
                    ),
                    MessageView::Progress(patch_pct(s.k as int, patch_total(s))),
                ],
                s.k + 1,
                c,
            ),
        },
        Stage::AsarChecked => if o == OutcomeView::Flag(true) {
            (at(s, Stage::AsarRemoved), none, Work::RemoveFile(Place::Asar))
        } else {
            (at(s, Stage::Packed), none, Work::Pack)
        },
        Stage::AsarRemoved => match o {
            OutcomeView::Done(Err(e)) => fail(s, none, e),
            _ => (at(s, Stage::Packed), seq![lg(Level::Info, MSG_ORIG_REMOVED@)], Work::Pack),
        },
        Stage::Packed => match o {
            OutcomeView::Done(Err(e)) => fail(s, none, e),
            _ => (
                at(s, Stage::TempChecked),
                seq![
                    lg(Level::Success, MSG_PACKED@),
                    MessageView::Progress(90),
                    lg(Level::Info, MSG_STEP7@),
                ],
                Work::Exists(Place::AppFolder),
            ),
        },
        Stage::TempChecked => if o == OutcomeView::Flag(true) {
            (at(s, Stage::TempRemoved), none, Work::RemoveDirAll(Place::AppFolder))
        } else {
            finish_ok(s, none)
        },
        Stage::TempRemoved => match o {
            OutcomeView::Done(Err(e)) => fail(s, none, e),
            _ => finish_ok(s, seq![lg(Level::Success, MSG_TEMP_REMOVED@)]),
        },
        Stage::RestoreAppChecked => if o == OutcomeView::Flag(true) {
            (at(s, Stage::RestoreAppRemoved), none, Work::RemoveDirAll(Place::AppFolder))
        } else {
            restore_backup(s, none)
        },
        Stage::RestoreAppRemoved => match o {
            OutcomeView::Done(Err(e)) => finish_cancel(
                s,
                seq![lg(Level::Error, MSG_RESTORE_FAIL@ + error_text(e))],
            ),
            _ => restore_backup(s, none),
        },
        Stage::RestoreBackupChecked => if o == OutcomeView::Flag(true) {
            (at(s, Stage::RestoreCopied), none, Work::Copy(Place::Backup, Place::Asar))
        } else {
            finish_cancel(s, none)
        },
        Stage::RestoreCopied => match o {
            OutcomeView::Done(Err(e)) => finish_cancel(
                s,
                seq![lg(Level::Error, MSG_RESTORE_FAIL@ + error_text(e))],
            ),
            _ => finish_cancel(s, seq![lg(Level::Success, MSG_RESTORED@)]),
        },
        Stage::Over => (s, none, Work::Done),
    }
}

/// Appends a message.
fn push_msg(ms: &mut Vec<Message>, m: Message)
    ensures
        messages_view(*final(ms)) == messages_view(*old(ms)).push(message_view(m)),
{
    let ghost before = *ms;
    ms.push(m);
    assert(messages_view(*ms) =~= messages_view(before).push(message_view(m)));
}

/// Appends a log message.
fn push_log(ms: &mut Vec<Message>, level: Level, text: String)
    ensures
        messages_view(*final(ms)) == messages_view(*old(ms)).push(lg(level, text@)),
{
    push_msg(ms, log(text, level));
}

impl Installer {
    /// An install of the game at `game_path` that has not begun.
    pub fn new(game_path: String, cancel: Arc<AtomicBool>) -> (r: Self)
        ensures
            r@ == (InstallerView {
                game_path: game_path@,
                cancel,
                stage: Stage::Ready,
                asar_known: false,
                folders_known: false,
                valid: seq![],
                k: 0,
            }),
            wf(r@),
    {
        Installer {
            game_path,
            cancel,
            stage: Stage::Ready,
            asar_known: false,
            folders_known: false,
            valid: Vec::new(),
            k: 0,
        }
    }

    /// The stage of the install.
    pub fn stage(&self) -> (st: Stage)
        ensures
            st == self@.stage,
    {
        self.stage
    }

    /// Whether the install takes the outcome `o` now.
    pub fn accepts_outcome(&self, o: &Outcome) -> (r: bool)
        ensures
            r == accepts(self@, outcome_view(*o)),
    {
        match self.stage {
            Stage::Ready => matches!(o, Outcome::Started),
            Stage::FindingAsar => matches!(o, Outcome::Asar(_)),
            Stage::BackupChecked | Stage::AppChecked | Stage::AsarChecked | Stage::TempChecked
            | Stage::RestoreAppChecked | Stage::RestoreBackupChecked => matches!(o, Outcome::Flag(_)),
            Stage::Listed => matches!(o, Outcome::Patches(_)),
            Stage::Over => false,
            _ => matches!(o, Outcome::Done(_)),
        }
    }

    fn finish_cancel_x(&mut self, ms: &mut Vec<Message>) -> (w: Work)
        requires
            wf(old(self)@),
        ensures
            (final(self)@, messages_view(*final(ms)), w) == finish_cancel(old(self)@, messages_view(*old(ms))),
            wf(final(self)@),
    {
        push_msg(ms, Message::Finished { success: false, message: owned(MSG_CANCELLED_END) });
        self.stage = Stage::Over;
        Work::Done
    }

    fn restore_backup_x(&mut self, ms: &mut Vec<Message>) -> (w: Work)
        requires
            wf(old(self)@),
        ensures
            (final(self)@, messages_view(*final(ms)), w) == restore_backup(old(self)@, messages_view(*old(ms))),
            wf(final(self)@),
    {
        if self.folders_known && self.asar_known {
            self.stage = Stage::RestoreBackupChecked;
            Work::Exists(Place::Backup)
        } else {
            self.finish_cancel_x(ms)
        }
    }

    fn fail_x(&mut self, ms: &mut Vec<Message>, e: InstallError) -> (w: Work)
        requires
            wf(old(self)@),
        ensures
            (final(self)@, messages_view(*final(ms)), w) == fail(old(self)@, messages_view(*old(ms)), error_view(e)),
            wf(final(self)@),
    {
        match e {
            InstallError::Cancelled => {
                push_log(ms, Level::Warning, owned(MSG_CANCELLING));
                if self.folders_known {
                    self.stage = Stage::RestoreAppChecked;
                    Work::Exists(Place::AppFolder)
                } else {
                    self.restore_backup_x(ms)
                }
            },
            InstallError::Other(t) => {
                let ghost before = messages_view(*ms);
                push_log(ms, Level::Error, owned(RULE));
                push_log(ms, Level::Error, cat(MSG_ERROR_AT, t.as_str()));
                push_log(ms, Level::Error, owned(RULE));
                push_msg(ms, Message::Finished { success: false, message: cat(MSG_FAILED_END, t.as_str()) });
                assert(messages_view(*ms) =~= before + seq![
                    lg(Level::Error, RULE@),
                    lg(Level::Error, MSG_ERROR_AT@ + t@),
                    lg(Level::Error, RULE@),
                    MessageView::Finished(false, MSG_FAILED_END@ + t@),
                ]);
                self.stage = Stage::Over;
                Work::Done
            },
        }
    }

    fn next_patch_x(&mut self, ms: &mut Vec<Message>, k: usize, c: bool) -> (w: Work)
        requires
            wf(old(self)@),
            k <= old(self)@.valid.len(),
        ensures
            (final(self)@, messages_view(*final(ms)), w) == next_patch(
                old(self)@,
                messages_view(*old(ms)),
                k as int,
                c,
            ),
            wf(final(self)@),
    {
        if c {
            self.fail_x(ms, InstallError::Cancelled)
        } else if k < self.valid.len() {
            let d = self.valid[k];
            let name = patch_dir(d);
            let m = cat(MSG_DIR_PREFIX, name);
            push_log(ms, Level::Info, cat(m.as_str(), MSG_COPYING));
            self.stage = Stage::Writing;
            self.k = k;
            Work::WritePatchDir(d)
        } else {
            push_log(ms, Level::Info, owned(MSG_STEP6));
            self.stage = Stage::AsarChecked;
            Work::IsFile(Place::Asar)
        }
    }

    fn finish_ok_x(&mut self, ms: &mut Vec<Message>) -> (w: Work)
        requires
            wf(old(self)@),
        ensures
            (final(self)@, messages_view(*final(ms)), w) == finish_ok(old(self)@, messages_view(*old(ms))),
            wf(final(self)@),
    {
        let ghost before = messages_view(*ms);
        push_msg(ms, Message::Progress(100));
        push_log(ms, Level::Info, owned(RULE));
        push_log(ms, Level::Success, owned(MSG_DONE));
        push_log(ms, Level::Success, owned(MSG_PLAY));
        push_log(ms, Level::Info, owned(RULE));
        push_msg(ms, Message::Finished { success: true, message: owned(MSG_COMPLETE) });
        assert(messages_view(*ms) =~= before + seq![
            MessageView::Progress(100),
            lg(Level::Info, RULE@),
            lg(Level::Success, MSG_DONE@),
            lg(Level::Success, MSG_PLAY@),
            lg(Level::Info, RULE@),
            MessageView::Finished(true, MSG_COMPLETE@),
        ]);
        self.stage = Stage::Over;
        self.asar_known = false;
        self.folders_known = false;
        Work::Done
    }

    fn after_backup_x(&mut self, ms: &mut Vec<Message>, c: bool) -> (w: Work)
        requires
            wf(old(self)@),
        ensures
            (final(self)@, messages_view(*final(ms)), w) == after_backup(old(self)@, messages_view(*old(ms)), c),
            wf(final(self)@),
    {
        push_msg(ms, Message::Progress(15));
        if c {
            self.fail_x(ms, InstallError::Cancelled)
        } else {
            push_log(ms, Level::Info, owned(MSG_STEP3));
            self.stage = Stage::AppChecked;
            Work::Exists(Place::AppFolder)
        }
    }

    fn after_clean_x(&mut self, ms: &mut Vec<Message>, c: bool) -> (w: Work)
        requires
            wf(old(self)@),
        ensures
            (final(self)@, messages_view(*final(ms)), w) == after_clean(old(self)@, messages_view(*old(ms)), c),
            wf(final(self)@),
    {
        push_msg(ms, Message::Progress(20));
        if c {
            self.fail_x(ms, InstallError::Cancelled)
        } else {
            push_log(ms, Level::Info, owned(MSG_STEP4));
            self.stage = Stage::Extracted;
            Work::Extract
        }
    }

    fn listed_x(&mut self, ms: &mut Vec<Message>, bs: &Vec<bool>, c: bool) -> (w: Work)
        requires
            wf(old(self)@),
            old(self)@.stage == Stage::Listed,
            messages_view(*old(ms)) == Seq::<MessageView>::empty(),
        ensures
            (final(self)@, messages_view(*final(ms)), w) == listed(old(self)@, bs@, c),
            wf(final(self)@),
    {
        self.valid = bundled_dirs(bs);
        self.k = 0;
        if self.valid.len() == 0 {
            push_log(ms, Level::Warning, owned(MSG_NO_PATCHES));
            assert(messages_view(*ms) =~= seq![lg(Level::Warning, MSG_NO_PATCHES@)]);
        }
        self.next_patch_x(ms, 0, c)
    }
}

/// The text of a failed operation.
fn error_text_of(e: InstallError) -> (t: String)
    ensures
        t@ == error_text(error_view(e)),
{
    match e {
        InstallError::Other(t) => t,
        InstallError::Cancelled => owned("cancelled"),
    }
}

impl Installer {
    #[verifier::spinoff_prover]
    fn step_begin(&mut self, o: Outcome, c: bool) -> (r: (Vec<Message>, Work))
        requires
            wf(old(self)@),
            accepts(old(self)@, outcome_view(o)),
            old(self)@.stage == Stage::Ready || old(self)@.stage == Stage::FindingAsar || old(self)@.stage == Stage::BackupChecked || old(self)@.stage == Stage::BackupCopied,
        ensures
            (final(self)@, messages_view(r.0), r.1) == next(old(self)@, outcome_view(o), c),
            wf(final(self)@),
    {
        let mut ms: Vec<Message> = Vec::new();
        assert(messages_view(ms) =~= Seq::<MessageView>::empty());
        let w = match self.stage {
            Stage::Ready => {
                push_log(&mut ms, Level::Info, owned(RULE));
                push_log(&mut ms, Level::Info, owned(MSG_START));
                push_log(&mut ms, Level::Info, owned(MSG_STEP1));
                assert(messages_view(ms) =~= seq![
                    lg(Level::Info, RULE@),
                    lg(Level::Info, MSG_START@),
                    lg(Level::Info, MSG_STEP1@),
                ]);
                self.stage = Stage::FindingAsar;
                Work::FindAsar
            },
            Stage::FindingAsar => match o {
                Outcome::Asar(Some((d, has_parent))) => {
                    push_log(&mut ms, Level::Success, cat(MSG_ASAR_AT, d.as_str()));
                    push_msg(&mut ms, Message::Progress(5));
                    assert(messages_view(ms) =~= seq![
                        lg(Level::Success, MSG_ASAR_AT@ + d@),
                        MessageView::Progress(5),
                    ]);
                    self.asar_known = true;
                    if c {
                        self.fail_x(&mut ms, InstallError::Cancelled)
                    } else if !has_parent {
                        self.fail_x(&mut ms, InstallError::Other(owned(MSG_NO_RESOURCES)))
                    } else {
                        push_log(&mut ms, Level::Info, owned(MSG_STEP2));
                        self.folders_known = true;
                        self.stage = Stage::BackupChecked;
                        Work::Exists(Place::Backup)
                    }
                },
                _ => self.fail_x(&mut ms, InstallError::Other(owned(MSG_NO_ASAR))),
            },
            Stage::BackupChecked => match o {
                Outcome::Flag(true) => {
                    push_log(&mut ms, Level::Info, owned(MSG_KEEP_BACKUP));
                    assert(messages_view(ms) =~= seq![lg(Level::Info, MSG_KEEP_BACKUP@)]);
                    self.after_backup_x(&mut ms, c)
                },
                _ => {
                    self.stage = Stage::BackupCopied;
                    Work::Copy(Place::Asar, Place::Backup)
                },
            },
            Stage::BackupCopied => match o {
                Outcome::Done(Err(e)) => self.fail_x(&mut ms, e),
                _ => {
                    push_log(&mut ms, Level::Success, owned(MSG_BACKUP_DONE));
                    assert(messages_view(ms) =~= seq![lg(Level::Success, MSG_BACKUP_DONE@)]);
                    self.after_backup_x(&mut ms, c)
                },
            },
            _ => Work::Done,
        };
        (ms, w)
    }

    #[verifier::spinoff_prover]
    fn step_clean(&mut self, o: Outcome, c: bool) -> (r: (Vec<Message>, Work))
        requires
            wf(old(self)@),
            accepts(old(self)@, outcome_view(o)),
            old(self)@.stage == Stage::AppChecked || old(self)@.stage == Stage::AppRemoved || old(self)@.stage == Stage::Extracted,
        ensures
            (final(self)@, messages_view(r.0), r.1) == next(old(self)@, outcome_view(o), c),
            wf(final(self)@),
    {
        let mut ms: Vec<Message> = Vec::new();
        assert(messages_view(ms) =~= Seq::<MessageView>::empty());
        let w = match self.stage {
            Stage::AppChecked => match o {
                Outcome::Flag(true) => {
                    push_log(&mut ms, Level::Info, owned(MSG_REMOVING_APP));
                    assert(messages_view(ms) =~= seq![lg(Level::Info, MSG_REMOVING_APP@)]);
                    self.stage = Stage::AppRemoved;
                    Work::RemoveDirAll(Place::AppFolder)
                },
                _ => self.after_clean_x(&mut ms, c),
            },
            Stage::AppRemoved => match o {
                Outcome::Done(Err(e)) => self.fail_x(&mut ms, e),
                _ => {
                    push_log(&mut ms, Level::Success, owned(MSG_REMOVED));
                    assert(messages_view(ms) =~= seq![lg(Level::Success, MSG_REMOVED@)]);
                    self.after_clean_x(&mut ms, c)
                },
            },
            Stage::Extracted => match o {
                Outcome::Done(Err(e)) => self.fail_x(&mut ms, e),
                _ => {
                    push_log(&mut ms, Level::Success, owned(MSG_EXTRACTED));
                    push_msg(&mut ms, Message::Progress(40));
                    assert(messages_view(ms) =~= seq![
                        lg(Level::Success, MSG_EXTRACTED@),
                        MessageView::Progress(40),
                    ]);
                    if c {
                        self.fail_x(&mut ms, InstallError::Cancelled)
                    } else {
                        push_log(&mut ms, Level::Info, owned(MSG_STEP5));
                        self.stage = Stage::Listed;
                        Work::ListPatchDirs
                    }
                },
            },
            _ => Work::Done,
        };
        (ms, w)
    }

    #[verifier::spinoff_prover]
    fn step_patches(&mut self, o: Outcome, c: bool) -> (r: (Vec<Message>, Work))
        requires
            wf(old(self)@),
            accepts(old(self)@, outcome_view(o)),
            old(self)@.stage == Stage::Listed || old(self)@.stage == Stage::Writing,
        ensures
            (final(self)@, messages_view(r.0), r.1) == next(old(self)@, outcome_view(o), c),
            wf(final(self)@),
    {
        let mut ms: Vec<Message> = Vec::new();
        assert(messages_view(ms) =~= Seq::<MessageView>::empty());
        let w = match self.stage {
            Stage::Listed => match o {
                Outcome::Patches(bs) => self.listed_x(&mut ms, &bs, c),
                _ => {
                    let empty: Vec<bool> = Vec::new();
                    assert(empty@ =~= Seq::<bool>::empty());
                    self.listed_x(&mut ms, &empty, c)
                },
            },
            Stage::Writing => match o {
                Outcome::Done(Err(e)) => self.fail_x(&mut ms, e),
                _ => {
                    let name = patch_dir(self.valid[self.k]);
                    let m = cat(MSG_DIR_PREFIX, name);
                    push_log(&mut ms, Level::Success, cat(m.as_str(), MSG_COPIED));
                    let total: usize = if self.valid.len() >= 1 {
                        self.valid.len()
                    } else {
                        1
                    };
                    let p: usize = 40 + 40 * (self.k + 1) / total;
                    let pct: u8 = if p < 80 {
                        p as u8
                    } else {
                        80
                    };
                    push_msg(&mut ms, Message::Progress(pct));
                    assert(messages_view(ms) =~= seq![
                        lg(
                            Level::Success,
                            MSG_DIR_PREFIX@ + patch_dirs()[self@.valid[self@.k as int] as int]
                                + MSG_COPIED@,
                        ),
                        MessageView::Progress(patch_pct(self@.k as int, patch_total(self@))),
                    ]);
                    let k1 = self.k + 1;
                    self.next_patch_x(&mut ms, k1, c)
                },
            },
            _ => Work::Done,
        };
        (ms, w)
    }

    #[verifier::spinoff_prover]
    fn step_repack(&mut self, o: Outcome, c: bool) -> (r: (Vec<Message>, Work))
        requires
            wf(old(self)@),
            accepts(old(self)@, outcome_view(o)),
            old(self)@.stage == Stage::AsarChecked || old(self)@.stage == Stage::AsarRemoved || old(self)@.stage == Stage::Packed || old(self)@.stage == Stage::TempChecked || old(self)@.stage == Stage::TempRemoved,
        ensures
            (final(self)@, messages_view(r.0), r.1) == next(old(self)@, outcome_view(o), c),
            wf(final(self)@),
    {
        let mut ms: Vec<Message> = Vec::new();
        assert(messages_view(ms) =~= Seq::<MessageView>::empty());
        let w = match self.stage {
            Stage::AsarChecked => match o {
                Outcome::Flag(true) => {
                    self.stage = Stage::AsarRemoved;
                    Work::RemoveFile(Place::Asar)
                },
                _ => {
                    self.stage = Stage::Packed;
                    Work::Pack
                },
            },
            Stage::AsarRemoved => match o {
                Outcome::Done(Err(e)) => self.fail_x(&mut ms, e),
                _ => {
                    push_log(&mut ms, Level::Info, owned(MSG_ORIG_REMOVED));
                    assert(messages_view(ms) =~= seq![lg(Level::Info, MSG_ORIG_REMOVED@)]);
                    self.stage = Stage::Packed;
                    Work::Pack
                },
            },
            Stage::Packed => match o {
                Outcome::Done(Err(e)) => self.fail_x(&mut ms, e),
                _ => {
                    push_log(&mut ms, Level::Success, owned(MSG_PACKED));
                    push_msg(&mut ms, Message::Progress(90));
                    push_log(&mut ms, Level::Info, owned(MSG_STEP7));
                    assert(messages_view(ms) =~= seq![
                        lg(Level::Success, MSG_PACKED@),
                        MessageView::Progress(90),
                        lg(Level::Info, MSG_STEP7@),
                    ]);
                    self.stage = Stage::TempChecked;
                    Work::Exists(Place::AppFolder)
                },
            },
            Stage::TempChecked => match o {
                Outcome::Flag(true) => {
                    self.stage = Stage::TempRemoved;
                    Work::RemoveDirAll(Place::AppFolder)
                },
                _ => self.finish_ok_x(&mut ms),
            },
            Stage::TempRemoved => match o {
                Outcome::Done(Err(e)) => self.fail_x(&mut ms, e),
                _ => {
                    push_log(&mut ms, Level::Success, owned(MSG_TEMP_REMOVED));
                    assert(messages_view(ms) =~= seq![lg(Level::Success, MSG_TEMP_REMOVED@)]);
                    self.finish_ok_x(&mut ms)
                },
            },
            _ => Work::Done,
        };
        (ms, w)
    }

    #[verifier::spinoff_prover]
    fn step_restore(&mut self, o: Outcome, c: bool) -> (r: (Vec<Message>, Work))
        requires
            wf(old(self)@),
            accepts(old(self)@, outcome_view(o)),
            old(self)@.stage == Stage::RestoreAppChecked || old(self)@.stage == Stage::RestoreAppRemoved || old(self)@.stage == Stage::RestoreBackupChecked || old(self)@.stage == Stage::RestoreCopied || old(self)@.stage == Stage::Over,
        ensures
            (final(self)@, messages_view(r.0), r.1) == next(old(self)@, outcome_view(o), c),
            wf(final(self)@),
    {
        let mut ms: Vec<Message> = Vec::new();
        assert(messages_view(ms) =~= Seq::<MessageView>::empty());
        let w = match self.stage {
            Stage::RestoreAppChecked => match o {
                Outcome::Flag(true) => {
                    self.stage = Stage::RestoreAppRemoved;
                    Work::RemoveDirAll(Place::AppFolder)
                },
                _ => self.restore_backup_x(&mut ms),
            },
            Stage::RestoreAppRemoved => match o {
                Outcome::Done(Err(e)) => {
                    let t = error_text_of(e);
                    push_log(&mut ms, Level::Error, cat(MSG_RESTORE_FAIL, t.as_str()));
                    assert(messages_view(ms) =~= seq![lg(Level::Error, MSG_RESTORE_FAIL@ + t@)]);
                    self.finish_cancel_x(&mut ms)
                },
                _ => self.restore_backup_x(&mut ms),
            },
            Stage::RestoreBackupChecked => match o {
                Outcome::Flag(true) => {
                    self.stage = Stage::RestoreCopied;
                    Work::Copy(Place::Backup, Place::Asar)
                },
                _ => self.finish_cancel_x(&mut ms),
            },
            Stage::RestoreCopied => {
                match o {
                    Outcome::Done(Err(e)) => {
                        let t = error_text_of(e);
                        push_log(&mut ms, Level::Error, cat(MSG_RESTORE_FAIL, t.as_str()));
                        assert(messages_view(ms) =~= seq![lg(Level::Error, MSG_RESTORE_FAIL@ + t@)]);
                    },
                    _ => {
                        push_log(&mut ms, Level::Success, owned(MSG_RESTORED));
                        assert(messages_view(ms) =~= seq![lg(Level::Success, MSG_RESTORED@)]);
                    },
                }
                self.finish_cancel_x(&mut ms)
            },
            Stage::Over => Work::Done,
            _ => Work::Done,
        };
        (ms, w)
    }

    /// Takes the outcome `o` of the last operation, with the cancellation
    /// flag reading `c` at this step's check; gives the messages to send and
    /// the next operation.
    pub fn advance(&mut self, o: Outcome, c: bool) -> (r: (Vec<Message>, Work))
        requires
            wf(old(self)@),
            accepts(old(self)@, outcome_view(o)),
        ensures
            (final(self)@, messages_view(r.0), r.1) == next(old(self)@, outcome_view(o), c),
            wf(final(self)@),
    {
        match self.stage {
            Stage::Ready | Stage::FindingAsar | Stage::BackupChecked | Stage::BackupCopied => self.step_begin(o, c),
            Stage::AppChecked | Stage::AppRemoved | Stage::Extracted => self.step_clean(o, c),
            Stage::Listed | Stage::Writing => self.step_patches(o, c),
            Stage::AsarChecked | Stage::AsarRemoved | Stage::Packed | Stage::TempChecked | Stage::TempRemoved => self.step_repack(o, c),
            Stage::RestoreAppChecked | Stage::RestoreAppRemoved | Stage::RestoreBackupChecked | Stage::RestoreCopied | Stage::Over => self.step_restore(o, c),
        }
    }

    /// Runs the install up to its next operation: takes the outcome `o` of
    /// the last one, reads the cancellation flag, and gives the messages to
    /// send and the operation to perform next (`Work::Done` at the end).
    pub fn run(&mut self, o: Outcome) -> (r: (Vec<Message>, Work))
        requires
            wf(old(self)@),
            accepts(old(self)@, outcome_view(o)),
        ensures
            exists|c: bool|
                (final(self)@, messages_view(r.0), r.1) == #[trigger] next(old(self)@, outcome_view(o), c),
            wf(final(self)@),
    {
        let c = check_cancel(&self.cancel).is_err();
        self.advance(o, c)
    }
}

// ---------------------------------------------------------------------------
// Whole installs

/// Stages in which the install goes forward: neither restoring nor over.
pub open spec fn forward(st: Stage) -> bool {
    !(st == Stage::RestoreAppChecked || st == Stage::RestoreAppRemoved || st
        == Stage::RestoreBackupChecked || st == Stage::RestoreCopied || st == Stage::Over)
}

/// The progress last reported before a forward stage.
pub open spec fn floor(s: InstallerView) -> u8 {
    match s.stage {
        Stage::BackupChecked | Stage::BackupCopied => 5,
        Stage::AppChecked | Stage::AppRemoved => 15,
        Stage::Extracted => 20,
        Stage::Listed => 40,
        Stage::Writing => if s.k == 0 {
            40
        } else {
            patch_pct(s.k - 1, patch_total(s))
        },
        Stage::AsarChecked | Stage::AsarRemoved | Stage::Packed => if s.valid.len() == 0 {
            40
        } else {
            80
        },
        Stage::TempChecked | Stage::TempRemoved => 90,
        _ => 0,
    }
}

/// The progress values among `ms`, in order.
pub open spec fn progress_values(ms: Seq<MessageView>) -> Seq<u8>
    decreases ms.len(),
{
    if ms.len() == 0 {
        seq![]
    } else {
        progress_values(ms.drop_last()) + match ms.last() {
            MessageView::Progress(p) => seq![p],
            _ => seq![],
        }
    }
}

/// `v` never decreases.
pub open spec fn ascending(v: Seq<u8>) -> bool {
    forall|i: int, j: int| 0 <= i <= j < v.len() ==> v[i] <= v[j]
}

/// Every value of `v` lies in `lo ..= hi`.
pub open spec fn within(v: Seq<u8>, lo: int, hi: int) -> bool {
    forall|i: int| 0 <= i < v.len() ==> lo <= #[trigger] v[i] <= hi
}

proof fn lemma_progress_concat(a: Seq<MessageView>, b: Seq<MessageView>)
    ensures
        progress_values(a + b) == progress_values(a) + progress_values(b),
    decreases b.len(),
{
    if b.len() == 0 {
        assert(a + b =~= a);
        assert(progress_values(a) + progress_values(b) =~= progress_values(a));
    } else {
        assert((a + b).drop_last() =~= a + b.drop_last());
        lemma_progress_concat(a, b.drop_last());
        assert(progress_values(a + b) =~= progress_values(a) + progress_values(b));
    }
}

proof fn lemma_pv_no_progress(a: Seq<MessageView>, b: Seq<MessageView>)
    requires
        forall|i: int| 0 <= i < b.len() ==> !(#[trigger] b[i] is Progress),
    ensures
        progress_values(a + b) == progress_values(a),
    decreases b.len(),
{
    if b.len() == 0 {
        assert(a + b =~= a);
    } else {
        assert((a + b).drop_last() =~= a + b.drop_last());
        lemma_pv_no_progress(a, b.drop_last());
    }
}

proof fn lemma_pv_push(ms: Seq<MessageView>, m: MessageView)
    ensures
        progress_values(ms.push(m)) == progress_values(ms) + match m {
            MessageView::Progress(p) => seq![p],
            _ => seq![],
        },
{
    assert(ms.push(m).drop_last() =~= ms);
}

proof fn lemma_patch_pct(k: int, total: int)
    requires
        0 <= k,
        total >= 1,
    ensures
        40 <= patch_pct(k, total) <= 80,
        patch_pct(k, total) <= patch_pct(k + 1, total),
        k + 1 >= total ==> patch_pct(k, total) == 80,
{
    assert(40 * (k + 1) / total <= 40 * (k + 2) / total) by (nonlinear_arith)
        requires 0 <= k, total >= 1;
    assert(0 <= 40 * (k + 1) / total) by (nonlinear_arith)
        requires 0 <= k, total >= 1;
    if k + 1 >= total {
        assert(40 * (k + 1) / total >= 40) by (nonlinear_arith)
            requires k + 1 >= total, total >= 1;
    }
}

proof fn lemma_bundled(bs: Seq<bool>, n: int)
    requires
        0 <= n <= bs.len(),
    ensures
        bundled(bs, n).len() <= n,
        forall|i: int| 0 <= i < bundled(bs, n).len() ==> bundled(bs, n)[i] < n,
    decreases n,
{
    if n > 0 {
        lemma_bundled(bs, n - 1);
    }
}

/// A failure reports no progress and leaves the forward stages.
proof fn lemma_fail(s: InstallerView, ms: Seq<MessageView>, e: ErrorView)
    requires
        wf(s),
    ensures
        progress_values(fail(s, ms, e).1) == progress_values(ms),
        !forward(fail(s, ms, e).0.stage),
        wf(fail(s, ms, e).0),
{
    match e {
        ErrorView::Cancelled => {
            let ms2 = ms.push(lg(Level::Warning, MSG_CANCELLING@));
            lemma_pv_push(ms, lg(Level::Warning, MSG_CANCELLING@));
            assert(progress_values(ms2) =~= progress_values(ms));
            lemma_pv_push(ms2, MessageView::Finished(false, MSG_CANCELLED_END@));
            assert(progress_values(ms2.push(MessageView::Finished(false, MSG_CANCELLED_END@)))
                =~= progress_values(ms));
        },
        ErrorView::Other(t) => {
            let tail = seq![
                lg(Level::Error, RULE@),
                lg(Level::Error, MSG_ERROR_AT@ + t),
                lg(Level::Error, RULE@),
                MessageView::Finished(false, MSG_FAILED_END@ + t),
            ];
            assert forall|i: int| 0 <= i < tail.len() implies !(#[trigger] tail[i] is Progress) by {}
            lemma_pv_no_progress(ms, tail);
        },
    }
}

proof fn lemma_next_patch(s: InstallerView, ms: Seq<MessageView>, k: int, c: bool)
    requires
        wf(s),
        0 <= k <= s.valid.len(),
    ensures
        progress_values(next_patch(s, ms, k, c).1) == progress_values(ms),
        wf(next_patch(s, ms, k, c).0),
        forward(next_patch(s, ms, k, c).0.stage) ==> (next_patch(s, ms, k, c).0.stage
            == Stage::Writing && next_patch(s, ms, k, c).0.k == k) || (next_patch(s, ms, k, c).0.stage
            == Stage::AsarChecked && k == s.valid.len()),
        next_patch(s, ms, k, c).0.valid == s.valid,
{
    if c {
        lemma_fail(s, ms, ErrorView::Cancelled);
    } else if k < s.valid.len() {
        lemma_pv_push(ms, lg(Level::Info, MSG_DIR_PREFIX@ + patch_dirs()[s.valid[k] as int] + MSG_COPYING@));
        assert(progress_values(next_patch(s, ms, k, c).1) =~= progress_values(ms));
    } else {
        lemma_pv_push(ms, lg(Level::Info, MSG_STEP6@));
        assert(progress_values(next_patch(s, ms, k, c).1) =~= progress_values(ms));
    }
}

proof fn lemma_finish_ok(s: InstallerView, ms: Seq<MessageView>)
    requires
        wf(s),
    ensures
        progress_values(finish_ok(s, ms).1) == progress_values(ms).push(100),
        !forward(finish_ok(s, ms).0.stage),
        wf(finish_ok(s, ms).0),
{
    let m1 = ms.push(MessageView::Progress(100));
    lemma_pv_push(ms, MessageView::Progress(100));
    let tail = seq![
        lg(Level::Info, RULE@),
        lg(Level::Success, MSG_DONE@),
        lg(Level::Success, MSG_PLAY@),
        lg(Level::Info, RULE@),
        MessageView::Finished(true, MSG_COMPLETE@),
    ];
    assert forall|i: int| 0 <= i < tail.len() implies !(#[trigger] tail[i] is Progress) by {}
    lemma_pv_no_progress(m1, tail);
    assert(m1 + tail =~= finish_ok(s, ms).1);
}

proof fn lemma_after(s: InstallerView, ms: Seq<MessageView>, c: bool)
    requires
        wf(s),
    ensures
        progress_values(after_backup(s, ms, c).1) == progress_values(ms).push(15),
        wf(after_backup(s, ms, c).0),
        forward(after_backup(s, ms, c).0.stage) ==> after_backup(s, ms, c).0.stage == Stage::AppChecked,
        progress_values(after_clean(s, ms, c).1) == progress_values(ms).push(20),
        wf(after_clean(s, ms, c).0),
        forward(after_clean(s, ms, c).0.stage) ==> after_clean(s, ms, c).0.stage == Stage::Extracted,
{
    let a = ms.push(MessageView::Progress(15));
    let b = ms.push(MessageView::Progress(20));
    lemma_pv_push(ms, MessageView::Progress(15));
    lemma_pv_push(ms, MessageView::Progress(20));
    if c {
        lemma_fail(s, a, ErrorView::Cancelled);
        lemma_fail(s, b, ErrorView::Cancelled);
    } else {
        lemma_pv_push(a, lg(Level::Info, MSG_STEP3@));
        lemma_pv_push(b, lg(Level::Info, MSG_STEP4@));
        assert(progress_values(a.push(lg(Level::Info, MSG_STEP3@))) =~= progress_values(ms).push(15));
        assert(progress_values(b.push(lg(Level::Info, MSG_STEP4@))) =~= progress_values(ms).push(20));
    }
}

proof fn lemma_one(m: MessageView)
    ensures
        progress_values(seq![m]) == match m {
            MessageView::Progress(p) => seq![p],
            _ => seq![],
        },
{
    lemma_pv_push(Seq::<MessageView>::empty(), m);
    assert(Seq::<MessageView>::empty().push(m) =~= seq![m]);
    assert(progress_values(Seq::<MessageView>::empty()) =~= Seq::<u8>::empty());
}

/// What a step reports of progress, and how it leaves the state.
proof fn lemma_step(s: InstallerView, o: OutcomeView, c: bool)
    requires
        wf(s),
        accepts(s, o),
    ensures
        ({
            let (s2, ms, w) = next(s, o, c);
            let pv = progress_values(ms);
            &&& wf(s2)
            &&& ascending(pv)
            &&& within(pv, floor(s) as int, 100)
            &&& forward(s2.stage) ==> forward(s.stage) && floor(s) <= floor(s2) && within(
                pv,
                0,
                floor(s2) as int,
            )
            &&& !forward(s.stage) ==> pv.len() == 0 && !forward(s2.stage)
        }),
{
    match s.stage {
        Stage::Ready | Stage::FindingAsar | Stage::BackupChecked | Stage::BackupCopied | Stage::AppChecked
        | Stage::AppRemoved | Stage::Extracted => lemma_step_early(s, o, c),
        Stage::Listed | Stage::Writing => lemma_step_middle(s, o, c),
        _ => lemma_step_late(s, o, c),
    }
}

#[verifier::spinoff_prover]
proof fn lemma_step_early(s: InstallerView, o: OutcomeView, c: bool)
    requires
        wf(s),
        accepts(s, o),
        s.stage == Stage::Ready || s.stage == Stage::FindingAsar || s.stage == Stage::BackupChecked
            || s.stage == Stage::BackupCopied || s.stage == Stage::AppChecked || s.stage
            == Stage::AppRemoved || s.stage == Stage::Extracted,
    ensures
        ({
            let (s2, ms, w) = next(s, o, c);
            let pv = progress_values(ms);
            &&& wf(s2)
            &&& ascending(pv)
            &&& within(pv, floor(s) as int, 100)
            &&& forward(s2.stage) ==> forward(s.stage) && floor(s) <= floor(s2) && within(
                pv,
                0,
                floor(s2) as int,
            )
            &&& !forward(s.stage) ==> pv.len() == 0 && !forward(s2.stage)
        }),
{
    let none = Seq::<MessageView>::empty();
    assert(progress_values(none) =~= Seq::<u8>::empty());
    match s.stage {
        Stage::Ready => {
            let a = seq![lg(Level::Info, RULE@), lg(Level::Info, MSG_START@), lg(Level::Info, MSG_STEP1@)];
            assert forall|i: int| 0 <= i < a.len() implies !(#[trigger] a[i] is Progress) by {}
            lemma_pv_no_progress(none, a);
            assert(none + a =~= a);
        },
        Stage::FindingAsar => match o {
            OutcomeView::Asar(Some((d, has_parent))) => {
                let s2 = InstallerView { asar_known: true, ..s };
                let l = lg(Level::Success, MSG_ASAR_AT@ + d);
                let ms = seq![l, MessageView::Progress(5)];
                lemma_one(l);
                lemma_pv_push(seq![l], MessageView::Progress(5));
                assert(seq![l].push(MessageView::Progress(5)) =~= ms);
                assert(progress_values(ms) =~= seq![5u8]);
                if c {
                    lemma_fail(s2, ms, ErrorView::Cancelled);
                } else if !has_parent {
                    lemma_fail(s2, ms, ErrorView::Other(MSG_NO_RESOURCES@));
                } else {
                    lemma_pv_push(ms, lg(Level::Info, MSG_STEP2@));
                    assert(progress_values(ms.push(lg(Level::Info, MSG_STEP2@))) =~= seq![5u8]);
                }
            },
            _ => lemma_fail(s, none, ErrorView::Other(MSG_NO_ASAR@)),
        },
        Stage::BackupChecked => {
            if o == OutcomeView::Flag(true) {
                lemma_one(lg(Level::Info, MSG_KEEP_BACKUP@));
                lemma_after(s, seq![lg(Level::Info, MSG_KEEP_BACKUP@)], c);
            }
        },
        Stage::BackupCopied => match o {
            OutcomeView::Done(Err(e)) => lemma_fail(s, none, e),
            _ => {
                lemma_one(lg(Level::Success, MSG_BACKUP_DONE@));
                lemma_after(s, seq![lg(Level::Success, MSG_BACKUP_DONE@)], c);
            },
        },
        Stage::AppChecked => {
            if o == OutcomeView::Flag(true) {
                lemma_one(lg(Level::Info, MSG_REMOVING_APP@));
            } else {
                lemma_after(s, none, c);
            }
        },
        Stage::AppRemoved => match o {
            OutcomeView::Done(Err(e)) => lemma_fail(s, none, e),
            _ => {
                lemma_one(lg(Level::Success, MSG_REMOVED@));
                lemma_after(s, seq![lg(Level::Success, MSG_REMOVED@)], c);
            },
        },
        Stage::Extracted => match o {
            OutcomeView::Done(Err(e)) => lemma_fail(s, none, e),
            _ => {
                let l = lg(Level::Success, MSG_EXTRACTED@);
                let ms = seq![l, MessageView::Progress(40)];
                lemma_one(l);
                lemma_pv_push(seq![l], MessageView::Progress(40));
                assert(seq![l].push(MessageView::Progress(40)) =~= ms);
                assert(progress_values(ms) =~= seq![40u8]);
                if c {
                    lemma_fail(s, ms, ErrorView::Cancelled);
                } else {
                    lemma_pv_push(ms, lg(Level::Info, MSG_STEP5@));
                    assert(progress_values(ms.push(lg(Level::Info, MSG_STEP5@))) =~= seq![40u8]);
                }
            },
        },
        _ => {},
    }
}

#[verifier::spinoff_prover]
proof fn lemma_step_middle(s: InstallerView, o: OutcomeView, c: bool)
    requires
        wf(s),
        accepts(s, o),
        s.stage == Stage::Listed || s.stage == Stage::Writing,
    ensures
        ({
            let (s2, ms, w) = next(s, o, c);
            let pv = progress_values(ms);
            &&& wf(s2)
            &&& ascending(pv)
            &&& within(pv, floor(s) as int, 100)
            &&& forward(s2.stage) ==> forward(s.stage) && floor(s) <= floor(s2) && within(
                pv,
                0,
                floor(s2) as int,
            )
            &&& !forward(s.stage) ==> pv.len() == 0 && !forward(s2.stage)
        }),
{
    let none = Seq::<MessageView>::empty();
    assert(progress_values(none) =~= Seq::<u8>::empty());
    match s.stage {
        Stage::Listed => {
            let bs = match o {
                OutcomeView::Patches(bs) => bs,
                _ => seq![],
            };
            lemma_bundled(bs, flag_count(bs));
            let s2 = InstallerView { valid: bundled(bs, flag_count(bs)), k: 0, ..s };
            let ms = if s2.valid.len() == 0 {
                seq![lg(Level::Warning, MSG_NO_PATCHES@)]
            } else {
                seq![]
            };
            lemma_one(lg(Level::Warning, MSG_NO_PATCHES@));
            lemma_next_patch(s2, ms, 0, c);
        },
        Stage::Writing => {
            let name = patch_dirs()[s.valid[s.k as int] as int];
            lemma_patch_pct(s.k as int, patch_total(s));
            if s.k > 0 {
                lemma_patch_pct(s.k - 1, patch_total(s));
            }
            match o {
                OutcomeView::Done(Err(e)) => lemma_fail(s, none, e),
                _ => {
                    let p = patch_pct(s.k as int, patch_total(s));
                    let l = lg(Level::Success, MSG_DIR_PREFIX@ + name + MSG_COPIED@);
                    let ms = seq![l, MessageView::Progress(p)];
                    lemma_one(l);
                    lemma_pv_push(seq![l], MessageView::Progress(p));
                    assert(seq![l].push(MessageView::Progress(p)) =~= ms);
                    assert(progress_values(ms) =~= seq![p]);
                    lemma_next_patch(s, ms, s.k + 1, c);
                    if s.k + 1 == s.valid.len() {
                        assert(p == 80);
                    }
                },
            }
        },
        _ => {},
    }
}

#[verifier::spinoff_prover]
proof fn lemma_step_late(s: InstallerView, o: OutcomeView, c: bool)
    requires
        wf(s),
        accepts(s, o),
        !(s.stage == Stage::Ready || s.stage == Stage::FindingAsar || s.stage == Stage::BackupChecked
            || s.stage == Stage::BackupCopied || s.stage == Stage::AppChecked || s.stage
            == Stage::AppRemoved || s.stage == Stage::Extracted || s.stage == Stage::Listed
            || s.stage == Stage::Writing),
    ensures
        ({
            let (s2, ms, w) = next(s, o, c);
            let pv = progress_values(ms);
            &&& wf(s2)
            &&& ascending(pv)
            &&& within(pv, floor(s) as int, 100)
            &&& forward(s2.stage) ==> forward(s.stage) && floor(s) <= floor(s2) && within(
                pv,
                0,
                floor(s2) as int,
            )
            &&& !forward(s.stage) ==> pv.len() == 0 && !forward(s2.stage)
        }),
{
    let none = Seq::<MessageView>::empty();
    assert(progress_values(none) =~= Seq::<u8>::empty());
    match s.stage {
        Stage::AsarRemoved => match o {
            OutcomeView::Done(Err(e)) => lemma_fail(s, none, e),
            _ => lemma_one(lg(Level::Info, MSG_ORIG_REMOVED@)),
        },
        Stage::Packed => match o {
            OutcomeView::Done(Err(e)) => lemma_fail(s, none, e),
            _ => {
                let l = lg(Level::Success, MSG_PACKED@);
                let a = seq![l, MessageView::Progress(90)];
                lemma_one(l);
                lemma_pv_push(seq![l], MessageView::Progress(90));
                assert(seq![l].push(MessageView::Progress(90)) =~= a);
                lemma_pv_push(a, lg(Level::Info, MSG_STEP7@));
                assert(a.push(lg(Level::Info, MSG_STEP7@)) =~= next(s, o, c).1);
                assert(progress_values(next(s, o, c).1) =~= seq![90u8]);
            },
        },
        Stage::TempChecked => {
            if o != OutcomeView::Flag(true) {
                lemma_finish_ok(s, none);
            }
        },
        Stage::TempRemoved => match o {
            OutcomeView::Done(Err(e)) => lemma_fail(s, none, e),
            _ => {
                lemma_one(lg(Level::Success, MSG_TEMP_REMOVED@));
                lemma_finish_ok(s, seq![lg(Level::Success, MSG_TEMP_REMOVED@)]);
            },
        },
        Stage::RestoreAppChecked | Stage::RestoreAppRemoved | Stage::RestoreBackupChecked
        | Stage::RestoreCopied => {
            let f = MessageView::Finished(false, MSG_CANCELLED_END@);
            lemma_pv_push(none, f);
            match o {
                OutcomeView::Done(Err(e)) => {
                    let l = lg(Level::Error, MSG_RESTORE_FAIL@ + error_text(e));
                    lemma_one(l);
                    lemma_pv_push(seq![l], f);
                },
                _ => {
                    lemma_one(lg(Level::Success, MSG_RESTORED@));
                    lemma_pv_push(seq![lg(Level::Success, MSG_RESTORED@)], f);
                },
            }
            assert(progress_values(next(s, o, c).1) =~= Seq::<u8>::empty());
        },
        _ => {},
    }
}

/// The state of an install that has not begun.
pub open spec fn initial(game_path: Seq<char>, cancel: Arc<AtomicBool>) -> InstallerView {
    InstallerView {
        game_path,
        cancel,
        stage: Stage::Ready,
        asar_known: false,
        folders_known: false,
        valid: seq![],
        k: 0,
    }
}

/// The state and messages after the outcomes `os`, the flag reading `cs`
/// at each step.
pub open spec fn run_from(s: InstallerView, os: Seq<OutcomeView>, cs: Seq<bool>) -> (InstallerView, Seq<MessageView>)
    decreases os.len(),
{
    if os.len() == 0 {
        (s, seq![])
    } else {
        let (s1, m1, _) = next(s, os[0], cs[0]);
        let (s2, m2) = run_from(s1, os.drop_first(), cs.drop_first());
        (s2, m1 + m2)
    }
}

/// Every outcome of `os` is one the install takes at that point.
pub open spec fn accepted_run(s: InstallerView, os: Seq<OutcomeView>, cs: Seq<bool>) -> bool
    decreases os.len(),
{
    os.len() == 0 || (accepts(s, os[0]) && accepted_run(
        next(s, os[0], cs[0]).0,
        os.drop_first(),
        cs.drop_first(),
    ))
}

proof fn lemma_run_progress(s: InstallerView, os: Seq<OutcomeView>, cs: Seq<bool>)
    requires
        wf(s),
        accepted_run(s, os, cs),
    ensures
        ascending(progress_values(run_from(s, os, cs).1)),
        within(progress_values(run_from(s, os, cs).1), floor(s) as int, 100),
        !forward(s.stage) ==> progress_values(run_from(s, os, cs).1).len() == 0,
    decreases os.len(),
{
    if os.len() > 0 {
        let (s1, m1, _) = next(s, os[0], cs[0]);
        lemma_step(s, os[0], cs[0]);
        lemma_run_progress(s1, os.drop_first(), cs.drop_first());
        let m2 = run_from(s1, os.drop_first(), cs.drop_first()).1;
        lemma_progress_concat(m1, m2);
        let p1 = progress_values(m1);
        let p2 = progress_values(m2);
        assert(progress_values(run_from(s, os, cs).1) == p1 + p2);
        assert forall|i: int, j: int| 0 <= i <= j < (p1 + p2).len() implies (p1 + p2)[i] <= (p1
            + p2)[j] by {
            if i < p1.len() && j >= p1.len() {
                assert(p1[i] <= floor(s1));
                assert(floor(s1) <= p2[j - p1.len()]);
            }
        }
        assert forall|i: int| 0 <= i < (p1 + p2).len() implies floor(s) <= #[trigger] (p1 + p2)[i]
            <= 100 by {
            if i >= p1.len() {
                assert(p2[i - p1.len()] >= floor(s1));
            }
        }
    } else {
        assert(progress_values(run_from(s, os, cs).1) =~= Seq::<u8>::empty());
    }
}

/// Over a whole install, the progress the install itself reports never
/// goes back.
pub proof fn lemma_progress_never_decreases(
    game_path: Seq<char>,
    cancel: Arc<AtomicBool>,
    os: Seq<OutcomeView>,
    cs: Seq<bool>,
)
    requires
        accepted_run(initial(game_path, cancel), os, cs),
    ensures
        ascending(progress_values(run_from(initial(game_path, cancel), os, cs).1)),
        within(progress_values(run_from(initial(game_path, cancel), os, cs).1), 0, 100),
{
    lemma_run_progress(initial(game_path, cancel), os, cs);
}

/// The messages `ms` hold no final message, or one only as their last, as
/// `over` says.
pub open spec fn ends_once(ms: Seq<MessageView>, over: bool) -> bool {
    if over {
        &&& ms.len() > 0
        &&& ms.last() is Finished
        &&& forall|i: int| 0 <= i < ms.len() - 1 ==> !(#[trigger] ms[i] is Finished)
    } else {
        forall|i: int| 0 <= i < ms.len() ==> !(#[trigger] ms[i] is Finished)
    }
}

/// A step reports the end exactly when it ends the install, as its last
/// message. Only a cancellation restores the untouched archive: the install leaves
/// its forward stages without ending only after reporting the cancellation,
/// and then, with the paths known, removes the extracted folder first and
/// later copies an existing backup back; a restoring install ends with the
/// cancellation message, a successful one with the completion message.
pub proof fn lemma_step_end(s: InstallerView, o: OutcomeView, c: bool)
    requires
        wf(s),
        accepts(s, o),
    ensures
        ({
            let (s2, ms, w) = next(s, o, c);
            &&& ends_once(ms, s2.stage == Stage::Over)
            &&& (w == Work::Done) == (s2.stage == Stage::Over)
            &&& forward(s.stage) && !forward(s2.stage) && s2.stage != Stage::Over ==> ms.len() > 0
                && ms.last() == lg(Level::Warning, MSG_CANCELLING@)
            &&& forward(s.stage) && s.folders_known && !forward(s2.stage) && s2.stage != Stage::Over
                ==> s2.stage == Stage::RestoreAppChecked && w == Work::Exists(Place::AppFolder)
            &&& s.stage == Stage::RestoreBackupChecked && o == OutcomeView::Flag(true) ==> w
                == Work::Copy(Place::Backup, Place::Asar)
            &&& forall|i: int|
                0 <= i < ms.len() ==> (#[trigger] ms[i] matches MessageView::Finished(ok, m) ==> (ok
                    ==> m == MSG_COMPLETE@) && (!ok && !forward(s.stage) ==> m == MSG_CANCELLED_END@))
        }),
{
    match s.stage {
        Stage::Ready | Stage::FindingAsar | Stage::BackupChecked | Stage::BackupCopied | Stage::AppChecked | Stage::AppRemoved | Stage::Extracted => lemma_step_end_early(s, o, c),
        Stage::Listed | Stage::Writing => lemma_step_end_middle(s, o, c),
        Stage::AsarChecked | Stage::AsarRemoved | Stage::Packed | Stage::TempChecked | Stage::TempRemoved => lemma_step_end_late(s, o, c),
        Stage::RestoreAppChecked | Stage::RestoreAppRemoved | Stage::RestoreBackupChecked | Stage::RestoreCopied => lemma_step_end_restore(s, o, c),
        Stage::Over => {},
    }
}

#[verifier::spinoff_prover]
proof fn lemma_step_end_early(s: InstallerView, o: OutcomeView, c: bool)
    requires
        wf(s),
        accepts(s, o),
        s.stage == Stage::Ready || s.stage == Stage::FindingAsar || s.stage == Stage::BackupChecked || s.stage == Stage::BackupCopied || s.stage == Stage::AppChecked || s.stage == Stage::AppRemoved || s.stage == Stage::Extracted,
    ensures
        ({
            let (s2, ms, w) = next(s, o, c);
            &&& ends_once(ms, s2.stage == Stage::Over)
            &&& (w == Work::Done) == (s2.stage == Stage::Over)
            &&& forward(s.stage) && !forward(s2.stage) && s2.stage != Stage::Over ==> ms.len() > 0
                && ms.last() == lg(Level::Warning, MSG_CANCELLING@)
            &&& forward(s.stage) && s.folders_known && !forward(s2.stage) && s2.stage != Stage::Over
                ==> s2.stage == Stage::RestoreAppChecked && w == Work::Exists(Place::AppFolder)
            &&& s.stage == Stage::RestoreBackupChecked && o == OutcomeView::Flag(true) ==> w
                == Work::Copy(Place::Backup, Place::Asar)
            &&& forall|i: int|
                0 <= i < ms.len() ==> (#[trigger] ms[i] matches MessageView::Finished(ok, m) ==> (ok
                    ==> m == MSG_COMPLETE@) && (!ok && !forward(s.stage) ==> m == MSG_CANCELLED_END@))
        }),
{
}

#[verifier::spinoff_prover]
proof fn lemma_step_end_middle(s: InstallerView, o: OutcomeView, c: bool)
    requires
        wf(s),
        accepts(s, o),
        s.stage == Stage::Listed || s.stage == Stage::Writing,
    ensures
        ({
            let (s2, ms, w) = next(s, o, c);
            &&& ends_once(ms, s2.stage == Stage::Over)
            &&& (w == Work::Done) == (s2.stage == Stage::Over)
            &&& forward(s.stage) && !forward(s2.stage) && s2.stage != Stage::Over ==> ms.len() > 0
                && ms.last() == lg(Level::Warning, MSG_CANCELLING@)
            &&& forward(s.stage) && s.folders_known && !forward(s2.stage) && s2.stage != Stage::Over
                ==> s2.stage == Stage::RestoreAppChecked && w == Work::Exists(Place::AppFolder)
            &&& s.stage == Stage::RestoreBackupChecked && o == OutcomeView::Flag(true) ==> w
                == Work::Copy(Place::Backup, Place::Asar)
            &&& forall|i: int|
                0 <= i < ms.len() ==> (#[trigger] ms[i] matches MessageView::Finished(ok, m) ==> (ok
                    ==> m == MSG_COMPLETE@) && (!ok && !forward(s.stage) ==> m == MSG_CANCELLED_END@))
        }),
{
}

#[verifier::spinoff_prover]
proof fn lemma_step_end_late(s: InstallerView, o: OutcomeView, c: bool)
    requires
        wf(s),
        accepts(s, o),
        s.stage == Stage::AsarChecked || s.stage == Stage::AsarRemoved || s.stage == Stage::Packed || s.stage == Stage::TempChecked || s.stage == Stage::TempRemoved,
    ensures
        ({
            let (s2, ms, w) = next(s, o, c);
            &&& ends_once(ms, s2.stage == Stage::Over)
            &&& (w == Work::Done) == (s2.stage == Stage::Over)
            &&& forward(s.stage) && !forward(s2.stage) && s2.stage != Stage::Over ==> ms.len() > 0
                && ms.last() == lg(Level::Warning, MSG_CANCELLING@)
            &&& forward(s.stage) && s.folders_known && !forward(s2.stage) && s2.stage != Stage::Over
                ==> s2.stage == Stage::RestoreAppChecked && w == Work::Exists(Place::AppFolder)
            &&& s.stage == Stage::RestoreBackupChecked && o == OutcomeView::Flag(true) ==> w
                == Work::Copy(Place::Backup, Place::Asar)
            &&& forall|i: int|
                0 <= i < ms.len() ==> (#[trigger] ms[i] matches MessageView::Finished(ok, m) ==> (ok
                    ==> m == MSG_COMPLETE@) && (!ok && !forward(s.stage) ==> m == MSG_CANCELLED_END@))
        }),
{
}

#[verifier::spinoff_prover]
proof fn lemma_step_end_restore(s: InstallerView, o: OutcomeView, c: bool)
    requires
        wf(s),
        accepts(s, o),
        s.stage == Stage::RestoreAppChecked || s.stage == Stage::RestoreAppRemoved || s.stage == Stage::RestoreBackupChecked || s.stage == Stage::RestoreCopied,
    ensures
        ({
            let (s2, ms, w) = next(s, o, c);
            &&& ends_once(ms, s2.stage == Stage::Over)
            &&& (w == Work::Done) == (s2.stage == Stage::Over)
            &&& forward(s.stage) && !forward(s2.stage) && s2.stage != Stage::Over ==> ms.len() > 0
                && ms.last() == lg(Level::Warning, MSG_CANCELLING@)
            &&& forward(s.stage) && s.folders_known && !forward(s2.stage) && s2.stage != Stage::Over
                ==> s2.stage == Stage::RestoreAppChecked && w == Work::Exists(Place::AppFolder)
            &&& s.stage == Stage::RestoreBackupChecked && o == OutcomeView::Flag(true) ==> w
                == Work::Copy(Place::Backup, Place::Asar)
            &&& forall|i: int|
                0 <= i < ms.len() ==> (#[trigger] ms[i] matches MessageView::Finished(ok, m) ==> (ok
                    ==> m == MSG_COMPLETE@) && (!ok && !forward(s.stage) ==> m == MSG_CANCELLED_END@))
        }),
{
}

proof fn lemma_run_end(s: InstallerView, os: Seq<OutcomeView>, cs: Seq<bool>)
    requires
        wf(s),
        s.stage != Stage::Over,
        accepted_run(s, os, cs),
    ensures
        ends_once(run_from(s, os, cs).1, run_from(s, os, cs).0.stage == Stage::Over),
    decreases os.len(),
{
    if os.len() > 0 {
        let (s1, m1, _) = next(s, os[0], cs[0]);
        lemma_step(s, os[0], cs[0]);
        lemma_step_end(s, os[0], cs[0]);
        assert(accepted_run(s1, os.drop_first(), cs.drop_first()));
        if s1.stage == Stage::Over {
            if os.drop_first().len() > 0 {
                assert(!accepts(s1, os.drop_first()[0]));
            }
            assert(m1 + Seq::<MessageView>::empty() =~= m1);
            assert(run_from(s, os, cs).1 == m1);
        } else {
            lemma_run_end(s1, os.drop_first(), cs.drop_first());
            let (s2, m2) = run_from(s1, os.drop_first(), cs.drop_first());
            let all = m1 + m2;
            assert(run_from(s, os, cs).1 == all);
            assert(run_from(s, os, cs).0 == s2);
            if s2.stage == Stage::Over {
                assert(all.last() == m2.last());
                assert forall|i: int| 0 <= i < all.len() - 1 implies !(#[trigger] all[i] is Finished) by {
                    if i >= m1.len() {
                        assert(all[i] == m2[i - m1.len()]);
                    }
                }
            } else {
                assert forall|i: int| 0 <= i < all.len() implies !(#[trigger] all[i] is Finished) by {
                    if i >= m1.len() {
                        assert(all[i] == m2[i - m1.len()]);
                    }
                }
            }
        }
    } else {
        assert(run_from(s, os, cs).1 =~= Seq::<MessageView>::empty());
    }
}

/// Over a whole install, the end is reported at most once, as the very last
/// message, and exactly when the install is over.
pub proof fn lemma_end_reported_once(
    game_path: Seq<char>,
    cancel: Arc<AtomicBool>,
    os: Seq<OutcomeView>,
    cs: Seq<bool>,
)
    requires
        accepted_run(initial(game_path, cancel), os, cs),
    ensures
        ends_once(
            run_from(initial(game_path, cancel), os, cs).1,
            run_from(initial(game_path, cancel), os, cs).0.stage == Stage::Over,
        ),
{
    lemma_run_end(initial(game_path, cancel), os, cs);
}

// ---------------------------------------------------------------------------
// Progress of the archive operations

/// The range into which an archive operation's own progress is scaled:
/// extraction reports within 20 ..= 40, packing within 80 ..= 90.
pub open spec fn work_range(w: Work) -> Option<(u8, u8)> {
    match w {
        Work::Extract => Some((20u8, 40u8)),
        Work::Pack => Some((80u8, 90u8)),
        _ => None,
    }
}

/// The range into which the progress of the operation `w` is scaled, if
/// it reports any.
pub fn meter_range(w: &Work) -> (r: Option<(u8, u8)>)
    ensures
        r == work_range(*w),
{
    match w {
        Work::Extract => Some((20, 40)),
        Work::Pack => Some((80, 90)),
        _ => None,
    }
}

/// The glob of the files that packing leaves in the sidecar folder.
pub const UNPACK_GLOB: &'static str = "*.node";

/// The progress reported once an archive operation is over, at the least.
pub open spec fn after_work(s: InstallerView) -> int {
    if s.stage == Stage::Extracted {
        40
    } else {
        90
    }
}

/// A step that issues an archive operation leaves the install waiting for
/// it, with no more progress reported so far than the start of its range.
proof fn lemma_issue_work(s: InstallerView, o: OutcomeView, c: bool)
    requires
        wf(s),
        accepts(s, o),
        work_range(next(s, o, c).2) is Some,
    ensures
        next(s, o, c).2 is Extract ==> next(s, o, c).0.stage == Stage::Extracted,
        next(s, o, c).2 is Pack ==> next(s, o, c).0.stage == Stage::Packed,
        forward(next(s, o, c).0.stage),
        floor(next(s, o, c).0) <= work_range(next(s, o, c).2)->Some_0.0,
{
    lemma_step(s, o, c);
}

/// From a state waiting for an archive operation, every progress reported
/// later is at least the end of its range.
proof fn lemma_after_work_step(s: InstallerView, o: OutcomeView, c: bool)
    requires
        wf(s),
        accepts(s, o),
        s.stage == Stage::Extracted || s.stage == Stage::Packed,
    ensures
        within(progress_values(next(s, o, c).1), after_work(s), 100),
        forward(next(s, o, c).0.stage) ==> floor(next(s, o, c).0) >= after_work(s),
{
    lemma_step(s, o, c);
    let ms = next(s, o, c).1;
    if s.stage == Stage::Extracted {
        match o {
            OutcomeView::Done(Err(e)) => {
                lemma_fail(s, seq![], e);
            },
            _ => {
                let m0 = seq![lg(Level::Success, MSG_EXTRACTED@), MessageView::Progress(40)];
                lemma_fail(s, m0, ErrorView::Cancelled);
                let a0 = lg(Level::Success, MSG_EXTRACTED@);
                lemma_pv_push(Seq::<MessageView>::empty(), a0);
                assert(Seq::<MessageView>::empty().push(a0) =~= seq![a0]);
                lemma_pv_push(seq![a0], MessageView::Progress(40));
                assert(seq![a0].push(MessageView::Progress(40)) =~= m0);
                assert(progress_values(m0) =~= seq![40u8]);
                lemma_pv_push(m0, lg(Level::Info, MSG_STEP5@));
            },
        }
    } else {
        match o {
            OutcomeView::Done(Err(e)) => {
                lemma_fail(s, seq![], e);
            },
            _ => {
                let m0 = seq![
                    lg(Level::Success, MSG_PACKED@),
                    MessageView::Progress(90),
                    lg(Level::Info, MSG_STEP7@),
                ];
                let a0 = lg(Level::Success, MSG_PACKED@);
                lemma_pv_push(Seq::<MessageView>::empty(), a0);
                assert(Seq::<MessageView>::empty().push(a0) =~= seq![a0]);
                lemma_pv_push(seq![a0], MessageView::Progress(90));
                assert(seq![a0].push(MessageView::Progress(90)) =~= seq![a0, MessageView::Progress(90)]);
                lemma_pv_push(seq![a0, MessageView::Progress(90)], lg(Level::Info, MSG_STEP7@));
                assert(seq![a0, MessageView::Progress(90)].push(lg(Level::Info, MSG_STEP7@)) =~= m0);
                assert(progress_values(m0) =~= seq![90u8]);
            },
        }
    }
}

/// A run keeps the state well formed.
proof fn lemma_wf_run(s: InstallerView, os: Seq<OutcomeView>, cs: Seq<bool>)
    requires
        wf(s),
        accepted_run(s, os, cs),
    ensures
        wf(run_from(s, os, cs).0),
    decreases os.len(),
{
    if os.len() > 0 {
        lemma_step(s, os[0], cs[0]);
        lemma_wf_run(next(s, os[0], cs[0]).0, os.drop_first(), cs.drop_first());
    }
}

/// From a state waiting for an archive operation, all the progress
/// reported afterwards is at least the end of its range.
proof fn lemma_after_work_run(s: InstallerView, os: Seq<OutcomeView>, cs: Seq<bool>)
    requires
        wf(s),
        accepted_run(s, os, cs),
        s.stage == Stage::Extracted || s.stage == Stage::Packed,
    ensures
        within(progress_values(run_from(s, os, cs).1), after_work(s), 100),
{
    if os.len() > 0 {
        let (s1, m1, _) = next(s, os[0], cs[0]);
        lemma_after_work_step(s, os[0], cs[0]);
        lemma_step(s, os[0], cs[0]);
        lemma_run_progress(s1, os.drop_first(), cs.drop_first());
        let m2 = run_from(s1, os.drop_first(), cs.drop_first()).1;
        lemma_progress_concat(m1, m2);
        let p1 = progress_values(m1);
        let p2 = progress_values(m2);
        assert forall|i: int| 0 <= i < (p1 + p2).len() implies after_work(s) <= #[trigger] (p1 + p2)[i]
            <= 100 by {
            if i >= p1.len() {
                assert((p1 + p2)[i] == p2[i - p1.len()]);
            }
        }
    }
}

/// Along a run that ends in a forward state, the floor does not go down
/// and no progress reported exceeds the final floor.
proof fn lemma_run_below(s: InstallerView, os: Seq<OutcomeView>, cs: Seq<bool>)
    requires
        wf(s),
        accepted_run(s, os, cs),
        forward(run_from(s, os, cs).0.stage),
    ensures
        forward(s.stage),
        floor(s) <= floor(run_from(s, os, cs).0),
        within(progress_values(run_from(s, os, cs).1), 0, floor(run_from(s, os, cs).0) as int),
    decreases os.len(),
{
    if os.len() > 0 {
        let (s1, m1, _) = next(s, os[0], cs[0]);
        lemma_step(s, os[0], cs[0]);
        lemma_run_below(s1, os.drop_first(), cs.drop_first());
        let m2 = run_from(s1, os.drop_first(), cs.drop_first()).1;
        lemma_progress_concat(m1, m2);
        let p1 = progress_values(m1);
        let p2 = progress_values(m2);
        let f = floor(run_from(s, os, cs).0);
        assert forall|i: int| 0 <= i < (p1 + p2).len() implies 0 <= #[trigger] (p1 + p2)[i] <= f by {
            if i >= p1.len() {
                assert((p1 + p2)[i] == p2[i - p1.len()]);
            } else {
                assert((p1 + p2)[i] == p1[i]);
            }
        }
    } else {
        assert(progress_values(Seq::<MessageView>::empty()) =~= Seq::<u8>::empty());
    }
}

/// A run splits at any step: the state and messages up to it, then from it.
proof fn lemma_run_split(s: InstallerView, os: Seq<OutcomeView>, cs: Seq<bool>, n: int)
    requires
        0 <= n <= os.len(),
        os.len() == cs.len(),
    ensures
        run_from(s, os, cs).0 == run_from(run_from(s, os.take(n), cs.take(n)).0, os.skip(n), cs.skip(n)).0,
        run_from(s, os, cs).1 == run_from(s, os.take(n), cs.take(n)).1 + run_from(
            run_from(s, os.take(n), cs.take(n)).0,
            os.skip(n),
            cs.skip(n),
        ).1,
        accepted_run(s, os, cs) ==> accepted_run(s, os.take(n), cs.take(n)) && accepted_run(
            run_from(s, os.take(n), cs.take(n)).0,
            os.skip(n),
            cs.skip(n),
        ),
    decreases n,
{
    if n == 0 {
        assert(os.take(0) =~= Seq::<OutcomeView>::empty());
        assert(cs.take(0) =~= Seq::<bool>::empty());
        assert(os.skip(0) =~= os);
        assert(cs.skip(0) =~= cs);
        assert(run_from(s, os.take(0), cs.take(0)).1 + run_from(s, os, cs).1 =~= run_from(s, os, cs).1);
    } else {
        let s1 = next(s, os[0], cs[0]).0;
        let m1 = next(s, os[0], cs[0]).1;
        lemma_run_split(s1, os.drop_first(), cs.drop_first(), n - 1);
        assert(os.take(n).drop_first() =~= os.drop_first().take(n - 1));
        assert(cs.take(n).drop_first() =~= cs.drop_first().take(n - 1));
        assert(os.drop_first().skip(n - 1) =~= os.skip(n));
        assert(cs.drop_first().skip(n - 1) =~= cs.skip(n));
        assert(os.take(n)[0] == os[0]);
        assert(cs.take(n)[0] == cs[0]);
        let a = run_from(s1, os.drop_first().take(n - 1), cs.drop_first().take(n - 1)).1;
        let b = run_from(
            run_from(s1, os.drop_first().take(n - 1), cs.drop_first().take(n - 1)).0,
            os.skip(n),
            cs.skip(n),
        ).1;
        assert(m1 + (a + b) =~= (m1 + a) + b);
    }
}

/// An archive operation's progress fits between what the install reports
/// around it: over any run, when step `n` issues an operation whose
/// progress is scaled into `a ..= b`, every progress reported up to that
/// step is at most `a`, every one reported afterwards is at least `b`, and
/// `a <= b <= 100`. With the meter's own reports ascending within
/// `a ..= b`, all the progress the window receives never goes back.
pub proof fn lemma_operation_progress_fits(
    game_path: Seq<char>,
    cancel: Arc<AtomicBool>,
    os: Seq<OutcomeView>,
    cs: Seq<bool>,
    n: int,
)
    requires
        os.len() == cs.len(),
        accepted_run(initial(game_path, cancel), os, cs),
        0 <= n < os.len(),
        work_range(
            next(run_from(initial(game_path, cancel), os.take(n), cs.take(n)).0, os[n], cs[n]).2,
        ) is Some,
    ensures
        ({
            let (a, b) = work_range(
                next(run_from(initial(game_path, cancel), os.take(n), cs.take(n)).0, os[n], cs[n]).2,
            )->Some_0;
            &&& a <= b <= 100
            &&& within(
                progress_values(run_from(initial(game_path, cancel), os.take(n + 1), cs.take(n + 1)).1),
                0,
                a as int,
            )
            &&& within(
                progress_values(
                    run_from(
                        run_from(initial(game_path, cancel), os.take(n + 1), cs.take(n + 1)).0,
                        os.skip(n + 1),
                        cs.skip(n + 1),
                    ).1,
                ),
                b as int,
                100,
            )
        }),
{
    let s0 = initial(game_path, cancel);
    let sn = run_from(s0, os.take(n), cs.take(n)).0;
    let s2 = run_from(s0, os.take(n + 1), cs.take(n + 1)).0;
    lemma_run_split(s0, os, cs, n);
    lemma_run_split(s0, os, cs, n + 1);
    let ot = os.take(n + 1);
    let ct = cs.take(n + 1);
    lemma_run_split(s0, ot, ct, n);
    assert(ot.take(n) =~= os.take(n));
    assert(ct.take(n) =~= cs.take(n));
    assert(ot.skip(n) =~= seq![os[n]]);
    assert(ct.skip(n) =~= seq![cs[n]]);
    lemma_wf_run(s0, os.take(n), cs.take(n));
    assert(seq![os[n]].drop_first() =~= Seq::<OutcomeView>::empty());
    assert(seq![cs[n]].drop_first() =~= Seq::<bool>::empty());
    assert(accepts(sn, os[n]));
    let s1 = next(sn, os[n], cs[n]).0;
    assert(run_from(s1, seq![os[n]].drop_first(), seq![cs[n]].drop_first()).0 == s1);
    assert(run_from(sn, seq![os[n]], seq![cs[n]]).0 == s1);
    assert(s2 == s1);
    lemma_issue_work(sn, os[n], cs[n]);
    lemma_wf_run(s0, ot, ct);
    lemma_run_below(s0, ot, ct);
    lemma_after_work_run(s2, os.skip(n + 1), cs.skip(n + 1));
}

// ---------------------------------------------------------------------------
// Laws: the folders written, the backup, the archive replaced

/// After the folder list `bs` arrives, the folders to write are exactly the
/// bundled ones among the first eight, in increasing order; the first work,
/// unless the install stops, writes the first of them, so a folder that is
/// not bundled is never asked for.
pub proof fn lemma_writes_only_bundled(s: InstallerView, bs: Seq<bool>, c: bool)
    requires
        s.stage == Stage::Listed,
    ensures
        ({
            let v = next(s, OutcomeView::Patches(bs), c).0.valid;
            &&& forall|j: int| 0 <= j < v.len() ==> (#[trigger] v[j]) < bs.len() && v[j] < 8 && bs[v[j] as int]
            &&& forall|a: int, b: int| 0 <= a < b < v.len() ==> v[a] < v[b]
            &&& forall|i: int| 0 <= i < bs.len() && i < 8 && bs[i] ==> exists|j: int|
                0 <= j < v.len() && v[j] == i
        }),
        next(s, OutcomeView::Patches(bs), c).2 matches Work::WritePatchDir(i) ==> i < bs.len() && bs[i as int]
            && forall|x: int| 0 <= x < i ==> !bs[x],
{
    let n = flag_count(bs);
    lemma_bundled_exact(bs, n);
    let v = bundled(bs, n);
    let s2 = InstallerView { valid: v, k: 0, ..s };
    let ms = if v.len() == 0 {
        seq![lg(Level::Warning, MSG_NO_PATCHES@)]
    } else {
        seq![]
    };
    assert(next(s, OutcomeView::Patches(bs), c) == next_patch(s2, ms, 0, c));
    assert(next(s, OutcomeView::Patches(bs), c).0.valid == v) by {
        if c {
            lemma_fail_keeps_valid(s2, ms, ErrorView::Cancelled);
        }
    }
    if let Work::WritePatchDir(i) = next(s, OutcomeView::Patches(bs), c).2 {
        assert(i == v[0]);
        assert forall|x: int| 0 <= x < i implies !bs[x] by {
            if bs[x] {
                let j = choose|j: int| 0 <= j < v.len() && v[j] == x;
                if j > 0 {
                    assert(v[0] < v[j]);
                }
            }
        }
    }
}

proof fn lemma_fail_keeps_valid(s: InstallerView, ms: Seq<MessageView>, e: ErrorView)
    ensures
        fail(s, ms, e).0.valid == s.valid,
        fail(s, ms, e).2 == Work::Done || fail(s, ms, e).2 == Work::Exists(Place::AppFolder) || fail(s, ms, e).2
            == Work::Exists(Place::Backup),
{
}

/// Each step while writing folders writes the next folder of the list, in
/// increasing order, or leaves writing.
pub proof fn lemma_writes_in_order(s: InstallerView, o: OutcomeView, c: bool)
    requires
        wf(s),
        s.stage == Stage::Writing,
        forall|a: int, b: int| 0 <= a < b < s.valid.len() ==> s.valid[a] < s.valid[b],
    ensures
        next(s, o, c).2 matches Work::WritePatchDir(i) ==> i > s.valid[s.k as int] && next(s, o, c).0.valid
            == s.valid && next(s, o, c).0.k == s.k + 1 && i == s.valid[s.k + 1],
{
}

/// The backup is made once and then left alone: an existing backup is
/// kept, and the only work that writes `app.asar.backup` is the copy of the
/// untouched archive onto it when there is none, issued right after finding
/// it missing; no other step removes or overwrites it.
pub proof fn lemma_backup_left_alone(s: InstallerView, o: OutcomeView, c: bool)
    ensures
        writes_backup(next(s, o, c).2) ==> s.stage == Stage::BackupChecked && o != OutcomeView::Flag(true)
            && next(s, o, c).2 == Work::Copy(Place::Asar, Place::Backup),
        next(s, o, c).0.stage == Stage::BackupChecked ==> s.stage == Stage::FindingAsar,
{
}

/// Repacking replaces the archive itself: when `app.asar` is found to be a
/// file before repacking, it is the archive that is removed, and packing
/// follows; when it is not, packing comes at once.
pub proof fn lemma_repack_replaces_archive(s: InstallerView, o: OutcomeView, c: bool)
    requires
        s.stage == Stage::AsarChecked,
    ensures
        o == OutcomeView::Flag(true) ==> next(s, o, c).2 == Work::RemoveFile(Place::Asar),
        o != OutcomeView::Flag(true) ==> next(s, o, c).2 == Work::Pack,
{
}

} // verus!
