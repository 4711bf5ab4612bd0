//! The seven-step install: find `app.asar`, back it up, clear an old
//! extraction, extract, copy the translation folders in, repack, clean up;
//! on failure, put the untouched `app.asar` back.
//!
//! The steps that touch the file system are performed by the caller. An
//! `InstallRun` decides: given what the last operation gave, it says what to
//! report and which operation comes next.

use vstd::prelude::*;

use crate::text::owned;

verus! {

/// How a log line is shown.
#[derive(Clone, Copy, Debug, PartialEq, Eq, Structural)]
pub enum LogLevel {
    Info,
    Success,
    Warning,
    Error,
}

/// What the install reports.
#[derive(Clone, Debug)]
pub enum InstallEvent {
    Log { level: LogLevel, message: String },
    Progress { value: u32 },
    Finished { success: bool, message: String },
}

/// An event with its texts as character sequences.
pub enum EventView {
    Log(LogLevel, Seq<char>),
    Progress(u32),
    Finished(bool, Seq<char>),
}

/// The view of an event.
pub open spec fn event_view(e: InstallEvent) -> EventView {
    match e {
        InstallEvent::Log { level, message } => EventView::Log(level, message@),
        InstallEvent::Progress { value } => EventView::Progress(value),
        InstallEvent::Finished { success, message } => EventView::Finished(success, message@),
    }
}

/// The views of a list of events.
pub open spec fn events_view(v: Vec<InstallEvent>) -> Seq<EventView> {
    v@.map_values(|e: InstallEvent| event_view(e))
}

/// The translation folders copied into the extracted game, in order.
pub open spec fn patch_dirs() -> Seq<Seq<char>> {
    seq![
        "data/scenario"@,
        "data/others"@,
        "data/system"@,
        "data/fgimage"@,
        "data/image"@,
        "data/video"@,
        "data/bgimage"@,
        "tyrano"@,
    ]
}

/// The number of translation folders.
pub const PATCH_DIR_COUNT: usize = 8;

/// The name of translation folder `i`.
pub fn patch_dir(i: usize) -> (name: &'static str)
    requires
        i < PATCH_DIR_COUNT,
    ensures
        name@ == patch_dirs()[i as int],
{
    match i {
        0 => "data/scenario",
        1 => "data/others",
        2 => "data/system",
        3 => "data/fgimage",
        4 => "data/image",
        5 => "data/video",
        6 => "data/bgimage",
        _ => "tyrano",
    }
}

/// Asks `cancel` whether the install is to stop.
pub fn check_cancel<C: Fn() -> bool>(cancel: &C) -> (r: Result<(), String>)
    requires
        cancel.requires(()),
    ensures
        r is Ok ==> cancel.ensures((), false),
        r is Err ==> cancel.ensures((), true) && (r matches Err(m) && m@ == "cancelled"@),
{
    if cancel() {
        Err(owned("cancelled"))
    } else {
        Ok(())
    }
}

/// The globs of the files that packing leaves in the sidecar folder: the
/// native libraries.
pub open spec fn unpack_pattern_texts() -> Seq<Seq<char>> {
    seq!["*.node"@, "*.dll"@, "*.so"@, "*.dylib"@]
}

/// The globs of the files that packing leaves in the sidecar folder.
pub fn unpack_patterns() -> (r: Vec<&'static str>)
    ensures
        r@.map_values(|p: &'static str| p@) == unpack_pattern_texts(),
{
    let mut r: Vec<&'static str> = Vec::new();
    r.push("*.node");
    r.push("*.dll");
    r.push("*.so");
    r.push("*.dylib");
    assert(r@.map_values(|p: &'static str| p@) =~= unpack_pattern_texts());
    r
}

pub const RULE: &'static str = "============================================================";
pub const MSG_START: &'static str = "설치를 시작합니다...";
pub const MSG_STEP1: &'static str = "1단계: app.asar 파일 찾기...";
pub const MSG_NO_ASAR: &'static str = "app.asar 파일을 찾을 수 없습니다. 게임 경로를 확인해주세요.";
pub const MSG_ASAR_AT: &'static str = "app.asar 파일 위치: ";
pub const MSG_NO_PARENT: &'static str = "invalid asar path";
pub const MSG_STEP2: &'static str = "2단계: 원본 파일 백업...";
pub const MSG_TMP_FAIL: &'static str = "임시 백업 삭제 실패: ";
pub const MSG_BACKUP_FAIL: &'static str = "백업 실패: ";
pub const MSG_OLD_FAIL: &'static str = "기존 백업 삭제 실패: ";
pub const MSG_RENAME_FAIL: &'static str = "백업 교체 실패: ";
pub const MSG_BACKUP_DONE: &'static str = "백업 완료";
pub const MSG_STEP3: &'static str = "3단계: 기존 패치 파일 정리...";
pub const MSG_REMOVING_APP: &'static str = "기존 app 폴더를 삭제합니다...";
pub const MSG_REMOVE_FAIL: &'static str = "삭제 실패: ";
pub const MSG_REMOVED: &'static str = "삭제 완료";
pub const MSG_STEP4: &'static str = "4단계: app.asar 압축 해제 중... (시간이 걸릴 수 있습니다)";
pub const MSG_EXTRACT_FAIL: &'static str = "압축 해제 실패: ";
pub const MSG_EXTRACTED: &'static str = "압축 해제 완료";
pub const MSG_STEP5: &'static str = "5단계: 번역 파일 복사 중...";
pub const MSG_DIR_PREFIX: &'static str = "  - ";
pub const MSG_COPYING: &'static str = " 폴더 복사 중...";
pub const MSG_COPIED: &'static str = " 복사 완료";
pub const MSG_NO_DIR: &'static str = "번역 폴더 없음: ";
pub const MSG_COPY_FAIL: &'static str = "번역 복사 실패: ";
pub const MSG_STEP6: &'static str = "6단계: app 폴더를 app.asar로 재압축 중... (시간이 걸릴 수 있습니다)";
pub const MSG_ORIG_FAIL: &'static str = "원본 삭제 실패: ";
pub const MSG_ORIG_REMOVED: &'static str = "원본 app.asar 파일을 삭제했습니다.";
pub const MSG_PACK_FAIL: &'static str = "재압축 실패: ";
pub const MSG_PACKED: &'static str = "app.asar 재압축 완료";
pub const MSG_STEP7: &'static str = "7단계: 임시 파일 정리 중...";
pub const MSG_TEMP_FAIL: &'static str = "임시 폴더 삭제 실패: ";
pub const MSG_TEMP_REMOVED: &'static str = "app 폴더를 삭제했습니다.";
pub const MSG_DONE: &'static str = "한글패치가 완료되었습니다!";
pub const MSG_PLAY: &'static str = "Steam에서 게임을 실행하면 한글로 플레이하실 수 있습니다.";
pub const MSG_MAC_NOTE: &'static str = "macOS 사용자 안내:";
pub const MSG_MAC_1: &'static str = "게임 실행 시 '손상되었습니다' 경고가 나타날 수 있습니다.";
pub const MSG_MAC_2: &'static str = "이는 정상적인 macOS 보안 경고이며, 다음과 같이 해결하세요:";
pub const MSG_MAC_3: &'static str = "1. 시스템 설정 > 개인정보 보호 및 보안 열기";
pub const MSG_MAC_4: &'static str = "2. '그래도 열기' 버튼 클릭";
pub const MSG_CANCELLING: &'static str = "설치가 취소되었습니다. 원본 파일을 복원 중...";
pub const MSG_ERROR_AT: &'static str = "설치 중 오류 발생: ";
pub const MSG_RESTORED: &'static str = "원본 파일 복원 완료";
pub const MSG_RESTORE_FAIL: &'static str = "복원 중 오류: ";
pub const MSG_CANCELLED_END: &'static str = "설치가 취소되었습니다.\n원본 파일이 복원되었습니다.";
pub const MSG_FAILED_END: &'static str = "설치 중 오류가 발생했습니다:\n\n";
pub const MSG_COMPLETE: &'static str = "한글패치가 완료되었습니다!\n\nSteam에서 게임을 실행하면 한글로 플레이하실 수 있습니다.";
pub const MSG_COMPLETE_MAC: &'static str = "한글패치가 완료되었습니다!\n\nSteam에서 게임을 실행하시면 됩니다.\n\n'손상되었습니다' 경고가 나타나면:\n시스템 설정 > 개인정보 보호 및 보안\n에서 '그래도 열기' 버튼을 클릭하세요.";

/// The message shown when the install has finished.
pub open spec fn complete_text(macos: bool) -> Seq<char> {
    if macos {
        MSG_COMPLETE_MAC@
    } else {
        MSG_COMPLETE@
    }
}

/// The message shown when the install has finished, on macOS or elsewhere.
pub fn complete_message(macos: bool) -> (m: String)
    ensures
        m@ == complete_text(macos),
{
    if macos {
        owned(MSG_COMPLETE_MAC)
    } else {
        owned(MSG_COMPLETE)
    }
}

/// A place next to `app.asar` that an operation touches.
#[derive(Clone, Copy, Debug, PartialEq, Eq, Structural)]
pub enum Place {
    /// `app.asar` itself.
    Asar,
    /// The `app` folder it is extracted into.
    AppFolder,
    /// `app.asar.backup`.
    Backup,
    /// `app.asar.backup.tmp`, where the backup is written first.
    BackupTmp,
}

/// The next operation the caller performs, and what it hands back.
#[derive(Clone, Copy, Debug, PartialEq, Eq, Structural)]
pub enum Work {
    /// Look for `app.asar` under the game folder: `Outcome::Asar`.
    FindAsar,
    /// Whether the place exists: `Outcome::Flag`.
    Exists(Place),
    /// Whether the place exists and is a file: `Outcome::Flag`.
    IsFile(Place),
    /// Remove a file: `Outcome::Done`.
    RemoveFile(Place),
    /// Remove a folder and everything in it: `Outcome::Done`.
    RemoveDirAll(Place),
    /// Copy a file: `Outcome::Done`.
    Copy(Place, Place),
    /// Rename a file: `Outcome::Done`.
    Rename(Place, Place),
    /// Extract `app.asar` into the `app` folder: `Outcome::Done`.
    Extract,
    /// Which translation folders are bundled: `Outcome::Patches`.
    ListPatchDirs,
    /// Write translation folder `i` into the `app` folder: `Outcome::Done`,
    /// or `Outcome::Missing` if it is not bundled.
    WritePatchDir(usize),
    /// Pack the `app` folder into `app.asar`, the native libraries unpacked:
    /// `Outcome::Done`.
    Pack,
    /// Nothing more to do.
    Done,
}

/// What the caller's last operation gave.
#[derive(Debug)]
pub enum Outcome {
    /// The install is to begin.
    Started,
    /// `app.asar` was found, with its path as displayed and whether it has a
    /// parent folder; or it was not found.
    Asar(Option<(String, bool)>),
    /// The answer to `Exists` or `IsFile`.
    Flag(bool),
    /// The operation succeeded, or failed with the error's text.
    Done(Result<(), String>),
    /// The translation folder to write is not bundled.
    Missing,
    /// For each translation folder, whether it is bundled.
    Patches(Vec<bool>),
}

/// An outcome with its texts as character sequences.
pub enum OutcomeView {
    Started,
    Asar(Option<(Seq<char>, bool)>),
    Flag(bool),
    Done(Result<(), Seq<char>>),
    Missing,
    Patches(Seq<bool>),
}

/// The view of an outcome.
pub open spec fn outcome_view(o: Outcome) -> OutcomeView {
    match o {
        Outcome::Started => OutcomeView::Started,
        Outcome::Asar(a) => OutcomeView::Asar(
            match a {
                Some((d, p)) => Some((d@, p)),
                None => None,
            },
        ),
        Outcome::Flag(b) => OutcomeView::Flag(b),
        Outcome::Done(r) => OutcomeView::Done(
            match r {
                Ok(()) => Ok(()),
                Err(e) => Err(e@),
            },
        ),
        Outcome::Missing => OutcomeView::Missing,
        Outcome::Patches(v) => OutcomeView::Patches(v@),
    }
}

/// Where the install stands: which outcome it waits for.
#[derive(Clone, Copy, Debug, PartialEq, Eq, Structural)]
pub enum Stage {
    Ready,
    FindingAsar,
    TmpChecked,
    TmpRemoved,
    Copied,
    OldChecked,
    OldRemoved,
    Renamed,
    AppChecked,
    AppRemoved,
    Extracted,
    Listed,
    Writing,
    AsarChecked,
    AsarRemoved,
    Packed,
    TempChecked,
    TempRemoved,
    RestoreAppChecked,
    RestoreAppRemoved,
    RestoreBackupChecked,
    RestoreCopied,
    Over,
}

/// A run of the install.
pub struct InstallRun {
    stage: Stage,
    macos: bool,
    asar_known: bool,
    folders_known: bool,
    display: String,
    valid: Vec<usize>,
    k: usize,
    cancelled: bool,
    error: String,
}

/// The state of a run.
pub struct RunView {
    pub stage: Stage,
    /// Whether the finishing notes for macOS are given.
    pub macos: bool,
    /// Whether the path of `app.asar` is known (to restore it).
    pub asar_known: bool,
    /// Whether the backup and `app` folder paths are known (to restore).
    pub folders_known: bool,
    /// How the path of `app.asar` is displayed.
    pub display: Seq<char>,
    /// The bundled translation folders, by index.
    pub valid: Seq<usize>,
    /// The translation folder being written, as a position in `valid`.
    pub k: usize,
    /// Whether a failure was a cancellation.
    pub cancelled: bool,
    /// The text of the failure.
    pub error: Seq<char>,
}

impl InstallRun {
    /// The state of this run.
    pub closed spec fn view(&self) -> RunView {
        RunView {
            stage: self.stage,
            macos: self.macos,
            asar_known: self.asar_known,
            folders_known: self.folders_known,
            display: self.display@,
            valid: self.valid@,
            k: self.k,
            cancelled: self.cancelled,
            error: self.error@,
        }
    }
}

/// Whether the run in state `s` takes the outcome `o`.
pub open spec fn accepts(s: RunView, o: OutcomeView) -> bool {
    match s.stage {
        Stage::Ready => o is Started,
        Stage::FindingAsar => o is Asar,
        Stage::TmpChecked | Stage::OldChecked | Stage::AppChecked | Stage::AsarChecked
        | Stage::TempChecked | Stage::RestoreAppChecked | Stage::RestoreBackupChecked => o is Flag,
        Stage::Listed => o is Patches,
        Stage::Writing => o is Done || o is Missing,
        Stage::Over => false,
        _ => o is Done,
    }
}

/// What a step gives: the next state, the events to report, the next work.
pub type Next = (RunView, Seq<EventView>, Work);

/// A log event.
pub open spec fn log(level: LogLevel, m: Seq<char>) -> EventView {
    EventView::Log(level, m)
}

/// `s` moved to stage `st`.
pub open spec fn at(s: RunView, st: Stage) -> RunView {
    RunView { stage: st, ..s }
}

/// The end of a failed run: the final message.
pub open spec fn finish_fail(s: RunView, evs: Seq<EventView>) -> Next {
    let msg = if s.cancelled {
        MSG_CANCELLED_END@
    } else {
        MSG_FAILED_END@ + s.error
    };
    (at(s, Stage::Over), evs.push(EventView::Finished(false, msg)), Work::Done)
}

/// Restoring the backup, if its path is known.
pub open spec fn restore_backup(s: RunView, evs: Seq<EventView>) -> Next {
    if s.folders_known && s.asar_known {
        (at(s, Stage::RestoreBackupChecked), evs, Work::Exists(Place::Backup))
    } else {
        finish_fail(s, evs)
    }
}

/// A failure with text `err`: report it (or the cancellation), then
/// restore: remove the `app` folder, copy the backup back.
pub open spec fn fail(s: RunView, evs: Seq<EventView>, err: Seq<char>, c: bool) -> Next {
    let s2 = RunView { cancelled: c, error: err, ..s };
    let evs2 = if c {
        evs.push(log(LogLevel::Warning, MSG_CANCELLING@))
    } else {
        evs + seq![
            log(LogLevel::Error, RULE@),
            log(LogLevel::Error, MSG_ERROR_AT@ + err),
            log(LogLevel::Error, RULE@),
        ]
    };
    if s2.folders_known {
        (at(s2, Stage::RestoreAppChecked), evs2, Work::Exists(Place::AppFolder))
    } else {
        restore_backup(s2, evs2)
    }
}

/// A failed operation: its error text after the prefix `prefix`.
pub open spec fn op_fail(s: RunView, evs: Seq<EventView>, prefix: Seq<char>, e: Seq<char>, c: bool) -> Next {
    fail(s, evs, prefix + e, c)
}

/// The percentage after translation folder `k` of `total` has been written.
pub open spec fn patch_pct(k: int, total: int) -> u32 {
    let share = (k + 1) * 40 / total;
    (40 + if share < 40 { share } else { 40 }) as u32
}

/// The number the patch percentages are divided by.
pub open spec fn patch_total(s: RunView) -> int {
    if s.valid.len() >= 1 {
        s.valid.len() as int
    } else {
        1
    }
}

/// The translation folder at position `k` of the bundled ones, or the
/// repacking when they are all written.
pub open spec fn next_patch(s: RunView, evs: Seq<EventView>, k: int, c: bool) -> Next {
    if c {
        fail(s, evs, "cancelled"@, c)
    } else if k < s.valid.len() {
        (
            RunView { stage: Stage::Writing, k: k as usize, ..s },
            evs.push(
                log(LogLevel::Info, MSG_DIR_PREFIX@ + patch_dirs()[s.valid[k] as int] + MSG_COPYING@),
            ),
            Work::WritePatchDir(s.valid[k]),
        )
    } else {
        (at(s, Stage::AsarChecked), evs.push(log(LogLevel::Info, MSG_STEP6@)), Work::IsFile(Place::Asar))
    }
}

/// The log lines of a finished install.
pub open spec fn closing_logs(macos: bool) -> Seq<EventView> {
    seq![
        log(LogLevel::Info, RULE@),
        log(LogLevel::Success, MSG_DONE@),
        log(LogLevel::Success, MSG_PLAY@),
    ] + (if macos {
        seq![
            log(LogLevel::Info, ""@),
            log(LogLevel::Warning, MSG_MAC_NOTE@),
            log(LogLevel::Info, MSG_MAC_1@),
            log(LogLevel::Info, MSG_MAC_2@),
            log(LogLevel::Info, MSG_MAC_3@),
            log(LogLevel::Info, MSG_MAC_4@),
        ]
    } else {
        seq![]
    }) + seq![log(LogLevel::Info, RULE@)]
}

/// The end of a successful run.
pub open spec fn finish_ok(s: RunView, evs: Seq<EventView>) -> Next {
    (
        RunView { stage: Stage::Over, asar_known: false, folders_known: false, ..s },
        evs.push(EventView::Progress(100)) + closing_logs(s.macos) + seq![
            EventView::Finished(true, complete_text(s.macos)),
        ],
        Work::Done,
    )
}

/// After the old `app` folder is gone: extraction.
pub open spec fn after_clean(s: RunView, evs: Seq<EventView>, c: bool) -> Next {
    let evs2 = evs.push(EventView::Progress(20));
    if c {
        fail(s, evs2, "cancelled"@, c)
    } else {
        (at(s, Stage::Extracted), evs2.push(log(LogLevel::Info, MSG_STEP4@)), Work::Extract)
    }
}

/// The bundled translation folders among the first `n` flags of `bs`.
pub open spec fn bundled(bs: Seq<bool>, n: int) -> Seq<usize>
    decreases n,
{
    if n <= 0 {
        seq![]
    } else {
        bundled(bs, n - 1) + if bs[n - 1] {
            seq![(n - 1) as usize]
        } else {
            seq![]
        }
    }
}

/// The number of flags of `bs` that are looked at.
pub open spec fn flag_count(bs: Seq<bool>) -> int {
    if bs.len() < 8 {
        bs.len() as int
    } else {
        8
    }
}

/// One step of the install: what the run does with outcome `o` when the
/// cancellation flag reads `c`.
pub open spec fn next(s: RunView, o: OutcomeView, c: bool) -> Next {
    let none = Seq::<EventView>::empty();
    match s.stage {
        Stage::Ready => (
            at(s, Stage::FindingAsar),
            seq![
                log(LogLevel::Info, RULE@),
                log(LogLevel::Info, MSG_START@),
                log(LogLevel::Info, MSG_STEP1@),
            ],
            Work::FindAsar,
        ),
        Stage::FindingAsar => match o {
            OutcomeView::Asar(Some((d, has_parent))) => {
                let s2 = RunView { asar_known: true, display: d, ..s };
                let evs = seq![
                    log(LogLevel::Success, MSG_ASAR_AT@ + d),
                    EventView::Progress(5),
                ];
                if c {
                    fail(s2, evs, "cancelled"@, c)
                } else if !has_parent {
                    fail(s2, evs, MSG_NO_PARENT@, c)
                } else {
                    (
                        RunView { stage: Stage::TmpChecked, folders_known: true, ..s2 },
                        evs.push(log(LogLevel::Info, MSG_STEP2@)),
                        Work::Exists(Place::BackupTmp),
                    )
                }
            },
            _ => fail(s, none, MSG_NO_ASAR@, c),
        },
        Stage::TmpChecked => if o == OutcomeView::Flag(true) {
            (at(s, Stage::TmpRemoved), none, Work::RemoveFile(Place::BackupTmp))
        } else {
            (at(s, Stage::Copied), none, Work::Copy(Place::Asar, Place::BackupTmp))
        },
        Stage::TmpRemoved => match o {
            OutcomeView::Done(Err(e)) => op_fail(s, none, MSG_TMP_FAIL@, e, c),
            _ => (at(s, Stage::Copied), none, Work::Copy(Place::Asar, Place::BackupTmp)),
        },
        Stage::Copied => match o {
            OutcomeView::Done(Err(e)) => op_fail(s, none, MSG_BACKUP_FAIL@, e, c),
            _ => (at(s, Stage::OldChecked), none, Work::Exists(Place::Backup)),
        },
        Stage::OldChecked => if o == OutcomeView::Flag(true) {
            (at(s, Stage::OldRemoved), none, Work::RemoveFile(Place::Backup))
        } else {
            (at(s, Stage::Renamed), none, Work::Rename(Place::BackupTmp, Place::Backup))
        },
        Stage::OldRemoved => match o {
            OutcomeView::Done(Err(e)) => op_fail(s, none, MSG_OLD_FAIL@, e, c),
            _ => (at(s, Stage::Renamed), none, Work::Rename(Place::BackupTmp, Place::Backup)),
        },
        Stage::Renamed => match o {
            OutcomeView::Done(Err(e)) => op_fail(s, none, MSG_RENAME_FAIL@, e, c),
            _ => {
                let evs = seq![log(LogLevel::Success, MSG_BACKUP_DONE@), EventView::Progress(15)];
                if c {
                    fail(s, evs, "cancelled"@, c)
                } else {
                    (
                        at(s, Stage::AppChecked),
                        evs.push(log(LogLevel::Info, MSG_STEP3@)),
                        Work::Exists(Place::AppFolder),
                    )
                }
            },
        },
        Stage::AppChecked => if o == OutcomeView::Flag(true) {
            (
                at(s, Stage::AppRemoved),
                seq![log(LogLevel::Info, MSG_REMOVING_APP@)],
                Work::RemoveDirAll(Place::AppFolder),
            )
        } else {
            after_clean(s, none, c)
        },
        Stage::AppRemoved => match o {
            OutcomeView::Done(Err(e)) => op_fail(s, none, MSG_REMOVE_FAIL@, e, c),
            _ => after_clean(s, seq![log(LogLevel::Success, MSG_REMOVED@)], c),
        },
        Stage::Extracted => match o {
            OutcomeView::Done(Err(e)) => op_fail(s, none, MSG_EXTRACT_FAIL@, e, c),
            _ => {
                let evs = seq![log(LogLevel::Success, MSG_EXTRACTED@), EventView::Progress(40)];
                if c {
                    fail(s, evs, "cancelled"@, c)
                } else {
                    (
                        at(s, Stage::Listed),
                        evs.push(log(LogLevel::Info, MSG_STEP5@)),
                        Work::ListPatchDirs,
                    )
                }
            },
        },
        Stage::Listed => match o {
            OutcomeView::Patches(bs) => next_patch(
                RunView { valid: bundled(bs, flag_count(bs)), k: 0, ..s },
                none,
                0,
                c,
            ),
            _ => next_patch(RunView { valid: seq![], k: 0, ..s }, none, 0, c),
        },
        Stage::Writing => {
            let name = patch_dirs()[s.valid[s.k as int] as int];
            match o {
                OutcomeView::Missing => fail(s, none, MSG_NO_DIR@ + name, c),
                OutcomeView::Done(Err(e)) => op_fail(s, none, MSG_COPY_FAIL@, e, c),
                _ => next_patch(
                    s,
                    seq![
                        log(LogLevel::Success, MSG_DIR_PREFIX@ + name + MSG_COPIED@),
                        EventView::Progress(patch_pct(s.k as int, patch_total(s))),
                    ],
                    s.k + 1,
                    c,
                ),
            }
        },
        Stage::AsarChecked => if o == OutcomeView::Flag(true) {
            (at(s, Stage::AsarRemoved), none, Work::RemoveFile(Place::Asar))
        } else {
            (at(s, Stage::Packed), none, Work::Pack)
        },
        Stage::AsarRemoved => match o {
            OutcomeView::Done(Err(e)) => op_fail(s, none, MSG_ORIG_FAIL@, e, c),
            _ => (at(s, Stage::Packed), seq![log(LogLevel::Info, MSG_ORIG_REMOVED@)], Work::Pack),
        },
        Stage::Packed => match o {
            OutcomeView::Done(Err(e)) => op_fail(s, none, MSG_PACK_FAIL@, e, c),
            _ => (
                at(s, Stage::TempChecked),
                seq![
                    log(LogLevel::Success, MSG_PACKED@),
                    EventView::Progress(90),
                    log(LogLevel::Info, MSG_STEP7@),
                ],
                Work::Exists(Place::AppFolder),
            ),
        },
        Stage::TempChecked => if o == OutcomeView::Flag(true) {
            (at(s, Stage::TempRemoved), none, Work::RemoveDirAll(Place::AppFolder))
        } else {
            finish_ok(s, none)
        },
        Stage::TempRemoved => match o {
            OutcomeView::Done(Err(e)) => op_fail(s, none, MSG_TEMP_FAIL@, e, c),
            _ => finish_ok(s, seq![log(LogLevel::Success, MSG_TEMP_REMOVED@)]),
        },
        Stage::RestoreAppChecked => if o == OutcomeView::Flag(true) {
            (at(s, Stage::RestoreAppRemoved), none, Work::RemoveDirAll(Place::AppFolder))
        } else {
            restore_backup(s, none)
        },
        Stage::RestoreAppRemoved => restore_backup(s, none),
        Stage::RestoreBackupChecked => if o == OutcomeView::Flag(true) {
            (at(s, Stage::RestoreCopied), none, Work::Copy(Place::Backup, Place::Asar))
        } else {
            finish_fail(s, none)
        },
        Stage::RestoreCopied => match o {
            OutcomeView::Done(Err(e)) => finish_fail(
                s,
                seq![log(LogLevel::Error, MSG_RESTORE_FAIL@ + e)],
            ),
            _ => finish_fail(s, seq![log(LogLevel::Success, MSG_RESTORED@)]),
        },
        Stage::Over => (s, none, Work::Done),
    }
}

/// The state invariant of a run: bundled folders are translation folders,
/// and the one being written is one of them.
pub open spec fn wf(s: RunView) -> bool {
    &&& forall|i: int| 0 <= i < s.valid.len() ==> s.valid[i] < PATCH_DIR_COUNT
    &&& s.valid.len() <= PATCH_DIR_COUNT
    &&& s.k <= s.valid.len()
    &&& s.stage == Stage::Writing ==> s.k < s.valid.len()
}

/// `a` followed by `b`.
pub fn cat(a: &str, b: &str) -> (r: String)
    ensures
        r@ == a@ + b@,
{
    let mut r = owned(a);
    r.append(b);
    r
}

/// Appends a log event.
fn push_log(evs: &mut Vec<InstallEvent>, level: LogLevel, message: String)
    ensures
        events_view(*final(evs)) == events_view(*old(evs)).push(log(level, message@)),
{
    let ghost before = *evs;
    evs.push(InstallEvent::Log { level, message });
    assert(events_view(*evs) =~= events_view(before).push(log(level, message@)));
}

/// Appends a progress event.
fn push_progress(evs: &mut Vec<InstallEvent>, value: u32)
    ensures
        events_view(*final(evs)) == events_view(*old(evs)).push(EventView::Progress(value)),
{
    let ghost before = *evs;
    evs.push(InstallEvent::Progress { value });
    assert(events_view(*evs) =~= events_view(before).push(EventView::Progress(value)));
}

/// Appends the final event.
fn push_finished(evs: &mut Vec<InstallEvent>, success: bool, message: String)
    ensures
        events_view(*final(evs)) == events_view(*old(evs)).push(
            EventView::Finished(success, message@),
        ),
{
    let ghost before = *evs;
    evs.push(InstallEvent::Finished { success, message });
    assert(events_view(*evs) =~= events_view(before).push(EventView::Finished(success, message@)));
}

/// The bundled translation folders, by index, given a flag for each.
pub fn bundled_dirs(bs: &Vec<bool>) -> (v: Vec<usize>)
    ensures
        v@ == bundled(bs@, flag_count(bs@)),
        forall|i: int| 0 <= i < v@.len() ==> v@[i] < PATCH_DIR_COUNT,
        v@.len() <= PATCH_DIR_COUNT,
{
    let n: usize = if bs.len() < PATCH_DIR_COUNT {
        bs.len()
    } else {
        PATCH_DIR_COUNT
    };
    let mut v: Vec<usize> = Vec::new();
    let mut i: usize = 0;
    while i < n
        invariant
            n == flag_count(bs@),
            n <= bs@.len(),
            n <= PATCH_DIR_COUNT,
            i <= n,
            v@ == bundled(bs@, i as int),
            v@.len() <= i,
            forall|j: int| 0 <= j < v@.len() ==> v@[j] < i,
        decreases n - i,
    {
        if bs[i] {
            v.push(i);
        }
        i = i + 1;
    }
    v
}

impl InstallRun {
    /// A run that has not begun; `macos` selects the macOS finishing notes.
    pub fn new(macos: bool) -> (r: Self)
        ensures
            r@ == (RunView {
                stage: Stage::Ready,
                macos,
                asar_known: false,
                folders_known: false,
                display: seq![],
                valid: seq![],
                k: 0,
                cancelled: false,
                error: seq![],
            }),
            wf(r@),
    {
        InstallRun {
            stage: Stage::Ready,
            macos,
            asar_known: false,
            folders_known: false,
            display: String::new(),
            valid: Vec::new(),
            k: 0,
            cancelled: false,
            error: String::new(),
        }
    }

    /// The stage of the run.
    pub fn stage(&self) -> (st: Stage)
        ensures
            st == self@.stage,
    {
        self.stage
    }

    /// Whether the run takes the outcome `o` now.
    pub fn accepts_outcome(&self, o: &Outcome) -> (r: bool)
        ensures
            r == accepts(self@, outcome_view(*o)),
    {
        match self.stage {
            Stage::Ready => matches!(o, Outcome::Started),
            Stage::FindingAsar => matches!(o, Outcome::Asar(_)),
            Stage::TmpChecked | Stage::OldChecked | Stage::AppChecked | Stage::AsarChecked
            | Stage::TempChecked | Stage::RestoreAppChecked | Stage::RestoreBackupChecked => matches!(
                o,
                Outcome::Flag(_)
            ),
            Stage::Listed => matches!(o, Outcome::Patches(_)),
            Stage::Writing => matches!(o, Outcome::Done(_)) || matches!(o, Outcome::Missing),
            Stage::Over => false,
            _ => matches!(o, Outcome::Done(_)),
        }
    }

    fn finish_fail_x(&mut self, evs: &mut Vec<InstallEvent>) -> (w: Work)
        requires
            wf(old(self)@),
        ensures
            (final(self)@, events_view(*final(evs)), w) == finish_fail(old(self)@, events_view(*old(evs))),
            wf(final(self)@),
    {
        let msg = if self.cancelled {
            owned(MSG_CANCELLED_END)
        } else {
            cat(MSG_FAILED_END, self.error.as_str())
        };
        push_finished(evs, false, msg);
        self.stage = Stage::Over;
        Work::Done
    }

    fn restore_backup_x(&mut self, evs: &mut Vec<InstallEvent>) -> (w: Work)
        requires
            wf(old(self)@),
        ensures
            (final(self)@, events_view(*final(evs)), w) == restore_backup(old(self)@, events_view(*old(evs))),
            wf(final(self)@),
    {
        if self.folders_known && self.asar_known {
            self.stage = Stage::RestoreBackupChecked;
            Work::Exists(Place::Backup)
        } else {
            self.finish_fail_x(evs)
        }
    }

    fn fail_x(&mut self, evs: &mut Vec<InstallEvent>, err: String, c: bool) -> (w: Work)
        requires
            wf(old(self)@),
        ensures
            (final(self)@, events_view(*final(evs)), w) == fail(old(self)@, events_view(*old(evs)), err@, c),
            wf(final(self)@),
    {
        if c {
            push_log(evs, LogLevel::Warning, owned(MSG_CANCELLING));
        } else {
            let ghost before = events_view(*evs);
            push_log(evs, LogLevel::Error, owned(RULE));
            push_log(evs, LogLevel::Error, cat(MSG_ERROR_AT, err.as_str()));
            push_log(evs, LogLevel::Error, owned(RULE));
            assert(events_view(*evs) =~= before + seq![
                log(LogLevel::Error, RULE@),
                log(LogLevel::Error, MSG_ERROR_AT@ + err@),
                log(LogLevel::Error, RULE@),
            ]);
        }
        self.cancelled = c;
        self.error = err;
        if self.folders_known {
            self.stage = Stage::RestoreAppChecked;
            Work::Exists(Place::AppFolder)
        } else {
            self.restore_backup_x(evs)
        }
    }

    fn next_patch_x(&mut self, evs: &mut Vec<InstallEvent>, k: usize, c: bool) -> (w: Work)
        requires
            wf(old(self)@),
            k <= old(self)@.valid.len(),
        ensures
            (final(self)@, events_view(*final(evs)), w) == next_patch(
                old(self)@,
                events_view(*old(evs)),
                k as int,
                c,
            ),
            wf(final(self)@),
    {
        if c {
            self.fail_x(evs, owned("cancelled"), c)
        } else if k < self.valid.len() {
            let d = self.valid[k];
            let name = patch_dir(d);
            let m = cat(MSG_DIR_PREFIX, name);
            let m2 = cat(m.as_str(), MSG_COPYING);
            push_log(evs, LogLevel::Info, m2);
            self.stage = Stage::Writing;
            self.k = k;
            Work::WritePatchDir(d)
        } else {
            push_log(evs, LogLevel::Info, owned(MSG_STEP6));
            self.stage = Stage::AsarChecked;
            Work::IsFile(Place::Asar)
        }
    }

    fn finish_ok_x(&mut self, evs: &mut Vec<InstallEvent>) -> (w: Work)
        requires
            wf(old(self)@),
        ensures
            (final(self)@, events_view(*final(evs)), w) == finish_ok(old(self)@, events_view(*old(evs))),
            wf(final(self)@),
    {
        let ghost before = events_view(*evs);
        push_progress(evs, 100);
        push_log(evs, LogLevel::Info, owned(RULE));
        push_log(evs, LogLevel::Success, owned(MSG_DONE));
        push_log(evs, LogLevel::Success, owned(MSG_PLAY));
        if self.macos {
            push_log(evs, LogLevel::Info, owned(""));
            push_log(evs, LogLevel::Warning, owned(MSG_MAC_NOTE));
            push_log(evs, LogLevel::Info, owned(MSG_MAC_1));
            push_log(evs, LogLevel::Info, owned(MSG_MAC_2));
            push_log(evs, LogLevel::Info, owned(MSG_MAC_3));
            push_log(evs, LogLevel::Info, owned(MSG_MAC_4));
        }
        push_log(evs, LogLevel::Info, owned(RULE));
        push_finished(evs, true, complete_message(self.macos));
        assert(events_view(*evs) =~= before.push(EventView::Progress(100)) + closing_logs(self.macos)
            + seq![EventView::Finished(true, complete_text(self.macos))]);
        self.stage = Stage::Over;
        self.asar_known = false;
        self.folders_known = false;
        Work::Done
    }

    fn after_clean_x(&mut self, evs: &mut Vec<InstallEvent>, c: bool) -> (w: Work)
        requires
            wf(old(self)@),
        ensures
            (final(self)@, events_view(*final(evs)), w) == after_clean(old(self)@, events_view(*old(evs)), c),
            wf(final(self)@),
    {
        push_progress(evs, 20);
        if c {
            self.fail_x(evs, owned("cancelled"), c)
        } else {
            push_log(evs, LogLevel::Info, owned(MSG_STEP4));
            self.stage = Stage::Extracted;
            Work::Extract
        }
    }
}

impl InstallRun {
    #[verifier::spinoff_prover]
    fn step_begin(&mut self, o: Outcome, c: bool) -> (r: (Vec<InstallEvent>, Work))
        requires
            wf(old(self)@),
            accepts(old(self)@, outcome_view(o)),
            old(self)@.stage == Stage::Ready || old(self)@.stage == Stage::FindingAsar,
        ensures
            (final(self)@, events_view(r.0), r.1) == next(old(self)@, outcome_view(o), c),
            wf(final(self)@),
    {
        let mut evs: Vec<InstallEvent> = Vec::new();
        assert(events_view(evs) =~= Seq::<EventView>::empty());
        let w = match self.stage {
            Stage::Ready => {
                push_log(&mut evs, LogLevel::Info, owned(RULE));
                push_log(&mut evs, LogLevel::Info, owned(MSG_START));
                push_log(&mut evs, LogLevel::Info, owned(MSG_STEP1));
                assert(events_view(evs) =~= seq![
                    log(LogLevel::Info, RULE@),
                    log(LogLevel::Info, MSG_START@),
                    log(LogLevel::Info, MSG_STEP1@),
                ]);
                self.stage = Stage::FindingAsar;
                Work::FindAsar
            },
            Stage::FindingAsar => match o {
                Outcome::Asar(Some((d, has_parent))) => {
                    push_log(&mut evs, LogLevel::Success, cat(MSG_ASAR_AT, d.as_str()));
                    push_progress(&mut evs, 5);
                    assert(events_view(evs) =~= seq![
                        log(LogLevel::Success, MSG_ASAR_AT@ + d@),
                        EventView::Progress(5),
                    ]);
                    self.asar_known = true;
                    self.display = d;
                    if c {
                        self.fail_x(&mut evs, owned("cancelled"), c)
                    } else if !has_parent {
                        self.fail_x(&mut evs, owned(MSG_NO_PARENT), c)
                    } else {
                        push_log(&mut evs, LogLevel::Info, owned(MSG_STEP2));
                        self.folders_known = true;
                        self.stage = Stage::TmpChecked;
                        Work::Exists(Place::BackupTmp)
                    }
                },
                _ => self.fail_x(&mut evs, owned(MSG_NO_ASAR), c),
            },
            _ => Work::Done,
        };
        (evs, w)
    }

    #[verifier::spinoff_prover]
    fn step_backup(&mut self, o: Outcome, c: bool) -> (r: (Vec<InstallEvent>, Work))
        requires
            wf(old(self)@),
            accepts(old(self)@, outcome_view(o)),
            old(self)@.stage == Stage::TmpChecked || old(self)@.stage == Stage::TmpRemoved || old(self)@.stage == Stage::Copied || old(self)@.stage == Stage::OldChecked || old(self)@.stage == Stage::OldRemoved || old(self)@.stage == Stage::Renamed,
        ensures
            (final(self)@, events_view(r.0), r.1) == next(old(self)@, outcome_view(o), c),
            wf(final(self)@),
    {
        let mut evs: Vec<InstallEvent> = Vec::new();
        assert(events_view(evs) =~= Seq::<EventView>::empty());
        let w = match self.stage {
            Stage::TmpChecked => match o {
                Outcome::Flag(true) => {
                    self.stage = Stage::TmpRemoved;
                    Work::RemoveFile(Place::BackupTmp)
                },
                _ => {
                    self.stage = Stage::Copied;
                    Work::Copy(Place::Asar, Place::BackupTmp)
                },
            },
            Stage::TmpRemoved => match o {
                Outcome::Done(Err(e)) => self.fail_x(&mut evs, cat(MSG_TMP_FAIL, e.as_str()), c),
                _ => {
                    self.stage = Stage::Copied;
                    Work::Copy(Place::Asar, Place::BackupTmp)
                },
            },
            Stage::Copied => match o {
                Outcome::Done(Err(e)) => self.fail_x(&mut evs, cat(MSG_BACKUP_FAIL, e.as_str()), c),
                _ => {
                    self.stage = Stage::OldChecked;
                    Work::Exists(Place::Backup)
                },
            },
            Stage::OldChecked => match o {
                Outcome::Flag(true) => {
                    self.stage = Stage::OldRemoved;
                    Work::RemoveFile(Place::Backup)
                },
                _ => {
                    self.stage = Stage::Renamed;
                    Work::Rename(Place::BackupTmp, Place::Backup)
                },
            },
            Stage::OldRemoved => match o {
                Outcome::Done(Err(e)) => self.fail_x(&mut evs, cat(MSG_OLD_FAIL, e.as_str()), c),
                _ => {
                    self.stage = Stage::Renamed;
                    Work::Rename(Place::BackupTmp, Place::Backup)
                },
            },
            Stage::Renamed => match o {
                Outcome::Done(Err(e)) => self.fail_x(&mut evs, cat(MSG_RENAME_FAIL, e.as_str()), c),
                _ => {
                    push_log(&mut evs, LogLevel::Success, owned(MSG_BACKUP_DONE));
                    push_progress(&mut evs, 15);
                    assert(events_view(evs) =~= seq![
                        log(LogLevel::Success, MSG_BACKUP_DONE@),
                        EventView::Progress(15),
                    ]);
                    if c {
                        self.fail_x(&mut evs, owned("cancelled"), c)
                    } else {
                        push_log(&mut evs, LogLevel::Info, owned(MSG_STEP3));
                        self.stage = Stage::AppChecked;
                        Work::Exists(Place::AppFolder)
                    }
                },
            },
            _ => Work::Done,
        };
        (evs, w)
    }

    #[verifier::spinoff_prover]
    fn step_clean(&mut self, o: Outcome, c: bool) -> (r: (Vec<InstallEvent>, Work))
        requires
            wf(old(self)@),
            accepts(old(self)@, outcome_view(o)),
            old(self)@.stage == Stage::AppChecked || old(self)@.stage == Stage::AppRemoved || old(self)@.stage == Stage::Extracted,
        ensures
            (final(self)@, events_view(r.0), r.1) == next(old(self)@, outcome_view(o), c),
            wf(final(self)@),
    {
        let mut evs: Vec<InstallEvent> = Vec::new();
        assert(events_view(evs) =~= Seq::<EventView>::empty());
        let w = match self.stage {
            Stage::AppChecked => match o {
                Outcome::Flag(true) => {
                    push_log(&mut evs, LogLevel::Info, owned(MSG_REMOVING_APP));
                    assert(events_view(evs) =~= seq![log(LogLevel::Info, MSG_REMOVING_APP@)]);
                    self.stage = Stage::AppRemoved;
                    Work::RemoveDirAll(Place::AppFolder)
                },
                _ => self.after_clean_x(&mut evs, c),
            },
            Stage::AppRemoved => match o {
                Outcome::Done(Err(e)) => self.fail_x(&mut evs, cat(MSG_REMOVE_FAIL, e.as_str()), c),
                _ => {
                    push_log(&mut evs, LogLevel::Success, owned(MSG_REMOVED));
                    assert(events_view(evs) =~= seq![log(LogLevel::Success, MSG_REMOVED@)]);
                    self.after_clean_x(&mut evs, c)
                },
            },
            Stage::Extracted => match o {
                Outcome::Done(Err(e)) => self.fail_x(&mut evs, cat(MSG_EXTRACT_FAIL, e.as_str()), c),
                _ => {
                    push_log(&mut evs, LogLevel::Success, owned(MSG_EXTRACTED));
                    push_progress(&mut evs, 40);
                    assert(events_view(evs) =~= seq![
                        log(LogLevel::Success, MSG_EXTRACTED@),
                        EventView::Progress(40),
                    ]);
                    if c {
                        self.fail_x(&mut evs, owned("cancelled"), c)
                    } else {
                        push_log(&mut evs, LogLevel::Info, owned(MSG_STEP5));
                        self.stage = Stage::Listed;
                        Work::ListPatchDirs
                    }
                },
            },
            _ => Work::Done,
        };
        (evs, w)
    }

    #[verifier::spinoff_prover]
    fn step_patches(&mut self, o: Outcome, c: bool) -> (r: (Vec<InstallEvent>, Work))
        requires
            wf(old(self)@),
            accepts(old(self)@, outcome_view(o)),
            old(self)@.stage == Stage::Listed || old(self)@.stage == Stage::Writing,
        ensures
            (final(self)@, events_view(r.0), r.1) == next(old(self)@, outcome_view(o), c),
            wf(final(self)@),
    {
        let mut evs: Vec<InstallEvent> = Vec::new();
        assert(events_view(evs) =~= Seq::<EventView>::empty());
        let w = match self.stage {
            Stage::Listed => {
                match o {
                    Outcome::Patches(bs) => {
                        self.valid = bundled_dirs(&bs);
                    },
                    _ => {
                        self.valid = Vec::new();
                    },
                }
                self.k = 0;
                self.next_patch_x(&mut evs, 0, c)
            },
            Stage::Writing => {
                let name = patch_dir(self.valid[self.k]);
                match o {
                    Outcome::Missing => self.fail_x(&mut evs, cat(MSG_NO_DIR, name), c),
                    Outcome::Done(Err(e)) => self.fail_x(&mut evs, cat(MSG_COPY_FAIL, e.as_str()), c),
                    _ => {
                        let m = cat(MSG_DIR_PREFIX, name);
                        push_log(&mut evs, LogLevel::Success, cat(m.as_str(), MSG_COPIED));
                        let total: usize = if self.valid.len() >= 1 {
                            self.valid.len()
                        } else {
                            1
                        };
                        let share: usize = (self.k + 1) * 40 / total;
                        let pct: u32 = 40 + if share < 40 {
                            share as u32
                        } else {
                            40
                        };
                        push_progress(&mut evs, pct);
                        assert(events_view(evs) =~= seq![
                            log(LogLevel::Success, MSG_DIR_PREFIX@ + patch_dirs()[self@.valid[self@.k as int] as int] + MSG_COPIED@),
                            EventView::Progress(patch_pct(self@.k as int, patch_total(self@))),
                        ]);
                        let k1 = self.k + 1;
                        self.next_patch_x(&mut evs, k1, c)
                    },
                }
            },
            _ => Work::Done,
        };
        (evs, w)
    }

    #[verifier::spinoff_prover]
    fn step_repack(&mut self, o: Outcome, c: bool) -> (r: (Vec<InstallEvent>, Work))
        requires
            wf(old(self)@),
            accepts(old(self)@, outcome_view(o)),
            old(self)@.stage == Stage::AsarChecked || old(self)@.stage == Stage::AsarRemoved || old(self)@.stage == Stage::Packed || old(self)@.stage == Stage::TempChecked || old(self)@.stage == Stage::TempRemoved,
        ensures
            (final(self)@, events_view(r.0), r.1) == next(old(self)@, outcome_view(o), c),
            wf(final(self)@),
    {
        let mut evs: Vec<InstallEvent> = Vec::new();
        assert(events_view(evs) =~= Seq::<EventView>::empty());
        let w = match self.stage {
            Stage::AsarChecked => match o {
                Outcome::Flag(true) => {
                    self.stage = Stage::AsarRemoved;
                    Work::RemoveFile(Place::Asar)
                },
                _ => {
                    self.stage = Stage::Packed;
                    Work::Pack
                },
            },
            Stage::AsarRemoved => match o {
                Outcome::Done(Err(e)) => self.fail_x(&mut evs, cat(MSG_ORIG_FAIL, e.as_str()), c),
                _ => {
                    push_log(&mut evs, LogLevel::Info, owned(MSG_ORIG_REMOVED));
                    assert(events_view(evs) =~= seq![log(LogLevel::Info, MSG_ORIG_REMOVED@)]);
                    self.stage = Stage::Packed;
                    Work::Pack
                },
            },
            Stage::Packed => match o {
                Outcome::Done(Err(e)) => self.fail_x(&mut evs, cat(MSG_PACK_FAIL, e.as_str()), c),
                _ => {
                    push_log(&mut evs, LogLevel::Success, owned(MSG_PACKED));
                    push_progress(&mut evs, 90);
                    push_log(&mut evs, LogLevel::Info, owned(MSG_STEP7));
                    assert(events_view(evs) =~= seq![
                        log(LogLevel::Success, MSG_PACKED@),
                        EventView::Progress(90),
                        log(LogLevel::Info, MSG_STEP7@),
                    ]);
                    self.stage = Stage::TempChecked;
                    Work::Exists(Place::AppFolder)
                },
            },
            Stage::TempChecked => match o {
                Outcome::Flag(true) => {
                    self.stage = Stage::TempRemoved;
                    Work::RemoveDirAll(Place::AppFolder)
                },
                _ => self.finish_ok_x(&mut evs),
            },
            Stage::TempRemoved => match o {
                Outcome::Done(Err(e)) => self.fail_x(&mut evs, cat(MSG_TEMP_FAIL, e.as_str()), c),
                _ => {
                    push_log(&mut evs, LogLevel::Success, owned(MSG_TEMP_REMOVED));
                    assert(events_view(evs) =~= seq![log(LogLevel::Success, MSG_TEMP_REMOVED@)]);
                    self.finish_ok_x(&mut evs)
                },
            },
            _ => Work::Done,
        };
        (evs, w)
    }

    #[verifier::spinoff_prover]
    fn step_restore(&mut self, o: Outcome, c: bool) -> (r: (Vec<InstallEvent>, Work))
        requires
            wf(old(self)@),
            accepts(old(self)@, outcome_view(o)),
            old(self)@.stage == Stage::RestoreAppChecked || old(self)@.stage == Stage::RestoreAppRemoved || old(self)@.stage == Stage::RestoreBackupChecked || old(self)@.stage == Stage::RestoreCopied || old(self)@.stage == Stage::Over,
        ensures
            (final(self)@, events_view(r.0), r.1) == next(old(self)@, outcome_view(o), c),
            wf(final(self)@),
    {
        let mut evs: Vec<InstallEvent> = Vec::new();
        assert(events_view(evs) =~= Seq::<EventView>::empty());
        let w = match self.stage {
            Stage::RestoreAppChecked => match o {
                Outcome::Flag(true) => {
                    self.stage = Stage::RestoreAppRemoved;
                    Work::RemoveDirAll(Place::AppFolder)
                },
                _ => self.restore_backup_x(&mut evs),
            },
            Stage::RestoreAppRemoved => self.restore_backup_x(&mut evs),
            Stage::RestoreBackupChecked => match o {
                Outcome::Flag(true) => {
                    self.stage = Stage::RestoreCopied;
                    Work::Copy(Place::Backup, Place::Asar)
                },
                _ => self.finish_fail_x(&mut evs),
            },
            Stage::RestoreCopied => {
                match o {
                    Outcome::Done(Err(e)) => {
                        push_log(&mut evs, LogLevel::Error, cat(MSG_RESTORE_FAIL, e.as_str()));
                        assert(events_view(evs) =~= seq![log(LogLevel::Error, MSG_RESTORE_FAIL@ + e@)]);
                    },
                    _ => {
                        push_log(&mut evs, LogLevel::Success, owned(MSG_RESTORED));
                        assert(events_view(evs) =~= seq![log(LogLevel::Success, MSG_RESTORED@)]);
                    },
                }
                self.finish_fail_x(&mut evs)
            },
            Stage::Over => Work::Done,

            _ => Work::Done,
        };
        (evs, w)
    }

    /// Takes the outcome `o` of the last operation, with the cancellation
    /// flag reading `c`; gives the events to report and the next operation.
    pub fn step(&mut self, o: Outcome, c: bool) -> (r: (Vec<InstallEvent>, Work))
        requires
            wf(old(self)@),
            accepts(old(self)@, outcome_view(o)),
        ensures
            (final(self)@, events_view(r.0), r.1) == next(old(self)@, outcome_view(o), c),
            wf(final(self)@),
    {
        match self.stage {
            Stage::Ready | Stage::FindingAsar => self.step_begin(o, c),
            Stage::TmpChecked | Stage::TmpRemoved | Stage::Copied | Stage::OldChecked | Stage::OldRemoved | Stage::Renamed => self.step_backup(o, c),
            Stage::AppChecked | Stage::AppRemoved | Stage::Extracted => self.step_clean(o, c),
            Stage::Listed | Stage::Writing => self.step_patches(o, c),
            Stage::AsarChecked | Stage::AsarRemoved | Stage::Packed | Stage::TempChecked | Stage::TempRemoved => self.step_repack(o, c),
            Stage::RestoreAppChecked | Stage::RestoreAppRemoved | Stage::RestoreBackupChecked | Stage::RestoreCopied | Stage::Over => self.step_restore(o, c),
        }
    }
}

// ---------------------------------------------------------------------------
// Whole runs

/// Stages in which the install goes forward: neither restoring nor over.
pub open spec fn forward(st: Stage) -> bool {
    !(st == Stage::RestoreAppChecked || st == Stage::RestoreAppRemoved || st
        == Stage::RestoreBackupChecked || st == Stage::RestoreCopied || st == Stage::Over)
}

/// The progress last reported before a forward stage.
pub open spec fn floor(s: RunView) -> u32 {
    match s.stage {
        Stage::TmpChecked | Stage::TmpRemoved | Stage::Copied | Stage::OldChecked
        | Stage::OldRemoved | Stage::Renamed => 5,
        Stage::AppChecked | Stage::AppRemoved => 15,
        Stage::Extracted => 20,
        Stage::Listed => 40,
        Stage::Writing => if s.k == 0 {
            40
        } else {
            patch_pct(s.k - 1, patch_total(s))
        },
        Stage::AsarChecked | Stage::AsarRemoved | Stage::Packed => if s.valid.len() == 0 {
            40
        } else {
            80
        },
        Stage::TempChecked | Stage::TempRemoved => 90,
        _ => 0,
    }
}

/// The progress values among `evs`, in order.
pub open spec fn progress_values(evs: Seq<EventView>) -> Seq<u32>
    decreases evs.len(),
{
    if evs.len() == 0 {
        seq![]
    } else {
        progress_values(evs.drop_last()) + match evs.last() {
            EventView::Progress(p) => seq![p],
            _ => seq![],
        }
    }
}

/// `v` never decreases.
pub open spec fn ascending(v: Seq<u32>) -> bool {
    forall|i: int, j: int| 0 <= i <= j < v.len() ==> v[i] <= v[j]
}

/// Every value of `v` lies in `lo ..= hi`.
pub open spec fn within(v: Seq<u32>, lo: int, hi: int) -> bool {
    forall|i: int| 0 <= i < v.len() ==> lo <= #[trigger] v[i] <= hi
}

proof fn lemma_progress_concat(a: Seq<EventView>, b: Seq<EventView>)
    ensures
        progress_values(a + b) == progress_values(a) + progress_values(b),
    decreases b.len(),
{
    if b.len() == 0 {
        assert(a + b =~= a);
        assert(progress_values(a) + progress_values(b) =~= progress_values(a));
    } else {
        assert((a + b).drop_last() =~= a + b.drop_last());
        lemma_progress_concat(a, b.drop_last());
        assert(progress_values(a + b) =~= progress_values(a) + progress_values(b));
    }
}

proof fn lemma_patch_pct(k: int, total: int)
    requires
        0 <= k,
        total >= 1,
    ensures
        40 <= patch_pct(k, total) <= 80,
        patch_pct(k, total) <= patch_pct(k + 1, total),
        k + 1 >= total ==> patch_pct(k, total) == 80,
{
    assert((k + 1) * 40 / total <= (k + 2) * 40 / total) by (nonlinear_arith)
        requires 0 <= k, total >= 1;
    assert(0 <= (k + 1) * 40 / total) by (nonlinear_arith)
        requires 0 <= k, total >= 1;
    if k + 1 >= total {
        assert((k + 1) * 40 / total >= 40) by (nonlinear_arith)
            requires k + 1 >= total, total >= 1;
    }
}

proof fn lemma_bundled(bs: Seq<bool>, n: int)
    requires
        0 <= n <= bs.len(),
    ensures
        bundled(bs, n).len() <= n,
        forall|i: int| 0 <= i < bundled(bs, n).len() ==> bundled(bs, n)[i] < n,
    decreases n,
{
    if n > 0 {
        lemma_bundled(bs, n - 1);
    }
}

proof fn lemma_pv_log(evs: Seq<EventView>, e: EventView)
    requires
        !(e is Progress),
    ensures
        progress_values(evs.push(e)) == progress_values(evs),
{
    assert(evs.push(e).drop_last() =~= evs);
    assert(progress_values(evs.push(e)) =~= progress_values(evs));
}

proof fn lemma_pv_progress(evs: Seq<EventView>, p: u32)
    ensures
        progress_values(evs.push(EventView::Progress(p))) == progress_values(evs).push(p),
{
    assert(evs.push(EventView::Progress(p)).drop_last() =~= evs);
}

proof fn lemma_pv_empty()
    ensures
        progress_values(Seq::<EventView>::empty()) == Seq::<u32>::empty(),
{
}

/// A failure reports no progress and leaves the forward stages, keeping
/// the invariant.
proof fn lemma_fail(s: RunView, evs: Seq<EventView>, err: Seq<char>, c: bool)
    requires
        wf(s),
    ensures
        progress_values(fail(s, evs, err, c).1) == progress_values(evs),
        !forward(fail(s, evs, err, c).0.stage),
        wf(fail(s, evs, err, c).0),
{
    let s2 = RunView { cancelled: c, error: err, ..s };
    let evs2 = if c {
        evs.push(log(LogLevel::Warning, MSG_CANCELLING@))
    } else {
        evs + seq![
            log(LogLevel::Error, RULE@),
            log(LogLevel::Error, MSG_ERROR_AT@ + err),
            log(LogLevel::Error, RULE@),
        ]
    };
    if c {
        lemma_pv_log(evs, log(LogLevel::Warning, MSG_CANCELLING@));
    } else {
        let a = evs.push(log(LogLevel::Error, RULE@));
        let b = a.push(log(LogLevel::Error, MSG_ERROR_AT@ + err));
        let d = b.push(log(LogLevel::Error, RULE@));
        lemma_pv_log(evs, log(LogLevel::Error, RULE@));
        lemma_pv_log(a, log(LogLevel::Error, MSG_ERROR_AT@ + err));
        lemma_pv_log(b, log(LogLevel::Error, RULE@));
        assert(d =~= evs2);
    }
    lemma_finish_fail(s2, evs2);
}

proof fn lemma_finish_fail(s: RunView, evs: Seq<EventView>)
    requires
        wf(s),
    ensures
        progress_values(finish_fail(s, evs).1) == progress_values(evs),
        progress_values(restore_backup(s, evs).1) == progress_values(evs),
        !forward(finish_fail(s, evs).0.stage),
        !forward(restore_backup(s, evs).0.stage),
        wf(finish_fail(s, evs).0),
        wf(restore_backup(s, evs).0),
{
    let msg = if s.cancelled {
        MSG_CANCELLED_END@
    } else {
        MSG_FAILED_END@ + s.error
    };
    lemma_pv_log(evs, EventView::Finished(false, msg));
}

proof fn lemma_next_patch(s: RunView, evs: Seq<EventView>, k: int, c: bool)
    requires
        wf(s),
        0 <= k <= s.valid.len(),
        s.k <= k,
    ensures
        progress_values(next_patch(s, evs, k, c).1) == progress_values(evs),
        wf(next_patch(s, evs, k, c).0),
        forward(next_patch(s, evs, k, c).0.stage) ==> (next_patch(s, evs, k, c).0.stage
            == Stage::Writing && next_patch(s, evs, k, c).0.k == k) || (next_patch(s, evs, k, c).0.stage
            == Stage::AsarChecked && k == s.valid.len()),
        next_patch(s, evs, k, c).0.valid == s.valid,
{
    if c {
        lemma_fail(s, evs, "cancelled"@, c);
    } else if k < s.valid.len() {
        lemma_pv_log(evs, log(LogLevel::Info, MSG_DIR_PREFIX@ + patch_dirs()[s.valid[k] as int] + MSG_COPYING@));
    } else {
        lemma_pv_log(evs, log(LogLevel::Info, MSG_STEP6@));
    }
}

proof fn lemma_finish_ok(s: RunView, evs: Seq<EventView>)
    requires
        wf(s),
    ensures
        progress_values(finish_ok(s, evs).1) == progress_values(evs).push(100),
        !forward(finish_ok(s, evs).0.stage),
        wf(finish_ok(s, evs).0),
{
    let e1 = evs.push(EventView::Progress(100));
    lemma_pv_progress(evs, 100);
    let tail = closing_logs(s.macos) + seq![EventView::Finished(true, complete_text(s.macos))];
    assert forall|i: int| 0 <= i < tail.len() implies !(#[trigger] tail[i] is Progress) by {}
    lemma_pv_no_progress(e1, tail);
    assert(e1 + tail =~= finish_ok(s, evs).1);
}

proof fn lemma_pv_no_progress(a: Seq<EventView>, b: Seq<EventView>)
    requires
        forall|i: int| 0 <= i < b.len() ==> !(#[trigger] b[i] is Progress),
    ensures
        progress_values(a + b) == progress_values(a),
    decreases b.len(),
{
    if b.len() == 0 {
        assert(a + b =~= a);
    } else {
        assert((a + b).drop_last() =~= a + b.drop_last());
        lemma_pv_no_progress(a, b.drop_last());
    }
}

proof fn lemma_after_clean(s: RunView, evs: Seq<EventView>, c: bool)
    requires
        wf(s),
    ensures
        progress_values(after_clean(s, evs, c).1) == progress_values(evs).push(20),
        wf(after_clean(s, evs, c).0),
        forward(after_clean(s, evs, c).0.stage) ==> after_clean(s, evs, c).0.stage == Stage::Extracted,
{
    let e2 = evs.push(EventView::Progress(20));
    lemma_pv_progress(evs, 20);
    if c {
        lemma_fail(s, e2, "cancelled"@, c);
    } else {
        lemma_pv_log(e2, log(LogLevel::Info, MSG_STEP4@));
    }
}

proof fn lemma_two(a: EventView, b: EventView)
    ensures
        progress_values(seq![a, b]) == progress_values(seq![a]) + progress_values(seq![b]),
        progress_values(seq![a]) == match a {
            EventView::Progress(p) => seq![p],
            _ => seq![],
        },
        progress_values(seq![b]) == match b {
            EventView::Progress(p) => seq![p],
            _ => seq![],
        },
{
    lemma_progress_concat(seq![a], seq![b]);
    assert(seq![a] + seq![b] =~= seq![a, b]);
    assert(seq![a].drop_last() =~= Seq::<EventView>::empty());
    assert(seq![b].drop_last() =~= Seq::<EventView>::empty());
    assert(progress_values(Seq::<EventView>::empty()) =~= Seq::<u32>::empty());
    assert(progress_values(seq![a]) =~= match a {
        EventView::Progress(p) => seq![p],
        _ => seq![],
    });
    assert(progress_values(seq![b]) =~= match b {
        EventView::Progress(p) => seq![p],
        _ => seq![],
    });
}

/// What a step reports of progress, and how it leaves the state.
proof fn lemma_step(s: RunView, o: OutcomeView, c: bool)
    requires
        wf(s),
        accepts(s, o),
    ensures
        ({
            let (s2, evs, w) = next(s, o, c);
            let pv = progress_values(evs);
            &&& wf(s2)
            &&& ascending(pv)
            &&& within(pv, floor(s) as int, 100)
            &&& forward(s2.stage) ==> forward(s.stage) && floor(s) <= floor(s2) && within(
                pv,
                0,
                floor(s2) as int,
            )
            &&& !forward(s.stage) ==> pv.len() == 0 && !forward(s2.stage)
        }),
{
    match s.stage {
        Stage::Ready | Stage::FindingAsar | Stage::TmpChecked | Stage::TmpRemoved | Stage::Copied
        | Stage::OldChecked | Stage::OldRemoved | Stage::Renamed => lemma_step_early(s, o, c),
        Stage::AppChecked | Stage::AppRemoved | Stage::Extracted | Stage::Listed | Stage::Writing => lemma_step_middle(s, o, c),
        _ => lemma_step_late(s, o, c),
    }
}

#[verifier::spinoff_prover]
proof fn lemma_step_early(s: RunView, o: OutcomeView, c: bool)
    requires
        wf(s),
        accepts(s, o),
        s.stage == Stage::Ready || s.stage == Stage::FindingAsar || s.stage == Stage::TmpChecked
            || s.stage == Stage::TmpRemoved || s.stage == Stage::Copied || s.stage == Stage::OldChecked
            || s.stage == Stage::OldRemoved || s.stage == Stage::Renamed,
    ensures
        ({
            let (s2, evs, w) = next(s, o, c);
            let pv = progress_values(evs);
            &&& wf(s2)
            &&& ascending(pv)
            &&& within(pv, floor(s) as int, 100)
            &&& forward(s2.stage) ==> forward(s.stage) && floor(s) <= floor(s2) && within(
                pv,
                0,
                floor(s2) as int,
            )
            &&& !forward(s.stage) ==> pv.len() == 0 && !forward(s2.stage)
        }),
{
    let none = Seq::<EventView>::empty();
    lemma_pv_empty();
    match s.stage {
        Stage::Ready => {
            let a = seq![log(LogLevel::Info, RULE@)];
            lemma_pv_log(a, log(LogLevel::Info, MSG_START@));
            lemma_pv_log(a.push(log(LogLevel::Info, MSG_START@)), log(LogLevel::Info, MSG_STEP1@));
            lemma_pv_log(none, log(LogLevel::Info, RULE@));
            assert(a =~= none.push(log(LogLevel::Info, RULE@)));
            assert(a.push(log(LogLevel::Info, MSG_START@)).push(log(LogLevel::Info, MSG_STEP1@)) =~= next(s, o, c).1);
        },
        Stage::FindingAsar => match o {
            OutcomeView::Asar(Some((d, has_parent))) => {
                let s2 = RunView { asar_known: true, display: d, ..s };
                let evs = seq![log(LogLevel::Success, MSG_ASAR_AT@ + d), EventView::Progress(5)];
                lemma_two(log(LogLevel::Success, MSG_ASAR_AT@ + d), EventView::Progress(5));
                assert(progress_values(evs) =~= seq![5u32]);
                if c {
                    lemma_fail(s2, evs, "cancelled"@, c);
                } else if !has_parent {
                    lemma_fail(s2, evs, MSG_NO_PARENT@, c);
                } else {
                    lemma_pv_log(evs, log(LogLevel::Info, MSG_STEP2@));
                }
            },
            _ => lemma_fail(s, none, MSG_NO_ASAR@, c),
        },
        Stage::TmpRemoved => match o {
            OutcomeView::Done(Err(e)) => lemma_fail(s, none, MSG_TMP_FAIL@ + e, c),
            _ => {},
        },
        Stage::Copied => match o {
            OutcomeView::Done(Err(e)) => lemma_fail(s, none, MSG_BACKUP_FAIL@ + e, c),
            _ => {},
        },
        Stage::OldRemoved => match o {
            OutcomeView::Done(Err(e)) => lemma_fail(s, none, MSG_OLD_FAIL@ + e, c),
            _ => {},
        },
        Stage::Renamed => match o {
            OutcomeView::Done(Err(e)) => lemma_fail(s, none, MSG_RENAME_FAIL@ + e, c),
            _ => {
                let evs = seq![log(LogLevel::Success, MSG_BACKUP_DONE@), EventView::Progress(15)];
                lemma_two(log(LogLevel::Success, MSG_BACKUP_DONE@), EventView::Progress(15));
                assert(progress_values(evs) =~= seq![15u32]);
                if c {
                    lemma_fail(s, evs, "cancelled"@, c);
                } else {
                    lemma_pv_log(evs, log(LogLevel::Info, MSG_STEP3@));
                }
            },
        },
        _ => {},
    }
}

#[verifier::spinoff_prover]
proof fn lemma_step_middle(s: RunView, o: OutcomeView, c: bool)
    requires
        wf(s),
        accepts(s, o),
        s.stage == Stage::AppChecked || s.stage == Stage::AppRemoved || s.stage == Stage::Extracted
            || s.stage == Stage::Listed || s.stage == Stage::Writing,
    ensures
        ({
            let (s2, evs, w) = next(s, o, c);
            let pv = progress_values(evs);
            &&& wf(s2)
            &&& ascending(pv)
            &&& within(pv, floor(s) as int, 100)
            &&& forward(s2.stage) ==> forward(s.stage) && floor(s) <= floor(s2) && within(
                pv,
                0,
                floor(s2) as int,
            )
            &&& !forward(s.stage) ==> pv.len() == 0 && !forward(s2.stage)
        }),
{
    let none = Seq::<EventView>::empty();
    lemma_pv_empty();
    match s.stage {
        Stage::AppChecked => {
            if o == OutcomeView::Flag(true) {
                lemma_pv_log(none, log(LogLevel::Info, MSG_REMOVING_APP@));
                assert(none.push(log(LogLevel::Info, MSG_REMOVING_APP@)) =~= next(s, o, c).1);
            } else {
                lemma_after_clean(s, none, c);
            }
        },
        Stage::AppRemoved => match o {
            OutcomeView::Done(Err(e)) => lemma_fail(s, none, MSG_REMOVE_FAIL@ + e, c),
            _ => {
                let evs = seq![log(LogLevel::Success, MSG_REMOVED@)];
                lemma_pv_log(none, log(LogLevel::Success, MSG_REMOVED@));
                assert(none.push(log(LogLevel::Success, MSG_REMOVED@)) =~= evs);
                lemma_after_clean(s, evs, c);
            },
        },
        Stage::Extracted => match o {
            OutcomeView::Done(Err(e)) => lemma_fail(s, none, MSG_EXTRACT_FAIL@ + e, c),
            _ => {
                let evs = seq![log(LogLevel::Success, MSG_EXTRACTED@), EventView::Progress(40)];
                lemma_two(log(LogLevel::Success, MSG_EXTRACTED@), EventView::Progress(40));
                assert(progress_values(evs) =~= seq![40u32]);
                if c {
                    lemma_fail(s, evs, "cancelled"@, c);
                } else {
                    lemma_pv_log(evs, log(LogLevel::Info, MSG_STEP5@));
                }
            },
        },
        Stage::Listed => match o {
            OutcomeView::Patches(bs) => {
                lemma_bundled(bs, flag_count(bs));
                let s2 = RunView { valid: bundled(bs, flag_count(bs)), k: 0, ..s };
                lemma_next_patch(s2, none, 0, c);
            },
            _ => {
                let s2 = RunView { valid: seq![], k: 0, ..s };
                lemma_next_patch(s2, none, 0, c);
            },
        },
        Stage::Writing => {
            let name = patch_dirs()[s.valid[s.k as int] as int];
            lemma_patch_pct(s.k as int, patch_total(s));
            if s.k > 0 {
                lemma_patch_pct(s.k - 1, patch_total(s));
            }
            match o {
                OutcomeView::Missing => lemma_fail(s, none, MSG_NO_DIR@ + name, c),
                OutcomeView::Done(Err(e)) => lemma_fail(s, none, MSG_COPY_FAIL@ + e, c),
                _ => {
                    let p = patch_pct(s.k as int, patch_total(s));
                    let evs = seq![
                        log(LogLevel::Success, MSG_DIR_PREFIX@ + name + MSG_COPIED@),
                        EventView::Progress(p),
                    ];
                    lemma_two(log(LogLevel::Success, MSG_DIR_PREFIX@ + name + MSG_COPIED@), EventView::Progress(p));
                    assert(progress_values(evs) =~= seq![p]);
                    lemma_next_patch(s, evs, s.k + 1, c);
                    if s.k + 1 == s.valid.len() {
                        assert(p == 80);
                    }
                },
            }
        },
        _ => {},
    }
}

#[verifier::spinoff_prover]
proof fn lemma_step_late(s: RunView, o: OutcomeView, c: bool)
    requires
        wf(s),
        accepts(s, o),
        !(s.stage == Stage::Ready || s.stage == Stage::FindingAsar || s.stage == Stage::TmpChecked
            || s.stage == Stage::TmpRemoved || s.stage == Stage::Copied || s.stage == Stage::OldChecked
            || s.stage == Stage::OldRemoved || s.stage == Stage::Renamed || s.stage == Stage::AppChecked
            || s.stage == Stage::AppRemoved || s.stage == Stage::Extracted || s.stage == Stage::Listed
            || s.stage == Stage::Writing),
    ensures
        ({
            let (s2, evs, w) = next(s, o, c);
            let pv = progress_values(evs);
            &&& wf(s2)
            &&& ascending(pv)
            &&& within(pv, floor(s) as int, 100)
            &&& forward(s2.stage) ==> forward(s.stage) && floor(s) <= floor(s2) && within(
                pv,
                0,
                floor(s2) as int,
            )
            &&& !forward(s.stage) ==> pv.len() == 0 && !forward(s2.stage)
        }),
{
    let none = Seq::<EventView>::empty();
    lemma_pv_empty();
    match s.stage {
        Stage::AsarRemoved => match o {
            OutcomeView::Done(Err(e)) => lemma_fail(s, none, MSG_ORIG_FAIL@ + e, c),
            _ => {
                lemma_pv_log(none, log(LogLevel::Info, MSG_ORIG_REMOVED@));
                assert(none.push(log(LogLevel::Info, MSG_ORIG_REMOVED@)) =~= next(s, o, c).1);
            },
        },
        Stage::Packed => match o {
            OutcomeView::Done(Err(e)) => lemma_fail(s, none, MSG_PACK_FAIL@ + e, c),
            _ => {
                let a = seq![log(LogLevel::Success, MSG_PACKED@), EventView::Progress(90)];
                lemma_two(log(LogLevel::Success, MSG_PACKED@), EventView::Progress(90));
                lemma_pv_log(a, log(LogLevel::Info, MSG_STEP7@));
                assert(a.push(log(LogLevel::Info, MSG_STEP7@)) =~= next(s, o, c).1);
                assert(progress_values(next(s, o, c).1) =~= seq![90u32]);
            },
        },
        Stage::TempChecked => {
            if o != OutcomeView::Flag(true) {
                lemma_finish_ok(s, none);
            }
        },
        Stage::TempRemoved => match o {
            OutcomeView::Done(Err(e)) => lemma_fail(s, none, MSG_TEMP_FAIL@ + e, c),
            _ => {
                let evs = seq![log(LogLevel::Success, MSG_TEMP_REMOVED@)];
                lemma_pv_log(none, log(LogLevel::Success, MSG_TEMP_REMOVED@));
                assert(none.push(log(LogLevel::Success, MSG_TEMP_REMOVED@)) =~= evs);
                lemma_finish_ok(s, evs);
            },
        },
        Stage::RestoreAppChecked => {
            if o != OutcomeView::Flag(true) {
                lemma_finish_fail(s, none);
            }
        },
        Stage::RestoreAppRemoved => lemma_finish_fail(s, none),
        Stage::RestoreBackupChecked => {
            if o != OutcomeView::Flag(true) {
                lemma_finish_fail(s, none);
            }
        },
        Stage::RestoreCopied => match o {
            OutcomeView::Done(Err(e)) => {
                let evs = seq![log(LogLevel::Error, MSG_RESTORE_FAIL@ + e)];
                lemma_pv_log(none, log(LogLevel::Error, MSG_RESTORE_FAIL@ + e));
                assert(none.push(log(LogLevel::Error, MSG_RESTORE_FAIL@ + e)) =~= evs);
                lemma_finish_fail(s, evs);
            },
            _ => {
                let evs = seq![log(LogLevel::Success, MSG_RESTORED@)];
                lemma_pv_log(none, log(LogLevel::Success, MSG_RESTORED@));
                assert(none.push(log(LogLevel::Success, MSG_RESTORED@)) =~= evs);
                lemma_finish_fail(s, evs);
            },
        },
        _ => {},
    }
}

/// The state of a run that has not begun.
pub open spec fn initial(macos: bool) -> RunView {
    RunView {
        stage: Stage::Ready,
        macos,
        asar_known: false,
        folders_known: false,
        display: seq![],
        valid: seq![],
        k: 0,
        cancelled: false,
        error: seq![],
    }
}

/// The state and events after the outcomes `os`, the flag reading `cs` at
/// each step.
pub open spec fn run_from(s: RunView, os: Seq<OutcomeView>, cs: Seq<bool>) -> (RunView, Seq<EventView>)
    decreases os.len(),
{
    if os.len() == 0 {
        (s, seq![])
    } else {
        let (s1, e1, _) = next(s, os[0], cs[0]);
        let (s2, e2) = run_from(s1, os.drop_first(), cs.drop_first());
        (s2, e1 + e2)
    }
}

/// Every outcome of `os` is one the run takes at that point.
pub open spec fn accepted_run(s: RunView, os: Seq<OutcomeView>, cs: Seq<bool>) -> bool
    decreases os.len(),
{
    os.len() == 0 || (accepts(s, os[0]) && accepted_run(
        next(s, os[0], cs[0]).0,
        os.drop_first(),
        cs.drop_first(),
    ))
}

proof fn lemma_run_progress(s: RunView, os: Seq<OutcomeView>, cs: Seq<bool>)
    requires
        wf(s),
        accepted_run(s, os, cs),
    ensures
        ascending(progress_values(run_from(s, os, cs).1)),
        within(progress_values(run_from(s, os, cs).1), floor(s) as int, 100),
        !forward(s.stage) ==> progress_values(run_from(s, os, cs).1).len() == 0,
    decreases os.len(),
{
    if os.len() > 0 {
        let (s1, e1, _) = next(s, os[0], cs[0]);
        lemma_step(s, os[0], cs[0]);
        lemma_run_progress(s1, os.drop_first(), cs.drop_first());
        let e2 = run_from(s1, os.drop_first(), cs.drop_first()).1;
        lemma_progress_concat(e1, e2);
        let p1 = progress_values(e1);
        let p2 = progress_values(e2);
        assert(progress_values(run_from(s, os, cs).1) == p1 + p2);
        assert forall|i: int, j: int| 0 <= i <= j < (p1 + p2).len() implies (p1 + p2)[i] <= (p1
            + p2)[j] by {
            if i < p1.len() && j >= p1.len() {
                assert(p1[i] <= floor(s1));
                assert(floor(s1) <= p2[j - p1.len()]);
            }
        }
        assert forall|i: int| 0 <= i < (p1 + p2).len() implies floor(s) <= #[trigger] (p1 + p2)[i]
            <= 100 by {
            if i >= p1.len() {
                assert(p2[i - p1.len()] >= floor(s1));
            }
        }
    }
}

/// Over a whole install, the progress reported never goes back.
pub proof fn lemma_progress_never_decreases(macos: bool, os: Seq<OutcomeView>, cs: Seq<bool>)
    requires
        accepted_run(initial(macos), os, cs),
    ensures
        ascending(progress_values(run_from(initial(macos), os, cs).1)),
        within(progress_values(run_from(initial(macos), os, cs).1), 0, 100),
{
    lemma_run_progress(initial(macos), os, cs);
}

/// The events `evs` hold no final event, or one only as their last, as
/// `over` says.
pub open spec fn ends_once(evs: Seq<EventView>, over: bool) -> bool {
    if over {
        &&& evs.len() > 0
        &&& evs.last() is Finished
        &&& forall|i: int| 0 <= i < evs.len() - 1 ==> !(#[trigger] evs[i] is Finished)
    } else {
        forall|i: int| 0 <= i < evs.len() ==> !(#[trigger] evs[i] is Finished)
    }
}

/// A step reports the end exactly when it ends the install, as its last
/// event, and asks for no more work then.
proof fn lemma_step_end(s: RunView, o: OutcomeView, c: bool)
    requires
        wf(s),
        accepts(s, o),
    ensures
        ({
            let (s2, evs, w) = next(s, o, c);
            &&& ends_once(evs, s2.stage == Stage::Over)
            &&& (w == Work::Done) == (s2.stage == Stage::Over)
        }),
{
    match s.stage {
        Stage::Ready | Stage::FindingAsar | Stage::TmpChecked | Stage::TmpRemoved | Stage::Copied | Stage::OldChecked | Stage::OldRemoved | Stage::Renamed => lemma_step_end_early(s, o, c),
        Stage::AppChecked | Stage::AppRemoved | Stage::Extracted | Stage::Listed | Stage::Writing => lemma_step_end_middle(s, o, c),
        Stage::AsarChecked | Stage::AsarRemoved | Stage::Packed | Stage::TempChecked | Stage::TempRemoved => lemma_step_end_late(s, o, c),
        Stage::RestoreAppChecked | Stage::RestoreAppRemoved | Stage::RestoreBackupChecked | Stage::RestoreCopied => lemma_step_end_restore(s, o, c),
        Stage::Over => {},
    }
}

#[verifier::spinoff_prover]
proof fn lemma_step_end_early(s: RunView, o: OutcomeView, c: bool)
    requires
        wf(s),
        accepts(s, o),
        s.stage == Stage::Ready || s.stage == Stage::FindingAsar || s.stage == Stage::TmpChecked || s.stage == Stage::TmpRemoved || s.stage == Stage::Copied || s.stage == Stage::OldChecked || s.stage == Stage::OldRemoved || s.stage == Stage::Renamed,
    ensures
        ({
            let (s2, evs, w) = next(s, o, c);
            &&& ends_once(evs, s2.stage == Stage::Over)
            &&& (w == Work::Done) == (s2.stage == Stage::Over)
        }),
{
}

#[verifier::spinoff_prover]
proof fn lemma_step_end_middle(s: RunView, o: OutcomeView, c: bool)
    requires
        wf(s),
        accepts(s, o),
        s.stage == Stage::AppChecked || s.stage == Stage::AppRemoved || s.stage == Stage::Extracted || s.stage == Stage::Listed || s.stage == Stage::Writing,
    ensures
        ({
            let (s2, evs, w) = next(s, o, c);
            &&& ends_once(evs, s2.stage == Stage::Over)
            &&& (w == Work::Done) == (s2.stage == Stage::Over)
        }),
{
}

#[verifier::spinoff_prover]
proof fn lemma_step_end_late(s: RunView, o: OutcomeView, c: bool)
    requires
        wf(s),
        accepts(s, o),
        s.stage == Stage::AsarChecked || s.stage == Stage::AsarRemoved || s.stage == Stage::Packed || s.stage == Stage::TempChecked || s.stage == Stage::TempRemoved,
    ensures
        ({
            let (s2, evs, w) = next(s, o, c);
            &&& ends_once(evs, s2.stage == Stage::Over)
            &&& (w == Work::Done) == (s2.stage == Stage::Over)
        }),
{
}

#[verifier::spinoff_prover]
proof fn lemma_step_end_restore(s: RunView, o: OutcomeView, c: bool)
    requires
        wf(s),
        accepts(s, o),
        s.stage == Stage::RestoreAppChecked || s.stage == Stage::RestoreAppRemoved || s.stage == Stage::RestoreBackupChecked || s.stage == Stage::RestoreCopied,
    ensures
        ({
            let (s2, evs, w) = next(s, o, c);
            &&& ends_once(evs, s2.stage == Stage::Over)
            &&& (w == Work::Done) == (s2.stage == Stage::Over)
        }),
{
}

#[verifier::spinoff_prover]
proof fn lemma_run_end(s: RunView, os: Seq<OutcomeView>, cs: Seq<bool>)
    requires
        wf(s),
        s.stage != Stage::Over,
        accepted_run(s, os, cs),
    ensures
        ends_once(run_from(s, os, cs).1, run_from(s, os, cs).0.stage == Stage::Over),
    decreases os.len(),
{
    if os.len() > 0 {
        let (s1, e1, _) = next(s, os[0], cs[0]);
        lemma_step(s, os[0], cs[0]);
        lemma_step_end(s, os[0], cs[0]);
        assert(accepted_run(s1, os.drop_first(), cs.drop_first()));
        if s1.stage == Stage::Over {
            if os.drop_first().len() > 0 {
                assert(!accepts(s1, os.drop_first()[0]));
            }
            assert(os.drop_first().len() == 0);
            assert(e1 + Seq::<EventView>::empty() =~= e1);
        } else {
            lemma_run_end(s1, os.drop_first(), cs.drop_first());
            let (s2, e2) = run_from(s1, os.drop_first(), cs.drop_first());
            let all = e1 + e2;
            if s2.stage == Stage::Over {
                assert(all.last() == e2.last());
                assert forall|i: int| 0 <= i < all.len() - 1 implies !(#[trigger] all[i] is Finished) by {
                    if i >= e1.len() {
                        assert(all[i] == e2[i - e1.len()]);
                    }
                }
            } else {
                assert forall|i: int| 0 <= i < all.len() implies !(#[trigger] all[i] is Finished) by {
                    if i >= e1.len() {
                        assert(all[i] == e2[i - e1.len()]);
                    }
                }
            }
        }
    } else {
        assert(run_from(s, os, cs).1 =~= Seq::<EventView>::empty());
    }
}

/// Over a whole install, the end is reported at most once, as the very last
/// event, and exactly when the install is over.
pub proof fn lemma_end_reported_once(macos: bool, os: Seq<OutcomeView>, cs: Seq<bool>)
    requires
        accepted_run(initial(macos), os, cs),
    ensures
        ends_once(
            run_from(initial(macos), os, cs).1,
            run_from(initial(macos), os, cs).0.stage == Stage::Over,
        ),
{
    lemma_run_end(initial(macos), os, cs);
}

/// A failed install whose backup paths are known goes on to restore the
/// untouched archive: it removes the extracted folder, then copies the backup over
/// `app.asar` if the backup exists. The final message is the completion
/// message on success, and on failure says whether it was cancelled or
/// what went wrong.
pub proof fn lemma_failure_restores(s: RunView, o: OutcomeView, c: bool)
    requires
        wf(s),
        accepts(s, o),
    ensures
        ({
            let (s2, evs, w) = next(s, o, c);
            &&& forward(s.stage) && s.folders_known && !forward(s2.stage) && !(evs.len() > 0
                && evs.last() matches EventView::Finished(true, _)) ==> s2.stage
                == Stage::RestoreAppChecked && w == Work::Exists(Place::AppFolder)
            &&& (s.stage == Stage::RestoreAppChecked || s.stage == Stage::RestoreAppRemoved) && s.folders_known
                && s.asar_known && w != Work::RemoveDirAll(Place::AppFolder) ==> w == Work::Exists(
                Place::Backup,
            )
            &&& s.stage == Stage::RestoreBackupChecked && o == OutcomeView::Flag(true) ==> w
                == Work::Copy(Place::Backup, Place::Asar)
            &&& forall|i: int|
                0 <= i < evs.len() ==> (#[trigger] evs[i] matches EventView::Finished(ok, m) ==> (ok
                    ==> m == complete_text(s.macos)) && (!ok ==> m == if s2.cancelled {
                    MSG_CANCELLED_END@
                } else {
                    MSG_FAILED_END@ + s2.error
                }))
        }),
{
    match s.stage {
        Stage::Ready | Stage::FindingAsar | Stage::TmpChecked | Stage::TmpRemoved | Stage::Copied | Stage::OldChecked | Stage::OldRemoved | Stage::Renamed => lemma_failure_restores_early(s, o, c),
        Stage::AppChecked | Stage::AppRemoved | Stage::Extracted | Stage::Listed | Stage::Writing => lemma_failure_restores_middle(s, o, c),
        Stage::AsarChecked | Stage::AsarRemoved | Stage::Packed | Stage::TempChecked | Stage::TempRemoved => lemma_failure_restores_late(s, o, c),
        Stage::RestoreAppChecked | Stage::RestoreAppRemoved | Stage::RestoreBackupChecked | Stage::RestoreCopied => lemma_failure_restores_restore(s, o, c),
        Stage::Over => {},
    }
}

#[verifier::spinoff_prover]
proof fn lemma_failure_restores_early(s: RunView, o: OutcomeView, c: bool)
    requires
        wf(s),
        accepts(s, o),
        s.stage == Stage::Ready || s.stage == Stage::FindingAsar || s.stage == Stage::TmpChecked || s.stage == Stage::TmpRemoved || s.stage == Stage::Copied || s.stage == Stage::OldChecked || s.stage == Stage::OldRemoved || s.stage == Stage::Renamed,
    ensures
        ({
            let (s2, evs, w) = next(s, o, c);
            &&& forward(s.stage) && s.folders_known && !forward(s2.stage) && !(evs.len() > 0
                && evs.last() matches EventView::Finished(true, _)) ==> s2.stage
                == Stage::RestoreAppChecked && w == Work::Exists(Place::AppFolder)
            &&& (s.stage == Stage::RestoreAppChecked || s.stage == Stage::RestoreAppRemoved) && s.folders_known
                && s.asar_known && w != Work::RemoveDirAll(Place::AppFolder) ==> w == Work::Exists(
                Place::Backup,
            )
            &&& s.stage == Stage::RestoreBackupChecked && o == OutcomeView::Flag(true) ==> w
                == Work::Copy(Place::Backup, Place::Asar)
            &&& forall|i: int|
                0 <= i < evs.len() ==> (#[trigger] evs[i] matches EventView::Finished(ok, m) ==> (ok
                    ==> m == complete_text(s.macos)) && (!ok ==> m == if s2.cancelled {
                    MSG_CANCELLED_END@
                } else {
                    MSG_FAILED_END@ + s2.error
                }))
        }),
{
}

#[verifier::spinoff_prover]
proof fn lemma_failure_restores_middle(s: RunView, o: OutcomeView, c: bool)
    requires
        wf(s),
        accepts(s, o),
        s.stage == Stage::AppChecked || s.stage == Stage::AppRemoved || s.stage == Stage::Extracted || s.stage == Stage::Listed || s.stage == Stage::Writing,
    ensures
        ({
            let (s2, evs, w) = next(s, o, c);
            &&& forward(s.stage) && s.folders_known && !forward(s2.stage) && !(evs.len() > 0
                && evs.last() matches EventView::Finished(true, _)) ==> s2.stage
                == Stage::RestoreAppChecked && w == Work::Exists(Place::AppFolder)
            &&& (s.stage == Stage::RestoreAppChecked || s.stage == Stage::RestoreAppRemoved) && s.folders_known
                && s.asar_known && w != Work::RemoveDirAll(Place::AppFolder) ==> w == Work::Exists(
                Place::Backup,
            )
            &&& s.stage == Stage::RestoreBackupChecked && o == OutcomeView::Flag(true) ==> w
                == Work::Copy(Place::Backup, Place::Asar)
            &&& forall|i: int|
                0 <= i < evs.len() ==> (#[trigger] evs[i] matches EventView::Finished(ok, m) ==> (ok
                    ==> m == complete_text(s.macos)) && (!ok ==> m == if s2.cancelled {
                    MSG_CANCELLED_END@
                } else {
                    MSG_FAILED_END@ + s2.error
                }))
        }),
{
}

#[verifier::spinoff_prover]
proof fn lemma_failure_restores_late(s: RunView, o: OutcomeView, c: bool)
    requires
        wf(s),
        accepts(s, o),
        s.stage == Stage::AsarChecked || s.stage == Stage::AsarRemoved || s.stage == Stage::Packed || s.stage == Stage::TempChecked || s.stage == Stage::TempRemoved,
    ensures
        ({
            let (s2, evs, w) = next(s, o, c);
            &&& forward(s.stage) && s.folders_known && !forward(s2.stage) && !(evs.len() > 0
                && evs.last() matches EventView::Finished(true, _)) ==> s2.stage
                == Stage::RestoreAppChecked && w == Work::Exists(Place::AppFolder)
            &&& (s.stage == Stage::RestoreAppChecked || s.stage == Stage::RestoreAppRemoved) && s.folders_known
                && s.asar_known && w != Work::RemoveDirAll(Place::AppFolder) ==> w == Work::Exists(
                Place::Backup,
            )
            &&& s.stage == Stage::RestoreBackupChecked && o == OutcomeView::Flag(true) ==> w
                == Work::Copy(Place::Backup, Place::Asar)
            &&& forall|i: int|
                0 <= i < evs.len() ==> (#[trigger] evs[i] matches EventView::Finished(ok, m) ==> (ok
                    ==> m == complete_text(s.macos)) && (!ok ==> m == if s2.cancelled {
                    MSG_CANCELLED_END@
                } else {
                    MSG_FAILED_END@ + s2.error
                }))
        }),
{
}

#[verifier::spinoff_prover]
proof fn lemma_failure_restores_restore(s: RunView, o: OutcomeView, c: bool)
    requires
        wf(s),
        accepts(s, o),
        s.stage == Stage::RestoreAppChecked || s.stage == Stage::RestoreAppRemoved || s.stage == Stage::RestoreBackupChecked || s.stage == Stage::RestoreCopied,
    ensures
        ({
            let (s2, evs, w) = next(s, o, c);
            &&& forward(s.stage) && s.folders_known && !forward(s2.stage) && !(evs.len() > 0
                && evs.last() matches EventView::Finished(true, _)) ==> s2.stage
                == Stage::RestoreAppChecked && w == Work::Exists(Place::AppFolder)
            &&& (s.stage == Stage::RestoreAppChecked || s.stage == Stage::RestoreAppRemoved) && s.folders_known
                && s.asar_known && w != Work::RemoveDirAll(Place::AppFolder) ==> w == Work::Exists(
                Place::Backup,
            )
            &&& s.stage == Stage::RestoreBackupChecked && o == OutcomeView::Flag(true) ==> w
                == Work::Copy(Place::Backup, Place::Asar)
            &&& forall|i: int|
                0 <= i < evs.len() ==> (#[trigger] evs[i] matches EventView::Finished(ok, m) ==> (ok
                    ==> m == complete_text(s.macos)) && (!ok ==> m == if s2.cancelled {
                    MSG_CANCELLED_END@
                } else {
                    MSG_FAILED_END@ + s2.error
                }))
        }),
{
}

// ---------------------------------------------------------------------------
// Laws: the backup, the archive replaced, the folders written

/// Whether the work `w` removes or overwrites `app.asar.backup`.
pub open spec fn writes_backup(w: Work) -> bool {
    match w {
        Work::RemoveFile(p) => p == Place::Backup,
        Work::RemoveDirAll(p) => p == Place::Backup,
        Work::Copy(_, q) => q == Place::Backup,
        Work::Rename(_, q) => q == Place::Backup,
        _ => false,
    }
}

/// The stages before the backup is in place.
pub open spec fn before_backup(st: Stage) -> bool {
    st == Stage::Ready || st == Stage::FindingAsar || st == Stage::TmpChecked || st == Stage::TmpRemoved
        || st == Stage::Copied || st == Stage::OldChecked || st == Stage::OldRemoved
}

/// The backup is made once and then left alone: only the step that puts
/// the fresh copy in place (after an old backup is found, and removed) can
/// remove or overwrite `app.asar.backup`, and it does so only by renaming the
/// fresh copy onto it; once the run has left the stages before the
/// backup it never returns to them. So after the rename, no later work of
/// the run touches the backup, failed or cancelled runs included.
pub proof fn lemma_backup_left_alone(s: RunView, o: OutcomeView, c: bool)
    ensures
        writes_backup(next(s, o, c).2) ==> (s.stage == Stage::OldChecked || s.stage == Stage::OldRemoved)
            && (next(s, o, c).2 == Work::RemoveFile(Place::Backup) || next(s, o, c).2 == Work::Rename(
            Place::BackupTmp,
            Place::Backup,
        )),
        next(s, o, c).2 == Work::Rename(Place::BackupTmp, Place::Backup) ==> next(s, o, c).0.stage
            == Stage::Renamed,
        !before_backup(s.stage) ==> !before_backup(next(s, o, c).0.stage),
        next(s, o, c).0.stage == Stage::Renamed ==> s.stage == Stage::OldChecked || s.stage
            == Stage::OldRemoved,
{
}

/// Repacking replaces the archive itself: when `app.asar` is found to be a
/// file before repacking, it is the archive (not the backup) that is
/// removed, and packing follows; when it is not, packing comes at once.
pub proof fn lemma_repack_replaces_archive(s: RunView, o: OutcomeView, c: bool)
    requires
        s.stage == Stage::AsarChecked,
    ensures
        o == OutcomeView::Flag(true) ==> next(s, o, c).2 == Work::RemoveFile(Place::Asar),
        o != OutcomeView::Flag(true) ==> next(s, o, c).2 == Work::Pack,
        next(s, o, c).0.stage == Stage::AsarRemoved ==> (next(s, o, c).2 == Work::RemoveFile(Place::Asar)),
{
}

/// The folders chosen from the flags `bs` (the first `n` looked at) are
/// exactly the bundled ones, in increasing order: each is below `n` and
/// flagged, each flagged one below `n` is among them, and none comes twice.
pub proof fn lemma_bundled_exact(bs: Seq<bool>, n: int)
    requires
        0 <= n <= bs.len(),
        n <= 8,
    ensures
        forall|j: int| 0 <= j < bundled(bs, n).len() ==> {
            &&& (#[trigger] bundled(bs, n)[j]) < n
            &&& bs[bundled(bs, n)[j] as int]
        },
        forall|a: int, b: int|
            0 <= a < b < bundled(bs, n).len() ==> bundled(bs, n)[a] < bundled(bs, n)[b],
        forall|i: int| 0 <= i < n && bs[i] ==> exists|j: int|
            0 <= j < bundled(bs, n).len() && bundled(bs, n)[j] == i,
    decreases n,
{
    if n > 0 {
        lemma_bundled_exact(bs, n - 1);
        let p = bundled(bs, n - 1);
        let t: Seq<usize> = if bs[n - 1] {
            seq![(n - 1) as usize]
        } else {
            seq![]
        };
        assert(bundled(bs, n) == p + t);
        assert forall|i: int| 0 <= i < n && bs[i] implies exists|j: int|
            0 <= j < bundled(bs, n).len() && bundled(bs, n)[j] == i by {
            if i < n - 1 {
                let j = choose|j: int| 0 <= j < p.len() && p[j] == i;
                assert((p + t)[j] == p[j]);
            } else {
                assert((p + t)[p.len() as int] == i);
            }
        }
    }
}

/// After the folder list `bs` arrives, the folders to write are exactly
/// the bundled ones among the first eight, in increasing order; the first
/// work, unless the run stops, writes the first of them, and each later
/// step writes the next one, never one that is not bundled.
pub proof fn lemma_writes_only_bundled(s: RunView, bs: Seq<bool>, c: bool)
    requires
        s.stage == Stage::Listed,
    ensures
        ({
            let v = next(s, OutcomeView::Patches(bs), c).0.valid;
            &&& forall|j: int| 0 <= j < v.len() ==> (#[trigger] v[j]) < bs.len() && v[j] < 8 && bs[v[j] as int]
            &&& forall|a: int, b: int| 0 <= a < b < v.len() ==> v[a] < v[b]
            &&& forall|i: int| 0 <= i < bs.len() && i < 8 && bs[i] ==> exists|j: int|
                0 <= j < v.len() && v[j] == i
        }),
        next(s, OutcomeView::Patches(bs), c).2 matches Work::WritePatchDir(i) ==> i < bs.len() && bs[i as int]
            && forall|x: int| 0 <= x < i ==> !bs[x],
{
    let n = flag_count(bs);
    lemma_bundled_exact(bs, n);
    let v = bundled(bs, n);
    let s2 = RunView { valid: v, k: 0, ..s };
    assert(next(s, OutcomeView::Patches(bs), c) == next_patch(s2, Seq::<EventView>::empty(), 0, c));
    assert(next(s, OutcomeView::Patches(bs), c).0.valid == v);
    if let Work::WritePatchDir(i) = next(s, OutcomeView::Patches(bs), c).2 {
        assert(i == v[0]);
        assert forall|x: int| 0 <= x < i implies !bs[x] by {
            if bs[x] {
                let j = choose|j: int| 0 <= j < v.len() && v[j] == x;
                if j > 0 {
                    assert(v[0] < v[j]);
                }
            }
        }
    }
}

/// Each step while writing folders writes the next folder of the list, in
/// increasing order, or leaves writing.
pub proof fn lemma_writes_in_order(s: RunView, o: OutcomeView, c: bool)
    requires
        wf(s),
        s.stage == Stage::Writing,
        forall|a: int, b: int| 0 <= a < b < s.valid.len() ==> s.valid[a] < s.valid[b],
    ensures
        next(s, o, c).2 matches Work::WritePatchDir(i) ==> i > s.valid[s.k as int] && next(s, o, c).0.valid
            == s.valid && next(s, o, c).0.k == s.k + 1 && i == s.valid[s.k + 1],
{
}

} // verus!
