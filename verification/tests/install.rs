use devil_connection_patcher::install::{meter_range, UNPACK_GLOB};
use devil_connection_patcher::asar::error::AsarError;
use devil_connection_patcher::install::{
    check_cancel, map_asar_err, stop_answer, InstallError, Installer, Level, Message, Outcome, Stage,
};
use devil_connection_patcher::installer::{Place, Work};
use std::sync::atomic::{AtomicBool, Ordering};
use std::sync::Arc;

fn s(x: &str) -> String {
    x.to_string()
}

fn drive(
    inst: &mut Installer,
    mut answer: impl FnMut(Work) -> Outcome,
    mut cancel_at: impl FnMut(usize) -> bool,
) -> (Vec<Message>, Vec<Work>) {
    let mut msgs = Vec::new();
    let mut works = Vec::new();
    let mut o = Outcome::Started;
    let mut n = 0;
    loop {
        assert!(inst.accepts_outcome(&o));
        let (ms, w) = inst.advance(o, cancel_at(n));
        n += 1;
        msgs.extend(ms);
        works.push(w);
        if w == Work::Done {
            break;
        }
        o = answer(w);
    }
    (msgs, works)
}

fn progress(ms: &[Message]) -> Vec<u8> {
    ms.iter()
        .filter_map(|m| match m {
            Message::Progress(p) => Some(*p),
            _ => None,
        })
        .collect()
}

fn ok_fs(w: Work) -> Outcome {
    match w {
        Work::FindAsar => Outcome::Asar(Some((s("/g/resources/app.asar"), true))),
        Work::Exists(Place::Backup) => Outcome::Flag(false),
        Work::Exists(_) => Outcome::Flag(true),
        Work::IsFile(_) => Outcome::Flag(true),
        Work::ListPatchDirs => Outcome::Patches(vec![true, true, true]),
        _ => Outcome::Done(Ok(())),
    }
}

fn new_installer() -> Installer {
    Installer::new(s("/g"), Arc::new(AtomicBool::new(false)))
}

#[test]
fn successful_install_desktop() {
    let mut inst = new_installer();
    let (ms, works) = drive(&mut inst, ok_fs, |_| false);
    assert_eq!(progress(&ms), vec![5, 15, 20, 40, 53, 66, 80, 90, 100]);
    assert!(works.contains(&Work::Copy(Place::Asar, Place::Backup)));
    match ms.last().unwrap() {
        Message::Finished { success: true, message } => assert_eq!(
            message,
            "한글패치가 완료되었습니다!\n\nSteam에서 게임을 실행하면 한글로 플레이하실 수 있습니다."
        ),
        _ => panic!("finished expected"),
    }
    assert_eq!(inst.stage(), Stage::Over);
}

#[test]
fn existing_backup_is_kept() {
    let mut inst = new_installer();
    let answer = |w: Work| match w {
        Work::Exists(Place::Backup) => Outcome::Flag(true),
        other => ok_fs(other),
    };
    let (ms, works) = drive(&mut inst, answer, |_| false);
    assert!(!works.contains(&Work::Copy(Place::Asar, Place::Backup)));
    assert!(ms.iter().any(|m| matches!(m, Message::Log { text, level: Level::Info } if text == "백업 파일이 이미 존재합니다. 기존 백업을 유지합니다.")));
}

#[test]
fn no_bundled_patches_warns() {
    let mut inst = new_installer();
    let answer = |w: Work| match w {
        Work::ListPatchDirs => Outcome::Patches(vec![]),
        other => ok_fs(other),
    };
    let (ms, _) = drive(&mut inst, answer, |_| false);
    assert!(ms.iter().any(|m| matches!(m, Message::Log { level: Level::Warning, .. })));
    assert_eq!(progress(&ms), vec![5, 15, 20, 40, 90, 100]);
}

#[test]
fn other_error_does_not_restore() {
    let mut inst = new_installer();
    let answer = |w: Work| match w {
        Work::Pack => Outcome::Done(Err(InstallError::Other(s("boom")))),
        other => ok_fs(other),
    };
    let (ms, works) = drive(&mut inst, answer, |_| false);
    assert_eq!(works[works.len() - 2], Work::Pack);
    let n = ms.len();
    assert!(matches!(&ms[n - 3], Message::Log { text, level: Level::Error } if text == "설치 중 오류 발생: boom"));
    assert!(matches!(&ms[n - 1], Message::Finished { success: false, message } if message == "설치 중 오류가 발생했습니다:\n\nboom"));
}

#[test]
fn cancelled_extraction_restores_desktop() {
    let mut inst = new_installer();
    let answer = |w: Work| match w {
        Work::Extract => Outcome::Done(Err(InstallError::Cancelled)),
        Work::Exists(_) => Outcome::Flag(true),
        other => ok_fs(other),
    };
    let (ms, works) = drive(&mut inst, answer, |_| false);
    let n = works.len();
    assert_eq!(&works[n - 5..], &[
        Work::Exists(Place::AppFolder),
        Work::RemoveDirAll(Place::AppFolder),
        Work::Exists(Place::Backup),
        Work::Copy(Place::Backup, Place::Asar),
        Work::Done,
    ]);
    assert!(ms.iter().any(|m| matches!(m, Message::Log { text, level: Level::Success } if text == "원본 파일 복원 완료")));
    assert!(matches!(ms.last().unwrap(), Message::Finished { success: false, message } if message == "설치가 취소되었습니다.\n원본 파일이 복원되었습니다."));
}

#[test]
fn restore_error_is_reported() {
    let mut inst = new_installer();
    let mut extracted = false;
    let answer = |w: Work| match w {
        Work::Extract => {
            extracted = true;
            Outcome::Done(Err(InstallError::Cancelled))
        }
        Work::RemoveDirAll(_) => Outcome::Done(Err(InstallError::Other(s("busy")))),
        Work::Exists(Place::AppFolder) => Outcome::Flag(extracted),
        Work::Exists(_) => Outcome::Flag(true),
        other => ok_fs(other),
    };
    let (ms, works) = drive(&mut inst, answer, |_| false);
    assert!(!works.contains(&Work::Copy(Place::Backup, Place::Asar)));
    assert!(ms.iter().any(|m| matches!(m, Message::Log { text, level: Level::Error } if text == "복원 중 오류: busy")));
}

#[test]
fn run_reads_the_flag() {
    let flag = Arc::new(AtomicBool::new(false));
    let mut inst = Installer::new(s("/g"), flag.clone());
    let (_, w) = inst.run(Outcome::Started);
    assert_eq!(w, Work::FindAsar);
    flag.store(true, Ordering::Relaxed);
    let (ms, w) = inst.run(ok_fs(Work::FindAsar));
    assert!(ms.iter().any(|m| matches!(m, Message::Log { level: Level::Warning, .. })));
    assert_eq!(w, Work::Done);
    assert!(matches!(ms.last().unwrap(), Message::Finished { success: false, .. }));
    assert!(matches!(check_cancel(&flag), Err(InstallError::Cancelled)));
}

#[test]
fn asar_errors_map() {
    assert!(matches!(map_asar_err(&AsarError::Cancelled, s("operation cancelled")), InstallError::Cancelled));
    assert!(matches!(map_asar_err(&AsarError::Walk(s("x")), s("walkdir error: x")), InstallError::Other(t) if t == "walkdir error: x"));
}

#[test]
fn stop_answer_follows_the_flag() {
    assert!(matches!(stop_answer(true), Err(InstallError::Cancelled)));
    assert!(stop_answer(false).is_ok());
}

#[test]
fn archive_operations_report_in_their_ranges() {
    assert_eq!(meter_range(&Work::Extract), Some((20, 40)));
    assert_eq!(meter_range(&Work::Pack), Some((80, 90)));
    assert_eq!(meter_range(&Work::ListPatchDirs), None);
    assert_eq!(UNPACK_GLOB, "*.node");
}
