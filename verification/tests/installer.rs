use devil_connection_patcher::installer::unpack_patterns;
use devil_connection_patcher::installer::{
    check_cancel, complete_message, patch_dir, InstallEvent, InstallRun, LogLevel, Outcome, Place,
    Stage, Work,
};

fn s(x: &str) -> String {
    x.to_string()
}

/// Drives a run with answers from `answer`; returns all events.
fn drive(
    run: &mut InstallRun,
    mut answer: impl FnMut(Work) -> Outcome,
    mut cancel_at: impl FnMut(usize) -> bool,
) -> (Vec<InstallEvent>, Vec<Work>) {
    let mut events = Vec::new();
    let mut works = Vec::new();
    let mut o = Outcome::Started;
    let mut n = 0;
    loop {
        assert!(run.accepts_outcome(&o));
        let (evs, w) = run.step(o, cancel_at(n));
        n += 1;
        events.extend(evs);
        works.push(w);
        if w == Work::Done {
            break;
        }
        o = answer(w);
    }
    (events, works)
}

fn progress(evs: &[InstallEvent]) -> Vec<u32> {
    evs.iter()
        .filter_map(|e| match e {
            InstallEvent::Progress { value } => Some(*value),
            _ => None,
        })
        .collect()
}

fn ok_fs(w: Work) -> Outcome {
    match w {
        Work::FindAsar => Outcome::Asar(Some((s("/g/resources/app.asar"), true))),
        Work::Exists(Place::AppFolder) => Outcome::Flag(true),
        Work::Exists(_) => Outcome::Flag(false),
        Work::IsFile(_) => Outcome::Flag(true),
        Work::ListPatchDirs => Outcome::Patches(vec![true, false, true, false, false, false, false, true]),
        _ => Outcome::Done(Ok(())),
    }
}

#[test]
fn successful_install() {
    let mut run = InstallRun::new(false);
    let (evs, works) = drive(&mut run, ok_fs, |_| false);
    assert_eq!(progress(&evs), vec![5, 15, 20, 40, 53, 66, 80, 90, 100]);
    match evs.last().unwrap() {
        InstallEvent::Finished { success, message } => {
            assert!(*success);
            assert_eq!(message, &complete_message(false));
        }
        _ => panic!("finished expected"),
    }
    assert!(works.contains(&Work::Copy(Place::Asar, Place::BackupTmp)));
    assert!(works.contains(&Work::Rename(Place::BackupTmp, Place::Backup)));
    assert!(works.contains(&Work::WritePatchDir(7)));
    assert!(works.contains(&Work::Pack));
    assert_eq!(run.stage(), Stage::Over);
    match &evs[3] {
        InstallEvent::Log { level, message } => {
            assert_eq!(*level, LogLevel::Success);
            assert_eq!(message, "app.asar 파일 위치: /g/resources/app.asar");
        }
        _ => panic!("log expected"),
    }
    let copying = evs.iter().any(|e| matches!(e, InstallEvent::Log { message, .. } if message == "  - data/system 폴더 복사 중..."));
    assert!(copying);
}

#[test]
fn macos_notes_and_message() {
    let mut run = InstallRun::new(true);
    let (evs, _) = drive(&mut run, ok_fs, |_| false);
    assert!(evs.iter().any(|e| matches!(e, InstallEvent::Log { level: LogLevel::Warning, message } if message == "macOS 사용자 안내:")));
    match evs.last().unwrap() {
        InstallEvent::Finished { success: true, message } => assert_eq!(message, &complete_message(true)),
        _ => panic!("finished expected"),
    }
    assert_ne!(complete_message(true), complete_message(false));
}

#[test]
fn missing_asar_fails_without_restore() {
    let mut run = InstallRun::new(false);
    let (evs, works) = drive(&mut run, |_| Outcome::Asar(None), |_| false);
    assert_eq!(works, vec![Work::FindAsar, Work::Done]);
    match evs.last().unwrap() {
        InstallEvent::Finished { success: false, message } => assert_eq!(
            message,
            "설치 중 오류가 발생했습니다:\n\napp.asar 파일을 찾을 수 없습니다. 게임 경로를 확인해주세요."
        ),
        _ => panic!("finished expected"),
    }
}

#[test]
fn extraction_failure_restores_backup() {
    let mut run = InstallRun::new(false);
    let answer = |w: Work| match w {
        Work::Extract => Outcome::Done(Err(s("disk full"))),
        Work::Exists(_) => Outcome::Flag(true),
        other => ok_fs(other),
    };
    let (evs, works) = drive(&mut run, answer, |_| false);
    let n = works.len();
    assert_eq!(&works[n - 5..n - 1], &[
        Work::Exists(Place::AppFolder),
        Work::RemoveDirAll(Place::AppFolder),
        Work::Exists(Place::Backup),
        Work::Copy(Place::Backup, Place::Asar),
    ]);
    assert!(evs.iter().any(|e| matches!(e, InstallEvent::Log { level: LogLevel::Error, message } if message == "설치 중 오류 발생: 압축 해제 실패: disk full")));
    match evs.last().unwrap() {
        InstallEvent::Finished { success: false, message } => {
            assert_eq!(message, "설치 중 오류가 발생했습니다:\n\n압축 해제 실패: disk full")
        }
        _ => panic!("finished expected"),
    }
}

#[test]
fn cancellation_restores_and_says_so() {
    let mut run = InstallRun::new(false);
    // The fifth step takes the renamed backup and checks the flag.
    let (evs, works) = drive(&mut run, ok_fs, |n| n == 5);
    assert!(works.contains(&Work::Exists(Place::AppFolder)));
    assert!(evs.iter().any(|e| matches!(e, InstallEvent::Log { level: LogLevel::Warning, .. })));
    match evs.last().unwrap() {
        InstallEvent::Finished { success: false, message } => {
            assert_eq!(message, "설치가 취소되었습니다.\n원본 파일이 복원되었습니다.")
        }
        _ => panic!("finished expected"),
    }
}

#[test]
fn no_patch_dirs_still_repacks() {
    let mut run = InstallRun::new(false);
    let answer = |w: Work| match w {
        Work::ListPatchDirs => Outcome::Patches(vec![false; 8]),
        other => ok_fs(other),
    };
    let (evs, _) = drive(&mut run, answer, |_| false);
    assert_eq!(progress(&evs), vec![5, 15, 20, 40, 90, 100]);
}

#[test]
fn cancel_probe_and_dirs() {
    assert_eq!(check_cancel(&|| true), Err(s("cancelled")));
    assert_eq!(check_cancel(&|| false), Ok(()));
    assert_eq!(patch_dir(0), "data/scenario");
    assert_eq!(patch_dir(7), "tyrano");
}

#[test]
fn native_libraries_stay_unpacked() {
    assert_eq!(unpack_patterns(), vec!["*.node", "*.dll", "*.so", "*.dylib"]);
}
