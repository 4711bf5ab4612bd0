use devil_connection_patcher::install::{Level, Message};
use devil_connection_patcher::ui::{title, Choice, Dialog, PatcherApp};

fn s(x: &str) -> String {
    x.to_string()
}

fn texts(app: &PatcherApp) -> Vec<String> {
    app.log().iter().map(|l| l.text.clone()).collect()
}

#[test]
fn new_window_greets() {
    let app = PatcherApp::new();
    let t = texts(&app);
    assert_eq!(t.len(), 3);
    assert_eq!(t[1], "");
    assert_eq!(t[2], "'자동 감지' 버튼을 클릭하거나 게임 경로를 직접 선택해주세요.");
    assert_eq!(app.log()[0].level, Level::Success);
    assert_eq!(title(), "でびるコネクショん 한글패치");
}

#[test]
fn choosing_a_folder() {
    let mut app = PatcherApp::new();
    let yes = |_: &Vec<String>| true;
    app.set_path(&vec![s("/g")], s("/g"), &yes);
    assert_eq!(app.path_input(), "/g");
    assert_eq!(app.path_valid(), Some(true));
    assert_eq!(texts(&app).last().unwrap(), "게임 경로 선택: /g");
    let no = |_: &Vec<String>| false;
    app.set_path(&vec![s("/h")], s("/h"), &no);
    assert_eq!(app.path_valid(), Some(false));
    assert_eq!(app.log().last().unwrap().level, Level::Warning);
}

#[test]
fn starting_an_install() {
    let mut app = PatcherApp::new();
    let yes = |_: &Vec<String>| true;
    assert!(app.start_install(&yes).is_none());
    assert!(matches!(app.take_dialog(), Some(Dialog::Error { title, .. }) if title == "경로 없음"));
    app.set_path_input(s("  /g  "));
    let no = |_: &Vec<String>| false;
    assert!(app.start_install(&no).is_none());
    assert_eq!(app.path_valid(), Some(false));
    assert!(matches!(app.take_dialog(), Some(Dialog::Error { title, .. }) if title == "잘못된 게임 경로"));
    let asked = std::cell::RefCell::new(Vec::new());
    let probe = |q: &Vec<String>| {
        asked.borrow_mut().push(q.clone());
        true
    };
    let (path, flag) = app.start_install(&probe).unwrap();
    assert_eq!(path, "/g");
    assert_eq!(asked.borrow()[0], vec![s("/g"), s("resources"), s("app.asar")]);
    assert!(app.installing());
    assert_eq!(app.progress(), 0);
    app.cancel_install();
    assert!(flag.load(std::sync::atomic::Ordering::Relaxed));
}

#[test]
fn messages_drive_the_window() {
    let mut app = PatcherApp::new();
    app.set_path_input(s("/g"));
    let yes = |_: &Vec<String>| true;
    app.start_install(&yes).unwrap();
    let keep = app.pump_messages(
        vec![
            Message::Log { text: s("a"), level: Level::Info },
            Message::Progress(40),
            Message::Progress(55),
        ],
        None,
        &yes,
    );
    assert!(keep);
    assert_eq!(app.progress(), 55);
    assert_eq!(texts(&app).last().unwrap(), "a");
    let keep = app.pump_messages(
        vec![Message::Finished { success: true, message: s("done") }],
        None,
        &yes,
    );
    assert!(!keep);
    assert!(!app.installing());
    assert_eq!(app.path_valid(), None);
    assert!(matches!(app.take_dialog(), Some(Dialog::Info { title, body }) if title == "설치 완료" && body == "done"));
}

#[test]
fn detection_results() {
    let mut app = PatcherApp::new();
    app.start_auto_detect();
    assert!(app.detecting());
    let yes = |_: &Vec<String>| true;
    app.pump_messages(vec![], Some(Some((vec![s("/g")], s("/g")))), &yes);
    assert!(!app.detecting());
    assert_eq!(texts(&app).last().unwrap(), "게임을 찾았습니다!");
    app.start_auto_detect();
    app.pump_messages(vec![], Some(None), &yes);
    assert_eq!(app.path_valid(), None);
    assert!(matches!(app.take_dialog(), Some(Dialog::Error { title, .. }) if title == "경로 감지 실패"));
}

#[test]
fn closing_during_install() {
    let mut app = PatcherApp::new();
    assert!(!app.guard_close(true));
    app.set_path_input(s("/g"));
    let yes = |_: &Vec<String>| true;
    let (_, flag) = app.start_install(&yes).unwrap();
    assert!(!app.guard_close(false));
    assert!(app.guard_close(true));
    let d = app.take_dialog().unwrap();
    assert!(matches!(d, Dialog::ConfirmQuit));
    assert!(!app.close_dialog(d, None));
    let d = app.take_dialog().unwrap();
    assert!(app.close_dialog(d, Some(Choice::ForceQuit)));
    assert!(flag.load(std::sync::atomic::Ordering::Relaxed));
    assert!(app.take_dialog().is_none());
}
