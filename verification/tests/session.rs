use devil_connection_patcher::session::AppState;
use std::sync::atomic::Ordering;

#[test]
fn one_install_at_a_time() {
    let mut st = AppState::new();
    assert_eq!(
        st.start_install(false, false).err().unwrap(),
        "올바른 Devil Connection 게임 폴더를 찾을 수 없습니다."
    );
    assert_eq!(
        st.start_install(true, true).err().unwrap(),
        "게임이 현재 실행 중입니다.\n게임을 완전히 종료한 뒤 다시 시도해주세요."
    );
    let flag = st.start_install(true, false).unwrap();
    assert!(st.hold_close());
    assert_eq!(st.start_install(true, false).err().unwrap(), "이미 설치가 진행 중입니다.");
    st.cancel_install(Some(true));
    assert!(flag.load(Ordering::SeqCst));
    assert!(st.finish_install());
    assert!(!st.hold_close());
    assert!(st.start_install(true, false).is_ok());
    st.cancel_install(None);
    assert!(!st.finish_install());
}
