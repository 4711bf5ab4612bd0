use devil_connection_patcher::asar::glob::glob_match;

#[test]
fn glob_basic() {
    assert!(glob_match("*.node", "steamworks.node"));
    assert!(glob_match("*.node", "a.node"));
    assert!(!glob_match("*.node", "foo.txt"));
    assert!(glob_match("*", "anything"));
    assert!(glob_match("a*b", "aXb"));
    assert!(glob_match("a*b", "aXXXb"));
    assert!(!glob_match("a*b", "aXc"));
    assert!(glob_match("foo.node", "foo.node"));
}

#[test]
fn glob_question_mark_matches_one_byte() {
    assert!(glob_match("a?c", "abc"));
    assert!(!glob_match("a?c", "ac"));
    assert!(!glob_match("a?c", "abbc"));
}

#[test]
fn glob_empty_pattern_and_text() {
    assert!(glob_match("", ""));
    assert!(!glob_match("", "a"));
    assert!(glob_match("*", ""));
    assert!(glob_match("**", ""));
    assert!(!glob_match("a", ""));
}

#[test]
fn glob_star_backtracks() {
    assert!(glob_match("*.so", "lib.so.so"));
    assert!(glob_match("*a*b*", "xxaxxbxx"));
    assert!(!glob_match("*a*b", "xxaxxbxx"));
    assert!(glob_match("*.dylib", "libfoo.dylib"));
    assert!(!glob_match("*.dll", "foo.DLL"));
}
