use metacat::project::{glob_matches, ProjectContext};

#[test]
fn glob_supports_recursive_hex_patterns() {
    assert!(glob_matches("stdlib/**/*.hex", "stdlib/type/core.hex"));
    assert!(glob_matches("*.hex", "fol.hex"));
    assert!(!glob_matches("*.hex", "nested/fol.hex"));
}

#[test]
fn glob_question_mark_matches_one_character() {
    assert!(glob_matches("a?c.hex", "abc.hex"));
    assert!(!glob_matches("a?c.hex", "ac.hex"));
    assert!(!glob_matches("a?c.hex", "abbc.hex"));
}

#[test]
fn glob_literal_pattern_matches_only_itself() {
    assert!(glob_matches("stdlib/base.hex", "stdlib/base.hex"));
    assert!(!glob_matches("stdlib/base.hex", "stdlib/base.hexx"));
    assert!(!glob_matches("stdlib/base.hex", "base.hex"));
}

#[test]
fn glob_double_star_matches_zero_or_more_segments() {
    assert!(glob_matches("**/x.hex", "x.hex"));
    assert!(glob_matches("**/x.hex", "a/b/c/x.hex"));
    assert!(glob_matches("**", ""));
    assert!(!glob_matches("a/**", "b/x"));
}

#[test]
fn standalone_project_holds_one_text() {
    let context = ProjectContext::standalone("(theory base nat {})".to_string());
    assert_eq!(context.texts, vec!["(theory base nat {})".to_string()]);
}
