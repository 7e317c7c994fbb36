use metacat::analysis::{format_wire_list, is_pretty_token_end, is_pretty_token_start, replace_source_leaves, replace_tokens};

#[test]
fn wire_lists() {
    assert_eq!(format_wire_list(&vec![]), "1");
    assert_eq!(format_wire_list(&vec!["wff".to_string()]), "wff");
    assert_eq!(format_wire_list(&vec!["a".to_string(), "b(x0)".to_string()]), "{a, b(x0)}");
}

#[test]
fn source_leaves_become_metavariables() {
    assert_eq!(
        replace_source_leaves("{x3, f(x0, x10), x1y, ax0, x}", &vec![0, 3]),
        "{m1, f(m0, x10), x1y, ax0, x}"
    );
}

#[test]
fn replacements_apply_to_whole_tokens_and_the_last_wins() {
    let repl = vec![("x1".to_string(), "a".to_string()), ("m2".to_string(), "b".to_string()), ("x1".to_string(), "c".to_string())];
    assert_eq!(replace_tokens("x1 + m2 + x12 + _x1 + x1-", &repl), "c + b + x12 + _x1 + x1-");
    assert_eq!(replace_tokens("∀x1.x1", &repl), "∀c.c");
}

#[test]
fn token_boundaries() {
    assert!(is_pretty_token_start("ab", 0));
    assert!(!is_pretty_token_start("ab", 1));
    assert!(is_pretty_token_end("ab", 2));
    assert!(!is_pretty_token_end("a-b", 1));
    assert!(is_pretty_token_end("a(b", 1));
}
