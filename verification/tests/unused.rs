use metacat::deps::with_extensions_lossy;
use metacat::raw::RawTheorySet;
use metacat::syntax::position_at_offset;
use metacat::unused::{unused_arrow_diagnostics, used_arrows};

const PROJECT: &str = r#"(theory syntax nat {
  (arr wff : 1 -> 1)
  (arr unused-syntax : 1 -> 1)
})

(theory proof syntax {
  (arr used : wff -> wff)
  (arr unused : wff -> wff)
  (def theorem : wff -> wff = (used))
})"#;

fn project_uses(text: &str) -> Vec<(String, String)> {
    used_arrows(&with_extensions_lossy(RawTheorySet::from_text(text).unwrap()))
}

#[test]
fn used_pairs_follow_syntax_for_type_maps_and_theory_for_definitions() {
    let mut used = project_uses(PROJECT);
    used.sort();
    used.dedup();
    let expected: Vec<(String, String)> = vec![
        ("nat".into(), "1".into()),
        ("proof".into(), "used".into()),
        ("syntax".into(), "wff".into()),
    ];
    assert_eq!(used, expected);
}

#[test]
fn unused_arrow_hints_name_each_unused_arrow() {
    let used = project_uses(PROJECT);
    let hints = unused_arrow_diagnostics(PROJECT, &used);
    let arrows: Vec<&str> = hints.iter().map(|h| h.arrow.as_str()).collect();
    assert_eq!(arrows, vec!["theorem", "unused", "unused-syntax"]);
    let messages: Vec<String> = hints.iter().map(|h| h.message()).collect();
    assert_eq!(messages[1], "Arrow 'unused' is not used in the loaded metacat project");
    assert!(!messages.iter().any(|m| m.contains("'wff'")));
    assert!(!messages.iter().any(|m| m.contains("'used'")));
    let start = PROJECT.find("theorem").unwrap();
    assert_eq!(hints[0].range.start, position_at_offset(PROJECT, start));
    assert_eq!(hints[0].range.end, position_at_offset(PROJECT, start + "theorem".len()));
}

#[test]
fn top_level_definitions_are_marked_at_their_name() {
    let text = "(theory t nat { (arr a : 1 -> 1) }) (def t b : 1 -> 1 = (a))";
    let used = project_uses(text);
    let hints = unused_arrow_diagnostics(text, &used);
    assert_eq!(hints.len(), 1);
    assert_eq!(hints[0].arrow, "b");
    let start = text.find("b :").unwrap();
    assert_eq!(hints[0].range.start, position_at_offset(text, start));
}

#[test]
fn unreadable_text_has_no_hints() {
    assert!(unused_arrow_diagnostics("(theory", &Vec::new()).is_empty());
    assert!(unused_arrow_diagnostics("(arr x : 1 -> 1)", &Vec::new()).is_empty());
}
