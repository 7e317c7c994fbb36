use metacat::deps::{collect_arrow_dependencies, needed_subset, operations_in, should_skip_builtin_nat_operation, with_extensions_lossy};
use metacat::expr::parse_hexprs;
use metacat::raw::RawTheorySet;

#[test]
fn operations_are_listed_left_to_right() {
    let h = parse_hexprs("({wff wff} -> [x . x] (-. wff))").unwrap().remove(0);
    assert_eq!(operations_in(&h), vec!["wff", "wff", "->", "-.", "wff"]);
}

#[test]
fn builtin_nat_operations_are_skipped() {
    assert!(should_skip_builtin_nat_operation("fol.syntax", "1"));
    assert!(should_skip_builtin_nat_operation("nat", "2"));
    assert!(!should_skip_builtin_nat_operation("fol.syntax", "2"));
    assert!(!should_skip_builtin_nat_operation("nat", "wff"));
}

#[test]
fn extensions_are_folded_into_their_theories() {
    let raw = RawTheorySet::from_text(
        "(theory t nat { (arr a : 1 -> 1) }) (def t a : 2 -> 2 = x) (def t b : 1 -> 1 = a) (def missing c : 1 -> 1 = a)",
    )
    .unwrap();
    let folded = with_extensions_lossy(raw);
    assert!(folded.extensions.is_empty());
    let t = folded.theory("t").unwrap();
    assert_eq!(t.arrows.len(), 2);
    assert!(t.arrow("a").unwrap().definition.is_none());
    assert!(t.arrow("b").unwrap().definition.is_some());
    assert!(folded.theory("missing").is_none());
}

#[test]
fn dependencies_follow_type_maps_into_syntax_categories() {
    let raw = RawTheorySet::from_text(
        r#"(theory fol.syntax nat { (arr wff : 1 -> 1) (arr -> : 2 -> 1) (arr |- : 1 -> 1) (arr unused : 1 -> 1) })
           (theory fol.proof fol.syntax { (arr ax : {wff wff} -> ([ph ps . ph ps] -> |-)) })"#,
    )
    .unwrap();
    let mut needed = collect_arrow_dependencies(&raw, "fol.proof", "ax").unwrap();
    needed.sort();
    let expected: Vec<(String, String)> = vec![
        ("fol.proof".into(), "ax".into()),
        ("fol.syntax".into(), "->".into()),
        ("fol.syntax".into(), "wff".into()),
        ("fol.syntax".into(), "|-".into()),
    ];
    assert_eq!(needed, expected);
    let raw = RawTheorySet::from_text(
        "(theory s nat { (arr wff : 1 -> 1) }) (theory p s { (arr bad : missing -> wff) })",
    )
    .unwrap();
    assert!(collect_arrow_dependencies(&raw, "p", "bad").is_none());
    assert!(collect_arrow_dependencies(&raw, "p", "nothing").is_none());
    let needed = collect_arrow_dependencies(&raw, "s", "wff").unwrap();
    assert_eq!(needed, vec![("s".to_string(), "wff".to_string())]);
}

#[test]
fn needed_subset_keeps_only_needed_arrows_without_definitions() {
    let raw = RawTheorySet::from_text(
        r#"(theory fol.syntax nat { (arr wff : 1 -> 1) (arr -> : 2 -> 1) (arr |- : 1 -> 1) (arr unused : 1 -> 1) })
           (theory fol.proof fol.syntax { (arr ax : {wff wff} -> ([ph ps . ph ps] -> |-)) (arr other : wff -> |-) })
           (def fol.proof ax2 : wff -> |- = ax)"#,
    )
    .unwrap();
    let sub = needed_subset(&raw, "fol.proof", "ax").unwrap();
    assert!(sub.extensions.is_empty());
    assert_eq!(sub.theories.len(), 2);
    let syntax = sub.theory("fol.syntax").unwrap();
    assert_eq!(syntax.arrows.len(), 3);
    assert!(syntax.arrow("unused").is_none());
    assert!(syntax.arrow("wff").unwrap().definition.is_none());
    let proof = sub.theory("fol.proof").unwrap();
    assert_eq!(proof.arrows.len(), 1);
    assert!(proof.arrow("other").is_none());
    assert!(needed_subset(&raw, "fol.proof", "missing").is_none());
}
