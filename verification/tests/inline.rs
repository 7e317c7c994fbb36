use metacat::inline::{inline_step, InlineStep};

fn names(v: &[&str]) -> Vec<String> {
    v.iter().map(|s| s.to_string()).collect()
}

#[test]
fn a_term_without_definitions_is_done() {
    assert!(matches!(inline_step(0, &names(&["d"]), &names(&["a", "b"])), InlineStep::Done));
    assert!(matches!(inline_step(0, &names(&[]), &names(&[])), InlineStep::Done));
}

#[test]
fn definition_edges_are_marked_for_inlining() {
    match inline_step(1, &names(&["d", "e"]), &names(&["a", "d", "b", "e"])) {
        InlineStep::Inline(flags) => assert_eq!(flags, vec![false, true, false, true]),
        other => panic!("unexpected step {:?}", other),
    }
}

#[test]
fn inlining_gives_up_after_one_round_per_definition_and_one_more() {
    let keys = names(&["d"]);
    let edges = names(&["d", "a", "d"]);
    assert!(matches!(inline_step(1, &keys, &edges), InlineStep::Inline(_)));
    match inline_step(2, &keys, &edges) {
        InlineStep::Recursive(left) => assert_eq!(left, "d, d"),
        other => panic!("unexpected step {:?}", other),
    }
    assert!(matches!(inline_step(2, &keys, &names(&["a"])), InlineStep::Recursive(ref left) if left.is_empty()));
}
