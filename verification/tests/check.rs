use metacat::check::{eval_type, flatten_spiders, merge, project_partial_result, witness_indices, EvalError, PartialResult, SsaStep};
use metacat::dual::Dual;
use metacat::spiders::WithSpiders;
use metacat::tree::Tree;

#[test]
fn projects_partial_results_to_input_term_nodes() {
    let partial = PartialResult {
        partial_result: vec![
            Some(Tree::<(), String>::Leaf(0, ())),
            None,
            Some(Tree::<(), String>::Leaf(2, ())),
            Some(Tree::<(), String>::Leaf(3, ())),
        ],
        cause: EvalError::MergeError("lhs".into(), "rhs".into()),
    };
    let projected = project_partial_result(partial, &vec![3, 1]);
    assert_eq!(projected.partial_result, vec![Some(Tree::<(), String>::Leaf(3, ())), None]);
}

fn fwd(name: &str, edge_id: usize, sources: Vec<usize>, targets: Vec<usize>) -> SsaStep {
    SsaStep { op: WithSpiders::Operation(Dual::Fwd(name.to_string())), edge_id, sources, targets }
}

#[test]
fn forward_operations_build_terms() {
    let steps = vec![fwd("f", 0, vec![0], vec![1])];
    let values = eval_type(&steps, 2).unwrap();
    assert_eq!(values[0], Tree::Leaf(0, ()));
    assert_eq!(values[1], Tree::Node("f".to_string(), 0, vec![Tree::Leaf(0, ())]));
}

#[test]
fn reversed_operations_recover_arguments() {
    let steps = vec![
        fwd("f", 0, vec![0], vec![1]),
        SsaStep { op: WithSpiders::Operation(Dual::Rev("f".to_string())), edge_id: 1, sources: vec![1], targets: vec![2] },
    ];
    let values = eval_type(&steps, 3).unwrap();
    assert_eq!(values[2], Tree::Leaf(0, ()));
}

#[test]
fn clashing_values_stop_evaluation() {
    let steps = vec![fwd("f", 0, vec![0], vec![2]), fwd("g", 1, vec![1], vec![2])];
    let err = eval_type(&steps, 3).unwrap_err();
    assert!(matches!(err.cause, EvalError::MergeError(_, _)));
    assert_eq!(err.partial_result.len(), 3);
    assert_eq!(err.partial_result[2], Some(Tree::Node("f".to_string(), 0, vec![Tree::Leaf(0, ())])));
}

#[test]
fn reversing_the_wrong_operation_is_a_match_error() {
    let steps = vec![
        fwd("f", 0, vec![0], vec![1]),
        SsaStep { op: WithSpiders::Operation(Dual::Rev("g".to_string())), edge_id: 1, sources: vec![1], targets: vec![2] },
    ];
    let err = eval_type(&steps, 3).unwrap_err();
    assert!(matches!(err.cause, EvalError::MatchError(1, _)));
}

#[test]
fn spiders_copy_their_input() {
    let steps = vec![SsaStep { op: WithSpiders::Spider(()), edge_id: 0, sources: vec![0], targets: vec![1, 2] }];
    let values = eval_type(&steps, 3).unwrap();
    assert_eq!(values[1], Tree::Leaf(0, ()));
    assert_eq!(values[2], Tree::Leaf(0, ()));
}

#[test]
fn merging_equal_values_succeeds() {
    let mut slot = None;
    assert!(merge(&mut slot, Tree::Leaf(1, ())).is_ok());
    assert!(merge(&mut slot, Tree::Leaf(1, ())).is_ok());
    assert!(matches!(merge(&mut slot, Tree::Leaf(2, ())), Err(EvalError::MergeError(_, _))));
    assert_eq!(slot, Some(Tree::Leaf(1, ())));
}

#[test]
fn nested_spiders_flatten_to_spiders() {
    let outer: WithSpiders<(), WithSpiders<(), Dual<&str>>> = WithSpiders::Spider(());
    assert!(matches!(flatten_spiders(outer), WithSpiders::Spider(())));
    let inner_spider: WithSpiders<(), WithSpiders<(), Dual<&str>>> = WithSpiders::Operation(WithSpiders::Spider(()));
    assert!(matches!(flatten_spiders(inner_spider), WithSpiders::Spider(())));
    let op: WithSpiders<(), WithSpiders<(), Dual<&str>>> = WithSpiders::Operation(WithSpiders::Operation(Dual::Rev("f")));
    assert!(matches!(flatten_spiders(op), WithSpiders::Operation(Dual::Rev("f"))));
}

#[test]
fn witnesses_pick_the_first_value_of_each_segment() {
    let node_map = vec![None, Some(7), Some(8), Some(9)];
    assert_eq!(witness_indices(&vec![2, 1], &vec![0, 2, 1], 1, &node_map), Some(vec![7, 8]));
    assert_eq!(witness_indices(&vec![1, 0], &vec![0], 1, &node_map), None);
    assert_eq!(witness_indices(&vec![1], &vec![0], 0, &node_map), None);
    assert_eq!(witness_indices(&vec![], &vec![], 0, &node_map), Some(vec![]));
}

#[test]
fn a_spider_rejects_two_different_inputs_with_their_debug_texts() {
    let steps = vec![SsaStep { op: WithSpiders::Spider(()), edge_id: 0, sources: vec![0, 1], targets: vec![2] }];
    let err = eval_type(&steps, 3).unwrap_err();
    assert_eq!(err.partial_result, vec![None, None, None]);
    match err.cause {
        EvalError::MergeError(a, b) => {
            assert_eq!(a, "Leaf(0, ())");
            assert_eq!(b, "Leaf(1, ())");
        }
        _ => panic!("expected a merge error"),
    }
}

#[test]
fn clashing_terms_are_named_by_their_debug_texts() {
    let mut slot = Some(Tree::Node("f".to_string(), 0, vec![Tree::Leaf(0, ()), Tree::Empty]));
    match merge(&mut slot, Tree::Leaf(2, ())) {
        Err(EvalError::MergeError(a, b)) => {
            assert_eq!(a, "Node(\"f\", 0, [Leaf(0, ()), Empty])");
            assert_eq!(b, "Leaf(2, ())");
        }
        _ => panic!("expected a merge error"),
    }
}

#[test]
fn evaluation_keeps_given_wire_values() {
    let steps = vec![fwd("f", 0, vec![0], vec![1])];
    let given = Tree::Node("g".to_string(), 0, vec![]);
    let state = vec![Some(Tree::Node("g".to_string(), 0, vec![])), None];
    let values = metacat::check::eval_type_with(&steps, state).unwrap();
    assert_eq!(values[0], given);
    assert_eq!(values[1], Tree::Node("f".to_string(), 0, vec![Tree::Node("g".to_string(), 0, vec![])]));
}
