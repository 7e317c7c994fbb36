use metacat::graph::{
    builtin_nat_theory_id, syntax_dependency_graph, topological_order, transitive_dependency_subset, GraphError,
    SyntaxDependencyGraph, TheoryId,
};
use metacat::raw::RawTheorySet;

fn position(order: &[TheoryId], name: &str) -> usize {
    order.iter().position(|id| id.0 == name).unwrap()
}

#[test]
fn graph_orders_dependencies() {
    let raw = RawTheorySet::from_text(
        r#"
        (theory fol.syntax nat {
          (arr wff : 1 -> 1)
        })

        (theory fol.proof fol.syntax {
          (arr wi : {wff wff} -> wff)
        })
        "#,
    )
    .unwrap();
    let graph = syntax_dependency_graph(&raw).unwrap();
    let order = topological_order(&graph).unwrap();
    let nat = builtin_nat_theory_id();
    let nat_idx = position(&order, &nat.0);
    let syntax_idx = position(&order, "fol.syntax");
    let proof_idx = position(&order, "fol.proof");
    assert!(nat_idx < syntax_idx);
    assert!(syntax_idx < proof_idx);
}

#[test]
fn subset_includes_transitive_dependencies_and_extensions() {
    let raw = RawTheorySet::from_text(
        r#"
        (theory fol.syntax nat {
          (arr wff : 1 -> 1)
        })

        (theory fol.proof fol.syntax {
          (arr wi : {wff wff} -> wff)
        })

        (theory unrelated nat {
          (arr q : 1 -> 1)
        })

        (def fol.proof win : {wff wff} -> wff = wi)
        (def unrelated box : 1 -> 1 = q)
        "#,
    )
    .unwrap();
    let subset = transitive_dependency_subset(&vec!["fol.proof".to_string()], &raw).unwrap();
    assert!(subset.theory("fol.syntax").is_some());
    assert!(subset.theory("fol.proof").is_some());
    assert!(subset.theory("unrelated").is_none());
    assert_eq!(subset.extensions.len(), 1);
    assert_eq!(subset.extensions[0].theory, "fol.proof");
}

#[test]
fn nat_is_its_own_syntax_category() {
    let raw = RawTheorySet::from_text("(theory a nat {})").unwrap();
    let graph = syntax_dependency_graph(&raw).unwrap();
    assert_eq!(graph.edges.len(), 2);
    assert!(graph.edges.iter().any(|(t, b)| t == "nat" && b == "nat"));
    assert!(graph.edges.iter().any(|(t, b)| t == "a" && b == "nat"));
}

#[test]
fn unknown_syntax_category_names_the_first_theory() {
    let raw = RawTheorySet::from_text("(theory z missing {}) (theory b gone {}) (theory c nat {})").unwrap();
    match syntax_dependency_graph(&raw) {
        Err(GraphError::UnknownSyntaxCategory { theory, base }) => {
            assert_eq!(theory.0, "b");
            assert_eq!(base, "gone");
        }
        other => panic!("unexpected result {:?}", other),
    }
    assert!(matches!(
        transitive_dependency_subset(&vec!["c".to_string()], &raw),
        Err(GraphError::UnknownSyntaxCategory { .. })
    ));
}

#[test]
fn cycles_are_rejected() {
    let graph = SyntaxDependencyGraph {
        edges: vec![
            ("a".to_string(), "b".to_string()),
            ("b".to_string(), "a".to_string()),
            ("nat".to_string(), "nat".to_string()),
        ],
    };
    match topological_order(&graph) {
        Err(GraphError::SyntaxCycle(t)) => assert!(t.0 == "a" || t.0 == "b"),
        other => panic!("unexpected result {:?}", other),
    }
    let raw = RawTheorySet::from_text("(theory a b {}) (theory b a {})").unwrap();
    let graph = syntax_dependency_graph(&raw).unwrap();
    assert!(matches!(topological_order(&graph), Err(GraphError::SyntaxCycle(_))));
}

#[test]
fn order_lists_every_theory_once() {
    let raw = RawTheorySet::from_text("(theory c b {}) (theory b a {}) (theory a nat {}) (theory d nat {})").unwrap();
    let graph = syntax_dependency_graph(&raw).unwrap();
    let order = topological_order(&graph).unwrap();
    assert_eq!(order.len(), 5);
    assert!(position(&order, "nat") < position(&order, "a"));
    assert!(position(&order, "a") < position(&order, "b"));
    assert!(position(&order, "b") < position(&order, "c"));
    assert!(position(&order, "nat") < position(&order, "d"));
}

#[test]
fn subset_rejects_unknown_roots_and_skips_nat() {
    let raw = RawTheorySet::from_text("(theory a nat {})").unwrap();
    match transitive_dependency_subset(&vec!["nat".to_string(), "zzz".to_string()], &raw) {
        Err(GraphError::UnknownTheory(name)) => assert_eq!(name, "zzz"),
        other => panic!("unexpected result {:?}", other),
    }
    let subset = transitive_dependency_subset(&vec!["nat".to_string()], &raw).unwrap();
    assert!(subset.theories.is_empty());
}

#[test]
fn builtin_nat_id_is_nat() {
    assert_eq!(builtin_nat_theory_id().0, "nat");
    assert_eq!(TheoryId::new("x".to_string()).0, "x");
}

#[test]
fn a_theory_over_itself_is_a_cycle() {
    let raw = RawTheorySet::from_text("(theory a a { (arr f : 1 -> 1) })").unwrap();
    match syntax_dependency_graph(&raw) {
        Err(GraphError::SyntaxCycle(t)) => assert_eq!(t.0, "a"),
        _ => panic!("expected a cycle"),
    }
}
