use metacat::tree::Label;
use metacat::dual::{dual, into_fwd, into_rev, Dual, DualSig};
use metacat::hypergraph::{Hyperedge, Hypergraph, OpenHypergraph};
use metacat::lang::{Arr, Obj};

fn sample() -> OpenHypergraph<(), &'static str> {
    OpenHypergraph {
        sources: vec![0, 1],
        targets: vec![2],
        hypergraph: Hypergraph {
            nodes: vec![(), (), ()],
            edges: vec!["f"],
            adjacency: vec![Hyperedge { sources: vec![0, 1], targets: vec![2] }],
            quotient: (vec![0], vec![1]),
        },
    }
}

#[test]
fn forward_use_keeps_the_picture() {
    let f = into_fwd(sample());
    assert_eq!(f.sources, vec![0, 1]);
    assert_eq!(f.targets, vec![2]);
    assert_eq!(f.hypergraph.edges, vec![Dual::Fwd("f")]);
}

#[test]
fn dual_swaps_interfaces_ports_and_directions() {
    let d = into_rev(sample());
    assert_eq!(d.sources, vec![2]);
    assert_eq!(d.targets, vec![0, 1]);
    assert_eq!(d.hypergraph.edges, vec![Dual::Rev("f")]);
    assert_eq!(d.hypergraph.adjacency[0].sources, vec![2]);
    assert_eq!(d.hypergraph.adjacency[0].targets, vec![0, 1]);
    assert_eq!(d.hypergraph.quotient, (vec![0], vec![1]));
}

#[test]
fn dual_twice_is_the_identity() {
    let once = into_fwd(sample());
    let twice = dual(dual(into_fwd(sample())));
    assert_eq!(once.sources, twice.sources);
    assert_eq!(once.targets, twice.targets);
    assert_eq!(once.hypergraph.edges, twice.hypergraph.edges);
    assert_eq!(once.hypergraph.adjacency[0].sources, twice.hypergraph.adjacency[0].sources);
    assert_eq!(once.hypergraph.adjacency[0].targets, twice.hypergraph.adjacency[0].targets);
}

#[test]
fn reversed_profiles_swap() {
    assert_eq!(DualSig::<()>::dual_profile(&Dual::Fwd("f"), (2, 1)), (2, 1));
    assert_eq!(DualSig::<()>::dual_profile(&Dual::Rev("f"), (2, 1)), (1, 2));
}

#[test]
fn arrow_duals_swap_copy_and_equal() {
    assert_eq!(Arr::<u8>::Copy.dual(), Arr::Equal);
    assert_eq!(Arr::<u8>::Equal.dual(), Arr::Copy);
    assert_eq!(Arr::Fwd(3u8).dual(), Arr::Rev(3));
    assert_eq!(Arr::Rev(3u8).dual().dual(), Arr::Rev(3));
    let _ = Obj;
}

#[test]
fn arrows_and_directions_have_texts() {
    assert_eq!(Arr::<String>::Copy.label(), "Δ");
    assert_eq!(Arr::<String>::Equal.label(), "=");
    assert_eq!(Arr::Fwd("f".to_string()).label(), "f");
    assert_eq!(Arr::Rev("f".to_string()).label(), "f*");
    assert_eq!(Dual::Fwd("g".to_string()).label(), "fwd(g)");
    assert_eq!(Dual::Rev(Dual::Fwd("g".to_string())).label(), "rev(fwd(g))");
}
