use metacat::hypergraph::{Hyperedge, Hypergraph, OpenHypergraph};
use metacat::spiders::{extract_spiders, extract_spiders_with_node_map, WithSpiders};
use hexpr::{parse_hexprs, try_interpret, Hexpr, Operation, Signature};

fn one_edge(quotient: (Vec<usize>, Vec<usize>)) -> OpenHypergraph<(), &'static str> {
    OpenHypergraph {
        sources: vec![0],
        targets: vec![1],
        hypergraph: Hypergraph {
            nodes: vec![(), ()],
            edges: vec!["f"],
            adjacency: vec![Hyperedge { sources: vec![0], targets: vec![1] }],
            quotient,
        },
    }
}

#[test]
fn every_port_gets_its_own_node_and_each_component_a_spider() {
    let g = extract_spiders(&one_edge((vec![], vec![]))).unwrap();
    assert_eq!(g.hypergraph.nodes.len(), 4);
    assert_eq!(g.sources, vec![0]);
    assert_eq!(g.targets, vec![3]);
    assert_eq!(g.hypergraph.edges.len(), 3);
    assert!(matches!(g.hypergraph.edges[0], WithSpiders::Operation("f")));
    assert!(matches!(g.hypergraph.edges[1], WithSpiders::Spider(())));
    assert!(matches!(g.hypergraph.edges[2], WithSpiders::Spider(())));
    assert_eq!(g.hypergraph.adjacency[0].sources, vec![1]);
    assert_eq!(g.hypergraph.adjacency[0].targets, vec![2]);
    assert!(g.hypergraph.quotient.0.is_empty() && g.hypergraph.quotient.1.is_empty());
    let mut spiders: Vec<(Vec<usize>, Vec<usize>)> = g.hypergraph.adjacency[1..]
        .iter()
        .map(|h| (h.sources.clone(), h.targets.clone()))
        .collect();
    spiders.sort();
    assert_eq!(spiders, vec![(vec![0], vec![1]), (vec![2], vec![3])]);
}

#[test]
fn identified_nodes_share_one_spider() {
    let x = extract_spiders_with_node_map(&one_edge((vec![0], vec![1]))).unwrap();
    let g = &x.graph;
    assert_eq!(g.hypergraph.edges.len(), 2);
    assert_eq!(g.hypergraph.adjacency[1].sources, vec![0, 2]);
    assert_eq!(g.hypergraph.adjacency[1].targets, vec![1, 3]);
    assert_eq!(x.node_map, vec![Some(1), Some(1)]);
}

/// Every operation of these bodies takes one wire to one wire; objects are
/// left untyped.
struct OneToOne;

impl Signature for OneToOne {
    type Arr = String;
    type Obj = ();
    type Error = String;

    fn try_parse_op(&self, op: &Operation) -> Result<String, String> {
        Ok(op.as_str().to_string())
    }

    fn try_parse_object(&self, _object: &Hexpr) -> Result<(), String> {
        Ok(())
    }

    fn profile(&self, _op: &String) -> (Vec<Option<()>>, Vec<Option<()>>) {
        (vec![None], vec![None])
    }
}

fn interpreted(text: &str) -> OpenHypergraph<(), String> {
    let hexprs = parse_hexprs(text).unwrap();
    assert_eq!(hexprs.len(), 1);
    let g = try_interpret(&OneToOne, &hexprs[0]).unwrap();
    OpenHypergraph {
        sources: g.sources.iter().map(|n| n.0).collect(),
        targets: g.targets.iter().map(|n| n.0).collect(),
        hypergraph: Hypergraph {
            nodes: g.hypergraph.nodes.iter().map(|_| ()).collect(),
            edges: g.hypergraph.edges.clone(),
            adjacency: g
                .hypergraph
                .adjacency
                .iter()
                .map(|h| Hyperedge {
                    sources: h.sources.iter().map(|n| n.0).collect(),
                    targets: h.targets.iter().map(|n| n.0).collect(),
                })
                .collect(),
            quotient: (
                g.hypergraph.quotient.0.iter().map(|n| n.0).collect(),
                g.hypergraph.quotient.1.iter().map(|n| n.0).collect(),
            ),
        },
    }
}

fn spider_profiles<A>(f: &OpenHypergraph<(), WithSpiders<(), A>>) -> Vec<(usize, usize)> {
    f.hypergraph
        .edges
        .iter()
        .zip(&f.hypergraph.adjacency)
        .filter_map(|(edge, adjacency)| match edge {
            WithSpiders::Spider(_) => Some((adjacency.sources.len(), adjacency.targets.len())),
            WithSpiders::Operation(_) => None,
        })
        .collect()
}

fn operation_count<A>(f: &OpenHypergraph<(), WithSpiders<(), A>>) -> usize {
    f.hypergraph.edges.iter().filter(|edge| matches!(edge, WithSpiders::Operation(_))).count()
}

#[test]
fn extracts_copy_spider_from_frobenius_hexpr() {
    let map = interpreted("[x . x x]");
    let extracted = extract_spiders(&map).unwrap();
    assert_eq!(spider_profiles(&extracted), vec![(1, 2)]);
    assert!(extracted.hypergraph.quotient.0.is_empty());
    assert!(extracted.hypergraph.quotient.1.is_empty());
}

#[test]
fn extracts_merge_spider_from_frobenius_hexpr() {
    let map = interpreted("[a a . a]");
    let extracted = extract_spiders(&map).unwrap();
    assert_eq!(spider_profiles(&extracted), vec![(2, 1)]);
}

#[test]
fn extracts_spiders_from_composition_quotient() {
    let body = interpreted("({f f} {g g})");
    assert!(!body.hypergraph.quotient.0.is_empty());
    let extracted = extract_spiders(&body).unwrap();
    assert_eq!(extracted.sources.len(), 2);
    assert_eq!(extracted.targets.len(), 2);
    assert_eq!(operation_count(&extracted), 4);
    assert_eq!(spider_profiles(&extracted), vec![(1, 1), (1, 1), (1, 1), (1, 1), (1, 1), (1, 1)]);
    assert!(extracted.hypergraph.quotient.0.is_empty());
    assert!(extracted.hypergraph.quotient.1.is_empty());
}

#[test]
fn extracts_two_by_two_spider_between_tensor_layers() {
    let body = interpreted("({f f} [x x . x x] {g g})");
    let extracted = extract_spiders(&body).unwrap();
    assert_eq!(extracted.sources.len(), 2);
    assert_eq!(extracted.targets.len(), 2);
    assert_eq!(operation_count(&extracted), 4);
    assert!(spider_profiles(&extracted).contains(&(2, 2)));
    assert!(extracted.hypergraph.quotient.0.is_empty());
    assert!(extracted.hypergraph.quotient.1.is_empty());
}

#[test]
fn an_isolated_node_gets_a_spider_without_ports() {
    let g: OpenHypergraph<(), &str> = OpenHypergraph {
        sources: vec![],
        targets: vec![],
        hypergraph: Hypergraph { nodes: vec![()], edges: vec![], adjacency: vec![], quotient: (vec![], vec![]) },
    };
    let x = extract_spiders_with_node_map(&g).unwrap();
    assert_eq!(x.graph.hypergraph.edges.len(), 1);
    assert!(matches!(x.graph.hypergraph.edges[0], WithSpiders::Spider(())));
    assert!(x.graph.hypergraph.adjacency[0].sources.is_empty());
    assert!(x.graph.hypergraph.adjacency[0].targets.is_empty());
    assert_eq!(x.node_map, vec![None]);
}
