//! Forward and reverse uses of operations, and the dual of an open
//! hypergraph: the same picture read from right to left.
use vstd::prelude::*;
use crate::hypergraph::{GraphView, Hyperedge, Hypergraph, OpenHypergraph, edge_view};
use crate::text::push_str;
use crate::tree::Label;

verus! {

/// An operation used forwards or in reverse.
#[derive(Debug, Clone, PartialEq, Eq, Hash)]
pub enum Dual<A> {
    Fwd(A),
    Rev(A),
}

/// The other direction.
pub open spec fn dual_label<A>(d: Dual<A>) -> Dual<A> {
    match d {
        Dual::Fwd(a) => Dual::Rev(a),
        Dual::Rev(a) => Dual::Fwd(a),
    }
}

impl<A> Dual<A> {
    fn dual(self) -> (r: Self)
        ensures
            r == dual_label(self),
    {
        match self {
            Dual::Fwd(a) => Dual::Rev(a),
            Dual::Rev(a) => Dual::Fwd(a),
        }
    }
}

/// The text of a direction: `fwd(x)` or `rev(x)`.
impl<A: Label> Label for Dual<A> {
    open spec fn label_spec(&self) -> Seq<char> {
        match self {
            Dual::Fwd(x) => "fwd("@ + x.label_spec() + ")"@,
            Dual::Rev(x) => "rev("@ + x.label_spec() + ")"@,
        }
    }

    fn label(&self) -> (s: String) {
        let mut s = String::new();
        match self {
            Dual::Fwd(x) => {
                push_str(&mut s, "fwd(");
                let t = x.label();
                push_str(&mut s, t.as_str());
                push_str(&mut s, ")");
            },
            Dual::Rev(x) => {
                push_str(&mut s, "rev(");
                let t = x.label();
                push_str(&mut s, t.as_str());
                push_str(&mut s, ")");
            },
        }
        assert(s@ =~= self.label_spec());
        s
    }
}

/// Every edge used forwards.
pub open spec fn fwd_view<O, A>(g: GraphView<O, A>) -> GraphView<O, Dual<A>> {
    GraphView {
        sources: g.sources,
        targets: g.targets,
        nodes: g.nodes,
        edges: g.edges.map_values(|a: A| Dual::Fwd(a)),
        adjacency: g.adjacency,
        quotient: g.quotient,
    }
}

/// The dual graph: interfaces swapped, each hyperedge's sources and targets
/// swapped, and each edge used in the other direction.
pub open spec fn dual_view<O, A>(g: GraphView<O, Dual<A>>) -> GraphView<O, Dual<A>> {
    GraphView {
        sources: g.targets,
        targets: g.sources,
        nodes: g.nodes,
        edges: g.edges.map_values(|d: Dual<A>| dual_label(d)),
        adjacency: g.adjacency.map_values(|p: (Seq<usize>, Seq<usize>)| (p.1, p.0)),
        quotient: g.quotient,
    }
}

/// The dual of the dual is the graph itself.
pub proof fn lemma_dual_involutive<O, A>(g: GraphView<O, Dual<A>>)
    ensures
        dual_view(dual_view(g)) == g,
{
    let d = dual_view(dual_view(g));
    assert(d.edges =~= g.edges) by {
        assert forall|i: int| 0 <= i < g.edges.len() implies d.edges[i] == g.edges[i] by {
            match g.edges[i] {
                Dual::Fwd(a) => {},
                Dual::Rev(a) => {},
            }
        }
    }
    assert(d.adjacency =~= g.adjacency);
}

/// Reversing a graph keeps its nodes and the number of its edges, and
/// exchanges its interfaces.
pub proof fn lemma_dual_swaps_interfaces<O, A>(g: GraphView<O, Dual<A>>)
    ensures
        dual_view(g).sources == g.targets,
        dual_view(g).targets == g.sources,
        dual_view(g).nodes == g.nodes,
        dual_view(g).edges.len() == g.edges.len(),
{
}

/// The labels of `v`, in order, each used forwards.
fn moved_labels<A>(v: Vec<A>) -> (r: Vec<Dual<A>>)
    ensures
        r@ == v@.map_values(|a: A| Dual::Fwd(a)),
{
    let mut v = v;
    let ghost orig = v@;
    let mut rev: Vec<A> = Vec::new();
    while v.len() > 0
        invariant
            orig == v@ + rev@.reverse(),
        decreases v.len(),
    {
        let a = v.pop().unwrap();
        proof {
            assert(rev@.push(a).reverse() =~= seq![a] + rev@.reverse());
        }
        rev.push(a);
    }
    let mut out: Vec<Dual<A>> = Vec::new();
    while rev.len() > 0
        invariant
            orig == out@.map_values(|d: Dual<A>| match d {
                Dual::Fwd(a) => a,
                Dual::Rev(a) => a,
            }) + rev@.reverse(),
            forall|i: int| 0 <= i < out.len() ==> #[trigger] out@[i] is Fwd,
            out.len() + rev.len() == orig.len(),
        decreases rev.len(),
    {
        let a = rev.pop().unwrap();
        out.push(Dual::Fwd(a));
    }
    assert(out@ =~= orig.map_values(|a: A| Dual::Fwd(a))) by {
        assert forall|i: int| 0 <= i < out.len() implies out@[i] == Dual::Fwd(orig[i]) by {
            assert(out@.map_values(|d: Dual<A>| match d {
                Dual::Fwd(a) => a,
                Dual::Rev(a) => a,
            })[i] == orig[i]);
        }
    }
    out
}


/// The labels of `v`, in order, each in the other direction.
fn dual_labels<A>(v: Vec<Dual<A>>) -> (r: Vec<Dual<A>>)
    ensures
        r@ == v@.map_values(|d: Dual<A>| dual_label(d)),
{
    let mut v = v;
    let ghost orig = v@;
    let mut rev: Vec<Dual<A>> = Vec::new();
    while v.len() > 0
        invariant
            orig == v@ + rev@.reverse(),
        decreases v.len(),
    {
        let a = v.pop().unwrap();
        proof {
            assert(rev@.push(a).reverse() =~= seq![a] + rev@.reverse());
        }
        rev.push(a);
    }
    let mut out: Vec<Dual<A>> = Vec::new();
    while rev.len() > 0
        invariant
            orig == out@.map_values(|d: Dual<A>| dual_label(d)) + rev@.reverse(),
        decreases rev.len(),
    {
        let a = rev.pop().unwrap();
        proof {
            assert(dual_label(dual_label(a)) == a) by {
                match a {
                    Dual::Fwd(x) => {},
                    Dual::Rev(x) => {},
                }
            }
        }
        out.push(a.dual());
        proof {
            let m = out@.map_values(|d: Dual<A>| dual_label(d));
            assert(m =~= out@.drop_last().map_values(|d: Dual<A>| dual_label(d)).push(a));
        }
    }
    assert(out@ =~= orig.map_values(|d: Dual<A>| dual_label(d))) by {
        assert forall|i: int| 0 <= i < out.len() implies out@[i] == dual_label(orig[i]) by {
            assert(out@.map_values(|d: Dual<A>| dual_label(d))[i] == orig[i]);
            match out@[i] {
                Dual::Fwd(x) => {},
                Dual::Rev(x) => {},
            }
        }
    }
    out
}

/// Each hyperedge with its sources and targets exchanged.
fn swapped_adjacency(v: Vec<Hyperedge>) -> (r: Vec<Hyperedge>)
    ensures
        r@.map_values(|h: Hyperedge| edge_view(h)) == v@.map_values(|h: Hyperedge| edge_view(h)).map_values(
            |p: (Seq<usize>, Seq<usize>)| (p.1, p.0),
        ),
{
    let mut v = v;
    let ghost orig = v@;
    let mut rev: Vec<Hyperedge> = Vec::new();
    while v.len() > 0
        invariant
            orig == v@ + rev@.reverse(),
        decreases v.len(),
    {
        let a = v.pop().unwrap();
        proof {
            assert(rev@.push(a).reverse() =~= seq![a] + rev@.reverse());
        }
        rev.push(a);
    }
    let mut out: Vec<Hyperedge> = Vec::new();
    while rev.len() > 0
        invariant
            out.len() + rev.len() == orig.len(),
            orig == out@.map_values(|h: Hyperedge| Hyperedge { sources: h.targets, targets: h.sources })
                + rev@.reverse(),
        decreases rev.len(),
    {
        let h = rev.pop().unwrap();
        let Hyperedge { sources, targets } = h;
        out.push(Hyperedge { sources: targets, targets: sources });
        proof {
            let m = out@.map_values(|h: Hyperedge| Hyperedge { sources: h.targets, targets: h.sources });
            assert(m =~= out@.drop_last().map_values(
                |h: Hyperedge| Hyperedge { sources: h.targets, targets: h.sources },
            ).push(h));
        }
    }
    proof {
        let m = out@.map_values(|h: Hyperedge| Hyperedge { sources: h.targets, targets: h.sources });
        assert(m =~= orig);
        assert(out@.map_values(|h: Hyperedge| edge_view(h)) =~= orig.map_values(|h: Hyperedge| edge_view(h)).map_values(
            |p: (Seq<usize>, Seq<usize>)| (p.1, p.0),
        )) by {
            assert forall|i: int| 0 <= i < out.len() implies out@[i].sources == orig[i].targets
                && out@[i].targets == orig[i].sources by {
                assert(m[i] == orig[i]);
            }
        }
    }
    out
}

/// Every operation of `f` used forwards.
pub fn into_fwd<O, A>(f: OpenHypergraph<O, A>) -> (r: OpenHypergraph<O, Dual<A>>)
    ensures
        r@ == fwd_view(f@),
{
    let OpenHypergraph { sources, targets, hypergraph } = f;
    let Hypergraph { nodes, edges, adjacency, quotient } = hypergraph;
    let r = OpenHypergraph {
        sources,
        targets,
        hypergraph: Hypergraph { nodes, edges: moved_labels(edges), adjacency, quotient },
    };
    assert(r@.edges =~= fwd_view(f@).edges);
    r
}

/// The dual of `f`: the picture read from right to left.
pub fn dual<O, A>(f: OpenHypergraph<O, Dual<A>>) -> (r: OpenHypergraph<O, Dual<A>>)
    ensures
        r@ == dual_view(f@),
{
    let OpenHypergraph { sources, targets, hypergraph } = f;
    let Hypergraph { nodes, edges, adjacency, quotient } = hypergraph;
    OpenHypergraph {
        sources: targets,
        targets: sources,
        hypergraph: Hypergraph {
            nodes,
            edges: dual_labels(edges),
            adjacency: swapped_adjacency(adjacency),
            quotient,
        },
    }
}

/// Every operation of `f` used in reverse, in the dual picture.
pub fn into_rev<O, A>(f: OpenHypergraph<O, A>) -> (r: OpenHypergraph<O, Dual<A>>)
    ensures
        r@ == dual_view(fwd_view(f@)),
{
    dual(into_fwd(f))
}

/// Wraps a signature so that its operations may be used in either
/// direction.
pub struct DualSig<S>(S);

impl<S> DualSig<S> {
    /// The profile of `op` given the profile `inner` of the operation it
    /// uses: a reversed operation exchanges its inputs and outputs.
    pub fn dual_profile<A, T>(op: &Dual<A>, inner: (T, T)) -> (r: (T, T))
        ensures
            r == (match op {
                Dual::Fwd(_) => inner,
                Dual::Rev(_) => (inner.1, inner.0),
            }),
    {
        match op {
            Dual::Fwd(_) => inner,
            Dual::Rev(_) => {
                let (s, t) = inner;
                (t, s)
            },
        }
    }
}

} // verus!
