//! Making the implicit Frobenius structure of a lax open hypergraph
//! explicit.
//!
//! A lax open hypergraph shares wires in two ways: a node may be used by
//! several ports, and the quotient relation may identify several nodes. For
//! checking, that sharing must become ordinary operations: each component of
//! nodes under the quotient becomes one spider edge, and every port
//! occurrence gets a node of its own.
use vstd::prelude::*;
use crate::hypergraph::{GraphView, Hyperedge, Hypergraph, OpenHypergraph, all_below, edge_view};

verus! {

/// Edge labels of a hypergraph whose sharing has been made explicit.
#[derive(Debug)]
pub enum WithSpiders<O, A> {
    /// The spider of one component of identified nodes.
    Spider(O),
    /// An operation of the original graph.
    Operation(A),
}

/// Spider extraction fails when a component holds differently labelled
/// nodes.
#[derive(Debug, Clone, Copy, PartialEq, Eq, Structural)]
pub enum ExtractSpidersError {
    LabelMismatch,
}

/// The graph with explicit spiders, and for each node of the input the node
/// of the output that represents it, if its component has any port.
#[derive(Debug)]
pub struct SpiderExtraction<O, A> {
    pub graph: OpenHypergraph<O, WithSpiders<O, A>>,
    pub node_map: Vec<Option<usize>>,
}

/// The ports of a side, each with the node it uses and whether it will be a
/// source (`true`) or a target of that node's spider.
pub open spec fn side_ports(s: Seq<usize>, role: bool) -> Seq<(usize, bool)> {
    s.map_values(|v: usize| (v, role))
}

/// The ports of one hyperedge: its inputs feed spiders as targets, its
/// outputs as sources.
pub open spec fn edge_block(h: (Seq<usize>, Seq<usize>)) -> Seq<(usize, bool)> {
    side_ports(h.0, false) + side_ports(h.1, true)
}

/// The ports of the first `e` hyperedges.
pub open spec fn edge_blocks(adj: Seq<(Seq<usize>, Seq<usize>)>, e: nat) -> Seq<(usize, bool)>
    decreases e,
{
    if e == 0 {
        Seq::empty()
    } else {
        edge_blocks(adj, (e - 1) as nat) + edge_block(adj[e - 1])
    }
}

/// Every port of the graph in the order its new node is made: the open
/// sources, the ports of each hyperedge, and the open targets. The `i`-th
/// port gets node `i` of the extracted graph.
pub open spec fn port_list<O, A>(g: GraphView<O, A>) -> Seq<(usize, bool)> {
    side_ports(g.sources, true) + edge_blocks(g.adjacency, g.adjacency.len()) + side_ports(g.targets, false)
}

/// The new nodes of the ports of role `role` whose node lies in component
/// `c` under the component table `q`, in order.
pub open spec fn members(p: Seq<(usize, bool)>, q: Seq<usize>, c: int, role: bool) -> Seq<usize>
    decreases p.len(),
{
    if p.len() == 0 {
        Seq::empty()
    } else {
        members(p.drop_last(), q, c, role) + if p.last().1 == role && q[p.last().0 as int] == c {
            seq![(p.len() - 1) as usize]
        } else {
            Seq::empty()
        }
    }
}

/// The spiders of components `0 .. k`, one for each, a component that
/// touches no port giving a spider with no ports.
pub open spec fn spider_edges(p: Seq<(usize, bool)>, q: Seq<usize>, k: nat) -> Seq<
    (Seq<usize>, Seq<usize>),
>
    decreases k,
{
    if k == 0 {
        Seq::empty()
    } else {
        let s = members(p, q, k - 1, true);
        let t = members(p, q, k - 1, false);
        spider_edges(p, q, (k - 1) as nat).push((s, t))
    }
}

/// The first new node of the hyperedge `e`'s ports.
pub open spec fn edge_offset<O, A>(g: GraphView<O, A>, e: nat) -> nat {
    g.sources.len() + edge_blocks(g.adjacency, e).len()
}

/// `n` consecutive node numbers from `start`.
pub open spec fn node_range(start: nat, n: nat) -> Seq<usize> {
    Seq::new(n, |j: int| (start + j) as usize)
}

/// The new ports of hyperedge `e`.
pub open spec fn operation_ports<O, A>(g: GraphView<O, A>, e: int) -> (Seq<usize>, Seq<usize>) {
    let off = edge_offset(g, e as nat);
    (node_range(off, g.adjacency[e].0.len()), node_range(off + g.adjacency[e].0.len(), g.adjacency[e].1.len()))
}

/// The node that stands for component `c`: its first target port, else its
/// first source port.
pub open spec fn representative(p: Seq<(usize, bool)>, q: Seq<usize>, c: int) -> Option<usize> {
    let t = members(p, q, c, false);
    let s = members(p, q, c, true);
    if t.len() > 0 {
        Some(t[0])
    } else if s.len() > 0 {
        Some(s[0])
    } else {
        None
    }
}

/// The shape of the extracted graph of `g`, whose nodes fall into the
/// components of table `q`: nodes, interfaces and hyperedges; the edge
/// labels are stated apart.
pub open spec fn extracted_shape<O, A, B>(g: GraphView<O, A>, q: Seq<usize>, k: nat, r: GraphView<(), B>) -> bool {
    let p = port_list(g);
    let e = g.adjacency.len();
    &&& r.nodes.len() == p.len()
    &&& r.sources == node_range(0, g.sources.len())
    &&& r.targets == node_range(edge_offset(g, e), g.targets.len())
    &&& r.adjacency == Seq::new(e, |i: int| operation_ports(g, i)) + spider_edges(p, q, k)
    &&& r.edges.len() == r.adjacency.len()
    &&& r.quotient.0.len() == 0
    &&& r.quotient.1.len() == 0
}

/// `r` is the graph with explicit spiders of `g` under the component table
/// `q` with `k` components: its shape as `extracted_shape` says, each
/// operation carrying a clone of its label, and then the spiders.
pub open spec fn is_extracted_graph<A: Clone>(
    g: GraphView<(), A>,
    q: Seq<usize>,
    k: nat,
    r: OpenHypergraph<(), WithSpiders<(), A>>,
) -> bool {
    &&& extracted_shape(g, q, k, r@)
    &&& forall|e: int|
        0 <= e < g.edges.len() ==> (#[trigger] r@.edges[e] matches WithSpiders::Operation(x) && cloned(
            g.edges[e],
            x,
        ))
    &&& forall|e: int| g.edges.len() <= e < r@.edges.len() ==> #[trigger] r@.edges[e] matches WithSpiders::Spider(_)
}

/// `r` is the spider extraction of `g` under the component table `q`: its
/// graph, and for each node the representative of its component.
pub open spec fn is_extraction<A: Clone>(g: GraphView<(), A>, q: Seq<usize>, k: nat, r: SpiderExtraction<(), A>) -> bool {
    &&& is_extracted_graph(g, q, k, r.graph)
    &&& r.node_map@ == Seq::new(q.len(), |v: int| representative(port_list(g), q, q[v] as int))
}

/// Appending a port extends the members of its component and role.
proof fn lemma_members_push(p: Seq<(usize, bool)>, x: (usize, bool), q: Seq<usize>, c: int, role: bool)
    ensures
        members(p.push(x), q, c, role) == members(p, q, c, role) + if x.1 == role && q[x.0 as int] == c {
            seq![p.len() as usize]
        } else {
            Seq::empty()
        },
{
    assert(p.push(x).drop_last() =~= p);
}

/// Every member of a component is a port number.
proof fn lemma_members_below(p: Seq<(usize, bool)>, q: Seq<usize>, c: int, role: bool)
    ensures
        forall|i: int| 0 <= i < members(p, q, c, role).len() ==> #[trigger] members(p, q, c, role)[i] < p.len(),
    decreases p.len(),
{
    if p.len() > 0 {
        let pd = p.drop_last();
        lemma_members_below(pd, q, c, role);
        let m = members(p, q, c, role);
        let md = members(pd, q, c, role);
        assert forall|i: int| 0 <= i < m.len() implies #[trigger] m[i] < p.len() by {
            if i < md.len() {
                assert(m[i] == md[i]);
            }
        }
    }
}


/// The fresh port nodes gathered for one component, which become the
/// sources and targets of its spider.
struct Component {
    sources: Vec<usize>,
    targets: Vec<usize>,
}

/// The components' port lists agree with the ports made so far.
spec fn components_match(comps: Seq<Component>, p: Seq<(usize, bool)>, q: Seq<usize>) -> bool {
    forall|c: int|
        0 <= c < comps.len() ==> #[trigger] comps[c].sources@ == members(p, q, c, true)
            && comps[c].targets@ == members(p, q, c, false)
}

/// Makes a node for a port of role `role` at original node `v`, and records
/// it with the component of `v`.
fn add_port(
    nodes: &mut Vec<()>,
    comps: &mut Vec<Component>,
    q: &Vec<usize>,
    v: usize,
    role: bool,
    Ghost(alloc): Ghost<Seq<(usize, bool)>>,
) -> (node: usize)
    requires
        v < q.len(),
        q[v as int] < old(comps).len(),
        old(nodes).len() == alloc.len(),
        old(nodes).len() < usize::MAX,
        components_match(old(comps)@, alloc, q@),
    ensures
        node == old(nodes).len(),
        final(nodes)@ == old(nodes)@.push(()),
        final(comps).len() == old(comps).len(),
        components_match(final(comps)@, alloc.push((v, role)), q@),
{
    let c = q[v];
    let node = nodes.len();
    nodes.push(());
    let ghost before = comps@;
    if role {
        comps[c].sources.push(node);
        assert(comps@[c as int].sources@ == before[c as int].sources@.push(node));
        assert(comps@[c as int].targets@ == before[c as int].targets@);
    } else {
        comps[c].targets.push(node);
        assert(comps@[c as int].targets@ == before[c as int].targets@.push(node));
        assert(comps@[c as int].sources@ == before[c as int].sources@);
    }
    assert(forall|d: int| 0 <= d < comps.len() && d != c ==> comps@[d] == before[d]);
    proof {
        let np = alloc.push((v, role));
        assert forall|d: int| 0 <= d < comps.len() implies #[trigger] comps@[d].sources@ == members(np, q@, d, true)
            && comps@[d].targets@ == members(np, q@, d, false) by {
            lemma_members_push(alloc, (v, role), q@, d, true);
            lemma_members_push(alloc, (v, role), q@, d, false);
            assert(before[d].sources@ == members(alloc, q@, d, true));
            assert(before[d].targets@ == members(alloc, q@, d, false));
            if d == c {
                assert(comps@[d].sources@ =~= members(np, q@, d, true));
                assert(comps@[d].targets@ =~= members(np, q@, d, false));
            } else {
                assert(comps@[d] == old(comps)@[d]);
                assert(members(np, q@, d, true) =~= members(alloc, q@, d, true));
                assert(members(np, q@, d, false) =~= members(alloc, q@, d, false));
            }
        }
        assert(components_match(comps@, np, q@));
    }
    node
}


/// The port lists of the first `e` hyperedges grow with `e`.
proof fn lemma_edge_blocks_mono(adj: Seq<(Seq<usize>, Seq<usize>)>, e: nat, f: nat)
    requires
        e <= f,
    ensures
        edge_blocks(adj, e).len() <= edge_blocks(adj, f).len(),
    decreases f,
{
    if e < f {
        lemma_edge_blocks_mono(adj, e, (f - 1) as nat);
    }
}

/// `k` components with no ports yet.
fn new_components(k: usize, q: &Vec<usize>) -> (comps: Vec<Component>)
    ensures
        comps.len() == k,
        components_match(comps@, Seq::empty(), q@),
{
    let mut comps: Vec<Component> = Vec::new();
    let mut c: usize = 0;
    while c < k
        invariant
            c <= k,
            comps.len() == c,
            components_match(comps@, Seq::empty(), q@),
        decreases k - c,
    {
        let ghost before = comps@;
        let fresh = Component { sources: Vec::new(), targets: Vec::new() };
        assert(fresh.sources@ =~= Seq::<usize>::empty());
        assert(fresh.targets@ =~= Seq::<usize>::empty());
        comps.push(fresh);
        proof {
            assert forall|d: int| 0 <= d < comps.len() implies #[trigger] comps@[d].sources@ == members(
                Seq::empty(),
                q@,
                d,
                true,
            ) && comps@[d].targets@ == members(Seq::empty(), q@, d, false) by {
                if d == c {
                    assert(comps@[d] == fresh);
                } else {
                    assert(comps@[d] == before[d]);
                    assert(before[d].sources@ == members(Seq::empty(), q@, d, true));
                }
            }
            assert(components_match(comps@, Seq::empty(), q@));
        }
        c = c + 1;
    }
    comps
}

/// Makes a node for each port of `side`, all of role `role`, and returns
/// them in order.
fn side_nodes(
    nodes: &mut Vec<()>,
    comps: &mut Vec<Component>,
    q: &Vec<usize>,
    side: &Vec<usize>,
    role: bool,
    Ghost(alloc): Ghost<Seq<(usize, bool)>>,
) -> (made: Vec<usize>)
    requires
        all_below(side@, q.len() as nat),
        all_below(q@, old(comps).len() as nat),
        old(nodes).len() == alloc.len(),
        old(nodes).len() + side.len() < usize::MAX,
        components_match(old(comps)@, alloc, q@),
    ensures
        made@ == node_range(alloc.len(), side.len() as nat),
        final(nodes)@.len() == alloc.len() + side.len(),
        final(comps).len() == old(comps).len(),
        components_match(final(comps)@, alloc + side_ports(side@, role), q@),
{
    let mut made: Vec<usize> = Vec::new();
    let mut j: usize = 0;
    let ghost mut cur = alloc;
    assert(side_ports(side@.take(0), role) =~= Seq::<(usize, bool)>::empty());
    assert(alloc + Seq::<(usize, bool)>::empty() =~= alloc);
    while j < side.len()
        invariant
            j <= side.len(),
            all_below(side@, q.len() as nat),
            all_below(q@, comps.len() as nat),
            comps.len() == old(comps).len(),
            cur == alloc + side_ports(side@.take(j as int), role),
            nodes.len() == cur.len(),
            cur.len() == alloc.len() + j,
            alloc.len() + side.len() < usize::MAX,
            components_match(comps@, cur, q@),
            made@ == node_range(alloc.len(), j as nat),
        decreases side.len() - j,
    {
        let v = side[j];
        assert(side@[j as int] < q.len());
        assert(q@[v as int] < comps.len());
        let node = add_port(nodes, comps, q, v, role, Ghost(cur));
        proof {
            assert(side@.take(j + 1) =~= side@.take(j as int).push(v));
            assert(side_ports(side@.take(j + 1), role) =~= side_ports(side@.take(j as int), role).push((v, role)));
            cur = cur.push((v, role));
            assert(cur =~= alloc + side_ports(side@.take(j + 1), role));
        }
        made.push(node);
        assert(made@ =~= node_range(alloc.len(), (j + 1) as nat));
        j = j + 1;
    }
    assert(side@.take(side.len() as int) =~= side@);
    made
}


/// The representative of each node of `q` under the final component lists.
fn representatives(comps: &Vec<Component>, q: &Vec<usize>, Ghost(p): Ghost<Seq<(usize, bool)>>) -> (r: Vec<
    Option<usize>,
>)
    requires
        all_below(q@, comps.len() as nat),
        components_match(comps@, p, q@),
    ensures
        r@ == Seq::new(q.len() as nat, |v: int| representative(p, q@, q@[v] as int)),
{
    let mut r: Vec<Option<usize>> = Vec::new();
    let mut v: usize = 0;
    while v < q.len()
        invariant
            v <= q.len(),
            all_below(q@, comps.len() as nat),
            components_match(comps@, p, q@),
            r@ == Seq::new(v as nat, |w: int| representative(p, q@, q@[w] as int)),
        decreases q.len() - v,
    {
        let c = q[v];
        assert(q@[v as int] < comps.len());
        let comp = &comps[c];
        assert(comps@[c as int].sources@ == members(p, q@, c as int, true));
        let rep = if comp.targets.len() > 0 {
            Some(comp.targets[0])
        } else if comp.sources.len() > 0 {
            Some(comp.sources[0])
        } else {
            None
        };
        r.push(rep);
        assert(r@ =~= Seq::new((v + 1) as nat, |w: int| representative(p, q@, q@[w] as int)));
        v = v + 1;
    }
    r
}

/// A copy of a list of node numbers.
fn copy_nodes(v: &Vec<usize>) -> (r: Vec<usize>)
    ensures
        r@ == v@,
{
    let mut r: Vec<usize> = Vec::new();
    let mut i: usize = 0;
    while i < v.len()
        invariant
            i <= v.len(),
            r@ == v@.take(i as int),
        decreases v.len() - i,
    {
        r.push(v[i]);
        assert(r@ =~= v@.take(i + 1));
        i = i + 1;
    }
    assert(v@.take(v.len() as int) =~= v@);
    r
}

/// Appends the spider of each component, in the order of the components.
fn add_spiders<A>(
    edges: &mut Vec<WithSpiders<(), A>>,
    adjacency: &mut Vec<Hyperedge>,
    comps: &Vec<Component>,
    q: &Vec<usize>,
    Ghost(p): Ghost<Seq<(usize, bool)>>,
)
    requires
        components_match(comps@, p, q@),
        old(edges).len() == old(adjacency).len(),
    ensures
        final(adjacency)@.map_values(|h: Hyperedge| edge_view(h)) == old(adjacency)@.map_values(
            |h: Hyperedge| edge_view(h),
        ) + spider_edges(p, q@, comps.len() as nat),
        final(edges).len() == final(adjacency).len(),
        forall|e: int| 0 <= e < old(edges).len() ==> #[trigger] final(edges)@[e] == old(edges)@[e],
        forall|e: int| old(edges).len() <= e < final(edges).len() ==> #[trigger] final(edges)@[e] matches WithSpiders::Spider(_),
{
    let ghost base = old(adjacency)@.map_values(|h: Hyperedge| edge_view(h));
    let ghost e0 = old(edges)@;
    let mut c: usize = 0;
    while c < comps.len()
        invariant
            c <= comps.len(),
            components_match(comps@, p, q@),
            edges.len() == adjacency.len(),
            e0.len() <= edges.len(),
            adjacency@.map_values(|h: Hyperedge| edge_view(h)) == base + spider_edges(p, q@, c as nat),
            forall|e: int| 0 <= e < e0.len() ==> #[trigger] edges@[e] == e0[e],
            forall|e: int| e0.len() <= e < edges.len() ==> #[trigger] edges@[e] matches WithSpiders::Spider(_),
        decreases comps.len() - c,
    {
        let comp = &comps[c];
        assert(comps@[c as int].sources@ == members(p, q@, c as int, true));
        let ghost before = adjacency@.map_values(|h: Hyperedge| edge_view(h));
        let h = Hyperedge { sources: copy_nodes(&comp.sources), targets: copy_nodes(&comp.targets) };
        adjacency.push(h);
        edges.push(WithSpiders::Spider(()));
        assert(adjacency@.map_values(|h: Hyperedge| edge_view(h)) =~= before.push(edge_view(h)));
        assert(adjacency@.map_values(|h: Hyperedge| edge_view(h)) =~= base + spider_edges(p, q@, (c + 1) as nat));
        c = c + 1;
    }
}


/// The spiders of `f` given the component of each of its nodes: `q[v]` is
/// the component of node `v`, out of `k`. Every port gets a fresh node, the
/// operations keep their labels, and each component becomes one
/// spider from the open sources and operation outputs in it to the
/// operation inputs and open targets in it.
pub fn spiders_from_components<A: Clone>(f: &OpenHypergraph<(), A>, q: &Vec<usize>, k: usize) -> (r:
    SpiderExtraction<(), A>)
    requires
        f@.wf(),
        q.len() == f@.nodes.len(),
        all_below(q@, k as nat),
        port_list(f@).len() < usize::MAX,
    ensures
        is_extraction(f@, q@, k as nat, r),
{
    let ghost g = f@;
    let ghost p = port_list(g);
    let ghost ne = g.adjacency.len();
    let mut comps = new_components(k, q);
    let mut nodes: Vec<()> = Vec::new();
    proof {
        lemma_edge_blocks_mono(g.adjacency, 0, ne);
    }
    let out_sources = side_nodes(&mut nodes, &mut comps, q, &f.sources, true, Ghost(Seq::empty()));
    let ghost mut alloc: Seq<(usize, bool)> = Seq::<(usize, bool)>::empty() + side_ports(g.sources, true);
    assert(alloc =~= side_ports(g.sources, true) + edge_blocks(g.adjacency, 0));
    let mut out_edges: Vec<WithSpiders<(), A>> = Vec::new();
    let mut out_adj: Vec<Hyperedge> = Vec::new();
    let mut e: usize = 0;
    while e < f.hypergraph.edges.len()
        invariant
            g == f@,
            g.wf(),
            p == port_list(g),
            ne == g.adjacency.len(),
            p.len() < usize::MAX,
            q.len() == g.nodes.len(),
            all_below(q@, k as nat),
            comps.len() == k,
            e <= ne,
            alloc == side_ports(g.sources, true) + edge_blocks(g.adjacency, e as nat),
            nodes.len() == alloc.len(),
            components_match(comps@, alloc, q@),
            out_edges.len() == e,
            out_adj.len() == e,
            out_adj@.map_values(|h: Hyperedge| edge_view(h)) == Seq::new(e as nat, |i: int| operation_ports(g, i)),
            forall|i: int| 0 <= i < e ==> (#[trigger] out_edges@[i] matches WithSpiders::Operation(x) && cloned(
                g.edges[i],
                x,
            )),
        decreases ne - e,
    {
        let h = &f.hypergraph.adjacency[e];
        assert(edge_view(*h) == g.adjacency[e as int]);
        proof {
            lemma_edge_blocks_mono(g.adjacency, (e + 1) as nat, ne);
            assert(edge_blocks(g.adjacency, (e + 1) as nat) == edge_blocks(g.adjacency, e as nat) + edge_block(g.adjacency[e as int]));
            assert(all_below(g.adjacency[e as int].0, g.nodes.len()));
        }
        let ghost start = alloc.len();
        let srcs = side_nodes(&mut nodes, &mut comps, q, &h.sources, false, Ghost(alloc));
        proof {
            alloc = alloc + side_ports(h.sources@, false);
        }
        let tgts = side_nodes(&mut nodes, &mut comps, q, &h.targets, true, Ghost(alloc));
        proof {
            alloc = alloc + side_ports(h.targets@, true);
            assert(alloc =~= side_ports(g.sources, true) + edge_blocks(g.adjacency, (e + 1) as nat));
        }
        let label = f.hypergraph.edges[e].clone();
        out_edges.push(WithSpiders::Operation(label));
        let ghost before = out_adj@.map_values(|h: Hyperedge| edge_view(h));
        let nh = Hyperedge { sources: srcs, targets: tgts };
        out_adj.push(nh);
        proof {
            assert(start == edge_offset(g, e as nat));
            assert(edge_view(nh) == operation_ports(g, e as int));
            assert(out_adj@.map_values(|h: Hyperedge| edge_view(h)) =~= before.push(edge_view(nh)));
            assert(out_adj@.map_values(|h: Hyperedge| edge_view(h)) =~= Seq::new((e + 1) as nat, |i: int| operation_ports(g, i)));
        }
        e = e + 1;
    }
    let ghost tstart = alloc.len();
    let out_targets = side_nodes(&mut nodes, &mut comps, q, &f.targets, false, Ghost(alloc));
    proof {
        alloc = alloc + side_ports(g.targets, false);
        assert(alloc =~= p);
        assert(tstart == edge_offset(g, ne));
    }
    let node_map = representatives(&comps, q, Ghost(p));
    add_spiders(&mut out_edges, &mut out_adj, &comps, q, Ghost(p));
    let r = SpiderExtraction {
        graph: OpenHypergraph {
            sources: out_sources,
            targets: out_targets,
            hypergraph: Hypergraph { nodes, edges: out_edges, adjacency: out_adj, quotient: (Vec::new(), Vec::new()) },
        },
        node_map,
    };
    proof {
        assert(r.graph@.adjacency =~= Seq::new(ne, |i: int| operation_ports(g, i)) + spider_edges(p, q@, k as nat));
        assert(r.graph@.sources =~= node_range(0, g.sources.len()));
    }
    r
}


/// Some node lies in component `c` of the table `t`.
pub open spec fn component_used(t: Seq<usize>, c: int) -> bool {
    exists|v: int| 0 <= v < t.len() && t[v] == c
}

/// Nodes `a` and `b` are the two ends of some pair `sources[j]`,
/// `targets[j]`.
pub open spec fn adjacent(sources: Seq<usize>, targets: Seq<usize>, a: int, b: int) -> bool {
    exists|j: int|
        0 <= j < sources.len() && ((sources[j] == a && targets[j] == b) || (sources[j] == b && targets[j] == a))
}

/// A path of pairs leads from node `u` to node `v`.
pub open spec fn joined(sources: Seq<usize>, targets: Seq<usize>, u: int, v: int) -> bool {
    exists|path: Seq<int>|
        path.len() >= 1 && path[0] == u && path.last() == v && forall|i: int|
            0 <= i < path.len() - 1 ==> #[trigger] adjacent(sources, targets, path[i], path[i + 1])
}

/// What `open_hypergraphs::array::vec::connected_components` returns for
/// the pairs `sources[i]`, `targets[i]` over nodes `0 .. n`.
pub uninterp spec fn connected_components_of(sources: Seq<usize>, targets: Seq<usize>, n: usize) -> (Seq<usize>, usize);

/// `open_hypergraphs::array::vec::connected_components`: numbers the
/// connected components of the graph on nodes `0 .. n` whose edges are
/// `sources[i] -> targets[i]`. Claimed here: the result is a function of
/// the arguments; the table has one entry per node, below the number of
/// components; the two ends of each edge share a component; nodes share a
/// component only when a path of edges joins them; every component number
/// is used; and components are numbered in the order of their first nodes.
#[verifier::external_body]
fn connected_components(sources: &Vec<usize>, targets: &Vec<usize>, n: usize) -> (r: (Vec<usize>, usize))
    requires
        sources.len() == targets.len(),
        all_below(sources@, n as nat),
        all_below(targets@, n as nat),
    ensures
        (r.0@, r.1) == connected_components_of(sources@, targets@, n),
        r.0.len() == n,
        all_below(r.0@, r.1 as nat),
        forall|j: int| 0 <= j < sources.len() ==> r.0@[#[trigger] sources@[j] as int] == r.0@[targets@[j] as int],
        forall|c: int| 0 <= c < r.1 ==> #[trigger] component_used(r.0@, c),
        forall|u: int, v: int|
            0 <= u < n && 0 <= v < n && #[trigger] r.0@[u] == #[trigger] r.0@[v] ==> joined(sources@, targets@, u, v),
        forall|v: int| 0 <= v < n && #[trigger] r.0@[v] > 0 ==> exists|u: int| 0 <= u < v && r.0@[u] == r.0@[v] - 1,
{
    open_hypergraphs::array::vec::connected_components(sources.as_slice(), targets.as_slice(), n)
}

/// `t` numbers the connected components of the graph on nodes `0 .. n`
/// whose edges are the pairs `sources[i]`, `targets[i]`, with `k`
/// components: one entry per node, below `k`; the two ends of each pair
/// share a component; nodes share a component only when a path of pairs
/// joins them; every component is used; and components are numbered in the
/// order of their first nodes.
pub open spec fn is_component_table(sources: Seq<usize>, targets: Seq<usize>, n: nat, t: Seq<usize>, k: nat) -> bool {
    &&& t.len() == n
    &&& all_below(t, k)
    &&& forall|j: int| 0 <= j < sources.len() ==> t[#[trigger] sources[j] as int] == t[targets[j] as int]
    &&& forall|c: int| 0 <= c < k ==> #[trigger] component_used(t, c)
    &&& forall|u: int, v: int| 0 <= u < n && 0 <= v < n && #[trigger] t[u] == #[trigger] t[v] ==> joined(sources, targets, u, v)
    &&& forall|v: int| 0 <= v < n && #[trigger] t[v] > 0 ==> exists|u: int| 0 <= u < v && t[u] == t[v] - 1
}

/// The components of the nodes of `g` under its quotient relation.
pub open spec fn quotient_components<A>(g: GraphView<(), A>) -> (Seq<usize>, usize) {
    connected_components_of(g.quotient.0, g.quotient.1, g.nodes.len() as usize)
}

/// Replaces all implicit sharing in `f` by explicit spiders, and gives for
/// each node of `f` a node of the result that stands for it. Every port of
/// `f` gets a fresh node; each component of the nodes of `f` under its
/// quotient relation becomes one spider from the open sources and operation
/// outputs in it to the operation inputs and open targets in it (a
/// component that touches no port gives a spider with no ports). The result has no quotient left. Nodes carry no labels
/// here, so no component can hold differing labels, and the extraction
/// always succeeds.
pub fn extract_spiders_with_node_map<A: Clone>(f: &OpenHypergraph<(), A>) -> (r: Result<
    SpiderExtraction<(), A>,
    ExtractSpidersError,
>)
    requires
        f@.wf(),
        port_list(f@).len() < usize::MAX,
    ensures
        r matches Ok(x) && is_extraction(f@, quotient_components(f@).0, quotient_components(f@).1 as nat, x),
        is_component_table(
            f@.quotient.0,
            f@.quotient.1,
            f@.nodes.len(),
            quotient_components(f@).0,
            quotient_components(f@).1 as nat,
        ),
        r matches Ok(x) && x.node_map@.len() == f@.nodes.len(),
        r matches Ok(x) && x.graph@.edges.len() == f@.edges.len() + quotient_components(f@).1,
{
    let n = f.hypergraph.nodes.len();
    let (q, k) = connected_components(&f.hypergraph.quotient.0, &f.hypergraph.quotient.1, n);
    let r = spiders_from_components(f, &q, k);
    proof {
        lemma_spider_edges_len(port_list(f@), q@, k as nat);
        assert(r.graph@.adjacency.len() == f@.adjacency.len() + k);
    }
    Ok(r)
}

/// There is one spider for each component.
proof fn lemma_spider_edges_len(p: Seq<(usize, bool)>, q: Seq<usize>, k: nat)
    ensures
        spider_edges(p, q, k).len() == k,
    decreases k,
{
    if k > 0 {
        lemma_spider_edges_len(p, q, (k - 1) as nat);
    }
}

/// Replaces all implicit sharing in `f` by explicit spiders, as
/// `extract_spiders_with_node_map` does, and returns the graph alone.
pub fn extract_spiders<A: Clone>(f: &OpenHypergraph<(), A>) -> (r: Result<
    OpenHypergraph<(), WithSpiders<(), A>>,
    ExtractSpidersError,
>)
    requires
        f@.wf(),
        port_list(f@).len() < usize::MAX,
    ensures
        r matches Ok(x) && is_extracted_graph(f@, quotient_components(f@).0, quotient_components(f@).1 as nat, x),
{
    match extract_spiders_with_node_map(f) {
        Ok(extraction) => Ok(extraction.graph),
        Err(e) => Err(e),
    }
}

} // verus!
