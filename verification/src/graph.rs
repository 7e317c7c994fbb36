//! The syntax-category dependency graph of a raw theory set: each theory
//! points to the theory its syntax lives in, the builtin `nat` to itself.
//! Theories are ordered so that every syntax category comes before the
//! theories that depend on it, and subsets closed under this dependency are
//! cut out of a set.
use vstd::prelude::*;
use crate::raw::{RawTheorySet, RawTheorySetV, RawTheory, Extension, ExtensionV, theory_map, extensions_view, sorted_keys, keyed_map, lemma_keyed_map, has_key, Keyed};
use crate::text::text_eq;
use crate::order::seq_lt;

verus! {

/// The name of a theory.
#[derive(Debug)]
pub struct TheoryId(pub String);

impl View for TheoryId {
    type V = Seq<char>;

    open spec fn view(&self) -> Seq<char> {
        self.0@
    }
}

impl TheoryId {
    /// The theory of this name.
    pub fn new(name: String) -> (r: TheoryId)
        ensures
            r@ == name@,
    {
        TheoryId(name)
    }
}

/// The builtin theory of natural numbers, the root of every syntax chain.
pub fn builtin_nat_theory_id() -> (r: TheoryId)
    ensures
        r@ == nat_name(),
{
    TheoryId("nat".to_string())
}

/// The name of the builtin `nat` theory.
pub open spec fn nat_name() -> Seq<char> {
    "nat"@
}

/// Why a dependency graph or order could not be made.
#[derive(Debug)]
pub enum GraphError {
    /// A requested theory that the set does not have.
    UnknownTheory(String),
    /// A theory whose syntax category is neither a theory of the set nor
    /// `nat`.
    UnknownSyntaxCategory { theory: TheoryId, base: String },
    /// A theory on a cycle of syntax categories.
    SyntaxCycle(TheoryId),
}

/// A graph error as a plain value.
pub enum GraphErrV {
    UnknownTheory(Seq<char>),
    UnknownSyntaxCategory(Seq<char>, Seq<char>),
    SyntaxCycle(Seq<char>),
}

impl View for GraphError {
    type V = GraphErrV;

    open spec fn view(&self) -> GraphErrV {
        match self {
            GraphError::UnknownTheory(n) => GraphErrV::UnknownTheory(n@),
            GraphError::UnknownSyntaxCategory { theory, base } => GraphErrV::UnknownSyntaxCategory(theory@, base@),
            GraphError::SyntaxCycle(t) => GraphErrV::SyntaxCycle(t@),
        }
    }
}

/// Each theory with the theory its syntax lives in, one edge per theory.
#[derive(Debug)]
pub struct SyntaxDependencyGraph {
    pub edges: Vec<(String, String)>,
}

/// No theory has two edges.
pub open spec fn distinct_keys(s: Seq<(String, String)>) -> bool {
    forall|i: int, j: int| 0 <= i < j < s.len() ==> (#[trigger] s[i]).0@ != (#[trigger] s[j]).0@
}

/// The edges as a map from a theory to its syntax category.
pub open spec fn edge_map(s: Seq<(String, String)>) -> Map<Seq<char>, Seq<char>> {
    Map::new(
        |k: Seq<char>| exists|i: int| 0 <= i < s.len() && (#[trigger] s[i]).0@ == k,
        |k: Seq<char>| s[choose|i: int| 0 <= i < s.len() && (#[trigger] s[i]).0@ == k].1@,
    )
}

impl View for SyntaxDependencyGraph {
    type V = Map<Seq<char>, Seq<char>>;

    open spec fn view(&self) -> Map<Seq<char>, Seq<char>> {
        edge_map(self.edges@)
    }
}

impl SyntaxDependencyGraph {
    /// No theory has two edges.
    pub open spec fn wf(&self) -> bool {
        distinct_keys(self.edges@)
    }
}

/// With distinct keys, each edge is the map's entry for its theory.
pub proof fn lemma_edge_map_at(s: Seq<(String, String)>, i: int)
    requires
        distinct_keys(s),
        0 <= i < s.len(),
    ensures
        edge_map(s).dom().contains(s[i].0@),
        edge_map(s)[s[i].0@] == s[i].1@,
{
    let k = s[i].0@;
    assert(edge_map(s).dom().contains(k));
    let j = choose|j: int| 0 <= j < s.len() && (#[trigger] s[j]).0@ == k;
    if j != i {
        if j < i {
            assert(s[j].0@ != s[i].0@);
        } else {
            assert(s[i].0@ != s[j].0@);
        }
    }
}

/// Where `t` is after `n` steps from a theory to its syntax category;
/// `None` once a theory without an edge is left.
pub open spec fn follow(m: Map<Seq<char>, Seq<char>>, t: Seq<char>, n: nat) -> Option<Seq<char>>
    decreases n,
{
    if n == 0 {
        Some(t)
    } else {
        match follow(m, t, (n - 1) as nat) {
            Some(x) => if m.dom().contains(x) {
                Some(m[x])
            } else {
                None
            },
            None => None,
        }
    }
}

/// `y` is `x` or a syntax category that `x` depends on, directly or not.
pub open spec fn reaches(m: Map<Seq<char>, Seq<char>>, x: Seq<char>, y: Seq<char>) -> bool {
    exists|n: nat| #[trigger] follow(m, x, n) == Some(y)
}

/// `y` is a theory of the graph or a syntax category one of them depends on.
pub open spec fn below_keys(m: Map<Seq<char>, Seq<char>>, y: Seq<char>) -> bool {
    exists|k: Seq<char>| m.dom().contains(k) && #[trigger] reaches(m, k, y)
}

/// `t` is not its own syntax category, yet depends on itself.
pub open spec fn on_cycle(m: Map<Seq<char>, Seq<char>>, t: Seq<char>) -> bool {
    &&& !(m.dom().contains(t) && m[t] == t)
    &&& exists|n: nat| n >= 1 && #[trigger] follow(m, t, n) == Some(t)
}

/// Every theory of `o` that is not its own syntax category comes after its
/// syntax category.
pub open spec fn bases_first(m: Map<Seq<char>, Seq<char>>, o: Seq<Seq<char>>) -> bool {
    forall|i: int|
        0 <= i < o.len() && m.dom().contains(#[trigger] o[i]) && m[o[i]] != o[i] ==> exists|j: int| 0 <= j < i && o[j] == m[o[i]]
}

/// Steps compose.
pub proof fn lemma_follow_add(m: Map<Seq<char>, Seq<char>>, t: Seq<char>, a: nat, b: nat)
    ensures
        follow(m, t, a + b) == match follow(m, t, a) {
            Some(x) => follow(m, x, b),
            None => None::<Seq<char>>,
        },
    decreases b,
{
    if b > 0 {
        lemma_follow_add(m, t, a, (b - 1) as nat);
        assert((a + b - 1) as nat == a + (b - 1) as nat);
    }
}

/// A list whose theories come after their syntax categories is closed
/// under taking syntax categories.
pub proof fn lemma_follow_stays(m: Map<Seq<char>, Seq<char>>, o: Seq<Seq<char>>, k: Seq<char>, n: nat)
    requires
        bases_first(m, o),
        o.contains(k),
    ensures
        follow(m, k, n) matches Some(z) ==> o.contains(z),
    decreases n,
{
    if n > 0 {
        lemma_follow_stays(m, o, k, (n - 1) as nat);
        if let Some(x) = follow(m, k, (n - 1) as nat) {
            if m.dom().contains(x) && m[x] != x {
                let i = choose|i: int| 0 <= i < o.len() && o[i] == x;
                assert(o[i] == x);
                let j = choose|j: int| 0 <= j < i && o[j] == m[o[i]];
                assert(o[j] == m[x]);
            }
        }
    }
}

/// Following a theory of such a list leads only to theories before it.
pub proof fn lemma_follow_earlier(m: Map<Seq<char>, Seq<char>>, o: Seq<Seq<char>>, i: int, k: nat)
    requires
        bases_first(m, o),
        0 <= i < o.len(),
        m.dom().contains(o[i]),
        m[o[i]] != o[i],
        k >= 1,
    ensures
        follow(m, o[i], k) matches Some(z) ==> exists|j: int| 0 <= j < i && o[j] == z,
    decreases k,
{
    if k > 1 {
        lemma_follow_earlier(m, o, i, (k - 1) as nat);
        if let Some(z) = follow(m, o[i], (k - 1) as nat) {
            let j = choose|j: int| 0 <= j < i && o[j] == z;
            if m.dom().contains(z) && m[z] != z {
                assert(o[j] == z);
                let j2 = choose|j2: int| 0 <= j2 < j && o[j2] == m[o[j]];
                assert(o[j2] == m[z]);
            }
        }
    } else {
        assert(follow(m, o[i], 0) == Some(o[i]));
    }
}

/// No theory of such a list, without repeats, is on a cycle.
pub proof fn lemma_not_on_cycle(m: Map<Seq<char>, Seq<char>>, o: Seq<Seq<char>>, i: int)
    requires
        bases_first(m, o),
        o.no_duplicates(),
        0 <= i < o.len(),
    ensures
        !on_cycle(m, o[i]),
{
    if on_cycle(m, o[i]) {
        let n = choose|n: nat| n >= 1 && #[trigger] follow(m, o[i], n) == Some(o[i]);
        assert(follow(m, o[i], 1) == Some(m[o[i]])) by {
            assert(follow(m, o[i], 0) == Some(o[i]));
            lemma_follow_add(m, o[i], 1, (n - 1) as nat);
        }
        lemma_follow_earlier(m, o, i, n);
        let j = choose|j: int| 0 <= j < i && o[j] == o[i];
    }
}

/// A list without repeats, drawn from `u`, is no longer than `u`.
pub proof fn lemma_distinct_within(path: Seq<Seq<char>>, u: Seq<Seq<char>>)
    requires
        path.no_duplicates(),
        forall|x: Seq<char>| path.contains(x) ==> u.contains(x),
    ensures
        path.len() <= u.len(),
{
    path.unique_seq_to_set();
    u.lemma_cardinality_of_set();
    assert(path.to_set().subset_of(u.to_set()));
    vstd::set_lib::lemma_len_subset(path.to_set(), u.to_set());
}

/// The theories and syntax categories of the edges.
pub open spec fn universe(s: Seq<(String, String)>) -> Seq<Seq<char>> {
    s.map_values(|e: (String, String)| e.0@) + s.map_values(|e: (String, String)| e.1@)
}

/// Whether `x` is in the list.
fn contains_name(v: &Vec<String>, x: &str) -> (r: bool)
    ensures
        r == names(v@).contains(x@),
{
    let mut i: usize = 0;
    while i < v.len()
        invariant
            i <= v.len(),
            forall|j: int| 0 <= j < i ==> v@[j]@ != x@,
        decreases v.len() - i,
    {
        if text_eq(v[i].as_str(), x) {
            assert(names(v@)[i as int] == x@);
            return true;
        }
        i = i + 1;
    }
    proof {
        if names(v@).contains(x@) {
            let j = choose|j: int| 0 <= j < v@.len() && #[trigger] names(v@)[j] == x@;
            assert(v@[j]@ == x@);
        }
    }
    false
}

/// The syntax category of `t`.
fn base_of<'a>(g: &'a Vec<(String, String)>, t: &str) -> (r: Option<&'a String>)
    requires
        distinct_keys(g@),
    ensures
        match r {
            Some(b) => edge_map(g@).dom().contains(t@) && edge_map(g@)[t@] == b@,
            None => !edge_map(g@).dom().contains(t@),
        },
{
    let mut i: usize = 0;
    while i < g.len()
        invariant
            i <= g.len(),
            distinct_keys(g@),
            forall|j: int| 0 <= j < i ==> (#[trigger] g@[j]).0@ != t@,
        decreases g.len() - i,
    {
        if text_eq(g[i].0.as_str(), t) {
            proof {
                lemma_edge_map_at(g@, i as int);
            }
            return Some(&g[i].1);
        }
        i = i + 1;
    }
    None
}

/// The names of a list of strings.
pub open spec fn names(v: Seq<String>) -> Seq<Seq<char>> {
    v.map_values(|s: String| s@)
}

/// The names of a list of theory names.
pub open spec fn ids(v: Seq<TheoryId>) -> Seq<Seq<char>> {
    v.map_values(|t: TheoryId| t@)
}

/// Appending a chain, deepest theory first, keeps a list whose theories
/// come after their syntax categories: the chain's first theory depends on
/// the second, and so on, and the last one's syntax category is in the list
/// already.
proof fn lemma_append_chain(m: Map<Seq<char>, Seq<char>>, d0: Seq<Seq<char>>, p: Seq<Seq<char>>)
    requires
        d0.no_duplicates(),
        bases_first(m, d0),
        p.no_duplicates(),
        p.len() > 0,
        forall|k: int| 0 <= k < p.len() ==> !d0.contains(#[trigger] p[k]),
        forall|k: int|
            0 <= k < p.len() - 1 ==> m.dom().contains(#[trigger] p[k]) && m[p[k]] == p[k + 1] && p[k + 1] != p[k],
        m.dom().contains(p.last()) && m[p.last()] != p.last() ==> d0.contains(m[p.last()]),
    ensures
        (d0 + p.reverse()).no_duplicates(),
        bases_first(m, d0 + p.reverse()),
        forall|y: Seq<char>| (d0 + p.reverse()).contains(y) <==> (d0.contains(y) || p.contains(y)),
{
    let r = p.reverse();
    let d = d0 + r;
    let l = p.len();
    assert(r.len() == l);
    assert forall|k: int| 0 <= k < l implies #[trigger] r[k] == p[l - 1 - k] by {}
    assert forall|x: int, y: int| 0 <= x < d.len() && 0 <= y < d.len() && x != y implies d[x] != d[y] by {
        if x >= d0.len() && y >= d0.len() {
            assert(r[x - d0.len()] == p[l - 1 - (x - d0.len())]);
            assert(r[y - d0.len()] == p[l - 1 - (y - d0.len())]);
        } else if x >= d0.len() {
            assert(r[x - d0.len()] == p[l - 1 - (x - d0.len())]);
            assert(d0.contains(d[y]));
        } else if y >= d0.len() {
            assert(r[y - d0.len()] == p[l - 1 - (y - d0.len())]);
            assert(d0.contains(d[x]));
        }
    }
    assert forall|i: int| 0 <= i < d.len() && m.dom().contains(#[trigger] d[i]) && m[d[i]] != d[i] implies exists|j: int|
        0 <= j < i && d[j] == m[d[i]] by {
        if i < d0.len() {
            assert(d[i] == d0[i]);
            let j = choose|j: int| 0 <= j < i && d0[j] == m[d0[i]];
            assert(d[j] == d0[j]);
        } else {
            let k = i - d0.len();
            let q = l - 1 - k;
            assert(d[i] == p[q]);
            if q < l - 1 {
                assert(d[i - 1] == r[k - 1]);
                assert(r[k - 1] == p[l - 1 - (k - 1)]);
            } else {
                let j = choose|j: int| 0 <= j < d0.len() && d0[j] == m[p.last()];
                assert(d[j] == d0[j]);
            }
        }
    }
    assert forall|y: Seq<char>| d.contains(y) <==> (d0.contains(y) || p.contains(y)) by {
        if d.contains(y) {
            let i = choose|i: int| 0 <= i < d.len() && d[i] == y;
            if i >= d0.len() {
                assert(r[i - d0.len()] == p[l - 1 - (i - d0.len())]);
            } else {
                assert(d0[i] == y);
            }
        }
        if d0.contains(y) {
            let i = choose|i: int| 0 <= i < d0.len() && d0[i] == y;
            assert(d[i] == y);
        }
        if p.contains(y) {
            let i = choose|i: int| 0 <= i < l && p[i] == y;
            assert(r[l - 1 - i] == p[i]);
            assert(d[d0.len() + l - 1 - i] == y);
        }
    }
}

/// An order of the theories of the graph, and of the syntax categories they
/// depend on, in which every syntax category comes before the theories that
/// depend on it. It exists exactly when none of them lies on a cycle; else
/// the error names one that does.
pub fn topological_order(graph: &SyntaxDependencyGraph) -> (r: Result<Vec<TheoryId>, GraphError>)
    requires
        graph.wf(),
    ensures
        match r {
            Ok(order) => {
                &&& ids(order@).no_duplicates()
                &&& forall|y: Seq<char>| ids(order@).contains(y) <==> below_keys(graph@, y)
                &&& bases_first(graph@, ids(order@))
            },
            Err(e) => e matches GraphError::SyntaxCycle(t) && on_cycle(graph@, t@) && below_keys(graph@, t@),
        },
        r is Ok <==> !exists|y: Seq<char>| below_keys(graph@, y) && on_cycle(graph@, y),
{
    let g = &graph.edges;
    let ghost m = graph@;
    let mut done: Vec<String> = Vec::new();
    let mut i: usize = 0;
    proof {
        assert(names(done@) =~= Seq::<Seq<char>>::empty());
    }
    while i < g.len()
        invariant
            i <= g.len(),
            m == graph@,
            m == edge_map(g@),
            distinct_keys(g@),
            names(done@).no_duplicates(),
            forall|y: Seq<char>| names(done@).contains(y) ==> below_keys(m, y),
            bases_first(m, names(done@)),
            forall|j: int| 0 <= j < i ==> names(done@).contains((#[trigger] g@[j]).0@),
        decreases g.len() - i,
    {
        let t = &g[i].0;
        proof {
            lemma_edge_map_at(g@, i as int);
        }
        if !contains_name(&done, t.as_str()) {
            let mut path: Vec<String> = Vec::new();
            let mut cur: String = t.clone();
            proof {
                assert(names(path@) =~= Seq::<Seq<char>>::empty());
                assert(universe(g@)[i as int] == t@);
            }
            loop
                invariant_except_break
                    m == graph@,
                    m == edge_map(g@),
                    distinct_keys(g@),
                    m.dom().contains(t@),
                    !names(done@).contains(t@),
                    names(path@).no_duplicates(),
                    forall|k: int| 0 <= k < path@.len() ==> !names(done@).contains(#[trigger] names(path@)[k]),
                    forall|k: int| 0 <= k < path@.len() ==> #[trigger] follow(m, t@, k as nat) == Some(names(path@)[k]),
                    follow(m, t@, path@.len()) == Some(cur@),
                    forall|k: int|
                        0 <= k < path@.len() - 1 ==> m.dom().contains(#[trigger] names(path@)[k]) && m[names(path@)[k]]
                            == names(path@)[k + 1] && names(path@)[k + 1] != names(path@)[k],
                    path@.len() > 0 ==> m.dom().contains(names(path@).last()) && m[names(path@).last()] == cur@
                        && cur@ != names(path@).last(),
                    forall|x: Seq<char>| names(path@).contains(x) ==> universe(g@).contains(x),
                    universe(g@).contains(cur@),
                ensures
                    names(path@).no_duplicates(),
                    path@.len() > 0,
                    forall|k: int| 0 <= k < path@.len() ==> !names(done@).contains(#[trigger] names(path@)[k]),
                    forall|k: int| 0 <= k < path@.len() ==> #[trigger] follow(m, t@, k as nat) == Some(names(path@)[k]),
                    forall|k: int|
                        0 <= k < path@.len() - 1 ==> m.dom().contains(#[trigger] names(path@)[k]) && m[names(path@)[k]]
                            == names(path@)[k + 1] && names(path@)[k + 1] != names(path@)[k],
                    m.dom().contains(names(path@).last()) && m[names(path@).last()] != names(path@).last()
                        ==> names(done@).contains(m[names(path@).last()]),
                decreases 2 * g@.len() - path@.len(),
            {
                if contains_name(&done, cur.as_str()) {
                    break;
                }
                if contains_name(&path, cur.as_str()) {
                    proof {
                        let q = choose|q: int| 0 <= q < path@.len() && #[trigger] names(path@)[q] == cur@;
                        let n = (path@.len() - q) as nat;
                        lemma_follow_add(m, t@, q as nat, n);
                        assert(follow(m, cur@, n) == Some(cur@));
                        if q < path@.len() - 1 {
                            assert(m[names(path@)[q]] == names(path@)[q + 1]);
                        }
                        assert(on_cycle(m, cur@));
                        assert(reaches(m, t@, cur@));
                        assert(below_keys(m, cur@));
                        assert(below_keys(graph@, cur@) && on_cycle(graph@, cur@));
                    }
                    return Err(GraphError::SyntaxCycle(TheoryId(cur)));
                }
                let ghost before = path@;
                path.push(cur.clone());
                proof {
                    assert(names(path@) =~= names(before).push(cur@));
                    assert(names(path@).no_duplicates());
                    assert(forall|x: Seq<char>| names(path@).contains(x) ==> universe(g@).contains(x));
                    lemma_distinct_within(names(path@), universe(g@));
                }
                match base_of(g, cur.as_str()) {
                    Some(b) => {
                        if text_eq(b.as_str(), cur.as_str()) {
                            break;
                        }
                        proof {
                            let k = choose|k: int| 0 <= k < g@.len() && (#[trigger] g@[k]).0@ == cur@;
                            lemma_edge_map_at(g@, k);
                            assert(universe(g@)[g@.len() + k] == g@[k].1@);
                            lemma_follow_add(m, t@, before.len(), 1);
                            assert(follow(m, cur@, 1) == Some(b@)) by {
                                assert(follow(m, cur@, 0) == Some(cur@));
                            }
                        }
                        cur = b.clone();
                    },
                    None => {
                        break;
                    },
                }
            }
            let ghost d0 = done@;
            let mut q: usize = path.len();
            while q > 0
                invariant
                    q <= path@.len(),
                    done@.len() == d0.len() + (path@.len() - q),
                    forall|k: int| 0 <= k < d0.len() ==> done@[k] == d0[k],
                    forall|k: int| d0.len() <= k < done@.len() ==> #[trigger] done@[k] == path@[path@.len() - 1 - (k - d0.len())],
                decreases q,
            {
                q = q - 1;
                done.push(path[q].clone());
            }
            proof {
                let p = names(path@);
                assert(names(done@) =~= names(d0) + p.reverse());
                lemma_append_chain(m, names(d0), p);
                assert forall|y: Seq<char>| names(done@).contains(y) implies below_keys(m, y) by {
                    if p.contains(y) {
                        let k = choose|k: int| 0 <= k < p.len() && p[k] == y;
                        assert(follow(m, t@, k as nat) == Some(y));
                        assert(reaches(m, t@, y));
                    }
                }
                assert(follow(m, t@, 0) == Some(t@));
                assert(follow(m, t@, 0int as nat) == Some(p[0]));
                assert(p[0] == t@);
                assert forall|j: int| 0 <= j <= i implies names(done@).contains((#[trigger] g@[j]).0@) by {
                    if j < i {
                        assert(names(d0).contains(g@[j].0@));
                    }
                }
            }
        }
        i = i + 1;
    }
    let mut order: Vec<TheoryId> = Vec::new();
    let mut k: usize = 0;
    while k < done.len()
        invariant
            k <= done@.len(),
            order@.len() == k,
            forall|j: int| 0 <= j < k ==> (#[trigger] order@[j])@ == done@[j]@,
        decreases done@.len() - k,
    {
        order.push(TheoryId(done[k].clone()));
        k = k + 1;
    }
    proof {
        assert(ids(order@) =~= names(done@));
        assert forall|y: Seq<char>| below_keys(m, y) implies names(done@).contains(y) by {
            let key = choose|key: Seq<char>| m.dom().contains(key) && #[trigger] reaches(m, key, y);
            let n = choose|n: nat| #[trigger] follow(m, key, n) == Some(y);
            let j = choose|j: int| 0 <= j < g@.len() && (#[trigger] g@[j]).0@ == key;
            assert(names(done@).contains(g@[j].0@));
            lemma_follow_stays(m, names(done@), key, n);
        }
        assert forall|y: Seq<char>| below_keys(m, y) implies !on_cycle(m, y) by {
            let j = choose|j: int| 0 <= j < names(done@).len() && names(done@)[j] == y;
            lemma_not_on_cycle(m, names(done@), j);
        }
    }
    Ok(order)
}

/// `c` names a theory of the set or the builtin `nat`.
pub open spec fn known_category(s: RawTheorySetV, c: Seq<char>) -> bool {
    c == nat_name() || s.theories.dom().contains(c)
}

/// `t` is a theory of the set whose syntax category is unknown.
pub open spec fn unknown_category(s: RawTheorySetV, t: Seq<char>) -> bool {
    s.theories.dom().contains(t) && !known_category(s, s.theories[t].syntax_category)
}

/// The syntax dependencies of a set: `nat` to itself, each theory to its
/// syntax category.
pub open spec fn dependency_map(s: RawTheorySetV) -> Map<Seq<char>, Seq<char>> {
    Map::new(
        |k: Seq<char>| k == nat_name() || s.theories.dom().contains(k),
        |k: Seq<char>| if s.theories.dom().contains(k) {
            s.theories[k].syntax_category
        } else {
            nat_name()
        },
    )
}

/// `t` is a theory of the set, other than `nat`, that is its own syntax
/// category: a cycle of one theory.
pub open spec fn self_based(s: RawTheorySetV, t: Seq<char>) -> bool {
    s.theories.dom().contains(t) && t != nat_name() && s.theories[t].syntax_category == t
}

/// `t` is a theory of the set whose syntax category is unknown or itself.
pub open spec fn invalid_base(s: RawTheorySetV, t: Seq<char>) -> bool {
    unknown_category(s, t) || self_based(s, t)
}

/// The error of the first theory, in name order, whose syntax category is
/// unknown or itself.
pub open spec fn first_invalid_error(s: RawTheorySetV, e: GraphErrV) -> bool {
    exists|t: Seq<char>|
        #[trigger] invalid_base(s, t) && (forall|x: Seq<char>| invalid_base(s, x) ==> !seq_lt(x, t)) && e == (if unknown_category(
            s,
            t,
        ) {
            GraphErrV::UnknownSyntaxCategory(t, s.theories[t].syntax_category)
        } else {
            GraphErrV::SyntaxCycle(t)
        })
}

/// The syntax-category dependency graph of a raw theory set. Fails with the
/// first theory, in name order, whose syntax category is neither a theory
/// of the set nor `nat`, or is the theory itself (a cycle; only `nat` is
/// its own syntax category).
pub fn syntax_dependency_graph(raw: &RawTheorySet) -> (r: Result<SyntaxDependencyGraph, GraphError>)
    requires
        raw.wf(),
    ensures
        match r {
            Ok(g) => {
                &&& g.wf()
                &&& forall|t: Seq<char>| !invalid_base(raw@, t)
                &&& g@ == dependency_map(raw@)
            },
            Err(e) => first_invalid_error(raw@, e@),
        },
{
    let ts = &raw.theories;
    let has_nat = raw.theory("nat").is_some();
    let mut edges: Vec<(String, String)> = Vec::new();
    if !has_nat {
        edges.push(("nat".to_string(), "nat".to_string()));
    }
    let ghost off: int = if has_nat { 0 } else { 1 };
    let mut i: usize = 0;
    proof {
        lemma_keyed_map(ts@);
    }
    while i < ts.len()
        invariant
            raw.wf(),
            ts == &raw.theories,
            has_nat == raw@.theories.dom().contains(nat_name()),
            off == (if has_nat { 0int } else { 1int }),
            i <= ts@.len(),
            edges@.len() == off + i,
            !has_nat ==> edges@[0].0@ == nat_name() && edges@[0].1@ == nat_name(),
            forall|j: int| off <= j < edges@.len() ==> (#[trigger] edges@[j]).0@ == ts@[j - off].name@ && edges@[j].1@ == ts@[j - off].syntax_category@,
            forall|j: int| 0 <= j < i ==> !invalid_base(raw@, #[trigger] ts@[j].name@),
        decreases ts@.len() - i,
    {
        let th = &ts[i];
        let c = &th.syntax_category;
        proof {
            lemma_keyed_map(ts@);
            assert(ts@[i as int].key_of() == th.name@);
            assert(has_key(ts@, th.name@));
            assert(keyed_map(ts@)[th.name@] == ts@[i as int]);
            assert(raw@.theories.dom().contains(th.name@));
            assert(raw@.theories[th.name@] == th@);
        }
        let known = text_eq(c.as_str(), "nat") || raw.theory(c.as_str()).is_some();
        let looped = known && text_eq(c.as_str(), th.name.as_str()) && !text_eq(th.name.as_str(), "nat");
        if !known || looped {
            proof {
                let t = th.name@;
                assert(invalid_base(raw@, t));
                assert forall|x: Seq<char>| invalid_base(raw@, x) implies !seq_lt(x, t) by {
                    let j = choose|j: int| 0 <= j < ts@.len() && #[trigger] ts@[j].key_of() == x;
                    if j < i {
                        assert(!invalid_base(raw@, ts@[j].name@));
                    } else if j > i {
                        crate::order::lemma_lt_asymmetric(t, x);
                    } else {
                        crate::order::lemma_lt_irreflexive(t);
                    }
                }
            }
            if !known {
                proof {
                    let t = th.name@;
                    assert(first_invalid_error(raw@, GraphErrV::UnknownSyntaxCategory(t, raw@.theories[t].syntax_category)));
                }
                return Err(GraphError::UnknownSyntaxCategory { theory: TheoryId(th.name.clone()), base: c.clone() });
            }
            proof {
                let t = th.name@;
                assert(!unknown_category(raw@, t));
                assert(first_invalid_error(raw@, GraphErrV::SyntaxCycle(t)));
            }
            return Err(GraphError::SyntaxCycle(TheoryId(th.name.clone())));
        }
        edges.push((th.name.clone(), c.clone()));
        proof {
            assert(edges@[off + i].0@ == ts@[i as int].name@);
            assert(edges@[off + i].1@ == ts@[i as int].syntax_category@);
        }
        i = i + 1;
    }
    proof {
        lemma_keyed_map(ts@);
        let e = edges@;
        let m = dependency_map(raw@);
        assert(distinct_keys(e)) by {
            assert forall|a: int, b: int| 0 <= a < b < e.len() implies (#[trigger] e[a]).0@ != (#[trigger] e[b]).0@ by {
                if a >= off {
                    assert(e[a].0@ == ts@[a - off].name@);
                    assert(e[b].0@ == ts@[b - off].name@);
                    assert(seq_lt(ts@[a - off].key_of(), ts@[b - off].key_of()));
                    crate::order::lemma_lt_irreflexive(e[a].0@);
                } else {
                    assert(e[b].0@ == ts@[b - off].name@);
                    assert(ts@[b - off].key_of() == e[b].0@);
                    assert(has_key(ts@, e[b].0@));
                }
            }
        }
        assert forall|k: Seq<char>| #[trigger] edge_map(e).dom().contains(k) <==> m.dom().contains(k) by {
            if edge_map(e).dom().contains(k) {
                let j = choose|j: int| 0 <= j < e.len() && (#[trigger] e[j]).0@ == k;
                if j >= off {
                    assert(e[j].0@ == ts@[j - off].name@);
                    assert(ts@[j - off].key_of() == k);
                    assert(has_key(ts@, k));
                }
            }
            if m.dom().contains(k) {
                if raw@.theories.dom().contains(k) {
                    let j = choose|j: int| 0 <= j < ts@.len() && #[trigger] ts@[j].key_of() == k;
                    assert(e[off + j].0@ == k);
                } else {
                    assert(e[0].0@ == k);
                }
            }
        }
        assert forall|k: Seq<char>| #[trigger] edge_map(e).dom().contains(k) implies edge_map(e)[k] == m[k] by {
            let j = choose|j: int| 0 <= j < e.len() && (#[trigger] e[j]).0@ == k;
            lemma_edge_map_at(e, j);
            if j >= off {
                assert(e[j].0@ == ts@[j - off].name@);
                assert(ts@[j - off].key_of() == k);
                assert(keyed_map(ts@)[k] == ts@[j - off]);
                assert(raw@.theories[k] == ts@[j - off]@);
            } else {
                assert(!raw@.theories.dom().contains(k));
            }
        }
        assert(edge_map(e) =~= m);
        assert forall|t: Seq<char>| !unknown_category(raw@, t) by {
            if raw@.theories.dom().contains(t) {
                let j = choose|j: int| 0 <= j < ts@.len() && #[trigger] ts@[j].key_of() == t;
                assert(!unknown_category(raw@, ts@[j].name@));
            }
        }
    }
    Ok(SyntaxDependencyGraph { edges })
}

/// `x` is one of the roots, other than `nat`, or a syntax category that one
/// of them depends on.
pub open spec fn in_closure(m: Map<Seq<char>, Seq<char>>, roots: Seq<Seq<char>>, x: Seq<char>) -> bool {
    exists|i: int| 0 <= i < roots.len() && roots[i] != nat_name() && #[trigger] reaches(m, roots[i], x)
}

/// The `i`th root is the first that is neither `nat` nor a theory of the set.
pub open spec fn is_first_unknown_root(s: RawTheorySetV, roots: Seq<Seq<char>>, i: int) -> bool {
    &&& 0 <= i < roots.len()
    &&& roots[i] != nat_name()
    &&& !s.theories.dom().contains(roots[i])
    &&& forall|j: int| 0 <= j < i ==> #[trigger] roots[j] == nat_name() || s.theories.dom().contains(roots[j])
}

/// The extensions, in order, that extend a theory of `keep`.
pub open spec fn keep_extensions(xs: Seq<ExtensionV>, keep: Set<Seq<char>>) -> Seq<ExtensionV>
    decreases xs.len(),
{
    if xs.len() == 0 {
        Seq::empty()
    } else {
        let rest = keep_extensions(xs.drop_last(), keep);
        if keep.contains(xs.last().theory) {
            rest.push(xs.last())
        } else {
            rest
        }
    }
}

/// The roots, other than `nat`, and every syntax category they depend on.
pub open spec fn closure_set(m: Map<Seq<char>, Seq<char>>, roots: Seq<Seq<char>>) -> Set<Seq<char>> {
    Set::new(|x: Seq<char>| in_closure(m, roots, x))
}

/// A list closed under taking syntax categories holds everything that its
/// members depend on.
pub proof fn lemma_follow_closed(m: Map<Seq<char>, Seq<char>>, o: Seq<Seq<char>>, k: Seq<char>, n: nat)
    requires
        forall|x: Seq<char>| o.contains(x) && m.dom().contains(x) ==> o.contains(m[x]),
        o.contains(k),
    ensures
        follow(m, k, n) matches Some(z) ==> o.contains(z),
    decreases n,
{
    if n > 0 {
        lemma_follow_closed(m, o, k, (n - 1) as nat);
    }
}

/// The theories of a raw theory set that the given roots depend on, the
/// roots included, with the extensions of those theories. `nat` as a root
/// adds nothing. Fails as `syntax_dependency_graph` does, else with the
/// first root that is not a theory of the set.
pub fn transitive_dependency_subset(roots: &Vec<String>, raw: &RawTheorySet) -> (r: Result<RawTheorySet, GraphError>)
    requires
        raw.wf(),
    ensures
        (exists|t: Seq<char>| invalid_base(raw@, t)) ==> (r matches Err(e) && first_invalid_error(raw@, e@)),
        !(exists|t: Seq<char>| invalid_base(raw@, t)) ==> match r {
            Err(e) => exists|i: int| is_first_unknown_root(raw@, names(roots@), i) && e@ == GraphErrV::UnknownTheory(names(roots@)[i]),
            Ok(s) => {
                &&& s.wf()
                &&& forall|i: int| 0 <= i < roots@.len() ==> #[trigger] names(roots@)[i] == nat_name() || raw@.theories.dom().contains(names(roots@)[i])
                &&& s@.theories == raw@.theories.restrict(closure_set(dependency_map(raw@), names(roots@)))
                &&& s@.extensions == keep_extensions(raw@.extensions, closure_set(dependency_map(raw@), names(roots@)))
            },
        },
{
    let graph = match syntax_dependency_graph(raw) {
        Ok(g) => g,
        Err(e) => {
            return Err(e);
        },
    };
    let included = closure_of_roots(roots, raw, &graph)?;
    let theories = select_theories(&raw.theories, &included);
    let extensions = select_extensions(&raw.extensions, &included);
    proof {
        assert(Set::new(|x: Seq<char>| names(included@).contains(x)) =~= closure_set(dependency_map(raw@), names(roots@)));
    }
    Ok(RawTheorySet { theories, extensions })
}

/// The theories of a sorted list whose names are in `included`.
fn select_theories(ts: &Vec<RawTheory>, included: &Vec<String>) -> (r: Vec<RawTheory>)
    requires
        sorted_keys(ts@),
        forall|k: int| 0 <= k < ts@.len() ==> (#[trigger] ts@[k]).wf(),
    ensures
        sorted_keys(r@),
        forall|k: int| 0 <= k < r@.len() ==> (#[trigger] r@[k]).wf(),
        theory_map(r@) == theory_map(ts@).restrict(Set::new(|x: Seq<char>| names(included@).contains(x))),
{
    let ghost keep = Set::new(|x: Seq<char>| names(included@).contains(x));
    let mut res: Vec<RawTheory> = Vec::new();
    let mut i: usize = 0;
    proof {
        assert(theory_map(res@) =~= theory_map(ts@.take(0)).restrict(keep));
    }
    while i < ts.len()
        invariant
            i <= ts@.len(),
            sorted_keys(ts@),
            forall|k: int| 0 <= k < ts@.len() ==> (#[trigger] ts@[k]).wf(),
            keep == Set::new(|x: Seq<char>| names(included@).contains(x)),
            sorted_keys(res@),
            forall|k: int| 0 <= k < res@.len() ==> (#[trigger] res@[k]).wf(),
            forall|k: int| 0 <= k < res@.len() ==> exists|j: int| 0 <= j < i && #[trigger] res@[k].key_of() == ts@[j].key_of(),
            theory_map(res@) == theory_map(ts@.take(i as int)).restrict(keep),
        decreases ts@.len() - i,
    {
        proof {
            assert(ts@.take(i + 1).drop_last() =~= ts@.take(i as int));
            assert(keyed_map(ts@.take(i + 1)) == keyed_map(ts@.take(i as int)).insert(ts@[i as int].key_of(), ts@[i as int]));
            assert(theory_map(ts@.take(i + 1)) =~= theory_map(ts@.take(i as int)).insert(ts@[i as int]@.name, ts@[i as int]@));
        }
        if contains_name(included, ts[i].name.as_str()) {
            let t = ts[i].copy();
            let ghost before = res@;
            proof {
                assert forall|k: int| 0 <= k < before.len() implies seq_lt(#[trigger] before[k].key_of(), t.key_of()) by {
                    let j = choose|j: int| 0 <= j < i && #[trigger] before[k].key_of() == ts@[j].key_of();
                }
            }
            res.push(t);
            proof {
                assert(res@.drop_last() =~= before);
                assert(keyed_map(res@) == keyed_map(before).insert(t.key_of(), t));
                assert(theory_map(res@) =~= theory_map(before).insert(t@.name, t@));
                assert(theory_map(res@) =~= theory_map(ts@.take(i + 1)).restrict(keep));
                assert forall|a: int, b: int| 0 <= a < b < res@.len() implies seq_lt(#[trigger] res@[a].key_of(), #[trigger] res@[b].key_of()) by {
                    assert(res@[a] == before[a]);
                    if b < before.len() {
                        assert(res@[b] == before[b]);
                    }
                }
                assert forall|k: int| 0 <= k < res@.len() implies exists|j: int| 0 <= j < i + 1 && #[trigger] res@[k].key_of() == ts@[j].key_of() by {
                    if k < before.len() {
                        assert(res@[k] == before[k]);
                        let j = choose|j: int| 0 <= j < i && #[trigger] before[k].key_of() == ts@[j].key_of();
                    } else {
                        assert(res@[k].key_of() == ts@[i as int].key_of());
                    }
                }
            }
        } else {
            proof {
                assert(theory_map(res@) =~= theory_map(ts@.take(i + 1)).restrict(keep));
            }
        }
        i = i + 1;
    }
    proof {
        assert(ts@.take(ts@.len() as int) =~= ts@);
    }
    res
}

/// The extensions, in order, whose theory is in `included`.
fn select_extensions(xs: &Vec<Extension>, included: &Vec<String>) -> (r: Vec<Extension>)
    requires
        forall|k: int| 0 <= k < xs@.len() ==> (#[trigger] xs@[k]).wf(),
    ensures
        forall|k: int| 0 <= k < r@.len() ==> (#[trigger] r@[k]).wf(),
        extensions_view(r@) == keep_extensions(extensions_view(xs@), Set::new(|x: Seq<char>| names(included@).contains(x))),
{
    let ghost keep = Set::new(|x: Seq<char>| names(included@).contains(x));
    let mut res: Vec<Extension> = Vec::new();
    let mut i: usize = 0;
    proof {
        assert(extensions_view(xs@.take(0)) =~= Seq::<ExtensionV>::empty());
        assert(extensions_view(res@) =~= Seq::<ExtensionV>::empty());
    }
    while i < xs.len()
        invariant
            i <= xs@.len(),
            forall|k: int| 0 <= k < xs@.len() ==> (#[trigger] xs@[k]).wf(),
            keep == Set::new(|x: Seq<char>| names(included@).contains(x)),
            forall|k: int| 0 <= k < res@.len() ==> (#[trigger] res@[k]).wf(),
            extensions_view(res@) == keep_extensions(extensions_view(xs@.take(i as int)), keep),
        decreases xs@.len() - i,
    {
        proof {
            assert(extensions_view(xs@.take(i + 1)) =~= extensions_view(xs@.take(i as int)).push(xs@[i as int]@));
            assert(extensions_view(xs@.take(i + 1)).drop_last() =~= extensions_view(xs@.take(i as int)));
        }
        if contains_name(included, xs[i].theory.as_str()) {
            let x = xs[i].copy();
            let ghost before = res@;
            res.push(x);
            proof {
                assert(extensions_view(res@) =~= extensions_view(before).push(x@));
            }
        }
        i = i + 1;
    }
    proof {
        assert(xs@.take(xs@.len() as int) =~= xs@);
    }
    res
}

/// The subset cut out for some roots holds the syntax category of each of
/// its theories, unless that category is `nat`.
pub proof fn lemma_subset_closed(s: RawTheorySetV, roots: Seq<Seq<char>>)
    requires
        forall|t: Seq<char>| !unknown_category(s, t),
    ensures
        forall|t: Seq<char>| #[trigger] s.theories.restrict(closure_set(dependency_map(s), roots)).dom().contains(t) ==> {
            let c = s.theories[t].syntax_category;
            c == nat_name() || s.theories.restrict(closure_set(dependency_map(s), roots)).dom().contains(c)
        },
{
    let m = dependency_map(s);
    let sub = s.theories.restrict(closure_set(m, roots));
    assert forall|t: Seq<char>| #[trigger] sub.dom().contains(t) implies {
        let c = s.theories[t].syntax_category;
        c == nat_name() || sub.dom().contains(c)
    } by {
        let c = s.theories[t].syntax_category;
        assert(in_closure(m, roots, t));
        let i = choose|i: int| 0 <= i < roots.len() && roots[i] != nat_name() && #[trigger] reaches(m, roots[i], t);
        let n = choose|n: nat| #[trigger] follow(m, roots[i], n) == Some(t);
        assert(follow(m, roots[i], n + 1) == Some(c));
        assert(reaches(m, roots[i], c));
        assert(in_closure(m, roots, c));
        assert(!unknown_category(s, t));
    }
}

/// The roots, other than `nat`, and every syntax category they depend on;
/// fails with the first root that is neither `nat` nor a theory of the set.
fn closure_of_roots(roots: &Vec<String>, raw: &RawTheorySet, graph: &SyntaxDependencyGraph) -> (r: Result<Vec<String>, GraphError>)
    requires
        raw.wf(),
        graph.wf(),
        graph@ == dependency_map(raw@),
    ensures
        match r {
            Err(e) => exists|i: int| is_first_unknown_root(raw@, names(roots@), i) && e@ == GraphErrV::UnknownTheory(names(roots@)[i]),
            Ok(inc) => {
                &&& forall|i: int| 0 <= i < roots@.len() ==> #[trigger] names(roots@)[i] == nat_name() || raw@.theories.dom().contains(names(roots@)[i])
                &&& forall|x: Seq<char>| names(inc@).contains(x) <==> in_closure(graph@, names(roots@), x)
            },
        },
{
    let g = &graph.edges;
    let ghost m = graph@;
    let ghost rs = names(roots@);
    let mut included: Vec<String> = Vec::new();
    let mut ri: usize = 0;
    proof {
        assert(names(included@) =~= Seq::<Seq<char>>::empty());
        assert forall|x: Seq<char>| !in_closure(m, rs.take(0), x) by {}
    }
    while ri < roots.len()
        invariant
            raw.wf(),
            m == graph@,
            m == dependency_map(raw@),
            m == edge_map(g@),
            distinct_keys(g@),
            rs == names(roots@),
            ri <= roots@.len(),
            names(included@).no_duplicates(),
            forall|x: Seq<char>| names(included@).contains(x) ==> universe(g@).contains(x),
            forall|x: Seq<char>| names(included@).contains(x) && m.dom().contains(x) ==> names(included@).contains(m[x]),
            forall|x: Seq<char>| names(included@).contains(x) <==> in_closure(m, rs.take(ri as int), x),
            forall|j: int| 0 <= j < ri ==> #[trigger] rs[j] == nat_name() || raw@.theories.dom().contains(rs[j]),
        decreases roots@.len() - ri,
    {
        let root = &roots[ri];
        let ghost inc0 = names(included@);
        proof {
            assert(rs[ri as int] == root@);
        }
        if !text_eq(root.as_str(), "nat") {
            if raw.theory(root.as_str()).is_none() {
                proof {
                    assert(is_first_unknown_root(raw@, rs, ri as int));
                }
                return Err(GraphError::UnknownTheory(root.clone()));
            }
            proof {
                assert(m.dom().contains(root@));
                let k = choose|k: int| 0 <= k < g@.len() && (#[trigger] g@[k]).0@ == root@;
                assert(universe(g@)[k] == root@);
            }
            let mut cur: String = root.clone();
            let ghost mut steps: nat = 0;
            loop
                invariant_except_break
                    m == edge_map(g@),
                    distinct_keys(g@),
                    names(included@).no_duplicates(),
                    names(included@).len() == inc0.len() + steps,
                    forall|k: int| 0 <= k < inc0.len() ==> names(included@)[k] == inc0[k],
                    forall|k: int| 0 <= k < steps ==> #[trigger] follow(m, root@, k as nat) == Some(names(included@)[inc0.len() + k]),
                    follow(m, root@, steps) == Some(cur@),
                    forall|x: Seq<char>| inc0.contains(x) && m.dom().contains(x) ==> inc0.contains(m[x]),
                    forall|k: int|
                        inc0.len() <= k < names(included@).len() - 1 ==> m.dom().contains(#[trigger] names(included@)[k])
                            && m[names(included@)[k]] == names(included@)[k + 1],
                    steps > 0 ==> m.dom().contains(names(included@).last()) && m[names(included@).last()] == cur@,
                    forall|x: Seq<char>| names(included@).contains(x) ==> universe(g@).contains(x),
                    universe(g@).contains(cur@),
                ensures
                    names(included@).no_duplicates(),
                    forall|x: Seq<char>| names(included@).contains(x) ==> universe(g@).contains(x),
                    forall|x: Seq<char>| names(included@).contains(x) && m.dom().contains(x) ==> names(included@).contains(m[x]),
                    names(included@).contains(root@),
                    forall|x: Seq<char>| names(included@).contains(x) ==> inc0.contains(x) || reaches(m, root@, x),
                    forall|x: Seq<char>| inc0.contains(x) ==> names(included@).contains(x),
                decreases universe(g@).len() - included@.len(),
            {
                let ghost before = names(included@);
                proof {
                    assert forall|x: Seq<char>| inc0.contains(x) implies before.contains(x) by {
                        let k = choose|k: int| 0 <= k < inc0.len() && inc0[k] == x;
                        assert(before[k] == x);
                    }
                    assert forall|x: Seq<char>| before.contains(x) implies inc0.contains(x) || reaches(m, root@, x) by {
                        let k = choose|k: int| 0 <= k < before.len() && before[k] == x;
                        if k >= inc0.len() {
                            assert(follow(m, root@, (k - inc0.len()) as nat) == Some(before[inc0.len() + (k - inc0.len())]));
                        } else {
                            assert(inc0[k] == x);
                        }
                    }
                    if steps == 0 {
                        assert(cur@ == root@);
                    } else {
                        assert(follow(m, root@, 0int as nat) == Some(before[inc0.len() as int]));
                        assert(before.contains(root@));
                    }
                }
                if contains_name(&included, cur.as_str()) {
                    proof {
                        assert forall|x: Seq<char>| before.contains(x) && m.dom().contains(x) implies before.contains(m[x]) by {
                            let k = choose|k: int| 0 <= k < before.len() && before[k] == x;
                            if k < inc0.len() {
                                assert(inc0[k] == x);
                                let k2 = choose|k2: int| 0 <= k2 < inc0.len() && inc0[k2] == m[x];
                                assert(before[k2] == m[x]);
                            } else if k < before.len() - 1 {
                                assert(before[k + 1] == m[x]);
                            }
                        }
                    }
                    break;
                }
                included.push(cur.clone());
                let ghost now = names(included@);
                proof {
                    assert(now =~= before.push(cur@));
                    lemma_distinct_within(now, universe(g@));
                    assert(follow(m, root@, (now.len() - 1 - inc0.len()) as nat) == Some(now.last()));
                    assert forall|x: Seq<char>| before.contains(x) implies now.contains(x) by {
                        let k = choose|k: int| 0 <= k < before.len() && before[k] == x;
                        assert(now[k] == x);
                    }
                    assert(now[now.len() - 1] == cur@);
                    assert(now.contains(root@));
                    assert forall|x: Seq<char>| now.contains(x) implies inc0.contains(x) || reaches(m, root@, x) by {
                        let k = choose|k: int| 0 <= k < now.len() && now[k] == x;
                        if k < before.len() {
                            assert(before[k] == x);
                        } else {
                            assert(follow(m, root@, steps) == Some(x));
                        }
                    }
                }
                match base_of(g, cur.as_str()) {
                    Some(b) => {
                        if text_eq(b.as_str(), cur.as_str()) {
                            proof {
                                assert forall|x: Seq<char>| now.contains(x) && m.dom().contains(x) implies now.contains(m[x]) by {
                                    let k = choose|k: int| 0 <= k < now.len() && now[k] == x;
                                    if k < inc0.len() {
                                        assert(inc0[k] == x);
                                        let k2 = choose|k2: int| 0 <= k2 < inc0.len() && inc0[k2] == m[x];
                                        assert(now[k2] == m[x]);
                                    } else if k < now.len() - 1 {
                                        assert(now[k + 1] == m[x]);
                                    }
                                }
                            }
                            break;
                        }
                        proof {
                            let k = choose|k: int| 0 <= k < g@.len() && (#[trigger] g@[k]).0@ == cur@;
                            lemma_edge_map_at(g@, k);
                            assert(universe(g@)[g@.len() + k] == g@[k].1@);
                            lemma_follow_add(m, root@, steps, 1);
                            assert(follow(m, cur@, 1) == Some(b@)) by {
                                assert(follow(m, cur@, 0) == Some(cur@));
                            }
                        }
                        cur = b.clone();
                        proof {
                            steps = steps + 1;
                        }
                    },
                    None => {
                        proof {
                            assert forall|x: Seq<char>| now.contains(x) && m.dom().contains(x) implies now.contains(m[x]) by {
                                let k = choose|k: int| 0 <= k < now.len() && now[k] == x;
                                if k < inc0.len() {
                                    assert(inc0[k] == x);
                                    let k2 = choose|k2: int| 0 <= k2 < inc0.len() && inc0[k2] == m[x];
                                    assert(now[k2] == m[x]);
                                } else if k < now.len() - 1 {
                                    assert(now[k + 1] == m[x]);
                                }
                            }
                        }
                        break;
                    },
                }
            }
            proof {
                let now = names(included@);
                assert forall|x: Seq<char>| now.contains(x) <==> in_closure(m, rs.take(ri + 1), x) by {
                    if now.contains(x) {
                        if inc0.contains(x) {
                            assert(in_closure(m, rs.take(ri as int), x));
                            let i = choose|i: int| 0 <= i < rs.take(ri as int).len() && rs.take(ri as int)[i] != nat_name() && #[trigger] reaches(m, rs.take(ri as int)[i], x);
                            assert(rs.take(ri + 1)[i] == rs.take(ri as int)[i]);
                            assert(reaches(m, rs.take(ri + 1)[i], x));
                        } else {
                            assert(rs.take(ri + 1)[ri as int] == root@);
                            assert(reaches(m, root@, x));
                            assert(reaches(m, rs.take(ri + 1)[ri as int], x));
                        }
                        assert(in_closure(m, rs.take(ri + 1), x));
                    }
                    if in_closure(m, rs.take(ri + 1), x) {
                        let i = choose|i: int| 0 <= i < rs.take(ri + 1).len() && rs.take(ri + 1)[i] != nat_name() && #[trigger] reaches(m, rs.take(ri + 1)[i], x);
                        if i < ri {
                            assert(rs.take(ri as int)[i] == rs.take(ri + 1)[i]);
                            assert(reaches(m, rs.take(ri as int)[i], x));
                            assert(in_closure(m, rs.take(ri as int), x));
                            assert(inc0.contains(x));
                        } else {
                            assert(rs.take(ri + 1)[i] == root@);
                            let n = choose|n: nat| #[trigger] follow(m, root@, n) == Some(x);
                            lemma_follow_closed(m, now, root@, n);
                        }
                        assert(now.contains(x));
                    }
                }
            }
        } else {
            proof {
                assert forall|x: Seq<char>| in_closure(m, rs.take(ri + 1), x) <==> in_closure(m, rs.take(ri as int), x) by {
                    if in_closure(m, rs.take(ri + 1), x) {
                        let i = choose|i: int| 0 <= i < rs.take(ri + 1).len() && rs.take(ri + 1)[i] != nat_name() && #[trigger] reaches(m, rs.take(ri + 1)[i], x);
                        assert(rs.take(ri as int)[i] == rs.take(ri + 1)[i]);
                    }
                    if in_closure(m, rs.take(ri as int), x) {
                        let i = choose|i: int| 0 <= i < rs.take(ri as int).len() && rs.take(ri as int)[i] != nat_name() && #[trigger] reaches(m, rs.take(ri as int)[i], x);
                        assert(rs.take(ri + 1)[i] == rs.take(ri as int)[i]);
                    }
                }
            }
        }
        ri = ri + 1;
    }
    proof {
        assert(rs.take(roots@.len() as int) =~= rs);
    }
    Ok(included)
}

} // verus!
