//! Resolving a raw theory set: each theory's type maps are interpreted in
//! its syntax category, in an order where every syntax category comes
//! first, and its definitions in the theory itself.
use vstd::prelude::*;
use open_hypergraphs::lax::NodeId;
use crate::expr::{Expr, ExprV, LabelledVar, expr_text, expr_view, write_expr};
use crate::graph::{
    GraphErrV, GraphError, TheoryId, bases_first, below_keys, dependency_map, first_invalid_error, ids,
    invalid_base, nat_name, on_cycle, syntax_dependency_graph, topological_order,
};
use crate::hypergraph::{GraphView, Hyperedge, Hypergraph, OpenHypergraph};
use crate::expr::parsed_hexprs;
use crate::load::{LoadErrV, LoadError, input_view, merge_all, merge_raw_sets, normalize_nat_hexpr, normalized, parse_usize};
use crate::raw::{
    ArrowV, Keyed, RawTheory, RawTheoryArrow, RawTheorySet, RawTheorySetV, has_key, keyed_map, lemma_keyed_map,
    lemma_position_has_key, position, theory_map, ParseErrV, ParseRawError, raw_set_of, RawFile, raw_file_of,
    ExtensionV, RawTheoryV,
};
use crate::text::{push_str, text_eq};

verus! {

#[verifier::external_type_specification]
#[verifier::external_body]
pub struct ExOperation(hexpr::Operation);

/// The operations a hypergraph may be built from.
#[derive(Debug)]
pub enum SignatureTable {
    /// The builtin `nat`: each decimal numeral `n` names an operation with no
    /// inputs and `n` outputs.
    Nat,
    /// Named operations, each with its numbers of inputs and outputs.
    Table(Vec<(String, usize, usize)>),
}

/// A signature as a plain value.
pub enum SigV {
    Nat,
    Table(Map<Seq<char>, (usize, usize)>),
}

/// The operations of a list, by name; a later entry wins.
pub open spec fn table_map(v: Seq<(String, usize, usize)>) -> Map<Seq<char>, (usize, usize)>
    decreases v.len(),
{
    if v.len() == 0 {
        Map::empty()
    } else {
        table_map(v.drop_last()).insert(v.last().0@, (v.last().1, v.last().2))
    }
}

impl View for SignatureTable {
    type V = SigV;

    open spec fn view(&self) -> SigV {
        match self {
            SignatureTable::Nat => SigV::Nat,
            SignatureTable::Table(v) => SigV::Table(table_map(v@)),
        }
    }
}

/// The name of a `hexpr` operation, as text.
#[verifier::external_body]
fn operation_name(op: &hexpr::Operation) -> String {
    op.as_str().to_string()
}

/// `n` untyped wires.
fn wires(n: usize) -> (r: Vec<Option<()>>)
    ensures
        r.len() == n,
{
    let mut v: Vec<Option<()>> = Vec::new();
    while v.len() < n
        invariant
            v.len() <= n,
        decreases n - v.len(),
    {
        v.push(Some(()));
    }
    v
}

/// The entry named `name` of a table, searched from the end.
fn table_entry(v: &Vec<(String, usize, usize)>, name: &str) -> (r: Option<(usize, usize)>)
    ensures
        match r {
            Some(p) => table_map(v@).dom().contains(name@) && table_map(v@)[name@] == p,
            None => !table_map(v@).dom().contains(name@),
        },
    decreases v.len(),
{
    let mut i: usize = v.len();
    assert(v@.take(i as int) =~= v@);
    while i > 0
        invariant
            i <= v.len(),
            table_map(v@).dom().contains(name@) == table_map(v@.take(i as int)).dom().contains(name@),
            table_map(v@).dom().contains(name@) ==> table_map(v@)[name@] == table_map(v@.take(i as int))[name@],
        decreases i,
    {
        let k = i - 1;
        proof {
            assert(v@.take(i as int).drop_last() =~= v@.take(k as int));
            assert(v@.take(i as int).last() == v@[k as int]);
        }
        if text_eq(v[k].0.as_str(), name) {
            return Some((v[k].1, v[k].2));
        }
        i = k;
    }
    proof {
        assert(v@.take(0) =~= Seq::<(String, usize, usize)>::empty());
    }
    None
}

impl hexpr::Signature for SignatureTable {
    type Arr = String;
    type Obj = ();
    type Error = String;

    fn try_parse_op(&self, op: &hexpr::Operation) -> Result<String, String> {
        let name = operation_name(op);
        match self {
            SignatureTable::Nat => match parse_usize(name.as_str()) {
                Some(_) => Ok(name),
                None => {
                    let mut m = String::new();
                    push_str(&mut m, "invalid digit found in string");
                    Err(m)
                },
            },
            SignatureTable::Table(v) => match table_entry(v, name.as_str()) {
                Some(_) => Ok(name),
                None => {
                    let mut m = String::new();
                    push_str(&mut m, "No such operation ");
                    push_str(&mut m, name.as_str());
                    Err(m)
                },
            },
        }
    }

    fn try_parse_object(&self, object: &hexpr::Hexpr) -> Result<(), String> {
        Ok(())
    }

    fn profile(&self, op: &String) -> (Vec<Option<()>>, Vec<Option<()>>) {
        match self {
            SignatureTable::Nat => match parse_usize(op.as_str()) {
                Some(n) => (Vec::new(), wires(n)),
                None => (Vec::new(), Vec::new()),
            },
            SignatureTable::Table(v) => match table_entry(v, op.as_str()) {
                Some((a, b)) => (wires(a), wires(b)),
                None => (Vec::new(), Vec::new()),
            },
        }
    }
}

/// An h-expression of this library as one of the `hexpr` crate, variant
/// for variant; `None` when a name is not one that `hexpr` reads.
#[verifier::external_body]
fn hexpr_of(e: &Expr) -> Option<hexpr::Hexpr> {
    Some(match e {
        Expr::Composition(v) => hexpr::Hexpr::Composition(hexprs_of(v)?),
        Expr::Tensor(v) => hexpr::Hexpr::Tensor(hexprs_of(v)?),
        Expr::Frobenius { sources, targets } => hexpr::Hexpr::Frobenius { sources: lvars_of(sources)?, targets: lvars_of(targets)? },
        Expr::Hole => hexpr::Hexpr::Hole,
        Expr::Wire(b) => hexpr::Hexpr::Wire(Box::new(hexpr_of(b)?)),
        Expr::Operation(op) => hexpr::Hexpr::Operation(op.parse().ok()?),
    })
}

/// A list of h-expressions as `hexpr` ones, one by one.
#[verifier::external_body]
fn hexprs_of(v: &Vec<Expr>) -> Option<Vec<hexpr::Hexpr>> {
    v.iter().map(hexpr_of).collect()
}

/// A list of labelled variables as `hexpr` ones, one by one.
#[verifier::external_body]
fn lvars_of(v: &Vec<LabelledVar>) -> Option<Vec<hexpr::LVar>> {
    v.iter().map(lvar_of).collect()
}

/// A labelled variable of this library as one of the `hexpr` crate.
#[verifier::external_body]
fn lvar_of(l: &LabelledVar) -> Option<hexpr::LVar> {
    let label = match &l.label {
        Some(h) => Some(hexpr_of(h)?),
        None => None,
    };
    Some(hexpr::LVar { name: l.name.parse().ok()?, label })
}

/// A graph whose edges are named by strings, with the names as plain
/// values.
pub open spec fn named(g: GraphView<(), String>) -> GraphView<(), Seq<char>> {
    GraphView {
        sources: g.sources,
        targets: g.targets,
        nodes: g.nodes,
        edges: g.edges.map_values(|e: String| e@),
        adjacency: g.adjacency,
        quotient: g.quotient,
    }
}

/// What `hexpr::try_interpret` makes of an h-expression in a signature, as
/// a plain value, or the text of its error.
pub uninterp spec fn interpreted(sig: SigV, h: ExprV) -> Result<GraphView<(), Seq<char>>, Seq<char>>;

/// `hexpr::try_interpret`: the open hypergraph that an h-expression stands
/// for in a signature, with node labels dropped, or the text of its error.
/// Claimed here: the graph and the error's text depend on the signature and
/// the h-expression alone (`interpreted`). Not claimed: the graph's shape or
/// what the message says. The graph's node labels are dropped and its node
/// numbers kept.
#[verifier::external_body]
pub(crate) fn interpret(sig: &SignatureTable, h: &Expr) -> (r: Result<OpenHypergraph<(), String>, String>)
    ensures
        match r {
            Ok(g) => interpreted(sig@, expr_view(*h)) == Ok::<_, Seq<char>>(named(g@)),
            Err(m) => interpreted(sig@, expr_view(*h)) == Err::<GraphView<(), Seq<char>>, Seq<char>>(m@),
        },
{
    let x = hexpr_of(h).ok_or("invalid name")?;
    let g = hexpr::try_interpret(sig, &x).map_err(|e| e.to_string())?;
    let ids = |v: &[NodeId]| v.iter().map(|n| n.0).collect();
    let hg = g.hypergraph;
    Ok(OpenHypergraph {
        sources: ids(&g.sources),
        targets: ids(&g.targets),
        hypergraph: Hypergraph {
            nodes: vec![(); hg.nodes.len()],
            adjacency: hg.adjacency.iter().map(|a| Hyperedge { sources: ids(&a.sources), targets: ids(&a.targets) }).collect(),
            quotient: (ids(&hg.quotient.0), ids(&hg.quotient.1)),
            edges: hg.edges,
        },
    })
}

/// A resolved arrow: the raw declaration, its name, its type maps
/// interpreted in its theory's syntax category, and its definition
/// interpreted in the theory.
#[derive(Debug)]
pub struct TheoryArrow {
    pub raw: RawTheoryArrow,
    pub name: String,
    pub type_maps: (OpenHypergraph<(), String>, OpenHypergraph<(), String>),
    pub definition: Option<OpenHypergraph<(), String>>,
}

/// A resolved theory: the builtin `nat`, or a theory over a syntax
/// category with its arrows in name order.
#[derive(Debug)]
pub enum Theory {
    Nat,
    Theory { syntax: String, arrows: Vec<TheoryArrow> },
}

/// The resolved theories, each after its syntax category.
#[derive(Debug)]
pub struct TheorySet {
    pub theories: Vec<(TheoryId, Theory)>,
}

/// A resolved arrow as a plain value.
pub struct TheoryArrowV {
    pub raw: ArrowV,
    pub name: Seq<char>,
    pub source: GraphView<(), Seq<char>>,
    pub target: GraphView<(), Seq<char>>,
    pub definition: Option<GraphView<(), Seq<char>>>,
}

/// A resolved theory as a plain value.
pub enum TheoryV {
    Nat,
    Theory(Seq<char>, Seq<TheoryArrowV>),
}

/// The plain value of a resolved arrow.
pub open spec fn arrow_view(a: TheoryArrow) -> TheoryArrowV {
    TheoryArrowV {
        raw: a.raw@,
        name: a.name@,
        source: named(a.type_maps.0@),
        target: named(a.type_maps.1@),
        definition: match a.definition {
            Some(d) => Some(named(d@)),
            None => None,
        },
    }
}

/// The plain value of a resolved theory.
pub open spec fn theory_view(t: Theory) -> TheoryV {
    match t {
        Theory::Nat => TheoryV::Nat,
        Theory::Theory { syntax, arrows } => TheoryV::Theory(syntax@, arrows@.map_values(|a: TheoryArrow| arrow_view(a))),
    }
}

/// The resolved theories by name; a later entry wins.
pub open spec fn theories_view(v: Seq<(TheoryId, Theory)>) -> Map<Seq<char>, TheoryV>
    decreases v.len(),
{
    if v.len() == 0 {
        Map::empty()
    } else {
        theories_view(v.drop_last()).insert(v.last().0@, theory_view(v.last().1))
    }
}

/// The names of the resolved theories, in load order.
pub open spec fn load_order(v: Seq<(TheoryId, Theory)>) -> Seq<Seq<char>> {
    v.map_values(|e: (TheoryId, Theory)| e.0@)
}

/// The numbers of inputs and outputs of each arrow, by name: the outputs
/// of its source and of its target type map.
pub open spec fn arrow_profiles(avs: Seq<TheoryArrowV>) -> Map<Seq<char>, (usize, usize)>
    decreases avs.len(),
{
    if avs.len() == 0 {
        Map::empty()
    } else {
        arrow_profiles(avs.drop_last()).insert(
            avs.last().name,
            (avs.last().source.targets.len() as usize, avs.last().target.targets.len() as usize),
        )
    }
}

/// The signature that a resolved theory offers the theories over it.
pub open spec fn signature_of(t: TheoryV) -> SigV {
    match t {
        TheoryV::Nat => SigV::Nat,
        TheoryV::Theory(_, avs) => SigV::Table(arrow_profiles(avs)),
    }
}

/// The profiles of arrows `arrs` whose type maps are `ms`.
pub open spec fn profile_table(arrs: Seq<RawTheoryArrow>, ms: Seq<(GraphView<(), Seq<char>>, GraphView<(), Seq<char>>)>) -> Map<
    Seq<char>,
    (usize, usize),
>
    decreases arrs.len(),
{
    if arrs.len() == 0 || ms.len() == 0 {
        Map::empty()
    } else {
        profile_table(arrs.drop_last(), ms.drop_last()).insert(
            arrs.last().name@,
            (ms.last().0.targets.len() as usize, ms.last().1.targets.len() as usize),
        )
    }
}

/// The type maps of arrow `a` of theory `t` over the syntax category
/// `base`, interpreted in `sig`: over `nat` numerals are first written as
/// tensors of `1`. The two maps must have inputs of one length.
pub open spec fn arrow_type_maps(t: Seq<char>, base: Seq<char>, sig: SigV, a: ArrowV) -> Result<
    (GraphView<(), Seq<char>>, GraphView<(), Seq<char>>),
    LoadErrV,
> {
    let over_nat = base == nat_name();
    let hs = if over_nat { normalized(a.source) } else { a.source };
    let ht = if over_nat { normalized(a.target) } else { a.target };
    match (interpreted(sig, hs), interpreted(sig, ht)) {
        (Ok(gs), Ok(gt)) => if gs.sources.len() == gt.sources.len() {
            Ok((gs, gt))
        } else {
            Err(LoadErrV::InvalidTypeMapDomain(t, a.name))
        },
        (Err(m), _) | (Ok(_), Err(m)) => Err(
            if over_nat {
                LoadErrV::NatInterpret(t, a.name, m)
            } else {
                LoadErrV::SyntaxInterpret(t, a.name, m)
            },
        ),
    }
}

/// The type maps of the arrows `arrs`, in order; the first failure is the
/// error.
pub open spec fn typed_arrows(t: Seq<char>, base: Seq<char>, sig: SigV, arrs: Seq<RawTheoryArrow>) -> Result<
    Seq<(GraphView<(), Seq<char>>, GraphView<(), Seq<char>>)>,
    LoadErrV,
>
    decreases arrs.len(),
{
    if arrs.len() == 0 {
        Ok(Seq::empty())
    } else {
        match typed_arrows(t, base, sig, arrs.drop_last()) {
            Err(e) => Err(e),
            Ok(ms) => match arrow_type_maps(t, base, sig, arrs.last()@) {
                Err(e) => Err(e),
                Ok(m) => Ok(ms.push(m)),
            },
        }
    }
}

/// The definitions of the arrows `arrs` of theory `t`, interpreted in
/// `sig`, in order; the first that does not interpret is the error.
pub open spec fn definitions_in(t: Seq<char>, sig: SigV, arrs: Seq<RawTheoryArrow>) -> Result<
    Seq<Option<GraphView<(), Seq<char>>>>,
    LoadErrV,
>
    decreases arrs.len(),
{
    if arrs.len() == 0 {
        Ok(Seq::empty())
    } else {
        match definitions_in(t, sig, arrs.drop_last()) {
            Err(e) => Err(e),
            Ok(ds) => match arrs.last()@.definition {
                None => Ok(ds.push(None)),
                Some(d) => match interpreted(sig, d) {
                    Err(m) => Err(LoadErrV::DefinitionInterpret(t, arrs.last().name@, m)),
                    Ok(g) => Ok(ds.push(Some(g))),
                },
            },
        }
    }
}

/// A raw theory resolved over a syntax category with signature `base_sig`:
/// its type maps interpreted there, then its definitions interpreted in the
/// arrows of the theory itself.
pub open spec fn resolve_theory(th: RawTheory, base_sig: SigV) -> Result<TheoryV, LoadErrV> {
    let t = th.name@;
    let arrs = th.arrows@;
    match typed_arrows(t, th.syntax_category@, base_sig, arrs) {
        Err(e) => Err(e),
        Ok(ms) => match definitions_in(t, SigV::Table(profile_table(arrs, ms)), arrs) {
            Err(e) => Err(e),
            Ok(ds) => Ok(
                TheoryV::Theory(
                    th.syntax_category@,
                    Seq::new(
                        arrs.len(),
                        |i: int|
                            TheoryArrowV {
                                raw: arrs[i]@,
                                name: arrs[i].name@,
                                source: ms[i].0,
                                target: ms[i].1,
                                definition: ds[i],
                            },
                    ),
                ),
            ),
        },
    }
}

/// The theories `order` of the raw theories `ts`, resolved one after the
/// other: a name that is not a theory of `ts` is the builtin `nat`, and
/// every other theory is resolved in the signature of its syntax category,
/// resolved before it (`nat` by name). The first failure is the error.
pub open spec fn resolve_along(ts: Seq<RawTheory>, order: Seq<Seq<char>>) -> Result<Map<Seq<char>, TheoryV>, LoadErrV>
    decreases order.len(),
{
    if order.len() == 0 {
        Ok(Map::empty())
    } else {
        match resolve_along(ts, order.drop_last()) {
            Err(e) => Err(e),
            Ok(m) => {
                let t = order.last();
                if has_key(ts, t) {
                    let th = keyed_map(ts)[t];
                    let base = th.syntax_category@;
                    let sig = if base == nat_name() {
                        SigV::Nat
                    } else {
                        signature_of(m[base])
                    };
                    match resolve_theory(th, sig) {
                        Err(e) => Err(e),
                        Ok(v) => Ok(m.insert(t, v)),
                    }
                } else {
                    Ok(m.insert(t, TheoryV::Nat))
                }
            },
        }
    }
}

/// `o` lists the theories of `raw` and the syntax categories they depend
/// on, each once, every syntax category before the theories over it.
pub open spec fn is_load_order(raw: RawTheorySetV, o: Seq<Seq<char>>) -> bool {
    &&& o.no_duplicates()
    &&& forall|y: Seq<char>| o.contains(y) <==> below_keys(dependency_map(raw), y)
    &&& bases_first(dependency_map(raw), o)
}

/// A graph error as a load error.
pub open spec fn graph_load_error(e: GraphErrV) -> LoadErrV {
    match e {
        GraphErrV::UnknownSyntaxCategory(t, b) => LoadErrV::UnknownSyntaxCategory(t, b),
        GraphErrV::SyntaxCycle(t) => LoadErrV::SyntaxCycle(t),
        GraphErrV::UnknownTheory(t) => LoadErrV::SyntaxCycle(t),
    }
}

/// Once a prefix of the arrows fails to type, so do all of them.
proof fn lemma_typed_error_stays(t: Seq<char>, base: Seq<char>, sig: SigV, arrs: Seq<RawTheoryArrow>, i: int)
    requires
        0 <= i <= arrs.len(),
        typed_arrows(t, base, sig, arrs.take(i)) is Err,
    ensures
        typed_arrows(t, base, sig, arrs) == typed_arrows(t, base, sig, arrs.take(i)),
    decreases arrs.len() - i,
{
    if i < arrs.len() {
        assert(arrs.take(i + 1).drop_last() =~= arrs.take(i));
        lemma_typed_error_stays(t, base, sig, arrs, i + 1);
    } else {
        assert(arrs.take(i) =~= arrs);
    }
}

/// Once a prefix of the definitions fails, so do all of them.
proof fn lemma_definitions_error_stays(t: Seq<char>, sig: SigV, arrs: Seq<RawTheoryArrow>, i: int)
    requires
        0 <= i <= arrs.len(),
        definitions_in(t, sig, arrs.take(i)) is Err,
    ensures
        definitions_in(t, sig, arrs) == definitions_in(t, sig, arrs.take(i)),
    decreases arrs.len() - i,
{
    if i < arrs.len() {
        assert(arrs.take(i + 1).drop_last() =~= arrs.take(i));
        lemma_definitions_error_stays(t, sig, arrs, i + 1);
    } else {
        assert(arrs.take(i) =~= arrs);
    }
}

/// Once a prefix of the order fails to resolve, so does all of it.
proof fn lemma_resolve_error_stays(ts: Seq<RawTheory>, o: Seq<Seq<char>>, i: int)
    requires
        0 <= i <= o.len(),
        resolve_along(ts, o.take(i)) is Err,
    ensures
        resolve_along(ts, o) == resolve_along(ts, o.take(i)),
    decreases o.len() - i,
{
    if i < o.len() {
        assert(o.take(i + 1).drop_last() =~= o.take(i));
        lemma_resolve_error_stays(ts, o, i + 1);
    } else {
        assert(o.take(i) =~= o);
    }
}

/// The profiles of resolved arrows are those of their type maps.
proof fn lemma_profiles(
    avs: Seq<TheoryArrowV>,
    arrs: Seq<RawTheoryArrow>,
    ms: Seq<(GraphView<(), Seq<char>>, GraphView<(), Seq<char>>)>,
)
    requires
        avs.len() == arrs.len(),
        ms.len() == arrs.len(),
        forall|i: int| 0 <= i < avs.len() ==> (#[trigger] avs[i]).name == arrs[i].name@ && avs[i].source == ms[i].0 && avs[i].target
            == ms[i].1,
    ensures
        arrow_profiles(avs) == profile_table(arrs, ms),
    decreases avs.len(),
{
    if avs.len() > 0 {
        let k = avs.len() - 1;
        assert forall|i: int| 0 <= i < k implies (#[trigger] avs.drop_last()[i]).name == arrs.drop_last()[i].name@
            && avs.drop_last()[i].source == ms.drop_last()[i].0 && avs.drop_last()[i].target == ms.drop_last()[i].1 by {
            assert(avs.drop_last()[i] == avs[i]);
            assert(arrs.drop_last()[i] == arrs[i]);
            assert(ms.drop_last()[i] == ms[i]);
        }
        lemma_profiles(avs.drop_last(), arrs.drop_last(), ms.drop_last());
        assert(avs[k].name == arrs[k].name@);
    }
}

/// The names in a list of resolved theories are those of its order.
proof fn lemma_theories_view_dom(v: Seq<(TheoryId, Theory)>)
    ensures
        forall|k: Seq<char>| #[trigger] theories_view(v).dom().contains(k) <==> load_order(v).contains(k),
    decreases v.len(),
{
    if v.len() > 0 {
        let d = v.drop_last();
        lemma_theories_view_dom(d);
        assert(load_order(v) =~= load_order(d).push(v.last().0@));
        assert forall|k: Seq<char>| #[trigger] theories_view(v).dom().contains(k) <==> load_order(v).contains(k) by {
            if load_order(d).contains(k) {
                let j = choose|j: int| 0 <= j < load_order(d).len() && load_order(d)[j] == k;
                assert(load_order(v)[j] == k);
            }
            if k == v.last().0@ {
                assert(load_order(v)[v.len() - 1] == k);
            }
            assert(theories_view(d).dom().contains(k) <==> load_order(d).contains(k));
            assert(theories_view(v) == theories_view(d).insert(v.last().0@, theory_view(v.last().1)));
            if load_order(v).contains(k) {
                let j = choose|j: int| 0 <= j < load_order(v).len() && load_order(v)[j] == k;
                if j < d.len() {
                    assert(load_order(d)[j] == k);
                }
            }
        }
    }
}

/// The signature of a resolved theory.
fn signature_table(th: &Theory) -> (r: SignatureTable)
    ensures
        r@ == signature_of(theory_view(*th)),
{
    match th {
        Theory::Nat => SignatureTable::Nat,
        Theory::Theory { syntax, arrows } => {
            let ghost avs = arrows@.map_values(|a: TheoryArrow| arrow_view(a));
            let mut v: Vec<(String, usize, usize)> = Vec::new();
            let mut i: usize = 0;
            proof {
                assert(avs.take(0) =~= Seq::<TheoryArrowV>::empty());
            }
            while i < arrows.len()
                invariant
                    i <= arrows.len(),
                    avs == arrows@.map_values(|a: TheoryArrow| arrow_view(a)),
                    table_map(v@) == arrow_profiles(avs.take(i as int)),
                decreases arrows.len() - i,
            {
                let a = &arrows[i];
                let ghost before = v@;
                v.push((a.name.clone(), a.type_maps.0.targets.len(), a.type_maps.1.targets.len()));
                proof {
                    assert(avs.take(i + 1).drop_last() =~= avs.take(i as int));
                    assert(avs.take(i + 1).last() == arrow_view(*a));
                    assert(v@.drop_last() =~= before);
                }
                i = i + 1;
            }
            proof {
                assert(avs.take(arrows.len() as int) =~= avs);
            }
            SignatureTable::Table(v)
        },
    }
}

/// The type maps of a list of pairs of graphs, as plain values.
pub open spec fn maps_view(v: Seq<(OpenHypergraph<(), String>, OpenHypergraph<(), String>)>) -> Seq<
    (GraphView<(), Seq<char>>, GraphView<(), Seq<char>>),
> {
    v.map_values(|p: (OpenHypergraph<(), String>, OpenHypergraph<(), String>)| (named(p.0@), named(p.1@)))
}

/// The definition of a resolved arrow, as a plain value.
pub open spec fn definition_view(a: TheoryArrow) -> Option<GraphView<(), Seq<char>>> {
    match a.definition {
        Some(d) => Some(named(d@)),
        None => None,
    }
}

/// Interprets one type map of arrow `a` of theory `t` in `sig`, numerals
/// written out first over `nat`.
fn type_map(
    t: &String,
    a: &RawTheoryArrow,
    sig: &SignatureTable,
    over_nat: bool,
    h: &Expr,
) -> (r: Result<OpenHypergraph<(), String>, LoadError>)
    ensures
        match r {
            Ok(g) => interpreted(sig@, if over_nat { normalized(expr_view(*h)) } else { expr_view(*h) }) == Ok::<
                _,
                Seq<char>,
            >(named(g@)),
            Err(e) => interpreted(sig@, if over_nat { normalized(expr_view(*h)) } else { expr_view(*h) }) matches Err(m)
                && e@ == (if over_nat {
                LoadErrV::NatInterpret(t@, a.name@, m)
            } else {
                LoadErrV::SyntaxInterpret(t@, a.name@, m)
            }),
        },
{
    let res = if over_nat {
        let n = normalize_nat_hexpr(h);
        interpret(sig, &n)
    } else {
        interpret(sig, h)
    };
    match res {
        Ok(g) => Ok(g),
        Err(source) => if over_nat {
            Err(LoadError::NatInterpret { theory: TheoryId(t.clone()), arrow: a.name.clone(), source })
        } else {
            Err(LoadError::SyntaxInterpret { theory: TheoryId(t.clone()), arrow: a.name.clone(), source })
        },
    }
}

/// Resolves a raw theory over a syntax category whose signature is `sig`.
fn resolve_one(th: &RawTheory, sig: &SignatureTable) -> (r: Result<Theory, LoadError>)
    ensures
        match r {
            Ok(v) => resolve_theory(*th, sig@) == Ok::<TheoryV, LoadErrV>(theory_view(v)),
            Err(e) => resolve_theory(*th, sig@) == Err::<TheoryV, LoadErrV>(e@),
        },
{
    let t = &th.name;
    let base = &th.syntax_category;
    let arrs = &th.arrows;
    let over_nat = text_eq(base.as_str(), "nat");
    proof {
        reveal_strlit("nat");
        assert(over_nat == (base@ == nat_name()));
    }
    let mut maps: Vec<(OpenHypergraph<(), String>, OpenHypergraph<(), String>)> = Vec::new();
    let mut table: Vec<(String, usize, usize)> = Vec::new();
    let mut i: usize = 0;
    proof {
        assert(arrs@.take(0) =~= Seq::<RawTheoryArrow>::empty());
        assert(maps_view(maps@) =~= Seq::<(GraphView<(), Seq<char>>, GraphView<(), Seq<char>>)>::empty());
    }
    while i < arrs.len()
        invariant
            i <= arrs.len(),
            over_nat == (base@ == nat_name()),
            t == &th.name,
            base == &th.syntax_category,
            arrs == &th.arrows,
            maps.len() == i,
            typed_arrows(t@, base@, sig@, arrs@.take(i as int)) == Ok::<_, LoadErrV>(maps_view(maps@)),
            table_map(table@) == profile_table(arrs@.take(i as int), maps_view(maps@)),
        decreases arrs.len() - i,
    {
        let a = &arrs[i];
        proof {
            assert(arrs@.take(i + 1).drop_last() =~= arrs@.take(i as int));
            assert(arrs@.take(i + 1).last() == *a);
        }
        let gs = match type_map(t, a, sig, over_nat, &a.type_maps.0) {
            Ok(g) => g,
            Err(e) => {
                proof {
                    lemma_typed_error_stays(t@, base@, sig@, arrs@, i + 1);
                }
                return Err(e);
            },
        };
        let gt = match type_map(t, a, sig, over_nat, &a.type_maps.1) {
            Ok(g) => g,
            Err(e) => {
                proof {
                    lemma_typed_error_stays(t@, base@, sig@, arrs@, i + 1);
                }
                return Err(e);
            },
        };
        if gs.sources.len() != gt.sources.len() {
            proof {
                lemma_typed_error_stays(t@, base@, sig@, arrs@, i + 1);
            }
            return Err(LoadError::InvalidTypeMapDomain { theory: TheoryId(t.clone()), arrow: a.name.clone() });
        }
        let ghost before = maps_view(maps@);
        let ghost tb = table@;
        table.push((a.name.clone(), gs.targets.len(), gt.targets.len()));
        maps.push((gs, gt));
        proof {
            assert(maps_view(maps@) =~= before.push((named(gs@), named(gt@))));
            assert(maps_view(maps@).drop_last() =~= before);
            assert(table@.drop_last() =~= tb);
            assert(arrs@.take(i + 1).len() > 0);
        }
        i = i + 1;
    }
    proof {
        assert(arrs@.take(arrs.len() as int) =~= arrs@);
    }
    let ghost ms = maps_view(maps@);
    let local = SignatureTable::Table(table);
    let mut out: Vec<TheoryArrow> = Vec::new();
    let mut j: usize = 0;
    proof {
        assert(maps_view(maps@) =~= ms.skip(0));
        assert(arrs@.take(0) =~= Seq::<RawTheoryArrow>::empty());
        assert(out@.map_values(|x: TheoryArrow| definition_view(x)) =~= Seq::<Option<GraphView<(), Seq<char>>>>::empty());
        assert(typed_arrows(t@, base@, sig@, arrs@) == Ok::<_, LoadErrV>(ms));
    }
    while j < arrs.len()
        invariant
            j <= arrs.len(),
            t == &th.name,
            arrs == &th.arrows,
            base == &th.syntax_category,
            ms.len() == arrs.len(),
            typed_arrows(t@, base@, sig@, arrs@) == Ok::<_, LoadErrV>(ms),
            local@ == SigV::Table(profile_table(arrs@, ms)),
            maps_view(maps@) == ms.skip(j as int),
            out.len() == j,
            definitions_in(t@, local@, arrs@.take(j as int)) == Ok::<_, LoadErrV>(
                out@.map_values(|x: TheoryArrow| definition_view(x)),
            ),
            forall|k: int|
                0 <= k < j ==> (#[trigger] out@[k]).raw@ == arrs@[k]@ && out@[k].name@ == arrs@[k].name@ && named(
                    out@[k].type_maps.0@,
                ) == ms[k].0 && named(out@[k].type_maps.1@) == ms[k].1,
        decreases arrs.len() - j,
    {
        let a = &arrs[j];
        proof {
            assert(arrs@.take(j + 1).drop_last() =~= arrs@.take(j as int));
            assert(arrs@.take(j + 1).last() == *a);
        }
        let definition = match &a.definition {
            None => None,
            Some(d) => match interpret(&local, d) {
                Ok(g) => Some(g),
                Err(source) => {
                    proof {
                        lemma_definitions_error_stays(t@, local@, arrs@, j + 1);
                    }
                    return Err(LoadError::DefinitionInterpret { theory: TheoryId(t.clone()), arrow: a.name.clone(), source });
                },
            },
        };
        let ghost mv = maps_view(maps@);
        proof {
            assert(mv.len() == maps@.len());
            assert(ms.skip(j as int).len() > 0);
        }
        let pair = maps.remove(0);
        proof {
            assert(maps_view(maps@) =~= mv.drop_first());
            assert(mv[0] == (named(pair.0@), named(pair.1@)));
            assert(ms.skip(j as int)[0] == ms[j as int]);
            assert(ms.skip(j as int).drop_first() =~= ms.skip(j + 1));
        }
        let ghost ob = out@;
        let raw_copy = a.copy();
        let name = a.name.clone();
        out.push(TheoryArrow { raw: raw_copy, name, type_maps: pair, definition });
        proof {
            assert(out@.map_values(|x: TheoryArrow| definition_view(x)) =~= ob.map_values(|x: TheoryArrow| definition_view(x)).push(
                definition_view(out@[j as int]),
            ));
            assert forall|k: int|
                0 <= k < j + 1 implies (#[trigger] out@[k]).raw@ == arrs@[k]@ && out@[k].name@ == arrs@[k].name@ && named(
                    out@[k].type_maps.0@,
                ) == ms[k].0 && named(out@[k].type_maps.1@) == ms[k].1 by {
                if k < j {
                    assert(out@[k] == ob[k]);
                }
            }
        }
        j = j + 1;
    }
    proof {
        assert(arrs@.take(arrs.len() as int) =~= arrs@);
        let ds = out@.map_values(|x: TheoryArrow| definition_view(x));
        assert(definitions_in(t@, SigV::Table(profile_table(arrs@, ms)), arrs@) == Ok::<_, LoadErrV>(ds));
        let avs = out@.map_values(|a: TheoryArrow| arrow_view(a));
        assert(avs =~= Seq::new(
            arrs@.len(),
            |i: int|
                TheoryArrowV {
                    raw: arrs@[i]@,
                    name: arrs@[i].name@,
                    source: ms[i].0,
                    target: ms[i].1,
                    definition: ds[i],
                },
        ));
    }
    Ok(Theory::Theory { syntax: base.clone(), arrows: out })
}

/// The raw theory of this name.
fn theory_named<'a>(raw: &'a RawTheorySet, name: &str) -> (r: Option<&'a RawTheory>)
    requires
        raw.wf(),
    ensures
        match r {
            Some(th) => has_key(raw.theories@, name@) && *th == keyed_map(raw.theories@)[name@],
            None => !has_key(raw.theories@, name@),
        },
{
    let p = position(&raw.theories, name);
    proof {
        lemma_position_has_key(raw.theories@, name@, p as int);
        lemma_keyed_map(raw.theories@);
    }
    if p < raw.theories.len() && text_eq(raw.theories[p].key(), name) {
        Some(&raw.theories[p])
    } else {
        None
    }
}

/// The signature of the resolved theory of this name, searched from the
/// end.
fn resolved_signature(out: &Vec<(TheoryId, Theory)>, name: &str) -> (r: SignatureTable)
    requires
        theories_view(out@).dom().contains(name@),
    ensures
        r@ == signature_of(theories_view(out@)[name@]),
{
    let mut i: usize = out.len();
    assert(out@.take(i as int) =~= out@);
    while i > 0
        invariant
            i <= out.len(),
            theories_view(out@.take(i as int)).dom().contains(name@),
            theories_view(out@)[name@] == theories_view(out@.take(i as int))[name@],
        decreases i,
    {
        let k = i - 1;
        proof {
            assert(out@.take(i as int).drop_last() =~= out@.take(k as int));
            assert(out@.take(i as int).last() == out@[k as int]);
        }
        if text_eq(out[k].0.0.as_str(), name) {
            return signature_table(&out[k].1);
        }
        i = k;
    }
    proof {
        assert(out@.take(0) =~= Seq::<(TheoryId, Theory)>::empty());
    }
    SignatureTable::Nat
}

/// `r` is what resolving the theories of `raw` gives: the error of the
/// first theory whose syntax category is unknown or itself; else a theory
/// on a cycle; else the theories resolved along a load order, or the first
/// failure along one.
pub open spec fn resolution_of(raw: RawTheorySet, r: Result<TheorySet, LoadError>) -> bool {
    &&& ((exists|t: Seq<char>| invalid_base(raw@, t)) ==> (r matches Err(e) && exists|g: GraphErrV|
                first_invalid_error(raw@, g) && e@ == graph_load_error(g)))
    &&& (!(exists|t: Seq<char>| invalid_base(raw@, t)) && (exists|y: Seq<char>|
                below_keys(dependency_map(raw@), y) && on_cycle(dependency_map(raw@), y)) ==> (r matches Err(
                LoadError::SyntaxCycle(t),
            ) && on_cycle(dependency_map(raw@), t@) && below_keys(dependency_map(raw@), t@)))
    &&& (!(exists|t: Seq<char>| invalid_base(raw@, t)) && !(exists|y: Seq<char>|
                below_keys(dependency_map(raw@), y) && on_cycle(dependency_map(raw@), y)) ==> match r {
                Ok(s) => is_load_order(raw@, load_order(s.theories@)) && resolve_along(raw.theories@, load_order(s.theories@))
                    == Ok::<_, LoadErrV>(theories_view(s.theories@)),
                Err(e) => exists|o: Seq<Seq<char>>|
                    is_load_order(raw@, o) && resolve_along(raw.theories@, o) == Err::<Map<Seq<char>, TheoryV>, LoadErrV>(e@),
            })
}

/// Resolves the theories of a raw theory set; extensions are not read.
/// Fails, as `syntax_dependency_graph` does, with the first theory whose
/// syntax category is unknown or itself; else with a theory on a cycle of
/// syntax categories; else resolves the theories in an order where every
/// syntax category comes first: each type map is interpreted in the
/// signature of its theory's syntax category (`nat` gives each numeral `n`
/// no inputs and `n` outputs, and numerals are written as tensors of `1`
/// first), the two type maps of an arrow must have inputs of one length,
/// and each definition is interpreted in the arrows of its own theory. The
/// first failure in that order is the error.
pub fn resolve_raw_theory_set(raw: &RawTheorySet) -> (r: Result<TheorySet, LoadError>)
    requires
        raw.wf(),
    ensures
        resolution_of(*raw, r),
{
    let graph = match syntax_dependency_graph(raw) {
        Ok(g) => g,
        Err(e) => {
            let ghost ge = e@;
            let le = match e {
                GraphError::UnknownSyntaxCategory { theory, base } => LoadError::UnknownSyntaxCategory { theory, base },
                GraphError::SyntaxCycle(t) => LoadError::SyntaxCycle(t),
                GraphError::UnknownTheory(t) => LoadError::SyntaxCycle(TheoryId(t)),
            };
            proof {
                assert(le@ == graph_load_error(ge));
                assert(first_invalid_error(raw@, ge));
                let w = choose|w: Seq<char>|
                    #[trigger] invalid_base(raw@, w) && (forall|x: Seq<char>| invalid_base(raw@, x) ==> !crate::order::seq_lt(x, w))
                        && ge == (if crate::graph::unknown_category(raw@, w) {
                        GraphErrV::UnknownSyntaxCategory(w, raw@.theories[w].syntax_category)
                    } else {
                        GraphErrV::SyntaxCycle(w)
                    });
                assert(invalid_base(raw@, w));
            }
            return Err(le);
        },
    };
    let ghost dm = dependency_map(raw@);
    let order = match topological_order(&graph) {
        Ok(o) => o,
        Err(e) => {
            proof {
                assert(graph@ == dm);
            }
            return match e {
                GraphError::SyntaxCycle(t) => Err(LoadError::SyntaxCycle(t)),
                GraphError::UnknownSyntaxCategory { theory, base } => Err(LoadError::UnknownSyntaxCategory { theory, base }),
                GraphError::UnknownTheory(t) => Err(LoadError::SyntaxCycle(TheoryId(t))),
            };
        },
    };
    let ghost o = ids(order@);
    let ghost ts = raw.theories@;
    proof {
        assert(graph@ == dm);
        assert(!(exists|y: Seq<char>| below_keys(dm, y) && on_cycle(dm, y)));
    }
    proof {
        lemma_keyed_map(ts);
    }
    let mut out: Vec<(TheoryId, Theory)> = Vec::new();
    let mut i: usize = 0;
    proof {
        assert(o.take(0) =~= Seq::<Seq<char>>::empty());
        assert(load_order(out@) =~= Seq::<Seq<char>>::empty());
    }
    while i < order.len()
        invariant
            raw.wf(),
            ts == raw.theories@,
            o == ids(order@),
            dm == dependency_map(raw@),
            is_load_order(raw@, o),
            forall|x: Seq<char>| !invalid_base(raw@, x),
            !(exists|y: Seq<char>| below_keys(dm, y) && on_cycle(dm, y)),
            i <= order.len(),
            load_order(out@) == o.take(i as int),
            resolve_along(ts, o.take(i as int)) == Ok::<_, LoadErrV>(theories_view(out@)),
        decreases order.len() - i,
    {
        let t = &order[i];
        let ghost before = out@;
        proof {
            assert(o.take(i + 1).drop_last() =~= o.take(i as int));
            assert(o.take(i + 1).last() == o[i as int]);
            assert(o[i as int] == t@);
            lemma_theories_view_dom(out@);
        }
        match theory_named(raw, t.0.as_str()) {
            None => {
                out.push((TheoryId(t.0.clone()), Theory::Nat));
                proof {
                    assert(load_order(out@) =~= load_order(before).push(t@));
                    assert(out@.drop_last() =~= before);
                }
            },
            Some(th) => {
                let base = &th.syntax_category;
                let sig = if text_eq(base.as_str(), "nat") {
                    SignatureTable::Nat
                } else {
                    proof {
                        lemma_keyed_map(ts);
                        assert(has_key(ts, t@));
                        assert(keyed_map(ts).dom().contains(t@));
                        assert(theory_map(ts).dom().contains(t@));
                        assert(dm.dom().contains(t@));
                        assert(dm[t@] == base@);
                        assert(!invalid_base(raw@, t@));
                        assert(base@ != t@);
                        let jj = choose|j: int| 0 <= j < i && o[j] == dm[o[i as int]];
                        assert(o.take(i as int)[jj] == base@);
                        assert(load_order(before).contains(base@));
                    }
                    resolved_signature(&out, base.as_str())
                };
                proof {
                    reveal_strlit("nat");
                }
                match resolve_one(th, &sig) {
                    Ok(v) => {
                        out.push((TheoryId(t.0.clone()), v));
                        proof {
                            assert(load_order(out@) =~= load_order(before).push(t@));
                            assert(out@.drop_last() =~= before);
                        }
                    },
                    Err(e) => {
                        proof {
                            lemma_resolve_error_stays(ts, o, i + 1);
                        }
                        return Err(e);
                    },
                }
            },
        }
        i = i + 1;
    }
    proof {
        assert(o.take(order.len() as int) =~= o);
    }
    Ok(TheorySet { theories: out })
}

/// What one text reads as, as a raw theory set or a parse error.
pub open spec fn text_input(text: Seq<char>) -> Result<RawTheorySetV, ParseErrV> {
    match parsed_hexprs(text) {
        Err(m) => Err(ParseErrV::Parse(m)),
        Ok(hs) => raw_set_of(hs),
    }
}

/// `r` is the resolution of a well-formed raw set whose plain value is `v`.
pub open spec fn resolution_of_view(v: RawTheorySetV, r: Result<TheorySet, LoadError>) -> bool {
    exists|s: RawTheorySet| s.wf() && s@ == v && resolution_of(s, r)
}

impl TheorySet {
    /// Reads and resolves the theories of a text; its top-level definitions
    /// are read but not resolved.
    pub fn from_text(text: &str) -> (r: Result<TheorySet, LoadError>)
        ensures
            match text_input(text@) {
                Err(pe) => r matches Err(LoadError::ParseRaw(e)) && e@ == pe,
                Ok(v) => resolution_of_view(v, r),
            },
    {
        match RawTheorySet::from_text(text) {
            Err(e) => Err(LoadError::ParseRaw(e)),
            Ok(raw) => resolve_raw_theory_set(&raw),
        }
    }

    /// Reads several texts, merges them in order, and resolves the theories
    /// of the merge; top-level definitions are read but not resolved.
    pub fn from_texts(texts: &Vec<String>) -> (r: Result<TheorySet, LoadError>)
        ensures
            match merge_all(texts@.map_values(|t: String| text_input(t@))) {
                Err(e) => r matches Err(x) && x@ == e,
                Ok(v) => resolution_of_view(v, r),
            },
    {
        let mut sets: Vec<Result<RawTheorySet, ParseRawError>> = Vec::new();
        let mut i: usize = 0;
        while i < texts.len()
            invariant
                i <= texts.len(),
                sets@.len() == i,
                forall|k: int| 0 <= k < i ==> (#[trigger] sets@[k] matches Ok(s) ==> s.wf()),
                forall|k: int| 0 <= k < i ==> input_view(#[trigger] sets@[k]) == text_input(texts@[k]@),
            decreases texts.len() - i,
        {
            let x = RawTheorySet::from_text(texts[i].as_str());
            proof {
                if parsed_hexprs(texts@[i as int]@) is Err {
                    assert(x matches Err(ParseRawError::Parse(_)));
                }
            }
            let ghost before = sets@;
            sets.push(x);
            proof {
                assert(sets@[i as int] == x);
                assert(forall|k: int| 0 <= k < i ==> sets@[k] == before[k]);
            }
            i = i + 1;
        }
        proof {
            assert(sets@.map_values(|x: Result<RawTheorySet, ParseRawError>| input_view(x)) =~= texts@.map_values(
                |t: String| text_input(t@),
            ));
        }
        match merge_raw_sets(sets) {
            Err(e) => Err(e),
            Ok(raw) => resolve_raw_theory_set(&raw),
        }
    }
}

/// The resolved theories of a file of theory declarations.
#[derive(Debug)]
pub struct File {
    pub theories: Vec<(TheoryId, Theory)>,
}

/// What a file of theory declarations reads as: its theories by name, or a
/// parse error.
pub open spec fn file_input(text: Seq<char>) -> Result<Map<Seq<char>, RawTheoryV>, ParseErrV> {
    match parsed_hexprs(text) {
        Err(m) => Err(ParseErrV::Parse(m)),
        Ok(hs) => raw_file_of(hs),
    }
}

/// The user theories of a resolved list: the builtin `nat` left out.
pub open spec fn user_theories(s: Seq<(TheoryId, Theory)>) -> Seq<(TheoryId, Theory)> {
    s.filter(|p: (TheoryId, Theory)| !(p.1 is Nat))
}

/// `r` is the file that the resolution `t` gives: its user theories, or
/// its error.
pub open spec fn file_of(t: Result<TheorySet, LoadError>, r: Result<File, LoadError>) -> bool {
    match t {
        Ok(ts) => r matches Ok(f) && f.theories@ == user_theories(ts.theories@),
        Err(e) => r == Err::<File, LoadError>(e),
    }
}

/// Keeps the user theories of a resolved list, in order.
fn drop_builtin(theories: Vec<(TheoryId, Theory)>) -> (r: Vec<(TheoryId, Theory)>)
    ensures
        r@ == user_theories(theories@),
{
    let ghost orig = theories@;
    let mut rest = theories;
    let mut out: Vec<(TheoryId, Theory)> = Vec::new();
    proof {
        assert(orig.skip(0) =~= orig);
        assert(orig.take(0) =~= Seq::<(TheoryId, Theory)>::empty());
        reveal(Seq::filter);
    }
    while rest.len() > 0
        invariant
            orig.len() >= rest@.len(),
            rest@ == orig.skip(orig.len() - rest@.len()),
            out@ == user_theories(orig.take(orig.len() - rest@.len())),
        decreases rest.len(),
    {
        let ghost k = orig.len() - rest@.len();
        let x = rest.remove(0);
        proof {
            assert(orig.take(k + 1).drop_last() =~= orig.take(k));
            assert(orig.take(k + 1).last() == orig[k]);
            assert(x == orig[k]);
            assert(rest@ =~= orig.skip(k + 1));
        }
        let builtin = match &x.1 {
            Theory::Nat => true,
            _ => false,
        };
        proof {
            assert(builtin == (x.1 is Nat));
            reveal(Seq::filter);
            let t1 = orig.take(k + 1);
            assert(user_theories(t1) == (if !(t1.last().1 is Nat) {
                user_theories(t1.drop_last()).push(t1.last())
            } else {
                user_theories(t1.drop_last())
            }));
        }
        if !builtin {
            out.push(x);
        }
        proof {
            assert(orig.len() - rest@.len() == k + 1);
        }
    }
    proof {
        assert(orig.take(orig.len() as int) =~= orig);
    }
    out
}

impl File {
    /// Reads a text of theory declarations and resolves its theories as a
    /// theory set with no top-level definitions is resolved; the file holds
    /// the resolved theories but the builtin `nat`.
    pub fn from_text(text: &str) -> (r: Result<File, LoadError>)
        ensures
            match file_input(text@) {
                Err(pe) => r matches Err(LoadError::ParseRaw(e)) && e@ == pe,
                Ok(m) => exists|s: RawTheorySet, t: Result<TheorySet, LoadError>|
                    s.wf() && s@ == (RawTheorySetV { theories: m, extensions: Seq::empty() }) && resolution_of(s, t)
                        && file_of(t, r),
            },
    {
        match RawFile::from_text(text) {
            Err(e) => Err(LoadError::ParseRaw(e)),
            Ok(f) => {
                let raw = RawTheorySet { theories: f.theories, extensions: Vec::new() };
                proof {
                    assert(raw@.extensions =~= Seq::<ExtensionV>::empty());
                }
                let t = resolve_raw_theory_set(&raw);
                let ghost tg = t;
                let r = match t {
                    Ok(s) => Ok(File { theories: drop_builtin(s.theories) }),
                    Err(e) => Err(e),
                };
                proof {
                    assert(file_of(tg, r));
                }
                r
            },
        }
    }
}

/// Why an arrow's definition could not be looked up.
#[derive(Debug)]
pub enum ArrowLookupError {
    /// No theory of that name.
    TheoryNotFound(String),
    /// The builtin `nat`, which has no arrows.
    BuiltinTheory(String),
    /// The theory has no arrow of that name.
    ArrowNotFound { theory: String, arrow: String },
    /// The arrow has no definition.
    NoDefinition { theory: String, arrow: String },
}

/// A lookup error as a plain value.
pub enum LookupErrV {
    TheoryNotFound(Seq<char>),
    BuiltinTheory(Seq<char>),
    ArrowNotFound(Seq<char>, Seq<char>),
    NoDefinition(Seq<char>, Seq<char>),
}

impl View for ArrowLookupError {
    type V = LookupErrV;

    open spec fn view(&self) -> LookupErrV {
        match self {
            ArrowLookupError::TheoryNotFound(t) => LookupErrV::TheoryNotFound(t@),
            ArrowLookupError::BuiltinTheory(t) => LookupErrV::BuiltinTheory(t@),
            ArrowLookupError::ArrowNotFound { theory, arrow } => LookupErrV::ArrowNotFound(theory@, arrow@),
            ArrowLookupError::NoDefinition { theory, arrow } => LookupErrV::NoDefinition(theory@, arrow@),
        }
    }
}

/// The first arrow named `name` among `avs`.
pub open spec fn first_arrow(avs: Seq<TheoryArrowV>, name: Seq<char>) -> Option<TheoryArrowV>
    decreases avs.len(),
{
    if avs.len() == 0 {
        None
    } else if avs[0].name == name {
        Some(avs[0])
    } else {
        first_arrow(avs.drop_first(), name)
    }
}

/// The arrow `name` of theory `theory`, which must have a definition.
pub open spec fn definition_lookup(m: Map<Seq<char>, TheoryV>, theory: Seq<char>, name: Seq<char>) -> Result<
    TheoryArrowV,
    LookupErrV,
> {
    if !m.dom().contains(theory) {
        Err(LookupErrV::TheoryNotFound(theory))
    } else {
        match m[theory] {
            TheoryV::Nat => Err(LookupErrV::BuiltinTheory(theory)),
            TheoryV::Theory(_, avs) => match first_arrow(avs, name) {
                None => Err(LookupErrV::ArrowNotFound(theory, name)),
                Some(a) => if a.definition is Some {
                    Ok(a)
                } else {
                    Err(LookupErrV::NoDefinition(theory, name))
                },
            },
        }
    }
}

impl TheorySet {
    /// The arrow `name` of theory `theory`, with its definition; fails when
    /// there is no such theory, it is the builtin `nat`, it has no such
    /// arrow, or the arrow has no definition.
    pub fn definition(&self, theory: &str, name: &str) -> (r: Result<&TheoryArrow, ArrowLookupError>)
        ensures
            match r {
                Ok(a) => definition_lookup(theories_view(self.theories@), theory@, name@) == Ok::<_, LookupErrV>(
                    arrow_view(*a),
                ),
                Err(e) => definition_lookup(theories_view(self.theories@), theory@, name@) == Err::<TheoryArrowV, _>(
                    e@,
                ),
            },
    {
        let ts = &self.theories;
        let mut i: usize = ts.len();
        assert(ts@.take(i as int) =~= ts@);
        while i > 0
            invariant
                i <= ts.len(),
                ts@ == self.theories@,
                theories_view(ts@).dom().contains(theory@) == theories_view(ts@.take(i as int)).dom().contains(theory@),
                theories_view(ts@).dom().contains(theory@) ==> theories_view(ts@)[theory@] == theories_view(
                    ts@.take(i as int),
                )[theory@],
            decreases i,
        {
            let k = i - 1;
            proof {
                assert(ts@.take(i as int).drop_last() =~= ts@.take(k as int));
                assert(ts@.take(i as int).last() == ts@[k as int]);
            }
            if text_eq(ts[k].0.0.as_str(), theory) {
                proof {
                    assert(theories_view(ts@.take(i as int)) == theories_view(ts@.take(k as int)).insert(
                        ts@[k as int].0@,
                        theory_view(ts@[k as int].1),
                    ));
                    assert(theories_view(ts@).dom().contains(theory@));
                    assert(theories_view(ts@)[theory@] == theory_view(ts@[k as int].1));
                }
                return match &ts[k].1 {
                    Theory::Nat => Err(ArrowLookupError::BuiltinTheory(theory.to_string())),
                    Theory::Theory { arrows, .. } => {
                        let ghost avs = arrows@.map_values(|a: TheoryArrow| arrow_view(a));
                        let mut j: usize = 0;
                        assert(avs.subrange(0, avs.len() as int) =~= avs);
                        while j < arrows.len()
                            invariant
                                j <= arrows.len(),
                                avs == arrows@.map_values(|a: TheoryArrow| arrow_view(a)),
                                theories_view(self.theories@).dom().contains(theory@),
                                theories_view(self.theories@)[theory@] matches TheoryV::Theory(_, x) && x == avs,
                                first_arrow(avs, name@) == first_arrow(avs.subrange(j as int, avs.len() as int), name@),
                            decreases arrows.len() - j,
                        {
                            let ghost sub = avs.subrange(j as int, avs.len() as int);
                            assert(sub[0] == arrow_view(arrows@[j as int]));
                            if text_eq(arrows[j].name.as_str(), name) {
                                return match &arrows[j].definition {
                                    Some(_) => Ok(&arrows[j]),
                                    None => Err(ArrowLookupError::NoDefinition { theory: theory.to_string(), arrow: name.to_string() }),
                                };
                            }
                            assert(sub.drop_first() =~= avs.subrange(j + 1, avs.len() as int));
                            j = j + 1;
                        }
                        assert(avs.subrange(arrows.len() as int, avs.len() as int).len() == 0);
                        Err(ArrowLookupError::ArrowNotFound { theory: theory.to_string(), arrow: name.to_string() })
                    },
                };
            }
            i = k;
        }
        proof {
            assert(ts@.take(0) =~= Seq::<(TheoryId, Theory)>::empty());
        }
        Err(ArrowLookupError::TheoryNotFound(theory.to_string()))
    }
}

impl TheoryArrow {
    /// The text of the arrow's definition as it was written, if it has one.
    pub fn definition_text(&self) -> (r: Option<String>)
        ensures
            match self.raw@.definition {
                Some(d) => r matches Some(t) && t@ == expr_text(d),
                None => r is None,
            },
    {
        match &self.raw.definition {
            Some(d) => {
                let mut text = String::new();
                write_expr(d, &mut text);
                Some(text)
            },
            None => None,
        }
    }
}

} // verus!
