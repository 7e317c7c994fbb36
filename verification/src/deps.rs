//! What an arrow's type maps mention: the operations they name, which of
//! them the builtin `nat` provides, and the raw theories with their
//! extensions folded in, as the editor reads a partly broken project.
use vstd::prelude::*;
use crate::expr::{Expr, ExprV, expr_view, exprs_view};
use crate::load::{parse_usize, parsed_usize};
use crate::raw::{RawTheory, RawTheorySet, RawTheorySetV, RawTheoryV, RawTheoryArrow, Extension, ExtensionV, ArrowV, Keyed, arrow_map, theory_map, extensions_view, keyed_map, sorted_keys, has_key, position, lemma_keyed_map, lemma_position_has_key, lemma_insert_at_position, lemma_update_same_key};
use crate::text::text_eq;

verus! {

/// The operations an h-expression names, left to right; spiders and wires
/// name none.
pub open spec fn operations_of(h: ExprV) -> Seq<Seq<char>>
    decreases h, 1int,
{
    match h {
        ExprV::Composition(ps) => operations_of_all(ps),
        ExprV::Tensor(ps) => operations_of_all(ps),
        ExprV::Operation(op) => seq![op],
        _ => Seq::empty(),
    }
}

/// The operations of a list of h-expressions, one after the other.
pub open spec fn operations_of_all(ps: Seq<ExprV>) -> Seq<Seq<char>>
    decreases ps, 0int,
{
    if ps.len() == 0 {
        Seq::empty()
    } else {
        operations_of_all(ps.drop_last()) + operations_of(ps.last())
    }
}

/// Appends the operations that `h` names to `operations`.
pub fn collect_operations(h: &Expr, operations: &mut Vec<String>)
    ensures
        final(operations)@.map_values(|s: String| s@) == old(operations)@.map_values(|s: String| s@) + operations_of(
            expr_view(*h),
        ),
    decreases h, 1int,
{
    match h {
        Expr::Composition(parts) => {
            proof {
                assert(decreases_to!(*h => *parts));
            }
            collect_operations_all(parts, operations);
        },
        Expr::Tensor(parts) => {
            proof {
                assert(decreases_to!(*h => *parts));
            }
            collect_operations_all(parts, operations);
        },
        Expr::Operation(op) => {
            let ghost before = operations@;
            operations.push(op.clone());
            proof {
                assert(operations@.map_values(|s: String| s@) =~= before.map_values(|s: String| s@) + seq![op@]);
            }
        },
        _ => {
            proof {
                assert(operations@.map_values(|s: String| s@) =~= operations@.map_values(|s: String| s@) + Seq::<Seq<char>>::empty());
            }
        },
    }
}

/// Appends the operations of each part, in order.
fn collect_operations_all(parts: &Vec<Expr>, operations: &mut Vec<String>)
    ensures
        final(operations)@.map_values(|s: String| s@) == old(operations)@.map_values(|s: String| s@) + operations_of_all(
            exprs_view(parts@),
        ),
    decreases parts, 0int,
{
    let ghost start = operations@.map_values(|s: String| s@);
    let mut i: usize = 0;
    proof {
        assert(parts@.take(0) =~= Seq::<Expr>::empty());
        assert(start + Seq::<Seq<char>>::empty() =~= start);
    }
    while i < parts.len()
        invariant
            i <= parts@.len(),
            operations@.map_values(|s: String| s@) == start + operations_of_all(exprs_view(parts@.take(i as int))),
        decreases parts@.len() - i,
    {
        proof {
            assert(decreases_to!(*parts => parts@));
            assert(decreases_to!(parts@ => parts@[i as int]));
            assert(parts@.take(i + 1).drop_last() =~= parts@.take(i as int));
            assert(exprs_view(parts@.take(i + 1)).drop_last() == exprs_view(parts@.take(i as int)));
        }
        collect_operations(&parts[i], operations);
        proof {
            let a = exprs_view(parts@.take(i as int));
            assert(operations_of_all(exprs_view(parts@.take(i + 1))) == operations_of_all(a) + operations_of(expr_view(parts@[i as int])));
            assert(start + operations_of_all(a) + operations_of(expr_view(parts@[i as int])) =~= start + (operations_of_all(a)
                + operations_of(expr_view(parts@[i as int]))));
        }
        i = i + 1;
    }
    proof {
        assert(parts@.take(parts@.len() as int) =~= parts@);
    }
}

/// The operations that `h` names, left to right.
pub fn operations_in(h: &Expr) -> (r: Vec<String>)
    ensures
        r@.map_values(|s: String| s@) == operations_of(expr_view(*h)),
{
    let mut operations: Vec<String> = Vec::new();
    proof {
        assert(operations@.map_values(|s: String| s@) =~= Seq::<Seq<char>>::empty());
    }
    collect_operations(h, &mut operations);
    proof {
        assert(Seq::<Seq<char>>::empty() + operations_of(expr_view(*h)) =~= operations_of(expr_view(*h)));
    }
    operations
}

/// The builtin `nat` provides the operation `op` of a theory over
/// `syntax_category`: `1` always, and any numeral over `nat` itself.
pub open spec fn builtin_nat_operation(syntax_category: Seq<char>, op: Seq<char>) -> bool {
    op == "1"@ || (syntax_category == "nat"@ && parsed_usize(op) is Some)
}

/// Whether the builtin `nat` provides the operation `op`.
pub fn should_skip_builtin_nat_operation(syntax_category: &str, operation: &str) -> (r: bool)
    ensures
        r == builtin_nat_operation(syntax_category@, operation@),
{
    text_eq(operation, "1") || (text_eq(syntax_category, "nat") && parse_usize(operation).is_some())
}

/// A theory with the arrows of an extension added where it has no arrow of
/// that name; its own arrows win.
pub open spec fn absorbed(t: RawTheoryV, x: ExtensionV) -> RawTheoryV {
    RawTheoryV { name: t.name, syntax_category: t.syntax_category, arrows: x.arrows.union_prefer_right(t.arrows) }
}

/// The theories with one extension folded into the theory it extends, when
/// there is such a theory.
pub open spec fn absorb(ts: Map<Seq<char>, RawTheoryV>, x: ExtensionV) -> Map<Seq<char>, RawTheoryV> {
    if ts.dom().contains(x.theory) {
        ts.insert(x.theory, absorbed(ts[x.theory], x))
    } else {
        ts
    }
}

/// The theories with the extensions folded in, in order.
pub open spec fn absorb_all(ts: Map<Seq<char>, RawTheoryV>, xs: Seq<ExtensionV>) -> Map<Seq<char>, RawTheoryV>
    decreases xs.len(),
{
    if xs.len() == 0 {
        ts
    } else {
        absorb(absorb_all(ts, xs.drop_last()), xs.last())
    }
}

/// Adds the arrows of an extension to a theory where the theory has no
/// arrow of that name.
fn absorb_arrows(t: RawTheory, x: &Extension) -> (r: RawTheory)
    requires
        t.wf(),
        x.wf(),
    ensures
        r.wf(),
        r@ == absorbed(t@, x@),
{
    let ghost t0 = t@;
    let RawTheory { name, syntax_category, mut arrows } = t;
    let ghost orig = arrows@;
    let xs = &x.arrows;
    let mut j: usize = 0;
    proof {
        lemma_keyed_map(xs@);
        assert(arrow_map(xs@.take(0)) =~= Map::<Seq<char>, ArrowV>::empty());
        assert(arrow_map(xs@.take(0)).union_prefer_right(arrow_map(orig)) =~= arrow_map(orig));
    }
    while j < xs.len()
        invariant
            j <= xs@.len(),
            sorted_keys(xs@),
            sorted_keys(arrows@),
            arrow_map(arrows@) == arrow_map(xs@.take(j as int)).union_prefer_right(arrow_map(orig)),
        decreases xs@.len() - j,
    {
        let a = &xs[j];
        let k = a.key();
        let ghost xm = arrow_map(xs@.take(j as int));
        let ghost om = arrow_map(orig);
        proof {
            assert(xs@.take(j + 1).drop_last() =~= xs@.take(j as int));
            assert(keyed_map(xs@.take(j + 1)) == keyed_map(xs@.take(j as int)).insert(a.key_of(), *a));
            assert(arrow_map(xs@.take(j + 1)) =~= xm.insert(a@.name, a@));
            crate::raw::lemma_sorted_take(xs@, j as int);
            lemma_keyed_map(xs@.take(j as int));
            if has_key(xs@.take(j as int), a.key_of()) {
                let i = choose|i: int| 0 <= i < xs@.take(j as int).len() && #[trigger] xs@.take(j as int)[i].key_of() == a.key_of();
                assert(xs@.take(j as int)[i] == xs@[i]);
                assert(crate::order::seq_lt(xs@[i].key_of(), xs@[j as int].key_of()));
                crate::order::lemma_lt_irreflexive(a.key_of());
            }
            assert(!xm.dom().contains(a@.name));
        }
        let q = position(&arrows, k);
        proof {
            lemma_position_has_key(arrows@, a.key_of(), q as int);
            lemma_keyed_map(arrows@);
            assert(arrow_map(arrows@).dom() =~= keyed_map(arrows@).dom());
        }
        if q < arrows.len() && text_eq(arrows[q].key(), k) {
            proof {
                assert(arrow_map(arrows@).dom().contains(a@.name));
                assert(om.dom().contains(a@.name));
                assert(xm.insert(a@.name, a@).union_prefer_right(om) =~= xm.union_prefer_right(om));
            }
        } else {
            let c = a.copy();
            proof {
                assert(!has_key(arrows@, a.key_of())) by {
                    if has_key(arrows@, a.key_of()) {
                        let i = choose|i: int| 0 <= i < arrows@.len() && #[trigger] arrows@[i].key_of() == a.key_of();
                    }
                }
                assert(!keyed_map(arrows@).dom().contains(a.key_of()));
                assert(!arrow_map(arrows@).dom().contains(a@.name));
                assert(!om.dom().contains(a@.name));
                lemma_insert_at_position(arrows@, c, q as int);
                assert(keyed_map(arrows@).insert(c.key_of(), c).map_values(|y: RawTheoryArrow| y@) =~= arrow_map(arrows@).insert(a@.name, a@));
                assert(xm.insert(a@.name, a@).union_prefer_right(om) =~= xm.union_prefer_right(om).insert(a@.name, a@));
            }
            arrows.insert(q, c);
        }
        j = j + 1;
    }
    proof {
        assert(xs@.take(xs@.len() as int) =~= xs@);
    }
    RawTheory { name, syntax_category, arrows }
}

/// The raw theories with every extension folded into the theory it extends,
/// where that theory has no arrow of the name yet; extensions of theories
/// that are not there are dropped.
pub fn with_extensions_lossy(raw: RawTheorySet) -> (r: RawTheorySet)
    requires
        raw.wf(),
    ensures
        r.wf(),
        r@.theories == absorb_all(raw@.theories, raw@.extensions),
        r@.extensions.len() == 0,
{
    let ghost raw_view = raw@;
    let RawTheorySet { mut theories, extensions } = raw;
    let mut i: usize = 0;
    proof {
        assert(extensions_view(extensions@).take(0) =~= Seq::<ExtensionV>::empty());
    }
    while i < extensions.len()
        invariant
            i <= extensions@.len(),
            sorted_keys(theories@),
            forall|k: int| 0 <= k < theories@.len() ==> (#[trigger] theories@[k]).wf(),
            forall|k: int| 0 <= k < extensions@.len() ==> (#[trigger] extensions@[k]).wf(),
            raw_view.extensions == extensions_view(extensions@),
            theory_map(theories@) == absorb_all(raw_view.theories, extensions_view(extensions@).take(i as int)),
        decreases extensions@.len() - i,
    {
        let x = &extensions[i];
        let ghost ts = theory_map(theories@);
        proof {
            let xv = extensions_view(extensions@);
            assert(xv.take(i + 1).drop_last() =~= xv.take(i as int));
            assert(xv.take(i + 1).last() == x@);
        }
        let p = position(&theories, x.theory.as_str());
        proof {
            lemma_position_has_key(theories@, x.theory@, p as int);
            lemma_keyed_map(theories@);
            assert(ts.dom() =~= keyed_map(theories@).dom());
        }
        if p < theories.len() && text_eq(theories[p].key(), x.theory.as_str()) {
            let ghost before = theories@;
            let t = theories.remove(p);
            proof {
                assert(before[p as int] == t);
                assert(keyed_map(before)[t.key_of()] == t);
                assert(ts[x@.theory] == t@);
                assert(before =~= theories@.insert(p as int, t));
            }
            let t2 = absorb_arrows(t, x);
            proof {
                lemma_update_same_key(before, p as int, t2);
                assert(before.update(p as int, t2) =~= theories@.insert(p as int, t2));
                assert(keyed_map(before).insert(t2.key_of(), t2).map_values(|y: RawTheory| y@) =~= ts.insert(x@.theory, t2@));
                assert forall|k: int| 0 <= k < theories@.insert(p as int, t2).len() implies (#[trigger] theories@.insert(p as int, t2)[k]).wf() by {
                    if k != p {
                        assert(theories@.insert(p as int, t2)[k] == before[k]);
                    }
                }
            }
            theories.insert(p, t2);
        } else {
            proof {
                assert(!ts.dom().contains(x@.theory)) by {
                    if has_key(theories@, x.theory@) {
                        let k = choose|k: int| 0 <= k < theories@.len() && #[trigger] theories@[k].key_of() == x.theory@;
                    }
                }
            }
        }
        i = i + 1;
    }
    proof {
        assert(extensions_view(extensions@).take(extensions@.len() as int) =~= extensions_view(extensions@));
    }
    let r = RawTheorySet { theories, extensions: Vec::new() };
    proof {
        assert(extensions_view(r.extensions@) =~= Seq::<ExtensionV>::empty());
    }
    r
}

/// An arrow of a theory, by their names.
pub type Pair = (Seq<char>, Seq<char>);

/// The theory `p.0` has an arrow `p.1`.
pub open spec fn pair_exists(s: RawTheorySetV, p: Pair) -> bool {
    s.theories.dom().contains(p.0) && s.theories[p.0].arrows.dom().contains(p.1)
}

/// The type maps of `a` name the operation `op`.
pub open spec fn mentions(a: ArrowV, op: Seq<char>) -> bool {
    operations_of(a.source).contains(op) || operations_of(a.target).contains(op)
}

/// The arrow `p` exists and its type maps use `q`: an operation of the
/// syntax category of `p`'s theory that the builtin `nat` does not provide.
pub open spec fn depends_on(s: RawTheorySetV, p: Pair, q: Pair) -> bool {
    &&& pair_exists(s, p)
    &&& q.0 == s.theories[p.0].syntax_category
    &&& !builtin_nat_operation(s.theories[p.0].syntax_category, q.1)
    &&& mentions(s.theories[p.0].arrows[p.1], q.1)
}

/// A chain of arrows from `start`, each used by the one before it.
pub open spec fn is_chain(s: RawTheorySetV, start: Pair, path: Seq<Pair>) -> bool {
    &&& path.len() >= 1
    &&& path[0] == start
    &&& forall|i: int| 0 <= i < path.len() - 1 ==> #[trigger] depends_on(s, path[i], path[i + 1])
}

/// `q` is `start` or an arrow that it uses, directly or not.
pub open spec fn needed_by(s: RawTheorySetV, start: Pair, q: Pair) -> bool {
    exists|path: Seq<Pair>| #[trigger] is_chain(s, start, path) && path.last() == q
}

/// The names of a list of pairs of strings.
pub open spec fn pair_names(v: Seq<(String, String)>) -> Seq<Pair> {
    v.map_values(|p: (String, String)| (p.0@, p.1@))
}

/// A chain extended by an arrow that its last one uses.
pub proof fn lemma_extend_chain(s: RawTheorySetV, start: Pair, p: Pair, q: Pair)
    requires
        needed_by(s, start, p),
        depends_on(s, p, q),
    ensures
        needed_by(s, start, q),
{
    let path = choose|path: Seq<Pair>| #[trigger] is_chain(s, start, path) && path.last() == p;
    let longer = path.push(q);
    assert forall|i: int| 0 <= i < longer.len() - 1 implies #[trigger] depends_on(s, longer[i], longer[i + 1]) by {
        if i < path.len() - 1 {
            assert(longer[i] == path[i] && longer[i + 1] == path[i + 1]);
        } else {
            assert(longer[i] == p);
        }
    }
    assert(is_chain(s, start, longer));
}

/// A set that holds `start` and every arrow used by one of its arrows holds
/// the end of every chain from `start`.
pub proof fn lemma_chain_within(s: RawTheorySetV, start: Pair, v: Seq<Pair>, path: Seq<Pair>)
    requires
        is_chain(s, start, path),
        v.contains(start),
        forall|x: Pair, q: Pair| v.contains(x) && #[trigger] depends_on(s, x, q) ==> v.contains(q),
    ensures
        v.contains(path.last()),
    decreases path.len(),
{
    if path.len() > 1 {
        let shorter = path.drop_last();
        assert forall|i: int| 0 <= i < shorter.len() - 1 implies #[trigger] depends_on(s, shorter[i], shorter[i + 1]) by {
            assert(depends_on(s, path[i], path[i + 1]));
        }
        lemma_chain_within(s, start, v, shorter);
        let i = path.len() - 2;
        assert(depends_on(s, path[i], path[i + 1]));
        assert(shorter.last() == path[i]);
    }
}

/// The arrows of a theory, by names.
pub open spec fn theory_pairs(t: RawTheory) -> Seq<Pair> {
    t.arrows@.map_values(|a: RawTheoryArrow| (t.name@, a.name@))
}

/// The arrows of all the theories of a list, by names.
pub open spec fn all_pairs(ts: Seq<RawTheory>) -> Seq<Pair>
    decreases ts.len(),
{
    if ts.len() == 0 {
        Seq::empty()
    } else {
        all_pairs(ts.drop_last()) + theory_pairs(ts.last())
    }
}

/// Each arrow of each theory of the list is among its pairs.
proof fn lemma_all_pairs(ts: Seq<RawTheory>, i: int, j: int)
    requires
        0 <= i < ts.len(),
        0 <= j < ts[i].arrows@.len(),
    ensures
        all_pairs(ts).contains((ts[i].name@, ts[i].arrows@[j].name@)),
    decreases ts.len(),
{
    let x = (ts[i].name@, ts[i].arrows@[j].name@);
    if i == ts.len() - 1 {
        assert(theory_pairs(ts.last())[j] == x);
        assert((all_pairs(ts.drop_last()) + theory_pairs(ts.last()))[all_pairs(ts.drop_last()).len() + j] == x);
    } else {
        assert(ts.drop_last()[i] == ts[i]);
        lemma_all_pairs(ts.drop_last(), i, j);
        let k = choose|k: int| 0 <= k < all_pairs(ts.drop_last()).len() && all_pairs(ts.drop_last())[k] == x;
        assert((all_pairs(ts.drop_last()) + theory_pairs(ts.last()))[k] == x);
    }
}

/// Every arrow of a well-formed set is among the pairs of its theories.
proof fn lemma_exists_in_pairs(raw: RawTheorySet, p: Pair)
    requires
        raw.wf(),
        pair_exists(raw@, p),
    ensures
        all_pairs(raw.theories@).contains(p),
{
    let ts = raw.theories@;
    lemma_keyed_map(ts);
    assert(has_key(ts, p.0));
    let i = choose|i: int| 0 <= i < ts.len() && #[trigger] ts[i].key_of() == p.0;
    assert(keyed_map(ts)[p.0] == ts[i]);
    let t = ts[i];
    assert(raw@.theories[p.0] == t@);
    assert(t.wf());
    lemma_keyed_map(t.arrows@);
    assert(arrow_map(t.arrows@).dom().contains(p.1));
    assert(has_key(t.arrows@, p.1));
    let j = choose|j: int| 0 <= j < t.arrows@.len() && #[trigger] t.arrows@[j].key_of() == p.1;
    lemma_all_pairs(ts, i, j);
}

/// A list without repeats, drawn from `u`, is no longer than `u`.
proof fn lemma_distinct_bound<A>(v: Seq<A>, u: Seq<A>)
    requires
        v.no_duplicates(),
        forall|x: A| v.contains(x) ==> u.contains(x),
    ensures
        v.len() <= u.len(),
{
    v.unique_seq_to_set();
    u.lemma_cardinality_of_set();
    assert(v.to_set().subset_of(u.to_set()));
    vstd::set_lib::lemma_len_subset(v.to_set(), u.to_set());
}

/// Whether the list holds the pair.
pub(crate) fn contains_pair(v: &Vec<(String, String)>, p: &(String, String)) -> (r: bool)
    ensures
        r == pair_names(v@).contains((p.0@, p.1@)),
{
    let mut i: usize = 0;
    while i < v.len()
        invariant
            i <= v@.len(),
            forall|j: int| 0 <= j < i ==> (#[trigger] pair_names(v@)[j]) != (p.0@, p.1@),
        decreases v@.len() - i,
    {
        if text_eq(v[i].0.as_str(), p.0.as_str()) && text_eq(v[i].1.as_str(), p.1.as_str()) {
            assert(pair_names(v@)[i as int] == (p.0@, p.1@));
            return true;
        }
        assert(pair_names(v@)[i as int] == (v@[i as int].0@, v@[i as int].1@));
        i = i + 1;
    }
    false
}

/// The uses of the operations `ns` in the syntax category `cat`: each
/// operation that the builtin `nat` does not provide, paired with `cat`.
pub open spec fn uses_of(cat: Seq<char>, ns: Seq<Seq<char>>) -> Seq<Pair>
    decreases ns.len(),
{
    if ns.len() == 0 {
        Seq::empty()
    } else {
        uses_of(cat, ns.drop_last()) + if !builtin_nat_operation(cat, ns.last()) {
            seq![(cat, ns.last())]
        } else {
            Seq::empty()
        }
    }
}

/// What the uses are.
proof fn lemma_uses_of(cat: Seq<char>, ns: Seq<Seq<char>>)
    ensures
        forall|x: Pair| #[trigger] uses_of(cat, ns).contains(x) <==> (x.0 == cat && ns.contains(x.1) && !builtin_nat_operation(cat, x.1)),
    decreases ns.len(),
{
    if ns.len() > 0 {
        let init = ns.drop_last();
        lemma_uses_of(cat, init);
        let tail: Seq<Pair> = if !builtin_nat_operation(cat, ns.last()) { seq![(cat, ns.last())] } else { Seq::empty() };
        assert forall|x: Pair| #[trigger] uses_of(cat, ns).contains(x) <==> (x.0 == cat && ns.contains(x.1) && !builtin_nat_operation(cat, x.1)) by {
            lemma_contains_add(uses_of(cat, init), tail, x);
            if ns.contains(x.1) {
                let k = choose|k: int| 0 <= k < ns.len() && ns[k] == x.1;
                if k < ns.len() - 1 {
                    assert(init[k] == x.1);
                }
            }
            if init.contains(x.1) {
                let k = choose|k: int| 0 <= k < init.len() && init[k] == x.1;
                assert(ns[k] == x.1);
            }
            if tail.contains(x) {
                assert(tail[0] == x);
            }
            if x.0 == cat && x.1 == ns.last() && !builtin_nat_operation(cat, x.1) {
                assert(tail[0] == x);
            }
        }
    }
}

/// What a joined list holds.
pub(crate) proof fn lemma_contains_add<A>(a: Seq<A>, b: Seq<A>, x: A)
    ensures
        (a + b).contains(x) <==> (a.contains(x) || b.contains(x)),
{
    if (a + b).contains(x) {
        let k = choose|k: int| 0 <= k < (a + b).len() && (a + b)[k] == x;
        if k < a.len() {
            assert(a[k] == x);
        } else {
            assert(b[k - a.len()] == x);
        }
    }
    if a.contains(x) {
        let k = choose|k: int| 0 <= k < a.len() && a[k] == x;
        assert((a + b)[k] == x);
    }
    if b.contains(x) {
        let k = choose|k: int| 0 <= k < b.len() && b[k] == x;
        assert((a + b)[a.len() + k] == x);
    }
}

/// Pushes `(cat, op)` for each operation `op` that the builtin `nat` does
/// not provide, in order.
fn push_uses(stack: &mut Vec<(String, String)>, cat: &String, ops: &Vec<String>)
    ensures
        pair_names(final(stack)@) == pair_names(old(stack)@) + uses_of(cat@, ops@.map_values(|o: String| o@)),
{
    let ghost start = pair_names(stack@);
    let ghost names = ops@.map_values(|o: String| o@);
    let mut i: usize = 0;
    proof {
        assert(names.take(0) =~= Seq::<Seq<char>>::empty());
        assert(start + uses_of(cat@, names.take(0)) =~= start);
    }
    while i < ops.len()
        invariant
            i <= ops@.len(),
            names == ops@.map_values(|o: String| o@),
            pair_names(stack@) == start + uses_of(cat@, names.take(i as int)),
        decreases ops@.len() - i,
    {
        let ghost before = pair_names(stack@);
        let op = &ops[i];
        proof {
            assert(names[i as int] == op@);
            assert(names.take(i + 1).drop_last() =~= names.take(i as int));
            assert(names.take(i + 1).last() == op@);
        }
        if !should_skip_builtin_nat_operation(cat.as_str(), op.as_str()) {
            stack.push((cat.clone(), op.clone()));
            proof {
                assert(pair_names(stack@) =~= before.push((cat@, op@)));
                assert(pair_names(stack@) =~= start + uses_of(cat@, names.take(i + 1)));
            }
        } else {
            proof {
                assert(uses_of(cat@, names.take(i + 1)) =~= uses_of(cat@, names.take(i as int)));
            }
        }
        i = i + 1;
    }
    proof {
        assert(names.take(ops@.len() as int) =~= names);
    }
}

/// The arrows that the arrow `arrow` of theory `theory` uses, itself
/// included: those its type maps name in its theory's syntax category,
/// other than what the builtin `nat` provides, and so on through them. Each
/// comes once. `None` when one of them is not in the set.
pub fn collect_arrow_dependencies(raw: &RawTheorySet, theory: &str, arrow: &str) -> (r: Option<Vec<(String, String)>>)
    requires
        raw.wf(),
    ensures
        r is Some <==> forall|q: Pair| needed_by(raw@, (theory@, arrow@), q) ==> pair_exists(raw@, q),
        match r {
            Some(v) => {
                &&& pair_names(v@).no_duplicates()
                &&& forall|q: Pair| #[trigger] pair_names(v@).contains(q) <==> needed_by(raw@, (theory@, arrow@), q)
            },
            None => exists|q: Pair| needed_by(raw@, (theory@, arrow@), q) && !pair_exists(raw@, q),
        },
{
    let ghost s = raw@;
    let ghost start: Pair = (theory@, arrow@);
    let ghost universe = all_pairs(raw.theories@);
    let mut visited: Vec<(String, String)> = Vec::new();
    let mut stack: Vec<(String, String)> = Vec::new();
    stack.push((theory.to_string(), arrow.to_string()));
    proof {
        assert(pair_names(visited@) =~= Seq::<Pair>::empty());
        assert(pair_names(stack@)[0] == start);
        let path = seq![start];
        assert(is_chain(s, start, path));
        assert forall|x: Pair| #[trigger] pair_names(stack@).contains(x) implies needed_by(s, start, x) by {
            let k = choose|k: int| 0 <= k < pair_names(stack@).len() && pair_names(stack@)[k] == x;
            assert(k == 0);
            assert(is_chain(s, start, path) && path.last() == x);
        }
    }
    while stack.len() > 0
        invariant
            raw.wf(),
            s == raw@,
            start == (theory@, arrow@),
            universe == all_pairs(raw.theories@),
            pair_names(visited@).no_duplicates(),
            forall|x: Pair| #[trigger] pair_names(visited@).contains(x) ==> pair_exists(s, x) && needed_by(s, start, x),
            forall|x: Pair| #[trigger] pair_names(visited@).contains(x) ==> universe.contains(x),
            forall|x: Pair| #[trigger] pair_names(stack@).contains(x) ==> needed_by(s, start, x),
            forall|x: Pair, q: Pair|
                pair_names(visited@).contains(x) && #[trigger] depends_on(s, x, q) ==> pair_names(visited@).contains(q)
                    || pair_names(stack@).contains(q),
            pair_names(visited@).contains(start) || pair_names(stack@).contains(start),
        decreases universe.len() - visited@.len(), stack@.len(),
    {
        let ghost old_stack = pair_names(stack@);
        let p = stack.pop().unwrap();
        let ghost pn: Pair = (p.0@, p.1@);
        proof {
            assert(old_stack == pair_names(stack@).push(pn));
            assert(old_stack[old_stack.len() - 1] == pn);
            assert(old_stack.contains(pn));
            assert(needed_by(s, start, pn));
            assert forall|x: Pair| #[trigger] old_stack.contains(x) implies pair_names(stack@).contains(x) || x == pn by {
                let k = choose|k: int| 0 <= k < old_stack.len() && old_stack[k] == x;
                if k < old_stack.len() - 1 {
                    assert(pair_names(stack@)[k] == x);
                }
            }
            assert forall|x: Pair| #[trigger] pair_names(stack@).contains(x) implies old_stack.contains(x) by {
                let k = choose|k: int| 0 <= k < pair_names(stack@).len() && pair_names(stack@)[k] == x;
                assert(old_stack[k] == x);
            }
            lemma_visited_lengths(pair_names(visited@), universe);
        }
        if contains_pair(&visited, &p) {
            continue;
        }
        let t = match raw.theory(p.0.as_str()) {
            Some(t) => t,
            None => {
                proof {
                    assert(!pair_exists(s, pn));
                }
                return None;
            },
        };
        let a = match t.arrow(p.1.as_str()) {
            Some(a) => a,
            None => {
                proof {
                    assert(!pair_exists(s, pn));
                }
                return None;
            },
        };
        let ghost before_visited = pair_names(visited@);
        visited.push(p);
        proof {
            assert(pair_exists(s, pn));
            assert(pair_names(visited@) =~= before_visited.push(pn));
            lemma_exists_in_pairs(*raw, pn);
            assert forall|x: Pair| pair_names(visited@).contains(x) implies universe.contains(x) by {
                if x != pn {
                    let k = choose|k: int| 0 <= k < pair_names(visited@).len() && pair_names(visited@)[k] == x;
                    assert(before_visited[k] == x);
                    assert(before_visited.contains(x));
                }
            }
            lemma_distinct_bound(pair_names(visited@), universe);
        }
        let source_ops = operations_in(&a.type_maps.0);
        let target_ops = operations_in(&a.type_maps.1);
        let ghost mid = pair_names(stack@);
        push_uses(&mut stack, &t.syntax_category, &source_ops);
        push_uses(&mut stack, &t.syntax_category, &target_ops);
        proof {
            let cat = t.syntax_category@;
            lemma_uses_of(cat, source_ops@.map_values(|o: String| o@));
            lemma_uses_of(cat, target_ops@.map_values(|o: String| o@));
            let after_source = mid + uses_of(cat, source_ops@.map_values(|o: String| o@));
            assert forall|x: Pair| #[trigger] pair_names(stack@).contains(x) <==> (mid.contains(x) || (x.0 == cat && (source_ops@.map_values(|o: String| o@).contains(x.1) || target_ops@.map_values(|o: String| o@).contains(x.1)) && !builtin_nat_operation(cat, x.1))) by {
                lemma_contains_add(after_source, uses_of(cat, target_ops@.map_values(|o: String| o@)), x);
                lemma_contains_add(mid, uses_of(cat, source_ops@.map_values(|o: String| o@)), x);
            }
            assert(s.theories[pn.0] == t@);
            assert(s.theories[pn.0].arrows[pn.1] == a@);
            assert forall|x: Pair| #[trigger] pair_names(stack@).contains(x) implies needed_by(s, start, x) by {
                if !mid.contains(x) {
                    assert(depends_on(s, pn, x));
                    lemma_extend_chain(s, start, pn, x);
                }
            }
            assert forall|x: Pair, q: Pair|
                pair_names(visited@).contains(x) && #[trigger] depends_on(s, x, q) implies pair_names(visited@).contains(q)
                    || pair_names(stack@).contains(q) by {
                if x == pn {
                    assert(mentions(a@, q.1));
                } else {
                    assert(before_visited.contains(x)) by {
                        let k = choose|k: int| 0 <= k < pair_names(visited@).len() && pair_names(visited@)[k] == x;
                        assert(before_visited[k] == x);
                    }
                    if before_visited.contains(q) {
                        let k = choose|k: int| 0 <= k < before_visited.len() && before_visited[k] == q;
                        assert(pair_names(visited@)[k] == q);
                    } else if q == pn {
                        assert(pair_names(visited@)[before_visited.len() as int] == q);
                    }
                }
            }
            assert forall|x: Pair| #[trigger] pair_names(visited@).contains(x) implies pair_exists(s, x) && needed_by(s, start, x)
                && universe.contains(x) by {
                if x != pn {
                    let k = choose|k: int| 0 <= k < pair_names(visited@).len() && pair_names(visited@)[k] == x;
                    assert(before_visited[k] == x);
                    assert(before_visited.contains(x));
                } else {
                    assert(pair_exists(s, pn));
                    assert(needed_by(s, start, pn));
                    assert(universe.contains(pn));
                }
            }
            if start == pn {
                assert(pair_names(visited@)[before_visited.len() as int] == start);
            } else if before_visited.contains(start) {
                let k = choose|k: int| 0 <= k < before_visited.len() && before_visited[k] == start;
                assert(pair_names(visited@)[k] == start);
            }
        }
    }
    proof {
        let v = pair_names(visited@);
        assert forall|q: Pair| needed_by(s, start, q) implies #[trigger] v.contains(q) by {
            let path = choose|path: Seq<Pair>| #[trigger] is_chain(s, start, path) && path.last() == q;
            assert forall|x: Pair, y: Pair| v.contains(x) && #[trigger] depends_on(s, x, y) implies v.contains(y) by {
                assert(!pair_names(stack@).contains(y));
            }
            lemma_chain_within(s, start, v, path);
        }
        assert forall|q: Pair| needed_by(s, start, q) implies pair_exists(s, q) by {
            assert(v.contains(q));
        }
    }
    Some(visited)
}

/// A list without repeats drawn from `u` is no longer than `u`.
proof fn lemma_visited_lengths(v: Seq<Pair>, u: Seq<Pair>)
    requires
        v.no_duplicates(),
        forall|x: Pair| #[trigger] v.contains(x) ==> u.contains(x),
    ensures
        v.len() <= u.len(),
{
    lemma_distinct_bound(v, u);
}

/// An arrow with its definition dropped.
pub open spec fn declared_only(a: ArrowV) -> ArrowV {
    ArrowV { name: a.name, source: a.source, target: a.target, definition: None }
}

/// The theories that the arrows `ps` belong to, each with just those of
/// its arrows, definitions dropped.
pub open spec fn needed_theories(s: RawTheorySetV, ps: Seq<Pair>) -> Map<Seq<char>, RawTheoryV> {
    Map::new(
        |t: Seq<char>| exists|a: Seq<char>| #[trigger] ps.contains((t, a)),
        |t: Seq<char>|
            RawTheoryV {
                name: t,
                syntax_category: s.theories[t].syntax_category,
                arrows: Map::new(|a: Seq<char>| ps.contains((t, a)), |a: Seq<char>| declared_only(s.theories[t].arrows[a])),
            },
    )
}

/// One more needed arrow adds it to its theory, or adds its theory with
/// just that arrow.
pub proof fn lemma_needed_step(s: RawTheorySetV, cur: Seq<Pair>, pn: Pair)
    requires
        !cur.contains(pn),
    ensures
        needed_theories(s, cur.push(pn)) == needed_theories(s, cur).insert(
            pn.0,
            RawTheoryV {
                name: pn.0,
                syntax_category: s.theories[pn.0].syntax_category,
                arrows: (if needed_theories(s, cur).dom().contains(pn.0) {
                    needed_theories(s, cur)[pn.0].arrows
                } else {
                    Map::empty()
                }).insert(pn.1, declared_only(s.theories[pn.0].arrows[pn.1])),
            },
        ),
{
    let nxt = cur.push(pn);
    let prev = needed_theories(s, cur);
    let next = needed_theories(s, nxt);
    assert forall|x: Pair| #[trigger] nxt.contains(x) <==> (cur.contains(x) || x == pn) by {
        if nxt.contains(x) {
            let k = choose|k: int| 0 <= k < nxt.len() && nxt[k] == x;
            if k < cur.len() {
                assert(cur[k] == x);
            }
        }
        if cur.contains(x) {
            let k = choose|k: int| 0 <= k < cur.len() && cur[k] == x;
            assert(nxt[k] == x);
        }
        if x == pn {
            assert(nxt[cur.len() as int] == x);
        }
    }
    let want = prev.insert(
        pn.0,
        RawTheoryV {
            name: pn.0,
            syntax_category: s.theories[pn.0].syntax_category,
            arrows: (if prev.dom().contains(pn.0) {
                prev[pn.0].arrows
            } else {
                Map::empty()
            }).insert(pn.1, declared_only(s.theories[pn.0].arrows[pn.1])),
        },
    );
    assert forall|t: Seq<char>| #[trigger] next.dom().contains(t) <==> want.dom().contains(t) by {
        if next.dom().contains(t) {
            let a = choose|a: Seq<char>| #[trigger] nxt.contains((t, a));
            if t != pn.0 {
                assert(cur.contains((t, a)));
            }
        }
        if prev.dom().contains(t) {
            let a = choose|a: Seq<char>| #[trigger] cur.contains((t, a));
            assert(nxt.contains((t, a)));
        }
        if t == pn.0 {
            assert(nxt.contains((pn.0, pn.1)));
        }
    }
    assert forall|t: Seq<char>| #[trigger] next.dom().contains(t) implies next[t] == want[t] by {
        if t == pn.0 {
            assert(next[t].arrows =~= want[t].arrows) by {
                assert forall|a: Seq<char>| next[t].arrows.dom().contains(a) <==> want[t].arrows.dom().contains(a) by {
                    assert(nxt.contains((t, a)) <==> (cur.contains((t, a)) || (t, a) == pn));
                    if cur.contains((t, a)) {
                        assert(prev.dom().contains(t));
                    }
                }
            }
        } else {
            assert(next[t].arrows =~= prev[t].arrows) by {
                assert forall|a: Seq<char>| nxt.contains((t, a)) <==> cur.contains((t, a)) by {}
            }
        }
    }
    assert(next =~= want);
}

/// The raw theories that the arrow `arrow` of theory `theory` needs, as
/// `collect_arrow_dependencies` finds them, each with just the needed
/// arrows and without definitions; `None` when one of them is missing.
pub fn needed_subset(raw: &RawTheorySet, theory: &str, arrow: &str) -> (r: Option<RawTheorySet>)
    requires
        raw.wf(),
    ensures
        r is Some <==> forall|q: Pair| needed_by(raw@, (theory@, arrow@), q) ==> pair_exists(raw@, q),
        match r {
            Some(sub) => {
                &&& sub.wf()
                &&& sub@.extensions.len() == 0
                &&& exists|ps: Seq<Pair>|
                    (forall|q: Pair| #[trigger] ps.contains(q) <==> needed_by(raw@, (theory@, arrow@), q)) && sub@.theories
                        == needed_theories(raw@, ps)
            },
            None => true,
        },
{
    let needed = match collect_arrow_dependencies(raw, theory, arrow) {
        Some(v) => v,
        None => {
            return None;
        },
    };
    let ghost s = raw@;
    let ghost ps = pair_names(needed@);
    let mut out: Vec<RawTheory> = Vec::new();
    let mut i: usize = 0;
    proof {
        assert(needed_theories(s, ps.take(0)) =~= theory_map(out@));
    }
    while i < needed.len()
        invariant
            raw.wf(),
            s == raw@,
            ps == pair_names(needed@),
            ps.no_duplicates(),
            forall|q: Pair| #[trigger] ps.contains(q) ==> pair_exists(s, q),
            i <= needed@.len(),
            sorted_keys(out@),
            forall|k: int| 0 <= k < out@.len() ==> (#[trigger] out@[k]).wf(),
            theory_map(out@) == needed_theories(s, ps.take(i as int)),
        decreases needed@.len() - i,
    {
        let pair = &needed[i];
        let ghost pn: Pair = (pair.0@, pair.1@);
        let ghost cur = ps.take(i as int);
        let ghost prev = needed_theories(s, cur);
        proof {
            assert(ps[i as int] == pn);
            assert(ps.contains(pn));
            assert(ps.take(i + 1) =~= cur.push(pn));
            assert(!cur.contains(pn)) by {
                if cur.contains(pn) {
                    let k = choose|k: int| 0 <= k < cur.len() && cur[k] == pn;
                    assert(ps[k] == ps[i as int]);
                }
            }
            lemma_needed_step(s, cur, pn);
        }
        let th = match raw.theory(pair.0.as_str()) {
            Some(th) => th,
            None => {
                proof {
                    assert(false);
                }
                return None;
            },
        };
        let ar = match th.arrow(pair.1.as_str()) {
            Some(ar) => ar,
            None => {
                proof {
                    assert(false);
                }
                return None;
            },
        };
        let stripped = RawTheoryArrow {
            name: ar.name.clone(),
            type_maps: (crate::expr::clone_expr(&ar.type_maps.0), crate::expr::clone_expr(&ar.type_maps.1)),
            definition: None,
        };
        proof {
            assert(stripped@ == declared_only(s.theories[pn.0].arrows[pn.1]));
            assert(stripped.key_of() == pn.1);
        }
        let ghost before = out@;
        let p = position(&out, pair.0.as_str());
        proof {
            lemma_position_has_key(out@, pn.0, p as int);
            lemma_keyed_map(out@);
            assert(theory_map(out@).dom() =~= keyed_map(out@).dom());
        }
        let t2 = if p < out.len() && text_eq(out[p].key(), pair.0.as_str()) {
            let t = out.remove(p);
            proof {
                assert(before[p as int] == t);
                assert(keyed_map(before)[pn.0] == t);
                assert(prev[pn.0] == t@);
                assert(prev.dom().contains(pn.0));
            }
            let RawTheory { name, syntax_category, mut arrows } = t;
            let q = position(&arrows, pair.1.as_str());
            proof {
                lemma_position_has_key(arrows@, pn.1, q as int);
                lemma_keyed_map(arrows@);
                assert(arrow_map(arrows@).dom() =~= keyed_map(arrows@).dom());
                assert(!prev[pn.0].arrows.dom().contains(pn.1));
                assert(!has_key(arrows@, pn.1)) by {
                    if has_key(arrows@, pn.1) {
                        assert(keyed_map(arrows@).dom().contains(pn.1));
                    }
                }
                lemma_insert_at_position(arrows@, stripped, q as int);
                assert(keyed_map(arrows@).insert(pn.1, stripped).map_values(|y: RawTheoryArrow| y@) =~= arrow_map(arrows@).insert(pn.1, stripped@));
            }
            arrows.insert(q, stripped);
            RawTheory { name, syntax_category, arrows }
        } else {
            let mut arrows: Vec<RawTheoryArrow> = Vec::new();
            arrows.push(stripped);
            proof {
                assert(!has_key(out@, pn.0)) by {
                    if has_key(out@, pn.0) {
                        let k = choose|k: int| 0 <= k < out@.len() && #[trigger] out@[k].key_of() == pn.0;
                    }
                }
                assert(!prev.dom().contains(pn.0));
                assert(arrows@.drop_last() =~= Seq::<RawTheoryArrow>::empty());
                assert(keyed_map(arrows@) == keyed_map(Seq::<RawTheoryArrow>::empty()).insert(pn.1, stripped));
                assert(keyed_map(Seq::<RawTheoryArrow>::empty()) == Map::<Seq<char>, RawTheoryArrow>::empty());
                assert(arrow_map(arrows@) =~= Map::<Seq<char>, ArrowV>::empty().insert(pn.1, stripped@));
            }
            RawTheory { name: th.name.clone(), syntax_category: th.syntax_category.clone(), arrows }
        };
        proof {
            assert(t2.key_of() == pn.0);
            assert(t2@ == needed_theories(s, ps.take(i + 1))[pn.0]);
            if prev.dom().contains(pn.0) {
                let old_list = before;
                lemma_update_same_key(old_list, p as int, t2);
                assert(old_list.update(p as int, t2) =~= out@.insert(p as int, t2));
                assert(keyed_map(old_list).insert(pn.0, t2).map_values(|y: RawTheory| y@) =~= theory_map(old_list).insert(pn.0, t2@));
                assert forall|k: int| 0 <= k < out@.insert(p as int, t2).len() implies (#[trigger] out@.insert(p as int, t2)[k]).wf() by {
                    if k != p {
                        assert(out@.insert(p as int, t2)[k] == old_list[k]);
                    }
                }
            } else {
                lemma_insert_at_position(out@, t2, p as int);
                assert(keyed_map(out@).insert(pn.0, t2).map_values(|y: RawTheory| y@) =~= theory_map(out@).insert(pn.0, t2@));
                assert forall|k: int| 0 <= k < out@.insert(p as int, t2).len() implies (#[trigger] out@.insert(p as int, t2)[k]).wf() by {
                    if k < p {
                        assert(out@.insert(p as int, t2)[k] == out@[k]);
                    } else if k > p {
                        assert(out@.insert(p as int, t2)[k] == out@[k - 1]);
                    }
                }
            }
        }
        out.insert(p, t2);
        i = i + 1;
    }
    proof {
        assert(ps.take(needed@.len() as int) =~= ps);
    }
    let sub = RawTheorySet { theories: out, extensions: Vec::new() };
    proof {
        assert(extensions_view(sub.extensions@) =~= Seq::<ExtensionV>::empty());
        assert(forall|q: Pair| #[trigger] ps.contains(q) <==> needed_by(s, (theory@, arrow@), q));
    }
    Some(sub)
}

} // verus!
