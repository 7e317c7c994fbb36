//! Evaluation of type maps: symbolic values flow along the wires of a graph
//! with explicit spiders, one operation at a time, and every wire must get a
//! single value.
use vstd::prelude::*;
use crate::dual::Dual;
use crate::hypergraph::all_below;
use crate::spiders::WithSpiders;
use crate::text::{decimal, push_char, push_str, text_eq, usize_to_decimal};
use crate::tree::comma_joined;
use crate::tree::Tree;

verus! {

/// A tree as a plain value.
pub enum TreeV {
    Empty,
    Leaf(usize),
    Node(Seq<char>, usize, Seq<TreeV>),
}

/// The plain value of a tree.
pub open spec fn tree_view(t: Tree<(), String>) -> TreeV
    decreases t, 1int,
{
    match t {
        Tree::Empty => TreeV::Empty,
        Tree::Leaf(i, _) => TreeV::Leaf(i),
        Tree::Node(op, i, children) => TreeV::Node(op@, i, trees_view(children@)),
    }
}

/// The plain values of a list of trees.
pub open spec fn trees_view(ts: Seq<Tree<(), String>>) -> Seq<TreeV>
    decreases ts, 0int,
{
    if ts.len() == 0 {
        Seq::empty()
    } else {
        trees_view(ts.drop_last()).push(tree_view(ts.last()))
    }
}

/// The plain values of a list of trees, one by one.
pub proof fn lemma_trees_view(ts: Seq<Tree<(), String>>)
    ensures
        trees_view(ts).len() == ts.len(),
        forall|i: int| 0 <= i < ts.len() ==> #[trigger] trees_view(ts)[i] == tree_view(ts[i]),
    decreases ts.len(),
{
    if ts.len() > 0 {
        lemma_trees_view(ts.drop_last());
        assert forall|i: int| 0 <= i < ts.len() implies #[trigger] trees_view(ts)[i] == tree_view(ts[i]) by {
            if i < ts.len() - 1 {
                assert(ts.drop_last()[i] == ts[i]);
            }
        }
    }
}

/// A copy of a tree.
pub fn clone_tree(t: &Tree<(), String>) -> (r: Tree<(), String>)
    ensures
        tree_view(r) == tree_view(*t),
    decreases t,
{
    match t {
        Tree::Empty => Tree::Empty,
        Tree::Leaf(i, _) => Tree::Leaf(*i, ()),
        Tree::Node(op, i, children) => {
            let mut out: Vec<Tree<(), String>> = Vec::new();
            let mut k: usize = 0;
            while k < children.len()
                invariant
                    k <= children.len(),
                    out.len() == k,
                    *t == Tree::<(), String>::Node(*op, *i, *children),
                    trees_view(out@) == trees_view(children@.take(k as int)),
                decreases children.len() - k,
            {
                proof {
                    assert(*children == t->Node_2);
                    assert(decreases_to!(*t => t->Node_2));
                    assert(decreases_to!(*children => children@));
                    assert(decreases_to!(children@ => children@[k as int]));
                }
                let c = clone_tree(&children[k]);
                let ghost before = out@;
                out.push(c);
                proof {
                    assert(out@.drop_last() =~= before);
                    assert(children@.take(k + 1).drop_last() =~= children@.take(k as int));
                }
                k = k + 1;
            }
            assert(children@.take(children.len() as int) =~= children@);
            let o = op.clone();
            Tree::Node(o, *i, out)
        },
    }
}

/// Whether two trees have the same plain value.
pub fn trees_equal(a: &Tree<(), String>, b: &Tree<(), String>) -> (r: bool)
    ensures
        r == (tree_view(*a) == tree_view(*b)),
    decreases a,
{
    match (a, b) {
        (Tree::Empty, Tree::Empty) => true,
        (Tree::Leaf(i, _), Tree::Leaf(j, _)) => *i == *j,
        (Tree::Node(op1, i1, c1), Tree::Node(op2, i2, c2)) => {
            if *i1 != *i2 || !text_eq(op1.as_str(), op2.as_str()) || c1.len() != c2.len() {
                proof {
                    lemma_trees_view(c1@);
                    lemma_trees_view(c2@);
                }
                return false;
            }
            let mut k: usize = 0;
            proof {
                lemma_trees_view(c1@);
                lemma_trees_view(c2@);
            }
            while k < c1.len()
                invariant
                    k <= c1.len(),
                    c1.len() == c2.len(),
                    *a == Tree::<(), String>::Node(*op1, *i1, *c1),
                    *b == Tree::<(), String>::Node(*op2, *i2, *c2),
                    trees_view(c1@).len() == c1.len(),
                    trees_view(c2@).len() == c2.len(),
                    forall|j: int| 0 <= j < c1.len() ==> #[trigger] trees_view(c1@)[j] == tree_view(c1@[j]),
                    forall|j: int| 0 <= j < c2.len() ==> #[trigger] trees_view(c2@)[j] == tree_view(c2@[j]),
                    forall|j: int| 0 <= j < k ==> tree_view(#[trigger] c1@[j]) == tree_view(c2@[j]),
                decreases c1.len() - k,
            {
                proof {
                    assert(*c1 == a->Node_2);
                    assert(decreases_to!(*a => a->Node_2));
                    assert(decreases_to!(*c1 => c1@));
                    assert(decreases_to!(c1@ => c1@[k as int]));
                }
                if !trees_equal(&c1[k], &c2[k]) {
                    assert(trees_view(c1@)[k as int] != trees_view(c2@)[k as int]);
                    return false;
                }
                k = k + 1;
            }
            assert(trees_view(c1@) =~= trees_view(c2@)) by {
                assert forall|j: int| 0 <= j < c1.len() implies trees_view(c1@)[j] == trees_view(c2@)[j] by {
                    assert(tree_view(c1@[j]) == tree_view(c2@[j]));
                }
            }
            true
        },
        _ => false,
    }
}


/// Why evaluation stopped.
#[derive(Debug)]
pub enum EvalError {
    /// Two different values met on one wire: the value already there and
    /// the new one, as debug text.
    MergeError(String, String),
    /// A reversed operation did not find values made by that operation at
    /// the matching ports: the edge, and the operation as debug text, with a
    /// note when the values had different arguments.
    MatchError(usize, String),
}

/// The values of the wires when evaluation stopped, and why it stopped.
#[derive(Debug)]
pub struct PartialResult {
    pub partial_result: Vec<Option<Tree<(), String>>>,
    pub cause: EvalError,
}

/// Why evaluation stopped, as plain values.
pub enum CauseV {
    Merge(Seq<char>, Seq<char>),
    Match(usize, Seq<char>),
}

/// What `{:?}` writes for a tree, as the derived `Debug` impl writes it:
/// `Empty`, `Leaf(i, ())`, or `Node("op", i, [child, child])`.
pub open spec fn tree_debug_text(t: TreeV) -> Seq<char>
    decreases t, 1int,
{
    match t {
        TreeV::Empty => "Empty"@,
        TreeV::Leaf(i) => "Leaf("@ + decimal(i as nat) + ", ())"@,
        TreeV::Node(op, i, cs) => "Node("@ + str_debug_text(op) + ", "@ + decimal(i as nat) + ", ["@ + comma_joined(
            trees_debug_texts(cs),
        ) + "])"@,
    }
}

/// The debug texts of a list of trees.
pub open spec fn trees_debug_texts(ts: Seq<TreeV>) -> Seq<Seq<char>>
    decreases ts, 0int,
{
    if ts.len() == 0 {
        Seq::empty()
    } else {
        trees_debug_texts(ts.drop_last()).push(tree_debug_text(ts.last()))
    }
}

/// What `{:?}` writes for a string.
pub uninterp spec fn str_debug_text(s: Seq<char>) -> Seq<char>;

/// The debug text of a tree.
fn tree_debug(t: &Tree<(), String>) -> (s: String)
    ensures
        s@ == tree_debug_text(tree_view(*t)),
    decreases t,
{
    match t {
        Tree::Empty => {
            let mut s = String::new();
            push_str(&mut s, "Empty");
            s
        },
        Tree::Leaf(i, _) => {
            let mut s = String::new();
            push_str(&mut s, "Leaf(");
            let d = usize_to_decimal(*i);
            push_str(&mut s, d.as_str());
            push_str(&mut s, ", ())");
            assert(s@ =~= tree_debug_text(tree_view(*t)));
            s
        },
        Tree::Node(op, i, children) => {
            let mut s = String::new();
            push_str(&mut s, "Node(");
            let o = string_debug(op);
            push_str(&mut s, o.as_str());
            push_str(&mut s, ", ");
            let d = usize_to_decimal(*i);
            push_str(&mut s, d.as_str());
            push_str(&mut s, ", [");
            let ghost head = s@;
            let ghost cv = trees_view(children@);
            proof {
                lemma_trees_view(children@);
                assert(cv.take(0) =~= Seq::<TreeV>::empty());
            }
            let mut k: usize = 0;
            while k < children.len()
                invariant
                    k <= children.len(),
                    *t == Tree::<(), String>::Node(*op, *i, *children),
                    cv == trees_view(children@),
                    cv.len() == children@.len(),
                    forall|j: int| 0 <= j < children@.len() ==> #[trigger] cv[j] == tree_view(children@[j]),
                    s@ == head + comma_joined(trees_debug_texts(cv.take(k as int))),
                decreases children.len() - k,
            {
                proof {
                    assert(*children == t->Node_2);
                    assert(decreases_to!(*t => t->Node_2));
                    assert(decreases_to!(*children => children@));
                    assert(decreases_to!(children@ => children@[k as int]));
                }
                let ghost before = trees_debug_texts(cv.take(k as int));
                if k > 0 {
                    push_char(&mut s, ',');
                    push_char(&mut s, ' ');
                }
                let c = tree_debug(&children[k]);
                push_str(&mut s, c.as_str());
                proof {
                    let tk = cv.take(k + 1);
                    assert(tk.drop_last() =~= cv.take(k as int));
                    assert(tk.last() == cv[k as int]);
                    let now = trees_debug_texts(tk);
                    assert(now == before.push(c@));
                    assert(now.drop_last() =~= before);
                    if k == 0 {
                        assert(before.len() == 0);
                        assert(comma_joined(now) == now[0]);
                    }
                    assert(s@ =~= head + comma_joined(now));
                }
                k = k + 1;
            }
            proof {
                assert(cv.take(children.len() as int) =~= cv);
            }
            push_str(&mut s, "])");
            assert(s@ =~= tree_debug_text(tree_view(*t)));
            s
        },
    }
}

/// The `Debug` rendering of a string (quoted and escaped), through
/// `format!`. Claimed: the text depends on the string's characters alone.
#[verifier::external_body]
fn string_debug(s: &String) -> (r: String)
    ensures
        r@ == str_debug_text(s@),
{
    format!("{:?}", s)
}

/// The text of a failed match on operation `op`: its debug text, noting
/// when the arguments differed.
pub open spec fn match_text(op: Seq<char>, children_differ: bool) -> Seq<char> {
    if children_differ {
        str_debug_text(op) + " (children didn't match)"@
    } else {
        str_debug_text(op)
    }
}

/// The plain value of a cause.
pub open spec fn cause_view(e: EvalError) -> CauseV {
    match e {
        EvalError::MergeError(a, b) => CauseV::Merge(a@, b@),
        EvalError::MatchError(e, op) => CauseV::Match(e, op@),
    }
}

/// The plain value of a wire's value.
pub open spec fn opt_view(o: Option<Tree<(), String>>) -> Option<TreeV> {
    match o {
        None => None,
        Some(t) => Some(tree_view(t)),
    }
}

/// The plain values of all wires.
pub open spec fn state_view(s: Seq<Option<Tree<(), String>>>) -> Seq<Option<TreeV>> {
    s.map_values(|o: Option<Tree<(), String>>| opt_view(o))
}

/// Writing `new` to a wire that holds `old`: an empty wire takes it, a wire
/// holding the same value keeps it, and a different value is an error.
pub open spec fn merge_spec(old: Option<TreeV>, new: TreeV) -> Result<Option<TreeV>, CauseV> {
    match old {
        None => Ok(Some(new)),
        Some(t) => if t == new {
            Ok(Some(t))
        } else {
            Err(CauseV::Merge(tree_debug_text(t), tree_debug_text(new)))
        },
    }
}

/// Writes `new` to the wire `value`; fails, leaving the wire as it was, when
/// the wire already holds a different value.
pub fn merge(value: &mut Option<Tree<(), String>>, new: Tree<(), String>) -> (r: Result<(), EvalError>)
    ensures
        match r {
            Ok(()) => merge_spec(opt_view(*old(value)), tree_view(new)) == Ok::<Option<TreeV>, CauseV>(
                opt_view(*final(value)),
            ),
            Err(e) => merge_spec(opt_view(*old(value)), tree_view(new)) == Err::<Option<TreeV>, CauseV>(
                cause_view(e),
            ) && opt_view(*final(value)) == opt_view(*old(value)),
        },
{
    match value {
        None => {
            *value = Some(new);
            Ok(())
        },
        Some(t) => {
            if !trees_equal(t, &new) {
                return Err(EvalError::MergeError(tree_debug(t), tree_debug(&new)));
            }
            Ok(())
        },
    }
}


/// One operation of a graph, in an order where each operation comes after
/// those that feed it: its label, its edge number, and the wires at its
/// input and output ports.
pub struct SsaStep {
    pub op: WithSpiders<(), Dual<String>>,
    pub edge_id: usize,
    pub sources: Vec<usize>,
    pub targets: Vec<usize>,
}

/// The label of a step as a plain value.
pub enum OpV {
    Fwd(Seq<char>),
    Rev(Seq<char>),
    Spider,
}

/// The plain value of a step's label.
pub open spec fn op_view(op: WithSpiders<(), Dual<String>>) -> OpV {
    match op {
        WithSpiders::Spider(_) => OpV::Spider,
        WithSpiders::Operation(Dual::Fwd(a)) => OpV::Fwd(a@),
        WithSpiders::Operation(Dual::Rev(a)) => OpV::Rev(a@),
    }
}

/// The values at the input wires: the value of the wire, or the wire itself
/// as a variable when it has none yet.
pub open spec fn input_values(state: Seq<Option<TreeV>>, sources: Seq<usize>) -> Seq<TreeV> {
    Seq::new(
        sources.len(),
        |j: int|
            match state[sources[j] as int] {
                Some(t) => t,
                None => TreeV::Leaf(sources[j]),
            },
    )
}

/// Writes `vals[i]` to wire `targets[i]` for `i < n`, in order; on a clash,
/// the wires as they were then and the cause.
pub open spec fn merge_each(state: Seq<Option<TreeV>>, targets: Seq<usize>, vals: Seq<TreeV>, n: nat) -> Result<
    Seq<Option<TreeV>>,
    (Seq<Option<TreeV>>, CauseV),
>
    decreases n,
{
    if n == 0 {
        Ok(state)
    } else {
        match merge_each(state, targets, vals, (n - 1) as nat) {
            Err(e) => Err(e),
            Ok(s) => match merge_spec(s[targets[n - 1] as int], vals[n - 1]) {
                Ok(v) => Ok(s.update(targets[n - 1] as int, v)),
                Err(c) => Err((s, c)),
            },
        }
    }
}

/// The arguments that a reversed operation `op` recovers from its first `n`
/// inputs: the `i`-th input must be made by `op` at port `i`, and all
/// inputs must have the same arguments. `Err(true)` when the arguments
/// differ, `Err(false)` when an input is not made by `op` at that port.
pub open spec fn rev_children(vals: Seq<TreeV>, op: Seq<char>, n: nat) -> Result<Option<Seq<TreeV>>, bool>
    decreases n,
{
    if n == 0 {
        Ok(None)
    } else {
        match rev_children(vals, op, (n - 1) as nat) {
            Err(b) => Err(b),
            Ok(acc) => match vals[n - 1] {
                TreeV::Node(arr, j, ch) => if j == n - 1 && arr == op {
                    match acc {
                        None => Ok(Some(ch)),
                        Some(c) => if c == ch {
                            Ok(Some(c))
                        } else {
                            Err(true)
                        },
                    }
                } else {
                    Err(false)
                },
                _ => Err(false),
            },
        }
    }
}

/// The first `n` inputs of a spider all equal its first input; otherwise
/// the first that differs.
pub open spec fn spider_check(vals: Seq<TreeV>, n: nat) -> Result<(), CauseV>
    decreases n,
{
    if n <= 1 {
        Ok(())
    } else {
        match spider_check(vals, (n - 1) as nat) {
            Err(c) => Err(c),
            Ok(()) => if vals[n - 1] == vals[0] {
                Ok(())
            } else {
                Err(CauseV::Merge(tree_debug_text(vals[0]), tree_debug_text(vals[n - 1])))
            },
        }
    }
}

/// One step of evaluation. A forward operation writes to its `i`-th output
/// itself applied to its inputs at port `i`; a reversed operation recovers
/// the arguments from its inputs (or writes empty values when it has no
/// inputs); a spider passes its common input, or a fresh variable when it
/// has none, to all its outputs.
pub open spec fn step_spec(
    state: Seq<Option<TreeV>>,
    op: OpV,
    edge_id: usize,
    sources: Seq<usize>,
    targets: Seq<usize>,
) -> Result<Seq<Option<TreeV>>, (Seq<Option<TreeV>>, CauseV)> {
    let vals = input_values(state, sources);
    match op {
        OpV::Fwd(arr) => merge_each(
            state,
            targets,
            Seq::new(targets.len(), |i: int| TreeV::Node(arr, i as usize, vals)),
            targets.len(),
        ),
        OpV::Rev(o) => match rev_children(vals, o, vals.len()) {
            Err(b) => Err((state, CauseV::Match(edge_id, match_text(o, b)))),
            Ok(acc) => {
                let ch = match acc {
                    Some(c) => c,
                    None => Seq::new(targets.len(), |i: int| TreeV::Empty),
                };
                merge_each(state, targets, ch, if targets.len() <= ch.len() { targets.len() } else { ch.len() })
            },
        },
        OpV::Spider => match spider_check(vals, vals.len()) {
            Err(c) => Err((state, c)),
            Ok(()) => {
                let v = if vals.len() > 0 {
                    vals[0]
                } else {
                    TreeV::Leaf((state.len() + edge_id) as usize)
                };
                merge_each(state, targets, Seq::new(targets.len(), |i: int| v), targets.len())
            },
        },
    }
}


/// The plain values of a list of trees are those of its elements.
pub proof fn lemma_trees_view_map(ts: Seq<Tree<(), String>>)
    ensures
        trees_view(ts) == ts.map_values(|t: Tree<(), String>| tree_view(t)),
{
    lemma_trees_view(ts);
    assert(trees_view(ts) =~= ts.map_values(|t: Tree<(), String>| tree_view(t)));
}

/// Once a run of writes has failed, writing more fails the same way.
proof fn lemma_merge_each_err(state: Seq<Option<TreeV>>, targets: Seq<usize>, vals: Seq<TreeV>, k: nat, n: nat)
    requires
        k <= n,
        merge_each(state, targets, vals, k) is Err,
    ensures
        merge_each(state, targets, vals, n) == merge_each(state, targets, vals, k),
    decreases n,
{
    if k < n {
        lemma_merge_each_err(state, targets, vals, k, (n - 1) as nat);
    }
}

/// Once recovering arguments has failed, looking at more inputs fails the
/// same way.
proof fn lemma_rev_children_err(vals: Seq<TreeV>, op: Seq<char>, k: nat, n: nat)
    requires
        k <= n,
        rev_children(vals, op, k) is Err,
    ensures
        rev_children(vals, op, n) == rev_children(vals, op, k),
    decreases n,
{
    if k < n {
        lemma_rev_children_err(vals, op, k, (n - 1) as nat);
    }
}

/// Once a spider's inputs have been found to differ, looking at more inputs
/// reports the same difference.
proof fn lemma_spider_check_err(vals: Seq<TreeV>, k: nat, n: nat)
    requires
        k <= n,
        spider_check(vals, k) is Err,
    ensures
        spider_check(vals, n) == spider_check(vals, k),
    decreases n,
{
    if k < n {
        lemma_spider_check_err(vals, k, (n - 1) as nat);
    }
}

/// Copies of a list of trees.
fn clone_trees(v: &Vec<Tree<(), String>>) -> (r: Vec<Tree<(), String>>)
    ensures
        r@.map_values(|t: Tree<(), String>| tree_view(t)) == v@.map_values(|t: Tree<(), String>| tree_view(t)),
{
    let mut r: Vec<Tree<(), String>> = Vec::new();
    let mut i: usize = 0;
    while i < v.len()
        invariant
            i <= v.len(),
            r@.map_values(|t: Tree<(), String>| tree_view(t)) == v@.take(i as int).map_values(
                |t: Tree<(), String>| tree_view(t),
            ),
        decreases v.len() - i,
    {
        let ghost before = r@.map_values(|t: Tree<(), String>| tree_view(t));
        let c = clone_tree(&v[i]);
        r.push(c);
        assert(r@.map_values(|t: Tree<(), String>| tree_view(t)) =~= before.push(tree_view(c)));
        assert(v@.take(i + 1).map_values(|t: Tree<(), String>| tree_view(t)) =~= v@.take(i as int).map_values(
            |t: Tree<(), String>| tree_view(t),
        ).push(tree_view(v@[i as int])));
        i = i + 1;
    }
    assert(v@.take(v.len() as int) =~= v@);
    r
}

/// Whether two lists of trees have the same plain values.
fn trees_vec_equal(a: &Vec<Tree<(), String>>, b: &Vec<Tree<(), String>>) -> (r: bool)
    ensures
        r == (a@.map_values(|t: Tree<(), String>| tree_view(t)) == b@.map_values(|t: Tree<(), String>| tree_view(t))),
{
    let ghost av = a@.map_values(|t: Tree<(), String>| tree_view(t));
    let ghost bv = b@.map_values(|t: Tree<(), String>| tree_view(t));
    if a.len() != b.len() {
        assert(av.len() != bv.len());
        return false;
    }
    let mut i: usize = 0;
    while i < a.len()
        invariant
            i <= a.len(),
            a.len() == b.len(),
            av == a@.map_values(|t: Tree<(), String>| tree_view(t)),
            bv == b@.map_values(|t: Tree<(), String>| tree_view(t)),
            forall|j: int| 0 <= j < i ==> #[trigger] av[j] == bv[j],
        decreases a.len() - i,
    {
        if !trees_equal(&a[i], &b[i]) {
            assert(av[i as int] != bv[i as int]);
            return false;
        }
        i = i + 1;
    }
    assert(av =~= bv);
    true
}

/// The values at the input wires `sources`.
fn input_values_of(state: &Vec<Option<Tree<(), String>>>, sources: &Vec<usize>) -> (r: Vec<Tree<(), String>>)
    requires
        all_below(sources@, state.len() as nat),
    ensures
        r@.map_values(|t: Tree<(), String>| tree_view(t)) == input_values(state_view(state@), sources@),
{
    let ghost sv = state_view(state@);
    let mut r: Vec<Tree<(), String>> = Vec::new();
    let mut j: usize = 0;
    while j < sources.len()
        invariant
            j <= sources.len(),
            all_below(sources@, state.len() as nat),
            sv == state_view(state@),
            r@.map_values(|t: Tree<(), String>| tree_view(t)) == input_values(sv, sources@).take(j as int),
        decreases sources.len() - j,
    {
        let w = sources[j];
        assert(sources@[j as int] < state.len());
        let ghost before = r@.map_values(|t: Tree<(), String>| tree_view(t));
        let t = match &state[w] {
            Some(t) => clone_tree(t),
            None => Tree::Leaf(w, ()),
        };
        assert(sv[w as int] == opt_view(state@[w as int]));
        r.push(t);
        assert(r@.map_values(|t: Tree<(), String>| tree_view(t)) =~= before.push(tree_view(t)));
        assert(input_values(sv, sources@).take(j + 1) =~= input_values(sv, sources@).take(j as int).push(
            input_values(sv, sources@)[j as int],
        ));
        j = j + 1;
    }
    assert(input_values(sv, sources@).take(sources.len() as int) =~= input_values(sv, sources@));
    r
}

/// Writes `t` to wire `node`, as `merge` does.
fn merge_at(state: &mut Vec<Option<Tree<(), String>>>, node: usize, t: Tree<(), String>) -> (r: Result<(), EvalError>)
    requires
        node < old(state).len(),
    ensures
        final(state).len() == old(state).len(),
        match merge_spec(state_view(old(state)@)[node as int], tree_view(t)) {
            Ok(v) => r is Ok && state_view(final(state)@) == state_view(old(state)@).update(node as int, v),
            Err(c) => r matches Err(e) && cause_view(e) == c && state_view(final(state)@) == state_view(old(state)@),
        },
{
    let ghost before = state@;
    let r = merge(&mut state[node], t);
    proof {
        assert(state_view(before)[node as int] == opt_view(before[node as int]));
        if r is Ok {
            assert(state_view(state@) =~= state_view(before).update(node as int, opt_view(state@[node as int])));
        } else {
            assert(state_view(state@) =~= state_view(before));
        }
    }
    r
}


/// The result of a run of writes, as the wires and the cause of a failure.
pub open spec fn merge_outcome(
    res: Result<Seq<Option<TreeV>>, (Seq<Option<TreeV>>, CauseV)>,
    r: Result<(), EvalError>,
    after: Seq<Option<TreeV>>,
) -> bool {
    match r {
        Ok(()) => res == Ok::<Seq<Option<TreeV>>, (Seq<Option<TreeV>>, CauseV)>(after),
        Err(e) => res == Err::<Seq<Option<TreeV>>, (Seq<Option<TreeV>>, CauseV)>((after, cause_view(e))),
    }
}

/// Writes `vals[i]` to wire `targets[i]` for each `i < n`, in order,
/// stopping at the first clash.
fn merge_all(
    state: &mut Vec<Option<Tree<(), String>>>,
    targets: &Vec<usize>,
    vals: Vec<Tree<(), String>>,
    n: usize,
) -> (r: Result<(), EvalError>)
    requires
        n <= targets.len(),
        n <= vals.len(),
        all_below(targets@, old(state).len() as nat),
    ensures
        final(state).len() == old(state).len(),
        merge_outcome(
            merge_each(
                state_view(old(state)@),
                targets@,
                vals@.map_values(|t: Tree<(), String>| tree_view(t)),
                n as nat,
            ),
            r,
            state_view(final(state)@),
        ),
{
    let ghost s0 = state_view(state@);
    let ghost len0 = state.len();
    let ghost vv = vals@.map_values(|t: Tree<(), String>| tree_view(t));
    let mut work = vals;
    while work.len() > n
        invariant
            n <= work.len(),
            vv.take(n as int) == work@.take(n as int).map_values(|t: Tree<(), String>| tree_view(t)),
        decreases work.len(),
    {
        let ghost before = work@;
        let _ = work.pop();
        assert(work@.take(n as int) =~= before.take(n as int));
    }
    // `work` now holds exactly the first `n` values; write them from the back
    // end of a reversed copy so that they go out in order.
    let mut pending: Vec<Tree<(), String>> = Vec::new();
    while work.len() > 0
        invariant
            work.len() + pending.len() == n,
            vv.take(n as int) == (work@ + pending@.reverse()).map_values(|t: Tree<(), String>| tree_view(t)),
        decreases work.len(),
    {
        let ghost before = work@;
        let ghost pb = pending@;
        let t = work.pop().unwrap();
        pending.push(t);
        assert(before =~= work@.push(t));
        assert(pending@.reverse() =~= seq![t] + pb.reverse());
        assert(work@ + pending@.reverse() =~= before + pb.reverse());
    }
    assert(Seq::<Tree<(), String>>::empty() + pending@.reverse() =~= pending@.reverse());
    let mut k: usize = 0;
    while k < n
        invariant
            k <= n,
            n <= targets.len(),
            n <= vv.len(),
            state.len() == len0,
            len0 == old(state).len(),
            s0 == state_view(old(state)@),
            vv == vals@.map_values(|t: Tree<(), String>| tree_view(t)),
            pending.len() == n - k,
            all_below(targets@, state.len() as nat),
            vv.take(n as int) == (seq_take_views(vv, k as nat) + pending@.reverse().map_values(
                |t: Tree<(), String>| tree_view(t),
            )),
            merge_each(s0, targets@, vv, k as nat) == Ok::<Seq<Option<TreeV>>, (Seq<Option<TreeV>>, CauseV)>(
                state_view(state@),
            ),
        decreases n - k,
    {
        let ghost pb = pending@;
        let t = pending.pop().unwrap();
        proof {
            assert(pb.reverse() =~= seq![t] + pending@.reverse());
            assert(pb.reverse().map_values(|t: Tree<(), String>| tree_view(t))[0] == tree_view(t));
            assert(seq_take_views(vv, k as nat).len() == k);
            assert(vv.take(n as int)[k as int] == tree_view(t));
            assert(vv[k as int] == tree_view(t));
        }
        let node = targets[k];
        assert(targets@[k as int] < state.len());
        let ghost sb = state_view(state@);
        match merge_at(state, node, t) {
            Ok(()) => {},
            Err(e) => {
                proof {
                    assert(merge_each(s0, targets@, vv, (k + 1) as nat) == Err::<
                        Seq<Option<TreeV>>,
                        (Seq<Option<TreeV>>, CauseV),
                    >((sb, cause_view(e))));
                    lemma_merge_each_err(s0, targets@, vv, (k + 1) as nat, n as nat);
                    assert(state_view(state@) == sb);
                    assert(merge_each(s0, targets@, vv, n as nat) == Err::<
                        Seq<Option<TreeV>>,
                        (Seq<Option<TreeV>>, CauseV),
                    >((state_view(state@), cause_view(e))));
                }
                return Err(e);
            },
        }
        proof {
            assert(seq_take_views(vv, (k + 1) as nat) =~= seq_take_views(vv, k as nat).push(vv[k as int]));
            assert(vv.take(n as int) =~= seq_take_views(vv, (k + 1) as nat) + pending@.reverse().map_values(
                |t: Tree<(), String>| tree_view(t),
            ));
        }
        k = k + 1;
    }
    Ok(())
}

/// The first `k` values of `vv`.
spec fn seq_take_views(vv: Seq<TreeV>, k: nat) -> Seq<TreeV> {
    vv.take(k as int)
}


/// The plain values of an optional list of trees.
spec fn opt_trees_view(o: Option<Vec<Tree<(), String>>>) -> Option<Seq<TreeV>> {
    match o {
        None => None,
        Some(v) => Some(v@.map_values(|t: Tree<(), String>| tree_view(t))),
    }
}

/// The values that a forward operation `arr` writes to its `n` outputs.
fn forward_outputs(arr: &String, vals: &Vec<Tree<(), String>>, n: usize) -> (r: Vec<Tree<(), String>>)
    ensures
        r.len() == n,
        r@.map_values(|t: Tree<(), String>| tree_view(t)) == Seq::new(
            n as nat,
            |i: int| TreeV::Node(arr@, i as usize, vals@.map_values(|t: Tree<(), String>| tree_view(t))),
        ),
{
    let mut r: Vec<Tree<(), String>> = Vec::new();
    let mut i: usize = 0;
    while i < n
        invariant
            i <= n,
            r.len() == i,
            r@.map_values(|t: Tree<(), String>| tree_view(t)) == Seq::new(
                i as nat,
                |k: int| TreeV::Node(arr@, k as usize, vals@.map_values(|t: Tree<(), String>| tree_view(t))),
            ),
        decreases n - i,
    {
        let children = clone_trees(vals);
        let t = Tree::Node(arr.clone(), i, children);
        proof {
            lemma_trees_view_map(children@);
        }
        let ghost before = r@.map_values(|t: Tree<(), String>| tree_view(t));
        r.push(t);
        assert(r@.map_values(|t: Tree<(), String>| tree_view(t)) =~= before.push(tree_view(t)));
        assert(r@.map_values(|t: Tree<(), String>| tree_view(t)) =~= Seq::new(
            (i + 1) as nat,
            |k: int| TreeV::Node(arr@, k as usize, vals@.map_values(|t: Tree<(), String>| tree_view(t))),
        ));
        i = i + 1;
    }
    r
}

/// `n` copies of `t`.
fn copies(t: &Tree<(), String>, n: usize) -> (r: Vec<Tree<(), String>>)
    ensures
        r.len() == n,
        r@.map_values(|x: Tree<(), String>| tree_view(x)) == Seq::new(n as nat, |i: int| tree_view(*t)),
{
    let mut r: Vec<Tree<(), String>> = Vec::new();
    let mut i: usize = 0;
    while i < n
        invariant
            i <= n,
            r.len() == i,
            r@.map_values(|x: Tree<(), String>| tree_view(x)) == Seq::new(i as nat, |k: int| tree_view(*t)),
        decreases n - i,
    {
        let c = clone_tree(t);
        let ghost before = r@.map_values(|x: Tree<(), String>| tree_view(x));
        r.push(c);
        assert(r@.map_values(|x: Tree<(), String>| tree_view(x)) =~= before.push(tree_view(c)));
        assert(r@.map_values(|x: Tree<(), String>| tree_view(x)) =~= Seq::new((i + 1) as nat, |k: int| tree_view(*t)));
        i = i + 1;
    }
    r
}

/// The arguments that the reversed operation `op` recovers from its inputs
/// `vals`, or the failure as `rev_children` has it.
fn recover_children(vals: &Vec<Tree<(), String>>, op: &String) -> (r: Result<Option<Vec<Tree<(), String>>>, bool>)
    ensures
        match r {
            Ok(o) => rev_children(vals@.map_values(|t: Tree<(), String>| tree_view(t)), op@, vals.len() as nat)
                == Ok::<Option<Seq<TreeV>>, bool>(opt_trees_view(o)),
            Err(b) => rev_children(vals@.map_values(|t: Tree<(), String>| tree_view(t)), op@, vals.len() as nat)
                == Err::<Option<Seq<TreeV>>, bool>(b),
        },
{
    let ghost vv = vals@.map_values(|t: Tree<(), String>| tree_view(t));
    let mut children: Option<Vec<Tree<(), String>>> = None;
    let mut i: usize = 0;
    while i < vals.len()
        invariant
            i <= vals.len(),
            vv == vals@.map_values(|t: Tree<(), String>| tree_view(t)),
            rev_children(vv, op@, i as nat) == Ok::<Option<Seq<TreeV>>, bool>(opt_trees_view(children)),
        decreases vals.len() - i,
    {
        assert(vv[i as int] == tree_view(vals@[i as int]));
        match &vals[i] {
            Tree::Node(arr, j, ch) => {
                proof {
                    lemma_trees_view_map(ch@);
                }
                if *j == i && text_eq(arr.as_str(), op.as_str()) {
                    match &children {
                        None => {
                            children = Some(clone_trees(ch));
                        },
                        Some(c) => {
                            if !trees_vec_equal(c, ch) {
                                proof {
                                    lemma_rev_children_err(vv, op@, (i + 1) as nat, vals.len() as nat);
                                }
                                return Err(true);
                            }
                        },
                    }
                } else {
                    proof {
                        lemma_rev_children_err(vv, op@, (i + 1) as nat, vals.len() as nat);
                    }
                    return Err(false);
                }
            },
            _ => {
                proof {
                    lemma_rev_children_err(vv, op@, (i + 1) as nat, vals.len() as nat);
                }
                return Err(false);
            },
        }
        i = i + 1;
    }
    Ok(children)
}

/// Checks that a spider's inputs all equal the first, as `spider_check`.
fn check_spider_inputs(vals: &Vec<Tree<(), String>>) -> (r: Result<(), EvalError>)
    ensures
        match r {
            Ok(()) => spider_check(vals@.map_values(|t: Tree<(), String>| tree_view(t)), vals.len() as nat) == Ok::<
                (),
                CauseV,
            >(()),
            Err(e) => spider_check(vals@.map_values(|t: Tree<(), String>| tree_view(t)), vals.len() as nat) == Err::<
                (),
                CauseV,
            >(cause_view(e)),
        },
{
    let ghost vv = vals@.map_values(|t: Tree<(), String>| tree_view(t));
    let mut i: usize = 1;
    while i < vals.len()
        invariant
            1 <= i,
            i <= vals.len() || vals.len() == 0,
            vv == vals@.map_values(|t: Tree<(), String>| tree_view(t)),
            spider_check(vv, i as nat) == Ok::<(), CauseV>(()),
        decreases vals.len() - i,
    {
        if !trees_equal(&vals[i], &vals[0]) {
            let e = EvalError::MergeError(tree_debug(&vals[0]), tree_debug(&vals[i]));
            proof {
                lemma_spider_check_err(vv, (i + 1) as nat, vals.len() as nat);
            }
            return Err(e);
        }
        i = i + 1;
    }
    Ok(())
}


/// Runs one step of evaluation on the wires `state`.
fn eval_step(state: &mut Vec<Option<Tree<(), String>>>, step: &SsaStep) -> (r: Result<(), EvalError>)
    requires
        all_below(step.sources@, old(state).len() as nat),
        all_below(step.targets@, old(state).len() as nat),
        old(state).len() + step.edge_id <= usize::MAX,
    ensures
        final(state).len() == old(state).len(),
        merge_outcome(
            step_spec(state_view(old(state)@), op_view(step.op), step.edge_id, step.sources@, step.targets@),
            r,
            state_view(final(state)@),
        ),
{
    let vals = input_values_of(state, &step.sources);
    let ghost vv = vals@.map_values(|t: Tree<(), String>| tree_view(t));
    let n = step.targets.len();
    match &step.op {
        WithSpiders::Operation(Dual::Fwd(arr)) => {
            let outs = forward_outputs(arr, &vals, n);
            merge_all(state, &step.targets, outs, n)
        },
        WithSpiders::Operation(Dual::Rev(op)) => {
            match recover_children(&vals, op) {
                Err(b) => {
                    let mut text = string_debug(op);
                    if b {
                        crate::text::push_str(&mut text, " (children didn't match)");
                        proof {
                            reveal_strlit(" (children didn't match)");
                        }
                    }
                    Err(EvalError::MatchError(step.edge_id, text))
                },
                Ok(children) => {
                    let ch = match children {
                        Some(c) => c,
                        None => copies(&Tree::Empty, n),
                    };
                    let m = if n <= ch.len() {
                        n
                    } else {
                        ch.len()
                    };
                    merge_all(state, &step.targets, ch, m)
                },
            }
        },
        WithSpiders::Spider(_) => {
            match check_spider_inputs(&vals) {
                Err(e) => Err(e),
                Ok(()) => {
                    let value = if vals.len() > 0 {
                        clone_tree(&vals[0])
                    } else {
                        Tree::Leaf(state.len() + step.edge_id, ())
                    };
                    let outs = copies(&value, n);
                    merge_all(state, &step.targets, outs, n)
                },
            }
        },
    }
}


/// The wires after the first `n` steps, or where and why evaluation
/// stopped.
pub open spec fn eval_steps(state: Seq<Option<TreeV>>, steps: Seq<SsaStep>, n: nat) -> Result<
    Seq<Option<TreeV>>,
    (Seq<Option<TreeV>>, CauseV),
>
    decreases n,
{
    if n == 0 {
        Ok(state)
    } else {
        match eval_steps(state, steps, (n - 1) as nat) {
            Err(e) => Err(e),
            Ok(s) => step_spec(
                s,
                op_view(steps[n - 1].op),
                steps[n - 1].edge_id,
                steps[n - 1].sources@,
                steps[n - 1].targets@,
            ),
        }
    }
}

/// The final value of each wire: its value, or the wire itself as a
/// variable.
pub open spec fn finished(state: Seq<Option<TreeV>>) -> Seq<TreeV> {
    Seq::new(
        state.len(),
        |i: int|
            match state[i] {
                Some(t) => t,
                None => TreeV::Leaf(i as usize),
            },
    )
}

/// The result of evaluating all `steps` from the wires `state`.
pub open spec fn evaluation(state: Seq<Option<TreeV>>, steps: Seq<SsaStep>) -> Result<
    Seq<TreeV>,
    (Seq<Option<TreeV>>, CauseV),
> {
    match eval_steps(state, steps, steps.len()) {
        Ok(s) => Ok(finished(s)),
        Err(e) => Err(e),
    }
}

/// Writing values never changes a wire that already holds one, nor the
/// number of wires.
proof fn lemma_merge_each_keeps(state: Seq<Option<TreeV>>, targets: Seq<usize>, vals: Seq<TreeV>, n: nat, w: int)
    requires
        0 <= w < state.len(),
        state[w] is Some,
        n <= targets.len(),
        all_below(targets, state.len()),
    ensures
        match merge_each(state, targets, vals, n) {
            Ok(s) => s.len() == state.len() && s[w] == state[w],
            Err((s, _)) => s.len() == state.len() && s[w] == state[w],
        },
    decreases n,
{
    if n > 0 {
        lemma_merge_each_keeps(state, targets, vals, (n - 1) as nat, w);
        match merge_each(state, targets, vals, (n - 1) as nat) {
            Err(_) => {},
            Ok(s) => {
                assert(targets[n - 1] < state.len());
            },
        }
    }
}

/// One step never changes a wire that already holds a value.
proof fn lemma_step_keeps(state: Seq<Option<TreeV>>, step: SsaStep, w: int)
    requires
        0 <= w < state.len(),
        state[w] is Some,
        all_below(step.targets@, state.len()),
    ensures
        match step_spec(state, op_view(step.op), step.edge_id, step.sources@, step.targets@) {
            Ok(s) => s.len() == state.len() && s[w] == state[w],
            Err((s, _)) => s.len() == state.len() && s[w] == state[w],
        },
{
    let vals = input_values(state, step.sources@);
    let t = step.targets@;
    match op_view(step.op) {
        OpV::Fwd(arr) => {
            lemma_merge_each_keeps(state, t, Seq::new(t.len(), |i: int| TreeV::Node(arr, i as usize, vals)), t.len(), w);
        },
        OpV::Rev(o) => match rev_children(vals, o, vals.len()) {
            Err(_) => {},
            Ok(acc) => {
                let ch = match acc {
                    Some(c) => c,
                    None => Seq::new(t.len(), |i: int| TreeV::Empty),
                };
                lemma_merge_each_keeps(state, t, ch, if t.len() <= ch.len() { t.len() } else { ch.len() }, w);
            },
        },
        OpV::Spider => match spider_check(vals, vals.len()) {
            Err(_) => {},
            Ok(()) => {
                let v = if vals.len() > 0 {
                    vals[0]
                } else {
                    TreeV::Leaf((state.len() + step.edge_id) as usize)
                };
                lemma_merge_each_keeps(state, t, Seq::new(t.len(), |i: int| v), t.len(), w);
            },
        },
    }
}

/// The first `n` steps never change a wire that already holds a value.
proof fn lemma_eval_steps_keeps(state: Seq<Option<TreeV>>, steps: Seq<SsaStep>, n: nat, w: int)
    requires
        0 <= w < state.len(),
        state[w] is Some,
        n <= steps.len(),
        steps_fit(steps, state.len()),
    ensures
        match eval_steps(state, steps, n) {
            Ok(s) => s.len() == state.len() && s[w] == state[w],
            Err((s, _)) => s.len() == state.len() && s[w] == state[w],
        },
    decreases n,
{
    if n > 0 {
        lemma_eval_steps_keeps(state, steps, (n - 1) as nat, w);
        match eval_steps(state, steps, (n - 1) as nat) {
            Err(_) => {},
            Ok(s) => {
                assert(all_below(steps[n - 1].targets@, state.len()));
                lemma_step_keeps(s, steps[n - 1], w);
            },
        }
    }
}

/// Evaluation never overwrites a wire: a wire that holds a value when
/// evaluation starts holds the same value in the result, and in the wires
/// reported when evaluation stops.
pub proof fn lemma_evaluation_keeps_values(state: Seq<Option<TreeV>>, steps: Seq<SsaStep>, w: int)
    requires
        0 <= w < state.len(),
        state[w] is Some,
        steps_fit(steps, state.len()),
    ensures
        match evaluation(state, steps) {
            Ok(out) => out[w] == state[w]->0,
            Err((s, _)) => s[w] == state[w],
        },
{
    lemma_eval_steps_keeps(state, steps, steps.len(), w);
}

/// When writing `vals[i]` to wire `targets[i]` for every `i < n` succeeds,
/// each of those wires holds the value written to it.
proof fn lemma_merge_each_writes(state: Seq<Option<TreeV>>, targets: Seq<usize>, vals: Seq<TreeV>, n: nat)
    requires
        n <= targets.len(),
        all_below(targets, state.len()),
    ensures
        merge_each(state, targets, vals, n) matches Ok(s) ==> s.len() == state.len() && forall|i: int|
            0 <= i < n ==> #[trigger] s[targets[i] as int] == Some(vals[i]),
    decreases n,
{
    if n > 0 {
        lemma_merge_each_writes(state, targets, vals, (n - 1) as nat);
        match merge_each(state, targets, vals, (n - 1) as nat) {
            Err(_) => {},
            Ok(s) => {
                let w = targets[n - 1] as int;
                match merge_spec(s[w], vals[n - 1]) {
                    Err(_) => {},
                    Ok(v) => {
                        let s2 = s.update(w, v);
                        assert(v == Some(vals[n - 1]));
                        assert forall|i: int| 0 <= i < n implies #[trigger] s2[targets[i] as int] == Some(vals[i]) by {
                            if i < n - 1 && targets[i] as int != w {
                                assert(s2[targets[i] as int] == s[targets[i] as int]);
                            }
                        }
                    },
                }
            },
        }
    }
}

/// A forward operation `arr` writes to its `i`-th output wire the tree
/// `arr` at port `i` over its inputs, where an input is the value of its
/// wire or the wire itself as a variable: when the step succeeds, every
/// output wire `targets[i]` holds exactly that tree.
pub proof fn lemma_forward_step_outputs(
    state: Seq<Option<TreeV>>,
    arr: Seq<char>,
    edge_id: usize,
    sources: Seq<usize>,
    targets: Seq<usize>,
)
    requires
        all_below(sources, state.len()),
        all_below(targets, state.len()),
    ensures
        step_spec(state, OpV::Fwd(arr), edge_id, sources, targets) matches Ok(s) ==> s.len() == state.len() && forall|i: int|
            0 <= i < targets.len() ==> #[trigger] s[targets[i] as int] == Some(
                TreeV::Node(
                    arr,
                    i as usize,
                    Seq::new(
                        sources.len(),
                        |j: int|
                            match state[sources[j] as int] {
                                Some(t) => t,
                                None => TreeV::Leaf(sources[j]),
                            },
                    ),
                ),
            ),
{
    let vals = input_values(state, sources);
    let outs = Seq::new(targets.len(), |i: int| TreeV::Node(arr, i as usize, vals));
    lemma_merge_each_writes(state, targets, outs, targets.len());
    assert(vals =~= Seq::new(
        sources.len(),
        |j: int|
            match state[sources[j] as int] {
                Some(t) => t,
                None => TreeV::Leaf(sources[j]),
            },
    ));
}

/// Evaluating a forward operation alone gives each of its output wires the
/// operation at that output's port over the inputs, as the wires held them.
pub proof fn lemma_forward_evaluation(state: Seq<Option<TreeV>>, step: SsaStep, arr: Seq<char>)
    requires
        op_view(step.op) == OpV::Fwd(arr),
        steps_fit(seq![step], state.len()),
    ensures
        evaluation(state, seq![step]) matches Ok(out) ==> forall|i: int|
            0 <= i < step.targets.len() ==> #[trigger] out[step.targets@[i] as int] == TreeV::Node(
                arr,
                i as usize,
                Seq::new(
                    step.sources.len() as nat,
                    |j: int|
                        match state[step.sources@[j] as int] {
                            Some(t) => t,
                            None => TreeV::Leaf(step.sources@[j]),
                        },
                ),
            ),
{
    assert(seq![step][0] == step);
    assert(all_below(step.sources@, state.len()));
    assert(eval_steps(state, seq![step], 0) == Ok::<Seq<Option<TreeV>>, (Seq<Option<TreeV>>, CauseV)>(state));
    lemma_forward_step_outputs(state, arr, step.edge_id, step.sources@, step.targets@);
    match eval_steps(state, seq![step], 1) {
        Err(_) => {},
        Ok(s) => {
            assert forall|i: int| 0 <= i < step.targets.len() implies #[trigger] finished(s)[step.targets@[i] as int]
                == TreeV::Node(
                arr,
                i as usize,
                Seq::new(
                    step.sources.len() as nat,
                    |j: int|
                        match state[step.sources@[j] as int] {
                            Some(t) => t,
                            None => TreeV::Leaf(step.sources@[j]),
                        },
                ),
            ) by {
                assert(s[step.targets@[i] as int] is Some);
            }
        },
    }
}

/// Every step refers to wires `0 .. n`, and its fresh variables fit.
pub open spec fn steps_fit(steps: Seq<SsaStep>, n: nat) -> bool {
    forall|i: int|
        0 <= i < steps.len() ==> all_below(#[trigger] steps[i].sources@, n) && all_below(steps[i].targets@, n)
            && n + steps[i].edge_id <= usize::MAX
}

/// Once evaluation has stopped, later steps change nothing.
proof fn lemma_eval_steps_err(state: Seq<Option<TreeV>>, steps: Seq<SsaStep>, k: nat, n: nat)
    requires
        k <= n,
        eval_steps(state, steps, k) is Err,
    ensures
        eval_steps(state, steps, n) == eval_steps(state, steps, k),
    decreases n,
{
    if k < n {
        lemma_eval_steps_err(state, steps, k, (n - 1) as nat);
    }
}

/// Evaluates the operations `steps`, in order, from the wire values
/// `state`, and gives each wire its final value; on a clash, the wire
/// values at that point and the cause.
pub fn eval_type_with(steps: &Vec<SsaStep>, state: Vec<Option<Tree<(), String>>>) -> (r: Result<
    Vec<Tree<(), String>>,
    PartialResult,
>)
    requires
        steps_fit(steps@, state.len() as nat),
    ensures
        match r {
            Ok(v) => evaluation(state_view(state@), steps@) == Ok::<Seq<TreeV>, (Seq<Option<TreeV>>, CauseV)>(
                v@.map_values(|t: Tree<(), String>| tree_view(t)),
            ),
            Err(p) => evaluation(state_view(state@), steps@) == Err::<Seq<TreeV>, (Seq<Option<TreeV>>, CauseV)>(
                (state_view(p.partial_result@), cause_view(p.cause)),
            ),
        },
{
    let ghost s0 = state_view(state@);
    let len = state.len();
    let mut wires = state;
    let mut i: usize = 0;
    while i < steps.len()
        invariant
            i <= steps.len(),
            wires.len() == len,
            s0 == state_view(state@),
            steps_fit(steps@, len as nat),
            eval_steps(s0, steps@, i as nat) == Ok::<Seq<Option<TreeV>>, (Seq<Option<TreeV>>, CauseV)>(
                state_view(wires@),
            ),
        decreases steps.len() - i,
    {
        let step = &steps[i];
        assert(all_below(steps@[i as int].sources@, len as nat));
        match eval_step(&mut wires, step) {
            Ok(()) => {},
            Err(cause) => {
                proof {
                    lemma_eval_steps_err(s0, steps@, (i + 1) as nat, steps.len() as nat);
                }
                return Err(PartialResult { partial_result: wires, cause });
            },
        }
        i = i + 1;
    }
    let ghost fin = state_view(wires@);
    let mut out: Vec<Tree<(), String>> = Vec::new();
    let mut rest = wires;
    // Take the wires from the back so that each value moves out once.
    let mut back: Vec<Tree<(), String>> = Vec::new();
    while rest.len() > 0
        invariant
            rest.len() + back.len() == len,
            fin.len() == len,
            state_view(rest@) == fin.take(rest.len() as int),
            back@.reverse().map_values(|t: Tree<(), String>| tree_view(t)) == finished(fin).skip(rest.len() as int),
        decreases rest.len(),
    {
        let ghost before = rest@;
        let ghost bb = back@;
        let w = rest.len() - 1;
        let o = rest.pop().unwrap();
        assert(before =~= rest@.push(o));
        assert(fin[w as int] == opt_view(o)) by {
            assert(fin.take((w + 1) as int)[w as int] == state_view(before)[w as int]);
        }
        let t = match o {
            Some(t) => t,
            None => Tree::Leaf(w, ()),
        };
        back.push(t);
        proof {
            assert(state_view(rest@) =~= fin.take(rest.len() as int));
            assert(back@.reverse() =~= seq![t] + bb.reverse());
            assert(back@.reverse().map_values(|t: Tree<(), String>| tree_view(t)) =~= seq![tree_view(t)]
                + bb.reverse().map_values(|t: Tree<(), String>| tree_view(t)));
            assert(finished(fin).skip(w as int) =~= seq![finished(fin)[w as int]] + finished(fin).skip((w + 1) as int));
        }
    }
    while back.len() > 0
        invariant
            out@.map_values(|t: Tree<(), String>| tree_view(t)) + back@.reverse().map_values(
                |t: Tree<(), String>| tree_view(t),
            ) == finished(fin),
        decreases back.len(),
    {
        let ghost bb = back@;
        let ghost ob = out@;
        let t = back.pop().unwrap();
        out.push(t);
        proof {
            assert(bb.reverse() =~= seq![t] + back@.reverse());
            assert(bb.reverse().map_values(|t: Tree<(), String>| tree_view(t)) =~= seq![tree_view(t)]
                + back@.reverse().map_values(|t: Tree<(), String>| tree_view(t)));
            assert(out@.map_values(|t: Tree<(), String>| tree_view(t)) =~= ob.map_values(
                |t: Tree<(), String>| tree_view(t),
            ).push(tree_view(t)));
        }
    }
    assert(out@.map_values(|t: Tree<(), String>| tree_view(t)) =~= finished(fin));
    Ok(out)
}

/// Evaluates the operations `steps`, in order, on `node_count` wires that
/// start without values.
pub fn eval_type(steps: &Vec<SsaStep>, node_count: usize) -> (r: Result<Vec<Tree<(), String>>, PartialResult>)
    requires
        steps_fit(steps@, node_count as nat),
    ensures
        match r {
            Ok(v) => evaluation(Seq::new(node_count as nat, |i: int| None::<TreeV>), steps@) == Ok::<
                Seq<TreeV>,
                (Seq<Option<TreeV>>, CauseV),
            >(v@.map_values(|t: Tree<(), String>| tree_view(t))),
            Err(p) => evaluation(Seq::new(node_count as nat, |i: int| None::<TreeV>), steps@) == Err::<
                Seq<TreeV>,
                (Seq<Option<TreeV>>, CauseV),
            >((state_view(p.partial_result@), cause_view(p.cause))),
        },
{
    let mut state: Vec<Option<Tree<(), String>>> = Vec::new();
    let mut i: usize = 0;
    while i < node_count
        invariant
            i <= node_count,
            state_view(state@) == Seq::new(i as nat, |j: int| None::<TreeV>),
        decreases node_count - i,
    {
        let ghost before = state@;
        state.push(None);
        assert(state@ =~= before.push(None));
        assert(state_view(state@) =~= state_view(before).push(None));
        assert(state_view(state@) =~= Seq::new((i + 1) as nat, |j: int| None::<TreeV>));
        i = i + 1;
    }
    eval_type_with(steps, state)
}


/// An operation label of a graph whose labels may themselves be spiders,
/// with nested spiders flattened into spiders.
pub fn flatten_spiders<O>(op: WithSpiders<(), WithSpiders<(), Dual<O>>>) -> (r: WithSpiders<(), Dual<O>>)
    ensures
        r == (match op {
            WithSpiders::Spider(_) => WithSpiders::Spider(()),
            WithSpiders::Operation(inner) => inner,
        }),
{
    match op {
        WithSpiders::Spider(_) => WithSpiders::Spider(()),
        WithSpiders::Operation(inner) => inner,
    }
}

/// The wire values at the nodes `indices`, keeping the cause.
pub fn project_partial_result(partial: PartialResult, indices: &Vec<usize>) -> (r: PartialResult)
    requires
        all_below(indices@, partial.partial_result.len() as nat),
    ensures
        state_view(r.partial_result@) == Seq::new(
            indices.len() as nat,
            |j: int| state_view(partial.partial_result@)[indices@[j] as int],
        ),
        cause_view(r.cause) == cause_view(partial.cause),
{
    let PartialResult { partial_result, cause } = partial;
    let ghost sv = state_view(partial_result@);
    let mut out: Vec<Option<Tree<(), String>>> = Vec::new();
    let mut j: usize = 0;
    while j < indices.len()
        invariant
            j <= indices.len(),
            all_below(indices@, partial_result.len() as nat),
            sv == state_view(partial_result@),
            state_view(out@) == Seq::new(j as nat, |k: int| sv[indices@[k] as int]),
        decreases indices.len() - j,
    {
        let i = indices[j];
        assert(indices@[j as int] < partial_result.len());
        let v = match &partial_result[i] {
            None => None,
            Some(t) => Some(clone_tree(t)),
        };
        assert(opt_view(v) == sv[i as int]);
        let ghost before = out@;
        out.push(v);
        assert(out@ =~= before.push(v));
        assert(state_view(out@) =~= state_view(before).push(opt_view(v)));
        assert(state_view(out@) =~= Seq::new((j + 1) as nat, |k: int| sv[indices@[k] as int]));
        j = j + 1;
    }
    PartialResult { partial_result: out, cause }
}

/// The sum of the first `n` segment lengths.
pub open spec fn segment_start(lengths: Seq<usize>, n: nat) -> nat
    decreases n,
{
    if n == 0 {
        0
    } else {
        segment_start(lengths, (n - 1) as nat) + (lengths[n - 1] as nat)
    }
}

/// For each of the first `n` segments, the node that its first value
/// names, shifted by `offset`, through `node_map`; `None` when a segment is
/// empty or its node has no representative.
pub open spec fn witness_spec(
    lengths: Seq<usize>,
    values: Seq<usize>,
    offset: nat,
    node_map: Seq<Option<usize>>,
    n: nat,
) -> Option<Seq<usize>>
    decreases n,
{
    if n == 0 {
        Some(Seq::empty())
    } else {
        match witness_spec(lengths, values, offset, node_map, (n - 1) as nat) {
            None => None,
            Some(r) => if lengths[n - 1] == 0 {
                None
            } else {
                match node_map[offset + values[segment_start(lengths, (n - 1) as nat) as int]] {
                    None => None,
                    Some(x) => Some(r.push(x)),
                }
            },
        }
    }
}

proof fn lemma_segment_start_mono(lengths: Seq<usize>, a: nat, b: nat)
    requires
        a <= b,
    ensures
        segment_start(lengths, a) <= segment_start(lengths, b),
    decreases b,
{
    if a < b {
        lemma_segment_start_mono(lengths, a, (b - 1) as nat);
    }
}

proof fn lemma_witness_none(lengths: Seq<usize>, values: Seq<usize>, offset: nat, node_map: Seq<Option<usize>>, k: nat, n: nat)
    requires
        k <= n,
        witness_spec(lengths, values, offset, node_map, k) is None,
    ensures
        witness_spec(lengths, values, offset, node_map, n) is None,
    decreases n,
{
    if k < n {
        lemma_witness_none(lengths, values, offset, node_map, k, (n - 1) as nat);
    }
}

/// For each node of a term, the node of the extracted type term that stands
/// for it: the witness gives, for each node, a segment of `values` whose
/// first entry is a node of the type map, which sits at `offset` in the
/// composite.
pub fn witness_indices(
    lengths: &Vec<usize>,
    values: &Vec<usize>,
    offset: usize,
    node_map: &Vec<Option<usize>>,
) -> (r: Option<Vec<usize>>)
    requires
        segment_start(lengths@, lengths.len() as nat) <= values.len(),
        forall|c: int| 0 <= c < values.len() ==> offset + #[trigger] values@[c] < node_map.len(),
    ensures
        match r {
            Some(v) => witness_spec(lengths@, values@, offset as nat, node_map@, lengths.len() as nat) == Some(v@),
            None => witness_spec(lengths@, values@, offset as nat, node_map@, lengths.len() as nat) is None,
        },
{
    let mut cursor: usize = 0;
    let mut result: Vec<usize> = Vec::new();
    let mut node: usize = 0;
    while node < lengths.len()
        invariant
            node <= lengths.len(),
            cursor == segment_start(lengths@, node as nat),
            segment_start(lengths@, lengths.len() as nat) <= values.len(),
            forall|c: int| 0 <= c < values.len() ==> offset + #[trigger] values@[c] < node_map.len(),
            witness_spec(lengths@, values@, offset as nat, node_map@, node as nat) == Some(result@),
        decreases lengths.len() - node,
    {
        proof {
            lemma_segment_start_mono(lengths@, (node + 1) as nat, lengths.len() as nat);
        }
        let segment_len = lengths[node];
        if segment_len == 0 {
            proof {
                lemma_witness_none(lengths@, values@, offset as nat, node_map@, (node + 1) as nat, lengths.len() as nat);
            }
            return None;
        }
        let mapped = values[cursor];
        assert(offset + values@[cursor as int] < node_map.len());
        let extracted = match node_map[offset + mapped] {
            None => {
                proof {
                    lemma_witness_none(lengths@, values@, offset as nat, node_map@, (node + 1) as nat, lengths.len() as nat);
                }
                return None;
            },
            Some(x) => x,
        };
        result.push(extracted);
        cursor = cursor + segment_len;
        node = node + 1;
    }
    Some(result)
}

} // verus!
