//! An interpreter of first-order logic terms given as hypergraphs: values
//! are formula trees, operations build and unpack them, copies duplicate
//! them and equalities unify them. Every wire is written once.
use vstd::prelude::*;
use crate::fol::{FOL, fol_symbol};
use crate::lang::{Arr, Obj};
use crate::term::{Tree, rendered};
use crate::text::{decimal, push_str, usize_to_decimal};
use crate::tree::Label;

verus! {

/// A formula tree: variables at the leaves, symbols at the nodes.
pub type Value = Tree<Obj, FOL>;

/// A formula tree as a plain value.
pub enum ValueV {
    Leaf(usize),
    Node(FOL, Seq<ValueV>),
}

/// The plain value of a formula tree.
pub open spec fn value_view(t: Value) -> ValueV
    decreases t, 1int,
{
    match t {
        Tree::Leaf(i, _) => ValueV::Leaf(i),
        Tree::Node(op, children) => ValueV::Node(op, values_view(children@)),
    }
}

/// The plain values of a list of formula trees.
pub open spec fn values_view(ts: Seq<Value>) -> Seq<ValueV>
    decreases ts, 0int,
{
    if ts.len() == 0 {
        Seq::empty()
    } else {
        values_view(ts.drop_last()).push(value_view(ts.last()))
    }
}

/// The plain values of a list, one by one.
pub proof fn lemma_values_view(ts: Seq<Value>)
    ensures
        values_view(ts).len() == ts.len(),
        forall|i: int| 0 <= i < ts.len() ==> #[trigger] values_view(ts)[i] == value_view(ts[i]),
    decreases ts.len(),
{
    if ts.len() > 0 {
        lemma_values_view(ts.drop_last());
        assert forall|i: int| 0 <= i < ts.len() implies #[trigger] values_view(ts)[i] == value_view(ts[i]) by {
            if i < ts.len() - 1 {
                assert(ts.drop_last()[i] == ts[i]);
            }
        }
    }
}

/// A copy of a formula tree.
pub fn clone_value(t: &Value) -> (r: Value)
    ensures
        value_view(r) == value_view(*t),
    decreases t,
{
    match t {
        Tree::Leaf(i, _) => Tree::Leaf(*i, Obj),
        Tree::Node(op, children) => {
            let mut out: Vec<Value> = Vec::new();
            let mut k: usize = 0;
            while k < children.len()
                invariant
                    k <= children.len(),
                    *t == Tree::<Obj, FOL>::Node(*op, *children),
                    values_view(out@) == values_view(children@.take(k as int)),
                decreases children.len() - k,
            {
                proof {
                    assert(decreases_to!(*t => t->Node_1));
                    assert(decreases_to!(*children => children@));
                    assert(decreases_to!(children@ => children@[k as int]));
                }
                let c = clone_value(&children[k]);
                let ghost before = out@;
                out.push(c);
                proof {
                    assert(out@.drop_last() =~= before);
                    assert(children@.take(k + 1).drop_last() =~= children@.take(k as int));
                }
                k = k + 1;
            }
            proof {
                assert(children@.take(children.len() as int) =~= children@);
            }
            Tree::Node(*op, out)
        },
    }
}

/// Whether two formula trees are the same.
pub fn values_equal(a: &Value, b: &Value) -> (r: bool)
    ensures
        r == (value_view(*a) == value_view(*b)),
    decreases a,
{
    match (a, b) {
        (Tree::Leaf(i, _), Tree::Leaf(j, _)) => *i == *j,
        (Tree::Node(op1, c1), Tree::Node(op2, c2)) => {
            proof {
                lemma_values_view(c1@);
                lemma_values_view(c2@);
            }
            if *op1 != *op2 || c1.len() != c2.len() {
                return false;
            }
            let mut k: usize = 0;
            while k < c1.len()
                invariant
                    k <= c1.len(),
                    c1.len() == c2.len(),
                    *a == Tree::<Obj, FOL>::Node(*op1, *c1),
                    *b == Tree::<Obj, FOL>::Node(*op2, *c2),
                    values_view(c1@).len() == c1.len(),
                    values_view(c2@).len() == c2.len(),
                    forall|j: int| 0 <= j < c1.len() ==> #[trigger] values_view(c1@)[j] == value_view(c1@[j]),
                    forall|j: int| 0 <= j < c2.len() ==> #[trigger] values_view(c2@)[j] == value_view(c2@[j]),
                    forall|j: int| 0 <= j < k ==> value_view(#[trigger] c1@[j]) == value_view(c2@[j]),
                decreases c1.len() - k,
            {
                proof {
                    assert(decreases_to!(*a => a->Node_1));
                    assert(decreases_to!(*c1 => c1@));
                    assert(decreases_to!(c1@ => c1@[k as int]));
                }
                if !values_equal(&c1[k], &c2[k]) {
                    assert(values_view(c1@)[k as int] != values_view(c2@)[k as int]);
                    return false;
                }
                k = k + 1;
            }
            assert(values_view(c1@) =~= values_view(c2@)) by {
                assert forall|j: int| 0 <= j < c1.len() implies values_view(c1@)[j] == values_view(c2@)[j] by {
                    assert(value_view(c1@[j]) == value_view(c2@[j]));
                }
            }
            true
        },
        _ => false,
    }
}

/// One operation of a term, in an order where each operation comes after
/// those that feed it: its arrow and the nodes at its inputs and outputs.
#[derive(Debug)]
pub struct Step {
    pub op: Arr<FOL>,
    pub sources: Vec<usize>,
    pub targets: Vec<usize>,
}

/// Why interpretation stopped.
#[derive(Debug)]
pub enum InterpreterError {
    /// A node written a second time.
    NonMonogamousWrite(usize),
    /// A node read before it was written.
    NonMonogamousRead(usize),
    /// An operation got the wrong number of arguments.
    ArityError { expected: usize, got: usize },
    /// A reversed operation got a value not made by its symbol.
    TypeError { expected: FOL, got: Option<FOL> },
    /// An equality got an argument unlike its first.
    UnifyError(Value),
    /// Some node had no value at the end.
    NotAllValuesComputed,
    /// The term could not be put in evaluation order; the reason.
    SsaError(String),
}

/// The name of a symbol, as `{:?}` writes it.
pub open spec fn fol_name(op: FOL) -> Seq<char> {
    match op {
        FOL::Provable => "Provable"@,
        FOL::Forall => "Forall"@,
        FOL::Exists => "Exists"@,
        FOL::Not => "Not"@,
        FOL::Implies => "Implies"@,
        FOL::Equiv => "Equiv"@,
        FOL::And => "And"@,
        FOL::Or => "Or"@,
        FOL::True => "True"@,
        FOL::Phi => "Phi"@,
    }
}

/// The text of an interpreter error.
pub open spec fn error_message(e: InterpreterError) -> Seq<char> {
    match e {
        InterpreterError::NonMonogamousWrite(id) => "Value written multiple times: "@ + decimal(id as nat),
        InterpreterError::NonMonogamousRead(id) => "Value read multiple times or doesn't exist: "@ + decimal(id as nat),
        InterpreterError::ArityError { expected, got } => "Expected "@ + decimal(expected as nat) + " arguments, got "@
            + decimal(got as nat),
        InterpreterError::TypeError { expected, got } => "Type error: expected "@ + fol_symbol(expected) + ", got "@
            + match got {
            Some(g) => "Some("@ + fol_name(g) + ")"@,
            None => "None"@,
        },
        InterpreterError::UnifyError(v) => "Unification error: "@ + rendered(v),
        InterpreterError::NotAllValuesComputed => "Not all values computed"@,
        InterpreterError::SsaError(reason) => "SSA error: "@ + reason@,
    }
}

/// Appends the name of a symbol.
fn push_fol_name(s: &mut String, op: FOL)
    ensures
        final(s)@ == old(s)@ + fol_name(op),
{
    match op {
        FOL::Provable => push_str(s, "Provable"),
        FOL::Forall => push_str(s, "Forall"),
        FOL::Exists => push_str(s, "Exists"),
        FOL::Not => push_str(s, "Not"),
        FOL::Implies => push_str(s, "Implies"),
        FOL::Equiv => push_str(s, "Equiv"),
        FOL::And => push_str(s, "And"),
        FOL::Or => push_str(s, "Or"),
        FOL::True => push_str(s, "True"),
        FOL::Phi => push_str(s, "Phi"),
    }
}

impl InterpreterError {
    /// The error's message.
    pub fn message(&self) -> (r: String)
        ensures
            r@ == error_message(*self),
    {
        let mut s = String::new();
        match self {
            InterpreterError::NonMonogamousWrite(id) => {
                push_str(&mut s, "Value written multiple times: ");
                let d = usize_to_decimal(*id);
                push_str(&mut s, d.as_str());
            },
            InterpreterError::NonMonogamousRead(id) => {
                push_str(&mut s, "Value read multiple times or doesn't exist: ");
                let d = usize_to_decimal(*id);
                push_str(&mut s, d.as_str());
            },
            InterpreterError::ArityError { expected, got } => {
                push_str(&mut s, "Expected ");
                let d = usize_to_decimal(*expected);
                push_str(&mut s, d.as_str());
                push_str(&mut s, " arguments, got ");
                let g = usize_to_decimal(*got);
                push_str(&mut s, g.as_str());
            },
            InterpreterError::TypeError { expected, got } => {
                push_str(&mut s, "Type error: expected ");
                let e = expected.label();
                push_str(&mut s, e.as_str());
                push_str(&mut s, ", got ");
                match got {
                    Some(g) => {
                        push_str(&mut s, "Some(");
                        push_fol_name(&mut s, *g);
                        push_str(&mut s, ")");
                    },
                    None => push_str(&mut s, "None"),
                }
            },
            InterpreterError::UnifyError(v) => {
                push_str(&mut s, "Unification error: ");
                let t = v.render();
                push_str(&mut s, t.as_str());
            },
            InterpreterError::NotAllValuesComputed => push_str(&mut s, "Not all values computed"),
            InterpreterError::SsaError(reason) => {
                push_str(&mut s, "SSA error: ");
                push_str(&mut s, reason.as_str());
            },
        }
        assert(s@ =~= error_message(*self));
        s
    }
}

/// An interpreter error as a plain value.
pub enum ErrV {
    NonMonogamousWrite(usize),
    NonMonogamousRead(usize),
    ArityError(usize, usize),
    TypeError(FOL, Option<FOL>),
    UnifyError(ValueV),
    NotAllValuesComputed,
    SsaError,
}

/// The plain value of an interpreter error.
pub open spec fn error_view(e: InterpreterError) -> ErrV {
    match e {
        InterpreterError::NonMonogamousWrite(n) => ErrV::NonMonogamousWrite(n),
        InterpreterError::NonMonogamousRead(n) => ErrV::NonMonogamousRead(n),
        InterpreterError::ArityError { expected, got } => ErrV::ArityError(expected, got),
        InterpreterError::TypeError { expected, got } => ErrV::TypeError(expected, got),
        InterpreterError::UnifyError(v) => ErrV::UnifyError(value_view(v)),
        InterpreterError::NotAllValuesComputed => ErrV::NotAllValuesComputed,
        InterpreterError::SsaError(_) => ErrV::SsaError,
    }
}

/// `n` copies of a value.
pub open spec fn copies(v: ValueV, n: nat) -> Seq<ValueV> {
    Seq::new(n, |i: int| v)
}

/// The first argument after the first that differs from it.
pub open spec fn first_unlike(args: Seq<ValueV>) -> Option<int> {
    if exists|k: int| 1 <= k < args.len() && #[trigger] args[k] != args[0] {
        Some(choose|k: int| 1 <= k < args.len() && #[trigger] args[k] != args[0] && forall|j: int| 1 <= j < k ==> #[trigger] args[j] == args[0])
    } else {
        None
    }
}

/// What an operation gives for its arguments. A copy duplicates its one
/// argument to every output; an equality with no arguments gives each
/// output node as a variable, and otherwise its first argument, provided
/// all are alike; a symbol used forwards makes one tree of its arguments;
/// used in reverse, it takes its one argument apart.
pub open spec fn apply_spec(op: Arr<FOL>, targets: Seq<usize>, args: Seq<ValueV>) -> Result<Seq<ValueV>, ErrV> {
    match op {
        Arr::Copy => if args.len() != 1 {
            Err(ErrV::ArityError(1, args.len() as usize))
        } else {
            Ok(copies(args[0], targets.len()))
        },
        Arr::Equal => if args.len() == 0 {
            Ok(Seq::new(targets.len(), |i: int| ValueV::Leaf(targets[i])))
        } else {
            match first_unlike(args) {
                Some(k) => Err(ErrV::UnifyError(args[k])),
                None => Ok(copies(args[0], targets.len())),
            }
        },
        Arr::Fwd(label) => Ok(seq![ValueV::Node(label, args)]),
        Arr::Rev(label) => if args.len() != 1 {
            Err(ErrV::ArityError(1, args.len() as usize))
        } else {
            match args[0] {
                ValueV::Node(actual, children) => if actual == label {
                    Ok(children)
                } else {
                    Err(ErrV::TypeError(label, Some(actual)))
                },
                ValueV::Leaf(_) => Err(ErrV::TypeError(label, None)),
            }
        },
    }
}

/// `n` copies of a value.
fn copies_of(v: &Value, n: usize) -> (r: Vec<Value>)
    ensures
        values_view(r@) == copies(value_view(*v), n as nat),
{
    let mut out: Vec<Value> = Vec::new();
    let mut i: usize = 0;
    while i < n
        invariant
            i <= n,
            values_view(out@) == copies(value_view(*v), i as nat),
        decreases n - i,
    {
        let c = clone_value(v);
        let ghost before = out@;
        out.push(c);
        proof {
            assert(out@.drop_last() =~= before);
            assert(values_view(out@) =~= copies(value_view(*v), (i + 1) as nat));
        }
        i = i + 1;
    }
    out
}

/// The interpreter of first-order logic terms.
pub struct Interpreter;

impl Interpreter {
    /// What the operation of `step` gives for `args`.
    pub fn apply(&mut self, step: &Step, args: Vec<Value>) -> (r: Result<Vec<Value>, InterpreterError>)
        ensures
            match r {
                Ok(v) => apply_spec(step.op, step.targets@, values_view(args@)) == Ok::<Seq<ValueV>, ErrV>(values_view(v@)),
                Err(e) => apply_spec(step.op, step.targets@, values_view(args@)) == Err::<Seq<ValueV>, ErrV>(error_view(e)),
            },
    {
        proof {
            lemma_values_view(args@);
        }
        match &step.op {
            Arr::Copy => {
                if args.len() != 1 {
                    return Err(InterpreterError::ArityError { expected: 1, got: args.len() });
                }
                Ok(copies_of(&args[0], step.targets.len()))
            },
            Arr::Equal => {
                if args.len() == 0 {
                    let mut out: Vec<Value> = Vec::new();
                    let mut i: usize = 0;
                    while i < step.targets.len()
                        invariant
                            i <= step.targets@.len(),
                            values_view(out@) == Seq::new(i as nat, |j: int| ValueV::Leaf(step.targets@[j])),
                        decreases step.targets@.len() - i,
                    {
                        let ghost before = out@;
                        out.push(Tree::Leaf(step.targets[i], Obj));
                        proof {
                            assert(out@.drop_last() =~= before);
                            assert(values_view(out@) == values_view(before).push(value_view(out@.last())));
                            assert(value_view(out@.last()) == ValueV::Leaf(step.targets@[i as int]));
                            assert(values_view(out@) =~= Seq::new((i + 1) as nat, |j: int| ValueV::Leaf(step.targets@[j])));
                        }
                        i = i + 1;
                    }
                    return Ok(out);
                }
                let ghost vs = values_view(args@);
                let mut k: usize = 1;
                while k < args.len()
                    invariant
                        1 <= k <= args@.len(),
                        step.op matches Arr::Equal,
                        vs == values_view(args@),
                        vs.len() == args@.len(),
                        forall|j: int| 0 <= j < args@.len() ==> #[trigger] vs[j] == value_view(args@[j]),
                        forall|j: int| 1 <= j < k ==> #[trigger] vs[j] == vs[0],
                    decreases args@.len() - k,
                {
                    if !values_equal(&args[k], &args[0]) {
                        proof {
                            assert(1 <= k < vs.len() && vs[k as int] != vs[0]);
                            assert(forall|j: int| 1 <= j < k ==> #[trigger] vs[j] == vs[0]);
                            assert(exists|c: int| 1 <= c < vs.len() && #[trigger] vs[c] != vs[0] && forall|j: int| 1 <= j < c ==> #[trigger] vs[j] == vs[0]);
                            let c = choose|c: int| 1 <= c < vs.len() && #[trigger] vs[c] != vs[0] && forall|j: int| 1 <= j < c ==> #[trigger] vs[j] == vs[0];
                            if c < k {
                                assert(vs[c] == vs[0]);
                            } else if c > k {
                                assert(vs[k as int] == vs[0]);
                            }
                            assert(first_unlike(vs) == Some(k as int));
                        }
                        let ghost old_args = args@;
                        let mut args = args;
                        let bad = args.swap_remove(k);
                        proof {
                            assert(bad == old_args[k as int]);
                            assert(value_view(bad) == vs[k as int]);
                            assert(apply_spec(step.op, step.targets@, vs) == Err::<Seq<ValueV>, ErrV>(ErrV::UnifyError(vs[k as int])));
                        }
                        return Err(InterpreterError::UnifyError(bad));
                    }
                    k = k + 1;
                }
                Ok(copies_of(&args[0], step.targets.len()))
            },
            Arr::Fwd(label) => {
                let ghost a = args@;
                let mut out: Vec<Value> = Vec::new();
                out.push(Tree::Node(*label, args));
                proof {
                    lemma_values_view(out@);
                    assert(values_view(out@) =~= seq![ValueV::Node(*label, values_view(a))]);
                }
                Ok(out)
            },
            Arr::Rev(label) => {
                if args.len() != 1 {
                    return Err(InterpreterError::ArityError { expected: 1, got: args.len() });
                }
                let mut args = args;
                let arg = args.pop().unwrap();
                match arg {
                    Tree::Node(actual, children) => {
                        if actual == *label {
                            Ok(children)
                        } else {
                            Err(InterpreterError::TypeError { expected: *label, got: Some(actual) })
                        }
                    },
                    Tree::Leaf(_, _) => Err(InterpreterError::TypeError { expected: *label, got: None }),
                }
            },
        }
    }
}

/// A step as plain values.
pub type StepV = (Arr<FOL>, Seq<usize>, Seq<usize>);

/// The plain value of a step.
pub open spec fn step_view(s: Step) -> StepV {
    (s.op, s.sources@, s.targets@)
}

/// The plain values of the node values.
pub open spec fn state_view(s: Seq<Option<Value>>) -> Seq<Option<ValueV>> {
    s.map_values(|o: Option<Value>| match o {
        Some(v) => Some(value_view(v)),
        None => None,
    })
}

/// The values at the nodes `ids`, in order; the first node without a
/// value is the error.
pub open spec fn read_args(state: Seq<Option<ValueV>>, ids: Seq<usize>) -> Result<Seq<ValueV>, ErrV>
    decreases ids.len(),
{
    if ids.len() == 0 {
        Ok(Seq::empty())
    } else {
        match read_args(state, ids.drop_last()) {
            Err(e) => Err(e),
            Ok(a) => match state[ids.last() as int] {
                Some(v) => Ok(a.push(v)),
                None => Err(ErrV::NonMonogamousRead(ids.last())),
            },
        }
    }
}

/// Writes the first `n` results to the nodes `ids`, in order; a node that
/// already has a value is the error.
pub open spec fn write_results(state: Seq<Option<ValueV>>, ids: Seq<usize>, results: Seq<ValueV>, n: nat) -> Result<
    Seq<Option<ValueV>>,
    ErrV,
>
    decreases n,
{
    if n == 0 {
        Ok(state)
    } else {
        match write_results(state, ids, results, (n - 1) as nat) {
            Err(e) => Err(e),
            Ok(s) => if s[ids[n - 1] as int] is Some {
                Err(ErrV::NonMonogamousWrite(ids[n - 1]))
            } else {
                Ok(s.update(ids[n - 1] as int, Some(results[n - 1])))
            },
        }
    }
}

/// One step: read its arguments, apply its operation, and write as many
/// results as it has output nodes and results.
pub open spec fn run_step(state: Seq<Option<ValueV>>, step: StepV) -> Result<Seq<Option<ValueV>>, ErrV> {
    match read_args(state, step.1) {
        Err(e) => Err(e),
        Ok(args) => match apply_spec(step.0, step.2, args) {
            Err(e) => Err(e),
            Ok(res) => write_results(state, step.2, res, if step.2.len() <= res.len() { step.2.len() } else { res.len() }),
        },
    }
}

/// The first `k` steps, in order.
pub open spec fn run_steps_spec(state: Seq<Option<ValueV>>, steps: Seq<StepV>, k: nat) -> Result<Seq<Option<ValueV>>, ErrV>
    decreases k,
{
    if k == 0 {
        Ok(state)
    } else {
        match run_steps_spec(state, steps, (k - 1) as nat) {
            Err(e) => Err(e),
            Ok(s) => run_step(s, steps[k - 1]),
        }
    }
}

/// `n` nodes without values, then the first `k` input values placed at
/// their nodes, in order.
pub open spec fn loaded(n: nat, sources: Seq<usize>, values: Seq<ValueV>, k: nat) -> Seq<Option<ValueV>>
    decreases k,
{
    if k == 0 {
        Seq::new(n, |i: int| None::<ValueV>)
    } else {
        loaded(n, sources, values, (k - 1) as nat).update(sources[k - 1] as int, Some(values[k - 1]))
    }
}

/// What running a term gives: the values of all its nodes and of its
/// output nodes. The inputs are placed, the steps run in order, the output
/// nodes are read, and every node must then have a value.
pub open spec fn run_spec(n: nat, sources: Seq<usize>, targets: Seq<usize>, steps: Seq<StepV>, values: Seq<ValueV>) -> Result<
    (Seq<ValueV>, Seq<ValueV>),
    ErrV,
> {
    match run_steps_spec(loaded(n, sources, values, sources.len()), steps, steps.len()) {
        Err(e) => Err(e),
        Ok(s) => match read_args(s, targets) {
            Err(e) => Err(e),
            Ok(outs) => if forall|i: int| 0 <= i < s.len() ==> #[trigger] s[i] is Some {
                Ok((Seq::new(s.len(), |i: int| s[i]->Some_0), outs))
            } else {
                Err(ErrV::NotAllValuesComputed)
            },
        },
    }
}

/// Every node number is below `n`.
pub open spec fn ids_below(ids: Seq<usize>, n: nat) -> bool {
    forall|i: int| 0 <= i < ids.len() ==> #[trigger] ids[i] < n
}

/// Every step's nodes are below `n`.
pub open spec fn steps_below(steps: Seq<Step>, n: nat) -> bool {
    forall|i: int| 0 <= i < steps.len() ==> ids_below((#[trigger] steps[i]).sources@, n) && ids_below(steps[i].targets@, n)
}

/// Once reading fails, reading more fails the same way.
proof fn lemma_read_err(state: Seq<Option<ValueV>>, ids: Seq<usize>, k: int)
    requires
        0 <= k <= ids.len(),
        read_args(state, ids.take(k)) is Err,
    ensures
        read_args(state, ids) == read_args(state, ids.take(k)),
    decreases ids.len(),
{
    if k == ids.len() {
        assert(ids.take(k) =~= ids);
    } else {
        assert(ids.drop_last().take(k) =~= ids.take(k));
        lemma_read_err(state, ids.drop_last(), k);
    }
}

/// Once writing fails, writing more fails the same way.
proof fn lemma_write_err(state: Seq<Option<ValueV>>, ids: Seq<usize>, results: Seq<ValueV>, k: nat, n: nat)
    requires
        k <= n,
        write_results(state, ids, results, k) is Err,
    ensures
        write_results(state, ids, results, n) == write_results(state, ids, results, k),
    decreases n,
{
    if k < n {
        lemma_write_err(state, ids, results, k, (n - 1) as nat);
    }
}

/// Once a step fails, running more steps fails the same way.
proof fn lemma_steps_err(state: Seq<Option<ValueV>>, steps: Seq<StepV>, k: nat, n: nat)
    requires
        k <= n,
        run_steps_spec(state, steps, k) is Err,
    ensures
        run_steps_spec(state, steps, n) == run_steps_spec(state, steps, k),
    decreases n,
{
    if k < n {
        lemma_steps_err(state, steps, k, (n - 1) as nat);
    }
}

/// The values at the nodes `ids`.
fn read_values(state: &Vec<Option<Value>>, ids: &Vec<usize>) -> (r: Result<Vec<Value>, InterpreterError>)
    requires
        ids_below(ids@, state@.len() as nat),
    ensures
        match r {
            Ok(v) => read_args(state_view(state@), ids@) == Ok::<Seq<ValueV>, ErrV>(values_view(v@)),
            Err(e) => read_args(state_view(state@), ids@) == Err::<Seq<ValueV>, ErrV>(error_view(e)),
        },
{
    let ghost sv = state_view(state@);
    let mut out: Vec<Value> = Vec::new();
    let mut i: usize = 0;
    proof {
        assert(ids@.take(0) =~= Seq::<usize>::empty());
    }
    while i < ids.len()
        invariant
            i <= ids@.len(),
            sv == state_view(state@),
            ids_below(ids@, state@.len() as nat),
            read_args(sv, ids@.take(i as int)) == Ok::<Seq<ValueV>, ErrV>(values_view(out@)),
        decreases ids@.len() - i,
    {
        let id = ids[i];
        proof {
            assert(ids@[i as int] < state@.len());
            assert(ids@.take(i + 1).drop_last() =~= ids@.take(i as int));
            assert(ids@.take(i + 1).last() == id);
        }
        match &state[id] {
            Some(v) => {
                let c = clone_value(v);
                let ghost before = out@;
                out.push(c);
                proof {
                    assert(out@.drop_last() =~= before);
                    assert(sv[id as int] == Some(value_view(*v)));
                }
            },
            None => {
                proof {
                    assert(sv[id as int] is None);
                    lemma_read_err(sv, ids@, i + 1);
                }
                return Err(InterpreterError::NonMonogamousRead(id));
            },
        }
        i = i + 1;
    }
    proof {
        assert(ids@.take(ids@.len() as int) =~= ids@);
    }
    Ok(out)
}

/// Writes results to the nodes `ids`, as many as both have.
fn write_values(state: &mut Vec<Option<Value>>, ids: &Vec<usize>, results: &Vec<Value>) -> (r: Result<(), InterpreterError>)
    requires
        ids_below(ids@, old(state)@.len() as nat),
    ensures
        final(state)@.len() == old(state)@.len(),
        match r {
            Ok(()) => write_results(
                state_view(old(state)@),
                ids@,
                values_view(results@),
                if ids@.len() <= results@.len() { ids@.len() as nat } else { results@.len() as nat },
            ) == Ok::<Seq<Option<ValueV>>, ErrV>(state_view(final(state)@)),
            Err(e) => write_results(
                state_view(old(state)@),
                ids@,
                values_view(results@),
                if ids@.len() <= results@.len() { ids@.len() as nat } else { results@.len() as nat },
            ) == Err::<Seq<Option<ValueV>>, ErrV>(error_view(e)),
        },
{
    let ghost s0 = state_view(state@);
    let ghost rv = values_view(results@);
    let n: usize = if ids.len() <= results.len() { ids.len() } else { results.len() };
    let mut i: usize = 0;
    proof {
        lemma_values_view(results@);
    }
    while i < n
        invariant
            i <= n,
            n <= ids@.len(),
            n <= results@.len(),
            n == (if ids@.len() <= results@.len() { ids@.len() } else { results@.len() }),
            state@.len() == old(state)@.len(),
            s0 == state_view(old(state)@),
            rv == values_view(results@),
            rv.len() == results@.len(),
            forall|j: int| 0 <= j < results@.len() ==> #[trigger] rv[j] == value_view(results@[j]),
            ids_below(ids@, state@.len() as nat),
            write_results(s0, ids@, rv, i as nat) == Ok::<Seq<Option<ValueV>>, ErrV>(state_view(state@)),
        decreases n - i,
    {
        let id = ids[i];
        proof {
            assert(ids@[i as int] < state@.len());
        }
        if state[id].is_some() {
            proof {
                assert(state_view(state@)[id as int] is Some);
                assert(write_results(s0, ids@, rv, (i + 1) as nat) is Err);
                lemma_write_err(s0, ids@, rv, (i + 1) as nat, n as nat);
            }
            return Err(InterpreterError::NonMonogamousWrite(id));
        }
        let c = clone_value(&results[i]);
        let ghost before = state@;
        state.set(id, Some(c));
        proof {
            assert(state_view(state@) =~= state_view(before).update(id as int, Some(rv[i as int])));
        }
        i = i + 1;
    }
    Ok(())
}

impl Interpreter {
    /// Runs one step on the node values.
    fn run_one(&mut self, state: &mut Vec<Option<Value>>, step: &Step) -> (r: Result<(), InterpreterError>)
        requires
            ids_below(step.sources@, old(state)@.len() as nat),
            ids_below(step.targets@, old(state)@.len() as nat),
        ensures
            final(state)@.len() == old(state)@.len(),
            match r {
                Ok(()) => run_step(state_view(old(state)@), step_view(*step)) == Ok::<Seq<Option<ValueV>>, ErrV>(
                    state_view(final(state)@),
                ),
                Err(e) => run_step(state_view(old(state)@), step_view(*step)) == Err::<Seq<Option<ValueV>>, ErrV>(
                    error_view(e),
                ),
            },
    {
        let args = read_values(state, &step.sources)?;
        let results = self.apply(step, args)?;
        proof {
            lemma_values_view(results@);
        }
        write_values(state, &step.targets, &results)
    }

    /// Runs a term given by its steps in evaluation order on `node_count`
    /// nodes: places `values` at the input nodes `sources`, runs the steps,
    /// and gives the values of all nodes and of the output nodes `targets`.
    pub fn run_state(
        &mut self,
        steps: &Vec<Step>,
        node_count: usize,
        sources: &Vec<usize>,
        targets: &Vec<usize>,
        values: Vec<Value>,
    ) -> (r: Result<(Vec<Value>, Vec<Value>), InterpreterError>)
        requires
            values@.len() == sources@.len(),
            ids_below(sources@, node_count as nat),
            ids_below(targets@, node_count as nat),
            steps_below(steps@, node_count as nat),
        ensures
            match r {
                Ok((all, outs)) => run_spec(
                    node_count as nat,
                    sources@,
                    targets@,
                    steps@.map_values(|s: Step| step_view(s)),
                    values_view(values@),
                ) == Ok::<(Seq<ValueV>, Seq<ValueV>), ErrV>((values_view(all@), values_view(outs@))),
                Err(e) => run_spec(
                    node_count as nat,
                    sources@,
                    targets@,
                    steps@.map_values(|s: Step| step_view(s)),
                    values_view(values@),
                ) == Err::<(Seq<ValueV>, Seq<ValueV>), ErrV>(error_view(e)),
            },
    {
        let ghost vv = values_view(values@);
        let ghost sv = steps@.map_values(|s: Step| step_view(s));
        let mut state: Vec<Option<Value>> = Vec::new();
        let mut i: usize = 0;
        while i < node_count
            invariant
                i <= node_count,
                state_view(state@) == Seq::new(i as nat, |j: int| None::<ValueV>),
            decreases node_count - i,
        {
            let ghost before = state@;
            state.push(None);
            proof {
                assert(state@ =~= before.push(None::<Value>));
                assert(state_view(state@) =~= state_view(before).push(None::<ValueV>));
                assert(state_view(state@) =~= Seq::new((i + 1) as nat, |j: int| None::<ValueV>));
            }
            i = i + 1;
        }
        proof {
            lemma_values_view(values@);
        }
        let mut i: usize = 0;
        while i < sources.len()
            invariant
                i <= sources@.len(),
                values@.len() == sources@.len(),
                vv == values_view(values@),
                vv.len() == values@.len(),
                forall|j: int| 0 <= j < values@.len() ==> #[trigger] vv[j] == value_view(values@[j]),
                ids_below(sources@, node_count as nat),
                state@.len() == node_count,
                state_view(state@) == loaded(node_count as nat, sources@, vv, i as nat),
            decreases sources@.len() - i,
        {
            let id = sources[i];
            proof {
                assert(sources@[i as int] < node_count);
            }
            let c = clone_value(&values[i]);
            let ghost before = state@;
            state.set(id, Some(c));
            proof {
                assert(state_view(state@) =~= state_view(before).update(id as int, Some(vv[i as int])));
            }
            i = i + 1;
        }
        let ghost s0 = state_view(state@);
        let mut k: usize = 0;
        while k < steps.len()
            invariant
                k <= steps@.len(),
                s0 == loaded(node_count as nat, sources@, vv, sources@.len() as nat),
                vv == values_view(values@),
                sv == steps@.map_values(|s: Step| step_view(s)),
                steps_below(steps@, node_count as nat),
                state@.len() == node_count,
                run_steps_spec(s0, sv, k as nat) == Ok::<Seq<Option<ValueV>>, ErrV>(state_view(state@)),
            decreases steps@.len() - k,
        {
            let step = &steps[k];
            proof {
                assert(sv[k as int] == step_view(*step));
                assert(ids_below(step.sources@, node_count as nat));
                assert(run_steps_spec(s0, sv, (k + 1) as nat) == run_step(state_view(state@), sv[k as int]));
            }
            match self.run_one(&mut state, step) {
                Ok(()) => {},
                Err(e) => {
                    proof {
                        lemma_steps_err(s0, sv, (k + 1) as nat, sv.len());
                    }
                    return Err(e);
                },
            }
            k = k + 1;
        }
        proof {
            assert(sv.len() == steps@.len());
            assert(s0 == loaded(node_count as nat, sources@, vv, sources@.len() as nat));
        }
        let outs = match read_values(&state, targets) {
            Ok(o) => o,
            Err(e) => {
                return Err(e);
            },
        };
        let mut all: Vec<Value> = Vec::new();
        let mut i: usize = 0;
        let ghost fin = state_view(state@);
        while i < state.len()
            invariant
                i <= state@.len(),
                fin == state_view(state@),
                s0 == loaded(node_count as nat, sources@, vv, sources@.len() as nat),
                sv == steps@.map_values(|s: Step| step_view(s)),
                vv == values_view(values@),
                run_steps_spec(s0, sv, sv.len()) == Ok::<Seq<Option<ValueV>>, ErrV>(fin),
                read_args(fin, targets@) == Ok::<Seq<ValueV>, ErrV>(values_view(outs@)),
                forall|j: int| 0 <= j < i ==> #[trigger] fin[j] is Some,
                values_view(all@) == Seq::new(i as nat, |j: int| fin[j]->Some_0),
            decreases state@.len() - i,
        {
            match &state[i] {
                Some(v) => {
                    let c = clone_value(v);
                    let ghost before = all@;
                    all.push(c);
                    proof {
                        assert(all@.drop_last() =~= before);
                        assert(values_view(all@) =~= Seq::new((i + 1) as nat, |j: int| fin[j]->Some_0));
                    }
                },
                None => {
                    proof {
                        assert(fin[i as int] is None);
                        assert(!(forall|j: int| 0 <= j < fin.len() ==> #[trigger] fin[j] is Some));
                    }
                    return Err(InterpreterError::NotAllValuesComputed);
                },
            }
            i = i + 1;
        }
        Ok((all, outs))
    }

    /// Runs a term as `run_state` does and gives the values of its output
    /// nodes.
    pub fn run(
        &mut self,
        steps: &Vec<Step>,
        node_count: usize,
        sources: &Vec<usize>,
        targets: &Vec<usize>,
        values: Vec<Value>,
    ) -> (r: Result<Vec<Value>, InterpreterError>)
        requires
            values@.len() == sources@.len(),
            ids_below(sources@, node_count as nat),
            ids_below(targets@, node_count as nat),
            steps_below(steps@, node_count as nat),
        ensures
            match r {
                Ok(outs) => run_spec(
                    node_count as nat,
                    sources@,
                    targets@,
                    steps@.map_values(|s: Step| step_view(s)),
                    values_view(values@),
                ) matches Ok((_, o)) && o == values_view(outs@),
                Err(e) => run_spec(
                    node_count as nat,
                    sources@,
                    targets@,
                    steps@.map_values(|s: Step| step_view(s)),
                    values_view(values@),
                ) == Err::<(Seq<ValueV>, Seq<ValueV>), ErrV>(error_view(e)),
            },
    {
        match self.run_state(steps, node_count, sources, targets, values) {
            Ok((all, outs)) => {
                proof {
                    assert(run_spec(
                        node_count as nat,
                        sources@,
                        targets@,
                        steps@.map_values(|s: Step| step_view(s)),
                        values_view(values@),
                    ) == Ok::<(Seq<ValueV>, Seq<ValueV>), ErrV>((values_view(all@), values_view(outs@))));
                }
                Ok(outs)
            },
            Err(e) => Err(e),
        }
    }
}

/// Using a symbol in reverse on what it made forwards gives back the
/// arguments.
pub proof fn lemma_rev_undoes_fwd(label: FOL, targets: Seq<usize>, args: Seq<ValueV>)
    ensures
        apply_spec(Arr::Fwd(label), targets, args) == Ok::<Seq<ValueV>, ErrV>(seq![ValueV::Node(label, args)]),
        apply_spec(Arr::Rev(label), targets, seq![ValueV::Node(label, args)]) == Ok::<Seq<ValueV>, ErrV>(args),
{
}

/// A copy and an equality with one argument both pass it to every output.
pub proof fn lemma_copy_and_equal_agree(targets: Seq<usize>, v: ValueV)
    ensures
        apply_spec(Arr::Copy, targets, seq![v]) == Ok::<Seq<ValueV>, ErrV>(copies(v, targets.len())),
        apply_spec(Arr::Equal, targets, seq![v]) == Ok::<Seq<ValueV>, ErrV>(copies(v, targets.len())),
{
    assert(first_unlike(seq![v]) is None);
}

/// An equality with arguments succeeds exactly when all its arguments are
/// alike, and then passes the first to every output; otherwise it fails on
/// the first argument that differs from the first.
pub proof fn lemma_equal_needs_all_alike(targets: Seq<usize>, args: Seq<ValueV>)
    requires
        args.len() > 0,
    ensures
        apply_spec(Arr::Equal, targets, args) is Ok <==> forall|k: int| 0 <= k < args.len() ==> #[trigger] args[k] == args[0],
        apply_spec(Arr::Equal, targets, args) matches Ok(v) ==> v.len() == targets.len() && forall|i: int|
            0 <= i < v.len() ==> #[trigger] v[i] == args[0],
        apply_spec(Arr::Equal, targets, args) matches Err(e) ==> exists|k: int|
            1 <= k < args.len() && #[trigger] args[k] != args[0] && (forall|j: int| 1 <= j < k ==> #[trigger] args[j] == args[0])
                && e == ErrV::UnifyError(args[k]),
{
    if exists|k: int| 1 <= k < args.len() && #[trigger] args[k] != args[0] {
        let k0 = choose|k: int| 1 <= k < args.len() && #[trigger] args[k] != args[0];
        lemma_first_unlike_exists(args, k0);
    }
}

/// Where some argument differs from the first, there is a first such one.
proof fn lemma_first_unlike_exists(args: Seq<ValueV>, k0: int)
    requires
        1 <= k0 < args.len(),
        args[k0] != args[0],
    ensures
        exists|k: int| 1 <= k < args.len() && #[trigger] args[k] != args[0] && forall|j: int| 1 <= j < k ==> #[trigger] args[j] == args[0],
    decreases k0,
{
    if forall|j: int| 1 <= j < k0 ==> #[trigger] args[j] == args[0] {
        assert(1 <= k0 < args.len() && args[k0] != args[0] && forall|j: int| 1 <= j < k0 ==> #[trigger] args[j] == args[0]);
    } else {
        let j = choose|j: int| 1 <= j < k0 && #[trigger] args[j] != args[0];
        lemma_first_unlike_exists(args, j);
    }
}

} // verus!
