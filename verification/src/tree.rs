//! Rose trees used as symbolic values of wires, and their rendering as terms.
use vstd::prelude::*;
use crate::text::{is_ascii_alphanumeric_spec, decimal, push_char, push_str, usize_to_decimal};

verus! {

/// Values are rose trees: a node carries an operation label, the output port
/// of that operation it stands for, and its children; a leaf is a variable.
#[derive(Debug, PartialEq, Eq)]
pub enum Tree<Leaf, Node> {
    /// No value.
    Empty,
    /// Variable with its index and its type.
    Leaf(usize, Leaf),
    /// Operation, output port, and the operation's arguments.
    Node(Node, usize, Vec<Tree<Leaf, Node>>),
}

/// Labels that can be rendered as text.
pub trait Label {
    spec fn label_spec(&self) -> Seq<char>;

    fn label(&self) -> (s: String)
        ensures
            s@ == self.label_spec(),
    ;
}

impl Label for String {
    open spec fn label_spec(&self) -> Seq<char> {
        self@
    }

    fn label(&self) -> (s: String) {
        self.clone()
    }
}

impl<'a> Label for &'a str {
    open spec fn label_spec(&self) -> Seq<char> {
        (**self)@
    }

    fn label(&self) -> (s: String) {
        (**self).to_owned()
    }
}

/// Whether a character outside ASCII is alphanumeric in the sense of
/// Unicode.
pub uninterp spec fn is_unicode_alphanumeric(c: char) -> bool;

/// Whether `c` is alphanumeric in the sense of Unicode: on ASCII exactly
/// the letters and digits.
pub open spec fn is_alphanumeric_spec(c: char) -> bool {
    if (c as u32) < 128 {
        is_ascii_alphanumeric_spec(c)
    } else {
        is_unicode_alphanumeric(c)
    }
}

/// `char::is_alphanumeric` from std: whether `c` has the Unicode Alphabetic
/// or Numeric property. Claimed here: on ASCII characters it holds exactly
/// of letters and digits, and outside ASCII the result is a function of
/// `c`.
#[verifier::external_body]
fn char_is_alphanumeric(c: char) -> (r: bool)
    ensures
        (c as u32) < 128 ==> (r == is_ascii_alphanumeric_spec(c)),
        (c as u32) >= 128 ==> (r == is_unicode_alphanumeric(c)),
{
    c.is_alphanumeric()
}

/// The result that a deterministic closure gives on `n`.
pub open spec fn closure_result<N, E, F: Fn(&N) -> Result<usize, E>>(f: F, n: N) -> Result<usize, E> {
    choose|r: Result<usize, E>| call_ensures(f, (&n,), r)
}

/// The closure can be called on every label, and gives one result for each.
pub open spec fn deterministic<N, E, F: Fn(&N) -> Result<usize, E>>(f: F) -> bool {
    &&& forall|n: &N| call_requires(f, (n,))
    &&& forall|n: &N, r1: Result<usize, E>, r2: Result<usize, E>|
        #[trigger] call_ensures(f, (n,), r1) && #[trigger] call_ensures(f, (n,), r2) ==> r1 == r2
}

/// Operation labels that do not begin with a letter or digit are written infix.
pub open spec fn is_infix_label(s: Seq<char>) -> bool {
    !(s.len() > 0 && is_alphanumeric_spec(s[0]))
}

/// A label that begins with an ASCII character is written infix exactly
/// when that character is neither a letter nor a digit: `+` and `*` are
/// infix, `f` and `0` are not.
pub proof fn lemma_ascii_label_infix(s: Seq<char>)
    requires
        s.len() > 0,
        (s[0] as u32) < 128,
    ensures
        is_infix_label(s) <==> !(('a' <= s[0] <= 'z') || ('A' <= s[0] <= 'Z') || ('0' <= s[0] <= '9')),
{
}

/// `op(args)`.
pub open spec fn applied(op: Seq<char>, args: Seq<char>) -> Seq<char> {
    op + seq!['('] + args + seq![')']
}

/// `a, b, c`.
pub open spec fn comma_joined(parts: Seq<Seq<char>>) -> Seq<char>
    decreases parts.len(),
{
    if parts.len() == 0 {
        Seq::empty()
    } else if parts.len() == 1 {
        parts[0]
    } else {
        comma_joined(parts.drop_last()) + seq![',', ' '] + parts.last()
    }
}

/// `πi(inner)`.
pub open spec fn projected(idx: usize, inner: Seq<char>) -> Seq<char> {
    seq!['\u{3c0}'] + decimal(idx as nat) + seq!['('] + inner + seq![')']
}

/// Whether a tree is an infix application.
pub open spec fn tree_is_infix<L, N: Label>(t: Tree<L, N>) -> bool {
    match t {
        Tree::Node(op, _, children) => children.len() == 2 && is_infix_label(op.label_spec()),
        _ => false,
    }
}

/// The rendering of a tree; `coarity`, when given, decides which operations
/// have more than one output and so need their output port shown.
pub open spec fn pretty<L, N: Label, E>(
    t: Tree<L, N>,
    coarity: Option<spec_fn(N) -> Result<usize, E>>,
) -> Result<Seq<char>, E>
    decreases t, 1int,
{
    match t {
        Tree::Empty => Ok(seq!['e', 'm', 'p', 't', 'y']),
        Tree::Leaf(i, _) => Ok(seq!['x'] + decimal(i as nat)),
        Tree::Node(op, idx, children) => {
            let inner = match pretty_args(children@, coarity) {
                Err(e) => Err(e),
                Ok(args) => if args.len() == 0 {
                    Ok(op.label_spec())
                } else if args.len() == 1 {
                    Ok(applied(op.label_spec(), args[0]))
                } else if args.len() == 2 && is_infix_label(op.label_spec()) {
                    Ok(operand(children@[0], args[0]) + seq![' '] + op.label_spec() + seq![' ']
                        + operand(children@[1], args[1]))
                } else {
                    Ok(applied(op.label_spec(), comma_joined(args)))
                },
            };
            match inner {
                Err(e) => Err(e),
                Ok(s) => match coarity {
                    None => Ok(projected(idx, s)),
                    Some(c) => match c(op) {
                        Err(e) => Err(e),
                        Ok(k) => if k > 1 {
                            Ok(projected(idx, s))
                        } else {
                            Ok(s)
                        },
                    },
                },
            }
        },
    }
}

/// An operand of an infix operation: parenthesised when itself infix.
pub open spec fn operand<L, N: Label>(t: Tree<L, N>, rendered: Seq<char>) -> Seq<char> {
    if tree_is_infix(t) {
        seq!['('] + rendered + seq![')']
    } else {
        rendered
    }
}

/// Renderings of a list of trees, or the first error among them.
pub open spec fn pretty_args<L, N: Label, E>(
    ts: Seq<Tree<L, N>>,
    coarity: Option<spec_fn(N) -> Result<usize, E>>,
) -> Result<Seq<Seq<char>>, E>
    decreases ts, 0int,
{
    if ts.len() == 0 {
        Ok(Seq::empty())
    } else {
        match pretty_args(ts.drop_last(), coarity) {
            Err(e) => Err(e),
            Ok(v) => match pretty(ts.last(), coarity) {
                Err(e) => Err(e),
                Ok(s) => Ok(v.push(s)),
            },
        }
    }
}


/// An infix operation with two operands is written as its left operand,
/// the operation and its right operand, separated by spaces, with each
/// operand that is itself an infix operation in parentheses; the whole is
/// shown at its output port or not.
pub proof fn lemma_infix_operands<L, N: Label, E>(t: Tree<L, N>, coarity: Option<spec_fn(N) -> Result<usize, E>>)
    requires
        t matches Tree::Node(op, _, children) && children.len() == 2 && is_infix_label(op.label_spec()),
    ensures
        match t {
            Tree::Node(op, idx, children) => match (
                pretty(children@[0], coarity),
                pretty(children@[1], coarity),
                pretty(t, coarity),
            ) {
                (Ok(ra), Ok(rb), Ok(s)) => {
                    let left = if tree_is_infix(children@[0]) {
                        seq!['('] + ra + seq![')']
                    } else {
                        ra
                    };
                    let right = if tree_is_infix(children@[1]) {
                        seq!['('] + rb + seq![')']
                    } else {
                        rb
                    };
                    let core = left + seq![' '] + op.label_spec() + seq![' '] + right;
                    s == core || s == projected(idx, core)
                },
                _ => true,
            },
            _ => true,
        },
{
    match t {
        Tree::Node(op, idx, children) => {
            let cs = children@;
            let c0 = cs.drop_last();
            assert(c0.drop_last() =~= Seq::<Tree<L, N>>::empty());
            assert(c0.last() == cs[0]);
            assert(cs.last() == cs[1]);
            assert(pretty_args(c0.drop_last(), coarity) == Ok::<Seq<Seq<char>>, E>(Seq::empty()));
            match (pretty(cs[0], coarity), pretty(cs[1], coarity)) {
                (Ok(ra), Ok(rb)) => {
                    assert(pretty_args(c0, coarity) == Ok::<Seq<Seq<char>>, E>(Seq::<Seq<char>>::empty().push(ra)));
                    assert(pretty_args(cs, coarity) == Ok::<Seq<Seq<char>>, E>(Seq::<Seq<char>>::empty().push(ra).push(rb)));
                    let args = Seq::<Seq<char>>::empty().push(ra).push(rb);
                    assert(args.len() == 2 && args[0] == ra && args[1] == rb);
                },
                _ => {},
            }
        },
        _ => {},
    }
}

/// The coarity closure as a function on labels.
pub open spec fn coarity_spec<N, E, F: Fn(&N) -> Result<usize, E>>(
    coarity: Option<&F>,
) -> Option<spec_fn(N) -> Result<usize, E>> {
    match coarity {
        None => None,
        Some(f) => Some(|n: N| closure_result(*f, n)),
    }
}

/// The string views of a vector of strings.
pub open spec fn views(v: Seq<String>) -> Seq<Seq<char>> {
    v.map_values(|s: String| s@)
}

/// The first character of a text.
pub fn first_char(s: &str) -> (r: Option<char>)
    ensures
        r == (if s@.len() > 0 { Some(s@[0]) } else { None::<char> }),
{
    let mut it = s.chars();
    it.next()
}

/// `op(args)`.
fn apply_label(op: &String, args: &String) -> (r: String)
    ensures
        r@ == applied(op@, args@),
{
    let mut r = op.clone();
    push_char(&mut r, '(');
    push_str(&mut r, args.as_str());
    push_char(&mut r, ')');
    r
}

/// The parts separated by `, `.
pub(crate) fn join_comma(parts: &Vec<String>) -> (r: String)
    ensures
        r@ == comma_joined(views(parts@)),
{
    let mut r = String::new();
    let mut k: usize = 0;
    while k < parts.len()
        invariant
            k <= parts.len(),
            r@ == comma_joined(views(parts@).take(k as int)),
        decreases parts.len() - k,
    {
        if k > 0 {
            push_char(&mut r, ',');
            push_char(&mut r, ' ');
        }
        push_str(&mut r, parts[k].as_str());
        proof {
            let v = views(parts@);
            assert(v.take(k + 1).drop_last() =~= v.take(k as int));
            assert(v.take(k + 1).last() == parts@[k as int]@);
            if k == 0 {
                assert(v.take(0) =~= Seq::<Seq<char>>::empty());
            }
        }
        k = k + 1;
    }
    assert(views(parts@).take(parts.len() as int) =~= views(parts@));
    r
}

/// `πi(inner)`.
fn project_label(idx: usize, inner: &String) -> (r: String)
    ensures
        r@ == projected(idx, inner@),
{
    let mut r = String::new();
    push_char(&mut r, '\u{3c0}');
    let d = usize_to_decimal(idx);
    push_str(&mut r, d.as_str());
    push_char(&mut r, '(');
    push_str(&mut r, inner.as_str());
    push_char(&mut r, ')');
    r
}

impl<Leaf, Node: Label> Tree<Leaf, Node> {
    /// Whether this tree is an application of an infix operation to two
    /// arguments.
    pub fn is_infix(&self) -> (r: bool)
        ensures
            r == tree_is_infix(*self),
    {
        match self {
            Tree::Node(op, _, children) => {
                if children.len() == 2 {
                    let l = op.label();
                    match first_char(l.as_str()) {
                        None => true,
                        Some(c) => !char_is_alphanumeric(c),
                    }
                } else {
                    false
                }
            },
            _ => false,
        }
    }

    /// Renders the tree as a term; operations whose `coarity` is above one, or
    /// all operations when no `coarity` is given, show their output port as
    /// `πi(..)`. The first error of `coarity` is returned.
    pub fn try_pretty<E, F: Fn(&Node) -> Result<usize, E>>(&self, coarity: Option<&F>) -> (r: Result<String, E>)
        requires
            coarity matches Some(f) ==> deterministic(*f),
        ensures
            match r {
                Ok(s) => pretty(*self, coarity_spec(coarity)) == Ok::<Seq<char>, E>(s@),
                Err(e) => pretty(*self, coarity_spec(coarity)) == Err::<Seq<char>, E>(e),
            },
        decreases self,
    {
        match self {
            Tree::Empty => {
                let s = String::from_str("empty");
                proof {
                    reveal_strlit("empty");
                }
                assert(s@ =~= seq!['e', 'm', 'p', 't', 'y']);
                Ok(s)
            },
            Tree::Leaf(i, _) => {
                let mut s = String::new();
                push_char(&mut s, 'x');
                let d = usize_to_decimal(*i);
                push_str(&mut s, d.as_str());
                assert(s@ =~= seq!['x'] + decimal(*i as nat));
                Ok(s)
            },
            Tree::Node(op, idx, children) => {
                let ghost c = coarity_spec(coarity);
                let mut args: Vec<String> = Vec::new();
                let mut k: usize = 0;
                assert(children@.take(0) =~= Seq::<Tree<Leaf, Node>>::empty());
                assert(views(args@) =~= Seq::<Seq<char>>::empty());
                while k < children.len()
                    invariant
                        k <= children.len(),
                        args.len() == k,
                        coarity matches Some(f) ==> deterministic(*f),
                        c == coarity_spec(coarity),
                        *self == Tree::<Leaf, Node>::Node(*op, *idx, *children),
                        pretty_args(children@.take(k as int), c) == Ok::<Seq<Seq<char>>, E>(views(args@)),
                    decreases children.len() - k,
                {
                    proof {
                        assert(decreases_to!(*self => *children));
                        assert(decreases_to!(*children => children@));
                        assert(decreases_to!(children@ => children@[k as int]));
                    }
                    let ghost prev = views(args@);
                    match children[k].try_pretty(coarity) {
                        Ok(s) => {
                            let ghost sv = s@;
                            args.push(s);
                            proof {
                                let t = children@.take(k + 1);
                                assert(t.len() > 0);
                                assert(t.drop_last() =~= children@.take(k as int));
                                assert(t.last() == children@[k as int]);
                                assert(pretty(t.last(), c) == Ok::<Seq<char>, E>(sv));
                                assert(pretty_args(t.drop_last(), c) == Ok::<Seq<Seq<char>>, E>(prev));
                                assert(pretty_args(t, c) == Ok::<Seq<Seq<char>>, E>(prev.push(sv)));
                                assert(views(args@) =~= prev.push(sv));
                                assert(children@.take(k + 1).drop_last() =~= children@.take(k as int));
                                assert(children@.take(k + 1).last() == children@[k as int]);
                                assert(views(args@) =~= views(args@.drop_last()).push(args@.last()@));
                            }
                        },
                        Err(e) => {
                            proof {
                                assert(children@.take(k + 1).drop_last() =~= children@.take(k as int));
                                lemma_pretty_args_prefix_err(children@, (k + 1) as int, c);
                            }
                            return Err(e);
                        },
                    }
                    k = k + 1;
                }
                assert(children@.take(children.len() as int) =~= children@);
                let l = op.label();
                let ghost av = views(args@);
                let ghost lv = op.label_spec();
                assert(av.len() == args.len());
                assert(*self == Tree::<Leaf, Node>::Node(*op, *idx, *children));
                assert(tree_is_infix(*self) == (children.len() == 2 && is_infix_label(lv)));
                let ghost spec_inner = if av.len() == 0 {
                    lv
                } else if av.len() == 1 {
                    applied(lv, av[0])
                } else if av.len() == 2 && is_infix_label(lv) {
                    operand(children@[0], av[0]) + seq![' '] + lv + seq![' '] + operand(children@[1], av[1])
                } else {
                    applied(lv, comma_joined(av))
                };
                let inner = if args.len() == 0 {
                    assert(l@ == spec_inner);
                    l
                } else if args.len() == 1 {
                    assert(av[0] == args@[0]@);
                    let r = apply_label(&l, &args[0]);
                    assert(r@ == spec_inner);
                    r
                } else if args.len() == 2 && self.is_infix() {
                    assert(av[0] == args@[0]@);
                    assert(av[1] == args@[1]@);
                    let mut s = String::new();
                    let left_infix = children[0].is_infix();
                    if left_infix {
                        push_char(&mut s, '(');
                    }
                    push_str(&mut s, args[0].as_str());
                    if left_infix {
                        push_char(&mut s, ')');
                    }
                    assert(s@ =~= operand(children@[0], av[0]));
                    push_char(&mut s, ' ');
                    push_str(&mut s, l.as_str());
                    push_char(&mut s, ' ');
                    let ghost mid = s@;
                    let right_infix = children[1].is_infix();
                    if right_infix {
                        push_char(&mut s, '(');
                    }
                    push_str(&mut s, args[1].as_str());
                    if right_infix {
                        push_char(&mut s, ')');
                    }
                    assert(s@ =~= mid + operand(children@[1], av[1]));
                    assert(s@ =~= operand(children@[0], av[0]) + seq![' '] + lv + seq![' '] + operand(children@[1], av[1]));
                    assert(s@ == spec_inner);
                    s
                } else {
                    let joined = join_comma(&args);
                    assert(joined@ == comma_joined(av));
                    let r = apply_label(&l, &joined);
                    assert(r@ == applied(lv, comma_joined(av)));
                    assert(r@ == spec_inner);
                    r
                };
                assert(inner@ == spec_inner);
                let show_proj = match coarity {
                    None => true,
                    Some(f) => match f(op) {
                        Ok(k) => {
                            proof {
                                assert(call_ensures(*f, (op,), Ok::<usize, E>(k)));
                                assert(closure_result(*f, *op) == Ok::<usize, E>(k));
                            }
                            k > 1
                        },
                        Err(e) => {
                            proof {
                                assert(call_ensures(*f, (op,), Err::<usize, E>(e)));
                                assert(closure_result(*f, *op) == Err::<usize, E>(e));
                            }
                            return Err(e);
                        },
                    },
                };
                assert(pretty_args(children@, c) == Ok::<Seq<Seq<char>>, E>(av));
                if show_proj {
                    let r = project_label(*idx, &inner);
                    assert(pretty(*self, c) == Ok::<Seq<char>, E>(r@));
                    Ok(r)
                } else {
                    assert(pretty(*self, c) == Ok::<Seq<char>, E>(inner@));
                    Ok(inner)
                }
            },
        }
    }
}

/// When a prefix of a list renders with an error, the whole list renders
/// with the error of the first failing element.
proof fn lemma_pretty_args_prefix_err<L, N: Label, E>(
    ts: Seq<Tree<L, N>>,
    k: int,
    c: Option<spec_fn(N) -> Result<usize, E>>,
)
    requires
        0 <= k <= ts.len(),
        pretty_args(ts.take(k), c) is Err,
    ensures
        pretty_args(ts, c) == pretty_args(ts.take(k), c),
    decreases ts.len() - k,
{
    if k < ts.len() {
        assert(ts.take(k + 1).drop_last() =~= ts.take(k));
        lemma_pretty_args_prefix_err(ts, k + 1, c);
    } else {
        assert(ts.take(k) =~= ts);
    }
}

} // verus!
