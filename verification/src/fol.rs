//! First-order logic symbols and the rendering of formulas.
use vstd::prelude::*;
use crate::lang::{Biprofile, Obj};
use crate::term::Tree;
use crate::text::{decimal, push_char, push_str, usize_to_decimal};
use crate::tree::{Label, comma_joined};

verus! {

/// The symbols of first-order logic.
#[derive(Debug, Clone, Copy, PartialEq, Eq, Structural)]
pub enum FOL {
    Provable,
    Forall,
    Exists,
    Not,
    Implies,
    Equiv,
    And,
    Or,
    True,
    Phi,
}

/// The symbol's own text.
pub open spec fn fol_symbol(op: FOL) -> Seq<char> {
    match op {
        FOL::Provable => seq!['\u{22a2}'],
        FOL::Forall => seq!['\u{2200}', ' '],
        FOL::Exists => seq!['\u{2203}', ' '],
        FOL::Not => seq!['\u{ac}'],
        FOL::Implies => seq!['\u{2192}'],
        FOL::Equiv => seq!['\u{2194}'],
        FOL::And => seq!['\u{2227}'],
        FOL::Or => seq!['\u{2228}'],
        FOL::True => seq!['\u{22a4}'],
        FOL::Phi => seq!['\u{1d711}'],
    }
}

impl Label for FOL {
    open spec fn label_spec(&self) -> Seq<char> {
        fol_symbol(*self)
    }

    fn label(&self) -> (s: String) {
        let mut s = String::new();
        match self {
            FOL::Provable => push_char(&mut s, '\u{22a2}'),
            FOL::Forall => {
                push_char(&mut s, '\u{2200}');
                push_char(&mut s, ' ');
            },
            FOL::Exists => {
                push_char(&mut s, '\u{2203}');
                push_char(&mut s, ' ');
            },
            FOL::Not => push_char(&mut s, '\u{ac}'),
            FOL::Implies => push_char(&mut s, '\u{2192}'),
            FOL::Equiv => push_char(&mut s, '\u{2194}'),
            FOL::And => push_char(&mut s, '\u{2227}'),
            FOL::Or => push_char(&mut s, '\u{2228}'),
            FOL::True => push_char(&mut s, '\u{22a4}'),
            FOL::Phi => push_char(&mut s, '\u{1d711}'),
        }
        assert(s@ =~= fol_symbol(*self));
        s
    }
}

/// The subscript form of a decimal digit; other characters stay as they are.
pub open spec fn subscript_char(c: char) -> char {
    if '0' <= c <= '9' {
        ((c as u32) - ('0' as u32) + 0x2080) as char
    } else {
        c
    }
}

/// The decimal digits of `n` written as subscripts.
pub open spec fn subscript(n: nat) -> Seq<char> {
    decimal(n).map_values(|c: char| subscript_char(c))
}

fn subscript_digit(c: char) -> (r: char)
    ensures
        r == subscript_char(c),
{
    if c == '0' { '\u{2080}' }
    else if c == '1' { '\u{2081}' }
    else if c == '2' { '\u{2082}' }
    else if c == '3' { '\u{2083}' }
    else if c == '4' { '\u{2084}' }
    else if c == '5' { '\u{2085}' }
    else if c == '6' { '\u{2086}' }
    else if c == '7' { '\u{2087}' }
    else if c == '8' { '\u{2088}' }
    else if c == '9' { '\u{2089}' }
    else { c }
}

/// `n` written with subscript digits.
pub fn to_subscript(n: usize) -> (s: String)
    ensures
        s@ == subscript(n as nat),
{
    let d = usize_to_decimal(n);
    let ghost dv = d@;
    let mut s = String::new();
    let mut k: usize = 0;
    let chars = crate::text::chars_of(d.as_str());
    while k < chars.len()
        invariant
            k <= chars.len(),
            chars@ == dv,
            dv == decimal(n as nat),
            s@ == dv.take(k as int).map_values(|c: char| subscript_char(c)),
        decreases chars.len() - k,
    {
        let c = subscript_digit(chars[k]);
        push_char(&mut s, c);
        assert(dv.take(k + 1) =~= dv.take(k as int).push(chars@[k as int]));
        assert(s@ =~= dv.take(k + 1).map_values(|c: char| subscript_char(c)));
        k = k + 1;
    }
    assert(dv.take(chars.len() as int) =~= dv);
    s
}


impl FOL {
    /// The arity and coarity of the symbol.
    pub fn biprofile(&self) -> (r: Biprofile)
        ensures
            r == fol_biprofile(*self),
    {
        match self {
            FOL::Provable => (1, 1),
            FOL::Forall => (2, 1),
            FOL::Exists => (2, 1),
            FOL::Not => (1, 1),
            FOL::Implies => (2, 1),
            FOL::Equiv => (2, 1),
            FOL::And => (2, 1),
            FOL::Or => (2, 1),
            FOL::True => (0, 1),
            FOL::Phi => (2, 1),
        }
    }
}

/// Arity and coarity of each symbol: every symbol has one output.
pub open spec fn fol_biprofile(op: FOL) -> Biprofile {
    match op {
        FOL::Provable | FOL::Not => (1, 1),
        FOL::True => (0, 1),
        _ => (2, 1),
    }
}

/// `(a op b)` for an infix symbol.
pub open spec fn infix(a: Seq<char>, op: char, b: Seq<char>) -> Seq<char> {
    seq!['('] + a + seq![' ', op, ' '] + b + seq![')']
}

/// A formula in mathematical notation: binary connectives infix, negation
/// and provability prefix, quantifiers binding their second argument, and
/// other applications in prefix form.
pub open spec fn fol_text(t: Tree<Obj, FOL>) -> Seq<char>
    decreases t, 1int,
{
    match t {
        Tree::Leaf(i, _) => seq!['\u{1d465}'] + subscript(i as nat),
        Tree::Node(op, children) => {
            let a = fol_texts(children@);
            if a.len() == 2 && op == FOL::Implies {
                infix(a[0], '\u{2192}', a[1])
            } else if a.len() == 2 && op == FOL::Equiv {
                infix(a[0], '\u{2194}', a[1])
            } else if a.len() == 2 && op == FOL::And {
                infix(a[0], '\u{2227}', a[1])
            } else if a.len() == 2 && op == FOL::Or {
                infix(a[0], '\u{2228}', a[1])
            } else if a.len() == 1 && op == FOL::Not {
                seq!['\u{ac}'] + a[0]
            } else if a.len() == 1 && op == FOL::Provable {
                seq!['\u{22a2}', ' '] + a[0]
            } else if a.len() == 2 && op == FOL::Forall {
                seq!['\u{2200}'] + a[1] + seq!['.'] + a[0]
            } else if a.len() == 2 && op == FOL::Exists {
                seq!['\u{2203}'] + a[1] + seq!['.'] + a[0]
            } else if a.len() == 2 && op == FOL::Phi {
                seq!['\u{3c6}', '('] + a[0] + seq![',', ' '] + a[1] + seq![')']
            } else if a.len() == 0 && op == FOL::True {
                seq!['\u{22a4}']
            } else {
                fol_symbol(op) + seq!['('] + comma_joined(a) + seq![')']
            }
        },
    }
}

/// The texts of a list of formulas.
pub open spec fn fol_texts(ts: Seq<Tree<Obj, FOL>>) -> Seq<Seq<char>>
    decreases ts, 0int,
{
    if ts.len() == 0 {
        Seq::empty()
    } else {
        fol_texts(ts.drop_last()).push(fol_text(ts.last()))
    }
}

fn infix_text(a: &String, op: char, b: &String) -> (r: String)
    ensures
        r@ == infix(a@, op, b@),
{
    let mut r = String::new();
    push_char(&mut r, '(');
    push_str(&mut r, a.as_str());
    push_char(&mut r, ' ');
    push_char(&mut r, op);
    push_char(&mut r, ' ');
    push_str(&mut r, b.as_str());
    push_char(&mut r, ')');
    assert(r@ =~= infix(a@, op, b@));
    r
}

/// Renders a formula in mathematical notation.
pub fn pretty_print_fol(term: &Tree<Obj, FOL>) -> (s: String)
    ensures
        s@ == fol_text(*term),
    decreases term,
{
    match term {
        Tree::Leaf(i, _) => {
            let mut s = String::new();
            push_char(&mut s, '\u{1d465}');
            let sub = to_subscript(*i);
            push_str(&mut s, sub.as_str());
            assert(s@ =~= fol_text(*term));
            s
        },
        Tree::Node(op, children) => {
            let mut args: Vec<String> = Vec::new();
            let mut k: usize = 0;
            assert(fol_texts(children@.take(0)) =~= Seq::<Seq<char>>::empty());
            assert(args@.map_values(|x: String| x@) =~= Seq::<Seq<char>>::empty());
            while k < children.len()
                invariant
                    k <= children.len(),
                    args.len() == k,
                    *term == Tree::<Obj, FOL>::Node(*op, *children),
                    args@.map_values(|x: String| x@) == fol_texts(children@.take(k as int)),
                decreases children.len() - k,
            {
                proof {
                    assert(*children == term->Node_1);
                    assert(decreases_to!(*term => term->Node_1));
                    assert(decreases_to!(*children => children@));
                    assert(decreases_to!(children@ => children@[k as int]));
                }
                let ghost before = args@.map_values(|x: String| x@);
                let c = pretty_print_fol(&children[k]);
                let ghost cv = c@;
                args.push(c);
                proof {
                    let t = children@.take(k + 1);
                    assert(t.drop_last() =~= children@.take(k as int));
                    assert(t.last() == children@[k as int]);
                    assert(args@.map_values(|x: String| x@) =~= before.push(cv));
                }
                k = k + 1;
            }
            assert(children@.take(children.len() as int) =~= children@);
            let ghost a = fol_texts(children@);
            assert(a.len() == children.len());
            assert(forall|j: int| 0 <= j < args.len() ==> #[trigger] a[j] == args@[j]@);
            let n = args.len();
            let r = if n == 2 && *op == FOL::Implies {
                infix_text(&args[0], '\u{2192}', &args[1])
            } else if n == 2 && *op == FOL::Equiv {
                infix_text(&args[0], '\u{2194}', &args[1])
            } else if n == 2 && *op == FOL::And {
                infix_text(&args[0], '\u{2227}', &args[1])
            } else if n == 2 && *op == FOL::Or {
                infix_text(&args[0], '\u{2228}', &args[1])
            } else if n == 1 && *op == FOL::Not {
                let mut s = String::new();
                push_char(&mut s, '\u{ac}');
                push_str(&mut s, args[0].as_str());
                s
            } else if n == 1 && *op == FOL::Provable {
                let mut s = String::new();
                push_char(&mut s, '\u{22a2}');
                push_char(&mut s, ' ');
                push_str(&mut s, args[0].as_str());
                s
            } else if n == 2 && (*op == FOL::Forall || *op == FOL::Exists) {
                let mut s = String::new();
                if *op == FOL::Forall {
                    push_char(&mut s, '\u{2200}');
                } else {
                    push_char(&mut s, '\u{2203}');
                }
                push_str(&mut s, args[1].as_str());
                push_char(&mut s, '.');
                push_str(&mut s, args[0].as_str());
                s
            } else if n == 2 && *op == FOL::Phi {
                let mut s = String::new();
                push_char(&mut s, '\u{3c6}');
                push_char(&mut s, '(');
                push_str(&mut s, args[0].as_str());
                push_char(&mut s, ',');
                push_char(&mut s, ' ');
                push_str(&mut s, args[1].as_str());
                push_char(&mut s, ')');
                s
            } else if n == 0 && *op == FOL::True {
                let mut s = String::new();
                push_char(&mut s, '\u{22a4}');
                s
            } else {
                let mut s = op.label();
                push_char(&mut s, '(');
                let joined = crate::tree::join_comma(&args);
                push_str(&mut s, joined.as_str());
                push_char(&mut s, ')');
                assert(args@.map_values(|x: String| x@) =~= crate::tree::views(args@));
                s
            };
            assert(r@ =~= fol_text(*term));
            r
        },
    }
}

} // verus!
