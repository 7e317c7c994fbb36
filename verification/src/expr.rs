//! H-expressions: the syntax that theories are written in.
use vstd::prelude::*;
use crate::text::{push_char, push_str};

verus! {

/// An h-expression.
#[derive(Debug)]
pub enum Expr {
    /// Sequential composition.
    Composition(Vec<Expr>),
    /// Parallel composition.
    Tensor(Vec<Expr>),
    /// A Frobenius spider `[sources . targets]`.
    Frobenius { sources: Vec<LabelledVar>, targets: Vec<LabelledVar> },
    /// An unlabelled identity wire.
    Hole,
    /// A labelled identity wire.
    Wire(Box<Expr>),
    /// A named operation.
    Operation(String),
}

/// A variable of a Frobenius spider, with an optional label.
#[derive(Debug)]
pub struct LabelledVar {
    pub name: String,
    pub label: Option<Expr>,
}

/// An h-expression as a plain value.
pub enum ExprV {
    Composition(Seq<ExprV>),
    Tensor(Seq<ExprV>),
    Frobenius(Seq<LabelledVarV>, Seq<LabelledVarV>),
    Hole,
    Wire(Box<ExprV>),
    Operation(Seq<char>),
}

/// A labelled variable as a plain value.
pub struct LabelledVarV {
    pub name: Seq<char>,
    pub label: Option<ExprV>,
}

/// The plain value of an h-expression.
pub open spec fn expr_view(h: Expr) -> ExprV
    decreases h, 2int,
{
    match h {
        Expr::Composition(v) => ExprV::Composition(exprs_view(v@)),
        Expr::Tensor(v) => ExprV::Tensor(exprs_view(v@)),
        Expr::Frobenius { sources, targets } => ExprV::Frobenius(labelled_vars_view(sources@), labelled_vars_view(targets@)),
        Expr::Hole => ExprV::Hole,
        Expr::Wire(b) => ExprV::Wire(Box::new(expr_view(*b))),
        Expr::Operation(s) => ExprV::Operation(s@),
    }
}

/// The plain values of a list of h-expressions.
pub open spec fn exprs_view(v: Seq<Expr>) -> Seq<ExprV>
    decreases v, 0int,
{
    if v.len() == 0 {
        Seq::empty()
    } else {
        exprs_view(v.drop_last()).push(expr_view(v.last()))
    }
}

/// The plain values of a list of labelled variables.
pub open spec fn labelled_vars_view(v: Seq<LabelledVar>) -> Seq<LabelledVarV>
    decreases v, 1int,
{
    if v.len() == 0 {
        Seq::empty()
    } else {
        labelled_vars_view(v.drop_last()).push(
            LabelledVarV {
                name: v.last().name@,
                label: match v.last().label {
                    None => None,
                    Some(h) => Some(expr_view(h)),
                },
            },
        )
    }
}


#[verifier::external_type_specification]
#[verifier::external_body]
pub struct ExHexpr(hexpr::Hexpr);

#[verifier::external_type_specification]
#[verifier::external_body]
pub struct ExLVar(hexpr::LVar);

/// What `hexpr::parse_hexprs` reads from a text, as plain values, or the
/// text of its error when the text is not a sequence of h-expressions.
pub uninterp spec fn parsed_hexprs(text: Seq<char>) -> Result<Seq<ExprV>, Seq<char>>;

/// One h-expression of the `hexpr` crate as an h-expression of this
/// library, variant for variant; a variable's name is its displayed text.
#[verifier::external_body]
fn hexpr_from(h: hexpr::Hexpr) -> Expr {
    match h {
        hexpr::Hexpr::Composition(v) => Expr::Composition(v.into_iter().map(hexpr_from).collect()),
        hexpr::Hexpr::Tensor(v) => Expr::Tensor(v.into_iter().map(hexpr_from).collect()),
        hexpr::Hexpr::Frobenius { sources, targets } => Expr::Frobenius {
            sources: sources.into_iter().map(lvar_from).collect(),
            targets: targets.into_iter().map(lvar_from).collect(),
        },
        hexpr::Hexpr::Hole => Expr::Hole,
        hexpr::Hexpr::Wire(b) => Expr::Wire(Box::new(hexpr_from(*b))),
        hexpr::Hexpr::Operation(op) => Expr::Operation(op.as_str().to_string()),
    }
}

/// One labelled variable of the `hexpr` crate as one of this library.
#[verifier::external_body]
fn lvar_from(l: hexpr::LVar) -> LabelledVar {
    LabelledVar { name: l.name.to_string(), label: l.label.map(hexpr_from) }
}

/// `hexpr::parse_hexprs`: the h-expressions written in `text`, converted
/// variant for variant, or the text of its error. Claimed here: the result
/// and the error's text depend on the text alone (`parsed_hexprs`). Not
/// claimed: what the items or the error message are.
#[verifier::external_body]
pub fn parse_hexprs(text: &str) -> (r: Result<Vec<Expr>, String>)
    ensures
        match r {
            Ok(v) => parsed_hexprs(text@) == Ok::<Seq<ExprV>, Seq<char>>(exprs_view(v@)),
            Err(m) => parsed_hexprs(text@) == Err::<Seq<ExprV>, Seq<char>>(m@),
        },
{
    match hexpr::parse_hexprs(text) {
        Ok(v) => Ok(v.into_iter().map(hexpr_from).collect()),
        Err(e) => Err(e.to_string()),
    }
}


/// The plain values of a list, one by one.
pub proof fn lemma_exprs_view(v: Seq<Expr>)
    ensures
        exprs_view(v).len() == v.len(),
        forall|i: int| 0 <= i < v.len() ==> #[trigger] exprs_view(v)[i] == expr_view(v[i]),
    decreases v.len(),
{
    if v.len() > 0 {
        lemma_exprs_view(v.drop_last());
        assert forall|i: int| 0 <= i < v.len() implies #[trigger] exprs_view(v)[i] == expr_view(v[i]) by {
            if i < v.len() - 1 {
                assert(v.drop_last()[i] == v[i]);
            }
        }
    }
}

/// A copy of an h-expression.
pub fn clone_expr(e: &Expr) -> (r: Expr)
    ensures
        expr_view(r) == expr_view(*e),
    decreases e, 1int,
{
    match e {
        Expr::Composition(v) => {
            proof {
                assert(decreases_to!(*e => *v));
            }
            Expr::Composition(clone_exprs(v))
        },
        Expr::Tensor(v) => {
            proof {
                assert(decreases_to!(*e => *v));
            }
            Expr::Tensor(clone_exprs(v))
        },
        Expr::Frobenius { sources, targets } => {
            proof {
                assert(decreases_to!(*e => *sources));
                assert(decreases_to!(*e => *targets));
            }
            Expr::Frobenius { sources: clone_labelled_vars(sources), targets: clone_labelled_vars(targets) }
        },
        Expr::Hole => Expr::Hole,
        Expr::Wire(b) => {
            proof {
                assert(decreases_to!(*e => **b));
            }
            Expr::Wire(Box::new(clone_expr(b)))
        },
        Expr::Operation(s) => Expr::Operation(s.clone()),
    }
}

/// Copies of a list of h-expressions.
pub fn clone_exprs(v: &Vec<Expr>) -> (r: Vec<Expr>)
    ensures
        exprs_view(r@) == exprs_view(v@),
    decreases v, 0int,
{
    let mut r: Vec<Expr> = Vec::new();
    let mut i: usize = 0;
    assert(v@.take(0) =~= Seq::<Expr>::empty());
    while i < v.len()
        invariant
            i <= v.len(),
            exprs_view(r@) == exprs_view(v@.take(i as int)),
        decreases v.len() - i,
    {
        proof {
            assert(decreases_to!(*v => v@));
            assert(decreases_to!(v@ => v@[i as int]));
        }
        let c = clone_expr(&v[i]);
        let ghost before = r@;
        r.push(c);
        assert(r@.drop_last() =~= before);
        assert(v@.take(i + 1).drop_last() =~= v@.take(i as int));
        i = i + 1;
    }
    assert(v@.take(v.len() as int) =~= v@);
    r
}

/// Copies of a list of labelled variables.
pub fn clone_labelled_vars(v: &Vec<LabelledVar>) -> (r: Vec<LabelledVar>)
    ensures
        labelled_vars_view(r@) == labelled_vars_view(v@),
    decreases v, 0int,
{
    let mut r: Vec<LabelledVar> = Vec::new();
    let mut i: usize = 0;
    assert(v@.take(0) =~= Seq::<LabelledVar>::empty());
    while i < v.len()
        invariant
            i <= v.len(),
            labelled_vars_view(r@) == labelled_vars_view(v@.take(i as int)),
        decreases v.len() - i,
    {
        proof {
            assert(decreases_to!(*v => v@));
            assert(decreases_to!(v@ => v@[i as int]));
        }
        let l = &v[i];
        let label = match &l.label {
            None => None,
            Some(h) => {
                proof {
                    assert(decreases_to!(v@[i as int] => v@[i as int].label));
                    assert(decreases_to!(l.label => *h));
                }
                Some(clone_expr(h))
            },
        };
        let c = LabelledVar { name: l.name.clone(), label };
        let ghost before = r@;
        r.push(c);
        assert(r@.drop_last() =~= before);
        assert(v@.take(i + 1).drop_last() =~= v@.take(i as int));
        i = i + 1;
    }
    assert(v@.take(v.len() as int) =~= v@);
    r
}

/// The text of an h-expression as `hexpr` writes it: a composition in
/// round brackets and a tensor in braces, their parts separated by one
/// space; a spider as `[]` when both sides are empty, else as its sources,
/// ` . ` and its targets in square brackets; a hole as `_`; a labelled wire
/// as `^` and its label; an operation as its name.
pub open spec fn expr_text(h: ExprV) -> Seq<char>
    decreases h, 2int,
{
    match h {
        ExprV::Composition(v) => seq!['('] + exprs_text(v) + seq![')'],
        ExprV::Tensor(v) => seq!['{'] + exprs_text(v) + seq!['}'],
        ExprV::Frobenius(s, t) => if s.len() == 0 && t.len() == 0 {
            seq!['[', ']']
        } else {
            seq!['['] + vars_text(s) + seq![' ', '.', ' '] + vars_text(t) + seq![']']
        },
        ExprV::Hole => seq!['_'],
        ExprV::Wire(b) => seq!['^'] + expr_text(*b),
        ExprV::Operation(n) => n,
    }
}

/// The texts of a list of h-expressions, separated by one space.
pub open spec fn exprs_text(v: Seq<ExprV>) -> Seq<char>
    decreases v, 0int,
{
    if v.len() == 0 {
        Seq::empty()
    } else if v.len() == 1 {
        expr_text(v[0])
    } else {
        exprs_text(v.drop_last()) + seq![' '] + expr_text(v.last())
    }
}

/// The texts of a list of labelled variables, separated by one space: each
/// its name, then `^` and its label where it has one.
pub open spec fn vars_text(v: Seq<LabelledVarV>) -> Seq<char>
    decreases v, 1int,
{
    if v.len() == 0 {
        Seq::empty()
    } else {
        let last = v.last().name + match v.last().label {
            None => Seq::empty(),
            Some(l) => seq!['^'] + expr_text(l),
        };
        if v.len() == 1 {
            last
        } else {
            vars_text(v.drop_last()) + seq![' '] + last
        }
    }
}

/// Appends the text of an h-expression.
pub fn write_expr(h: &Expr, out: &mut String)
    ensures
        final(out)@ == old(out)@ + expr_text(expr_view(*h)),
    decreases h, 2int,
{
    match h {
        Expr::Composition(v) => {
            proof {
                assert(decreases_to!(*h => *v));
            }
            push_char(out, '(');
            write_exprs(v, out);
            push_char(out, ')');
        },
        Expr::Tensor(v) => {
            proof {
                assert(decreases_to!(*h => *v));
            }
            push_char(out, '{');
            write_exprs(v, out);
            push_char(out, '}');
        },
        Expr::Frobenius { sources, targets } => {
            proof {
                assert(decreases_to!(*h => *sources));
                assert(decreases_to!(*h => *targets));
                lemma_labelled_vars_len(sources@);
                lemma_labelled_vars_len(targets@);
            }
            if sources.len() == 0 && targets.len() == 0 {
                push_char(out, '[');
                push_char(out, ']');
            } else {
                push_char(out, '[');
                write_vars(sources, out);
                push_char(out, ' ');
                push_char(out, '.');
                push_char(out, ' ');
                write_vars(targets, out);
                push_char(out, ']');
            }
        },
        Expr::Hole => {
            push_char(out, '_');
        },
        Expr::Wire(b) => {
            proof {
                assert(decreases_to!(*h => **b));
            }
            push_char(out, '^');
            write_expr(b, out);
        },
        Expr::Operation(n) => {
            push_str(out, n.as_str());
        },
    }
    proof {
        assert(final(out)@ =~= old(out)@ + expr_text(expr_view(*h)));
    }
}

/// Appends the texts of a list of h-expressions, separated by one space.
fn write_exprs(v: &Vec<Expr>, out: &mut String)
    ensures
        final(out)@ == old(out)@ + exprs_text(exprs_view(v@)),
    decreases v, 0int,
{
    let ghost start = out@;
    let mut i: usize = 0;
    proof {
        assert(v@.take(0) =~= Seq::<Expr>::empty());
        assert(start + exprs_text(exprs_view(v@.take(0))) =~= start);
    }
    while i < v.len()
        invariant
            i <= v.len(),
            out@ == start + exprs_text(exprs_view(v@.take(i as int))),
        decreases v.len() - i,
    {
        proof {
            assert(decreases_to!(*v => v@));
            assert(decreases_to!(v@ => v@[i as int]));
        }
        let ghost before = out@;
        if i > 0 {
            push_char(out, ' ');
        }
        write_expr(&v[i], out);
        proof {
            let s = v@.take(i + 1);
            assert(s.drop_last() =~= v@.take(i as int));
            assert(s.last() == v@[i as int]);
            lemma_exprs_view(s);
            lemma_exprs_view(v@.take(i as int));
            assert(exprs_view(s).drop_last() =~= exprs_view(v@.take(i as int)));
            assert(exprs_view(s).last() == expr_view(v@[i as int]));
            if i == 0 {
                assert(exprs_view(s)[0] == expr_view(v@[0]));
            }
            assert(out@ =~= start + exprs_text(exprs_view(s)));
        }
        i = i + 1;
    }
    proof {
        assert(v@.take(v.len() as int) =~= v@);
    }
}

/// The plain values of a list of labelled variables are as many as they.
proof fn lemma_labelled_vars_len(v: Seq<LabelledVar>)
    ensures
        labelled_vars_view(v).len() == v.len(),
    decreases v.len(),
{
    if v.len() > 0 {
        lemma_labelled_vars_len(v.drop_last());
    }
}

/// Appends the texts of a list of labelled variables, separated by one
/// space.
fn write_vars(v: &Vec<LabelledVar>, out: &mut String)
    ensures
        final(out)@ == old(out)@ + vars_text(labelled_vars_view(v@)),
    decreases v, 0int,
{
    let ghost start = out@;
    let mut i: usize = 0;
    proof {
        assert(v@.take(0) =~= Seq::<LabelledVar>::empty());
        assert(start + vars_text(labelled_vars_view(v@.take(0))) =~= start);
    }
    while i < v.len()
        invariant
            i <= v.len(),
            out@ == start + vars_text(labelled_vars_view(v@.take(i as int))),
        decreases v.len() - i,
    {
        proof {
            assert(decreases_to!(*v => v@));
            assert(decreases_to!(v@ => v@[i as int]));
        }
        let ghost before = out@;
        if i > 0 {
            push_char(out, ' ');
        }
        let l = &v[i];
        push_str(out, l.name.as_str());
        match &l.label {
            None => {},
            Some(h) => {
                proof {
                    assert(decreases_to!(v@[i as int] => v@[i as int].label));
                    assert(decreases_to!(l.label => *h));
                }
                push_char(out, '^');
                write_expr(h, out);
            },
        }
        proof {
            let s = v@.take(i + 1);
            assert(s.drop_last() =~= v@.take(i as int));
            assert(s.last() == v@[i as int]);
            lemma_labelled_vars_len(v@.take(i as int));
            let lv = labelled_vars_view(s);
            assert(lv.drop_last() =~= labelled_vars_view(v@.take(i as int)));
            let piece = lv.last().name + match lv.last().label {
                None => Seq::empty(),
                Some(x) => seq!['^'] + expr_text(x),
            };
            assert(lv.last().name == l.name@);
            assert(out@ =~= before + (if i > 0 { seq![' '] } else { Seq::empty() }) + piece);
            assert(out@ =~= start + vars_text(labelled_vars_view(s)));
        }
        i = i + 1;
    }
    proof {
        assert(v@.take(v.len() as int) =~= v@);
    }
}

} // verus!
