//! Declarations of the flat file format: each item is
//! `(<theory> <name> : <source> -> <target>)`, with `= <definition>` after
//! the target for a derived arrow, where the theory is `object`, `arrow` or
//! `def-arrow`.
use vstd::prelude::*;
use crate::expr::{Expr, ExprV, clone_expr, expr_view, exprs_view, lemma_exprs_view, parse_hexprs, parsed_hexprs};
use crate::raw::{is_op, is_operation};
use crate::text::text_eq;

verus! {

/// One declaration: the theory it belongs to, its name, its source and
/// target maps, and its definition when it has one.
#[derive(Debug)]
pub struct Declaration {
    pub theory: String,
    pub name: String,
    pub source_map: Expr,
    pub target_map: Expr,
    pub definition: Option<Expr>,
}

/// A declaration as a plain value.
pub struct DeclarationV {
    pub theory: Seq<char>,
    pub name: Seq<char>,
    pub source_map: ExprV,
    pub target_map: ExprV,
    pub definition: Option<ExprV>,
}

impl View for Declaration {
    type V = DeclarationV;

    open spec fn view(&self) -> DeclarationV {
        DeclarationV {
            theory: self.theory@,
            name: self.name@,
            source_map: expr_view(self.source_map),
            target_map: expr_view(self.target_map),
            definition: match self.definition {
                Some(d) => Some(expr_view(d)),
                None => None,
            },
        }
    }
}

/// The theories a declaration may belong to.
pub open spec fn is_declaration_theory(t: Seq<char>) -> bool {
    t == "object"@ || t == "arrow"@ || t == "def-arrow"@
}

/// The declaration that an h-expression states, if it has the shape of one.
pub open spec fn declaration_of(h: ExprV) -> Option<DeclarationV> {
    match h {
        ExprV::Composition(p) => {
            if (p.len() == 6 && is_op(p[2], ":"@) && is_op(p[4], "->"@)) || (p.len() == 8 && is_op(p[2], ":"@) && is_op(
                p[4],
                "->"@,
            ) && is_op(p[6], "="@)) {
                match (p[0], p[1]) {
                    (ExprV::Operation(theory), ExprV::Operation(name)) => if is_declaration_theory(theory) {
                        Some(
                            DeclarationV {
                                theory,
                                name,
                                source_map: p[3],
                                target_map: p[5],
                                definition: if p.len() == 8 {
                                    Some(p[7])
                                } else {
                                    None
                                },
                            },
                        )
                    } else {
                        None
                    },
                    _ => None,
                }
            } else {
                None
            }
        },
        _ => None,
    }
}

impl Declaration {
    /// Reads `(<theory> <name> : <source> -> <target>)`, or the same with
    /// `= <definition>` after the target; nothing for any other shape or
    /// theory.
    pub fn try_from_hexpr(hexpr: &Expr) -> (r: Option<Declaration>)
        ensures
            match r {
                Some(d) => declaration_of(expr_view(*hexpr)) == Some(d@),
                None => declaration_of(expr_view(*hexpr)) is None,
            },
    {
        let parts = match hexpr {
            Expr::Composition(parts) => parts,
            _ => return None,
        };
        proof {
            lemma_exprs_view(parts@);
        }
        let six = parts.len() == 6 && is_operation(&parts[2], ":") && is_operation(&parts[4], "->");
        let eight = parts.len() == 8 && is_operation(&parts[2], ":") && is_operation(&parts[4], "->") && is_operation(
            &parts[6],
            "=",
        );
        if !six && !eight {
            return None;
        }
        let (theory, name) = match (&parts[0], &parts[1]) {
            (Expr::Operation(theory), Expr::Operation(name)) => (theory, name),
            _ => return None,
        };
        if !(text_eq(theory.as_str(), "object") || text_eq(theory.as_str(), "arrow") || text_eq(theory.as_str(), "def-arrow")) {
            return None;
        }
        let definition = if eight {
            Some(clone_expr(&parts[7]))
        } else {
            None
        };
        Some(
            Declaration {
                theory: theory.clone(),
                name: name.clone(),
                source_map: clone_expr(&parts[3]),
                target_map: clone_expr(&parts[5]),
                definition,
            },
        )
    }
}

/// Why a text is not a list of declarations.
#[derive(Debug)]
pub enum DeclarationError {
    /// The text is not a sequence of h-expressions; the parser's message.
    Parse(String),
    /// An item that is not a declaration.
    InvalidDeclaration(Expr),
}

/// The declarations of a list of h-expressions, in order; the first item
/// that is not one is the error.
pub open spec fn declarations_of(hs: Seq<ExprV>) -> Result<Seq<DeclarationV>, ExprV>
    decreases hs.len(),
{
    if hs.len() == 0 {
        Ok(Seq::empty())
    } else {
        match declarations_of(hs.drop_last()) {
            Err(e) => Err(e),
            Ok(ds) => match declaration_of(hs.last()) {
                Some(d) => Ok(ds.push(d)),
                None => Err(hs.last()),
            },
        }
    }
}

/// The plain values of a list of declarations.
pub open spec fn declarations_view(v: Seq<Declaration>) -> Seq<DeclarationV> {
    v.map_values(|d: Declaration| d@)
}

/// Once a prefix has an error, so does the whole list.
proof fn lemma_declarations_error_stays(hs: Seq<ExprV>, i: int)
    requires
        0 <= i <= hs.len(),
        declarations_of(hs.take(i)) is Err,
    ensures
        declarations_of(hs) == declarations_of(hs.take(i)),
    decreases hs.len() - i,
{
    if i < hs.len() {
        assert(hs.take(i + 1).drop_last() =~= hs.take(i));
        lemma_declarations_error_stays(hs, i + 1);
    } else {
        assert(hs.take(i) =~= hs);
    }
}

/// The declarations of a list of h-expressions, in order, or the first item
/// that is not one.
pub fn declarations_from_hexprs(hexprs: &Vec<Expr>) -> (r: Result<Vec<Declaration>, Expr>)
    ensures
        match r {
            Ok(v) => declarations_of(exprs_view(hexprs@)) == Ok::<Seq<DeclarationV>, ExprV>(declarations_view(v@)),
            Err(h) => declarations_of(exprs_view(hexprs@)) == Err::<Seq<DeclarationV>, ExprV>(expr_view(h)),
        },
{
    let ghost hv = exprs_view(hexprs@);
    let mut out: Vec<Declaration> = Vec::new();
    let mut i: usize = 0;
    proof {
        lemma_exprs_view(hexprs@);
        assert(hv.take(0) =~= Seq::<ExprV>::empty());
        assert(declarations_view(out@) =~= Seq::<DeclarationV>::empty());
    }
    while i < hexprs.len()
        invariant
            i <= hexprs@.len(),
            hv == exprs_view(hexprs@),
            hv.len() == hexprs@.len(),
            forall|k: int| 0 <= k < hexprs@.len() ==> #[trigger] hv[k] == expr_view(hexprs@[k]),
            declarations_of(hv.take(i as int)) == Ok::<Seq<DeclarationV>, ExprV>(declarations_view(out@)),
        decreases hexprs@.len() - i,
    {
        proof {
            assert(hv.take(i + 1).drop_last() =~= hv.take(i as int));
            assert(hv.take(i + 1).last() == hv[i as int]);
        }
        match Declaration::try_from_hexpr(&hexprs[i]) {
            Some(d) => {
                let ghost before = declarations_view(out@);
                out.push(d);
                proof {
                    assert(declarations_view(out@) =~= before.push(d@));
                }
            },
            None => {
                proof {
                    lemma_declarations_error_stays(hv, i + 1);
                }
                return Err(clone_expr(&hexprs[i]));
            },
        }
        i = i + 1;
    }
    proof {
        assert(hv.take(hexprs@.len() as int) =~= hv);
    }
    Ok(out)
}

/// The declarations written in a text: `Parse` when the text is not a
/// sequence of h-expressions, otherwise those of `declarations_from_hexprs`
/// on its items.
pub fn declarations_from_text(text: &str) -> (r: Result<Vec<Declaration>, DeclarationError>)
    ensures
        match parsed_hexprs(text@) {
            Err(m) => r matches Err(DeclarationError::Parse(x)) && x@ == m,
            Ok(hs) => match r {
                Ok(v) => declarations_of(hs) == Ok::<Seq<DeclarationV>, ExprV>(declarations_view(v@)),
                Err(DeclarationError::InvalidDeclaration(h)) => declarations_of(hs) == Err::<Seq<DeclarationV>, ExprV>(
                    expr_view(h),
                ),
                Err(DeclarationError::Parse(_)) => false,
            },
        },
{
    match parse_hexprs(text) {
        Err(message) => Err(DeclarationError::Parse(message)),
        Ok(hexprs) => match declarations_from_hexprs(&hexprs) {
            Ok(v) => Ok(v),
            Err(h) => Err(DeclarationError::InvalidDeclaration(h)),
        },
    }
}

} // verus!
