//! The steps of loading theories that need no interpretation into
//! hypergraphs: merging the raw sets of several inputs, and rewriting type
//! maps over the builtin `nat` so that a numeral `n` stands for a tensor of
//! `n` ones.
use vstd::prelude::*;
use crate::expr::{Expr, ExprV, expr_view, exprs_view, lemma_exprs_view, clone_expr};
use crate::graph::{TheoryId, nat_name};
use crate::raw::{RawTheorySet, RawTheorySetV, MergeRawError, MergeErrV, ParseRawError, ParseErrV, merged_theories, merge_fails, is_first_failure, theory_map, extensions_view};
use crate::text::{chars_of, text_eq};

verus! {

/// `c` is an ASCII decimal digit.
pub open spec fn is_digit(c: char) -> bool {
    '0' <= c <= '9'
}

/// The value of a digit.
pub open spec fn digit_value(c: char) -> nat {
    (c as u32 - '0' as u32) as nat
}

/// The value of a string of decimal digits.
pub open spec fn digits_value(s: Seq<char>) -> nat
    decreases s.len(),
{
    if s.len() == 0 {
        0
    } else {
        10 * digits_value(s.drop_last()) + digit_value(s.last())
    }
}

/// The digits of a numeral: the text after an optional leading `+`.
pub open spec fn unsigned_digits(s: Seq<char>) -> Seq<char> {
    if s.len() > 0 && s[0] == '+' {
        s.drop_first()
    } else {
        s
    }
}

/// Every character is a decimal digit.
pub open spec fn all_digits(d: Seq<char>) -> bool {
    forall|i: int| 0 <= i < d.len() ==> is_digit(#[trigger] d[i])
}

/// What `str::parse::<usize>` gives: an optional `+` followed by one or more
/// decimal digits whose value fits in a `usize`.
pub open spec fn parsed_usize(s: Seq<char>) -> Option<nat> {
    let d = unsigned_digits(s);
    if d.len() > 0 && all_digits(d) && digits_value(d) <= usize::MAX {
        Some(digits_value(d))
    } else {
        None
    }
}

/// A longer string of digits has at least the value of its prefix.
pub proof fn lemma_digits_value_grows(s: Seq<char>, k: int)
    requires
        0 <= k <= s.len(),
    ensures
        digits_value(s.take(k)) <= digits_value(s),
    decreases s.len() - k,
{
    if k < s.len() {
        lemma_digits_value_grows(s, k + 1);
        assert(s.take(k + 1).drop_last() =~= s.take(k));
    } else {
        assert(s.take(k) =~= s);
    }
}

/// The number that `s` writes in decimal, as `str::parse::<usize>` reads it.
pub fn parse_usize(s: &str) -> (r: Option<usize>)
    ensures
        match r {
            Some(n) => parsed_usize(s@) == Some(n as nat),
            None => parsed_usize(s@) is None,
        },
{
    let cs = chars_of(s);
    let start: usize = if cs.len() > 0 && cs[0] == '+' { 1 } else { 0 };
    let ghost d = unsigned_digits(s@);
    proof {
        assert(d =~= s@.skip(start as int));
    }
    if start == cs.len() {
        return None;
    }
    let mut i: usize = start;
    while i < cs.len()
        invariant
            cs@ == s@,
            start <= i <= cs.len(),
            d == s@.skip(start as int),
            d == unsigned_digits(s@),
            forall|j: int| 0 <= j < i - start ==> is_digit(#[trigger] d[j]),
        decreases cs.len() - i,
    {
        if !('0' <= cs[i] && cs[i] <= '9') {
            proof {
                assert(d[i - start] == cs@[i as int]);
                assert(!is_digit(d[i - start]));
                assert(!(forall|j: int| 0 <= j < d.len() ==> is_digit(#[trigger] d[j])));
                assert(!all_digits(d));
                assert(unsigned_digits(s@) == d);
                assert(!(d.len() > 0 && all_digits(d) && digits_value(d) <= usize::MAX));
                assert(parsed_usize(s@) is None);
            }
            return None;
        }
        i = i + 1;
    }
    let mut v: usize = 0;
    let mut i: usize = start;
    proof {
        assert(d.take(0) =~= Seq::<char>::empty());
    }
    while i < cs.len()
        invariant
            cs@ == s@,
            start <= i <= cs.len(),
            d == s@.skip(start as int),
            d == unsigned_digits(s@),
            d.len() == cs.len() - start,
            forall|j: int| 0 <= j < d.len() ==> is_digit(#[trigger] d[j]),
            v == digits_value(d.take(i - start)),
        decreases cs.len() - i,
    {
        let c = cs[i];
        proof {
            assert(c == d[i - start]);
            assert(is_digit(c));
            assert(d.take(i - start + 1).drop_last() =~= d.take(i - start));
        }
        let digit: usize = (c as u32 - '0' as u32) as usize;
        proof {
            assert(digit == digit_value(c));
            assert(d.take(i - start + 1).last() == c);
            assert(digits_value(d.take(i - start + 1)) == 10 * v + digit);
        }
        let tens = v.checked_mul(10);
        match tens {
            None => {
                proof {
                    lemma_digits_value_grows(d, i - start + 1);
                    assert(digits_value(d) > usize::MAX);
                }
                return None;
            },
            Some(t) => match t.checked_add(digit) {
                None => {
                    proof {
                        lemma_digits_value_grows(d, i - start + 1);
                        assert(digits_value(d) > usize::MAX);
                    }
                    return None;
                },
                Some(w) => {
                    v = w;
                },
            },
        }
        i = i + 1;
    }
    proof {
        assert(d.take(d.len() as int) =~= d);
    }
    Some(v)
}

/// The builtin numeral `1`.
pub fn nat_one_hexpr() -> (r: Expr)
    ensures
        expr_view(r) == ExprV::Operation("1"@),
{
    Expr::Operation("1".to_string())
}

/// Whether `theory` is the builtin `nat`.
pub fn is_builtin_nat(theory: &TheoryId) -> (r: bool)
    ensures
        r == (theory@ == nat_name()),
{
    text_eq(theory.0.as_str(), "nat")
}

/// What a name means in a type map over `nat`: a numeral `n` is the tensor
/// of `n` ones, any other name stays.
pub open spec fn normalized_operation(op: Seq<char>) -> ExprV {
    match parsed_usize(op) {
        Some(n) => ExprV::Tensor(Seq::new(n, |i: int| ExprV::Operation("1"@))),
        None => ExprV::Operation(op),
    }
}

/// Rewrites one name of a type map over `nat`.
pub fn normalize_nat_operation(op: &String) -> (r: Expr)
    ensures
        expr_view(r) == normalized_operation(op@),
{
    match parse_usize(op.as_str()) {
        None => Expr::Operation(op.clone()),
        Some(n) => {
            let mut parts: Vec<Expr> = Vec::new();
            let mut i: usize = 0;
            while i < n
                invariant
                    i <= n,
                    parts@.len() == i,
                    forall|j: int| 0 <= j < i ==> expr_view(#[trigger] parts@[j]) == ExprV::Operation("1"@),
                decreases n - i,
            {
                parts.push(nat_one_hexpr());
                i = i + 1;
            }
            proof {
                lemma_exprs_view(parts@);
                assert(exprs_view(parts@) =~= Seq::new(n as nat, |i: int| ExprV::Operation("1"@)));
            }
            Expr::Tensor(parts)
        },
    }
}

/// A type map over `nat` with every numeral written out as ones: a tensor
/// takes the parts of the tensors inside it, spiders and wires stay as they
/// are.
pub open spec fn normalized(h: ExprV) -> ExprV
    decreases h, 1int,
{
    match h {
        ExprV::Composition(ps) => ExprV::Composition(normalized_each(ps)),
        ExprV::Tensor(ps) => ExprV::Tensor(flattened(ps)),
        ExprV::Operation(op) => normalized_operation(op),
        _ => h,
    }
}

/// Each part normalized.
pub open spec fn normalized_each(ps: Seq<ExprV>) -> Seq<ExprV>
    decreases ps, 0int,
{
    if ps.len() == 0 {
        Seq::empty()
    } else {
        normalized_each(ps.drop_last()).push(normalized(ps.last()))
    }
}

/// The parts normalized, the parts of a normalized tensor taken in its
/// place.
pub open spec fn flattened(ps: Seq<ExprV>) -> Seq<ExprV>
    decreases ps, 0int,
{
    if ps.len() == 0 {
        Seq::empty()
    } else {
        flattened(ps.drop_last()) + tensor_parts(normalized(ps.last()))
    }
}

/// The parts of a tensor; anything else is one part.
pub open spec fn tensor_parts(h: ExprV) -> Seq<ExprV> {
    match h {
        ExprV::Tensor(inner) => inner,
        _ => seq![h],
    }
}

/// The plain values of two lists joined.
pub proof fn lemma_exprs_view_add(a: Seq<Expr>, b: Seq<Expr>)
    ensures
        exprs_view(a + b) == exprs_view(a) + exprs_view(b),
{
    lemma_exprs_view(a);
    lemma_exprs_view(b);
    lemma_exprs_view(a + b);
    assert forall|i: int| 0 <= i < (a + b).len() implies exprs_view(a + b)[i] == (exprs_view(a) + exprs_view(b))[i] by {
        if i < a.len() {
            assert((a + b)[i] == a[i]);
        } else {
            assert((a + b)[i] == b[i - a.len()]);
        }
    }
    assert(exprs_view(a + b) =~= exprs_view(a) + exprs_view(b));
}

/// Rewrites a type map over `nat` so that each numeral `n` is the tensor of
/// `n` ones, flattening tensors of tensors.
pub fn normalize_nat_hexpr(h: &Expr) -> (r: Expr)
    ensures
        expr_view(r) == normalized(expr_view(*h)),
    decreases h, 1int,
{
    match h {
        Expr::Composition(parts) => {
            proof {
                assert(decreases_to!(*h => *parts));
            }
            Expr::Composition(normalize_each(parts))
        },
        Expr::Tensor(parts) => {
            proof {
                assert(decreases_to!(*h => *parts));
            }
            Expr::Tensor(flatten_parts(parts))
        },
        Expr::Operation(op) => normalize_nat_operation(op),
        _ => clone_expr(h),
    }
}

/// Each part normalized.
fn normalize_each(parts: &Vec<Expr>) -> (r: Vec<Expr>)
    ensures
        exprs_view(r@) == normalized_each(exprs_view(parts@)),
    decreases parts, 0int,
{
    let mut out: Vec<Expr> = Vec::new();
    let mut i: usize = 0;
    proof {
        assert(parts@.take(0) =~= Seq::<Expr>::empty());
    }
    while i < parts.len()
        invariant
            i <= parts@.len(),
            exprs_view(out@) == normalized_each(exprs_view(parts@.take(i as int))),
        decreases parts@.len() - i,
    {
        proof {
            assert(decreases_to!(*parts => parts@));
            assert(decreases_to!(parts@ => parts@[i as int]));
            assert(parts@.take(i + 1).drop_last() =~= parts@.take(i as int));
            assert(exprs_view(parts@.take(i + 1)).drop_last() == exprs_view(parts@.take(i as int)));
        }
        let n = normalize_nat_hexpr(&parts[i]);
        let ghost before = out@;
        out.push(n);
        proof {
            assert(out@.drop_last() =~= before);
        }
        i = i + 1;
    }
    proof {
        assert(parts@.take(parts@.len() as int) =~= parts@);
    }
    out
}

/// The parts normalized, with the parts of each normalized tensor in its
/// place.
fn flatten_parts(parts: &Vec<Expr>) -> (r: Vec<Expr>)
    ensures
        exprs_view(r@) == flattened(exprs_view(parts@)),
    decreases parts, 0int,
{
    let mut out: Vec<Expr> = Vec::new();
    let mut i: usize = 0;
    proof {
        assert(parts@.take(0) =~= Seq::<Expr>::empty());
    }
    while i < parts.len()
        invariant
            i <= parts@.len(),
            exprs_view(out@) == flattened(exprs_view(parts@.take(i as int))),
        decreases parts@.len() - i,
    {
        proof {
            assert(decreases_to!(*parts => parts@));
            assert(decreases_to!(parts@ => parts@[i as int]));
            assert(parts@.take(i + 1).drop_last() =~= parts@.take(i as int));
            assert(exprs_view(parts@.take(i + 1)).drop_last() == exprs_view(parts@.take(i as int)));
        }
        let n = normalize_nat_hexpr(&parts[i]);
        let ghost before = out@;
        match n {
            Expr::Tensor(mut inner) => {
                let ghost inner0 = inner@;
                out.append(&mut inner);
                proof {
                    lemma_exprs_view_add(before, inner0);
                }
            },
            other => {
                out.push(other);
                proof {
                    assert(out@ =~= before + seq![other]);
                    lemma_exprs_view_add(before, seq![other]);
                    assert(exprs_view(seq![other]) =~= seq![expr_view(other)]) by {
                        lemma_exprs_view(seq![other]);
                    }
                }
            },
        }
        i = i + 1;
    }
    proof {
        assert(parts@.take(parts@.len() as int) =~= parts@);
    }
    out
}

/// Why theories could not be loaded.
#[derive(Debug)]
pub enum LoadError {
    /// An input is not a raw theory set.
    ParseRaw(ParseRawError),
    /// Two inputs declare a theory in ways that do not merge.
    MergeRaw(MergeRawError),
    /// A theory whose syntax category is unknown.
    UnknownSyntaxCategory { theory: TheoryId, base: String },
    /// A theory on a cycle of syntax categories.
    SyntaxCycle(TheoryId),
    /// A type map over `nat` that does not interpret; the reason.
    NatInterpret { theory: TheoryId, arrow: String, source: String },
    /// A type map over a user theory that does not interpret; the reason.
    SyntaxInterpret { theory: TheoryId, arrow: String, source: String },
    /// A definition that does not interpret; the reason.
    DefinitionInterpret { theory: TheoryId, arrow: String, source: String },
    /// An arrow whose source and target maps have different domains.
    InvalidTypeMapDomain { theory: TheoryId, arrow: String },
}

/// A load error as a plain value.
pub enum LoadErrV {
    ParseRaw(ParseErrV),
    MergeRaw(MergeErrV),
    UnknownSyntaxCategory(Seq<char>, Seq<char>),
    SyntaxCycle(Seq<char>),
    NatInterpret(Seq<char>, Seq<char>, Seq<char>),
    SyntaxInterpret(Seq<char>, Seq<char>, Seq<char>),
    DefinitionInterpret(Seq<char>, Seq<char>, Seq<char>),
    InvalidTypeMapDomain(Seq<char>, Seq<char>),
}

impl View for LoadError {
    type V = LoadErrV;

    open spec fn view(&self) -> LoadErrV {
        match self {
            LoadError::ParseRaw(e) => LoadErrV::ParseRaw(e@),
            LoadError::MergeRaw(e) => LoadErrV::MergeRaw(e@),
            LoadError::UnknownSyntaxCategory { theory, base } => LoadErrV::UnknownSyntaxCategory(theory@, base@),
            LoadError::SyntaxCycle(t) => LoadErrV::SyntaxCycle(t@),
            LoadError::NatInterpret { theory, arrow, source } => LoadErrV::NatInterpret(theory@, arrow@, source@),
            LoadError::SyntaxInterpret { theory, arrow, source } => LoadErrV::SyntaxInterpret(theory@, arrow@, source@),
            LoadError::DefinitionInterpret { theory, arrow, source } => LoadErrV::DefinitionInterpret(
                theory@,
                arrow@,
                source@,
            ),
            LoadError::InvalidTypeMapDomain { theory, arrow } => LoadErrV::InvalidTypeMapDomain(theory@, arrow@),
        }
    }
}

/// What merging two raw theory sets gives: the error of the first theory,
/// in name order, whose declarations do not merge, else the merged set.
pub open spec fn set_merge(a: RawTheorySetV, b: RawTheorySetV) -> Result<RawTheorySetV, MergeErrV> {
    if exists|k: Seq<char>| merge_fails(a.theories, b.theories, k) {
        let k = choose|k: Seq<char>| is_first_failure(a.theories, b.theories, k);
        match crate::raw::theory_merge(a.theories[k], b.theories[k]) {
            Err(e) => Err(e),
            Ok(_) => Err(MergeErrV::DuplicateTheory(k)),
        }
    } else {
        Ok(RawTheorySetV { theories: merged_theories(a.theories, b.theories), extensions: a.extensions + b.extensions })
    }
}

/// The first failure is the only one that comes before every other.
pub proof fn lemma_first_failure_unique(a: Map<Seq<char>, crate::raw::RawTheoryV>, b: Map<Seq<char>, crate::raw::RawTheoryV>, k: Seq<char>)
    requires
        is_first_failure(a, b, k),
    ensures
        (choose|x: Seq<char>| is_first_failure(a, b, x)) == k,
{
    let c = choose|x: Seq<char>| is_first_failure(a, b, x);
    assert(is_first_failure(a, b, c));
    crate::order::lemma_lt_total(c, k);
}

/// A parsed input as a plain value.
pub open spec fn input_view(r: Result<RawTheorySet, ParseRawError>) -> Result<RawTheorySetV, ParseErrV> {
    match r {
        Ok(s) => Ok(s@),
        Err(e) => Err(e@),
    }
}

/// The set with no theories and no extensions.
pub open spec fn empty_set() -> RawTheorySetV {
    RawTheorySetV { theories: Map::empty(), extensions: Seq::empty() }
}

/// Merging parsed inputs in order, from the empty set: the first input that
/// did not parse, or the first merge that fails, is the error.
pub open spec fn merge_all(sets: Seq<Result<RawTheorySetV, ParseErrV>>) -> Result<RawTheorySetV, LoadErrV>
    decreases sets.len(),
{
    if sets.len() == 0 {
        Ok(empty_set())
    } else {
        match merge_all(sets.drop_last()) {
            Err(e) => Err(e),
            Ok(acc) => match sets.last() {
                Err(p) => Err(LoadErrV::ParseRaw(p)),
                Ok(s) => match set_merge(acc, s) {
                    Err(m) => Err(LoadErrV::MergeRaw(m)),
                    Ok(n) => Ok(n),
                },
            },
        }
    }
}

/// An error among the first inputs is the error of all of them.
pub proof fn lemma_merge_error_stays(s: Seq<Result<RawTheorySetV, ParseErrV>>, k: int)
    requires
        0 <= k <= s.len(),
        merge_all(s.take(k)) is Err,
    ensures
        merge_all(s) == merge_all(s.take(k)),
    decreases s.len(),
{
    if k == s.len() {
        assert(s.take(k) =~= s);
    } else {
        assert(s.drop_last().take(k) =~= s.take(k));
        lemma_merge_error_stays(s.drop_last(), k);
    }
}

/// Merges the raw theory sets of several inputs, in order, so that a theory
/// of one input may use the theories of another.
pub fn merge_raw_sets(sets: Vec<Result<RawTheorySet, ParseRawError>>) -> (r: Result<RawTheorySet, LoadError>)
    requires
        forall|i: int| 0 <= i < sets@.len() ==> (#[trigger] sets@[i] matches Ok(s) ==> s.wf()),
    ensures
        match r {
            Ok(s) => s.wf() && merge_all(sets@.map_values(|x: Result<RawTheorySet, ParseRawError>| input_view(x))) == Ok::<RawTheorySetV, LoadErrV>(s@),
            Err(e) => merge_all(sets@.map_values(|x: Result<RawTheorySet, ParseRawError>| input_view(x))) == Err::<RawTheorySetV, LoadErrV>(e@),
        },
{
    let ghost all = sets@.map_values(|x: Result<RawTheorySet, ParseRawError>| input_view(x));
    let mut merged = RawTheorySet { theories: Vec::new(), extensions: Vec::new() };
    let mut rest = sets;
    let ghost orig = rest@;
    let ghost mut j: int = 0;
    proof {
        assert(theory_map(merged.theories@) =~= Map::<Seq<char>, crate::raw::RawTheoryV>::empty());
        assert(extensions_view(merged.extensions@) =~= Seq::<crate::raw::ExtensionV>::empty());
        assert(all.take(0) =~= Seq::<Result<RawTheorySetV, ParseErrV>>::empty());
        assert(orig.skip(0) =~= orig);
    }
    while rest.len() > 0
        invariant
            0 <= j <= orig.len(),
            orig == sets@,
            rest@ == orig.skip(j),
            all == orig.map_values(|x: Result<RawTheorySet, ParseRawError>| input_view(x)),
            forall|i: int| 0 <= i < orig.len() ==> (#[trigger] orig[i] matches Ok(s) ==> s.wf()),
            merged.wf(),
            merge_all(all.take(j)) == Ok::<RawTheorySetV, LoadErrV>(merged@),
        decreases rest.len(),
    {
        let item = rest.remove(0);
        proof {
            assert(item == orig[j]);
            assert(orig.skip(j).remove(0) =~= orig.skip(j + 1));
            assert(all.take(j + 1).drop_last() =~= all.take(j));
            assert(all.take(j + 1).last() == input_view(item));
            assert(all.take(j + 1) =~= all.take(j).push(input_view(item)));
            assert(all.take(j + 1).drop_last() =~= all.take(j));
        }
        match item {
            Err(p) => {
                proof {
                    assert(merge_all(all.take(j + 1)) == Err::<RawTheorySetV, LoadErrV>(LoadErrV::ParseRaw(p@)));
                    lemma_merge_error_stays(all, j + 1);
                    assert(all.take(all.len() as int) =~= all);
                }
                return Err(LoadError::ParseRaw(p));
            },
            Ok(s) => {
                let ghost acc = merged@;
                let ghost sv = s@;
                match merged.merge(s) {
                    Err(m) => {
                        proof {
                            let k = choose|k: Seq<char>| is_first_failure(acc.theories, sv.theories, k) && #[trigger] crate::raw::theory_merge(acc.theories[k], sv.theories[k]) == Err::<crate::raw::RawTheoryV, MergeErrV>(m@);
                            lemma_first_failure_unique(acc.theories, sv.theories, k);
                            assert(set_merge(acc, sv) == Err::<RawTheorySetV, MergeErrV>(m@));
                            assert(merge_all(all.take(j + 1)) == Err::<RawTheorySetV, LoadErrV>(LoadErrV::MergeRaw(m@)));
                            lemma_merge_error_stays(all, j + 1);
                        }
                        return Err(LoadError::MergeRaw(m));
                    },
                    Ok(n) => {
                        proof {
                            assert(set_merge(acc, sv) == Ok::<RawTheorySetV, MergeErrV>(n@));
                        }
                        merged = n;
                    },
                }
            },
        }
        proof {
            j = j + 1;
        }
    }
    proof {
        assert(all.take(j) =~= all);
    }
    Ok(merged)
}

} // verus!
