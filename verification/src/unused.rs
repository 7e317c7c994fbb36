//! Arrows that nothing in a project uses, and where the editor marks them.
//!
//! An arrow is used when the type maps of some arrow name it in their
//! theory's syntax, or when a definition of its own theory names it.
use vstd::prelude::*;
use crate::deps::{Pair, contains_pair, lemma_contains_add, mentions, operations_in, operations_of, pair_names};
use crate::diagnostics::{
    Range, decl_needle, declaration_name_from, declaration_name_range, definition_name_from, range_of,
    top_level_definition_name_range,
};
use crate::expr::parsed_hexprs;
use crate::raw::{
    ArrowV, Extension, Keyed, RawTheory, RawTheoryArrow, RawTheorySet, RawTheorySetV, has_key, keyed_map, lemma_keyed_map,
    raw_set_of,
};
use crate::text::push_str;
use vstd::string::StringSliceAdditionalSpecFns;

verus! {

/// The arrow `a` of theory `n`, whose syntax is `cat`, uses `p`: `p` is an
/// operation of `cat` that one of its type maps names, or an operation of
/// `n` that its definition names.
pub open spec fn arrow_uses(n: Seq<char>, cat: Seq<char>, a: ArrowV, p: Pair) -> bool {
    ||| p.0 == cat && mentions(a, p.1)
    ||| p.0 == n && (a.definition matches Some(d) && operations_of(d).contains(p.1))
}

/// Some arrow of some theory of `s` uses `p`.
pub open spec fn used_in(s: RawTheorySetV, p: Pair) -> bool {
    exists|n: Seq<char>, a: Seq<char>|
        s.theories.dom().contains(n) && s.theories[n].arrows.dom().contains(a) && #[trigger] arrow_uses(
            n,
            s.theories[n].syntax_category,
            s.theories[n].arrows[a],
            p,
        )
}

/// Every operation that a type map of an arrow names, source or target, is
/// used as an operation of the syntax category of the arrow's theory, and
/// every operation that its definition names is used as an operation of
/// the theory itself.
pub proof fn lemma_named_operations_are_used(s: RawTheorySetV, n: Seq<char>, a: Seq<char>, op: Seq<char>)
    requires
        s.theories.dom().contains(n),
        s.theories[n].arrows.dom().contains(a),
    ensures
        operations_of(s.theories[n].arrows[a].source).contains(op) ==> used_in(s, (s.theories[n].syntax_category, op)),
        operations_of(s.theories[n].arrows[a].target).contains(op) ==> used_in(s, (s.theories[n].syntax_category, op)),
        (s.theories[n].arrows[a].definition matches Some(d) && operations_of(d).contains(op)) ==> used_in(s, (n, op)),
{
    let th = s.theories[n];
    let x = th.arrows[a];
    if operations_of(x.source).contains(op) || operations_of(x.target).contains(op) {
        assert(arrow_uses(n, th.syntax_category, x, (th.syntax_category, op)));
    }
    if x.definition matches Some(d) && operations_of(d).contains(op) {
        assert(arrow_uses(n, th.syntax_category, x, (n, op)));
    }
}

/// The names of a list of strings.
pub open spec fn names_of(v: Seq<String>) -> Seq<Seq<char>> {
    v.map_values(|o: String| o@)
}

/// Appends `(first, op)` for each operation `op` of `ops`.
fn push_with(out: &mut Vec<(String, String)>, first: &String, ops: &Vec<String>)
    ensures
        forall|p: Pair| #[trigger]
            pair_names(final(out)@).contains(p) <==> (pair_names(old(out)@).contains(p) || (p.0 == first@
                && names_of(ops@).contains(p.1))),
{
    let ghost start = pair_names(out@);
    let mut i: usize = 0;
    while i < ops.len()
        invariant
            i <= ops@.len(),
            forall|p: Pair| #[trigger]
                pair_names(out@).contains(p) <==> (start.contains(p) || (p.0 == first@ && names_of(ops@).take(
                    i as int,
                ).contains(p.1))),
        decreases ops@.len() - i,
    {
        let ghost before = pair_names(out@);
        out.push((first.clone(), ops[i].clone()));
        proof {
            let names = names_of(ops@);
            assert(pair_names(out@) =~= before.push((first@, ops@[i as int]@)));
            assert(names.take(i + 1) =~= names.take(i as int).push(names[i as int]));
            assert forall|p: Pair| #[trigger]
                pair_names(out@).contains(p) <==> (start.contains(p) || (p.0 == first@ && names.take(i + 1).contains(
                    p.1,
                ))) by {
                lemma_contains_add(before, seq![(first@, ops@[i as int]@)], p);
                lemma_contains_add(names.take(i as int), seq![names[i as int]], p.1);
                assert(before.push((first@, ops@[i as int]@)) == before + seq![(first@, ops@[i as int]@)]);
                assert(names.take(i as int).push(names[i as int]) == names.take(i as int) + seq![names[i as int]]);
                if seq![(first@, ops@[i as int]@)].contains(p) {
                    assert(seq![(first@, ops@[i as int]@)][0] == p);
                }
                if seq![names[i as int]].contains(p.1) {
                    assert(seq![names[i as int]][0] == p.1);
                }
                if p == (first@, ops@[i as int]@) {
                    assert(seq![(first@, ops@[i as int]@)][0] == p);
                }
                if p.1 == names[i as int] {
                    assert(seq![names[i as int]][0] == p.1);
                }
            }
        }
        i = i + 1;
    }
    proof {
        assert(names_of(ops@).take(ops@.len() as int) =~= names_of(ops@));
    }
}

/// Appends what the arrow `a` of theory `n`, whose syntax is `cat`, uses.
fn push_arrow_uses(out: &mut Vec<(String, String)>, n: &String, cat: &String, a: &RawTheoryArrow)
    ensures
        forall|p: Pair| #[trigger]
            pair_names(final(out)@).contains(p) <==> (pair_names(old(out)@).contains(p) || arrow_uses(
                n@,
                cat@,
                a@,
                p,
            )),
{
    let source_ops = operations_in(&a.type_maps.0);
    push_with(out, cat, &source_ops);
    let target_ops = operations_in(&a.type_maps.1);
    push_with(out, cat, &target_ops);
    match &a.definition {
        Some(d) => {
            let ops = operations_in(d);
            push_with(out, n, &ops);
        },
        None => {},
    }
    proof {
        assert(names_of(source_ops@) == source_ops@.map_values(|s: String| s@));
        assert(names_of(target_ops@) == target_ops@.map_values(|s: String| s@));
    }
}

/// Every pair of a theory and an operation of it that some arrow of
/// `theories` uses.
pub fn used_arrows(theories: &RawTheorySet) -> (r: Vec<(String, String)>)
    requires
        theories.wf(),
    ensures
        forall|p: Pair| #[trigger] pair_names(r@).contains(p) <==> used_in(theories@, p),
{
    let ts = &theories.theories;
    let ghost s = theories@;
    proof {
        lemma_keyed_map(ts@);
    }
    let mut out: Vec<(String, String)> = Vec::new();
    let mut i: usize = 0;
    while i < ts.len()
        invariant
            i <= ts@.len(),
            s == theories@,
            ts == theories.theories,
            theories.wf(),
            forall|p: Pair| #[trigger]
                pair_names(out@).contains(p) <==> exists|k: int, j: int|
                    0 <= k < i && 0 <= j < ts@[k].arrows@.len() && #[trigger] arrow_uses(
                        ts@[k].name@,
                        ts@[k].syntax_category@,
                        ts@[k].arrows@[j]@,
                        p,
                    ),
        decreases ts@.len() - i,
    {
        let t = &ts[i];
        let mut j: usize = 0;
        while j < t.arrows.len()
            invariant
                i < ts@.len(),
                t == ts@[i as int],
                j <= t.arrows@.len(),
                forall|p: Pair| #[trigger]
                    pair_names(out@).contains(p) <==> (exists|k: int, l: int|
                        0 <= k < i && 0 <= l < ts@[k].arrows@.len() && #[trigger] arrow_uses(
                            ts@[k].name@,
                            ts@[k].syntax_category@,
                            ts@[k].arrows@[l]@,
                            p,
                        )) || (exists|l: int|
                        0 <= l < j && #[trigger] arrow_uses(t.name@, t.syntax_category@, t.arrows@[l]@, p)),
            decreases t.arrows@.len() - j,
        {
            push_arrow_uses(&mut out, &t.name, &t.syntax_category, &t.arrows[j]);
            j = j + 1;
        }
        proof {
            assert forall|p: Pair| #[trigger]
                pair_names(out@).contains(p) <==> exists|k: int, l: int|
                    0 <= k < i + 1 && 0 <= l < ts@[k].arrows@.len() && #[trigger] arrow_uses(
                        ts@[k].name@,
                        ts@[k].syntax_category@,
                        ts@[k].arrows@[l]@,
                        p,
                    ) by {
                if exists|k: int, l: int|
                    0 <= k < i + 1 && 0 <= l < ts@[k].arrows@.len() && #[trigger] arrow_uses(
                        ts@[k].name@,
                        ts@[k].syntax_category@,
                        ts@[k].arrows@[l]@,
                        p,
                    ) {
                    let (k, l) = choose|k: int, l: int|
                        0 <= k < i + 1 && 0 <= l < ts@[k].arrows@.len() && #[trigger] arrow_uses(
                            ts@[k].name@,
                            ts@[k].syntax_category@,
                            ts@[k].arrows@[l]@,
                            p,
                        );
                    if k == i {
                        assert(arrow_uses(t.name@, t.syntax_category@, t.arrows@[l]@, p));
                    }
                }
            }
        }
        i = i + 1;
    }
    proof {
        assert forall|p: Pair| #[trigger] pair_names(out@).contains(p) <==> used_in(s, p) by {
            if pair_names(out@).contains(p) {
                let (k, l) = choose|k: int, l: int|
                    0 <= k < ts@.len() && 0 <= l < ts@[k].arrows@.len() && #[trigger] arrow_uses(
                        ts@[k].name@,
                        ts@[k].syntax_category@,
                        ts@[k].arrows@[l]@,
                        p,
                    );
                let t = ts@[k];
                assert(t.wf());
                lemma_keyed_map(t.arrows@);
                assert(ts@[k].key_of() == t.name@);
                assert(has_key(ts@, t.name@));
                assert(keyed_map(ts@)[t.name@] == t);
                assert(s.theories[t.name@] == t@);
                assert(t.arrows@[l].key_of() == t.arrows@[l].name@);
                assert(has_key(t.arrows@, t.arrows@[l].name@));
                assert(keyed_map(t.arrows@)[t.arrows@[l].name@] == t.arrows@[l]);
                assert(s.theories[t.name@].arrows[t.arrows@[l].name@] == t.arrows@[l]@);
                assert(arrow_uses(
                    t.name@,
                    s.theories[t.name@].syntax_category,
                    s.theories[t.name@].arrows[t.arrows@[l].name@],
                    p,
                ));
            }
            if used_in(s, p) {
                let (n, a) = choose|n: Seq<char>, a: Seq<char>|
                    s.theories.dom().contains(n) && s.theories[n].arrows.dom().contains(a) && #[trigger] arrow_uses(
                        n,
                        s.theories[n].syntax_category,
                        s.theories[n].arrows[a],
                        p,
                    );
                let k = choose|k: int| 0 <= k < ts@.len() && #[trigger] ts@[k].key_of() == n;
                let t = ts@[k];
                assert(t.wf());
                lemma_keyed_map(t.arrows@);
                assert(s.theories[n] == t@);
                let l = choose|l: int| 0 <= l < t.arrows@.len() && #[trigger] t.arrows@[l].key_of() == a;
                assert(t@.arrows[a] == t.arrows@[l]@);
                assert(arrow_uses(ts@[k].name@, ts@[k].syntax_category@, ts@[k].arrows@[l]@, p));
            }
        }
    }
    out
}

/// Where the name of arrow `a` of a declared theory stands in the text
/// `b`: in its `arr` declaration, or else in a `def`.
pub open spec fn theory_arrow_span(b: Seq<u8>, a: Seq<char>) -> Option<(int, int)> {
    match declaration_name_from(b, decl_needle("arr"@), a, 0) {
        Some(sp) => Some(sp),
        None => declaration_name_from(b, decl_needle("def"@), a, 0),
    }
}

/// Where the name of arrow `a` of theory `n` stands: in a theory
/// declaration, or, for an extension, in a top-level definition of `n`.
pub open spec fn arrow_name_span(b: Seq<u8>, n: Seq<char>, a: Seq<char>, extension: bool) -> Option<(int, int)> {
    if extension {
        definition_name_from(b, n, a, 0)
    } else {
        theory_arrow_span(b, a)
    }
}

/// The hints for the arrows `arrs` of theory `n`, in order: the span of
/// the name of each arrow that `used` does not hold, where it is found.
pub open spec fn arrow_hints(b: Seq<u8>, n: Seq<char>, arrs: Seq<RawTheoryArrow>, used: Seq<Pair>, extension: bool) -> Seq<
    ((int, int), Seq<char>),
>
    decreases arrs.len(),
{
    if arrs.len() == 0 {
        Seq::empty()
    } else {
        let a = arrs.last().name@;
        arrow_hints(b, n, arrs.drop_last(), used, extension) + if used.contains((n, a)) {
            Seq::empty()
        } else {
            match arrow_name_span(b, n, a, extension) {
                Some(sp) => seq![(sp, a)],
                None => Seq::empty(),
            }
        }
    }
}

/// The hints for the arrows of the declared theories `ts`, in order.
pub open spec fn theory_hints(b: Seq<u8>, ts: Seq<RawTheory>, used: Seq<Pair>) -> Seq<((int, int), Seq<char>)>
    decreases ts.len(),
{
    if ts.len() == 0 {
        Seq::empty()
    } else {
        theory_hints(b, ts.drop_last(), used) + arrow_hints(b, ts.last().name@, ts.last().arrows@, used, false)
    }
}

/// The hints for the arrows of the extensions `xs`, in order.
pub open spec fn extension_hints(b: Seq<u8>, xs: Seq<Extension>, used: Seq<Pair>) -> Seq<((int, int), Seq<char>)>
    decreases xs.len(),
{
    if xs.len() == 0 {
        Seq::empty()
    } else {
        extension_hints(b, xs.drop_last(), used) + arrow_hints(b, xs.last().theory@, xs.last().arrows@, used, true)
    }
}

/// The hints for the arrows of a raw theory set.
pub open spec fn set_hints(b: Seq<u8>, s: RawTheorySet, used: Seq<Pair>) -> Seq<((int, int), Seq<char>)> {
    theory_hints(b, s.theories@, used) + extension_hints(b, s.extensions@, used)
}

/// The hints for the arrows of one theory are those of its arrows that
/// `used` does not hold and whose name is found, each with the span of its
/// name.
pub proof fn lemma_arrow_hints_members(
    b: Seq<u8>,
    n: Seq<char>,
    arrs: Seq<RawTheoryArrow>,
    used: Seq<Pair>,
    extension: bool,
)
    ensures
        forall|x: ((int, int), Seq<char>)| #[trigger]
            arrow_hints(b, n, arrs, used, extension).contains(x) <==> (exists|j: int|
                0 <= j < arrs.len() && #[trigger] arrs[j].name@ == x.1) && !used.contains((n, x.1)) && arrow_name_span(
                b,
                n,
                x.1,
                extension,
            ) == Some(x.0),
    decreases arrs.len(),
{
    if arrs.len() > 0 {
        let init = arrs.drop_last();
        lemma_arrow_hints_members(b, n, init, used, extension);
        let a = arrs.last().name@;
        let tail: Seq<((int, int), Seq<char>)> = if used.contains((n, a)) {
            Seq::empty()
        } else {
            match arrow_name_span(b, n, a, extension) {
                Some(sp) => seq![(sp, a)],
                None => Seq::empty(),
            }
        };
        assert forall|x: ((int, int), Seq<char>)| #[trigger]
            arrow_hints(b, n, arrs, used, extension).contains(x) <==> (exists|j: int|
                0 <= j < arrs.len() && #[trigger] arrs[j].name@ == x.1) && !used.contains((n, x.1)) && arrow_name_span(
                b,
                n,
                x.1,
                extension,
            ) == Some(x.0) by {
            lemma_contains_add(arrow_hints(b, n, init, used, extension), tail, x);
            if tail.contains(x) {
                assert(tail[0] == x);
                assert(arrs[arrs.len() - 1].name@ == x.1);
            }
            if exists|j: int| 0 <= j < arrs.len() && #[trigger] arrs[j].name@ == x.1 {
                let j = choose|j: int| 0 <= j < arrs.len() && #[trigger] arrs[j].name@ == x.1;
                if j < arrs.len() - 1 {
                    assert(init[j].name@ == x.1);
                } else if !used.contains((n, x.1)) && arrow_name_span(b, n, x.1, extension) == Some(x.0) {
                    assert(tail[0] == x);
                }
            }
            if exists|j: int| 0 <= j < init.len() && #[trigger] init[j].name@ == x.1 {
                let j = choose|j: int| 0 <= j < init.len() && #[trigger] init[j].name@ == x.1;
                assert(arrs[j].name@ == x.1);
            }
        }
    }
}

/// A hint comes for an arrow of a declared theory exactly when nothing
/// uses it and its name is found in the text, at the span of its name.
pub proof fn lemma_theory_hints_members(b: Seq<u8>, ts: Seq<RawTheory>, used: Seq<Pair>)
    ensures
        forall|x: ((int, int), Seq<char>)| #[trigger]
            theory_hints(b, ts, used).contains(x) <==> exists|k: int, j: int|
                0 <= k < ts.len() && 0 <= j < ts[k].arrows@.len() && #[trigger] ts[k].arrows@[j].name@ == x.1
                    && !used.contains((ts[k].name@, x.1)) && theory_arrow_span(b, x.1) == Some(x.0),
    decreases ts.len(),
{
    if ts.len() > 0 {
        let init = ts.drop_last();
        let last = ts.last();
        lemma_theory_hints_members(b, init, used);
        lemma_arrow_hints_members(b, last.name@, last.arrows@, used, false);
        assert forall|x: ((int, int), Seq<char>)| #[trigger]
            theory_hints(b, ts, used).contains(x) <==> exists|k: int, j: int|
                0 <= k < ts.len() && 0 <= j < ts[k].arrows@.len() && #[trigger] ts[k].arrows@[j].name@ == x.1
                    && !used.contains((ts[k].name@, x.1)) && theory_arrow_span(b, x.1) == Some(x.0) by {
            lemma_contains_add(theory_hints(b, init, used), arrow_hints(b, last.name@, last.arrows@, used, false), x);
            if arrow_hints(b, last.name@, last.arrows@, used, false).contains(x) {
                let j = choose|j: int| 0 <= j < last.arrows@.len() && #[trigger] last.arrows@[j].name@ == x.1;
                assert(ts[ts.len() - 1].arrows@[j].name@ == x.1);
            }
            if theory_hints(b, init, used).contains(x) {
                let (k, j) = choose|k: int, j: int|
                    0 <= k < init.len() && 0 <= j < init[k].arrows@.len() && #[trigger] init[k].arrows@[j].name@ == x.1
                        && !used.contains((init[k].name@, x.1)) && theory_arrow_span(b, x.1) == Some(x.0);
                assert(ts[k] == init[k]);
                assert(ts[k].arrows@[j].name@ == x.1);
            }
            if exists|k: int, j: int|
                0 <= k < ts.len() && 0 <= j < ts[k].arrows@.len() && #[trigger] ts[k].arrows@[j].name@ == x.1
                    && !used.contains((ts[k].name@, x.1)) && theory_arrow_span(b, x.1) == Some(x.0) {
                let (k, j) = choose|k: int, j: int|
                    0 <= k < ts.len() && 0 <= j < ts[k].arrows@.len() && #[trigger] ts[k].arrows@[j].name@ == x.1
                        && !used.contains((ts[k].name@, x.1)) && theory_arrow_span(b, x.1) == Some(x.0);
                if k < ts.len() - 1 {
                    assert(init[k] == ts[k]);
                    assert(init[k].arrows@[j].name@ == x.1);
                } else {
                    assert(last.arrows@[j].name@ == x.1);
                }
            }
        }
    }
}

/// An arrow that nothing uses, and the range of its name.
#[derive(Debug)]
pub struct UnusedArrow {
    pub range: Range,
    pub arrow: String,
}

/// The hints `r` are those of `h`: the same arrows, with the ranges of the
/// spans.
pub open spec fn hints_match(b: Seq<u8>, r: Seq<UnusedArrow>, h: Seq<((int, int), Seq<char>)>) -> bool {
    &&& r.len() == h.len()
    &&& forall|i: int| 0 <= i < r.len() ==> range_of(b, h[i].0.0, h[i].0.1, #[trigger] r[i].range) && r[i].arrow@ == h[i].1
}

/// The text of a hint about arrow `a`.
pub open spec fn unused_message(a: Seq<char>) -> Seq<char> {
    "Arrow '"@ + a + "' is not used in the loaded metacat project"@
}

impl UnusedArrow {
    /// The hint's message.
    pub fn message(&self) -> (r: String)
        ensures
            r@ == unused_message(self.arrow@),
    {
        let mut m = String::new();
        push_str(&mut m, "Arrow '");
        push_str(&mut m, self.arrow.as_str());
        push_str(&mut m, "' is not used in the loaded metacat project");
        proof {
            assert(m@ =~= unused_message(self.arrow@));
        }
        m
    }
}

/// Where the name of arrow `a` of theory `n` stands, as a range.
fn arrow_name_range(text: &str, n: &str, a: &str, extension: bool) -> (r: Option<Range>)
    requires
        text.spec_bytes().len() <= u32::MAX,
    ensures
        match r {
            Some(rg) => arrow_name_span(text.spec_bytes(), n@, a@, extension) matches Some(sp) && range_of(
                text.spec_bytes(),
                sp.0,
                sp.1,
                rg,
            ),
            None => arrow_name_span(text.spec_bytes(), n@, a@, extension) is None,
        },
{
    if extension {
        top_level_definition_name_range(text, n, a)
    } else {
        match declaration_name_range(text, "arr", a) {
            Some(rg) => Some(rg),
            None => declaration_name_range(text, "def", a),
        }
    }
}

/// One more arrow adds its hint, if any, at the end.
proof fn lemma_hints_step(b: Seq<u8>, n: Seq<char>, arrs: Seq<RawTheoryArrow>, used: Seq<Pair>, extension: bool, j: int)
    requires
        0 <= j < arrs.len(),
    ensures
        arrow_hints(b, n, arrs.take(j + 1), used, extension) == arrow_hints(b, n, arrs.take(j), used, extension) + if used.contains(
            (n, arrs[j].name@),
        ) {
            Seq::empty()
        } else {
            match arrow_name_span(b, n, arrs[j].name@, extension) {
                Some(sp) => seq![(sp, arrs[j].name@)],
                None => Seq::empty(),
            }
        },
{
    assert(arrs.take(j + 1).drop_last() =~= arrs.take(j));
    assert(arrs.take(j + 1).last() == arrs[j]);
}

/// A hint that matches, added to matching hints.
proof fn lemma_hints_push(
    b: Seq<u8>,
    r: Seq<UnusedArrow>,
    h: Seq<((int, int), Seq<char>)>,
    x: UnusedArrow,
    sp: (int, int),
    a: Seq<char>,
)
    requires
        hints_match(b, r, h),
        range_of(b, sp.0, sp.1, x.range),
        x.arrow@ == a,
    ensures
        hints_match(b, r.push(x), h + seq![(sp, a)]),
{
    let r2 = r.push(x);
    let h2 = h + seq![(sp, a)];
    assert forall|i: int| 0 <= i < r2.len() implies range_of(b, h2[i].0.0, h2[i].0.1, #[trigger] r2[i].range) && r2[i].arrow@
        == h2[i].1 by {
        if i < r.len() {
            assert(r2[i] == r[i]);
            assert(h2[i] == h[i]);
            assert(range_of(b, h[i].0.0, h[i].0.1, r[i].range));
        } else {
            assert(r2[i] == x);
            assert(h2[i] == (sp, a));
        }
    }
}

/// Appends the hints for the arrows `arrows` of theory `n`.
fn push_arrow_hints(
    text: &str,
    n: &String,
    arrows: &Vec<RawTheoryArrow>,
    used: &Vec<(String, String)>,
    extension: bool,
    out: &mut Vec<UnusedArrow>,
    Ghost(h0): Ghost<Seq<((int, int), Seq<char>)>>,
)
    requires
        text.spec_bytes().len() <= u32::MAX,
        hints_match(text.spec_bytes(), old(out)@, h0),
    ensures
        hints_match(
            text.spec_bytes(),
            final(out)@,
            h0 + arrow_hints(text.spec_bytes(), n@, arrows@, pair_names(used@), extension),
        ),
{
    let ghost b = text.spec_bytes();
    let ghost u = pair_names(used@);
    let mut j: usize = 0;
    proof {
        assert(arrows@.take(0) =~= Seq::<RawTheoryArrow>::empty());
        assert(h0 + arrow_hints(b, n@, arrows@.take(0), u, extension) =~= h0);
    }
    while j < arrows.len()
        invariant
            b == text.spec_bytes(),
            u == pair_names(used@),
            b.len() <= u32::MAX,
            j <= arrows@.len(),
            hints_match(b, out@, h0 + arrow_hints(b, n@, arrows@.take(j as int), u, extension)),
        decreases arrows@.len() - j,
    {
        let a = &arrows[j];
        let ghost prev = h0 + arrow_hints(b, n@, arrows@.take(j as int), u, extension);
        proof {
            lemma_hints_step(b, n@, arrows@, u, extension, j as int);
        }
        let key = (n.clone(), a.name.clone());
        if !contains_pair(used, &key) {
            match arrow_name_range(text, n.as_str(), a.name.as_str(), extension) {
                Some(rg) => {
                    let nm = a.name.clone();
                    let ghost sp = arrow_name_span(b, n@, a.name@, extension)->0;
                    proof {
                        lemma_hints_push(b, out@, prev, UnusedArrow { range: rg, arrow: nm }, sp, a.name@);
                        assert(prev + seq![(sp, a.name@)] =~= h0 + (arrow_hints(b, n@, arrows@.take(j as int), u, extension)
                            + seq![(sp, a.name@)]));
                    }
                    out.push(UnusedArrow { range: rg, arrow: nm });
                },
                None => {
                    proof {
                        assert(prev + Seq::<((int, int), Seq<char>)>::empty() =~= prev);
                    }
                },
            }
        } else {
            proof {
                assert(prev + Seq::<((int, int), Seq<char>)>::empty() =~= prev);
            }
        }
        j = j + 1;
    }
    proof {
        assert(arrows@.take(arrows@.len() as int) =~= arrows@);
    }
}

/// The hints for the arrows declared in `text`, read as `current`, that
/// `used` does not hold: first those of its theories, in order, each at
/// its `arr` declaration or else at a `def`; then those of its top-level
/// definitions, each at its definition. An arrow whose name is not found
/// gets none.
pub fn unused_arrow_hints(text: &str, current: &RawTheorySet, used: &Vec<(String, String)>) -> (r: Vec<UnusedArrow>)
    requires
        text.spec_bytes().len() <= u32::MAX,
    ensures
        hints_match(text.spec_bytes(), r@, set_hints(text.spec_bytes(), *current, pair_names(used@))),
{
    let ghost b = text.spec_bytes();
    let ghost u = pair_names(used@);
    let mut out: Vec<UnusedArrow> = Vec::new();
    let ts = &current.theories;
    let mut i: usize = 0;
    proof {
        assert(ts@.take(0) =~= Seq::<RawTheory>::empty());
    }
    while i < ts.len()
        invariant
            b == text.spec_bytes(),
            u == pair_names(used@),
            b.len() <= u32::MAX,
            ts == current.theories,
            i <= ts@.len(),
            hints_match(b, out@, theory_hints(b, ts@.take(i as int), u)),
        decreases ts@.len() - i,
    {
        proof {
            assert(ts@.take(i + 1).drop_last() =~= ts@.take(i as int));
            assert(ts@.take(i + 1).last() == ts@[i as int]);
        }
        push_arrow_hints(text, &ts[i].name, &ts[i].arrows, used, false, &mut out, Ghost(theory_hints(b, ts@.take(i as int), u)));
        i = i + 1;
    }
    proof {
        assert(ts@.take(ts@.len() as int) =~= ts@);
    }
    let xs = &current.extensions;
    let ghost th = theory_hints(b, ts@, u);
    let mut k: usize = 0;
    proof {
        assert(xs@.take(0) =~= Seq::<Extension>::empty());
        assert(th + extension_hints(b, xs@.take(0), u) =~= th);
    }
    while k < xs.len()
        invariant
            b == text.spec_bytes(),
            u == pair_names(used@),
            b.len() <= u32::MAX,
            xs == current.extensions,
            th == theory_hints(b, current.theories@, u),
            k <= xs@.len(),
            hints_match(b, out@, th + extension_hints(b, xs@.take(k as int), u)),
        decreases xs@.len() - k,
    {
        proof {
            assert(xs@.take(k + 1).drop_last() =~= xs@.take(k as int));
            assert(xs@.take(k + 1).last() == xs@[k as int]);
        }
        let ghost prev = th + extension_hints(b, xs@.take(k as int), u);
        push_arrow_hints(text, &xs[k].theory, &xs[k].arrows, used, true, &mut out, Ghost(prev));
        proof {
            assert(prev + arrow_hints(b, xs@[k as int].theory@, xs@[k as int].arrows@, u, true) =~= th + extension_hints(
                b,
                xs@.take(k + 1),
                u,
            ));
        }
        k = k + 1;
    }
    proof {
        assert(xs@.take(xs@.len() as int) =~= xs@);
    }
    out
}

/// The hints for the arrows declared in `text` that `used` does not hold;
/// none when the text does not read as a raw theory set.
pub fn unused_arrow_diagnostics(text: &str, used: &Vec<(String, String)>) -> (r: Vec<UnusedArrow>)
    requires
        text.spec_bytes().len() <= u32::MAX,
    ensures
        match parsed_hexprs(text@) {
            Ok(hs) => match raw_set_of(hs) {
                Ok(v) => exists|s: RawTheorySet|
                    s.wf() && s@ == v && hints_match(text.spec_bytes(), r@, set_hints(text.spec_bytes(), s, pair_names(used@))),
                Err(_) => r@.len() == 0,
            },
            Err(_) => r@.len() == 0,
        },
{
    match RawTheorySet::from_text(text) {
        Ok(current) => unused_arrow_hints(text, &current, used),
        Err(_) => Vec::new(),
    }
}

} // verus!
