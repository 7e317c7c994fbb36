//! The rounds of inlining definitions into a term: which edges are
//! definitions, when the term is done, and when the definitions must be
//! recursive. Replacing an edge by its definition is left to the caller.
use vstd::prelude::*;
use crate::text::text_eq;
use crate::tree::{comma_joined, join_comma, views};

verus! {

/// What to do next with a term while its definitions are inlined.
#[derive(Debug)]
pub enum InlineStep {
    /// No edge of the term is a definition: the term is done.
    Done,
    /// Replace the definitions once more: `true` at each edge that is one.
    Inline(Vec<bool>),
    /// The rounds are used up; the definitions still in the term, joined by
    /// `, `.
    Recursive(String),
}

/// A step as a plain value.
pub enum InlineStepV {
    Done,
    Inline(Seq<bool>),
    Recursive(Seq<char>),
}

/// The plain value of a step.
pub open spec fn step_view(s: InlineStep) -> InlineStepV {
    match s {
        InlineStep::Done => InlineStepV::Done,
        InlineStep::Inline(v) => InlineStepV::Inline(v@),
        InlineStep::Recursive(t) => InlineStepV::Recursive(t@),
    }
}

/// The edges of `edges` that are definitions, in order.
pub open spec fn definition_edges(keys: Seq<Seq<char>>, edges: Seq<Seq<char>>) -> Seq<Seq<char>> {
    edges.filter(|e: Seq<char>| keys.contains(e))
}

/// The step at round `round`, counted from 0, for the definitions `keys`
/// and a term whose edges are `edges`: in rounds `0 ..= keys.len()` a term
/// that holds no definition is done and any other has its definitions
/// replaced; after those rounds the definitions left are the error.
pub open spec fn inline_step_spec(round: nat, keys: Seq<Seq<char>>, edges: Seq<Seq<char>>) -> InlineStepV {
    if round > keys.len() {
        InlineStepV::Recursive(comma_joined(definition_edges(keys, edges)))
    } else if !(exists|i: int| 0 <= i < edges.len() && keys.contains(#[trigger] edges[i])) {
        InlineStepV::Done
    } else {
        InlineStepV::Inline(Seq::new(edges.len(), |i: int| keys.contains(edges[i])))
    }
}

/// Inlining takes one round per definition and one more: in rounds
/// `0 ..= keys.len()` a term with no definition edge is done and a term
/// with one has exactly its definition edges replaced; after those rounds
/// the definitions still in the term, in order and joined by `, `, are the
/// error.
pub proof fn lemma_inline_rounds(round: nat, keys: Seq<Seq<char>>, edges: Seq<Seq<char>>)
    ensures
        round <= keys.len() && (forall|i: int| 0 <= i < edges.len() ==> !keys.contains(#[trigger] edges[i]))
            ==> inline_step_spec(round, keys, edges) == InlineStepV::Done,
        round <= keys.len() && (exists|i: int| 0 <= i < edges.len() && keys.contains(#[trigger] edges[i]))
            ==> (inline_step_spec(round, keys, edges) matches InlineStepV::Inline(f) && f.len() == edges.len() && forall|i: int|
            0 <= i < edges.len() ==> #[trigger] f[i] == keys.contains(edges[i])),
        round > keys.len() ==> inline_step_spec(round, keys, edges) == InlineStepV::Recursive(
            comma_joined(edges.filter(|e: Seq<char>| keys.contains(e))),
        ),
{
}

/// Whether `e` is one of `keys`.
fn is_key(keys: &Vec<String>, e: &String) -> (r: bool)
    ensures
        r == views(keys@).contains(e@),
{
    let mut i: usize = 0;
    while i < keys.len()
        invariant
            i <= keys.len(),
            forall|j: int| 0 <= j < i ==> views(keys@)[j] != e@,
        decreases keys.len() - i,
    {
        if text_eq(keys[i].as_str(), e.as_str()) {
            proof {
                assert(views(keys@)[i as int] == e@);
            }
            return true;
        }
        i = i + 1;
    }
    false
}

/// The step at round `round` for the definitions `keys`, which are
/// distinct, and a term whose edges are `edges`.
pub fn inline_step(round: usize, keys: &Vec<String>, edges: &Vec<String>) -> (r: InlineStep)
    requires
        views(keys@).no_duplicates(),
    ensures
        step_view(r) == inline_step_spec(round as nat, views(keys@), views(edges@)),
{
    let ghost ks = views(keys@);
    let ghost es = views(edges@);
    if round > keys.len() {
        let mut left: Vec<String> = Vec::new();
        let mut i: usize = 0;
        proof {
            reveal(Seq::filter);
            assert(es.take(0) =~= Seq::<Seq<char>>::empty());
            assert(views(left@) =~= Seq::<Seq<char>>::empty());
        }
        while i < edges.len()
            invariant
                i <= edges.len(),
                ks == views(keys@),
                es == views(edges@),
                views(left@) == definition_edges(ks, es.take(i as int)),
            decreases edges.len() - i,
        {
            let ghost before = views(left@);
            let k = is_key(keys, &edges[i]);
            if k {
                left.push(edges[i].clone());
                proof {
                    assert(views(left@) =~= before.push(es[i as int]));
                }
            }
            proof {
                reveal(Seq::filter);
                let t = es.take(i + 1);
                assert(t.drop_last() =~= es.take(i as int));
                assert(t.last() == es[i as int]);
            }
            i = i + 1;
        }
        proof {
            assert(es.take(edges.len() as int) =~= es);
        }
        return InlineStep::Recursive(join_comma(&left));
    }
    let mut flags: Vec<bool> = Vec::new();
    let mut any = false;
    let mut i: usize = 0;
    while i < edges.len()
        invariant
            i <= edges.len(),
            ks == views(keys@),
            es == views(edges@),
            flags@ == Seq::new(i as nat, |j: int| ks.contains(es[j])),
            any == exists|j: int| 0 <= j < i && ks.contains(#[trigger] es[j]),
        decreases edges.len() - i,
    {
        let k = is_key(keys, &edges[i]);
        proof {
            assert(k == ks.contains(es[i as int]));
        }
        flags.push(k);
        any = any || k;
        proof {
            assert(flags@ =~= Seq::new((i + 1) as nat, |j: int| ks.contains(es[j])));
            if k {
                assert(ks.contains(es[i as int]));
            }
        }
        i = i + 1;
    }
    if any {
        InlineStep::Inline(flags)
    } else {
        InlineStep::Done
    }
}

} // verus!
