//! Objects and arrows of the syntax hypergraphs of a theory.
use vstd::prelude::*;
use crate::text::push_char;
use crate::tree::Label;

verus! {

/// An arity and a coarity.
pub type Biprofile = (usize, usize);

/// The single object: every wire carries the same sort.
#[derive(Debug, Clone, Copy, PartialEq, Eq, Structural)]
pub struct Obj;

impl Label for Obj {
    /// The object has no name of its own.
    open spec fn label_spec(&self) -> Seq<char> {
        Seq::empty()
    }

    fn label(&self) -> (s: String) {
        String::new()
    }
}

/// Operations of a syntax hypergraph.
#[derive(Debug, Clone, PartialEq, Eq)]
pub enum Arr<T> {
    /// Copies a value: one input, any number of outputs.
    Copy,
    /// Unifies expressions: any number of inputs, one output.
    Equal,
    /// An operation used forwards.
    Fwd(T),
    /// An operation used backwards.
    Rev(T),
}

/// The dual of an arrow: copying and unifying swap, as do the two directions.
pub open spec fn arr_dual<T>(a: Arr<T>) -> Arr<T> {
    match a {
        Arr::Copy => Arr::Equal,
        Arr::Equal => Arr::Copy,
        Arr::Fwd(t) => Arr::Rev(t),
        Arr::Rev(t) => Arr::Fwd(t),
    }
}

impl<T> Arr<T> {
    /// The dual arrow.
    pub fn dual(self) -> (r: Self)
        ensures
            r == arr_dual(self),
    {
        match self {
            Arr::Copy => Arr::Equal,
            Arr::Equal => Arr::Copy,
            Arr::Fwd(t) => Arr::Rev(t),
            Arr::Rev(t) => Arr::Fwd(t),
        }
    }
}

/// The text of an arrow: `Δ` for a copy, `=` for an equality, the
/// operation for a forward one and the operation with `*` for a reversed
/// one.
impl<T: Label> Label for Arr<T> {
    open spec fn label_spec(&self) -> Seq<char> {
        match self {
            Arr::Copy => seq!['\u{394}'],
            Arr::Equal => seq!['='],
            Arr::Fwd(t) => t.label_spec(),
            Arr::Rev(t) => t.label_spec() + seq!['*'],
        }
    }

    fn label(&self) -> (s: String) {
        match self {
            Arr::Copy => {
                let mut s = String::new();
                push_char(&mut s, '\u{394}');
                assert(s@ =~= seq!['\u{394}']);
                s
            },
            Arr::Equal => {
                let mut s = String::new();
                push_char(&mut s, '=');
                assert(s@ =~= seq!['=']);
                s
            },
            Arr::Fwd(t) => t.label(),
            Arr::Rev(t) => {
                let mut s = t.label();
                push_char(&mut s, '*');
                s
            },
        }
    }
}

/// Taking the dual twice gives back the arrow.
pub proof fn lemma_arr_dual_involutive<T>(a: Arr<T>)
    ensures
        arr_dual(arr_dual(a)) == a,
{
}

/// Values of an interpretation, carried only by their type.
pub struct Value<T> {
    _phantom: core::marker::PhantomData<T>,
}

} // verus!
