//! Rose trees with variables at the leaves and operations at the nodes.
use vstd::prelude::*;
use crate::text::{decimal, push_char, push_str, usize_to_decimal};
use crate::tree::{Label, comma_joined};

verus! {

/// Values are rose trees: nodes are labelled by operations, leaves by the
/// type of a variable.
#[derive(Debug, PartialEq, Eq)]
pub enum Tree<Leaf, Node> {
    /// A variable: its index and its type.
    Leaf(usize, Leaf),
    /// An operation applied to its arguments.
    Node(Node, Vec<Tree<Leaf, Node>>),
}


/// The text of a tree: `(i : type)` for a variable, `op(a, b, ..)` for an
/// operation.
pub open spec fn rendered<L: Label, N: Label>(t: Tree<L, N>) -> Seq<char>
    decreases t, 1int,
{
    match t {
        Tree::Leaf(i, l) => seq!['('] + decimal(i as nat) + seq![' ', ':', ' '] + l.label_spec() + seq![')'],
        Tree::Node(op, children) => op.label_spec() + seq!['('] + comma_joined(rendered_all(children@))
            + seq![')'],
    }
}

/// The texts of a list of trees.
pub open spec fn rendered_all<L: Label, N: Label>(ts: Seq<Tree<L, N>>) -> Seq<Seq<char>>
    decreases ts, 0int,
{
    if ts.len() == 0 {
        Seq::empty()
    } else {
        rendered_all(ts.drop_last()).push(rendered(ts.last()))
    }
}

impl<Leaf: Label, Node: Label> Tree<Leaf, Node> {
    /// The text of the tree.
    pub fn render(&self) -> (s: String)
        ensures
            s@ == rendered(*self),
        decreases self,
    {
        match self {
            Tree::Leaf(i, l) => {
                let mut s = String::new();
                push_char(&mut s, '(');
                let d = usize_to_decimal(*i);
                push_str(&mut s, d.as_str());
                push_char(&mut s, ' ');
                push_char(&mut s, ':');
                push_char(&mut s, ' ');
                let lt = l.label();
                push_str(&mut s, lt.as_str());
                push_char(&mut s, ')');
                assert(s@ =~= rendered(*self));
                s
            },
            Tree::Node(op, children) => {
                let mut s = op.label();
                push_char(&mut s, '(');
                let ghost head = s@;
                let mut k: usize = 0;
                assert(rendered_all(children@.take(0)) =~= Seq::<Seq<char>>::empty());
                while k < children.len()
                    invariant
                        k <= children.len(),
                        *self == Tree::<Leaf, Node>::Node(*op, *children),
                        head == op.label_spec() + seq!['('],
                        s@ == head + comma_joined(rendered_all(children@.take(k as int))),
                    decreases children.len() - k,
                {
                    proof {
                        assert(*children == self->Node_1);
                        assert(decreases_to!(*self => self->Node_1));
                        assert(decreases_to!(*children => children@));
                        assert(decreases_to!(children@ => children@[k as int]));
                    }
                    let ghost before = rendered_all(children@.take(k as int));
                    if k > 0 {
                        push_char(&mut s, ',');
                        push_char(&mut s, ' ');
                    }
                    let c = children[k].render();
                    push_str(&mut s, c.as_str());
                    proof {
                        let t = children@.take(k + 1);
                        assert(t.drop_last() =~= children@.take(k as int));
                        assert(t.last() == children@[k as int]);
                        let now = rendered_all(t);
                        assert(now == before.push(c@));
                        assert(now.drop_last() =~= before);
                        if k == 0 {
                            assert(before.len() == 0);
                            assert(comma_joined(now) == now[0]);
                        }
                        assert(s@ =~= head + comma_joined(now));
                    }
                    k = k + 1;
                }
                assert(children@.take(children.len() as int) =~= children@);
                push_char(&mut s, ')');
                assert(s@ =~= rendered(*self));
                s
            },
        }
    }
}

} // verus!
