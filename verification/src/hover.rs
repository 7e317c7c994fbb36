//! What a hovered wire variable is connected to: the operation port at the
//! other end of its wire within a composition.
use vstd::prelude::*;
use vstd::string::StringSliceAdditionalSpecFns;
use crate::syntax::{CharClass, OpenDelimiter, Position, chars_between, delimiter_stack, delimiter_stack_at, offset_at_position, offset_scan, token_at, token_span, CompositionElement, ElementView, FrobeniusSide, PortSide, Token, composition_around, composition_elements, composition_span, first_occurrence, scan_composition_elements, element_view};

verus! {

/// The first Frobenius element of `els` whose span holds the token span
/// `start .. end`.
pub open spec fn frobenius_holding(els: Seq<ElementView>, start: int, end: int) -> Option<int>
    decreases els.len(),
{
    if els.len() == 0 {
        None
    } else if els[0] matches ElementView::Frobenius(s, e, _) && start >= s && end <= e {
        Some(0)
    } else {
        match frobenius_holding(els.drop_first(), start, end) {
            None => None,
            Some(i) => Some(i + 1),
        }
    }
}

/// The name of the first operation among the elements from `i` on.
pub open spec fn operation_after(els: Seq<ElementView>, i: int) -> Option<Seq<char>>
    decreases els.len() - i,
{
    if i < 0 || i >= els.len() {
        None
    } else {
        match els[i] {
            ElementView::Operation(name, _) => Some(name),
            _ => operation_after(els, i + 1),
        }
    }
}

/// The name of the last operation among the elements before `i`.
pub open spec fn operation_before(els: Seq<ElementView>, i: int) -> Option<Seq<char>>
    decreases i,
{
    if i <= 0 || i > els.len() {
        None
    } else {
        match els[i - 1] {
            ElementView::Operation(name, _) => Some(name),
            _ => operation_before(els, i - 1),
        }
    }
}

/// The operation port that the wire variable `tok` (its text and span)
/// connects to: a target variable of a Frobenius expression feeds the
/// next operation of the composition at the same source index, and a
/// source variable is fed by the previous operation at the same target
/// index.
pub open spec fn wire_port_spec(b: Seq<u8>, tok: (Seq<char>, int, int)) -> Option<(Seq<char>, PortSide, usize)> {
    match composition_span(b, tok.1) {
        None => None,
        Some(sp) => match composition_elements(b, sp.0 + 1, sp.1) {
            None => None,
            Some(els) => match frobenius_holding(els, tok.1, tok.2) {
                None => None,
                Some(h) => match els[h] {
                    ElementView::Frobenius(_, _, vs) => match first_occurrence(vs, tok.1, tok.0) {
                        None => None,
                        Some(occ) => match occ.0 {
                            FrobeniusSide::Target => match operation_after(els, h + 1) {
                                None => None,
                                Some(name) => Some((name, PortSide::Source, occ.1)),
                            },
                            FrobeniusSide::Source => match operation_before(els, h) {
                                None => None,
                                Some(name) => Some((name, PortSide::Target, occ.1)),
                            },
                        },
                    },
                    _ => None,
                },
            },
        },
    }
}


/// The operation, side and index of the port that the wire variable
/// `token` connects to, within the composition around it.
pub fn wire_port_at(text: &str, token: &Token) -> (r: Option<(String, PortSide, usize)>)
    ensures
        match r {
            Some(p) => wire_port_spec(text.spec_bytes(), (token.text@, token.start as int, token.end as int)) == Some(
                (p.0@, p.1, p.2),
            ),
            None => wire_port_spec(text.spec_bytes(), (token.text@, token.start as int, token.end as int)) is None,
        },
{
    let ghost b = text.spec_bytes();
    let ghost tok = (token.text@, token.start as int, token.end as int);
    let expression = composition_around(text, token.start)?;
    proof {
        crate::syntax::lemma_matching_close_after(b, expression.start as int);
    }
    assert(expression.start < usize::MAX) by {
        crate::syntax::lemma_matching_close_after(b, expression.start as int);
    }
    let elements = scan_composition_elements(text, expression.start, expression.end)?;
    let ghost els = elements@.map_values(|e: CompositionElement| element_view(e));
    let mut h: usize = 0;
    assert(els.skip(0) =~= els);
    let mut found = false;
    while h < elements.len() && !found
        invariant
            h <= elements.len(),
            els == elements@.map_values(|e: CompositionElement| element_view(e)),
            tok == (token.text@, token.start as int, token.end as int),
            found ==> h < elements.len() && frobenius_holding(els, tok.1, tok.2) == Some(h as int),
            !found ==> frobenius_holding(els, tok.1, tok.2) == match frobenius_holding(els.skip(h as int), tok.1, tok.2) {
                None => None,
                Some(k) => Some(k + h),
            },
        decreases elements.len() - h, (if found { 0int } else { 1int }),
    {
        assert(els.skip(h as int)[0] == els[h as int]);
        assert(els.skip(h as int).drop_first() =~= els.skip(h + 1));
        let holds = match &elements[h] {
            CompositionElement::Frobenius(f) => token.start >= f.start && token.end <= f.end,
            CompositionElement::Operation(_) => false,
        };
        if holds {
            found = true;
        } else {
            h = h + 1;
        }
    }
    if !found {
        assert(els.skip(h as int) =~= Seq::<ElementView>::empty());
        return None;
    }
    let frob = match &elements[h] {
        CompositionElement::Frobenius(f) => f,
        CompositionElement::Operation(_) => {
            return None;
        },
    };
    let occurrence = frob.variable_occurrence(token.start, token.text.as_str())?;
    match occurrence.side {
        FrobeniusSide::Target => {
            let ghost idx = occurrence.index;
            assert(wire_port_spec(b, tok) == match operation_after(els, h + 1) {
                None => None,
                Some(name) => Some((name, PortSide::Source, idx)),
            });
            let mut i = h + 1;
            while i < elements.len()
                invariant
                    h < i <= elements.len(),
                    idx == occurrence.index,
                    b == text.spec_bytes(),
                    tok == (token.text@, token.start as int, token.end as int),
                    els == elements@.map_values(|e: CompositionElement| element_view(e)),
                    wire_port_spec(b, tok) == match operation_after(els, h + 1) {
                        None => None,
                        Some(name) => Some((name, PortSide::Source, idx)),
                    },
                    operation_after(els, h + 1) == operation_after(els, i as int),
                decreases elements.len() - i,
            {
                assert(els[i as int] == element_view(elements@[i as int]));
                match &elements[i] {
                    CompositionElement::Operation(op) => {
                        return Some((op.text.clone(), PortSide::Source, occurrence.index));
                    },
                    CompositionElement::Frobenius(_) => {},
                }
                i = i + 1;
            }
            None
        },
        FrobeniusSide::Source => {
            let ghost idx = occurrence.index;
            assert(wire_port_spec(b, tok) == match operation_before(els, h as int) {
                None => None,
                Some(name) => Some((name, PortSide::Target, idx)),
            });
            let mut i = h;
            while i > 0
                invariant
                    i <= h < elements.len(),
                    idx == occurrence.index,
                    b == text.spec_bytes(),
                    tok == (token.text@, token.start as int, token.end as int),
                    els == elements@.map_values(|e: CompositionElement| element_view(e)),
                    wire_port_spec(b, tok) == match operation_before(els, h as int) {
                        None => None,
                        Some(name) => Some((name, PortSide::Target, idx)),
                    },
                    operation_before(els, h as int) == operation_before(els, i as int),
                decreases i,
            {
                assert(els[i - 1] == element_view(elements@[i - 1]));
                match &elements[i - 1] {
                    CompositionElement::Operation(op) => {
                        return Some((op.text.clone(), PortSide::Target, occurrence.index));
                    },
                    CompositionElement::Frobenius(_) => {},
                }
                i = i - 1;
            }
            None
        },
    }
}

/// Some open delimiter of the stack is a `[`.
pub open spec fn inside_spider(stack: Seq<OpenDelimiter>) -> bool {
    exists|i: int| 0 <= i < stack.len() && #[trigger] stack[i].char == '['
}

/// What hovering at `position` points at: the offset it stands for, and
/// whether the cursor is inside a spider, where the token is a wire
/// variable, or outside, where it is an operation name.
pub open spec fn hover_target(b: Seq<u8>, position: Position) -> Option<(int, bool)> {
    match offset_scan(b, 0, position.line as int, position.character as int, 0, 0) {
        None => None,
        Some(o) => Some((o, inside_spider(delimiter_stack(b, 0, o, Seq::empty(), false)))),
    }
}

/// The token under the cursor at `position`, and whether it is a wire
/// variable inside a spider (`true`) or an operation name.
pub fn hover_token_at(text: &str, position: Position) -> (r: Option<(Token, bool)>)
    requires
        text.spec_bytes().len() <= u32::MAX,
    ensures
        match hover_target(text.spec_bytes(), position) {
            None => r is None,
            Some((o, inside)) => {
                let class = if inside { CharClass::Variable } else { CharClass::Operation };
                match r {
                    Some((t, flag)) => flag == inside && token_span(text.spec_bytes(), o, class) == Some(
                        (t.start as int, t.end as int),
                    ) && t.text@ == chars_between(text.spec_bytes(), t.start as int, t.end as int),
                    None => token_span(text.spec_bytes(), o, class) is None,
                }
            },
        },
{
    let offset = match offset_at_position(text, position) {
        Some(o) => o,
        None => {
            return None;
        },
    };
    let stack = delimiter_stack_at(text, offset);
    let mut inside = false;
    let mut i: usize = 0;
    while i < stack.len()
        invariant
            i <= stack@.len(),
            inside == (exists|j: int| 0 <= j < i && #[trigger] stack@[j].char == '['),
        decreases stack@.len() - i,
    {
        if stack[i].char == '[' {
            inside = true;
        }
        i = i + 1;
    }
    let class = if inside { CharClass::Variable } else { CharClass::Operation };
    match token_at(text, offset, class) {
        Some(t) => Some((t, inside)),
        None => None,
    }
}

} // verus!
