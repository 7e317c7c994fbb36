//! Position mechanics over `.hex` source text: tokens, delimiters, comments,
//! and the elements of a composition. Offsets are byte offsets into the
//! UTF-8 text.
use vstd::prelude::*;
use vstd::utf8::{is_char_boundary, valid_utf8};
use vstd::string::StringSliceAdditionalSpecFns;
use crate::text::{
    char_at, char_at_spec, char_width, is_ascii_alphanumeric, is_ascii_alphanumeric_spec,
    is_whitespace, is_whitespace_spec, lemma_char_step, lemma_text_valid, lemma_next_pos_advances,
    next_pos, push_char, step, text_eq, text_len, utf16_width, char_len_utf16,
};

verus! {

/// A span `[start, end]` of an expression, both ends being the offsets of
/// its delimiters.
#[derive(Debug)]
pub struct ExpressionSpan {
    pub start: usize,
    pub end: usize,
}

/// An opening delimiter and its offset.
#[derive(Clone, Copy, Debug, PartialEq, Eq)]
pub struct OpenDelimiter {
    pub char: char,
    pub offset: usize,
}

/// Which side of a Frobenius expression `[sources . targets]` a variable is on.
#[derive(Clone, Copy, Debug, PartialEq, Eq)]
pub enum FrobeniusSide {
    Source,
    Target,
}

/// Which side of an operation a port is on.
#[derive(Clone, Copy, Debug)]
pub enum PortSide {
    Source,
    Target,
}

/// A maximal run of characters of one class.
#[derive(Debug)]
pub struct Token {
    pub text: String,
    pub start: usize,
    pub end: usize,
}

/// The characters that may appear in an operation name.
pub open spec fn is_operation_char_spec(ch: char) -> bool {
    is_ascii_alphanumeric_spec(ch) || ch == '-' || ch == '_' || ch == '.' || ch == '*' || ch
        == '+' || ch == '/' || ch == '|' || ch == '>' || ch == ':' || ch == '=' || ch == '!' || ch
        == '?'
}

/// The characters that may appear in a variable name.
pub open spec fn is_variable_char_spec(ch: char) -> bool {
    is_ascii_alphanumeric_spec(ch) || ch == '-' || ch == '_'
}

/// Whether `ch` may appear in an operation name.
pub fn is_operation_char(ch: char) -> (r: bool)
    ensures
        r == is_operation_char_spec(ch),
{
    is_ascii_alphanumeric(ch) || ch == '-' || ch == '_' || ch == '.' || ch == '*' || ch == '+'
        || ch == '/' || ch == '|' || ch == '>' || ch == ':' || ch == '=' || ch == '!' || ch == '?'
}

/// Whether `ch` may appear in a variable name.
pub fn is_variable_char(ch: char) -> (r: bool)
    ensures
        r == is_variable_char_spec(ch),
{
    is_ascii_alphanumeric(ch) || ch == '-' || ch == '_'
}

/// The opening delimiter that a closing one closes; other characters map to
/// themselves.
pub open spec fn opener_for_spec(ch: char) -> char {
    if ch == ')' {
        '('
    } else if ch == ']' {
        '['
    } else if ch == '}' {
        '{'
    } else {
        ch
    }
}

/// The closing delimiter of an opening one.
pub open spec fn close_for_spec(ch: char) -> Option<char> {
    if ch == '(' {
        Some(')')
    } else if ch == '[' {
        Some(']')
    } else if ch == '{' {
        Some('}')
    } else {
        None
    }
}

fn opener_for(ch: char) -> (r: char)
    ensures
        r == opener_for_spec(ch),
{
    if ch == ')' {
        '('
    } else if ch == ']' {
        '['
    } else if ch == '}' {
        '{'
    } else {
        ch
    }
}

fn close_for(ch: char) -> (r: Option<char>)
    ensures
        r == close_for_spec(ch),
{
    if ch == '(' {
        Some(')')
    } else if ch == '[' {
        Some(']')
    } else if ch == '{' {
        Some('}')
    } else {
        None
    }
}

/// Where skipping whitespace and `#` line comments from `off` stops, not
/// going past `end`; `in_comment` says whether a comment is being skipped.
pub open spec fn skip_ws_comments(b: Seq<u8>, off: int, end: int, in_comment: bool) -> int
    decreases b.len() - off,
{
    if off >= end {
        off
    } else {
        match char_at_spec(b, off) {
            None => off,
            Some(c) => if in_comment {
                proof {
                    lemma_next_pos_advances(b, off);
                }
                skip_ws_comments(b, next_pos(b, off), end, c != '\n')
            } else if is_whitespace_spec(c) {
                proof {
                    lemma_next_pos_advances(b, off);
                }
                skip_ws_comments(b, next_pos(b, off), end, false)
            } else if c == '#' {
                proof {
                    lemma_next_pos_advances(b, off);
                }
                skip_ws_comments(b, next_pos(b, off), end, true)
            } else {
                off
            },
        }
    }
}

/// Skips whitespace and `#` line comments from `offset`, stopping at `end`.
pub fn skip_whitespace_and_comments(text: &str, offset: usize, end: usize) -> (r: usize)
    ensures
        r == skip_ws_comments(text.spec_bytes(), offset as int, end as int, false),
        offset <= r,
        r > offset ==> r <= text.spec_bytes().len(),
{
    let ghost b = text.spec_bytes();
    let mut pos = offset;
    let mut in_comment = false;
    while pos < end
        invariant
            b == text.spec_bytes(),
            offset <= pos,
            pos > offset ==> pos <= b.len(),
            skip_ws_comments(b, pos as int, end as int, in_comment) == skip_ws_comments(
                b,
                offset as int,
                end as int,
                false,
            ),
        decreases b.len() - pos,
    {
        let ch = match char_at(text, pos) {
            None => return pos,
            Some(c) => c,
        };
        if in_comment {
            pos = step(text, pos, ch);
            in_comment = ch != '\n';
        } else if is_whitespace(ch) {
            pos = step(text, pos, ch);
        } else if ch == '#' {
            pos = step(text, pos, ch);
            in_comment = true;
        } else {
            return pos;
        }
    }
    pos
}

/// The index of the last delimiter in `stack` whose character is `opener`.
pub open spec fn last_index_of_opener(stack: Seq<OpenDelimiter>, opener: char) -> Option<int>
    decreases stack.len(),
{
    if stack.len() == 0 {
        None
    } else if stack.last().char == opener {
        Some(stack.len() - 1)
    } else {
        last_index_of_opener(stack.drop_last(), opener)
    }
}

/// The stack of delimiters still open before byte `offset`, scanning from
/// byte `i` with `stack` open so far; `#` starts a comment to end of line.
pub open spec fn delimiter_stack(
    b: Seq<u8>,
    i: int,
    offset: int,
    stack: Seq<OpenDelimiter>,
    in_comment: bool,
) -> Seq<OpenDelimiter>
    decreases b.len() - i,
{
    if i >= offset {
        stack
    } else {
        match char_at_spec(b, i) {
            None => stack,
            Some(c) => {
                proof {
                    lemma_next_pos_advances(b, i);
                }
                let n = next_pos(b, i);
                if in_comment {
                    delimiter_stack(b, n, offset, stack, c != '\n')
                } else if c == '#' {
                    delimiter_stack(b, n, offset, stack, true)
                } else if c == '(' || c == '[' || c == '{' {
                    delimiter_stack(b, n, offset, stack.push(OpenDelimiter { char: c, offset: i as usize }), false)
                } else if c == ')' || c == ']' || c == '}' {
                    match last_index_of_opener(stack, opener_for_spec(c)) {
                        Some(k) => delimiter_stack(b, n, offset, stack.take(k), false),
                        None => delimiter_stack(b, n, offset, stack, false),
                    }
                } else {
                    delimiter_stack(b, n, offset, stack, false)
                }
            },
        }
    }
}

/// The delimiters of a stack are openers at increasing offsets, all below
/// `bound`.
pub open spec fn ordered_openers(stack: Seq<OpenDelimiter>, bound: int) -> bool {
    &&& forall|a: int, c: int| 0 <= a < c < stack.len() ==> (#[trigger] stack[a]).offset < (#[trigger] stack[c]).offset
    &&& forall|a: int|
        0 <= a < stack.len() ==> (#[trigger] stack[a]).offset < bound && (stack[a].char == '(' || stack[a].char == '['
            || stack[a].char == '{')
}

/// An opener found in a stack is at an index of it.
proof fn lemma_last_index_in_range(stack: Seq<OpenDelimiter>, opener: char)
    ensures
        last_index_of_opener(stack, opener) matches Some(k) ==> 0 <= k < stack.len(),
    decreases stack.len(),
{
    if stack.len() > 0 {
        lemma_last_index_in_range(stack.drop_last(), opener);
    }
}

/// Scanning on from `i` keeps the open delimiters openers at increasing
/// offsets below `offset`.
proof fn lemma_delimiter_stack_ordered(b: Seq<u8>, i: int, offset: int, stack: Seq<OpenDelimiter>, in_comment: bool)
    requires
        0 <= i,
        b.len() <= usize::MAX,
        ordered_openers(stack, i),
        ordered_openers(stack, offset),
    ensures
        ordered_openers(delimiter_stack(b, i, offset, stack, in_comment), offset),
    decreases b.len() - i,
{
    if i < offset {
        match char_at_spec(b, i) {
            None => {},
            Some(c) => {
                lemma_next_pos_advances(b, i);
                let n = next_pos(b, i);
                if in_comment {
                    lemma_delimiter_stack_ordered(b, n, offset, stack, c != '\n');
                } else if c == '#' {
                    lemma_delimiter_stack_ordered(b, n, offset, stack, true);
                } else if c == '(' || c == '[' || c == '{' {
                    assert(i < b.len());
                    let st = stack.push(OpenDelimiter { char: c, offset: i as usize });
                    assert(st[stack.len() as int].offset == i);
                    assert(ordered_openers(st, n)) by {
                        assert forall|a: int, d: int| 0 <= a < d < st.len() implies (#[trigger] st[a]).offset < (
                        #[trigger] st[d]).offset by {
                            if d < stack.len() {
                                assert(st[a] == stack[a] && st[d] == stack[d]);
                            } else {
                                assert(st[a] == stack[a]);
                            }
                        }
                        assert forall|a: int| 0 <= a < st.len() implies (#[trigger] st[a]).offset < n by {
                            if a < stack.len() {
                                assert(st[a] == stack[a]);
                            }
                        }
                    }
                    assert(ordered_openers(st, offset)) by {
                        assert forall|a: int| 0 <= a < st.len() implies (#[trigger] st[a]).offset < offset by {
                            if a < stack.len() {
                                assert(st[a] == stack[a]);
                            }
                        }
                    }
                    lemma_delimiter_stack_ordered(b, n, offset, st, false);
                } else if c == ')' || c == ']' || c == '}' {
                    lemma_last_index_in_range(stack, opener_for_spec(c));
                    match last_index_of_opener(stack, opener_for_spec(c)) {
                        Some(k) => {
                            let st = stack.take(k);
                            assert(ordered_openers(st, n)) by {
                                assert forall|a: int| 0 <= a < st.len() implies (#[trigger] st[a]).offset < n by {
                                    assert(st[a] == stack[a]);
                                }
                                assert forall|a: int, d: int| 0 <= a < d < st.len() implies (#[trigger] st[a]).offset < (
                                #[trigger] st[d]).offset by {
                                    assert(st[a] == stack[a] && st[d] == stack[d]);
                                }
                            }
                            assert(ordered_openers(st, offset)) by {
                                assert forall|a: int| 0 <= a < st.len() implies (#[trigger] st[a]).offset < offset by {
                                    assert(st[a] == stack[a]);
                                }
                            }
                            lemma_delimiter_stack_ordered(b, n, offset, st, false);
                        },
                        None => {
                            lemma_delimiter_stack_ordered(b, n, offset, stack, false);
                        },
                    }
                } else {
                    lemma_delimiter_stack_ordered(b, n, offset, stack, false);
                }
            },
        }
    }
}

/// The delimiters left open before an offset are openers `(`, `[`, `{`,
/// at increasing offsets, each before that offset.
pub proof fn lemma_delimiter_stack_at_ordered(b: Seq<u8>, offset: int)
    requires
        b.len() <= usize::MAX,
    ensures
        ordered_openers(delimiter_stack(b, 0, offset, Seq::empty(), false), offset),
{
    lemma_delimiter_stack_ordered(b, 0, offset, Seq::empty(), false);
}

/// Whether byte `p` lies in a comment, scanning from byte `i` with the
/// comment state `in_comment`: `#` starts a comment that ends with its line.
pub open spec fn in_comment_at(b: Seq<u8>, i: int, p: int, in_comment: bool) -> bool
    decreases b.len() - i,
{
    if i >= p {
        in_comment
    } else {
        match char_at_spec(b, i) {
            None => in_comment,
            Some(c) => {
                proof {
                    lemma_next_pos_advances(b, i);
                }
                let n = next_pos(b, i);
                if in_comment {
                    in_comment_at(b, n, p, c != '\n')
                } else {
                    in_comment_at(b, n, p, c == '#')
                }
            },
        }
    }
}

/// The delimiter `d` was read from the text: its character begins at its
/// offset, and that offset is not in a comment.
pub open spec fn read_at(b: Seq<u8>, d: OpenDelimiter) -> bool {
    &&& char_at_spec(b, d.offset as int) == Some(d.char)
    &&& !in_comment_at(b, 0, d.offset as int, false)
}

/// Scanning on from `i`, every delimiter left open is one of `stack` or
/// was read from the text at or after `i`, outside a comment.
proof fn lemma_delimiter_stack_read(b: Seq<u8>, i: int, offset: int, stack: Seq<OpenDelimiter>, in_comment: bool)
    requires
        0 <= i,
        b.len() <= usize::MAX,
        forall|a: int| 0 <= a < stack.len() ==> (#[trigger] stack[a]).offset < i,
    ensures
        forall|a: int|
            0 <= a < delimiter_stack(b, i, offset, stack, in_comment).len() ==> {
                let d = #[trigger] delimiter_stack(b, i, offset, stack, in_comment)[a];
                &&& d.offset < i ==> stack.contains(d)
                &&& d.offset >= i ==> char_at_spec(b, d.offset as int) == Some(d.char) && !in_comment_at(
                    b,
                    i,
                    d.offset as int,
                    in_comment,
                )
            },
    decreases b.len() - i,
{
    let r = delimiter_stack(b, i, offset, stack, in_comment);
    if i < offset {
        match char_at_spec(b, i) {
            None => {},
            Some(c) => {
                lemma_next_pos_advances(b, i);
                let n = next_pos(b, i);
                let ic = if in_comment {
                    c != '\n'
                } else {
                    c == '#'
                };
                let opens = !in_comment && (c == '(' || c == '[' || c == '{');
                let closes = !in_comment && (c == ')' || c == ']' || c == '}');
                let st = if opens {
                    stack.push(OpenDelimiter { char: c, offset: i as usize })
                } else if closes {
                    match last_index_of_opener(stack, opener_for_spec(c)) {
                        Some(k) => stack.take(k),
                        None => stack,
                    }
                } else {
                    stack
                };
                lemma_last_index_in_range(stack, opener_for_spec(c));
                assert(r == delimiter_stack(b, n, offset, st, ic));
                assert forall|a: int| 0 <= a < st.len() implies (#[trigger] st[a]).offset < n by {
                    if a < stack.len() {
                        assert(st[a] == stack[a]);
                    }
                }
                lemma_delimiter_stack_read(b, n, offset, st, ic);
                assert forall|a: int| 0 <= a < r.len() implies {
                    let d = #[trigger] r[a];
                    &&& d.offset < i ==> stack.contains(d)
                    &&& d.offset >= i ==> char_at_spec(b, d.offset as int) == Some(d.char) && !in_comment_at(
                        b,
                        i,
                        d.offset as int,
                        in_comment,
                    )
                } by {
                    let d = r[a];
                    if d.offset < n {
                        assert(st.contains(d));
                        let j = choose|j: int| 0 <= j < st.len() && st[j] == d;
                        if opens && j == stack.len() {
                            assert(d.offset == i);
                        } else {
                            assert(st[j] == stack[j]);
                            assert(stack.contains(d));
                        }
                    } else {
                        assert(in_comment_at(b, i, d.offset as int, in_comment) == in_comment_at(
                            b,
                            n,
                            d.offset as int,
                            ic,
                        ));
                    }
                }
            },
        }
    }
}

/// The delimiters left open before an offset were read from the text: each
/// one's character begins at its offset, outside a comment.
pub proof fn lemma_delimiter_stack_at_read(b: Seq<u8>, offset: int)
    requires
        b.len() <= usize::MAX,
    ensures
        forall|a: int|
            0 <= a < delimiter_stack(b, 0, offset, Seq::empty(), false).len() ==> read_at(
                b,
                #[trigger] delimiter_stack(b, 0, offset, Seq::empty(), false)[a],
            ),
{
    lemma_delimiter_stack_read(b, 0, offset, Seq::empty(), false);
}

/// Scanning from a boundary before `offset`, only the text before
/// `offset` is read.
proof fn lemma_delimiter_stack_prefix_from(
    b: Seq<u8>,
    i: int,
    offset: int,
    stack: Seq<OpenDelimiter>,
    in_comment: bool,
)
    requires
        valid_utf8(b),
        0 <= i <= offset <= b.len(),
        is_char_boundary(b, offset),
        is_char_boundary(b, i),
    ensures
        delimiter_stack(b, i, offset, stack, in_comment) == delimiter_stack(
            b.subrange(0, offset),
            i,
            offset,
            stack,
            in_comment,
        ),
    decreases b.len() - i,
{
    if i < offset {
        crate::text::lemma_char_at_prefix(b, offset, i);
        lemma_next_pos_advances(b, i);
        let c = char_at_spec(b, i)->0;
        let n = next_pos(b, i);
        assert(n <= offset) by {
            crate::text::lemma_char_step(b.subrange(0, offset), i);
        }
        if in_comment {
            lemma_delimiter_stack_prefix_from(b, n, offset, stack, c != '\n');
        } else if c == '#' {
            lemma_delimiter_stack_prefix_from(b, n, offset, stack, true);
        } else if c == '(' || c == '[' || c == '{' {
            lemma_delimiter_stack_prefix_from(b, n, offset, stack.push(OpenDelimiter { char: c, offset: i as usize }), false);
        } else if c == ')' || c == ']' || c == '}' {
            match last_index_of_opener(stack, opener_for_spec(c)) {
                Some(k) => lemma_delimiter_stack_prefix_from(b, n, offset, stack.take(k), false),
                None => lemma_delimiter_stack_prefix_from(b, n, offset, stack, false),
            }
        } else {
            lemma_delimiter_stack_prefix_from(b, n, offset, stack, false);
        }
    }
}

/// The delimiters left open before a character boundary depend only on the
/// text before it.
pub proof fn lemma_delimiter_stack_prefix(b: Seq<u8>, offset: int)
    requires
        valid_utf8(b),
        0 <= offset <= b.len(),
        is_char_boundary(b, offset),
    ensures
        delimiter_stack(b, 0, offset, Seq::empty(), false) == delimiter_stack(
            b.subrange(0, offset),
            0,
            offset,
            Seq::empty(),
            false,
        ),
{
    vstd::utf8::is_char_boundary_start_end_of_seq(b);
    lemma_delimiter_stack_prefix_from(b, 0, offset, Seq::empty(), false);
}

/// The delimiters `(`, `[`, `{` left open before `offset`, outermost first;
/// a closing delimiter closes the innermost open delimiter of its kind and
/// every delimiter opened after it.
///
/// Only the text before `offset` is read when `offset` is a character
/// boundary; the delimiters left open are at increasing offsets before
/// `offset`, and each was read from the text outside a comment.
pub fn delimiter_stack_at(text: &str, offset: usize) -> (r: Vec<OpenDelimiter>)
    ensures
        r@ == delimiter_stack(text.spec_bytes(), 0, offset as int, Seq::empty(), false),
        offset <= text.spec_bytes().len() && is_char_boundary(text.spec_bytes(), offset as int) ==> r@
            == delimiter_stack(text.spec_bytes().subrange(0, offset as int), 0, offset as int, Seq::empty(), false),
        ordered_openers(r@, offset as int),
        forall|a: int| 0 <= a < r@.len() ==> read_at(text.spec_bytes(), #[trigger] r@[a]),
{
    let ghost b = text.spec_bytes();
    let mut stack: Vec<OpenDelimiter> = Vec::new();
    let mut in_comment = false;
    let mut pos: usize = 0;
    let n = text_len(text);
    proof {
        lemma_text_valid(text);
        lemma_delimiter_stack_at_ordered(b, offset as int);
        lemma_delimiter_stack_at_read(b, offset as int);
        if offset <= b.len() && is_char_boundary(b, offset as int) {
            lemma_delimiter_stack_prefix(b, offset as int);
        }
    }
    while pos < n
        invariant
            b == text.spec_bytes(),
            n == b.len(),
            pos <= n,
            delimiter_stack(b, pos as int, offset as int, stack@, in_comment) == delimiter_stack(
                b,
                0,
                offset as int,
                Seq::empty(),
                false,
            ),
            offset <= b.len() && is_char_boundary(b, offset as int) ==> delimiter_stack(b, 0, offset as int, Seq::empty(), false)
                == delimiter_stack(b.subrange(0, offset as int), 0, offset as int, Seq::empty(), false),
            ordered_openers(delimiter_stack(b, 0, offset as int, Seq::empty(), false), offset as int),
            forall|a: int|
                0 <= a < delimiter_stack(b, 0, offset as int, Seq::empty(), false).len() ==> read_at(
                    b,
                    #[trigger] delimiter_stack(b, 0, offset as int, Seq::empty(), false)[a],
                ),
        decreases n - pos,
    {
        let ch = match char_at(text, pos) {
            None => return stack,
            Some(c) => c,
        };
        if pos >= offset {
            return stack;
        }
        let here = pos;
        pos = step(text, pos, ch);
        if in_comment {
            if ch == '\n' {
                in_comment = false;
            }
        } else if ch == '#' {
            in_comment = true;
        } else if ch == '(' || ch == '[' || ch == '{' {
            stack.push(OpenDelimiter { char: ch, offset: here });
        } else if ch == ')' || ch == ']' || ch == '}' {
            let opener = opener_for(ch);
            match rposition_of_opener(&stack, opener) {
                Some(k) => {
                    stack.truncate(k);
                },
                None => {},
            }
        }
    }
    proof {
        assert(char_at_spec(b, pos as int) is None);
    }
    stack
}

/// The index of the last delimiter of kind `opener`.
fn rposition_of_opener(stack: &Vec<OpenDelimiter>, opener: char) -> (r: Option<usize>)
    ensures
        r matches Some(k) ==> last_index_of_opener(stack@, opener) == Some(k as int) && k < stack.len(),
        r is None ==> last_index_of_opener(stack@, opener) is None,
{
    let mut i = stack.len();
    assert(stack@.take(i as int) =~= stack@);
    while i > 0
        invariant
            i <= stack.len(),
            last_index_of_opener(stack@, opener) == last_index_of_opener(stack@.take(i as int), opener),
        decreases i,
    {
        proof {
            assert(stack@.take(i as int).drop_last() =~= stack@.take(i - 1));
        }
        if stack[i - 1].char == opener {
            return Some(i - 1);
        }
        i = i - 1;
    }
    proof {
        assert(stack@.take(0) =~= Seq::<OpenDelimiter>::empty());
    }
    None
}

/// The offset of the delimiter that closes the one opened at byte `i`, given
/// the current nesting `depth` of that kind of delimiter.
pub open spec fn close_from(
    b: Seq<u8>,
    i: int,
    open: char,
    close: char,
    depth: int,
    in_comment: bool,
) -> Option<int>
    decreases b.len() - i,
{
    match char_at_spec(b, i) {
        None => None,
        Some(c) => {
            proof {
                lemma_next_pos_advances(b, i);
            }
            let n = next_pos(b, i);
            if in_comment {
                close_from(b, n, open, close, depth, c != '\n')
            } else if c == '#' {
                close_from(b, n, open, close, depth, true)
            } else if c == open {
                close_from(b, n, open, close, depth + 1, false)
            } else if c == close {
                if depth - 1 == 0 {
                    Some(i)
                } else {
                    close_from(b, n, open, close, depth - 1, false)
                }
            } else {
                close_from(b, n, open, close, depth, false)
            }
        },
    }
}

/// The offset of the delimiter closing the one at `open_offset`.
pub open spec fn matching_close(b: Seq<u8>, open_offset: int) -> Option<int> {
    match char_at_spec(b, open_offset) {
        None => None,
        Some(open) => match close_for_spec(open) {
            None => None,
            Some(close) => close_from(b, open_offset, open, close, 0, false),
        },
    }
}

/// The offset of the delimiter that closes the `(`, `[` or `{` at
/// `open_offset`, skipping `#` comments; `None` when there is no delimiter
/// there or it is never closed.
pub fn matching_close_offset(text: &str, open_offset: usize) -> (r: Option<usize>)
    ensures
        r matches Some(k) ==> matching_close(text.spec_bytes(), open_offset as int) == Some(k as int),
        r is None ==> matching_close(text.spec_bytes(), open_offset as int) is None,
{
    let ghost b = text.spec_bytes();
    let open = match char_at(text, open_offset) {
        None => return None,
        Some(c) => c,
    };
    let close = match close_for(open) {
        None => return None,
        Some(c) => c,
    };
    let mut depth: usize = 0;
    let mut in_comment = false;
    let mut pos = open_offset;
    let n = text_len(text);
    proof {
        lemma_text_valid(text);
    }
    while pos < n
        invariant
            b == text.spec_bytes(),
            n == b.len(),
            open_offset <= pos <= n,
            close_for_spec(open) == Some(close),
            open != '#' && close != '#' && open != close,
            pos == open_offset ==> depth == 0 && !in_comment && char_at_spec(b, pos as int) == Some(open),
            pos > open_offset ==> depth >= 1,
            depth <= pos - open_offset,
            close_from(b, pos as int, open, close, depth as int, in_comment) == matching_close(
                b,
                open_offset as int,
            ),
        decreases n - pos,
    {
        let ch = match char_at(text, pos) {
            None => return None,
            Some(c) => c,
        };
        let here = pos;
        pos = step(text, pos, ch);
        if in_comment {
            if ch == '\n' {
                in_comment = false;
            }
        } else if ch == '#' {
            in_comment = true;
        } else if ch == open {
            depth = depth + 1;
        } else if ch == close {
            depth = depth - 1;
            if depth == 0 {
                return Some(here);
            }
        }
    }
    proof {
        assert(char_at_spec(b, pos as int) is None);
    }
    None
}

/// The character classes that tokens are made of.
#[derive(Clone, Copy, Debug, PartialEq, Eq)]
pub enum CharClass {
    /// Characters of operation names.
    Operation,
    /// Characters of variable names.
    Variable,
}

/// Whether `ch` belongs to the class.
pub open spec fn in_class(class: CharClass, ch: char) -> bool {
    match class {
        CharClass::Operation => is_operation_char_spec(ch),
        CharClass::Variable => is_variable_char_spec(ch),
    }
}

impl CharClass {
    /// Whether `ch` belongs to this class.
    pub fn contains(&self, ch: char) -> (r: bool)
        ensures
            r == in_class(*self, ch),
    {
        match self {
            CharClass::Operation => is_operation_char(ch),
            CharClass::Variable => is_variable_char(ch),
        }
    }
}

/// The largest character boundary before `off`.
pub open spec fn prev_boundary(b: Seq<u8>, off: int) -> int
    decreases off,
{
    if off <= 1 {
        0
    } else if is_char_boundary(b, off - 1) {
        off - 1
    } else {
        prev_boundary(b, off - 1)
    }
}

/// The offset and character of the last character before `off`, when `off`
/// is a character boundary after the start.
pub open spec fn previous_char_spec(b: Seq<u8>, off: int) -> Option<(usize, char)> {
    if off > 0 && is_char_boundary(b, off) {
        let j = prev_boundary(b, off);
        Some((j as usize, char_at_spec(b, j)->0))
    } else {
        None
    }
}

pub proof fn lemma_prev_boundary(b: Seq<u8>, off: int)
    requires
        off > 0,
    ensures
        0 <= prev_boundary(b, off) < off,
        prev_boundary(b, off) == 0 || is_char_boundary(b, prev_boundary(b, off)),
    decreases off,
{
    if off > 1 && !is_char_boundary(b, off - 1) {
        lemma_prev_boundary(b, off - 1);
    }
}

/// The last character before `offset` and its offset.
pub fn previous_char(text: &str, offset: usize) -> (r: Option<(usize, char)>)
    ensures
        r == previous_char_spec(text.spec_bytes(), offset as int),
{
    let ghost b = text.spec_bytes();
    proof {
        lemma_text_valid(text);
    }
    if offset == 0 || !text.is_char_boundary(offset) {
        return None;
    }
    let mut j = offset - 1;
    while j > 0 && !text.is_char_boundary(j)
        invariant
            b == text.spec_bytes(),
            j < offset,
            prev_boundary(b, offset as int) == prev_boundary(b, (j + 1) as int),
        decreases j,
    {
        j = j - 1;
    }
    let c = char_at(text, j);
    proof {
        lemma_prev_boundary(b, offset as int);
        assert(prev_boundary(b, offset as int) == j);
        assert(is_char_boundary(b, 0));
        assert(j < b.len()) by {
            if offset as int > b.len() {
                assert(!is_char_boundary(b, offset as int));
            }
        }
    }
    match c {
        Some(c) => Some((j, c)),
        None => None,
    }
}

/// The first character boundary at or after `n`.
pub open spec fn next_boundary_from(b: Seq<u8>, n: int) -> int
    decreases b.len() - n,
{
    if n < b.len() && !is_char_boundary(b, n) {
        next_boundary_from(b, n + 1)
    } else {
        n
    }
}

pub proof fn lemma_next_boundary_from(b: Seq<u8>, n: int)
    requires
        0 <= n <= b.len(),
        is_char_boundary(b, b.len() as int),
    ensures
        n <= next_boundary_from(b, n) <= b.len(),
        is_char_boundary(b, next_boundary_from(b, n)),
    decreases b.len() - n,
{
    if n < b.len() && !is_char_boundary(b, n) {
        lemma_next_boundary_from(b, n + 1);
    }
}

/// The first character boundary after `offset`.
fn next_char_boundary(text: &str, offset: usize) -> (r: usize)
    requires
        offset < text.spec_bytes().len(),
    ensures
        r == next_boundary_from(text.spec_bytes(), offset + 1),
{
    let n = text_len(text);
    let mut next = offset + 1;
    while next < n && !text.is_char_boundary(next)
        invariant
            n == text.spec_bytes().len(),
            offset < next <= n,
            next_boundary_from(text.spec_bytes(), next as int) == next_boundary_from(
                text.spec_bytes(),
                offset + 1,
            ),
        decreases n - next,
    {
        next = next + 1;
    }
    next
}

/// Where extending a token backwards from `start` stops; `None` when it runs
/// into a position that is not a character boundary.
pub open spec fn scan_back(b: Seq<u8>, start: int, class: CharClass) -> Option<int>
    decreases start,
{
    if start <= 0 {
        Some(0)
    } else {
        match previous_char_spec(b, start) {
            None => None,
            Some(p) => if !in_class(class, p.1) {
                Some(start)
            } else {
                proof {
                    lemma_prev_boundary(b, start);
                }
                scan_back(b, p.0 as int, class)
            },
        }
    }
}

/// Where extending a token forwards from `end` stops.
pub open spec fn scan_forward(b: Seq<u8>, end: int, class: CharClass) -> int
    decreases b.len() - end,
{
    if end >= b.len() {
        end
    } else {
        match char_at_spec(b, end) {
            None => end,
            Some(c) => if !in_class(class, c) {
                end
            } else {
                proof {
                    lemma_next_pos_advances(b, end);
                }
                scan_forward(b, next_pos(b, end), class)
            },
        }
    }
}

/// The characters from byte `i` up to byte `j`.
pub open spec fn chars_between(b: Seq<u8>, i: int, j: int) -> Seq<char>
    decreases b.len() - i,
{
    if i >= j {
        Seq::empty()
    } else {
        match char_at_spec(b, i) {
            None => Seq::empty(),
            Some(c) => {
                proof {
                    lemma_next_pos_advances(b, i);
                }
                seq![c] + chars_between(b, next_pos(b, i), j)
            },
        }
    }
}

/// The span `(start, end)` of the token of `class` at `offset`: the maximal
/// run of characters of the class around the character at `offset`, or just
/// before it when `offset` is at the end of a token.
pub open spec fn token_span(b: Seq<u8>, offset: int, class: CharClass) -> Option<(int, int)> {
    let current = match char_at_spec(b, offset) {
        Some(c) => Some(c),
        None => if offset >= 1 {
            char_at_spec(b, offset - 1)
        } else {
            None
        },
    };
    match current {
        None => None,
        Some(c) => if !in_class(class, c) {
            None
        } else {
            let s0 = if offset < b.len() { offset } else { b.len() as int };
            match scan_back(b, s0, class) {
                None => None,
                Some(start) => {
                    let e1 = if s0 < b.len() && !is_char_boundary(b, s0) {
                        next_boundary_from(b, s0 + 1)
                    } else {
                        s0
                    };
                    Some((start, scan_forward(b, e1, class)))
                },
            }
        },
    }
}

/// The token of characters of `class` around byte `offset`.
pub fn token_at(text: &str, offset: usize, class: CharClass) -> (r: Option<Token>)
    ensures
        r matches Some(t) ==> token_span(text.spec_bytes(), offset as int, class) == Some(
            (t.start as int, t.end as int),
        ) && t.text@ == chars_between(text.spec_bytes(), t.start as int, t.end as int)
            && t.start <= t.end,
        r is None ==> token_span(text.spec_bytes(), offset as int, class) is None,
{
    let ghost b = text.spec_bytes();
    proof {
        lemma_text_valid(text);
    }
    let n = text_len(text);
    let current = match char_at(text, offset) {
        Some(c) => c,
        None => {
            if offset >= 1 {
                match char_at(text, offset - 1) {
                    Some(c) => c,
                    None => return None,
                }
            } else {
                return None;
            }
        },
    };
    if !class.contains(current) {
        return None;
    }
    let s0 = if offset < n { offset } else { n };
    let mut start = s0;
    let mut done = false;
    while start > 0 && !done
        invariant
            b == text.spec_bytes(),
            valid_utf8_text(b),
            start <= s0 <= n,
            n == b.len(),
            start < s0 ==> is_char_boundary(b, start as int),
            done ==> start > 0 && is_char_boundary(b, start as int) && scan_back(b, start as int, class) == Some(start as int),
            scan_back(b, start as int, class) == scan_back(b, s0 as int, class),
            token_span(b, offset as int, class) is None <==> scan_back(b, s0 as int, class) is None,
        decreases start, (if done { 0int } else { 1int }),
    {
        let previous = match previous_char(text, start) {
            Some(p) => p,
            None => return None,
        };
        if !class.contains(previous.1) {
            done = true;
        } else {
            proof {
                lemma_prev_boundary(b, start as int);
            }
            start = previous.0;
        }
    }
    assert(scan_back(b, s0 as int, class) == Some(start as int));
    assert(is_char_boundary(b, start as int));
    let mut e1 = s0;
    if e1 < n && !text.is_char_boundary(e1) {
        e1 = next_char_boundary(text, e1);
        proof {
            lemma_next_boundary_from(b, s0 + 1);
        }
    }
    let mut end = e1;
    let mut stop = false;
    while end < n && !stop
        invariant
            b == text.spec_bytes(),
            valid_utf8_text(b),
            n == b.len(),
            start <= e1 <= end <= n,
            is_char_boundary(b, end as int),
            stop ==> scan_forward(b, end as int, class) == end,
            scan_forward(b, end as int, class) == scan_forward(b, e1 as int, class),
        decreases n - end, (if stop { 0int } else { 1int }),
    {
        match char_at(text, end) {
            Some(ch) => {
                if !class.contains(ch) {
                    stop = true;
                } else {
                    end = step(text, end, ch);
                }
            },
            None => {
                stop = true;
            },
        }
    }
    let token_text = collect_chars(text, start, end);
    Some(Token { text: token_text, start, end })
}

/// The characters between two character boundaries.
pub(crate) fn collect_chars(text: &str, start: usize, end: usize) -> (r: String)
    requires
        start <= end <= text.spec_bytes().len(),
        is_char_boundary(text.spec_bytes(), start as int),
        is_char_boundary(text.spec_bytes(), end as int),
    ensures
        r@ == chars_between(text.spec_bytes(), start as int, end as int),
{
    let ghost b = text.spec_bytes();
    proof {
        lemma_text_valid(text);
    }
    let mut out = String::new();
    let mut pos = start;
    while pos < end
        invariant
            b == text.spec_bytes(),
            vstd::utf8::valid_utf8(b),
            start <= pos <= end <= b.len(),
            is_char_boundary(b, pos as int),
            is_char_boundary(b, end as int),
            chars_between(b, start as int, end as int) == out@ + chars_between(b, pos as int, end as int),
        decreases end - pos,
    {
        let c = match char_at(text, pos) {
            Some(c) => c,
            None => {
                proof {
                    assert(false);
                }
                return out;
            },
        };
        proof {
            lemma_char_step(b, pos as int);
            lemma_next_pos_advances(b, pos as int);
        }
        let ghost old_out = out@;
        push_char(&mut out, c);
        let ghost here = pos;
        pos = step(text, pos, c);
        proof {
            assert(chars_between(b, here as int, end as int) == seq![c] + chars_between(b, pos as int, end as int));
            assert(old_out + (seq![c] + chars_between(b, pos as int, end as int)) =~= out@ + chars_between(b, pos as int, end as int));
        }
    }
    proof {
        assert(chars_between(b, pos as int, end as int) =~= Seq::<char>::empty());
        assert(out@ + Seq::<char>::empty() =~= out@);
    }
    out
}

/// Valid UTF-8 whose end is a character boundary.
pub open spec fn valid_utf8_text(b: Seq<u8>) -> bool {
    &&& vstd::utf8::valid_utf8(b)
    &&& is_char_boundary(b, 0)
    &&& is_char_boundary(b, b.len() as int)
}

pub proof fn lemma_skip_bounds(b: Seq<u8>, off: int, end: int, in_comment: bool)
    ensures
        off <= skip_ws_comments(b, off, end, in_comment),
        skip_ws_comments(b, off, end, in_comment) > off ==> skip_ws_comments(b, off, end, in_comment) <= b.len(),
    decreases b.len() - off,
{
    if off < end {
        if let Some(c) = char_at_spec(b, off) {
            lemma_next_pos_advances(b, off);
            lemma_skip_bounds(b, next_pos(b, off), end, c != '\n');
            lemma_skip_bounds(b, next_pos(b, off), end, false);
            lemma_skip_bounds(b, next_pos(b, off), end, true);
        }
    }
}

pub proof fn lemma_scan_forward_bounds(b: Seq<u8>, x: int, class: CharClass)
    ensures
        scan_forward(b, x, class) >= x,
        x <= b.len() ==> scan_forward(b, x, class) <= b.len(),
    decreases b.len() - x,
{
    if x < b.len() {
        if let Some(c) = char_at_spec(b, x) {
            if in_class(class, c) {
                lemma_next_pos_advances(b, x);
                lemma_scan_forward_bounds(b, next_pos(b, x), class);
            }
        }
    }
}

/// A token found at a character of its class ends after that character.
pub proof fn lemma_token_advances(b: Seq<u8>, o: int, class: CharClass)
    requires
        char_at_spec(b, o) matches Some(c) && in_class(class, c),
        token_span(b, o, class) is Some,
    ensures
        token_span(b, o, class).unwrap().1 > o,
        token_span(b, o, class).unwrap().1 <= b.len(),
{
    lemma_next_pos_advances(b, o);
    lemma_scan_forward_bounds(b, next_pos(b, o), class);
}

pub proof fn lemma_close_from_bounds(
    b: Seq<u8>,
    i: int,
    open: char,
    close: char,
    depth: int,
    in_comment: bool,
)
    ensures
        close_from(b, i, open, close, depth, in_comment) matches Some(e) ==> i <= e < b.len(),
    decreases b.len() - i,
{
    if let Some(c) = char_at_spec(b, i) {
        lemma_next_pos_advances(b, i);
        let n = next_pos(b, i);
        lemma_close_from_bounds(b, n, open, close, depth, c != '\n');
        lemma_close_from_bounds(b, n, open, close, depth, true);
        lemma_close_from_bounds(b, n, open, close, depth + 1, false);
        lemma_close_from_bounds(b, n, open, close, depth - 1, false);
        lemma_close_from_bounds(b, n, open, close, depth, false);
    }
}

/// The closing delimiter comes after the opening one.
pub proof fn lemma_matching_close_after(b: Seq<u8>, o: int)
    ensures
        matching_close(b, o) matches Some(e) ==> o < e < b.len(),
{
    if let Some(open) = char_at_spec(b, o) {
        if let Some(close) = close_for_spec(open) {
            lemma_next_pos_advances(b, o);
            lemma_close_from_bounds(b, next_pos(b, o), open, close, 1, false);
        }
    }
}

/// A variable of a Frobenius expression: its name, span, side and position
/// among the variables of that side.
#[derive(Debug)]
pub struct FrobeniusVariable {
    pub text: String,
    pub start: usize,
    pub end: usize,
    pub side: FrobeniusSide,
    pub index: usize,
}

/// A Frobenius expression `[sources . targets]` within a composition.
#[derive(Debug)]
pub struct FrobeniusElement {
    pub start: usize,
    pub end: usize,
    pub variables: Vec<FrobeniusVariable>,
}

/// The occurrence of a variable: its side and position on that side.
#[derive(Debug)]
pub struct FrobeniusOccurrence {
    pub side: FrobeniusSide,
    pub index: usize,
}

/// An operation name within a composition, and its offset.
#[derive(Debug)]
pub struct OperationElement {
    pub text: String,
    pub start: usize,
}

/// An element of a composition `( .. )` that hover information can use.
#[derive(Debug)]
pub enum CompositionElement {
    Frobenius(FrobeniusElement),
    Operation(OperationElement),
}

/// A variable occurrence as plain values: name, start, end, side, index.
pub type VariableView = (Seq<char>, usize, usize, FrobeniusSide, usize);

/// An element of a composition as plain values.
pub enum ElementView {
    Frobenius(usize, usize, Seq<VariableView>),
    Operation(Seq<char>, usize),
}

pub open spec fn variable_view(v: FrobeniusVariable) -> VariableView {
    (v.text@, v.start, v.end, v.side, v.index)
}

impl FrobeniusElement {
    /// The variables of the element as plain values.
    pub open spec fn variables_view(&self) -> Seq<VariableView> {
        self.variables@.map_values(|v: FrobeniusVariable| variable_view(v))
    }

    /// The element as plain values.
    pub open spec fn view_element(&self) -> ElementView {
        ElementView::Frobenius(self.start, self.end, self.variables_view())
    }
}

/// The element as plain values.
pub open spec fn element_view(e: CompositionElement) -> ElementView {
    match e {
        CompositionElement::Frobenius(f) => f.view_element(),
        CompositionElement::Operation(o) => ElementView::Operation(o.text@, o.start),
    }
}

/// `Some(prefix + rest)` when `rest` is `Some`.
pub open spec fn prepend<T>(prefix: Seq<T>, rest: Option<Seq<T>>) -> Option<Seq<T>> {
    match rest {
        None => None,
        Some(r) => Some(prefix + r),
    }
}

/// The variables of a Frobenius expression from byte `off` up to `end`; `si`
/// and `ti` count the source and target variables seen so far.
pub open spec fn frobenius_variables(
    b: Seq<u8>,
    off: int,
    end: int,
    side: FrobeniusSide,
    si: usize,
    ti: usize,
) -> Option<Seq<VariableView>>
    decreases b.len() - off,
{
    if off >= end {
        Some(Seq::empty())
    } else {
        let o = skip_ws_comments(b, off, end, false);
        if o >= end {
            Some(Seq::empty())
        } else {
            proof {
                lemma_skip_bounds(b, off, end, false);
            }
            match char_at_spec(b, o) {
                None => None,
                Some(ch) => {
                    proof {
                        lemma_next_pos_advances(b, o);
                    }
                    if ch == '.' {
                        frobenius_variables(b, o + 1, end, FrobeniusSide::Target, si, ti)
                    } else if is_variable_char_spec(ch) {
                        match token_span(b, o, CharClass::Variable) {
                            None => None,
                            Some(span) => {
                                proof {
                                    lemma_token_advances(b, o, CharClass::Variable);
                                }
                                let index = if side == FrobeniusSide::Source { si } else { ti };
                                let v: VariableView = (
                                    chars_between(b, span.0, span.1),
                                    span.0 as usize,
                                    span.1 as usize,
                                    side,
                                    index,
                                );
                                let si2 = if side == FrobeniusSide::Source { (si + 1) as usize } else { si };
                                let ti2 = if side == FrobeniusSide::Target { (ti + 1) as usize } else { ti };
                                prepend(seq![v], frobenius_variables(b, span.1, end, side, si2, ti2))
                            },
                        }
                    } else {
                        frobenius_variables(b, next_pos(b, o), end, side, si, ti)
                    }
                },
            }
        }
    }
}

/// Parses the Frobenius expression between the `[` at `start` and the `]` at
/// `end`.
fn parse_frobenius_element(text: &str, start: usize, end: usize) -> (r: Option<FrobeniusElement>)
    requires
        start < text.spec_bytes().len(),
        end <= text.spec_bytes().len(),
    ensures
        r matches Some(f) ==> f.start == start && f.end == end && frobenius_variables(
            text.spec_bytes(),
            start + 1,
            end as int,
            FrobeniusSide::Source,
            0,
            0,
        ) == Some(f.variables_view()),
        r is None ==> frobenius_variables(text.spec_bytes(), start + 1, end as int, FrobeniusSide::Source, 0, 0) is None,
{
    let ghost b = text.spec_bytes();
    proof {
        lemma_text_valid(text);
    }
    let n = text_len(text);
    let mut variables: Vec<FrobeniusVariable> = Vec::new();
    let mut side = FrobeniusSide::Source;
    let mut source_index: usize = 0;
    let mut target_index: usize = 0;
    let mut offset = start + 1;
    let ghost whole = frobenius_variables(b, start + 1, end as int, FrobeniusSide::Source, 0, 0);
    assert(variables@.map_values(|v: FrobeniusVariable| variable_view(v)) =~= Seq::<VariableView>::empty());
    while offset < end
        invariant
            b == text.spec_bytes(),
            valid_utf8_text(b),
            end <= b.len(),
            offset <= b.len(),
            whole == frobenius_variables(b, start + 1, end as int, FrobeniusSide::Source, 0, 0),
            source_index + target_index == variables.len(),
            variables.len() <= offset,
            whole == prepend(variables@.map_values(|v: FrobeniusVariable| variable_view(v)),
                frobenius_variables(b, offset as int, end as int, side, source_index, target_index)),
        decreases b.len() - offset,
    {
        let o = skip_whitespace_and_comments(text, offset, end);
        proof {
            lemma_skip_bounds(b, offset as int, end as int, false);
        }
        if o >= end {
            proof {
                assert(variables@.map_values(|v: FrobeniusVariable| variable_view(v)) + Seq::<VariableView>::empty()
                    =~= variables@.map_values(|v: FrobeniusVariable| variable_view(v)));
            }
            offset = o;
        } else {
        let ch = match char_at(text, o) {
            None => return None,
            Some(c) => c,
        };
        proof {
            lemma_next_pos_advances(b, o as int);
        }
        if ch == '.' {
            side = FrobeniusSide::Target;
            offset = o + 1;
        } else if is_variable_char(ch) {
            let token = match token_at(text, o, CharClass::Variable) {
                None => return None,
                Some(t) => t,
            };
            proof {
                lemma_token_advances(b, o as int, CharClass::Variable);
            }
            let index = match side {
                FrobeniusSide::Source => {
                    let i = source_index;
                    source_index = source_index + 1;
                    i
                },
                FrobeniusSide::Target => {
                    let i = target_index;
                    target_index = target_index + 1;
                    i
                },
            };
            let ghost before = variables@.map_values(|v: FrobeniusVariable| variable_view(v));
            let new_offset = token.end;
            let var = FrobeniusVariable {
                text: token.text,
                start: token.start,
                end: token.end,
                side,
                index,
            };
            let ghost vv = variable_view(var);
            variables.push(var);
            proof {
                assert(variables@.map_values(|v: FrobeniusVariable| variable_view(v)) =~= before + seq![vv]);
                assert(before + (seq![vv] + frobenius_variables(b, new_offset as int, end as int, side, source_index, target_index)->0)
                    =~= (before + seq![vv]) + frobenius_variables(b, new_offset as int, end as int, side, source_index, target_index)->0);
            }
            offset = new_offset;
        } else {
            offset = step(text, o, ch);
        }
        }
    }
    proof {
        if offset >= end {
            assert(frobenius_variables(b, offset as int, end as int, side, source_index, target_index) == Some(Seq::<VariableView>::empty()));
            assert(variables@.map_values(|v: FrobeniusVariable| variable_view(v)) + Seq::<VariableView>::empty()
                =~= variables@.map_values(|v: FrobeniusVariable| variable_view(v)));
        }
    }
    Some(FrobeniusElement { start, end, variables })
}


/// The elements of a composition from byte `off` up to `end`: Frobenius
/// expressions and operation names, skipping nested compositions and
/// braces; `None` when a delimiter is left open or a token cannot be read.
#[verifier::opaque]
pub open spec fn composition_elements(b: Seq<u8>, off: int, end: int) -> Option<Seq<ElementView>>
    decreases b.len() - off,
{
    if off >= end {
        Some(Seq::empty())
    } else {
        let o = skip_ws_comments(b, off, end, false);
        if o >= end {
            Some(Seq::empty())
        } else {
            proof {
                lemma_skip_bounds(b, off, end, false);
            }
            match char_at_spec(b, o) {
                None => None,
                Some(ch) => {
                    proof {
                        lemma_next_pos_advances(b, o);
                        lemma_matching_close_after(b, o);
                    }
                    if ch == '[' {
                        match matching_close(b, o) {
                            None => None,
                            Some(e) => match frobenius_variables(b, o + 1, e, FrobeniusSide::Source, 0, 0) {
                                None => None,
                                Some(vs) => prepend(
                                    seq![ElementView::Frobenius(o as usize, e as usize, vs)],
                                    composition_elements(b, e + 1, end),
                                ),
                            },
                        }
                    } else if ch == '(' || ch == '{' {
                        match matching_close(b, o) {
                            None => None,
                            Some(e) => composition_elements(b, e + 1, end),
                        }
                    } else if is_operation_char_spec(ch) {
                        match token_span(b, o, CharClass::Operation) {
                            None => None,
                            Some(span) => {
                                proof {
                                    lemma_token_advances(b, o, CharClass::Operation);
                                }
                                prepend(
                                    seq![ElementView::Operation(chars_between(b, span.0, span.1), span.0 as usize)],
                                    composition_elements(b, span.1, end),
                                )
                            },
                        }
                    } else {
                        composition_elements(b, next_pos(b, o), end)
                    }
                },
            }
        }
    }
}

/// The elements of the composition whose `(` is at `expression_start` and
/// whose `)` is at `expression_end`, in order.
pub fn scan_composition_elements(text: &str, expression_start: usize, expression_end: usize) -> (r: Option<
    Vec<CompositionElement>,
>)
    requires
        expression_start < usize::MAX,
    ensures
        r matches Some(v) ==> composition_elements(
            text.spec_bytes(),
            expression_start + 1,
            expression_end as int,
        ) == Some(v@.map_values(|e: CompositionElement| element_view(e))),
        r is None ==> composition_elements(text.spec_bytes(), expression_start + 1, expression_end as int) is None,
{
    let ghost b = text.spec_bytes();
    proof {
        lemma_text_valid(text);
    }
    let n = text_len(text);
    let mut elements: Vec<CompositionElement> = Vec::new();
    let mut offset = expression_start + 1;
    let end = expression_end;
    let ghost whole = composition_elements(b, expression_start + 1, end as int);
    assert(elements@.map_values(|e: CompositionElement| element_view(e)) =~= Seq::<ElementView>::empty());
    while offset < end
        invariant
            b == text.spec_bytes(),
            valid_utf8_text(b),
            n == b.len(),
            end == expression_end,
            whole == composition_elements(b, expression_start + 1, end as int),
            whole == prepend(
                elements@.map_values(|e: CompositionElement| element_view(e)),
                composition_elements(b, offset as int, end as int),
            ),
        decreases usize::MAX - offset,
    {
        let ghost before = elements@.map_values(|e: CompositionElement| element_view(e));
        let o = skip_whitespace_and_comments(text, offset, end);
        if o >= end {
            assert(composition_elements(b, offset as int, end as int) == Some(Seq::<ElementView>::empty())) by {
                reveal(composition_elements);
            }
            assert(before + Seq::<ElementView>::empty() =~= before);
            assert(composition_elements(b, o as int, end as int) == Some(Seq::<ElementView>::empty())) by {
                reveal(composition_elements);
            }
            offset = o;
        } else {
            let ch = match char_at(text, o) {
                None => {
                    assert(composition_elements(b, offset as int, end as int) is None) by {
                        reveal(composition_elements);
                    }
                    return None;
                },
                Some(c) => c,
            };
            proof {
                lemma_skip_bounds(b, offset as int, end as int, false);
                lemma_next_pos_advances(b, o as int);
                lemma_matching_close_after(b, o as int);
            }
            if ch == '[' {
                let close = match matching_close_offset(text, o) {
                    None => {
                        assert(composition_elements(b, offset as int, end as int) is None) by {
                            reveal(composition_elements);
                        }
                        return None;
                    },
                    Some(e) => e,
                };
                let frob = match parse_frobenius_element(text, o, close) {
                    None => {
                        assert(composition_elements(b, offset as int, end as int) is None) by {
                            reveal(composition_elements);
                        }
                        return None;
                    },
                    Some(f) => f,
                };
                let ghost fv = frob.view_element();
                assert(composition_elements(b, offset as int, end as int) == prepend(
                    seq![fv],
                    composition_elements(b, close + 1, end as int),
                )) by {
                    reveal(composition_elements);
                }
                let elem = CompositionElement::Frobenius(frob);
                elements.push(elem);
                proof {
                    let rest = composition_elements(b, close + 1, end as int);
                    assert(elements@.map_values(|e: CompositionElement| element_view(e)) =~= before + seq![fv]);
                    if rest is Some {
                        assert(before + (seq![fv] + rest->0) =~= (before + seq![fv]) + rest->0);
                    }
                }
                offset = close + 1;
            } else if ch == '(' || ch == '{' {
                let close = match matching_close_offset(text, o) {
                    None => {
                        assert(composition_elements(b, offset as int, end as int) is None) by {
                            reveal(composition_elements);
                        }
                        return None;
                    },
                    Some(e) => e,
                };
                assert(composition_elements(b, offset as int, end as int)
                    == composition_elements(b, close + 1, end as int)) by {
                    reveal(composition_elements);
                }
                offset = close + 1;
            } else if is_operation_char(ch) {
                let token = match token_at(text, o, CharClass::Operation) {
                    None => {
                        assert(composition_elements(b, offset as int, end as int) is None) by {
                            reveal(composition_elements);
                        }
                        return None;
                    },
                    Some(t) => t,
                };
                proof {
                    lemma_token_advances(b, o as int, CharClass::Operation);
                }
                let new_offset = token.end;
                let elem = CompositionElement::Operation(OperationElement { text: token.text, start: token.start });
                let ghost ev = element_view(elem);
                assert(composition_elements(b, offset as int, end as int) == prepend(
                    seq![ev],
                    composition_elements(b, new_offset as int, end as int),
                )) by {
                    reveal(composition_elements);
                }
                elements.push(elem);
                proof {
                    let rest = composition_elements(b, new_offset as int, end as int);
                    assert(elements@.map_values(|e: CompositionElement| element_view(e)) =~= before + seq![ev]);
                    if rest is Some {
                        assert(before + (seq![ev] + rest->0) =~= (before + seq![ev]) + rest->0);
                    }
                }
                offset = new_offset;
            } else {
                let next = step(text, o, ch);
                assert(composition_elements(b, offset as int, end as int)
                    == composition_elements(b, next as int, end as int)) by {
                    reveal(composition_elements);
                }
                offset = next;
            }
        }
    }
    assert(composition_elements(b, offset as int, end as int) == Some(Seq::<ElementView>::empty())) by {
        reveal(composition_elements);
    }
    assert(elements@.map_values(|e: CompositionElement| element_view(e)) + Seq::<ElementView>::empty()
        =~= elements@.map_values(|e: CompositionElement| element_view(e)));
    Some(elements)
}


/// The span of the innermost composition `( .. )` open before `offset`: its
/// opening and closing offsets.
pub open spec fn composition_span(b: Seq<u8>, offset: int) -> Option<(int, int)> {
    let stack = delimiter_stack(b, 0, offset, Seq::empty(), false);
    match last_index_of_opener(stack, '(') {
        None => None,
        Some(k) => match matching_close(b, stack[k].offset as int) {
            None => None,
            Some(e) => Some((stack[k].offset as int, e)),
        },
    }
}

/// The composition `( .. )` that encloses `offset`, if it is closed.
pub fn composition_around(text: &str, offset: usize) -> (r: Option<ExpressionSpan>)
    ensures
        r matches Some(span) ==> composition_span(text.spec_bytes(), offset as int) == Some(
            (span.start as int, span.end as int),
        ),
        r is None ==> composition_span(text.spec_bytes(), offset as int) is None,
{
    let stack = delimiter_stack_at(text, offset);
    let k = match rposition_of_opener(&stack, '(') {
        None => return None,
        Some(k) => k,
    };
    let start = stack[k].offset;
    let end = match matching_close_offset(text, start) {
        None => return None,
        Some(e) => e,
    };
    Some(ExpressionSpan { start, end })
}

/// The side and index of the first variable named `name` whose span holds
/// `offset`.
pub open spec fn first_occurrence(vs: Seq<VariableView>, offset: int, name: Seq<char>) -> Option<
    (FrobeniusSide, usize),
>
    decreases vs.len(),
{
    if vs.len() == 0 {
        None
    } else if vs[0].0 == name && vs[0].1 <= offset < vs[0].2 {
        Some((vs[0].3, vs[0].4))
    } else {
        first_occurrence(vs.drop_first(), offset, name)
    }
}

impl FrobeniusElement {
    /// The side and index of the variable named `text` whose span holds
    /// `offset`.
    pub fn variable_occurrence(&self, offset: usize, text: &str) -> (r: Option<FrobeniusOccurrence>)
        ensures
            r matches Some(occ) ==> first_occurrence(self.variables_view(), offset as int, text@) == Some(
                (occ.side, occ.index),
            ),
            r is None ==> first_occurrence(self.variables_view(), offset as int, text@) is None,
    {
        let mut i: usize = 0;
        let ghost vs = self.variables_view();
        assert(vs.skip(0) =~= vs);
        while i < self.variables.len()
            invariant
                i <= self.variables.len(),
                vs == self.variables_view(),
                vs.len() == self.variables.len(),
                first_occurrence(vs, offset as int, text@) == first_occurrence(vs.skip(i as int), offset as int, text@),
            decreases self.variables.len() - i,
        {
            let variable = &self.variables[i];
            assert(vs[i as int] == variable_view(*variable));
            assert(vs.skip(i as int)[0] == vs[i as int]);
            assert(vs.skip(i as int).drop_first() =~= vs.skip(i + 1));
            if text_eq(variable.text.as_str(), text) && offset >= variable.start && offset < variable.end {
                return Some(FrobeniusOccurrence { side: variable.side, index: variable.index });
            }
            i = i + 1;
        }
        None
    }
}


/// A position in a text as an editor counts it: a zero-based line and a
/// zero-based column in UTF-16 code units.
#[derive(Clone, Copy, Debug, PartialEq, Eq, Structural)]
pub struct Position {
    pub line: u32,
    pub character: u32,
}

/// The line and column reached when scanning from byte `cur` (at line `line`,
/// column `col`) up to byte `offset`; a newline starts a new line.
pub open spec fn position_scan(b: Seq<u8>, cur: int, offset: int, line: int, col: int) -> (int, int)
    decreases b.len() - cur,
{
    if cur >= offset {
        (line, col)
    } else {
        match char_at_spec(b, cur) {
            None => (line, col),
            Some(c) => {
                proof {
                    lemma_next_pos_advances(b, cur);
                }
                if c == '\n' {
                    position_scan(b, next_pos(b, cur), offset, line + 1, 0)
                } else {
                    position_scan(b, next_pos(b, cur), offset, line, col + utf16_width(c))
                }
            },
        }
    }
}

/// The first byte offset, scanning from `cur` (at line `line`, column
/// `col`), whose position is line `pl`, column `pc`; the end of the text
/// counts too.
pub open spec fn offset_scan(b: Seq<u8>, cur: int, pl: int, pc: int, line: int, col: int) -> Option<int>
    decreases b.len() - cur,
{
    if cur >= b.len() {
        if line == pl && col == pc {
            Some(b.len() as int)
        } else {
            None
        }
    } else if line == pl && col == pc {
        Some(cur)
    } else {
        match char_at_spec(b, cur) {
            None => None,
            Some(c) => {
                proof {
                    lemma_next_pos_advances(b, cur);
                }
                if c == '\n' {
                    offset_scan(b, next_pos(b, cur), pl, pc, line + 1, 0)
                } else {
                    offset_scan(b, next_pos(b, cur), pl, pc, line, col + utf16_width(c))
                }
            },
        }
    }
}

/// The position of byte `offset`; an offset inside a character counts as
/// the start of the next one.
pub fn position_at_offset(text: &str, offset: usize) -> (r: Position)
    requires
        text.spec_bytes().len() <= u32::MAX,
    ensures
        (r.line as int, r.character as int) == position_scan(text.spec_bytes(), 0, offset as int, 0, 0),
{
    let ghost b = text.spec_bytes();
    proof {
        lemma_text_valid(text);
    }
    let n = text_len(text);
    let mut pos: usize = 0;
    let mut line: u32 = 0;
    let mut character: u32 = 0;
    while pos < n && pos < offset
        invariant
            b == text.spec_bytes(),
            valid_utf8_text(b),
            n == b.len(),
            n <= u32::MAX,
            pos <= n,
            is_char_boundary(b, pos as int),
            line + character <= pos,
            position_scan(b, 0, offset as int, 0, 0) == position_scan(
                b,
                pos as int,
                offset as int,
                line as int,
                character as int,
            ),
        decreases n - pos,
    {
        let ch = match char_at(text, pos) {
            Some(c) => c,
            None => {
                assert(false);
                return Position { line, character };
            },
        };
        let next = step(text, pos, ch);
        if ch == '\n' {
            line = line + 1;
            character = 0;
        } else {
            character = character + char_len_utf16(ch);
        }
        pos = next;
    }
    Position { line, character }
}

/// The byte offset of `position`, if the text has such a position.
pub fn offset_at_position(text: &str, position: Position) -> (r: Option<usize>)
    requires
        text.spec_bytes().len() <= u32::MAX,
    ensures
        r matches Some(o) ==> offset_scan(
            text.spec_bytes(),
            0,
            position.line as int,
            position.character as int,
            0,
            0,
        ) == Some(o as int),
        r is None ==> offset_scan(
            text.spec_bytes(),
            0,
            position.line as int,
            position.character as int,
            0,
            0,
        ) is None,
{
    let ghost b = text.spec_bytes();
    let ghost pl = position.line as int;
    let ghost pc = position.character as int;
    proof {
        lemma_text_valid(text);
    }
    let n = text_len(text);
    let mut pos: usize = 0;
    let mut line: u32 = 0;
    let mut character: u32 = 0;
    while pos < n
        invariant
            b == text.spec_bytes(),
            valid_utf8_text(b),
            n == b.len(),
            n <= u32::MAX,
            pos <= n,
            pl == position.line,
            pc == position.character,
            is_char_boundary(b, pos as int),
            line + character <= pos,
            offset_scan(b, 0, pl, pc, 0, 0) == offset_scan(b, pos as int, pl, pc, line as int, character as int),
        decreases n - pos,
    {
        if line == position.line && character == position.character {
            return Some(pos);
        }
        let ch = match char_at(text, pos) {
            Some(c) => c,
            None => {
                assert(false);
                return None;
            },
        };
        let next = step(text, pos, ch);
        if ch == '\n' {
            line = line + 1;
            character = 0;
        } else {
            character = character + char_len_utf16(ch);
        }
        pos = next;
    }
    if line == position.line && character == position.character {
        Some(n)
    } else {
        None
    }
}


/// Scanning never moves a position backwards, and a step over a character
/// moves it strictly forwards, in the order of lines and then columns.
proof fn lemma_position_scan_advances(b: Seq<u8>, cur: int, offset: int, line: int, col: int)
    requires
        col >= 0,
    ensures
        ({
            let p = position_scan(b, cur, offset, line, col);
            &&& p.0 > line || (p.0 == line && p.1 >= col)
            &&& (cur < offset && char_at_spec(b, cur) is Some) ==> (p.0 > line || (p.0 == line && p.1 > col))
        }),
    decreases b.len() - cur,
{
    if cur < offset {
        if let Some(c) = char_at_spec(b, cur) {
            lemma_next_pos_advances(b, cur);
            if c == '\n' {
                lemma_position_scan_advances(b, next_pos(b, cur), offset, line + 1, 0);
            } else {
                lemma_position_scan_advances(b, next_pos(b, cur), offset, line, col + utf16_width(c));
            }
        }
    }
}

proof fn lemma_offset_of_position_from(b: Seq<u8>, cur: int, offset: int, line: int, col: int)
    requires
        valid_utf8(b),
        0 <= cur <= offset <= b.len(),
        is_char_boundary(b, cur),
        is_char_boundary(b, offset),
        col >= 0,
    ensures
        ({
            let p = position_scan(b, cur, offset, line, col);
            offset_scan(b, cur, p.0, p.1, line, col) == Some(offset)
        }),
    decreases b.len() - cur,
{
    if cur < offset {
        assert(char_at_spec(b, cur) is Some);
        let c = char_at_spec(b, cur)->0;
        lemma_char_step(b, cur);
        lemma_next_pos_advances(b, cur);
        lemma_position_scan_advances(b, cur, offset, line, col);
        let n = next_pos(b, cur);
        assert(n <= offset) by {
            if n > offset {
                assert(cur < offset < cur + char_width(c));
            }
        }
        if c == '\n' {
            lemma_offset_of_position_from(b, n, offset, line + 1, 0);
        } else {
            lemma_offset_of_position_from(b, n, offset, line, col + utf16_width(c));
        }
    }
}

/// The offset of the position of a character boundary is that boundary:
/// `offset_at_position` undoes `position_at_offset` wherever an offset
/// starts a character or ends the text.
pub proof fn lemma_offset_of_position(text: &str, offset: int)
    requires
        0 <= offset <= text.spec_bytes().len(),
        is_char_boundary(text.spec_bytes(), offset),
    ensures
        ({
            let p = position_scan(text.spec_bytes(), 0, offset, 0, 0);
            offset_scan(text.spec_bytes(), 0, p.0, p.1, 0, 0) == Some(offset)
        }),
{
    lemma_text_valid(text);
    lemma_offset_of_position_from(text.spec_bytes(), 0, offset, 0, 0);
}


proof fn lemma_scan_forward_boundary(b: Seq<u8>, x: int, class: CharClass)
    requires
        valid_utf8_text(b),
        0 <= x <= b.len(),
        is_char_boundary(b, x),
    ensures
        is_char_boundary(b, scan_forward(b, x, class)),
        x <= scan_forward(b, x, class) <= b.len(),
    decreases b.len() - x,
{
    if x < b.len() {
        if let Some(c) = char_at_spec(b, x) {
            if in_class(class, c) {
                lemma_char_step(b, x);
                lemma_next_pos_advances(b, x);
                lemma_scan_forward_boundary(b, next_pos(b, x), class);
            }
        }
    }
}

proof fn lemma_scan_back_boundary(b: Seq<u8>, start: int, class: CharClass)
    requires
        valid_utf8_text(b),
        0 <= start <= b.len(),
    ensures
        scan_back(b, start, class) matches Some(s) ==> 0 <= s <= start && is_char_boundary(b, s),
    decreases start,
{
    if start > 0 {
        if let Some(p) = previous_char_spec(b, start) {
            if in_class(class, p.1) {
                lemma_prev_boundary(b, start);
                lemma_scan_back_boundary(b, p.0 as int, class);
            }
        }
    }
}

/// A token starts and ends at character boundaries, in that order.
pub proof fn lemma_token_boundaries(b: Seq<u8>, offset: int, class: CharClass)
    requires
        valid_utf8_text(b),
        0 <= offset,
        token_span(b, offset, class) is Some,
    ensures
        0 <= token_span(b, offset, class).unwrap().0 <= token_span(b, offset, class).unwrap().1 <= b.len(),
        is_char_boundary(b, token_span(b, offset, class).unwrap().0),
        is_char_boundary(b, token_span(b, offset, class).unwrap().1),
        offset <= b.len() ==> token_span(b, offset, class).unwrap().1 >= offset,
{
    let s0 = if offset < b.len() { offset } else { b.len() as int };
    lemma_scan_back_boundary(b, s0, class);
    let e1 = if s0 < b.len() && !is_char_boundary(b, s0) {
        next_boundary_from(b, s0 + 1)
    } else {
        s0
    };
    if s0 < b.len() && !is_char_boundary(b, s0) {
        lemma_next_boundary_from(b, s0 + 1);
    }
    lemma_scan_forward_boundary(b, e1, class);
}


proof fn lemma_close_from_char(b: Seq<u8>, i: int, open: char, close: char, depth: int, in_comment: bool)
    ensures
        close_from(b, i, open, close, depth, in_comment) matches Some(e) ==> char_at_spec(b, e) == Some(close),
    decreases b.len() - i,
{
    if let Some(c) = char_at_spec(b, i) {
        lemma_next_pos_advances(b, i);
        let n = next_pos(b, i);
        lemma_close_from_char(b, n, open, close, depth, c != '\n');
        lemma_close_from_char(b, n, open, close, depth, true);
        lemma_close_from_char(b, n, open, close, depth + 1, false);
        lemma_close_from_char(b, n, open, close, depth - 1, false);
        lemma_close_from_char(b, n, open, close, depth, false);
    }
}

/// A closing delimiter sits at a character of the text.
pub proof fn lemma_matching_close_char(b: Seq<u8>, o: int)
    ensures
        matching_close(b, o) matches Some(e) ==> (0 <= e < b.len() && is_char_boundary(b, e) && (char_at_spec(b, e)
            matches Some(c) && (c == ')' || c == ']' || c == '}'))),
{
    if let Some(open) = char_at_spec(b, o) {
        if let Some(close) = close_for_spec(open) {
            lemma_close_from_char(b, o, open, close, 0, false);
        }
    }
}

} // verus!
