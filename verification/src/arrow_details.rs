//! Arrow declarations found in `.hex` text, and the details of an arrow
//! shown to the user: its kind, name, profile and metavariables.
use vstd::prelude::*;
use vstd::utf8::is_char_boundary;
use vstd::string::StringSliceAdditionalSpecFns;
use crate::analysis::ArrowSpanLabel;
use crate::text::{decimal, push_char, push_str, usize_to_decimal};
use crate::tree::{comma_joined, join_comma, views};
use crate::syntax::{OpenDelimiter, delimiter_stack, delimiter_stack_at, CharClass, scan_forward, lemma_scan_forward_bounds, Token, chars_between, collect_chars, is_operation_char, is_operation_char_spec, is_variable_char, is_variable_char_spec, lemma_matching_close_after, lemma_matching_close_char, lemma_skip_bounds, lemma_token_advances, matching_close, matching_close_offset, skip_whitespace_and_comments, skip_ws_comments, token_at, token_span, valid_utf8_text};
use crate::text::{char_at, char_at_spec, char_width, lemma_char_step, lemma_next_pos_advances, lemma_text_valid, next_pos, step, text_eq, text_len};

verus! {

/// The tokens of a part of the text as their spans.
pub open spec fn token_spans(ts: Seq<Token>) -> Seq<(int, int)> {
    ts.map_values(|t: Token| (t.start as int, t.end as int))
}

/// The operation tokens at the top level of the text from `off` to `end`:
/// bracketed groups are skipped whole (or just their bracket when they are
/// not closed), as are whitespace and comments.
pub open spec fn tokens_from(b: Seq<u8>, off: int, end: int) -> Seq<(int, int)>
    decreases b.len() + 1 - off,
{
    if off >= end || off < 0 {
        Seq::empty()
    } else {
        let o = skip_ws_comments(b, off, end, false);
        if o >= end {
            Seq::empty()
        } else {
            proof {
                lemma_skip_bounds(b, off, end, false);
            }
            match char_at_spec(b, o) {
                None => Seq::empty(),
                Some(ch) => {
                    proof {
                        lemma_next_pos_advances(b, o);
                        lemma_matching_close_after(b, o);
                    }
                    if ch == '(' || ch == '{' || ch == '[' {
                        match matching_close(b, o) {
                            None => tokens_from(b, next_pos(b, o), end),
                            Some(e) => tokens_from(b, e + 1, end),
                        }
                    } else if is_operation_char_spec(ch) {
                        match token_span(b, o, CharClass::Operation) {
                            None => tokens_from(b, next_pos(b, o), end),
                            Some(sp) => {
                                proof {
                                    lemma_token_advances(b, o, CharClass::Operation);
                                }
                                seq![sp] + tokens_from(b, sp.1, end)
                            },
                        }
                    } else {
                        tokens_from(b, next_pos(b, o), end)
                    }
                },
            }
        }
    }
}

/// The operation tokens at the top level of `text` between `start` and
/// `end`, in order.
pub fn top_level_tokens(text: &str, start: usize, end: usize) -> (r: Vec<Token>)
    ensures
        token_spans(r@) == tokens_from(text.spec_bytes(), start as int, end as int),
        forall|i: int| 0 <= i < r.len() ==> #[trigger] r@[i].text@ == chars_between(
            text.spec_bytes(),
            r@[i].start as int,
            r@[i].end as int,
        ),
{
    let ghost b = text.spec_bytes();
    proof {
        lemma_text_valid(text);
    }
    let n = text_len(text);
    let mut tokens: Vec<Token> = Vec::new();
    let mut offset = start;
    assert(token_spans(tokens@) + tokens_from(b, start as int, end as int) =~= tokens_from(b, start as int, end as int));
    while offset < end
        invariant
            b == text.spec_bytes(),
            valid_utf8_text(b),
            n == b.len(),
            start <= offset,
            token_spans(tokens@) + tokens_from(b, offset as int, end as int) == tokens_from(b, start as int, end as int),
            forall|i: int| 0 <= i < tokens.len() ==> #[trigger] tokens@[i].text@ == chars_between(
                b,
                tokens@[i].start as int,
                tokens@[i].end as int,
            ),
        decreases usize::MAX - offset,
    {
        let ghost before = token_spans(tokens@);
        let o = skip_whitespace_and_comments(text, offset, end);
        if o >= end {
            assert(tokens_from(b, offset as int, end as int) =~= Seq::<(int, int)>::empty());
            assert(before + Seq::<(int, int)>::empty() =~= before);
            offset = o;
        } else {
            proof {
                lemma_skip_bounds(b, offset as int, end as int, false);
            }
            let ch = match char_at(text, o) {
                None => {
                    assert(tokens_from(b, offset as int, end as int) =~= Seq::<(int, int)>::empty());
                    assert(before + Seq::<(int, int)>::empty() =~= before);
                    return tokens;
                },
                Some(c) => c,
            };
            proof {
                lemma_next_pos_advances(b, o as int);
                lemma_matching_close_after(b, o as int);
            }
            if ch == '(' || ch == '{' || ch == '[' {
                match matching_close_offset(text, o) {
                    None => {
                        offset = step(text, o, ch);
                    },
                    Some(e) => {
                        offset = e + 1;
                    },
                }
            } else if is_operation_char(ch) {
                match token_at(text, o, CharClass::Operation) {
                    None => {
                        offset = step(text, o, ch);
                    },
                    Some(token) => {
                        proof {
                            lemma_token_advances(b, o as int, CharClass::Operation);
                        }
                        let next = token.end;
                        let ghost sp = (token.start as int, token.end as int);
                        tokens.push(token);
                        proof {
                            assert(token_spans(tokens@) =~= before.push(sp));
                            assert(before + (seq![sp] + tokens_from(b, next as int, end as int)) =~= before.push(sp)
                                + tokens_from(b, next as int, end as int));
                        }
                        offset = next;
                    },
                }
            } else {
                offset = step(text, o, ch);
            }
        }
    }
    assert(tokens_from(b, offset as int, end as int) =~= Seq::<(int, int)>::empty());
    assert(token_spans(tokens@) + Seq::<(int, int)>::empty() =~= token_spans(tokens@));
    tokens
}


/// The names in `acc` followed by `v` unless it is already there.
pub open spec fn add_new(acc: Seq<Seq<char>>, v: Seq<char>) -> Seq<Seq<char>> {
    if acc.contains(v) {
        acc
    } else {
        acc.push(v)
    }
}

/// The distinct variable names on the source side of a Frobenius
/// expression, from `off` up to the `.` or `end`, added to `acc`.
pub open spec fn frobenius_sources(b: Seq<u8>, off: int, end: int, acc: Seq<Seq<char>>) -> Seq<Seq<char>>
    decreases b.len() - off,
{
    if off >= end {
        acc
    } else {
        match char_at_spec(b, off) {
            None => acc,
            Some(ch) => {
                proof {
                    lemma_next_pos_advances(b, off);
                    lemma_scan_forward_bounds(b, next_pos(b, off), CharClass::Variable);
                }
                if ch == '.' {
                    acc
                } else if is_variable_char_spec(ch) {
                    let e = scan_forward(b, next_pos(b, off), CharClass::Variable);
                    frobenius_sources(b, e, end, add_new(acc, chars_between(b, off, e)))
                } else {
                    frobenius_sources(b, next_pos(b, off), end, acc)
                }
            },
        }
    }
}

/// The source variables of the Frobenius expression whose `[` is at
/// `start`.
pub open spec fn source_variables_spec(b: Seq<u8>, start: int) -> Option<Seq<Seq<char>>> {
    match matching_close(b, start) {
        None => None,
        Some(e) => Some(frobenius_sources(b, start + 1, e, Seq::empty())),
    }
}

/// The plain values of a list of strings.
pub open spec fn strings_view(v: Seq<String>) -> Seq<Seq<char>> {
    v.map_values(|s: String| s@)
}

/// Whether `v` holds a string equal to `s`.
fn contains_text(v: &Vec<String>, s: &String) -> (r: bool)
    ensures
        r == strings_view(v@).contains(s@),
{
    let mut i: usize = 0;
    while i < v.len()
        invariant
            i <= v.len(),
            forall|j: int| 0 <= j < i ==> strings_view(v@)[j] != s@,
        decreases v.len() - i,
    {
        if text_eq(v[i].as_str(), s.as_str()) {
            assert(strings_view(v@)[i as int] == s@);
            return true;
        }
        i = i + 1;
    }
    false
}

/// The distinct variables on the source side of the Frobenius expression
/// whose `[` is at `start`, in order.
pub fn source_variables_in_frobenius(text: &str, start: usize) -> (r: Option<Vec<String>>)
    ensures
        match r {
            Some(v) => source_variables_spec(text.spec_bytes(), start as int) == Some(strings_view(v@)),
            None => source_variables_spec(text.spec_bytes(), start as int) is None,
        },
{
    let ghost b = text.spec_bytes();
    proof {
        lemma_text_valid(text);
    }
    let n = text_len(text);
    let end = matching_close_offset(text, start)?;
    proof {
        lemma_matching_close_char(b, start as int);
        lemma_matching_close_after(b, start as int);
    }
    let mut variables: Vec<String> = Vec::new();
    assert(strings_view(variables@) =~= Seq::<Seq<char>>::empty());
    let mut offset = start + 1;
    let mut done = false;
    while offset < end && !done
        invariant
            b == text.spec_bytes(),
            valid_utf8_text(b),
            n == b.len(),
            end < n,
            frobenius_sources(b, start + 1, end as int, Seq::empty()) == frobenius_sources(
                b,
                offset as int,
                end as int,
                strings_view(variables@),
            ),
            done ==> frobenius_sources(b, offset as int, end as int, strings_view(variables@)) == strings_view(
                variables@,
            ),
        decreases n - offset, (if done { 0int } else { 1int }),
    {
        match char_at(text, offset) {
            None => {
                done = true;
            },
            Some(ch) => {
                proof {
                    lemma_char_step(b, offset as int);
                    lemma_next_pos_advances(b, offset as int);
                    lemma_scan_forward_bounds(b, next_pos(b, offset as int), CharClass::Variable);
                }
                if ch == '.' {
                    done = true;
                } else if is_variable_char(ch) {
                    let s = offset;
                    let mut pos = step(text, offset, ch);
                    let mut stop = false;
                    while pos < n && !stop
                        invariant
                            b == text.spec_bytes(),
                            valid_utf8_text(b),
                            n == b.len(),
                            s < pos <= n,
                            is_char_boundary(b, pos as int),
                            scan_forward(b, next_pos(b, s as int), CharClass::Variable) == scan_forward(
                                b,
                                pos as int,
                                CharClass::Variable,
                            ),
                            stop ==> scan_forward(b, pos as int, CharClass::Variable) == pos,
                        decreases n - pos, (if stop { 0int } else { 1int }),
                    {
                        match char_at(text, pos) {
                            None => {
                                stop = true;
                            },
                            Some(c) => {
                                if is_variable_char(c) {
                                    proof {
                                        lemma_char_step(b, pos as int);
                                    }
                                    pos = step(text, pos, c);
                                } else {
                                    stop = true;
                                }
                            },
                        }
                    }
                    let variable = collect_chars(text, s, pos);
                    let ghost before = strings_view(variables@);
                    if !contains_text(&variables, &variable) {
                        variables.push(variable);
                        assert(strings_view(variables@) =~= before.push(variable@));
                    }
                    offset = pos;
                } else {
                    offset = step(text, offset, ch);
                }
            },
        }
    }
    Some(variables)
}


/// The type variables that a type map begins with: the source variables of
/// its first Frobenius expression, looking into brackets before going past
/// them.
pub open spec fn leading_typevars(b: Seq<u8>) -> Seq<Seq<char>>
    decreases b.len(), 1int, 0int,
{
    typevars_from(b, 0)
}

/// `leading_typevars`, looking from byte `off` on.
pub open spec fn typevars_from(b: Seq<u8>, off: int) -> Seq<Seq<char>>
    decreases b.len(), 0int, b.len() - off,
{
    if off < 0 || off >= b.len() {
        Seq::empty()
    } else {
        match char_at_spec(b, off) {
            None => Seq::empty(),
            Some(ch) => {
                proof {
                    lemma_next_pos_advances(b, off);
                    lemma_matching_close_after(b, off);
                }
                if ch == '[' {
                    match source_variables_spec(b, off) {
                        Some(v) => v,
                        None => Seq::empty(),
                    }
                } else if ch == '(' || ch == '{' {
                    match matching_close(b, off) {
                        None => Seq::empty(),
                        Some(e) => {
                            let nested = leading_typevars(b.subrange(off + 1, e));
                            if nested.len() > 0 {
                                nested
                            } else {
                                typevars_from(b, e + 1)
                            }
                        },
                    }
                } else {
                    typevars_from(b, next_pos(b, off))
                }
            },
        }
    }
}

/// The type variables that the type map `text` begins with.
pub fn leading_typevars_in(text: &str) -> (r: Vec<String>)
    ensures
        strings_view(r@) == leading_typevars(text.spec_bytes()),
    decreases text.spec_bytes().len(),
{
    let ghost b = text.spec_bytes();
    proof {
        lemma_text_valid(text);
    }
    let n = text_len(text);
    let mut offset: usize = 0;
    while offset < n
        invariant
            b == text.spec_bytes(),
            valid_utf8_text(b),
            n == b.len(),
            offset <= n,
            is_char_boundary(b, offset as int),
            leading_typevars(b) == typevars_from(b, offset as int),
        decreases n - offset,
    {
        let ch = match char_at(text, offset) {
            None => {
                assert(false);
                return Vec::new();
            },
            Some(c) => c,
        };
        proof {
            lemma_char_step(b, offset as int);
            lemma_next_pos_advances(b, offset as int);
            lemma_matching_close_after(b, offset as int);
        }
        if ch == '[' {
            return match source_variables_in_frobenius(text, offset) {
                Some(v) => v,
                None => {
                    let v: Vec<String> = Vec::new();
                    assert(strings_view(v@) =~= Seq::<Seq<char>>::empty());
                    v
                },
            };
        } else if ch == '(' || ch == '{' {
            let end = match matching_close_offset(text, offset) {
                None => {
                    let v: Vec<String> = Vec::new();
                    assert(strings_view(v@) =~= Seq::<Seq<char>>::empty());
                    return v;
                },
                Some(e) => e,
            };
            proof {
                lemma_matching_close_char(b, offset as int);
                assert(char_width(ch) == 1);
                let c = char_at_spec(b, end as int).unwrap();
                lemma_char_step(b, end as int);
                assert(char_width(c) == 1);
                crate::text::lemma_boundary_in_prefix(b, end as int, offset + 1);
            }
            let (head, _) = text.split_at(end);
            assert(head.spec_bytes() =~= b.subrange(0, end as int));
            let (_, inner) = head.split_at(offset + 1);
            assert(inner.spec_bytes() =~= b.subrange(offset + 1, end as int));
            let nested = leading_typevars_in(inner);
            if nested.len() > 0 {
                return nested;
            }
            offset = end + 1;
        } else {
            offset = step(text, offset, ch);
        }
    }
    let v: Vec<String> = Vec::new();
    assert(strings_view(v@) =~= Seq::<Seq<char>>::empty());
    v
}


/// The text of the bytes `a .. e`, when they are a piece of the text
/// between character boundaries.
pub open spec fn substring_ok(b: Seq<u8>, a: int, e: int) -> bool {
    0 <= a <= e <= b.len() && is_char_boundary(b, a) && is_char_boundary(b, e)
}

/// The piece of `text` from byte `a` to byte `e`, as `str::get` gives it.
fn substring(text: &str, a: usize, e: usize) -> (r: Option<&str>)
    ensures
        match r {
            Some(s) => substring_ok(text.spec_bytes(), a as int, e as int) && s.spec_bytes() == text.spec_bytes().subrange(
                a as int,
                e as int,
            ),
            None => !substring_ok(text.spec_bytes(), a as int, e as int),
        },
{
    let ghost b = text.spec_bytes();
    proof {
        lemma_text_valid(text);
    }
    let n = text_len(text);
    if a > e || e > n || !text.is_char_boundary(a) || !text.is_char_boundary(e) {
        return None;
    }
    proof {
        crate::text::lemma_boundary_in_prefix(b, e as int, a as int);
    }
    let (head, _) = text.split_at(e);
    assert(head.spec_bytes() =~= b.subrange(0, e as int));
    let (_, piece) = head.split_at(a);
    assert(piece.spec_bytes() =~= b.subrange(a as int, e as int));
    Some(piece)
}

/// The first of the token spans whose text is `lit`.
pub open spec fn span_index(b: Seq<u8>, ts: Seq<(int, int)>, lit: Seq<char>) -> Option<int>
    decreases ts.len(),
{
    if ts.len() == 0 {
        None
    } else if chars_between(b, ts[0].0, ts[0].1) == lit {
        Some(0)
    } else {
        match span_index(b, ts.drop_first(), lit) {
            None => None,
            Some(i) => Some(i + 1),
        }
    }
}

/// The tokens' texts are the text of their spans.
pub open spec fn tokens_of_text(b: Seq<u8>, ts: Seq<Token>) -> bool {
    forall|i: int| 0 <= i < ts.len() ==> #[trigger] ts[i].text@ == chars_between(b, ts[i].start as int, ts[i].end as int)
}

/// The index of the first token with text `lit`.
fn position_of(tokens: &Vec<Token>, lit: &str, Ghost(b): Ghost<Seq<u8>>) -> (r: Option<usize>)
    requires
        tokens_of_text(b, tokens@),
    ensures
        match r {
            Some(i) => span_index(b, token_spans(tokens@), lit@) == Some(i as int) && i < tokens.len(),
            None => span_index(b, token_spans(tokens@), lit@) is None,
        },
{
    let ghost ts = token_spans(tokens@);
    let mut i: usize = 0;
    assert(ts.skip(0) =~= ts);
    while i < tokens.len()
        invariant
            i <= tokens.len(),
            ts == token_spans(tokens@),
            tokens_of_text(b, tokens@),
            span_index(b, ts, lit@) == match span_index(b, ts.skip(i as int), lit@) {
                None => None,
                Some(k) => Some(k + i),
            },
        decreases tokens.len() - i,
    {
        assert(ts.skip(i as int)[0] == ts[i as int]);
        assert(ts[i as int] == (tokens@[i as int].start as int, tokens@[i as int].end as int));
        assert(tokens@[i as int].text@ == chars_between(b, ts[i as int].0, ts[i as int].1));
        assert(ts.skip(i as int).drop_first() =~= ts.skip(i + 1));
        if text_eq(tokens[i].text.as_str(), lit) {
            return Some(i);
        }
        i = i + 1;
    }
    None
}

/// The theory of the `theory` declaration whose parenthesis is the last of
/// `stack`, going outwards, that encloses the declaration ending at `end`.
pub open spec fn enclosing_theory(b: Seq<u8>, stack: Seq<OpenDelimiter>, end: int) -> Option<Seq<char>>
    decreases stack.len(),
{
    if stack.len() == 0 {
        None
    } else {
        let d = stack.last();
        let here = if d.char == '(' {
            match matching_close(b, d.offset as int) {
                None => None,
                Some(te) => if te < end {
                    None
                } else {
                    let tt = tokens_from(b, d.offset + 1, te);
                    if tt.len() > 0 && chars_between(b, tt[0].0, tt[0].1) == "theory"@ && tt.len() > 1 {
                        Some(chars_between(b, tt[1].0, tt[1].1))
                    } else {
                        None
                    }
                },
            }
        } else {
            None
        };
        if here is Some {
            here
        } else {
            enclosing_theory(b, stack.drop_last(), end)
        }
    }
}

/// The theory that the declaration spanning `start .. end` belongs to: for
/// a top-level `def`, its first argument; otherwise the innermost enclosing
/// `theory` declaration.
pub open spec fn declaration_theory_spec(b: Seq<u8>, start: int, end: int, ts: Seq<(int, int)>, colon_index: int) -> Option<
    Seq<char>,
> {
    if ts.len() == 0 {
        None
    } else if chars_between(b, ts[0].0, ts[0].1) == "def"@ && colon_index >= 3 {
        if colon_index - 2 < ts.len() {
            Some(chars_between(b, ts[colon_index - 2].0, ts[colon_index - 2].1))
        } else {
            None
        }
    } else {
        enclosing_theory(b, delimiter_stack(b, 0, start, Seq::empty(), false), end)
    }
}

/// The theory that the declaration spanning `start .. end`, with top-level
/// tokens `tokens` and its `:` at `colon_index`, belongs to.
pub fn declaration_theory(text: &str, start: usize, end: usize, tokens: &Vec<Token>, colon_index: usize) -> (r:
    Option<String>)
    requires
        tokens_of_text(text.spec_bytes(), tokens@),
    ensures
        match r {
            Some(s) => declaration_theory_spec(
                text.spec_bytes(),
                start as int,
                end as int,
                token_spans(tokens@),
                colon_index as int,
            ) == Some(s@),
            None => declaration_theory_spec(
                text.spec_bytes(),
                start as int,
                end as int,
                token_spans(tokens@),
                colon_index as int,
            ) is None,
        },
{
    let ghost b = text.spec_bytes();
    proof {
        reveal_strlit("def");
        reveal_strlit("theory");
    }
    if tokens.len() == 0 {
        return None;
    }
    assert(token_spans(tokens@)[0] == (tokens@[0].start as int, tokens@[0].end as int));
    assert(tokens@[0].text@ == chars_between(b, tokens@[0].start as int, tokens@[0].end as int));
    if colon_index >= 3 && colon_index - 2 < tokens.len() {
        assert(token_spans(tokens@)[colon_index - 2] == (
            tokens@[colon_index - 2].start as int,
            tokens@[colon_index - 2].end as int,
        ));
        assert(tokens@[colon_index - 2].text@ == chars_between(
            b,
            tokens@[colon_index - 2].start as int,
            tokens@[colon_index - 2].end as int,
        ));
    }
    if text_eq(tokens[0].text.as_str(), "def") && colon_index >= 3 {
        if colon_index - 2 < tokens.len() {
            return Some(tokens[colon_index - 2].text.clone());
        }
        return None;
    }
    let n = text_len(text);
    let stack = delimiter_stack_at(text, start);
    let ghost full = stack@;
    let mut i = stack.len();
    assert(full.take(i as int) =~= full);
    while i > 0
        invariant
            i <= stack.len(),
            full == stack@,
            full == delimiter_stack(b, 0, start as int, Seq::empty(), false),
            tokens.len() > 0,
            !(chars_between(b, token_spans(tokens@)[0].0, token_spans(tokens@)[0].1) == "def"@ && colon_index >= 3),
            n == b.len(),
            b == text.spec_bytes(),
            enclosing_theory(b, full, end as int) == enclosing_theory(b, full.take(i as int), end as int),
        decreases i,
    {
        let d = stack[i - 1];
        let ghost pre = full.take(i as int);
        assert(pre.last() == d);
        assert(pre.drop_last() =~= full.take(i - 1));
        if d.char == '(' {
            match matching_close_offset(text, d.offset) {
                None => {},
                Some(te) => {
                    if te >= end {
                        proof {
                            lemma_matching_close_after(b, d.offset as int);
                            lemma_matching_close_char(b, d.offset as int);
                        }
                        let tt = top_level_tokens(text, d.offset + 1, te);
                        let ghost sp = token_spans(tt@);
                        assert(tt@.len() == sp.len());
                        if tt.len() > 1 {
                            assert(sp[0] == (tt@[0].start as int, tt@[0].end as int));
                            assert(sp[1] == (tt@[1].start as int, tt@[1].end as int));
                            assert(tt@[0].text@ == chars_between(b, sp[0].0, sp[0].1));
                            assert(tt@[1].text@ == chars_between(b, sp[1].0, sp[1].1));
                            if text_eq(tt[0].text.as_str(), "theory") {
                                return Some(tt[1].text.clone());
                            }
                        }
                    }
                },
            }
        }
        i = i - 1;
    }
    assert(full.take(0) =~= Seq::<OpenDelimiter>::empty());
    None
}


/// An arrow declaration `(arr name : source -> target)` or
/// `(def name : source -> target = body)` found in the text.
#[derive(Debug)]
pub struct ArrowDeclaration {
    pub start: usize,
    pub end: usize,
    pub declaration_kind: String,
    pub theory: String,
    pub name: Token,
    pub metavariables: Vec<String>,
    pub source_typevars: Vec<String>,
    pub target_typevars: Vec<String>,
}

/// An arrow declaration as plain values.
pub struct DeclarationV {
    pub start: int,
    pub end: int,
    pub kind: Seq<char>,
    pub theory: Seq<char>,
    pub name: (Seq<char>, int, int),
    pub metavariables: Seq<Seq<char>>,
    pub source_typevars: Seq<Seq<char>>,
    pub target_typevars: Seq<Seq<char>>,
}

/// The plain value of a declaration.
pub open spec fn declaration_view(d: ArrowDeclaration) -> DeclarationV {
    DeclarationV {
        start: d.start as int,
        end: d.end as int,
        kind: d.declaration_kind@,
        theory: d.theory@,
        name: (d.name.text@, d.name.start as int, d.name.end as int),
        metavariables: strings_view(d.metavariables@),
        source_typevars: strings_view(d.source_typevars@),
        target_typevars: strings_view(d.target_typevars@),
    }
}

/// The arrow declaration whose parentheses are at `start` and `end`: its
/// kind (`arr` or `def`) is its first top-level token, its name the token
/// before the first `:`, its source the text between that `:` and the
/// first `->`, and its target the text from there up to the first `=` or
/// the end. The metavariables are the leading type variables of the
/// source, or of the target when the source has none.
pub open spec fn parse_declaration_spec(b: Seq<u8>, start: int, end: int) -> Option<DeclarationV> {
    let sp = tokens_from(b, start + 1, end);
    if sp.len() == 0 {
        None
    } else if !(chars_between(b, sp[0].0, sp[0].1) == "arr"@ || chars_between(b, sp[0].0, sp[0].1) == "def"@) {
        None
    } else {
        match span_index(b, sp, ":"@) {
            None => None,
            Some(ci) => if ci < 2 {
                None
            } else {
                match declaration_theory_spec(b, start, end, sp, ci) {
                    None => None,
                    Some(th) => match span_index(b, sp, "->"@) {
                        None => None,
                        Some(ai) => {
                            let te = match span_index(b, sp, "="@) {
                                Some(ei) => sp[ei].0,
                                None => end,
                            };
                            if !substring_ok(b, sp[ci].1, sp[ai].0) || !substring_ok(b, sp[ai].1, te) {
                                None
                            } else {
                                let s = leading_typevars(b.subrange(sp[ci].1, sp[ai].0));
                                let t = leading_typevars(b.subrange(sp[ai].1, te));
                                Some(
                                    DeclarationV {
                                        start,
                                        end,
                                        kind: chars_between(b, sp[0].0, sp[0].1),
                                        theory: th,
                                        name: (
                                            chars_between(b, sp[ci - 1].0, sp[ci - 1].1),
                                            sp[ci - 1].0,
                                            sp[ci - 1].1,
                                        ),
                                        metavariables: if s.len() == 0 {
                                            t
                                        } else {
                                            s
                                        },
                                        source_typevars: s,
                                        target_typevars: t,
                                    },
                                )
                            }
                        },
                    },
                }
            },
        }
    }
}

/// A copy of a list of strings.
fn clone_strings(v: &Vec<String>) -> (r: Vec<String>)
    ensures
        strings_view(r@) == strings_view(v@),
{
    let mut r: Vec<String> = Vec::new();
    let mut i: usize = 0;
    while i < v.len()
        invariant
            i <= v.len(),
            strings_view(r@) == strings_view(v@).take(i as int),
        decreases v.len() - i,
    {
        let ghost before = strings_view(r@);
        r.push(v[i].clone());
        assert(strings_view(r@) =~= before.push(v@[i as int]@));
        assert(strings_view(v@).take(i + 1) =~= strings_view(v@).take(i as int).push(v@[i as int]@));
        i = i + 1;
    }
    assert(strings_view(v@).take(v.len() as int) =~= strings_view(v@));
    r
}

/// The arrow declaration whose parentheses are at `start` and `end`, if
/// the text there is one.
pub fn parse_arrow_declaration(text: &str, start: usize, end: usize) -> (r: Option<ArrowDeclaration>)
    requires
        start < usize::MAX,
    ensures
        match r {
            Some(d) => parse_declaration_spec(text.spec_bytes(), start as int, end as int) == Some(
                declaration_view(d),
            ),
            None => parse_declaration_spec(text.spec_bytes(), start as int, end as int) is None,
        },
{
    let ghost b = text.spec_bytes();
    proof {
        reveal_strlit("arr");
        reveal_strlit("def");
    }
    let tokens = top_level_tokens(text, start + 1, end);
    let ghost sp = token_spans(tokens@);
    assert(tokens_of_text(b, tokens@));
    if tokens.len() == 0 {
        return None;
    }
    assert(sp[0] == (tokens@[0].start as int, tokens@[0].end as int));
    let kind = tokens[0].text.clone();
    if !(text_eq(kind.as_str(), "arr") || text_eq(kind.as_str(), "def")) {
        return None;
    }
    let colon_index = position_of(&tokens, ":", Ghost(b))?;
    if colon_index < 2 {
        return None;
    }
    let name = Token {
        text: tokens[colon_index - 1].text.clone(),
        start: tokens[colon_index - 1].start,
        end: tokens[colon_index - 1].end,
    };
    assert(sp[colon_index - 1] == (tokens@[colon_index - 1].start as int, tokens@[colon_index - 1].end as int));
    let theory = declaration_theory(text, start, end, &tokens, colon_index)?;
    let arrow_index = position_of(&tokens, "->", Ghost(b))?;
    let equal_index = position_of(&tokens, "=", Ghost(b));
    assert(sp[colon_index as int] == (tokens@[colon_index as int].start as int, tokens@[colon_index as int].end as int));
    assert(sp[arrow_index as int] == (tokens@[arrow_index as int].start as int, tokens@[arrow_index as int].end as int));
    let source_text = substring(text, tokens[colon_index].end, tokens[arrow_index].start)?;
    let target_end = match equal_index {
        Some(i) => {
            assert(sp[i as int] == (tokens@[i as int].start as int, tokens@[i as int].end as int));
            tokens[i].start
        },
        None => end,
    };
    let target_text = substring(text, tokens[arrow_index].end, target_end)?;
    let source_typevars = leading_typevars_in(source_text);
    let target_typevars = leading_typevars_in(target_text);
    let metavariables = if source_typevars.len() == 0 {
        clone_strings(&target_typevars)
    } else {
        clone_strings(&source_typevars)
    };
    let d = ArrowDeclaration {
        start,
        end,
        declaration_kind: kind,
        theory,
        name,
        metavariables,
        source_typevars,
        target_typevars,
    };
    proof {
        assert(strings_view(d.source_typevars@).len() == d.source_typevars@.len());
    }
    Some(d)
}

/// The arrow declarations of the text from byte `off` on, one for each `(`
/// that is closed and opens an arrow declaration, in order.
#[verifier::opaque]
pub open spec fn declarations_from(b: Seq<u8>, off: int) -> Seq<DeclarationV>
    decreases b.len() - off,
{
    if off < 0 || off >= b.len() {
        Seq::empty()
    } else {
        match char_at_spec(b, off) {
            None => Seq::empty(),
            Some(ch) => {
                proof {
                    lemma_next_pos_advances(b, off);
                }
                let rest = declarations_from(b, next_pos(b, off));
                if ch == '(' {
                    match matching_close(b, off) {
                        None => rest,
                        Some(e) => match parse_declaration_spec(b, off, e) {
                            None => rest,
                            Some(d) => seq![d] + rest,
                        },
                    }
                } else {
                    rest
                }
            },
        }
    }
}

/// The plain values of a list of declarations.
pub open spec fn declarations_view(v: Seq<ArrowDeclaration>) -> Seq<DeclarationV> {
    v.map_values(|d: ArrowDeclaration| declaration_view(d))
}

/// Every arrow declaration of `text`, in order of their opening
/// parentheses.
pub fn scan_arrow_declarations(text: &str) -> (r: Vec<ArrowDeclaration>)
    ensures
        declarations_view(r@) == declarations_from(text.spec_bytes(), 0),
{
    let ghost b = text.spec_bytes();
    proof {
        lemma_text_valid(text);
    }
    let n = text_len(text);
    let mut declarations: Vec<ArrowDeclaration> = Vec::new();
    let mut offset: usize = 0;
    assert(declarations_view(declarations@) + declarations_from(b, 0) =~= declarations_from(b, 0));
    while offset < n
        invariant
            b == text.spec_bytes(),
            valid_utf8_text(b),
            n == b.len(),
            offset <= n,
            is_char_boundary(b, offset as int),
            declarations_view(declarations@) + declarations_from(b, offset as int) == declarations_from(b, 0),
        decreases n - offset,
    {
        let ch = match char_at(text, offset) {
            None => {
                assert(false);
                return declarations;
            },
            Some(c) => c,
        };
        proof {
            lemma_char_step(b, offset as int);
        }
        let ghost before = declarations_view(declarations@);
        let next = step(text, offset, ch);
        let ghost rest = declarations_from(b, next as int);
        if ch == '(' {
            match matching_close_offset(text, offset) {
                None => {
                    assert(declarations_from(b, offset as int) == rest) by {
                        reveal(declarations_from);
                    }
                },
                Some(e) => {
                    match parse_arrow_declaration(text, offset, e) {
                        None => {
                            assert(declarations_from(b, offset as int) == rest) by {
                                reveal(declarations_from);
                            }
                        },
                        Some(d) => {
                            let ghost dv = declaration_view(d);
                            assert(declarations_from(b, offset as int) == seq![dv] + rest) by {
                                reveal(declarations_from);
                            }
                            declarations.push(d);
                            assert(declarations_view(declarations@) =~= before.push(dv));
                            assert(before + (seq![dv] + rest) =~= before.push(dv) + rest);
                        },
                    }
                },
            }
        } else {
            assert(declarations_from(b, offset as int) == rest) by {
                reveal(declarations_from);
            }
        }
        offset = next;
    }
    assert(declarations_from(b, offset as int) == Seq::<DeclarationV>::empty()) by {
        reveal(declarations_from);
    }
    assert(declarations_view(declarations@) + Seq::<DeclarationV>::empty() =~= declarations_view(declarations@));
    declarations
}


/// The note given when the source and target of a declaration begin with
/// different metavariables.
pub open spec fn mismatch_text(s: Seq<Seq<char>>, t: Seq<Seq<char>>) -> Seq<char> {
    "Source and target terms have different metavariables: source {"@ + comma_joined(s) + "}, target {"@
        + comma_joined(t) + "}."@
}

/// The note on a declaration whose source and target both begin with
/// metavariables, different ones.
pub open spec fn raw_mismatch_spec(d: DeclarationV) -> Option<Seq<char>> {
    if d.source_typevars.len() > 0 && d.target_typevars.len() > 0 && d.source_typevars != d.target_typevars {
        Some(mismatch_text(d.source_typevars, d.target_typevars))
    } else {
        None
    }
}

/// Whether two lists of strings hold the same strings.
fn strings_equal(a: &Vec<String>, b: &Vec<String>) -> (r: bool)
    ensures
        r == (strings_view(a@) == strings_view(b@)),
{
    if a.len() != b.len() {
        assert(strings_view(a@).len() != strings_view(b@).len());
        return false;
    }
    let mut i: usize = 0;
    while i < a.len()
        invariant
            i <= a.len(),
            a.len() == b.len(),
            forall|j: int| 0 <= j < i ==> #[trigger] strings_view(a@)[j] == strings_view(b@)[j],
        decreases a.len() - i,
    {
        if !text_eq(a[i].as_str(), b[i].as_str()) {
            assert(strings_view(a@)[i as int] != strings_view(b@)[i as int]);
            return false;
        }
        i = i + 1;
    }
    assert(strings_view(a@) =~= strings_view(b@));
    true
}

/// The note on a declaration whose source and target begin with different
/// metavariables.
pub fn raw_typevar_mismatch_error(declaration: &ArrowDeclaration) -> (r: Option<String>)
    ensures
        match r {
            Some(s) => raw_mismatch_spec(declaration_view(*declaration)) == Some(s@),
            None => raw_mismatch_spec(declaration_view(*declaration)) is None,
        },
{
    if declaration.source_typevars.len() > 0 && declaration.target_typevars.len() > 0
        && !strings_equal(&declaration.source_typevars, &declaration.target_typevars) {
        let mut s = String::new();
        push_str(&mut s, "Source and target terms have different metavariables: source {");
        let sj = join_comma(&declaration.source_typevars);
        push_str(&mut s, sj.as_str());
        push_str(&mut s, "}, target {");
        let tj = join_comma(&declaration.target_typevars);
        push_str(&mut s, tj.as_str());
        push_str(&mut s, "}.");
        proof {
            assert(views(declaration.source_typevars@) == strings_view(declaration.source_typevars@));
            assert(views(declaration.target_typevars@) == strings_view(declaration.target_typevars@));
        }
        Some(s)
    } else {
        None
    }
}

/// A profile with no terms, only the counts of the declaration's
/// metavariables.
pub fn empty_span_label(declaration: &ArrowDeclaration) -> (r: ArrowSpanLabel)
    ensures
        r.source@ == Seq::<char>::empty(),
        r.target@ == Seq::<char>::empty(),
        r.source_metavariable_count == declaration.source_typevars.len(),
        r.target_metavariable_count == declaration.target_typevars.len(),
        r.error is None,
{
    ArrowSpanLabel {
        source: String::new(),
        target: String::new(),
        source_metavariable_count: declaration.source_typevars.len(),
        target_metavariable_count: declaration.target_typevars.len(),
        error: None,
    }
}

/// The details of an arrow shown to the user.
#[derive(Debug, Clone)]
pub struct ArrowDetails {
    pub declaration_kind: String,
    pub name: String,
    pub source: String,
    pub target: String,
    pub metavariables: Vec<String>,
    pub pretty_metavariables: Vec<String>,
    pub error: Option<String>,
}

/// `m0`, `m1`, .. for `n` metavariables.
pub open spec fn pretty_names(n: nat) -> Seq<Seq<char>> {
    Seq::new(n, |i: int| seq!['m'] + decimal(i as nat))
}

/// The details of `declaration` given the profile `span` of its arrow: the
/// metavariables are as many of the declaration's as the larger count of
/// the profile, named `m0`, `m1`, ..; the note is the declaration's own
/// mismatch, else the profile's.
pub open spec fn details_spec(d: DeclarationV, span: ArrowSpanLabel, r: ArrowDetails) -> bool {
    let count = if span.source_metavariable_count >= span.target_metavariable_count {
        span.source_metavariable_count
    } else {
        span.target_metavariable_count
    };
    &&& r.declaration_kind@ == d.kind
    &&& r.name@ == d.name.0
    &&& r.source@ == span.source@
    &&& r.target@ == span.target@
    &&& strings_view(r.metavariables@) == d.metavariables.take(
        if count <= d.metavariables.len() { count as int } else { d.metavariables.len() as int },
    )
    &&& strings_view(r.pretty_metavariables@) == pretty_names(count as nat)
    &&& match raw_mismatch_spec(d) {
        Some(e) => r.error matches Some(x) && x@ == e,
        None => match span.error {
            Some(e) => r.error matches Some(x) && x@ == e@,
            None => r.error is None,
        },
    }
}

/// The details of `declaration` given the profile of its arrow, when one
/// could be computed; without one, a declaration whose metavariables
/// disagree still gets details with empty terms.
pub fn arrow_details_from(declaration: &ArrowDeclaration, semantic: Option<ArrowSpanLabel>) -> (r: Option<
    ArrowDetails,
>)
    ensures
        match r {
            Some(x) => match semantic {
                Some(span) => details_spec(declaration_view(*declaration), span, x),
                None => raw_mismatch_spec(declaration_view(*declaration)) is Some && x.source@.len() == 0
                    && x.target@.len() == 0 && strings_view(x.pretty_metavariables@) == pretty_names(
                    if declaration.source_typevars.len() >= declaration.target_typevars.len() {
                        declaration.source_typevars.len() as nat
                    } else {
                        declaration.target_typevars.len() as nat
                    },
                ),
            },
            None => semantic is None && raw_mismatch_spec(declaration_view(*declaration)) is None,
        },
{
    let raw_error = raw_typevar_mismatch_error(declaration);
    let span = match semantic {
        Some(s) => s,
        None => match raw_error {
            Some(_) => empty_span_label(declaration),
            None => return None,
        },
    };
    let count = if span.source_metavariable_count >= span.target_metavariable_count {
        span.source_metavariable_count
    } else {
        span.target_metavariable_count
    };
    let ghost dm = strings_view(declaration.metavariables@);
    let mut metavariables: Vec<String> = Vec::new();
    let mut i: usize = 0;
    while i < count && i < declaration.metavariables.len()
        invariant
            i <= count,
            i <= declaration.metavariables.len(),
            dm == strings_view(declaration.metavariables@),
            strings_view(metavariables@) == dm.take(i as int),
        decreases count - i,
    {
        let ghost before = strings_view(metavariables@);
        metavariables.push(declaration.metavariables[i].clone());
        assert(strings_view(metavariables@) =~= before.push(dm[i as int]));
        assert(dm.take(i + 1) =~= dm.take(i as int).push(dm[i as int]));
        i = i + 1;
    }
    let mut pretty: Vec<String> = Vec::new();
    let mut k: usize = 0;
    while k < count
        invariant
            k <= count,
            strings_view(pretty@) == pretty_names(k as nat),
        decreases count - k,
    {
        let mut name = String::new();
        push_char(&mut name, 'm');
        let d = usize_to_decimal(k);
        push_str(&mut name, d.as_str());
        let ghost before = strings_view(pretty@);
        pretty.push(name);
        assert(strings_view(pretty@) =~= before.push(name@));
        assert(strings_view(pretty@) =~= pretty_names((k + 1) as nat));
        k = k + 1;
    }
    let error = match raw_error {
        Some(e) => Some(e),
        None => span.error,
    };
    Some(ArrowDetails {
        declaration_kind: declaration.declaration_kind.clone(),
        name: declaration.name.text.clone(),
        source: span.source,
        target: span.target,
        metavariables,
        pretty_metavariables: pretty,
        error,
    })
}


/// The first declaration that the token `t` is the name of.
pub open spec fn first_named(ds: Seq<DeclarationV>, t: (Seq<char>, int, int)) -> Option<int>
    decreases ds.len(),
{
    if ds.len() == 0 {
        None
    } else if names(ds[0], t) {
        Some(0)
    } else {
        match first_named(ds.drop_first(), t) {
            None => None,
            Some(i) => Some(i + 1),
        }
    }
}

/// The first declaration that the token `t` refers to.
pub open spec fn first_referred(ds: Seq<DeclarationV>, t: (Seq<char>, int, int)) -> Option<int>
    decreases ds.len(),
{
    if ds.len() == 0 {
        None
    } else if refers_to(ds[0], t) {
        Some(0)
    } else {
        match first_referred(ds.drop_first(), t) {
            None => None,
            Some(i) => Some(i + 1),
        }
    }
}

/// The first declaration that encloses byte `offset`.
pub open spec fn first_enclosing(ds: Seq<DeclarationV>, offset: int) -> Option<int>
    decreases ds.len(),
{
    if ds.len() == 0 {
        None
    } else if offset >= ds[0].start && offset <= ds[0].end {
        Some(0)
    } else {
        match first_enclosing(ds.drop_first(), offset) {
            None => None,
            Some(i) => Some(i + 1),
        }
    }
}

/// The token is the name of the declaration.
pub open spec fn names(d: DeclarationV, t: (Seq<char>, int, int)) -> bool {
    t.0 == d.name.0 && t.1 >= d.name.1 && t.2 <= d.name.2
}

/// The token refers to the declaration by name, and is no punctuation of
/// a declaration.
pub open spec fn refers_to(d: DeclarationV, t: (Seq<char>, int, int)) -> bool {
    t.0 == d.name.0 && !(t.0 == ":"@ || t.0 == "->"@ || t.0 == "="@)
}

/// The declaration that a position is about: the one whose name the token
/// there is, else the one that the token names, else the first that
/// encloses the position.
pub open spec fn selected_declaration(ds: Seq<DeclarationV>, token: Option<(Seq<char>, int, int)>, offset: int) -> Option<
    int,
> {
    let by_name = match token {
        Some(t) => first_named(ds, t),
        None => None,
    };
    let by_reference = match token {
        Some(t) => first_referred(ds, t),
        None => None,
    };
    if by_name is Some {
        by_name
    } else if by_reference is Some {
        by_reference
    } else {
        first_enclosing(ds, offset)
    }
}

/// The plain value of a token.
pub open spec fn token_view(t: Token) -> (Seq<char>, int, int) {
    (t.text@, t.start as int, t.end as int)
}

/// The index of the declaration that a position at `offset`, with `token`
/// there, is about.
pub fn select_declaration(declarations: &Vec<ArrowDeclaration>, token: Option<&Token>, offset: usize) -> (r: Option<
    usize,
>)
    ensures
        match r {
            Some(i) => i < declarations.len() && selected_declaration(
                declarations_view(declarations@),
                match token {
                    Some(t) => Some(token_view(*t)),
                    None => None,
                },
                offset as int,
            ) == Some(i as int),
            None => selected_declaration(
                declarations_view(declarations@),
                match token {
                    Some(t) => Some(token_view(*t)),
                    None => None,
                },
                offset as int,
            ) is None,
        },
{
    let ghost ds = declarations_view(declarations@);
    assert(ds.skip(0) =~= ds);
    proof {
        reveal_strlit(":");
        reveal_strlit("->");
        reveal_strlit("=");
    }
    if let Some(t) = token {
        let ghost tv = token_view(*t);
        let mut i: usize = 0;
        while i < declarations.len()
            invariant
                i <= declarations.len(),
                ds == declarations_view(declarations@),
                token == Some(t),
                tv == token_view(*t),
                first_named(ds, tv) == match first_named(ds.skip(i as int), tv) {
                    None => None,
                    Some(k) => Some(k + i),
                },
            decreases declarations.len() - i,
        {
            assert(ds.skip(i as int)[0] == ds[i as int]);
            assert(ds.skip(i as int).drop_first() =~= ds.skip(i + 1));
            let d = &declarations[i];
            assert(ds[i as int] == declaration_view(*d));
            if text_eq(t.text.as_str(), d.name.text.as_str()) && t.start >= d.name.start && t.end <= d.name.end {
                assert(names(ds[i as int], tv));
                assert(first_named(ds.skip(i as int), tv) == Some(0int));
                assert(first_named(ds, tv) == Some(i as int));
                assert(selected_declaration(ds, Some(tv), offset as int) == Some(i as int));
                return Some(i);
            }
            i = i + 1;
        }
        assert(ds.skip(declarations.len() as int) =~= Seq::<DeclarationV>::empty());
        let punctuation = text_eq(t.text.as_str(), ":") || text_eq(t.text.as_str(), "->") || text_eq(
            t.text.as_str(),
            "=",
        );
        let mut j: usize = 0;
        while j < declarations.len()
            invariant
                j <= declarations.len(),
                ds == declarations_view(declarations@),
                token == Some(t),
                tv == token_view(*t),
                first_named(ds, tv) is None,
                punctuation == (tv.0 == ":"@ || tv.0 == "->"@ || tv.0 == "="@),
                first_referred(ds, tv) == match first_referred(ds.skip(j as int), tv) {
                    None => None,
                    Some(k) => Some(k + j),
                },
            decreases declarations.len() - j,
        {
            assert(ds.skip(j as int)[0] == ds[j as int]);
            assert(ds.skip(j as int).drop_first() =~= ds.skip(j + 1));
            let d = &declarations[j];
            assert(ds[j as int] == declaration_view(*d));
            if text_eq(t.text.as_str(), d.name.text.as_str()) && !punctuation {
                assert(refers_to(ds[j as int], tv));
                assert(first_referred(ds.skip(j as int), tv) == Some(0int));
                assert(first_referred(ds, tv) == Some(j as int));
                assert(selected_declaration(ds, Some(tv), offset as int) == Some(j as int));
                return Some(j);
            }
            j = j + 1;
        }
        assert(ds.skip(declarations.len() as int) =~= Seq::<DeclarationV>::empty());
        assert(first_referred(ds, tv) is None);
    }
    let ghost tok = match token {
        Some(t) => Some(token_view(*t)),
        None => None,
    };
    assert(selected_declaration(ds, tok, offset as int) == first_enclosing(ds, offset as int));
    let mut k: usize = 0;
    while k < declarations.len()
        invariant
            k <= declarations.len(),
            ds == declarations_view(declarations@),
            selected_declaration(ds, tok, offset as int) == first_enclosing(ds, offset as int),
            tok == (match token {
                Some(t) => Some(token_view(*t)),
                None => None,
            }),
            first_enclosing(ds, offset as int) == match first_enclosing(ds.skip(k as int), offset as int) {
                None => None,
                Some(m) => Some(m + k),
            },
        decreases declarations.len() - k,
    {
        assert(ds.skip(k as int)[0] == ds[k as int]);
        assert(ds.skip(k as int).drop_first() =~= ds.skip(k + 1));
        let d = &declarations[k];
        assert(ds[k as int] == declaration_view(*d));
        if offset >= d.start && offset <= d.end {
            return Some(k);
        }
        k = k + 1;
    }
    None
}

} // verus!
