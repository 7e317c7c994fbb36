//! Locating declarations and operations in `.hex` source text, so that an
//! error message can be pointed at the text it is about.
use vstd::prelude::*;
use vstd::utf8::{is_char_boundary, valid_utf8};
use vstd::string::StringSliceAdditionalSpecFns;
use crate::syntax::{
    CharClass, lemma_token_boundaries, lemma_token_advances, lemma_matching_close_char, Position, position_at_offset, position_scan, chars_between, collect_chars, is_operation_char, is_operation_char_spec, matching_close,
    matching_close_offset, previous_char, previous_char_spec, token_at, token_span, valid_utf8_text,
};
use crate::text::{
    char_at, char_at_spec, is_whitespace, is_whitespace_spec, lemma_char_step, lemma_match_ends_at_boundary,
    lemma_next_pos_advances, lemma_text_valid, next_pos, push_char, push_str, step, text_eq, text_len,
};

verus! {

/// The bytes `nb` occur in `b` at byte `i`.
pub open spec fn occurs_at(b: Seq<u8>, nb: Seq<u8>, i: int) -> bool {
    0 <= i && i + nb.len() <= b.len() && b.subrange(i, i + nb.len()) == nb
}

/// The first byte at or after `from` where `nb` occurs in `b`.
pub open spec fn first_occurrence(b: Seq<u8>, nb: Seq<u8>, from: int) -> Option<int>
    decreases b.len() + 1 - from,
{
    if from < 0 || from + nb.len() > b.len() {
        None
    } else if occurs_at(b, nb, from) {
        Some(from)
    } else {
        first_occurrence(b, nb, from + 1)
    }
}

/// The last byte at or before `upto` where `nb` occurs in `b`.
pub open spec fn last_occurrence(b: Seq<u8>, nb: Seq<u8>, upto: int) -> Option<int>
    decreases upto + 1,
{
    if upto < 0 {
        None
    } else if occurs_at(b, nb, upto) {
        Some(upto)
    } else {
        last_occurrence(b, nb, upto - 1)
    }
}

pub proof fn lemma_first_occurrence_bounds(b: Seq<u8>, nb: Seq<u8>, from: int)
    ensures
        first_occurrence(b, nb, from) matches Some(i) ==> from <= i && occurs_at(b, nb, i),
    decreases b.len() + 1 - from,
{
    if !(from < 0 || from + nb.len() > b.len()) && !occurs_at(b, nb, from) {
        lemma_first_occurrence_bounds(b, nb, from + 1);
    }
}

pub proof fn lemma_last_occurrence_bounds(b: Seq<u8>, nb: Seq<u8>, upto: int)
    ensures
        last_occurrence(b, nb, upto) matches Some(i) ==> i <= upto && occurs_at(b, nb, i),
    decreases upto + 1,
{
    if upto >= 0 && !occurs_at(b, nb, upto) {
        lemma_last_occurrence_bounds(b, nb, upto - 1);
    }
}

/// A nonempty valid sequence occurring in valid text starts and ends at
/// character boundaries.
proof fn lemma_occurrence_boundaries(b: Seq<u8>, nb: Seq<u8>, i: int)
    requires
        valid_utf8(b),
        valid_utf8(nb),
        occurs_at(b, nb, i),
        nb.len() > 0,
    ensures
        is_char_boundary(b, i),
        is_char_boundary(b, i + nb.len()),
{
    assert(b[i] == nb[0]);
    vstd::utf8::is_char_boundary_iff_not_is_continuation_byte(b, i);
    assert(vstd::utf8::valid_first_scalar(nb));
    lemma_match_ends_at_boundary(b, i, nb);
}

/// Whether `needle` occurs in `text` at byte `i`.
fn matches_at(text: &[u8], needle: &[u8], i: usize) -> (r: bool)
    ensures
        r == occurs_at(text@, needle@, i as int),
{
    if needle.len() > text.len() || i > text.len() - needle.len() {
        return false;
    }
    let mut k: usize = 0;
    while k < needle.len()
        invariant
            k <= needle.len(),
            i + needle.len() <= text.len(),
            forall|j: int| 0 <= j < k ==> text@[i + j] == needle@[j],
        decreases needle.len() - k,
    {
        if text[i + k] != needle[k] {
            assert(text@.subrange(i as int, i + needle.len())[k as int] != needle@[k as int]);
            return false;
        }
        k = k + 1;
    }
    assert(text@.subrange(i as int, i + needle.len()) =~= needle@);
    true
}

/// The first byte at or after `from` where `needle` occurs in `text`, as
/// `str::find` on the text from `from` reports it.
pub fn find_from(text: &str, needle: &str, from: usize) -> (r: Option<usize>)
    ensures
        match r {
            Some(i) => first_occurrence(text.spec_bytes(), needle.spec_bytes(), from as int) == Some(i as int),
            None => first_occurrence(text.spec_bytes(), needle.spec_bytes(), from as int) is None,
        },
{
    let t = text.as_bytes();
    let nd = needle.as_bytes();
    if nd.len() > t.len() || from > t.len() - nd.len() {
        return None;
    }
    let upto = t.len() - nd.len();
    let mut i = from;
    loop
        invariant
            from <= i <= upto,
            upto + nd.len() == t.len(),
            t@ == text.spec_bytes(),
            nd@ == needle.spec_bytes(),
            first_occurrence(t@, nd@, from as int) == first_occurrence(t@, nd@, i as int),
        decreases upto - i,
    {
        if matches_at(t, nd, i) {
            return Some(i);
        }
        if i == upto {
            assert(first_occurrence(t@, nd@, i + 1) is None);
            return None;
        }
        i = i + 1;
    }
}

/// The last byte where `needle` occurs in `text`, as `str::rfind`.
pub fn rfind(text: &str, needle: &str) -> (r: Option<usize>)
    ensures
        match r {
            Some(i) => last_occurrence(
                text.spec_bytes(),
                needle.spec_bytes(),
                text.spec_bytes().len() - needle.spec_bytes().len(),
            ) == Some(i as int),
            None => last_occurrence(
                text.spec_bytes(),
                needle.spec_bytes(),
                text.spec_bytes().len() - needle.spec_bytes().len(),
            ) is None,
        },
{
    let t = text.as_bytes();
    let nd = needle.as_bytes();
    if nd.len() > t.len() {
        return None;
    }
    let mut i = t.len() - nd.len();
    loop
        invariant
            i <= t.len() - nd.len(),
            nd.len() <= t.len(),
            t@ == text.spec_bytes(),
            nd@ == needle.spec_bytes(),
            last_occurrence(t@, nd@, t.len() - nd.len()) == last_occurrence(t@, nd@, i as int),
        decreases i,
    {
        if matches_at(t, nd, i) {
            return Some(i);
        }
        if i == 0 {
            assert(last_occurrence(t@, nd@, -1) is None);
            return None;
        }
        i = i - 1;
    }
}


/// The first byte at or after `off` that does not start a whitespace
/// character, or the end.
pub open spec fn skip_ws(b: Seq<u8>, off: int) -> int
    decreases b.len() - off,
{
    if off >= b.len() {
        off
    } else {
        match char_at_spec(b, off) {
            Some(c) => if is_whitespace_spec(c) {
                proof {
                    lemma_next_pos_advances(b, off);
                }
                skip_ws(b, next_pos(b, off))
            } else {
                off
            },
            None => off,
        }
    }
}

/// The first byte at or after `off`, and before `end`, that starts a
/// whitespace character; `end` when there is none.
pub open spec fn skip_non_ws(b: Seq<u8>, off: int, end: int) -> int
    decreases b.len() - off,
{
    if off >= end {
        off
    } else {
        match char_at_spec(b, off) {
            Some(c) => if !is_whitespace_spec(c) {
                proof {
                    lemma_next_pos_advances(b, off);
                }
                skip_non_ws(b, next_pos(b, off), end)
            } else {
                off
            },
            None => off,
        }
    }
}

proof fn lemma_skip_ws(b: Seq<u8>, off: int)
    requires
        valid_utf8_text(b),
        off >= b.len() || (0 <= off && is_char_boundary(b, off)),
    ensures
        off <= skip_ws(b, off),
        skip_ws(b, off) >= b.len() || is_char_boundary(b, skip_ws(b, off)),
        skip_ws(b, off) > off ==> skip_ws(b, off) <= b.len(),
    decreases b.len() - off,
{
    if off < b.len() {
        if let Some(c) = char_at_spec(b, off) {
            if is_whitespace_spec(c) {
                lemma_char_step(b, off);
                lemma_next_pos_advances(b, off);
                lemma_skip_ws(b, next_pos(b, off));
            }
        }
    }
}

/// The first position at or after `offset` that does not start a
/// whitespace character.
pub fn skip_whitespace(text: &str, offset: usize) -> (r: usize)
    requires
        offset >= text.spec_bytes().len() || is_char_boundary(text.spec_bytes(), offset as int),
    ensures
        r == skip_ws(text.spec_bytes(), offset as int),
{
    let ghost b = text.spec_bytes();
    proof {
        lemma_text_valid(text);
    }
    let n = text_len(text);
    let mut pos = offset;
    let mut done = false;
    while pos < n && !done
        invariant
            b == text.spec_bytes(),
            valid_utf8_text(b),
            n == b.len(),
            offset <= pos,
            pos >= n || is_char_boundary(b, pos as int),
            skip_ws(b, offset as int) == skip_ws(b, pos as int),
            done ==> skip_ws(b, pos as int) == pos,
        decreases n - pos, (if done { 0int } else { 1int }),
    {
        match char_at(text, pos) {
            Some(c) => {
                if is_whitespace(c) {
                    proof {
                        lemma_char_step(b, pos as int);
                    }
                    pos = step(text, pos, c);
                } else {
                    done = true;
                }
            },
            None => {
                done = true;
            },
        }
    }
    pos
}

/// The first position at or after `offset`, and before `end`, that starts
/// a whitespace character, or `end`.
pub fn skip_non_whitespace(text: &str, offset: usize, end: usize) -> (r: usize)
    requires
        offset >= end || (offset <= text.spec_bytes().len() && is_char_boundary(text.spec_bytes(), offset as int)),
    ensures
        r == skip_non_ws(text.spec_bytes(), offset as int, end as int),
{
    let ghost b = text.spec_bytes();
    proof {
        lemma_text_valid(text);
    }
    let mut pos = offset;
    let mut done = false;
    while pos < end && !done
        invariant
            b == text.spec_bytes(),
            valid_utf8_text(b),
            offset <= pos,
            pos >= end || (pos <= b.len() && is_char_boundary(b, pos as int)),
            skip_non_ws(b, offset as int, end as int) == skip_non_ws(b, pos as int, end as int),
            done ==> skip_non_ws(b, pos as int, end as int) == pos,
        decreases b.len() + 1 - pos, (if done { 0int } else { 1int }),
    {
        match char_at(text, pos) {
            Some(c) => {
                if !is_whitespace(c) {
                    proof {
                        lemma_char_step(b, pos as int);
                    }
                    pos = step(text, pos, c);
                } else {
                    done = true;
                }
            },
            None => {
                done = true;
            },
        }
    }
    pos
}

/// The characters with leading whitespace removed.
pub open spec fn trim_start(s: Seq<char>) -> Seq<char>
    decreases s.len(),
{
    if s.len() > 0 && is_whitespace_spec(s[0]) {
        trim_start(s.drop_first())
    } else {
        s
    }
}

/// The characters with trailing whitespace removed.
pub open spec fn trim_end(s: Seq<char>) -> Seq<char>
    decreases s.len(),
{
    if s.len() > 0 && is_whitespace_spec(s.last()) {
        trim_end(s.drop_last())
    } else {
        s
    }
}

/// The characters with leading and trailing whitespace removed, as
/// `str::trim` does.
pub open spec fn trimmed(s: Seq<char>) -> Seq<char> {
    trim_end(trim_start(s))
}

/// `s` without leading and trailing whitespace.
pub fn trim(s: &str) -> (r: String)
    ensures
        r@ == trimmed(s@),
{
    let chars = crate::text::chars_of(s);
    let mut lo: usize = 0;
    assert(chars@.skip(0) =~= chars@);
    while lo < chars.len() && is_whitespace(chars[lo])
        invariant
            lo <= chars.len(),
            chars@ == s@,
            trim_start(s@) == trim_start(chars@.skip(lo as int)),
        decreases chars.len() - lo,
    {
        assert(chars@.skip(lo as int).drop_first() =~= chars@.skip(lo + 1));
        lo = lo + 1;
    }
    let ghost t = chars@.skip(lo as int);
    assert(trim_start(s@) == t);
    let mut hi = chars.len();
    while hi > lo && is_whitespace(chars[hi - 1])
        invariant
            lo <= hi <= chars.len(),
            chars@ == s@,
            t == chars@.skip(lo as int),
            trim_end(t) == trim_end(chars@.subrange(lo as int, hi as int)),
        decreases hi,
    {
        assert(chars@.subrange(lo as int, hi as int).drop_last() =~= chars@.subrange(lo as int, hi - 1));
        hi = hi - 1;
    }
    assert(t =~= chars@.subrange(lo as int, chars.len() as int)) by {
        assert(chars@.skip(lo as int) =~= chars@.subrange(lo as int, chars.len() as int));
    }
    let mut r = String::new();
    let mut k = lo;
    while k < hi
        invariant
            lo <= k <= hi <= chars.len(),
            r@ == chars@.subrange(lo as int, k as int),
        decreases hi - k,
    {
        push_char(&mut r, chars[k]);
        assert(r@ =~= chars@.subrange(lo as int, k + 1));
        k = k + 1;
    }
    r
}


/// The text between the first `prefix` and the first `suffix` after it.
pub open spec fn between_spec(b: Seq<u8>, pb: Seq<u8>, sb: Seq<u8>) -> Option<Seq<char>> {
    match first_occurrence(b, pb, 0) {
        None => None,
        Some(i) => match first_occurrence(b, sb, i + pb.len()) {
            None => None,
            Some(j) => Some(chars_between(b, i + pb.len(), j)),
        },
    }
}

/// The text after the last `prefix`, trimmed.
pub open spec fn after_spec(b: Seq<u8>, pb: Seq<u8>) -> Option<Seq<char>> {
    match last_occurrence(b, pb, b.len() - pb.len()) {
        None => None,
        Some(i) => Some(trimmed(chars_between(b, i + pb.len(), b.len() as int))),
    }
}

/// Where a valid piece of text occurs, it starts and ends at character
/// boundaries; an empty piece occurs where the search began.
proof fn lemma_found_boundaries(b: Seq<u8>, nb: Seq<u8>, from: int)
    requires
        valid_utf8_text(b),
        valid_utf8(nb),
        0 <= from <= b.len(),
        is_char_boundary(b, from),
        first_occurrence(b, nb, from) is Some,
    ensures
        from <= first_occurrence(b, nb, from)->0,
        occurs_at(b, nb, first_occurrence(b, nb, from)->0),
        is_char_boundary(b, first_occurrence(b, nb, from)->0),
        is_char_boundary(b, first_occurrence(b, nb, from)->0 + nb.len()),
{
    lemma_first_occurrence_bounds(b, nb, from);
    if nb.len() > 0 {
        lemma_occurrence_boundaries(b, nb, first_occurrence(b, nb, from)->0);
    } else {
        assert(b.subrange(from, from + nb.len()) =~= nb);
        assert(occurs_at(b, nb, from));
    }
}

/// The text between the first `prefix` and the first `suffix` after it.
pub fn extract_between(text: &str, prefix: &str, suffix: &str) -> (r: Option<String>)
    ensures
        match r {
            Some(s) => between_spec(text.spec_bytes(), prefix.spec_bytes(), suffix.spec_bytes()) == Some(s@),
            None => between_spec(text.spec_bytes(), prefix.spec_bytes(), suffix.spec_bytes()) is None,
        },
{
    let ghost b = text.spec_bytes();
    proof {
        lemma_text_valid(text);
        lemma_text_valid(prefix);
        lemma_text_valid(suffix);
    }
    let n = text_len(text);
    let p = find_from(text, prefix, 0)?;
    proof {
        lemma_found_boundaries(b, prefix.spec_bytes(), 0);
    }
    let start = p + text_len(prefix);
    let e = find_from(text, suffix, start)?;
    proof {
        lemma_found_boundaries(b, suffix.spec_bytes(), start as int);
    }
    Some(collect_chars(text, start, e))
}

/// The text after the last `prefix`, without surrounding whitespace.
pub fn extract_after(text: &str, prefix: &str) -> (r: Option<String>)
    ensures
        match r {
            Some(s) => after_spec(text.spec_bytes(), prefix.spec_bytes()) == Some(s@),
            None => after_spec(text.spec_bytes(), prefix.spec_bytes()) is None,
        },
{
    let ghost b = text.spec_bytes();
    proof {
        lemma_text_valid(text);
        lemma_text_valid(prefix);
    }
    let ghost pb = prefix.spec_bytes();
    proof {
        assert(b.subrange(b.len() as int, b.len() as int) =~= Seq::<u8>::empty());
    }
    let p = rfind(text, prefix)?;
    proof {
        lemma_last_occurrence_bounds(b, pb, b.len() - pb.len());
        if pb.len() > 0 {
            lemma_occurrence_boundaries(b, pb, p as int);
        }
    }
    let n = text_len(text);
    let start = p + text_len(prefix);
    let rest = collect_chars(text, start, n);
    Some(trim(rest.as_str()))
}

/// Whether `operation` occurs at byte `start`, ending by `end`, as a whole
/// operation name: no operation character right before or after it.
pub open spec fn token_matches_spec(b: Seq<u8>, start: int, end: int, ob: Seq<u8>) -> bool {
    &&& start + ob.len() <= end
    &&& occurs_at(b, ob, start)
    &&& !(previous_char_spec(b, start) matches Some(p) && is_operation_char_spec(p.1))
    &&& !(char_at_spec(b, start + ob.len()) matches Some(c) && is_operation_char_spec(c))
}

/// Whether `operation` occurs at `start`, ending by `end`, as a whole
/// operation name.
pub fn operation_token_matches(text: &str, start: usize, end: usize, operation: &str) -> (r: bool)
    requires
        start + operation.spec_bytes().len() <= usize::MAX,
        start + operation.spec_bytes().len() > end || (start + operation.spec_bytes().len()
            <= text.spec_bytes().len() && is_char_boundary(text.spec_bytes(), start as int) && is_char_boundary(
            text.spec_bytes(),
            start + operation.spec_bytes().len(),
        )),
    ensures
        r == token_matches_spec(text.spec_bytes(), start as int, end as int, operation.spec_bytes()),
{
    let len = text_len(operation);
    if start + len > end {
        return false;
    }
    let t = text.as_bytes();
    let o = operation.as_bytes();
    if !matches_at(t, o, start) {
        return false;
    }
    let before_ok = match previous_char(text, start) {
        Some((_, c)) => !is_operation_char(c),
        None => true,
    };
    let after_ok = match char_at(text, start + len) {
        Some(c) => !is_operation_char(c),
        None => true,
    };
    before_ok && after_ok
}


/// The byte span of a declaration, from its `(` to its `)`.
#[derive(Clone, Copy, Debug, PartialEq, Eq, Structural)]
pub struct Span {
    pub start: usize,
    pub end: usize,
}

/// The bytes of `(` followed by `keyword`.
pub open spec fn decl_needle(keyword: Seq<char>) -> Seq<u8> {
    vstd::utf8::encode_utf8(seq!['('] + keyword)
}

/// The first declaration `(keyword name ..)` found at or after byte
/// `from`, scanning the occurrences of `(keyword`: the name is the
/// operation token after the keyword and any whitespace. The search stops
/// with nothing when such an occurrence has no name token, or the named
/// declaration is not closed.
pub open spec fn declaration_from(b: Seq<u8>, nb: Seq<u8>, name: Seq<char>, from: int) -> Option<(int, int)>
    decreases b.len() + 1 - from,
{
    match first_occurrence(b, nb, from) {
        None => None,
        Some(start) => {
            proof {
                lemma_first_occurrence_bounds(b, nb, from);
            }
            match token_span(b, skip_ws(b, start + nb.len()), CharClass::Operation) {
                None => None,
                Some(sp) => if chars_between(b, sp.0, sp.1) == name {
                    match matching_close(b, start) {
                        None => None,
                        Some(e) => Some((start, e)),
                    }
                } else {
                    declaration_from(b, nb, name, start + 1)
                },
            }
        },
    }
}

proof fn lemma_needle(b: Seq<u8>, keyword: Seq<char>, start: int)
    requires
        valid_utf8_text(b),
        occurs_at(b, decl_needle(keyword), start),
    ensures
        decl_needle(keyword).len() >= 1,
        valid_utf8(decl_needle(keyword)),
        is_char_boundary(b, start),
        is_char_boundary(b, start + 1),
        is_char_boundary(b, start + decl_needle(keyword).len()),
{
    let s = seq!['('] + keyword;
    vstd::utf8::encode_utf8_valid_utf8(s);
    assert(s.drop_first() =~= keyword);
    assert(('(' as u32) == 0x28);
    assert((0x28u32 & 0x7f) as u8 == 0x28u8) by (bit_vector);
    assert(vstd::utf8::encode_scalar(0x28u32) == seq![0x28u8]);
    let nb = decl_needle(keyword);
    assert(nb == seq![0x28u8] + vstd::utf8::encode_utf8(keyword));
    assert(nb[0] == 0x28u8);
    lemma_occurrence_boundaries(b, nb, start);
    assert(b[start] == 0x28u8);
    lemma_char_step(b, start);
    assert(b.subrange(start, b.len() as int)[0] == 0x28u8);
}

/// The span of the declaration `(keyword name ..)`, if there is one.
pub fn find_declaration(text: &str, keyword: &str, name: &str) -> (r: Option<Span>)
    ensures
        match r {
            Some(sp) => declaration_from(text.spec_bytes(), decl_needle(keyword@), name@, 0) == Some(
                (sp.start as int, sp.end as int),
            ),
            None => declaration_from(text.spec_bytes(), decl_needle(keyword@), name@, 0) is None,
        },
{
    let ghost b = text.spec_bytes();
    proof {
        lemma_text_valid(text);
    }
    let n = text_len(text);
    let mut needle = String::new();
    push_char(&mut needle, '(');
    push_str(&mut needle, keyword);
    let ghost nb = decl_needle(keyword@);
    assert(needle@ =~= seq!['('] + keyword@);
    let ns = needle.as_str();
    assert(ns.spec_bytes() == nb);
    let needle_len = text_len(ns);
    let mut search_from: usize = 0;
    loop
        invariant
            b == text.spec_bytes(),
            valid_utf8_text(b),
            n == b.len(),
            nb == decl_needle(keyword@),
            ns.spec_bytes() == nb,
            needle_len == nb.len(),
            search_from <= n,
            is_char_boundary(b, search_from as int),
            declaration_from(b, nb, name@, 0) == declaration_from(b, nb, name@, search_from as int),
        decreases n + 1 - search_from,
    {
        let start = match find_from(text, ns, search_from) {
            None => return None,
            Some(s) => s,
        };
        proof {
            lemma_first_occurrence_bounds(b, nb, search_from as int);
            lemma_needle(b, keyword@, start as int);
        }
        let offset = skip_whitespace(text, start + needle_len);
        let token = match token_at(text, offset, CharClass::Operation) {
            None => return None,
            Some(t) => t,
        };
        if text_eq(token.text.as_str(), name) {
            let end = match matching_close_offset(text, start) {
                None => return None,
                Some(e) => e,
            };
            return Some(Span { start, end });
        }
        search_from = start + 1;
    }
}

/// The span of the declaration of arrow `arrow`: an `arr` declaration, or
/// else a `def`.
pub fn find_arrow_declaration(text: &str, arrow: &str) -> (r: Option<Span>)
    ensures
        r == (match declaration_from(text.spec_bytes(), decl_needle("arr"@), arrow@, 0) {
            Some(p) => Some(Span { start: p.0 as usize, end: p.1 as usize }),
            None => match declaration_from(text.spec_bytes(), decl_needle("def"@), arrow@, 0) {
                Some(p) => Some(Span { start: p.0 as usize, end: p.1 as usize }),
                None => None,
            },
        }),
{
    match find_declaration(text, "arr", arrow) {
        Some(sp) => Some(sp),
        None => find_declaration(text, "def", arrow),
    }
}


/// The start of the first `:` token at or after `off`, tokens being read
/// one after another from there and before `end`.
pub open spec fn header_separator(b: Seq<u8>, off: int, end: int) -> Option<int>
    decreases b.len() + 1 - off,
{
    if off >= end {
        None
    } else {
        match token_span(b, skip_ws(b, off), CharClass::Operation) {
            None => None,
            Some(sp) => if chars_between(b, sp.0, sp.1) == seq![':'] {
                Some(sp.0)
            } else if sp.1 <= off || sp.1 > b.len() {
                None
            } else {
                header_separator(b, sp.1, end)
            },
        }
    }
}

/// Reading tokens from a boundary before the end of the text always moves
/// forwards.
proof fn lemma_token_after_skip(b: Seq<u8>, off: int, end: int)
    requires
        valid_utf8_text(b),
        0 <= off < end <= b.len(),
        is_char_boundary(b, off),
        token_span(b, skip_ws(b, off), CharClass::Operation) is Some,
    ensures
        token_span(b, skip_ws(b, off), CharClass::Operation).unwrap().1 > off,
        token_span(b, skip_ws(b, off), CharClass::Operation).unwrap().1 <= b.len(),
        is_char_boundary(b, token_span(b, skip_ws(b, off), CharClass::Operation).unwrap().1),
        is_char_boundary(b, token_span(b, skip_ws(b, off), CharClass::Operation).unwrap().0),
{
    let o = skip_ws(b, off);
    lemma_skip_ws(b, off);
    lemma_token_boundaries(b, o, CharClass::Operation);
    if o == off {
        assert(char_at_spec(b, o) is Some);
        lemma_token_advances(b, o, CharClass::Operation);
    }
}

/// The start of the `:` that ends the header of a declaration, reading
/// tokens from `offset` up to `end`.
pub fn find_header_separator(text: &str, offset: usize, end: usize) -> (r: Option<usize>)
    requires
        end <= text.spec_bytes().len(),
        offset >= end || is_char_boundary(text.spec_bytes(), offset as int),
    ensures
        match r {
            Some(i) => header_separator(text.spec_bytes(), offset as int, end as int) == Some(i as int),
            None => header_separator(text.spec_bytes(), offset as int, end as int) is None,
        },
{
    let ghost b = text.spec_bytes();
    proof {
        lemma_text_valid(text);
    }
    let mut pos = offset;
    while pos < end
        invariant
            b == text.spec_bytes(),
            valid_utf8_text(b),
            end <= b.len(),
            pos >= end || is_char_boundary(b, pos as int),
            header_separator(b, offset as int, end as int) == header_separator(b, pos as int, end as int),
        decreases b.len() + 1 - pos,
    {
        let o = skip_whitespace(text, pos);
        let token = match token_at(text, o, CharClass::Operation) {
            None => return None,
            Some(t) => t,
        };
        proof {
            lemma_token_after_skip(b, pos as int, end as int);
            reveal_strlit(":");
            assert(":"@ =~= seq![':']);
        }
        if text_eq(token.text.as_str(), ":") {
            assert(token.text@ == seq![':']);
            return Some(token.start);
        }
        assert(token.text@ != seq![':']);
        pos = token.end;
    }
    None
}

/// Where to look next after a failed match at `start`: past the matched
/// text, or past the character at `start` when the text is empty.
pub open spec fn advance_after(b: Seq<u8>, start: int, ob: Seq<u8>) -> int {
    if ob.len() > 0 {
        start + ob.len()
    } else {
        next_pos(b, start)
    }
}

/// The first whole occurrence of the operation `ob` at or after `from`
/// that fits before `end`.
pub open spec fn operation_from(b: Seq<u8>, ob: Seq<u8>, from: int, end: int) -> Option<int>
    decreases b.len() + 1 - from,
{
    if from >= end || end > b.len() {
        None
    } else {
        match first_occurrence(b.subrange(0, end), ob, from) {
            None => None,
            Some(start) => if token_matches_spec(b, start, end, ob) {
                Some(start)
            } else if advance_after(b, start, ob) <= from || advance_after(b, start, ob) > b.len() {
                None
            } else {
                operation_from(b, ob, advance_after(b, start, ob), end)
            },
        }
    }
}


/// A position range in a text.
#[derive(Clone, Copy, Debug, PartialEq, Eq, Structural)]
pub struct Range {
    pub start: Position,
    pub end: Position,
}

/// The range of bytes `start .. end` as positions.
pub open spec fn range_of(b: Seq<u8>, start: int, end: int, r: Range) -> bool {
    &&& (r.start.line as int, r.start.character as int) == position_scan(b, 0, start, 0, 0)
    &&& (r.end.line as int, r.end.character as int) == position_scan(b, 0, end, 0, 0)
}

/// Where operation `ob` is used in the body of the declaration spanning
/// `start .. end`: after the keyword, the name, and the `:` of its header.
pub open spec fn operation_after_header(b: Seq<u8>, start: int, end: int, ob: Seq<u8>) -> Option<int> {
    let o = skip_ws(b, skip_non_ws(b, start + 1, end));
    match token_span(b, o, CharClass::Operation) {
        None => None,
        Some(name) => match header_separator(b, name.1, end) {
            None => None,
            Some(h) => operation_from(b, ob, h + 1, end),
        },
    }
}

proof fn lemma_header_separator_colon(b: Seq<u8>, off: int, end: int)
    requires
        valid_utf8_text(b),
        end <= b.len(),
        header_separator(b, off, end) is Some,
    ensures
        char_at_spec(b, header_separator(b, off, end).unwrap()) == Some(':'),
    decreases b.len() + 1 - off,
{
    let o = skip_ws(b, off);
    let sp = token_span(b, o, CharClass::Operation).unwrap();
    if chars_between(b, sp.0, sp.1) == seq![':'] {
        assert(chars_between(b, sp.0, sp.1).len() == 1);
        assert(sp.0 < sp.1);
        assert(char_at_spec(b, sp.0) is Some);
        assert(chars_between(b, sp.0, sp.1)[0] == char_at_spec(b, sp.0).unwrap());
    } else {
        lemma_header_separator_colon(b, sp.1, end);
    }
}

/// The range of the first whole use of `operation` in the body of the
/// declaration `declaration`.
pub fn find_operation_after_header(text: &str, declaration: Span, operation: &str) -> (r: Option<Range>)
    requires
        text.spec_bytes().len() <= u32::MAX,
        declaration.start < declaration.end <= text.spec_bytes().len(),
        is_char_boundary(text.spec_bytes(), declaration.start + 1),
        is_char_boundary(text.spec_bytes(), declaration.end as int),
    ensures
        match r {
            Some(rg) => operation_after_header(
                text.spec_bytes(),
                declaration.start as int,
                declaration.end as int,
                operation.spec_bytes(),
            ) matches Some(i) && range_of(text.spec_bytes(), i, i + operation.spec_bytes().len(), rg),
            None => operation_after_header(
                text.spec_bytes(),
                declaration.start as int,
                declaration.end as int,
                operation.spec_bytes(),
            ) is None,
        },
{
    let ghost b = text.spec_bytes();
    let ghost ob = operation.spec_bytes();
    proof {
        lemma_text_valid(text);
        lemma_text_valid(operation);
    }
    let end = declaration.end;
    let o1 = skip_non_whitespace(text, declaration.start + 1, end);
    proof {
        lemma_skip_non_ws(b, declaration.start + 1, end as int);
    }
    let o2 = skip_whitespace(text, o1);
    let name = match token_at(text, o2, CharClass::Operation) {
        None => return None,
        Some(t) => t,
    };
    proof {
        lemma_token_boundaries(b, o2 as int, CharClass::Operation);
    }
    let h = match find_header_separator(text, name.end, end) {
        None => return None,
        Some(h) => h,
    };
    proof {
        lemma_header_separator_colon(b, name.end as int, end as int);
        lemma_char_step(b, h as int);
        assert((':' as u32) == 0x3a);
        assert(crate::text::char_width(':') == 1);
    }
    let (window, _) = text.split_at(end);
    let ghost w = window.spec_bytes();
    assert(w == b.subrange(0, end as int));
    let op_len = text_len(operation);
    let mut search_from = h + 1;
    while search_from < end
        invariant
            b == text.spec_bytes(),
            valid_utf8_text(b),
            ob == operation.spec_bytes(),
            vstd::utf8::valid_utf8(ob),
            op_len == ob.len(),
            w == window.spec_bytes(),
            w == b.subrange(0, end as int),
            end == declaration.end,
            end <= b.len(),
            b.len() <= u32::MAX,
            is_char_boundary(b, end as int),
            search_from <= b.len(),
            is_char_boundary(b, search_from as int),
            operation_after_header(b, declaration.start as int, end as int, ob) == operation_from(
                b,
                ob,
                search_from as int,
                end as int,
            ),
        decreases b.len() + 1 - search_from,
    {
        let start = match find_from(window, operation, search_from) {
            None => return None,
            Some(s) => s,
        };
        proof {
            lemma_first_occurrence_bounds(w, ob, search_from as int);
            assert(occurs_at(b, ob, start as int)) by {
                assert(b.subrange(start as int, start + ob.len()) =~= w.subrange(start as int, start + ob.len()));
            }
            if ob.len() > 0 {
                lemma_occurrence_boundaries(b, ob, start as int);
            } else {
                assert(w.subrange(search_from as int, search_from as int) =~= ob);
                assert(occurs_at(w, ob, search_from as int));
                assert(start == search_from);
            }
        }
        if operation_token_matches(text, start, end, operation) {
            let rs = position_at_offset(text, start);
            let re = position_at_offset(text, start + op_len);
            return Some(Range { start: rs, end: re });
        }
        if op_len > 0 {
            search_from = start + op_len;
        } else {
            let c = match char_at(text, start) {
                Some(c) => c,
                None => {
                    assert(false);
                    return None;
                },
            };
            proof {
                lemma_char_step(b, start as int);
            }
            search_from = step(text, start, c);
        }
    }
    None
}

proof fn lemma_skip_non_ws(b: Seq<u8>, off: int, end: int)
    requires
        valid_utf8_text(b),
        0 <= off <= b.len(),
        is_char_boundary(b, off),
    ensures
        off <= skip_non_ws(b, off, end) <= b.len(),
        is_char_boundary(b, skip_non_ws(b, off, end)),
    decreases b.len() - off,
{
    if off < end {
        if let Some(c) = char_at_spec(b, off) {
            if !is_whitespace_spec(c) {
                lemma_char_step(b, off);
                lemma_next_pos_advances(b, off);
                lemma_skip_non_ws(b, next_pos(b, off), end);
            }
        }
    }
}


/// What a declaration found by `declaration_from` is made of.
proof fn lemma_declaration_from(b: Seq<u8>, nb: Seq<u8>, name: Seq<char>, from: int)
    ensures
        declaration_from(b, nb, name, from) matches Some(p) ==> occurs_at(b, nb, p.0) && matching_close(b, p.0)
            == Some(p.1),
    decreases b.len() + 1 - from,
{
    lemma_first_occurrence_bounds(b, nb, from);
    if let Some(start) = first_occurrence(b, nb, from) {
        if let Some(sp) = token_span(b, skip_ws(b, start + nb.len()), CharClass::Operation) {
            if chars_between(b, sp.0, sp.1) != name {
                lemma_declaration_from(b, nb, name, start + 1);
            }
        }
    }
}

/// The name token of the first declaration `(keyword name ..)` at or after
/// `from`, like `declaration_from` but without needing the declaration to
/// be closed.
pub open spec fn declaration_name_from(b: Seq<u8>, nb: Seq<u8>, name: Seq<char>, from: int) -> Option<(int, int)>
    decreases b.len() + 1 - from,
{
    match first_occurrence(b, nb, from) {
        None => None,
        Some(start) => {
            proof {
                lemma_first_occurrence_bounds(b, nb, from);
            }
            match token_span(b, skip_ws(b, start + nb.len()), CharClass::Operation) {
                None => None,
                Some(sp) => if chars_between(b, sp.0, sp.1) == name {
                    Some(sp)
                } else {
                    declaration_name_from(b, nb, name, start + 1)
                },
            }
        },
    }
}

/// The range of the name in the declaration `(keyword name ..)`.
pub fn declaration_name_range(text: &str, keyword: &str, name: &str) -> (r: Option<Range>)
    requires
        text.spec_bytes().len() <= u32::MAX,
    ensures
        match r {
            Some(rg) => declaration_name_from(text.spec_bytes(), decl_needle(keyword@), name@, 0) matches Some(
                sp,
            ) && range_of(text.spec_bytes(), sp.0, sp.1, rg),
            None => declaration_name_from(text.spec_bytes(), decl_needle(keyword@), name@, 0) is None,
        },
{
    let ghost b = text.spec_bytes();
    proof {
        lemma_text_valid(text);
    }
    let n = text_len(text);
    let mut needle = String::new();
    push_char(&mut needle, '(');
    push_str(&mut needle, keyword);
    let ghost nb = decl_needle(keyword@);
    assert(needle@ =~= seq!['('] + keyword@);
    let ns = needle.as_str();
    assert(ns.spec_bytes() == nb);
    let needle_len = text_len(ns);
    let mut search_from: usize = 0;
    loop
        invariant
            b == text.spec_bytes(),
            valid_utf8_text(b),
            n == b.len(),
            n <= u32::MAX,
            nb == decl_needle(keyword@),
            ns.spec_bytes() == nb,
            needle_len == nb.len(),
            search_from <= n,
            is_char_boundary(b, search_from as int),
            declaration_name_from(b, nb, name@, 0) == declaration_name_from(b, nb, name@, search_from as int),
        decreases n + 1 - search_from,
    {
        let start = match find_from(text, ns, search_from) {
            None => return None,
            Some(s) => s,
        };
        proof {
            lemma_first_occurrence_bounds(b, nb, search_from as int);
            lemma_needle(b, keyword@, start as int);
        }
        let offset = skip_whitespace(text, start + needle_len);
        let token = match token_at(text, offset, CharClass::Operation) {
            None => return None,
            Some(t) => t,
        };
        if text_eq(token.text.as_str(), name) {
            let rs = position_at_offset(text, token.start);
            let re = position_at_offset(text, token.end);
            return Some(Range { start: rs, end: re });
        }
        search_from = start + 1;
    }
}

/// The name token of the first top-level definition
/// `(def theory name ..)` at or after `from`; the search stops with
/// nothing when an occurrence of `(def` is not followed by two tokens.
pub open spec fn definition_name_from(b: Seq<u8>, theory: Seq<char>, name: Seq<char>, from: int) -> Option<
    (int, int),
>
    decreases b.len() + 1 - from,
{
    let nb = decl_needle("def"@);
    match first_occurrence(b, nb, from) {
        None => None,
        Some(start) => {
            proof {
                lemma_first_occurrence_bounds(b, nb, from);
            }
            match token_span(b, skip_ws(b, start + nb.len()), CharClass::Operation) {
                None => None,
                Some(th) => match token_span(b, skip_ws(b, th.1), CharClass::Operation) {
                    None => None,
                    Some(nm) => if chars_between(b, th.0, th.1) == theory && chars_between(b, nm.0, nm.1) == name {
                        Some(nm)
                    } else {
                        definition_name_from(b, theory, name, start + 1)
                    },
                },
            }
        },
    }
}

/// The range of `name` in the top-level definition `(def theory name ..)`.
pub fn top_level_definition_name_range(text: &str, theory: &str, name: &str) -> (r: Option<Range>)
    requires
        text.spec_bytes().len() <= u32::MAX,
    ensures
        match r {
            Some(rg) => definition_name_from(text.spec_bytes(), theory@, name@, 0) matches Some(sp) && range_of(
                text.spec_bytes(),
                sp.0,
                sp.1,
                rg,
            ),
            None => definition_name_from(text.spec_bytes(), theory@, name@, 0) is None,
        },
{
    let ghost b = text.spec_bytes();
    proof {
        lemma_text_valid(text);
        reveal_strlit("def");
        reveal_strlit("(def");
    }
    let n = text_len(text);
    let needle = "(def";
    let ghost nb = decl_needle("def"@);
    assert(needle@ =~= seq!['('] + "def"@);
    assert(needle.spec_bytes() == nb);
    let needle_len = text_len(needle);
    let mut search_from: usize = 0;
    loop
        invariant
            b == text.spec_bytes(),
            valid_utf8_text(b),
            n == b.len(),
            n <= u32::MAX,
            nb == decl_needle("def"@),
            needle.spec_bytes() == nb,
            needle_len == nb.len(),
            search_from <= n,
            is_char_boundary(b, search_from as int),
            definition_name_from(b, theory@, name@, 0) == definition_name_from(b, theory@, name@, search_from as int),
        decreases n + 1 - search_from,
    {
        let start = match find_from(text, needle, search_from) {
            None => return None,
            Some(s) => s,
        };
        proof {
            lemma_first_occurrence_bounds(b, nb, search_from as int);
            lemma_needle(b, "def"@, start as int);
        }
        let offset = skip_whitespace(text, start + needle_len);
        let theory_token = match token_at(text, offset, CharClass::Operation) {
            None => return None,
            Some(t) => t,
        };
        proof {
            lemma_token_boundaries(b, offset as int, CharClass::Operation);
        }
        let offset2 = skip_whitespace(text, theory_token.end);
        let name_token = match token_at(text, offset2, CharClass::Operation) {
            None => return None,
            Some(t) => t,
        };
        if text_eq(theory_token.text.as_str(), theory) && text_eq(name_token.text.as_str(), name) {
            let rs = position_at_offset(text, name_token.start);
            let re = position_at_offset(text, name_token.end);
            return Some(Range { start: rs, end: re });
        }
        search_from = start + 1;
    }
}


/// The declaration of arrow `arrow`: an `arr` declaration, or else a `def`.
pub open spec fn arrow_declaration_span(b: Seq<u8>, arrow: Seq<char>) -> Option<(int, int)> {
    match declaration_from(b, decl_needle("arr"@), arrow, 0) {
        Some(p) => Some(p),
        None => declaration_from(b, decl_needle("def"@), arrow, 0),
    }
}

/// Where in `b` an error message `mb` about an unknown operation points: the
/// message names the arrow (`arrow <name>: Couldn't`) and the operation
/// (`No such operation <op>`); the range is the first whole use of the
/// operation in the body of the arrow's declaration, or else the opening
/// parenthesis of the declaration. The result is the range's byte span.
pub open spec fn diagnostic_span(b: Seq<u8>, mb: Seq<u8>) -> Option<(int, int)> {
    match between_spec(mb, "arrow ".spec_bytes(), ": Couldn't".spec_bytes()) {
        None => None,
        Some(arrow) => match after_spec(mb, "No such operation ".spec_bytes()) {
            None => None,
            Some(op) => match arrow_declaration_span(b, arrow) {
                None => None,
                Some(d) => match operation_after_header(b, d.0, d.1, vstd::utf8::encode_utf8(op)) {
                    Some(i) => Some((i, i + vstd::utf8::encode_utf8(op).len())),
                    None => Some((d.0, d.0 + 1)),
                },
            },
        },
    }
}

/// The range of `text` that the error `message` is about, when it names an
/// arrow and an unknown operation.
pub fn diagnostic_range(text: &str, message: &str) -> (r: Option<Range>)
    requires
        text.spec_bytes().len() <= u32::MAX,
    ensures
        match r {
            Some(rg) => diagnostic_span(text.spec_bytes(), message.spec_bytes()) matches Some(sp) && range_of(
                text.spec_bytes(),
                sp.0,
                sp.1,
                rg,
            ),
            None => diagnostic_span(text.spec_bytes(), message.spec_bytes()) is None,
        },
{
    let ghost b = text.spec_bytes();
    proof {
        lemma_text_valid(text);
    }
    let arrow = extract_between(message, "arrow ", ": Couldn't")?;
    let operation = extract_after(message, "No such operation ")?;
    let declaration = find_arrow_declaration(text, arrow.as_str())?;
    proof {
        reveal_strlit("arr");
        reveal_strlit("def");
        let kw = if declaration_from(b, decl_needle("arr"@), arrow@, 0) is Some { "arr"@ } else { "def"@ };
        lemma_declaration_from(b, decl_needle(kw), arrow@, 0);
        lemma_needle(b, kw, declaration.start as int);
        lemma_matching_close_char(b, declaration.start as int);
        crate::syntax::lemma_matching_close_after(b, declaration.start as int);
    }
    let op = operation.as_str();
    match find_operation_after_header(text, declaration, op) {
        Some(rg) => Some(rg),
        None => {
            let rs = position_at_offset(text, declaration.start);
            let re = position_at_offset(text, declaration.start + 1);
            Some(Range { start: rs, end: re })
        },
    }
}

/// The first character of the text, where an error without a place is
/// shown.
pub fn file_start_range() -> (r: Range)
    ensures
        r == (Range { start: Position { line: 0, character: 0 }, end: Position { line: 0, character: 1 } }),
{
    Range { start: Position { line: 0, character: 0 }, end: Position { line: 0, character: 1 } }
}

} // verus!
