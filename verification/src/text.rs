//! UTF-8 text helpers: characters at byte offsets, character widths, and
//! string building.
use vstd::prelude::*;
use vstd::string::*;
use vstd::utf8::*;

verus! {

broadcast use vstd::string::group_string_axioms;

/// The character whose encoding starts at byte `i` of the byte sequence `b`,
/// or `None` when `i` is not the start of a character.
pub open spec fn char_at_spec(b: Seq<u8>, i: int) -> Option<char> {
    if 0 <= i < b.len() && is_char_boundary(b, i) {
        Some(decode_utf8(b.subrange(i, b.len() as int))[0])
    } else {
        None
    }
}

/// The number of bytes in the UTF-8 encoding of `c`.
pub open spec fn char_width(c: char) -> nat {
    encode_scalar(c as u32).len()
}

/// Every text is valid UTF-8.
pub proof fn lemma_text_valid(text: &str)
    ensures
        valid_utf8(text.spec_bytes()),
        is_char_boundary(text.spec_bytes(), 0),
        is_char_boundary(text.spec_bytes(), text.spec_bytes().len() as int),
{
    encode_utf8_valid_utf8(text@);
    is_char_boundary_start_end_of_seq(text.spec_bytes());
}

/// Stepping over the character at a boundary lands on the next boundary.
pub proof fn lemma_char_step(b: Seq<u8>, i: int)
    requires
        valid_utf8(b),
        char_at_spec(b, i) is Some,
    ensures
        1 <= char_width(char_at_spec(b, i)->0) <= 4,
        char_width(char_at_spec(b, i)->0) == length_of_first_scalar(b.subrange(i, b.len() as int)),
        i + char_width(char_at_spec(b, i)->0) <= b.len(),
        is_char_boundary(b, i + char_width(char_at_spec(b, i)->0)),
        forall|k: int| i < k < i + char_width(char_at_spec(b, i)->0) ==> !is_char_boundary(b, k),
{
    let rest = b.subrange(i, b.len() as int);
    valid_utf8_split(b, i);
    decode_utf8_first_scalar(rest);
    let c = char_at_spec(b, i)->0;
    assert(decode_utf8(rest)[0] == decode_first_scalar(rest) as char);
    let w = length_of_first_scalar(rest);
    assert(take_first_scalar(rest).len() == w);
    let pop = pop_first_scalar(rest);
    assert(valid_first_scalar(rest));
    assert forall|k: int| i < k < i + w implies !is_char_boundary(b, k) by {
        assert(rest[k - i] == b[k]);
        assert(is_continuation_byte(rest[k - i]));
        is_char_boundary_iff_not_is_continuation_byte(b, k);
    }
    if i + w == b.len() {
        is_char_boundary_start_end_of_seq(b);
    } else {
        assert(pop.len() > 0);
        assert(valid_utf8(pop));
        assert(valid_first_scalar(pop));
        assert(pop[0] == b[i + w]);
        is_char_boundary_iff_not_is_continuation_byte(b, i + w);
    }
}

/// The character starting at `offset`, if `offset` is the start of a
/// character of `text`.
pub fn char_at(text: &str, offset: usize) -> (r: Option<char>)
    ensures
        r == char_at_spec(text.spec_bytes(), offset as int),
{
    proof {
        lemma_text_valid(text);
    }
    if text.is_char_boundary(offset) {
        let (_, rest) = text.split_at(offset);
        proof {
            encode_utf8_decode_utf8(rest@);
            if rest@.len() == 0 {
                assert(encode_utf8(rest@) =~= Seq::<u8>::empty());
            }
        }
        let mut it = rest.chars();
        it.next()
    } else {
        None
    }
}

/// The number of bytes of the UTF-8 encoding of `c`.
pub fn char_len_utf8(c: char) -> (n: usize)
    ensures
        n == char_width(c),
{
    let v = c as u32;
    proof {
        char_is_scalar(c);
    }
    if v <= 0x7f {
        1
    } else if v <= 0x7ff {
        2
    } else if v <= 0xffff {
        3
    } else {
        4
    }
}

/// Appends a character to a string.
#[verifier::external_body]
pub(crate) fn push_char(s: &mut String, c: char)
    ensures
        final(s)@ == old(s)@.push(c),
{
    s.push(c)
}

} // verus!

verus! {

/// The decimal digit character for `d < 10`.
pub open spec fn digit_char(d: nat) -> char {
    (('0' as u32) + d) as char
}

/// The decimal representation of `n`, most significant digit first.
pub open spec fn decimal(n: nat) -> Seq<char>
    decreases n,
{
    if n < 10 {
        seq![digit_char(n)]
    } else {
        decimal(n / 10).push(digit_char(n % 10))
    }
}

/// Renders `n` in decimal.
pub fn usize_to_decimal(n: usize) -> (s: String)
    ensures
        s@ == decimal(n as nat),
{
    let mut digits: Vec<char> = Vec::new();
    let mut m = n;
    // digits holds the low digits of n, least significant first.
    while m >= 10
        invariant
            m <= n,
            decimal(n as nat) == decimal(m as nat) + digits@.reverse(),
        decreases m,
    {
        let d = (m % 10) as u32;
        let c = char_from_digit(d);
        digits.push(c);
        proof {
            assert(digits@.reverse() =~= seq![c] + digits@.drop_last().reverse());
            assert(decimal(m as nat) == decimal((m / 10) as nat).push(c));
            assert(decimal((m / 10) as nat).push(c) =~= decimal((m / 10) as nat) + seq![c]);
        }
        m = m / 10;
    }
    let mut s = String::new();
    push_char(&mut s, char_from_digit(m as u32));
    let mut i = digits.len();
    while i > 0
        invariant
            i <= digits.len(),
            decimal(n as nat) == s@ + digits@.subrange(0, i as int).reverse(),
        decreases i,
    {
        i = i - 1;
        let c = digits[i];
        push_char(&mut s, c);
        proof {
            assert(digits@.subrange(0, i + 1).reverse() =~= seq![c] + digits@.subrange(0, i as int).reverse());
        }
    }
    assert(digits@.subrange(0, 0).reverse() =~= Seq::<char>::empty());
    s
}

/// The digit character for `d < 10`.
fn char_from_digit(d: u32) -> (c: char)
    requires
        d < 10,
    ensures
        c == digit_char(d as nat),
{
    if d == 0 { '0' }
    else if d == 1 { '1' }
    else if d == 2 { '2' }
    else if d == 3 { '3' }
    else if d == 4 { '4' }
    else if d == 5 { '5' }
    else if d == 6 { '6' }
    else if d == 7 { '7' }
    else if d == 8 { '8' }
    else { '9' }
}

/// Appends the characters of `t` to `s`.
pub fn push_str(s: &mut String, t: &str)
    ensures
        final(s)@ == old(s)@ + t@,
{
    s.append(t);
}

} // verus!

verus! {

/// The byte position just after the character at `i`.
pub open spec fn next_pos(b: Seq<u8>, i: int) -> int {
    let n = i + char_width(char_at_spec(b, i)->0);
    if n <= b.len() {
        n
    } else {
        b.len() as int
    }
}

/// The position after a character lies after it and within the bytes.
pub proof fn lemma_next_pos_advances(b: Seq<u8>, i: int)
    requires
        char_at_spec(b, i) is Some,
    ensures
        i < next_pos(b, i) <= b.len(),
{
    lemma_width_positive(char_at_spec(b, i)->0);
}

/// Any character's encoding takes at least one byte.
pub proof fn lemma_width_positive(c: char)
    ensures
        char_width(c) >= 1,
{
}

/// The number of bytes of a text.
pub fn text_len(text: &str) -> (n: usize)
    ensures
        n == text.spec_bytes().len(),
{
    let bytes = text.as_bytes();
    bytes.len()
}

/// The position after the character `c` found at `i`.
pub fn step(text: &str, i: usize, c: char) -> (r: usize)
    requires
        char_at_spec(text.spec_bytes(), i as int) == Some(c),
    ensures
        r == next_pos(text.spec_bytes(), i as int),
        r == i + char_width(c),
        i < r <= text.spec_bytes().len(),
        is_char_boundary(text.spec_bytes(), r as int),
{
    proof {
        lemma_text_valid(text);
        lemma_char_step(text.spec_bytes(), i as int);
    }
    let n = text_len(text);
    let w = char_len_utf8(c);
    i + w
}

/// Whether `c` has the Unicode White_Space property, as `char::is_whitespace`.
pub open spec fn is_whitespace_spec(c: char) -> bool {
    let v = c as u32;
    (0x9 <= v <= 0xd) || v == 0x20 || v == 0x85 || v == 0xa0 || v == 0x1680 || (0x2000 <= v
        <= 0x200a) || v == 0x2028 || v == 0x2029 || v == 0x202f || v == 0x205f || v == 0x3000
}

/// Whether `c` is a whitespace character.
pub fn is_whitespace(c: char) -> (r: bool)
    ensures
        r == is_whitespace_spec(c),
{
    let v = c as u32;
    (0x9 <= v && v <= 0xd) || v == 0x20 || v == 0x85 || v == 0xa0 || v == 0x1680 || (0x2000 <= v
        && v <= 0x200a) || v == 0x2028 || v == 0x2029 || v == 0x202f || v == 0x205f || v == 0x3000
}

/// Whether an ASCII character is a letter or a digit.
pub open spec fn is_ascii_alphanumeric_spec(c: char) -> bool {
    ('a' <= c <= 'z') || ('A' <= c <= 'Z') || ('0' <= c <= '9')
}

/// Whether `c` is an ASCII letter or digit.
pub fn is_ascii_alphanumeric(c: char) -> (r: bool)
    ensures
        r == is_ascii_alphanumeric_spec(c),
{
    ('a' <= c && c <= 'z') || ('A' <= c && c <= 'Z') || ('0' <= c && c <= '9')
}

/// The characters of a text.
pub fn chars_of(s: &str) -> (r: Vec<char>)
    ensures
        r@ == s@,
{
    let mut r: Vec<char> = Vec::new();
    for c in it: s.chars()
        invariant
            r@ == it.seq().take(it.index() as int),
            it.seq() == s@,
    {
        r.push(c);
        assert(it.seq().take(it.index() + 1) =~= it.seq().take(it.index() as int).push(c));
    }
    assert(s@.take(s@.len() as int) =~= s@);
    r
}

/// Whether two texts have the same characters.
pub fn text_eq(a: &str, b: &str) -> (r: bool)
    ensures
        r == (a@ == b@),
{
    let x = chars_of(a);
    let y = chars_of(b);
    if x.len() != y.len() {
        return false;
    }
    let mut i: usize = 0;
    while i < x.len()
        invariant
            x@ == a@,
            y@ == b@,
            x.len() == y.len(),
            i <= x.len(),
            forall|j: int| 0 <= j < i ==> x@[j] == y@[j],
        decreases x.len() - i,
    {
        if x[i] != y[i] {
            return false;
        }
        i = i + 1;
    }
    assert(x@ =~= y@);
    true
}

/// The number of UTF-16 code units of `c`.
pub open spec fn utf16_width(c: char) -> nat {
    if (c as u32) >= 0x10000 {
        2
    } else {
        1
    }
}

/// The number of UTF-16 code units of `c`.
pub fn char_len_utf16(c: char) -> (n: u32)
    ensures
        n == utf16_width(c),
        n <= char_width(c),
{
    proof {
        vstd::utf8::char_is_scalar(c);
    }
    if (c as u32) >= 0x10000 {
        2
    } else {
        1
    }
}

} // verus!

verus! {

/// A valid UTF-8 sequence that occurs in a text at a character boundary
/// ends at a character boundary.
pub proof fn lemma_match_ends_at_boundary(b: Seq<u8>, i: int, nb: Seq<u8>)
    requires
        valid_utf8(b),
        valid_utf8(nb),
        0 <= i,
        i + nb.len() <= b.len(),
        is_char_boundary(b, i),
        b.subrange(i, i + nb.len()) == nb,
    ensures
        is_char_boundary(b, i + nb.len()),
    decreases nb.len(),
{
    if nb.len() > 0 {
        assert(char_at_spec(b, i) is Some);
        lemma_char_step(b, i);
        let rest = b.subrange(i, b.len() as int);
        assert(rest[0] == nb[0]);
        let w = length_of_first_scalar(nb);
        assert(w == length_of_first_scalar(rest));
        let tail = pop_first_scalar(nb);
        assert(valid_utf8(tail));
        assert(b.subrange(i + w, i + w + tail.len()) =~= tail);
        lemma_match_ends_at_boundary(b, i + w, tail);
    }
}

} // verus!

verus! {

/// A character boundary of a text, at or after a boundary `i`, is a
/// boundary of the text from `i` on.
pub proof fn lemma_boundary_in_suffix(b: Seq<u8>, i: int, k: int)
    requires
        valid_utf8(b),
        0 <= i <= k <= b.len(),
        is_char_boundary(b, i),
        is_char_boundary(b, k),
    ensures
        is_char_boundary(b.subrange(i, b.len() as int), k - i),
{
    let t = b.subrange(i, b.len() as int);
    valid_utf8_split(b, i);
    if k < b.len() {
        is_char_boundary_iff_not_is_continuation_byte(b, k);
        is_char_boundary_iff_not_is_continuation_byte(t, k - i);
        assert(t[k - i] == b[k]);
    } else {
        is_char_boundary_start_end_of_seq(t);
    }
}

/// Before a boundary `e`, a text and its first `e` bytes have the same
/// characters at the same places.
pub proof fn lemma_char_at_prefix(b: Seq<u8>, e: int, i: int)
    requires
        valid_utf8(b),
        0 <= i < e <= b.len(),
        is_char_boundary(b, e),
        is_char_boundary(b, i),
    ensures
        char_at_spec(b.subrange(0, e), i) == char_at_spec(b, i),
        char_at_spec(b, i) is Some,
        next_pos(b.subrange(0, e), i) == next_pos(b, i),
        is_char_boundary(b, next_pos(b, i)),
        valid_utf8(b.subrange(0, e)),
{
    let t = b.subrange(0, e);
    valid_utf8_split(b, e);
    lemma_boundary_in_prefix(b, e, i);
    let r = b.subrange(i, b.len() as int);
    valid_utf8_split(b, i);
    lemma_boundary_in_suffix(b, i, e);
    decode_utf8_split(r, e - i);
    let head = r.subrange(0, e - i);
    assert(head =~= t.subrange(i, t.len() as int));
    valid_utf8_split(r, e - i);
    assert(head.len() > 0);
    assert(decode_utf8(head).len() > 0);
    assert(decode_utf8(r)[0] == decode_utf8(head)[0]);
    lemma_char_step(t, i);
    lemma_char_step(b, i);
}

/// A character boundary of a text, at or before a boundary `e`, is a
/// boundary of the text up to `e`.
pub proof fn lemma_boundary_in_prefix(b: Seq<u8>, e: int, k: int)
    requires
        valid_utf8(b),
        0 <= k <= e <= b.len(),
        is_char_boundary(b, e),
        is_char_boundary(b, k),
    ensures
        is_char_boundary(b.subrange(0, e), k),
{
    let t = b.subrange(0, e);
    valid_utf8_split(b, e);
    if k < e {
        is_char_boundary_iff_not_is_continuation_byte(b, k);
        is_char_boundary_iff_not_is_continuation_byte(t, k);
        assert(t[k] == b[k]);
    } else {
        is_char_boundary_start_end_of_seq(t);
    }
}

} // verus!

