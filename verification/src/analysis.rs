//! Text shown to the user for arrow profiles: wire lists, and the renaming
//! of the variables of a rendered term.
use vstd::prelude::*;
use vstd::utf8::is_char_boundary;
use vstd::string::StringSliceAdditionalSpecFns;
use crate::syntax::{
    chars_between, collect_chars, previous_char, previous_char_spec, valid_utf8_text,
};
use crate::text::{
    char_at, char_at_spec, is_ascii_alphanumeric, is_ascii_alphanumeric_spec, lemma_char_step,
    lemma_next_pos_advances, lemma_text_valid, next_pos, push_char, push_str, step, text_eq, text_len,
};
use crate::tree::{comma_joined, join_comma, views};
use crate::text::{decimal, usize_to_decimal};

verus! {

/// The profile of an arrow as shown to the user: its source and target
/// terms, the number of metavariables of each, and a note when they
/// disagree.
#[derive(Debug, Clone, PartialEq, Eq)]
pub struct ArrowSpanLabel {
    pub source: String,
    pub target: String,
    pub source_metavariable_count: usize,
    pub target_metavariable_count: usize,
    pub error: Option<String>,
}

/// `1` for no wires, the label itself for one wire, and `{a, b, ..}` for
/// several.
pub open spec fn wire_list(labels: Seq<Seq<char>>) -> Seq<char> {
    if labels.len() == 0 {
        seq!['1']
    } else if labels.len() == 1 {
        labels[0]
    } else {
        seq!['{'] + comma_joined(labels) + seq!['}']
    }
}

/// The labels of a list of wires.
pub fn format_wire_list(labels: &Vec<String>) -> (r: String)
    ensures
        r@ == wire_list(views(labels@)),
{
    if labels.len() == 0 {
        let mut s = String::new();
        push_char(&mut s, '1');
        assert(s@ =~= seq!['1']);
        s
    } else if labels.len() == 1 {
        labels[0].clone()
    } else {
        let mut s = String::new();
        push_char(&mut s, '{');
        let joined = join_comma(labels);
        push_str(&mut s, joined.as_str());
        push_char(&mut s, '}');
        assert(s@ =~= seq!['{'] + comma_joined(views(labels@)) + seq!['}']);
        s
    }
}

/// Characters that continue a variable name in rendered terms.
pub open spec fn is_pretty_token_char_spec(ch: char) -> bool {
    is_ascii_alphanumeric_spec(ch) || ch == '_' || ch == '-'
}

/// Whether `ch` continues a variable name in rendered terms.
pub fn is_pretty_token_char(ch: char) -> (r: bool)
    ensures
        r == is_pretty_token_char_spec(ch),
{
    is_ascii_alphanumeric(ch) || ch == '_' || ch == '-'
}

/// No name character ends just before `offset`.
pub open spec fn token_start_ok(b: Seq<u8>, offset: int) -> bool {
    !(previous_char_spec(b, offset) matches Some(p) && is_pretty_token_char_spec(p.1))
}

/// No name character starts at `offset`.
pub open spec fn token_end_ok(b: Seq<u8>, offset: int) -> bool {
    !(char_at_spec(b, offset) matches Some(c) && is_pretty_token_char_spec(c))
}

/// Whether a name may start at `offset`: no name character ends there.
pub fn is_pretty_token_start(text: &str, offset: usize) -> (r: bool)
    ensures
        r == token_start_ok(text.spec_bytes(), offset as int),
{
    match previous_char(text, offset) {
        Some((_, c)) => !is_pretty_token_char(c),
        None => true,
    }
}

/// Whether a name may end at `offset`: no name character starts there.
pub fn is_pretty_token_end(text: &str, offset: usize) -> (r: bool)
    ensures
        r == token_end_ok(text.spec_bytes(), offset as int),
{
    match char_at(text, offset) {
        Some(c) => !is_pretty_token_char(c),
        None => true,
    }
}


/// Decimal digits.
pub open spec fn is_ascii_digit_spec(c: char) -> bool {
    '0' <= c <= '9'
}

/// The end of the run of decimal digits starting at byte `i`.
pub open spec fn digits_end(b: Seq<u8>, i: int) -> int
    decreases b.len() - i,
{
    if i >= b.len() {
        i
    } else {
        match char_at_spec(b, i) {
            Some(c) => if is_ascii_digit_spec(c) {
                proof {
                    lemma_next_pos_advances(b, i);
                }
                digits_end(b, next_pos(b, i))
            } else {
                i
            },
            None => i,
        }
    }
}

pub proof fn lemma_digits_end(b: Seq<u8>, i: int)
    requires
        0 <= i <= b.len(),
    ensures
        i <= digits_end(b, i) <= b.len(),
    decreases b.len() - i,
{
    if i < b.len() {
        if let Some(c) = char_at_spec(b, i) {
            if is_ascii_digit_spec(c) {
                lemma_next_pos_advances(b, i);
                lemma_digits_end(b, next_pos(b, i));
            }
        }
    }
}

/// The replacement of `key`: the last entry for it wins.
pub open spec fn lookup(repl: Seq<(Seq<char>, Seq<char>)>, key: Seq<char>) -> Option<Seq<char>>
    decreases repl.len(),
{
    if repl.len() == 0 {
        None
    } else if repl.last().0 == key {
        Some(repl.last().1)
    } else {
        lookup(repl.drop_last(), key)
    }
}

/// The plain values of a list of replacements.
pub open spec fn pairs_view(v: Seq<(String, String)>) -> Seq<(Seq<char>, Seq<char>)> {
    v.map_values(|p: (String, String)| (p.0@, p.1@))
}

/// The text from byte `off` with every whole name `x<digits>` or
/// `m<digits>` that has a replacement replaced.
pub open spec fn replaced(b: Seq<u8>, off: int, repl: Seq<(Seq<char>, Seq<char>)>) -> Seq<char>
    decreases b.len() - off,
{
    if off < 0 || off >= b.len() {
        Seq::empty()
    } else {
        match char_at_spec(b, off) {
            None => Seq::empty(),
            Some(c) => {
                proof {
                    lemma_next_pos_advances(b, off);
                    lemma_digits_end(b, next_pos(b, off));
                }
                if c != 'x' && c != 'm' {
                    seq![c] + replaced(b, next_pos(b, off), repl)
                } else {
                    let d = next_pos(b, off);
                    let e = digits_end(b, d);
                    let cand = chars_between(b, off, e);
                    let out = if e > d && token_start_ok(b, off) && token_end_ok(b, e) && lookup(repl, cand) is Some {
                        lookup(repl, cand)->0
                    } else {
                        cand
                    };
                    out + replaced(b, e, repl)
                }
            },
        }
    }
}

/// The replacement for `key`, if any.
fn find_replacement(repl: &Vec<(String, String)>, key: &String) -> (r: Option<String>)
    ensures
        match r {
            Some(v) => lookup(pairs_view(repl@), key@) == Some(v@),
            None => lookup(pairs_view(repl@), key@) is None,
        },
{
    let ghost pv = pairs_view(repl@);
    let mut i = repl.len();
    assert(pv.take(i as int) =~= pv);
    while i > 0
        invariant
            i <= repl.len(),
            pv == pairs_view(repl@),
            lookup(pv, key@) == lookup(pv.take(i as int), key@),
        decreases i,
    {
        assert(pv.take(i as int).drop_last() =~= pv.take(i - 1));
        assert(pv.take(i as int).last() == pv[i - 1]);
        if text_eq(repl[i - 1].0.as_str(), key.as_str()) {
            return Some(repl[i - 1].1.clone());
        }
        i = i - 1;
    }
    assert(pv.take(0) =~= Seq::<(Seq<char>, Seq<char>)>::empty());
    None
}

/// Replaces each whole variable name `x<digits>` or `m<digits>` of `text`
/// that has an entry in `replacements` by that entry's text; a later entry
/// for the same name wins.
pub fn replace_tokens(text: &str, replacements: &Vec<(String, String)>) -> (r: String)
    ensures
        r@ == replaced(text.spec_bytes(), 0, pairs_view(replacements@)),
{
    let ghost b = text.spec_bytes();
    let ghost repl = pairs_view(replacements@);
    proof {
        lemma_text_valid(text);
    }
    let n = text_len(text);
    let mut result = String::new();
    let mut offset: usize = 0;
    while offset < n
        invariant
            b == text.spec_bytes(),
            valid_utf8_text(b),
            n == b.len(),
            offset <= n,
            is_char_boundary(b, offset as int),
            repl == pairs_view(replacements@),
            replaced(b, 0, repl) == result@ + replaced(b, offset as int, repl),
        decreases n - offset,
    {
        let ch = match char_at(text, offset) {
            Some(c) => c,
            None => {
                assert(false);
                return result;
            },
        };
        proof {
            lemma_char_step(b, offset as int);
            lemma_next_pos_advances(b, offset as int);
        }
        let ghost before = result@;
        let ghost here = offset as int;
        if ch != 'x' && ch != 'm' {
            push_char(&mut result, ch);
            offset = step(text, offset, ch);
            assert(before + (seq![ch] + replaced(b, offset as int, repl)) =~= result@ + replaced(b, offset as int, repl));
        } else {
            let start = offset;
            offset = step(text, offset, ch);
            let digit_start = offset;
            proof {
                lemma_digits_end(b, digit_start as int);
            }
            let mut done = false;
            while offset < n && !done
                invariant
                    b == text.spec_bytes(),
                    valid_utf8_text(b),
                    n == b.len(),
                    digit_start <= offset <= n,
                    is_char_boundary(b, offset as int),
                    digits_end(b, digit_start as int) == digits_end(b, offset as int),
                    done ==> offset == digits_end(b, offset as int),
                decreases n - offset, (if done { 0int } else { 1int }),
            {
                match char_at(text, offset) {
                    Some(next) => {
                        if '0' <= next && next <= '9' {
                            proof {
                                lemma_char_step(b, offset as int);
                            }
                            offset = step(text, offset, next);
                        } else {
                            done = true;
                        }
                    },
                    None => {
                        done = true;
                    },
                }
            }
            assert(offset == digits_end(b, digit_start as int));
            let candidate = collect_chars(text, start, offset);
            let found = if offset > digit_start && is_pretty_token_start(text, start) && is_pretty_token_end(text, offset) {
                find_replacement(replacements, &candidate)
            } else {
                None
            };
            match found {
                Some(rep) => push_str(&mut result, rep.as_str()),
                None => push_str(&mut result, candidate.as_str()),
            }
            proof {
                let cand = chars_between(b, here, offset as int);
                let out = if offset > digit_start && token_start_ok(b, here) && token_end_ok(b, offset as int)
                    && lookup(repl, cand) is Some {
                    lookup(repl, cand)->0
                } else {
                    cand
                };
                assert(result@ == before + out);
                assert(replaced(b, here, repl) == out + replaced(b, offset as int, repl));
                assert(before + (out + replaced(b, offset as int, repl)) =~= result@ + replaced(b, offset as int, repl));
            }
        }
    }
    assert(result@ + replaced(b, offset as int, repl) =~= result@);
    result
}


/// The renaming of the source wires of a rendered term: wire `x<node>` of
/// the `i`-th source becomes the metavariable `m<i>`.
pub open spec fn source_renaming(sources: Seq<usize>) -> Seq<(Seq<char>, Seq<char>)> {
    Seq::new(sources.len(), |i: int| (seq!['x'] + decimal(sources[i] as nat), seq!['m'] + decimal(i as nat)))
}

/// `prefix` followed by `n` in decimal.
fn prefixed_number(prefix: char, n: usize) -> (r: String)
    ensures
        r@ == seq![prefix] + decimal(n as nat),
{
    let mut s = String::new();
    push_char(&mut s, prefix);
    let d = usize_to_decimal(n);
    push_str(&mut s, d.as_str());
    s
}

/// Renames the variables of a rendered term that stand for the source
/// wires `sources` to metavariables `m0`, `m1`, .. in order; when a wire
/// occurs twice, its last position wins.
pub fn replace_source_leaves(text: &str, sources: &Vec<usize>) -> (r: String)
    ensures
        r@ == replaced(text.spec_bytes(), 0, source_renaming(sources@)),
{
    let mut replacements: Vec<(String, String)> = Vec::new();
    let mut i: usize = 0;
    while i < sources.len()
        invariant
            i <= sources.len(),
            pairs_view(replacements@) == source_renaming(sources@).take(i as int),
        decreases sources.len() - i,
    {
        let key = prefixed_number('x', sources[i]);
        let value = prefixed_number('m', i);
        let ghost before = pairs_view(replacements@);
        replacements.push((key, value));
        assert(pairs_view(replacements@) =~= before.push((key@, value@)));
        assert(source_renaming(sources@).take(i + 1) =~= source_renaming(sources@).take(i as int).push(
            source_renaming(sources@)[i as int],
        ));
        i = i + 1;
    }
    assert(source_renaming(sources@).take(sources.len() as int) =~= source_renaming(sources@));
    replace_tokens(text, &replacements)
}

} // verus!
