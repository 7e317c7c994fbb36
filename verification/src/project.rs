//! Project manifests: the texts of a project and the glob patterns that
//! select its files.
use vstd::prelude::*;
use crate::text::chars_of;

verus! {

/// The source texts that make up a project.
#[derive(Debug)]
pub struct ProjectContext {
    pub texts: Vec<String>,
}

impl ProjectContext {
    /// A project made of a single text.
    pub fn standalone(text: String) -> (r: Self)
        ensures
            r.texts@.len() == 1,
            r.texts@[0] == text,
    {
        let mut texts = Vec::new();
        texts.push(text);
        Self { texts }
    }
}

/// The pieces of `s` between occurrences of `sep`, as `str::split` gives
/// them: one more piece than there are separators.
pub open spec fn split_on(s: Seq<char>, sep: char) -> Seq<Seq<char>>
    decreases s.len(),
{
    if s.len() == 0 {
        seq![Seq::empty()]
    } else {
        let rest = split_on(s.drop_last(), sep);
        if s.last() == sep {
            rest.push(Seq::empty())
        } else {
            rest.update(rest.len() - 1, rest.last().push(s.last()))
        }
    }
}

/// Whether one path segment matches a pattern segment, where `*` stands for
/// any run of characters and `?` for any one character.
pub open spec fn segment_match(p: Seq<char>, t: Seq<char>) -> bool
    decreases p.len() + t.len(),
{
    if p.len() == 0 {
        t.len() == 0
    } else if p[0] == '*' {
        segment_match(p.drop_first(), t) || (t.len() > 0 && segment_match(p, t.drop_first()))
    } else if t.len() == 0 {
        false
    } else if p[0] == '?' {
        segment_match(p.drop_first(), t.drop_first())
    } else {
        p[0] == t[0] && segment_match(p.drop_first(), t.drop_first())
    }
}

/// The pattern segment `**`.
pub open spec fn is_double_star(p: Seq<char>) -> bool {
    p =~= seq!['*', '*']
}

/// Whether a path, as a list of segments, matches a pattern, as a list of
/// segments, where the segment `**` stands for any number of segments.
pub open spec fn parts_match(p: Seq<Seq<char>>, t: Seq<Seq<char>>) -> bool
    decreases p.len() + t.len(),
{
    if p.len() == 0 {
        t.len() == 0
    } else if is_double_star(p[0]) {
        parts_match(p.drop_first(), t) || (t.len() > 0 && parts_match(p, t.drop_first()))
    } else if t.len() == 0 {
        false
    } else {
        segment_match(p[0], t[0]) && parts_match(p.drop_first(), t.drop_first())
    }
}

/// Whether a `/`-separated path matches a `/`-separated glob pattern.
pub open spec fn glob_match_spec(pattern: Seq<char>, path: Seq<char>) -> bool {
    parts_match(split_on(pattern, '/'), split_on(path, '/'))
}

/// Splits a character sequence on `sep`.
fn split_chars(s: &Vec<char>, sep: char) -> (r: Vec<Vec<char>>)
    ensures
        parts_view(r@) == split_on(s@, sep),
{
    let mut r: Vec<Vec<char>> = Vec::new();
    r.push(Vec::new());
    let mut i: usize = 0;
    assert(s@.take(0) =~= Seq::<char>::empty());
    assert(parts_view(r@) =~= split_on(s@.take(0), sep));
    while i < s.len()
        invariant
            i <= s.len(),
            r.len() >= 1,
            parts_view(r@) == split_on(s@.take(i as int), sep),
        decreases s.len() - i,
    {
        let c = s[i];
        let ghost before = parts_view(r@);
        if c == sep {
            r.push(Vec::new());
        } else {
            let last = r.len() - 1;
            let mut piece = r.pop().unwrap();
            piece.push(c);
            r.push(piece);
            proof {
                assert(last == before.len() - 1);
            }
        }
        proof {
            assert(s@.take(i + 1).drop_last() =~= s@.take(i as int));
            assert(s@.take(i + 1).last() == c);
            assert(parts_view(r@) =~= split_on(s@.take(i + 1), sep));
        }
        i = i + 1;
    }
    assert(s@.take(s.len() as int) =~= s@);
    r
}

/// The views of a list of character vectors.
pub open spec fn parts_view(v: Seq<Vec<char>>) -> Seq<Seq<char>> {
    v.map_values(|x: Vec<char>| x@)
}

/// Whether `path` matches the glob `pattern` (`*`, `?` within a segment, `**`
/// across segments).
pub fn glob_matches(pattern: &str, path: &str) -> (r: bool)
    ensures
        r == glob_match_spec(pattern@, path@),
{
    let pattern_parts = split_chars(&chars_of(pattern), '/');
    let path_parts = split_chars(&chars_of(path), '/');
    glob_parts_match(&pattern_parts, &path_parts)
}

/// Whether a list of path segments matches a list of pattern segments.
pub fn glob_parts_match(pattern: &Vec<Vec<char>>, path: &Vec<Vec<char>>) -> (r: bool)
    ensures
        r == parts_match(parts_view(pattern@), parts_view(path@)),
{
    assert(parts_view(pattern@).skip(0) =~= parts_view(pattern@));
    assert(parts_view(path@).skip(0) =~= parts_view(path@));
    glob_parts_match_from(pattern, 0, path, 0)
}

fn glob_parts_match_from(pattern: &Vec<Vec<char>>, i: usize, path: &Vec<Vec<char>>, j: usize) -> (r: bool)
    requires
        i <= pattern.len(),
        j <= path.len(),
    ensures
        r == parts_match(parts_view(pattern@).skip(i as int), parts_view(path@).skip(j as int)),
    decreases pattern.len() - i + path.len() - j,
{
    let ghost p = parts_view(pattern@).skip(i as int);
    let ghost t = parts_view(path@).skip(j as int);
    proof {
        assert(p.len() > 0 ==> p.drop_first() =~= parts_view(pattern@).skip(i + 1));
        assert(t.len() > 0 ==> t.drop_first() =~= parts_view(path@).skip(j + 1));
        assert(p.len() > 0 ==> p[0] == pattern@[i as int]@);
        assert(t.len() > 0 ==> t[0] == path@[j as int]@);
    }
    if i == pattern.len() {
        j == path.len()
    } else if is_double_star_part(&pattern[i]) {
        glob_parts_match_from(pattern, i + 1, path, j)
            || (j < path.len() && glob_parts_match_from(pattern, i, path, j + 1))
    } else if j == path.len() {
        false
    } else {
        segment_matches(&pattern[i], &path[j]) && glob_parts_match_from(pattern, i + 1, path, j + 1)
    }
}

fn is_double_star_part(p: &Vec<char>) -> (r: bool)
    ensures
        r == is_double_star(p@),
{
    p.len() == 2 && p[0] == '*' && p[1] == '*'
}

/// Whether a path segment matches a pattern segment.
pub fn segment_matches(pattern: &Vec<char>, text: &Vec<char>) -> (r: bool)
    ensures
        r == segment_match(pattern@, text@),
{
    assert(pattern@.skip(0) =~= pattern@);
    assert(text@.skip(0) =~= text@);
    segment_matches_from(pattern, 0, text, 0)
}

fn segment_matches_from(pattern: &Vec<char>, i: usize, text: &Vec<char>, j: usize) -> (r: bool)
    requires
        i <= pattern.len(),
        j <= text.len(),
    ensures
        r == segment_match(pattern@.skip(i as int), text@.skip(j as int)),
    decreases pattern.len() - i + text.len() - j,
{
    let ghost p = pattern@.skip(i as int);
    let ghost t = text@.skip(j as int);
    proof {
        assert(p.len() > 0 ==> p.drop_first() =~= pattern@.skip(i + 1));
        assert(t.len() > 0 ==> t.drop_first() =~= text@.skip(j + 1));
    }
    if i == pattern.len() {
        j == text.len()
    } else if pattern[i] == '*' {
        segment_matches_from(pattern, i + 1, text, j)
            || (j < text.len() && segment_matches_from(pattern, i, text, j + 1))
    } else if j == text.len() {
        false
    } else if pattern[i] == '?' {
        segment_matches_from(pattern, i + 1, text, j + 1)
    } else {
        pattern[i] == text[j] && segment_matches_from(pattern, i + 1, text, j + 1)
    }
}

} // verus!

verus! {

/// A pattern segment with no `*` and no `?` matches exactly the segment
/// equal to it.
pub proof fn lemma_literal_segment_matches_itself(p: Seq<char>, t: Seq<char>)
    requires
        forall|i: int| 0 <= i < p.len() ==> p[i] != '*' && p[i] != '?',
    ensures
        segment_match(p, t) <==> p == t,
    decreases p.len() + t.len(),
{
    if p.len() == 0 {
        if t.len() != 0 {
            assert(p != t);
        } else {
            assert(p =~= t);
        }
    } else if t.len() == 0 {
        assert(p != t);
    } else {
        assert(p[0] != '*' && p[0] != '?');
        assert forall|i: int| 0 <= i < p.drop_first().len() implies p.drop_first()[i] != '*'
            && p.drop_first()[i] != '?' by {
            assert(p.drop_first()[i] == p[i + 1]);
        }
        lemma_literal_segment_matches_itself(p.drop_first(), t.drop_first());
        if p == t {
            assert(p.drop_first() == t.drop_first());
        } else if p[0] == t[0] {
            assert(p.drop_first() != t.drop_first()) by {
                if p.drop_first() == t.drop_first() {
                    assert(p =~= seq![p[0]] + p.drop_first());
                    assert(t =~= seq![t[0]] + t.drop_first());
                }
            }
        }
    }
}

/// The pattern segment `*` matches every segment.
pub proof fn lemma_star_matches_every_segment(t: Seq<char>)
    ensures
        segment_match(seq!['*'], t),
    decreases t.len(),
{
    let p = seq!['*'];
    assert(p.drop_first() =~= Seq::<char>::empty());
    assert(p.len() == 1 && p[0] == '*');
    if t.len() > 0 {
        lemma_star_matches_every_segment(t.drop_first());
        assert(segment_match(p, t.drop_first()));
    } else {
        assert(segment_match(p.drop_first(), t));
    }
}

/// The pattern `**` matches every path.
pub proof fn lemma_double_star_matches_every_path(t: Seq<Seq<char>>)
    ensures
        parts_match(seq![seq!['*', '*']], t),
    decreases t.len(),
{
    let p = seq![seq!['*', '*']];
    assert(p.len() == 1);
    assert(is_double_star(p[0]));
    assert(p.drop_first() =~= Seq::<Seq<char>>::empty());
    if t.len() > 0 {
        lemma_double_star_matches_every_path(t.drop_first());
        assert(parts_match(p, t.drop_first()));
    } else {
        assert(parts_match(p.drop_first(), t));
    }
}

} // verus!
