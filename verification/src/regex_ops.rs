//! The regular-expression operations the parsers use, made through the
//! `regex` crate.
//!
//! Every operation compiles its pattern with `regex::Regex::new` and reports
//! a pattern that does not compile as `None`. What a compiled pattern finds in
//! a text is named, not restated: the names below stand for the `regex`
//! crate's results on the given pattern and text.

use vstd::prelude::*;
use crate::text::{append_chars, chars_of, copy_range, string_of, sv};

verus! {

/// Whether `regex::Regex::new` accepts the pattern.
pub uninterp spec fn regex_compiles(pattern: Seq<char>) -> bool;

/// The pieces of the text between matches (`regex::Regex::split`).
pub uninterp spec fn regex_split_parts(pattern: Seq<char>, text: Seq<char>) -> Seq<Seq<char>>;

/// The texts of the successive non-overlapping matches (`regex::Regex::find_iter`).
pub uninterp spec fn regex_match_texts(pattern: Seq<char>, text: Seq<char>) -> Seq<Seq<char>>;

/// The capture groups of each successive match (`regex::Regex::captures_iter`);
/// group 0 is the whole match, an unmatched group is `None`.
pub uninterp spec fn regex_capture_groups(pattern: Seq<char>, text: Seq<char>) -> Seq<
    Seq<Option<Seq<char>>>,
>;

/// The capture groups of the leftmost match, if any (`regex::Regex::captures`).
pub uninterp spec fn regex_first_captures(pattern: Seq<char>, text: Seq<char>) -> Option<
    Seq<Option<Seq<char>>>,
>;

/// The text with every match replaced by the expansion of `rep`
/// (`regex::Regex::replace_all`).
pub uninterp spec fn regex_replaced_all(
    pattern: Seq<char>,
    text: Seq<char>,
    rep: Seq<char>,
) -> Seq<char>;

/// The text with the leftmost match replaced by the expansion of `rep`
/// (`regex::Regex::replace`).
pub uninterp spec fn regex_replaced_first(
    pattern: Seq<char>,
    text: Seq<char>,
    rep: Seq<char>,
) -> Seq<char>;

/// A character with a meaning in a pattern (`regex_syntax::is_meta_character`).
pub open spec fn regex_meta(c: char) -> bool {
    c == '\\' || c == '.' || c == '+' || c == '*' || c == '?' || c == '(' || c == ')' || c == '|' || c == '['
        || c == ']' || c == '{' || c == '}' || c == '^' || c == '$' || c == '#' || c == '&' || c == '-' || c == '~'
}

/// The pattern that matches the text literally: a backslash before each
/// meta character (`regex::escape`).
pub open spec fn regex_escaped(text: Seq<char>) -> Seq<char>
    decreases text.len(),
{
    if text.len() == 0 {
        seq![]
    } else {
        regex_escaped(text.drop_last()) + if regex_meta(text.last()) {
            seq!['\\', text.last()]
        } else {
            seq![text.last()]
        }
    }
}

/// `parts[0] + matches[0] + parts[1] + ... + parts[k]`.
pub open spec fn interleave(parts: Seq<Seq<char>>, matches: Seq<Seq<char>>) -> Seq<char>
    decreases parts.len(),
{
    if parts.len() <= 1 || matches.len() == 0 {
        if parts.len() == 0 {
            seq![]
        } else {
            parts[0]
        }
    } else {
        parts[0] + matches[0] + interleave(parts.drop_first(), matches.drop_first())
    }
}

pub open spec fn opt_view(o: Option<String>) -> Option<Seq<char>> {
    match o {
        Some(s) => Some(s@),
        None => None,
    }
}

pub open spec fn groups_view(g: Seq<Option<String>>) -> Seq<Option<Seq<char>>> {
    g.map_values(|o: Option<String>| opt_view(o))
}

pub open spec fn all_groups_view(g: Seq<Vec<Option<String>>>) -> Seq<Seq<Option<Seq<char>>>> {
    g.map_values(|v: Vec<Option<String>>| groups_view(v@))
}

/// `regex::Regex::split`, the pieces copied out; `None` when the pattern
/// does not compile. The pieces alternate with the matches and cover the
/// whole text, one more piece than matches.
#[verifier::external_body]
pub(crate) fn re_split(pattern: &str, text: &str) -> (r: Option<Vec<String>>)
    ensures
        r is Some <==> regex_compiles(pattern@),
        r matches Some(v) ==> sv(v@) == regex_split_parts(pattern@, text@),
        r matches Some(v) ==> v@.len() == regex_match_texts(pattern@, text@).len() + 1,
        r matches Some(v) ==> text@ == interleave(sv(v@), regex_match_texts(pattern@, text@)),
{
    let re = regex::Regex::new(pattern).ok()?;
    Some(re.split(text).map(|p| p.to_string()).collect())
}

/// `regex::Regex::find_iter`, each match's text copied out; `None` when the
/// pattern does not compile.
#[verifier::external_body]
pub(crate) fn re_find_all(pattern: &str, text: &str) -> (r: Option<Vec<String>>)
    ensures
        r is Some <==> regex_compiles(pattern@),
        r matches Some(v) ==> sv(v@) == regex_match_texts(pattern@, text@),
{
    let re = regex::Regex::new(pattern).ok()?;
    Some(re.find_iter(text).map(|m| m.as_str().to_string()).collect())
}

/// `regex::Regex::captures_iter`, each match's groups copied out; `None`
/// when the pattern does not compile. There is one entry per match, and
/// group 0 of each is that match's text.
#[verifier::external_body]
pub(crate) fn re_captures_all(pattern: &str, text: &str) -> (r: Option<Vec<Vec<Option<String>>>>)
    ensures
        r is Some <==> regex_compiles(pattern@),
        r matches Some(v) ==> all_groups_view(v@) == regex_capture_groups(pattern@, text@),
        r matches Some(v) ==> v@.len() == regex_match_texts(pattern@, text@).len(),
        r matches Some(v) ==> forall|k: int|
            0 <= k < v@.len() ==> #[trigger] v@[k]@.len() >= 1 && opt_view(v@[k]@[0]) == Some(
                regex_match_texts(pattern@, text@)[k],
            ),
{
    let re = regex::Regex::new(pattern).ok()?;
    Some(
        re.captures_iter(text).map(|c| c.iter().map(|g| g.map(|m| m.as_str().to_string())).collect())
            .collect(),
    )
}

/// `regex::Regex::captures`, the groups of the leftmost match copied out;
/// `None` when the pattern does not compile.
#[verifier::external_body]
pub(crate) fn re_captures(pattern: &str, text: &str) -> (r: Option<Option<Vec<Option<String>>>>)
    ensures
        r is Some <==> regex_compiles(pattern@),
        r matches Some(c) ==> match c {
            Some(g) => regex_first_captures(pattern@, text@) == Some(groups_view(g@)),
            None => regex_first_captures(pattern@, text@) is None,
        },
{
    let re = regex::Regex::new(pattern).ok()?;
    Some(re.captures(text).map(|c| c.iter().map(|g| g.map(|m| m.as_str().to_string())).collect()))
}

/// `regex::Regex::replace_all` with a `$`-expanded replacement; `None` when
/// the pattern does not compile.
#[verifier::external_body]
pub(crate) fn re_replace_all(pattern: &str, text: &str, rep: &str) -> (r: Option<String>)
    ensures
        r is Some <==> regex_compiles(pattern@),
        r matches Some(s) ==> s@ == regex_replaced_all(pattern@, text@, rep@),
{
    let re = regex::Regex::new(pattern).ok()?;
    Some(re.replace_all(text, rep).to_string())
}

/// `regex::Regex::replace` with a `$`-expanded replacement; `None` when the
/// pattern does not compile.
#[verifier::external_body]
pub(crate) fn re_replace_first(pattern: &str, text: &str, rep: &str) -> (r: Option<String>)
    ensures
        r is Some <==> regex_compiles(pattern@),
        r matches Some(s) ==> s@ == regex_replaced_first(pattern@, text@, rep@),
{
    let re = regex::Regex::new(pattern).ok()?;
    Some(re.replace(text, rep).to_string())
}

/// `regex::escape`: each character of `text` in turn, a backslash before
/// each meta character.
#[verifier::external_body]
pub(crate) fn re_escape(text: &str) -> (r: String)
    ensures
        r@ == regex_escaped(text@),
{
    regex::escape(text)
}

} // verus!

verus! {

pub open spec fn replaced_all_or_same(pattern: Seq<char>, text: Seq<char>, rep: Seq<char>) -> Seq<
    char,
> {
    if regex_compiles(pattern) {
        regex_replaced_all(pattern, text, rep)
    } else {
        text
    }
}

pub open spec fn replaced_first_or_same(pattern: Seq<char>, text: Seq<char>, rep: Seq<char>) -> Seq<
    char,
> {
    if regex_compiles(pattern) {
        regex_replaced_first(pattern, text, rep)
    } else {
        text
    }
}

/// Replace every match of `pattern` in `text` by `rep`; the text is kept
/// when the pattern does not compile.
pub fn replace_all_or_same(pattern: &str, text: &Vec<char>, rep: &str) -> (r: Vec<char>)
    ensures
        r@ == replaced_all_or_same(pattern@, text@, rep@),
{
    let t = string_of(text);
    match re_replace_all(pattern, t.as_str(), rep) {
        Some(s) => chars_of(s.as_str()),
        None => copy_range(text, 0, text.len()),
    }
}

/// Replace the leftmost match of `pattern` in `text` by `rep`; the text is
/// kept when the pattern does not compile.
pub fn replace_first_or_same(pattern: &str, text: &Vec<char>, rep: &str) -> (r: Vec<char>)
    ensures
        r@ == replaced_first_or_same(pattern@, text@, rep@),
{
    let t = string_of(text);
    match re_replace_first(pattern, t.as_str(), rep) {
        Some(s) => chars_of(s.as_str()),
        None => copy_range(text, 0, text.len()),
    }
}

} // verus!

verus! {

pub proof fn lemma_interleave_snoc(p: Seq<Seq<char>>, m: Seq<Seq<char>>, x: Seq<char>, y: Seq<char>)
    requires
        p.len() == m.len() + 1,
    ensures
        interleave(p.push(y), m.push(x)) == interleave(p, m) + x + y,
    decreases p.len(),
{
    if p.len() == 1 {
        assert(p.push(y).drop_first() =~= seq![y]);
        assert(m.push(x).drop_first() =~= Seq::<Seq<char>>::empty());
        assert(interleave(seq![y], Seq::<Seq<char>>::empty()) == y);
        assert(m.len() == 0);
        assert(m.push(x)[0] == x);
    } else {
        lemma_interleave_snoc(p.drop_first(), m.drop_first(), x, y);
        assert(p.push(y).drop_first() =~= p.drop_first().push(y));
        assert(m.push(x).drop_first() =~= m.drop_first().push(x));
        assert(p.push(y)[0] == p[0]);
        assert(m.push(x)[0] == m[0]);
    }
}

/// `interleave(parts[a..=b], matches[a..b])`.
pub fn interleave_range(parts: &Vec<String>, matches: &Vec<String>, a: usize, b: usize) -> (r: Vec<
    char,
>)
    requires
        parts@.len() == matches@.len() + 1,
        a <= b < parts@.len(),
    ensures
        r@ == interleave(
            sv(parts@).subrange(a as int, b + 1),
            sv(matches@).subrange(a as int, b as int),
        ),
{
    let ghost ps = sv(parts@);
    let ghost ms = sv(matches@);
    let mut acc = chars_of(parts[a].as_str());
    assert(ps.subrange(a as int, a + 1) =~= seq![ps[a as int]]);
    assert(interleave(seq![ps[a as int]], ms.subrange(a as int, a as int)) == ps[a as int]);
    let mut j = a;
    while j < b
        invariant
            ps == sv(parts@),
            ms == sv(matches@),
            parts@.len() == matches@.len() + 1,
            a <= j <= b < parts@.len(),
            acc@ == interleave(ps.subrange(a as int, j + 1), ms.subrange(a as int, j as int)),
        decreases b - j,
    {
        let m = chars_of(matches[j].as_str());
        let q = chars_of(parts[j + 1].as_str());
        proof {
            lemma_interleave_snoc(
                ps.subrange(a as int, j + 1),
                ms.subrange(a as int, j as int),
                ms[j as int],
                ps[j + 1],
            );
            assert(ps.subrange(a as int, j + 1).push(ps[j + 1]) =~= ps.subrange(a as int, j + 2));
            assert(ms.subrange(a as int, j as int).push(ms[j as int]) =~= ms.subrange(
                a as int,
                j + 1,
            ));
        }
        append_chars(&mut acc, &m);
        append_chars(&mut acc, &q);
        j += 1;
    }
    acc
}

} // verus!
