//! Text normalization helpers for constraint and format-line parsing.

use vstd::prelude::*;
use crate::text::{
    append_chars, chars_eq, chars_of, contains, contains_char, copy_range, find, is_ascii_alnum,
    is_ascii_alpha, lower, parse_u64, replace_str, spec_contains, spec_find, spec_is_ascii_alnum,
    spec_is_ascii_alpha, spec_lower, spec_parse_u64, spec_replace, spec_split_ws, spec_to_ascii_lower,
    split_ws, string_of, to_ascii_lower, vv,
};

verus! {

// ─── snake ──────────────────────────────────────────────────────────────────

/// Left-to-right scan of `snake`: alphanumerics lowered, every run of other
/// characters collapsed to one `_`; the flag says whether the last emitted
/// character was such a `_`.
pub open spec fn snake_scan(s: Seq<char>) -> (Seq<char>, bool)
    decreases s.len(),
{
    if s.len() == 0 {
        (seq![], false)
    } else {
        let p = snake_scan(s.drop_last());
        let ch = s.last();
        if spec_is_ascii_alnum(ch) {
            (p.0.push(spec_to_ascii_lower(ch)), false)
        } else if p.1 {
            (p.0, true)
        } else {
            (p.0.push('_'), true)
        }
    }
}

pub open spec fn strip_char_start(s: Seq<char>, c: char) -> Seq<char>
    decreases s.len(),
{
    if s.len() > 0 && s[0] == c {
        strip_char_start(s.drop_first(), c)
    } else {
        s
    }
}

pub open spec fn strip_char_end(s: Seq<char>, c: char) -> Seq<char>
    decreases s.len(),
{
    if s.len() > 0 && s.last() == c {
        strip_char_end(s.drop_last(), c)
    } else {
        s
    }
}

/// `str::trim_matches(c)`.
pub open spec fn strip_char(s: Seq<char>, c: char) -> Seq<char> {
    strip_char_end(strip_char_start(s, c), c)
}

pub open spec fn spec_snake(s: Seq<char>) -> Seq<char> {
    strip_char(snake_scan(s).0, '_')
}

pub fn strip_char_chars(s: &Vec<char>, c: char) -> (r: Vec<char>)
    ensures
        r@ == strip_char(s@, c),
{
    let mut i: usize = 0;
    assert(s@.skip(0) =~= s@);
    while i < s.len() && s[i] == c
        invariant
            i <= s@.len(),
            strip_char_start(s@.skip(i as int), c) == strip_char_start(s@, c),
        decreases s.len() - i,
    {
        assert(s@.skip(i as int).drop_first() =~= s@.skip(i + 1));
        i += 1;
    }
    let t = copy_range(s, i, s.len());
    assert(t@ =~= s@.skip(i as int));
    let mut j: usize = t.len();
    assert(t@.take(t@.len() as int) =~= t@);
    while j > 0 && t[j - 1] == c
        invariant
            j <= t@.len(),
            strip_char_end(t@.take(j as int), c) == strip_char_end(t@, c),
        decreases j,
    {
        assert(t@.take(j as int).drop_last() =~= t@.take(j - 1));
        j -= 1;
    }
    assert(t@.subrange(0, j as int) =~= t@.take(j as int));
    copy_range(&t, 0, j)
}

pub fn snake_chars(s: &Vec<char>) -> (r: Vec<char>)
    ensures
        r@ == spec_snake(s@),
{
    let mut out: Vec<char> = Vec::new();
    let mut prev = false;
    let mut i: usize = 0;
    assert(s@.take(0) =~= Seq::<char>::empty());
    while i < s.len()
        invariant
            i <= s@.len(),
            (out@, prev) == snake_scan(s@.take(i as int)),
        decreases s.len() - i,
    {
        let ch = s[i];
        assert(s@.take(i + 1).drop_last() =~= s@.take(i as int));
        assert(s@.take(i + 1).last() == ch);
        if is_ascii_alnum(ch) {
            out.push(to_ascii_lower(ch));
            prev = false;
        } else {
            if !prev {
                out.push('_');
            }
            prev = true;
        }
        i += 1;
    }
    assert(s@.take(s@.len() as int) =~= s@);
    strip_char_chars(&out, '_')
}

/// Lowercase ASCII snake case: alphanumerics lowered, every run of other
/// characters turned into a single `_`, no `_` at either end.
pub fn snake(s: &str) -> (r: String)
    ensures
        r@ == spec_snake(s@),
{
    let c = chars_of(s);
    let r = snake_chars(&c);
    string_of(&r)
}

/// A character `snake` can emit: a lowercase letter, a digit or `_`.
pub open spec fn snake_char(c: char) -> bool {
    ('a' <= c && c <= 'z') || ('0' <= c && c <= '9') || c == '_'
}

/// Only snake characters, no `__`, no `_` at either end.
pub open spec fn is_snake(u: Seq<char>) -> bool {
    &&& forall|i: int| 0 <= i < u.len() ==> snake_char(#[trigger] u[i])
    &&& forall|i: int| 0 <= i < u.len() - 1 ==> !(#[trigger] u[i] == '_' && u[i + 1] == '_')
    &&& u.len() > 0 ==> u[0] != '_' && u[u.len() - 1] != '_'
}

/// Snake characters and no `__` (edges free).
pub open spec fn snake_body(u: Seq<char>) -> bool {
    &&& forall|i: int| 0 <= i < u.len() ==> snake_char(#[trigger] u[i])
    &&& forall|i: int| 0 <= i < u.len() - 1 ==> !(#[trigger] u[i] == '_' && u[i + 1] == '_')
}

proof fn lemma_scan_body(s: Seq<char>)
    ensures
        snake_body(snake_scan(s).0),
        snake_scan(s).1 <==> (snake_scan(s).0.len() > 0 && snake_scan(s).0.last() == '_'),
    decreases s.len(),
{
    if s.len() > 0 {
        lemma_scan_body(s.drop_last());
        let p = snake_scan(s.drop_last());
        let ch = s.last();
        if spec_is_ascii_alnum(ch) {
            let c2 = spec_to_ascii_lower(ch);
            assert(snake_char(c2)) by {
                if 'A' <= ch && ch <= 'Z' {
                    assert(((ch as u32) + 32) as char == c2);
                }
            }
            let q = p.0.push(c2);
            assert forall|i: int| 0 <= i < q.len() - 1 implies !(#[trigger] q[i] == '_' && q[i + 1] == '_') by {
                if i + 1 < p.0.len() {
                    assert(q[i] == p.0[i] && q[i + 1] == p.0[i + 1]);
                }
            }
            assert forall|i: int| 0 <= i < q.len() implies snake_char(#[trigger] q[i]) by {
                if i < p.0.len() {
                    assert(q[i] == p.0[i]);
                }
            }
        } else if !p.1 {
            let q = p.0.push('_');
            assert forall|i: int| 0 <= i < q.len() - 1 implies !(#[trigger] q[i] == '_' && q[i + 1] == '_') by {
                if i + 1 < p.0.len() {
                    assert(q[i] == p.0[i] && q[i + 1] == p.0[i + 1]);
                } else {
                    assert(q[i] == p.0[i]);
                }
            }
            assert forall|i: int| 0 <= i < q.len() implies snake_char(#[trigger] q[i]) by {
                if i < p.0.len() {
                    assert(q[i] == p.0[i]);
                }
            }
        }
    }
}

proof fn lemma_strip_start_sub(s: Seq<char>, c: char) -> (a: int)
    ensures
        0 <= a <= s.len(),
        strip_char_start(s, c) == s.subrange(a, s.len() as int),
        a < s.len() ==> s[a] != c,
    decreases s.len(),
{
    if s.len() > 0 && s[0] == c {
        let b = lemma_strip_start_sub(s.drop_first(), c);
        assert(s.drop_first().subrange(b, s.drop_first().len() as int) =~= s.subrange(b + 1, s.len() as int));
        b + 1
    } else {
        assert(s.subrange(0, s.len() as int) =~= s);
        0
    }
}

proof fn lemma_strip_end_sub(s: Seq<char>, c: char) -> (b: int)
    ensures
        0 <= b <= s.len(),
        strip_char_end(s, c) == s.take(b),
        b > 0 ==> s[b - 1] != c,
    decreases s.len(),
{
    if s.len() > 0 && s.last() == c {
        let b = lemma_strip_end_sub(s.drop_last(), c);
        assert(s.drop_last().take(b) =~= s.take(b));
        b
    } else {
        assert(s.take(s.len() as int) =~= s);
        s.len() as int
    }
}

proof fn lemma_sub_body(u: Seq<char>, a: int, b: int)
    requires
        snake_body(u),
        0 <= a <= b <= u.len(),
    ensures
        snake_body(u.subrange(a, b)),
{
    let v = u.subrange(a, b);
    assert forall|i: int| 0 <= i < v.len() implies snake_char(#[trigger] v[i]) by {
        assert(v[i] == u[a + i]);
    }
    assert forall|i: int| 0 <= i < v.len() - 1 implies !(#[trigger] v[i] == '_' && v[i + 1] == '_') by {
        assert(v[i] == u[a + i] && v[i + 1] == u[a + i + 1]);
    }
}

/// A snake string scans to itself.
proof fn lemma_scan_fixed(u: Seq<char>)
    requires
        snake_body(u),
    ensures
        snake_scan(u) == (u, u.len() > 0 && u.last() == '_'),
    decreases u.len(),
{
    if u.len() > 0 {
        lemma_sub_body(u, 0, u.len() - 1);
        assert(u.subrange(0, u.len() - 1) =~= u.drop_last());
        lemma_scan_fixed(u.drop_last());
        assert(snake_char(u[u.len() - 1]));
        if u.len() >= 2 {
            assert(!(u[u.len() - 2] == '_' && u[u.len() - 1] == '_'));
        }
        assert(u.drop_last().push(u.last()) =~= u);
    }
}

/// `snake` gives lowercase letters, digits and single `_` between them,
/// and applying it again changes nothing.
pub proof fn lemma_snake_law(s: Seq<char>)
    ensures
        is_snake(spec_snake(s)),
        spec_snake(spec_snake(s)) == spec_snake(s),
{
    lemma_scan_body(s);
    let t = snake_scan(s).0;
    let a = lemma_strip_start_sub(t, '_');
    let t1 = strip_char_start(t, '_');
    lemma_sub_body(t, a, t.len() as int);
    let b = lemma_strip_end_sub(t1, '_');
    lemma_sub_body(t1, 0, b);
    let u = spec_snake(s);
    assert(u == t1.take(b));
    assert(t1.take(b) =~= t1.subrange(0, b));
    assert(u.len() > 0 ==> u[0] != '_') by {
        if u.len() > 0 {
            assert(u[0] == t1[0]);
            assert(t1[0] == t[a]);
        }
    }
    assert(is_snake(u));
    lemma_scan_fixed(u);
    if u.len() > 0 {
        assert(strip_char_start(u, '_') == u);
        assert(strip_char_end(u, '_') == u);
    } else {
        assert(strip_char_start(u, '_') == u);
    }
}

// ─── constraint normalization ───────────────────────────────────────────────

pub open spec fn spec_normalize_constraint(s: Seq<char>) -> Seq<char> {
    let t = spec_replace(s, "≤"@, "<="@);
    let t = spec_replace(t, "≦"@, "<="@);
    let t = spec_replace(t, "≧"@, ">="@);
    let t = spec_replace(t, "≥"@, ">="@);
    let t = spec_replace(t, "\\leq"@, "<="@);
    let t = spec_replace(t, "\\le"@, "<="@);
    let t = spec_replace(t, "\\geq"@, ">="@);
    let t = spec_replace(t, "\\ge"@, ">="@);
    let t = spec_replace(t, "\\lt"@, "<"@);
    let t = spec_replace(t, "\\gt"@, ">"@);
    let t = spec_replace(t, "−"@, "-"@);
    let t = spec_replace(t, "\\times"@, "*"@);
    let t = spec_replace(t, "×"@, "*"@);
    let t = spec_replace(t, "\\lbrace"@, "{"@);
    let t = spec_replace(t, "\\rbrace"@, "}"@);
    let t = spec_replace(t, "\\ "@, ""@);
    spec_replace(t, " "@, ""@)
}

/// A character of a variable's written name: an ASCII letter or digit,
/// or `_`.
pub open spec fn name_text_char(c: char) -> bool {
    spec_is_ascii_alnum(c) || c == '_'
}

/// A pattern of normalization that cannot start inside a name nor reach
/// into digits.
spec fn framed_pattern(p: Seq<char>) -> bool {
    &&& p.len() > 0
    &&& !name_text_char(p[0])
    &&& forall|j: int| 0 <= j < p.len() ==> !crate::text::spec_is_ascii_digit(#[trigger] p[j])
}

/// One replacement of normalization leaves a name before and digits after
/// the replaced text as they are.
proof fn lemma_norm_step(x: Seq<char>, m: Seq<char>, k: Seq<char>, p: Seq<char>, r: Seq<char>)
    requires
        framed_pattern(p),
        forall|i: int| 0 <= i < x.len() ==> name_text_char(#[trigger] x[i]),
        crate::text::all_digits(k),
    ensures
        spec_replace(x + m + k, p, r) == x + spec_replace(m, p, r) + k,
{
    assert(!x.contains(p[0])) by {
        if x.contains(p[0]) {
            let i = choose|i: int| 0 <= i < x.len() && x[i] == p[0];
            assert(name_text_char(x[i]));
        }
    }
    assert(x + m + k =~= x + (m + k));
    crate::text::lemma_replace_skip_prefix(x, m + k, p, r);
    crate::text::lemma_replace_digits_suffix(m, k, p, r);
    assert(x + (spec_replace(m, p, r) + k) =~= x + spec_replace(m, p, r) + k);
}

/// Normalizing `x m k`, for a name `x` and digits `k`, normalizes `m` alone.
proof fn lemma_norm_frame(x: Seq<char>, m: Seq<char>, k: Seq<char>)
    requires
        forall|i: int| 0 <= i < x.len() ==> name_text_char(#[trigger] x[i]),
        crate::text::all_digits(k),
    ensures
        spec_normalize_constraint(x + m + k) == x + spec_normalize_constraint(m) + k,
{

    reveal_strlit(" ");
    reveal_strlit("*");
    reveal_strlit("-");
    reveal_strlit("<");
    reveal_strlit("<=");
    reveal_strlit(">");
    reveal_strlit(">=");
    reveal_strlit("\\ ");
    reveal_strlit("\\ge");
    reveal_strlit("\\geq");
    reveal_strlit("\\gt");
    reveal_strlit("\\lbrace");
    reveal_strlit("\\le");
    reveal_strlit("\\leq");
    reveal_strlit("\\lt");
    reveal_strlit("\\rbrace");
    reveal_strlit("\\times");
    reveal_strlit("{");
    reveal_strlit("}");
    reveal_strlit("×");
    reveal_strlit("−");
    reveal_strlit("≤");
    reveal_strlit("≥");
    reveal_strlit("≦");
    reveal_strlit("≧");
    let t = m;
    assert(framed_pattern("≤"@));
    lemma_norm_step(x, t, k, "≤"@, "<="@);
    let t = spec_replace(t, "≤"@, "<="@);
    assert(framed_pattern("≦"@));
    lemma_norm_step(x, t, k, "≦"@, "<="@);
    let t = spec_replace(t, "≦"@, "<="@);
    assert(framed_pattern("≧"@));
    lemma_norm_step(x, t, k, "≧"@, ">="@);
    let t = spec_replace(t, "≧"@, ">="@);
    assert(framed_pattern("≥"@));
    lemma_norm_step(x, t, k, "≥"@, ">="@);
    let t = spec_replace(t, "≥"@, ">="@);
    assert(framed_pattern("\\leq"@));
    lemma_norm_step(x, t, k, "\\leq"@, "<="@);
    let t = spec_replace(t, "\\leq"@, "<="@);
    assert(framed_pattern("\\le"@));
    lemma_norm_step(x, t, k, "\\le"@, "<="@);
    let t = spec_replace(t, "\\le"@, "<="@);
    assert(framed_pattern("\\geq"@));
    lemma_norm_step(x, t, k, "\\geq"@, ">="@);
    let t = spec_replace(t, "\\geq"@, ">="@);
    assert(framed_pattern("\\ge"@));
    lemma_norm_step(x, t, k, "\\ge"@, ">="@);
    let t = spec_replace(t, "\\ge"@, ">="@);
    assert(framed_pattern("\\lt"@));
    lemma_norm_step(x, t, k, "\\lt"@, "<"@);
    let t = spec_replace(t, "\\lt"@, "<"@);
    assert(framed_pattern("\\gt"@));
    lemma_norm_step(x, t, k, "\\gt"@, ">"@);
    let t = spec_replace(t, "\\gt"@, ">"@);
    assert(framed_pattern("−"@));
    lemma_norm_step(x, t, k, "−"@, "-"@);
    let t = spec_replace(t, "−"@, "-"@);
    assert(framed_pattern("\\times"@));
    lemma_norm_step(x, t, k, "\\times"@, "*"@);
    let t = spec_replace(t, "\\times"@, "*"@);
    assert(framed_pattern("×"@));
    lemma_norm_step(x, t, k, "×"@, "*"@);
    let t = spec_replace(t, "×"@, "*"@);
    assert(framed_pattern("\\lbrace"@));
    lemma_norm_step(x, t, k, "\\lbrace"@, "{"@);
    let t = spec_replace(t, "\\lbrace"@, "{"@);
    assert(framed_pattern("\\rbrace"@));
    lemma_norm_step(x, t, k, "\\rbrace"@, "}"@);
    let t = spec_replace(t, "\\rbrace"@, "}"@);
    assert(framed_pattern("\\ "@));
    lemma_norm_step(x, t, k, "\\ "@, ""@);
    let t = spec_replace(t, "\\ "@, ""@);
    assert(framed_pattern(" "@));
    lemma_norm_step(x, t, k, " "@, ""@);
    let t = spec_replace(t, " "@, ""@);
}

/// What normalization makes of each comparison notation on its own.
proof fn lemma_norm_comparisons()
    ensures
        spec_normalize_constraint("≤"@) == "<="@,
        spec_normalize_constraint("≦"@) == "<="@,
        spec_normalize_constraint("\\leq"@) == "<="@,
        spec_normalize_constraint("\\le"@) == "<="@,
        spec_normalize_constraint("≥"@) == ">="@,
        spec_normalize_constraint("≧"@) == ">="@,
        spec_normalize_constraint("\\geq"@) == ">="@,
        spec_normalize_constraint("\\ge"@) == ">="@,
        spec_normalize_constraint("\\lt"@) == "<"@,
        spec_normalize_constraint("\\gt"@) == ">"@,
{
    reveal_strlit(" ");
    reveal_strlit("*");
    reveal_strlit("-");
    reveal_strlit("<");
    reveal_strlit("<=");
    reveal_strlit(">");
    reveal_strlit(">=");
    reveal_strlit("\\ ");
    reveal_strlit("\\ge");
    reveal_strlit("\\geq");
    reveal_strlit("\\gt");
    reveal_strlit("\\lbrace");
    reveal_strlit("\\le");
    reveal_strlit("\\leq");
    reveal_strlit("\\lt");
    reveal_strlit("\\rbrace");
    reveal_strlit("\\times");
    reveal_strlit("{");
    reveal_strlit("}");
    reveal_strlit("×");
    reveal_strlit("−");
    reveal_strlit("≤");
    reveal_strlit("≥");
    reveal_strlit("≦");
    reveal_strlit("≧");
    crate::text::lemma_replace_whole("≤"@, "<="@);
    crate::text::lemma_replace_unchanged("<="@, "≦"@, "<="@);
    crate::text::lemma_replace_unchanged("<="@, "≧"@, ">="@);
    crate::text::lemma_replace_unchanged("<="@, "≥"@, ">="@);
    crate::text::lemma_replace_unchanged("<="@, "\\leq"@, "<="@);
    crate::text::lemma_replace_unchanged("<="@, "\\le"@, "<="@);
    crate::text::lemma_replace_unchanged("<="@, "\\geq"@, ">="@);
    crate::text::lemma_replace_unchanged("<="@, "\\ge"@, ">="@);
    crate::text::lemma_replace_unchanged("<="@, "\\lt"@, "<"@);
    crate::text::lemma_replace_unchanged("<="@, "\\gt"@, ">"@);
    crate::text::lemma_replace_unchanged("<="@, "−"@, "-"@);
    crate::text::lemma_replace_unchanged("<="@, "\\times"@, "*"@);
    crate::text::lemma_replace_unchanged("<="@, "×"@, "*"@);
    crate::text::lemma_replace_unchanged("<="@, "\\lbrace"@, "{"@);
    crate::text::lemma_replace_unchanged("<="@, "\\rbrace"@, "}"@);
    crate::text::lemma_replace_unchanged("<="@, "\\ "@, ""@);
    crate::text::lemma_replace_unchanged("<="@, " "@, ""@);
    crate::text::lemma_replace_unchanged("≦"@, "≤"@, "<="@);
    crate::text::lemma_replace_whole("≦"@, "<="@);
    crate::text::lemma_replace_unchanged("<="@, "≧"@, ">="@);
    crate::text::lemma_replace_unchanged("<="@, "≥"@, ">="@);
    crate::text::lemma_replace_unchanged("<="@, "\\leq"@, "<="@);
    crate::text::lemma_replace_unchanged("<="@, "\\le"@, "<="@);
    crate::text::lemma_replace_unchanged("<="@, "\\geq"@, ">="@);
    crate::text::lemma_replace_unchanged("<="@, "\\ge"@, ">="@);
    crate::text::lemma_replace_unchanged("<="@, "\\lt"@, "<"@);
    crate::text::lemma_replace_unchanged("<="@, "\\gt"@, ">"@);
    crate::text::lemma_replace_unchanged("<="@, "−"@, "-"@);
    crate::text::lemma_replace_unchanged("<="@, "\\times"@, "*"@);
    crate::text::lemma_replace_unchanged("<="@, "×"@, "*"@);
    crate::text::lemma_replace_unchanged("<="@, "\\lbrace"@, "{"@);
    crate::text::lemma_replace_unchanged("<="@, "\\rbrace"@, "}"@);
    crate::text::lemma_replace_unchanged("<="@, "\\ "@, ""@);
    crate::text::lemma_replace_unchanged("<="@, " "@, ""@);
    crate::text::lemma_replace_unchanged("\\leq"@, "≤"@, "<="@);
    crate::text::lemma_replace_unchanged("\\leq"@, "≦"@, "<="@);
    crate::text::lemma_replace_unchanged("\\leq"@, "≧"@, ">="@);
    crate::text::lemma_replace_unchanged("\\leq"@, "≥"@, ">="@);
    crate::text::lemma_replace_whole("\\leq"@, "<="@);
    crate::text::lemma_replace_unchanged("<="@, "\\le"@, "<="@);
    crate::text::lemma_replace_unchanged("<="@, "\\geq"@, ">="@);
    crate::text::lemma_replace_unchanged("<="@, "\\ge"@, ">="@);
    crate::text::lemma_replace_unchanged("<="@, "\\lt"@, "<"@);
    crate::text::lemma_replace_unchanged("<="@, "\\gt"@, ">"@);
    crate::text::lemma_replace_unchanged("<="@, "−"@, "-"@);
    crate::text::lemma_replace_unchanged("<="@, "\\times"@, "*"@);
    crate::text::lemma_replace_unchanged("<="@, "×"@, "*"@);
    crate::text::lemma_replace_unchanged("<="@, "\\lbrace"@, "{"@);
    crate::text::lemma_replace_unchanged("<="@, "\\rbrace"@, "}"@);
    crate::text::lemma_replace_unchanged("<="@, "\\ "@, ""@);
    crate::text::lemma_replace_unchanged("<="@, " "@, ""@);
    crate::text::lemma_replace_unchanged("\\le"@, "≤"@, "<="@);
    crate::text::lemma_replace_unchanged("\\le"@, "≦"@, "<="@);
    crate::text::lemma_replace_unchanged("\\le"@, "≧"@, ">="@);
    crate::text::lemma_replace_unchanged("\\le"@, "≥"@, ">="@);
    crate::text::lemma_replace_mismatch("\\le"@, "\\leq"@, "<="@, 0);
    crate::text::lemma_replace_whole("\\le"@, "<="@);
    crate::text::lemma_replace_unchanged("<="@, "\\geq"@, ">="@);
    crate::text::lemma_replace_unchanged("<="@, "\\ge"@, ">="@);
    crate::text::lemma_replace_unchanged("<="@, "\\lt"@, "<"@);
    crate::text::lemma_replace_unchanged("<="@, "\\gt"@, ">"@);
    crate::text::lemma_replace_unchanged("<="@, "−"@, "-"@);
    crate::text::lemma_replace_unchanged("<="@, "\\times"@, "*"@);
    crate::text::lemma_replace_unchanged("<="@, "×"@, "*"@);
    crate::text::lemma_replace_unchanged("<="@, "\\lbrace"@, "{"@);
    crate::text::lemma_replace_unchanged("<="@, "\\rbrace"@, "}"@);
    crate::text::lemma_replace_unchanged("<="@, "\\ "@, ""@);
    crate::text::lemma_replace_unchanged("<="@, " "@, ""@);
    crate::text::lemma_replace_unchanged("≥"@, "≤"@, "<="@);
    crate::text::lemma_replace_unchanged("≥"@, "≦"@, "<="@);
    crate::text::lemma_replace_unchanged("≥"@, "≧"@, ">="@);
    crate::text::lemma_replace_whole("≥"@, ">="@);
    crate::text::lemma_replace_unchanged(">="@, "\\leq"@, "<="@);
    crate::text::lemma_replace_unchanged(">="@, "\\le"@, "<="@);
    crate::text::lemma_replace_unchanged(">="@, "\\geq"@, ">="@);
    crate::text::lemma_replace_unchanged(">="@, "\\ge"@, ">="@);
    crate::text::lemma_replace_unchanged(">="@, "\\lt"@, "<"@);
    crate::text::lemma_replace_unchanged(">="@, "\\gt"@, ">"@);
    crate::text::lemma_replace_unchanged(">="@, "−"@, "-"@);
    crate::text::lemma_replace_unchanged(">="@, "\\times"@, "*"@);
    crate::text::lemma_replace_unchanged(">="@, "×"@, "*"@);
    crate::text::lemma_replace_unchanged(">="@, "\\lbrace"@, "{"@);
    crate::text::lemma_replace_unchanged(">="@, "\\rbrace"@, "}"@);
    crate::text::lemma_replace_unchanged(">="@, "\\ "@, ""@);
    crate::text::lemma_replace_unchanged(">="@, " "@, ""@);
    crate::text::lemma_replace_unchanged("≧"@, "≤"@, "<="@);
    crate::text::lemma_replace_unchanged("≧"@, "≦"@, "<="@);
    crate::text::lemma_replace_whole("≧"@, ">="@);
    crate::text::lemma_replace_unchanged(">="@, "≥"@, ">="@);
    crate::text::lemma_replace_unchanged(">="@, "\\leq"@, "<="@);
    crate::text::lemma_replace_unchanged(">="@, "\\le"@, "<="@);
    crate::text::lemma_replace_unchanged(">="@, "\\geq"@, ">="@);
    crate::text::lemma_replace_unchanged(">="@, "\\ge"@, ">="@);
    crate::text::lemma_replace_unchanged(">="@, "\\lt"@, "<"@);
    crate::text::lemma_replace_unchanged(">="@, "\\gt"@, ">"@);
    crate::text::lemma_replace_unchanged(">="@, "−"@, "-"@);
    crate::text::lemma_replace_unchanged(">="@, "\\times"@, "*"@);
    crate::text::lemma_replace_unchanged(">="@, "×"@, "*"@);
    crate::text::lemma_replace_unchanged(">="@, "\\lbrace"@, "{"@);
    crate::text::lemma_replace_unchanged(">="@, "\\rbrace"@, "}"@);
    crate::text::lemma_replace_unchanged(">="@, "\\ "@, ""@);
    crate::text::lemma_replace_unchanged(">="@, " "@, ""@);
    crate::text::lemma_replace_unchanged("\\geq"@, "≤"@, "<="@);
    crate::text::lemma_replace_unchanged("\\geq"@, "≦"@, "<="@);
    crate::text::lemma_replace_unchanged("\\geq"@, "≧"@, ">="@);
    crate::text::lemma_replace_unchanged("\\geq"@, "≥"@, ">="@);
    crate::text::lemma_replace_mismatch("\\geq"@, "\\leq"@, "<="@, 1);
    crate::text::lemma_replace_mismatch("\\geq"@, "\\le"@, "<="@, 1);
    crate::text::lemma_replace_whole("\\geq"@, ">="@);
    crate::text::lemma_replace_unchanged(">="@, "\\ge"@, ">="@);
    crate::text::lemma_replace_unchanged(">="@, "\\lt"@, "<"@);
    crate::text::lemma_replace_unchanged(">="@, "\\gt"@, ">"@);
    crate::text::lemma_replace_unchanged(">="@, "−"@, "-"@);
    crate::text::lemma_replace_unchanged(">="@, "\\times"@, "*"@);
    crate::text::lemma_replace_unchanged(">="@, "×"@, "*"@);
    crate::text::lemma_replace_unchanged(">="@, "\\lbrace"@, "{"@);
    crate::text::lemma_replace_unchanged(">="@, "\\rbrace"@, "}"@);
    crate::text::lemma_replace_unchanged(">="@, "\\ "@, ""@);
    crate::text::lemma_replace_unchanged(">="@, " "@, ""@);
    crate::text::lemma_replace_unchanged("\\ge"@, "≤"@, "<="@);
    crate::text::lemma_replace_unchanged("\\ge"@, "≦"@, "<="@);
    crate::text::lemma_replace_unchanged("\\ge"@, "≧"@, ">="@);
    crate::text::lemma_replace_unchanged("\\ge"@, "≥"@, ">="@);
    crate::text::lemma_replace_mismatch("\\ge"@, "\\leq"@, "<="@, 0);
    crate::text::lemma_replace_mismatch("\\ge"@, "\\le"@, "<="@, 1);
    crate::text::lemma_replace_mismatch("\\ge"@, "\\geq"@, ">="@, 0);
    crate::text::lemma_replace_whole("\\ge"@, ">="@);
    crate::text::lemma_replace_unchanged(">="@, "\\lt"@, "<"@);
    crate::text::lemma_replace_unchanged(">="@, "\\gt"@, ">"@);
    crate::text::lemma_replace_unchanged(">="@, "−"@, "-"@);
    crate::text::lemma_replace_unchanged(">="@, "\\times"@, "*"@);
    crate::text::lemma_replace_unchanged(">="@, "×"@, "*"@);
    crate::text::lemma_replace_unchanged(">="@, "\\lbrace"@, "{"@);
    crate::text::lemma_replace_unchanged(">="@, "\\rbrace"@, "}"@);
    crate::text::lemma_replace_unchanged(">="@, "\\ "@, ""@);
    crate::text::lemma_replace_unchanged(">="@, " "@, ""@);
    crate::text::lemma_replace_unchanged("\\lt"@, "≤"@, "<="@);
    crate::text::lemma_replace_unchanged("\\lt"@, "≦"@, "<="@);
    crate::text::lemma_replace_unchanged("\\lt"@, "≧"@, ">="@);
    crate::text::lemma_replace_unchanged("\\lt"@, "≥"@, ">="@);
    crate::text::lemma_replace_mismatch("\\lt"@, "\\leq"@, "<="@, 0);
    crate::text::lemma_replace_mismatch("\\lt"@, "\\le"@, "<="@, 2);
    crate::text::lemma_replace_mismatch("\\lt"@, "\\geq"@, ">="@, 0);
    crate::text::lemma_replace_mismatch("\\lt"@, "\\ge"@, ">="@, 1);
    crate::text::lemma_replace_whole("\\lt"@, "<"@);
    crate::text::lemma_replace_unchanged("<"@, "\\gt"@, ">"@);
    crate::text::lemma_replace_unchanged("<"@, "−"@, "-"@);
    crate::text::lemma_replace_unchanged("<"@, "\\times"@, "*"@);
    crate::text::lemma_replace_unchanged("<"@, "×"@, "*"@);
    crate::text::lemma_replace_unchanged("<"@, "\\lbrace"@, "{"@);
    crate::text::lemma_replace_unchanged("<"@, "\\rbrace"@, "}"@);
    crate::text::lemma_replace_unchanged("<"@, "\\ "@, ""@);
    crate::text::lemma_replace_unchanged("<"@, " "@, ""@);
    crate::text::lemma_replace_unchanged("\\gt"@, "≤"@, "<="@);
    crate::text::lemma_replace_unchanged("\\gt"@, "≦"@, "<="@);
    crate::text::lemma_replace_unchanged("\\gt"@, "≧"@, ">="@);
    crate::text::lemma_replace_unchanged("\\gt"@, "≥"@, ">="@);
    crate::text::lemma_replace_mismatch("\\gt"@, "\\leq"@, "<="@, 0);
    crate::text::lemma_replace_mismatch("\\gt"@, "\\le"@, "<="@, 1);
    crate::text::lemma_replace_mismatch("\\gt"@, "\\geq"@, ">="@, 0);
    crate::text::lemma_replace_mismatch("\\gt"@, "\\ge"@, ">="@, 2);
    crate::text::lemma_replace_mismatch("\\gt"@, "\\lt"@, "<"@, 1);
    crate::text::lemma_replace_whole("\\gt"@, ">"@);
    crate::text::lemma_replace_unchanged(">"@, "−"@, "-"@);
    crate::text::lemma_replace_unchanged(">"@, "\\times"@, "*"@);
    crate::text::lemma_replace_unchanged(">"@, "×"@, "*"@);
    crate::text::lemma_replace_unchanged(">"@, "\\lbrace"@, "{"@);
    crate::text::lemma_replace_unchanged(">"@, "\\rbrace"@, "}"@);
    crate::text::lemma_replace_unchanged(">"@, "\\ "@, ""@);
    crate::text::lemma_replace_unchanged(">"@, " "@, ""@);
}

/// Each comparison notation between a name and a literal becomes its
/// ASCII operator: `x \le k`, `x ≤ k`, `x ≦ k` and `x \leq k` normalize to
/// `x<=k`; `x \ge k`, `x ≥ k`, `x ≧ k` and `x \geq k` to `x>=k`; `\lt` to `<`
/// and `\gt` to `>` (for a name `x` of letters, digits and `_`, and
/// digits `k`).
pub proof fn law_normalize_comparison(x: Seq<char>, k: Seq<char>)
    requires
        forall|i: int| 0 <= i < x.len() ==> name_text_char(#[trigger] x[i]),
        crate::text::all_digits(k),
    ensures
        spec_normalize_constraint(x + "≤"@ + k) == x + "<="@ + k,
        spec_normalize_constraint(x + "≦"@ + k) == x + "<="@ + k,
        spec_normalize_constraint(x + "\\leq"@ + k) == x + "<="@ + k,
        spec_normalize_constraint(x + "\\le"@ + k) == x + "<="@ + k,
        spec_normalize_constraint(x + "≥"@ + k) == x + ">="@ + k,
        spec_normalize_constraint(x + "≧"@ + k) == x + ">="@ + k,
        spec_normalize_constraint(x + "\\geq"@ + k) == x + ">="@ + k,
        spec_normalize_constraint(x + "\\ge"@ + k) == x + ">="@ + k,
        spec_normalize_constraint(x + "\\lt"@ + k) == x + "<"@ + k,
        spec_normalize_constraint(x + "\\gt"@ + k) == x + ">"@ + k,
{
    lemma_norm_comparisons();
    lemma_norm_frame(x, "≤"@, k);
    lemma_norm_frame(x, "≦"@, k);
    lemma_norm_frame(x, "\\leq"@, k);
    lemma_norm_frame(x, "\\le"@, k);
    lemma_norm_frame(x, "≥"@, k);
    lemma_norm_frame(x, "≧"@, k);
    lemma_norm_frame(x, "\\geq"@, k);
    lemma_norm_frame(x, "\\ge"@, k);
    lemma_norm_frame(x, "\\lt"@, k);
    lemma_norm_frame(x, "\\gt"@, k);
}

pub fn normalize_constraint_chars(s: &Vec<char>) -> (r: Vec<char>)
    ensures
        r@ == spec_normalize_constraint(s@),
{
    let t = replace_str(s, "≤", "<=");
    let t = replace_str(&t, "≦", "<=");
    let t = replace_str(&t, "≧", ">=");
    let t = replace_str(&t, "≥", ">=");
    let t = replace_str(&t, "\\leq", "<=");
    let t = replace_str(&t, "\\le", "<=");
    let t = replace_str(&t, "\\geq", ">=");
    let t = replace_str(&t, "\\ge", ">=");
    let t = replace_str(&t, "\\lt", "<");
    let t = replace_str(&t, "\\gt", ">");
    let t = replace_str(&t, "−", "-");
    let t = replace_str(&t, "\\times", "*");
    let t = replace_str(&t, "×", "*");
    let t = replace_str(&t, "\\lbrace", "{");
    let t = replace_str(&t, "\\rbrace", "}");
    let t = replace_str(&t, "\\ ", "");
    replace_str(&t, " ", "")
}

/// Rewrite comparison, multiplication and brace notations into ASCII
/// operators and drop all spaces.
pub fn normalize_constraint(s: &str) -> (r: String)
    ensures
        r@ == spec_normalize_constraint(s@),
{
    let c = chars_of(s);
    let r = normalize_constraint_chars(&c);
    string_of(&r)
}

// ─── placeholder lines ──────────────────────────────────────────────────────

pub open spec fn spec_is_concat_hint(orig: Seq<char>, norm: Seq<char>) -> bool {
    spec_split_ws(norm).len() > spec_split_ws(orig).len()
}

/// Normalization split a token: `norm` has more whitespace-separated words
/// than `orig`.
pub fn is_concat_hint(orig: &str, norm: &str) -> (r: bool)
    ensures
        r == spec_is_concat_hint(orig@, norm@),
{
    let o = split_ws(&chars_of(orig));
    let n = split_ws(&chars_of(norm));
    n.len() > o.len()
}

pub open spec fn spec_is_case_placeholder_line(line: Seq<char>) -> bool {
    let l = spec_lower(line);
    spec_contains(l, "case"@) && (l.contains('_') || spec_contains(l, "\\mathrm"@))
}

pub open spec fn spec_is_query_placeholder_line(line: Seq<char>) -> bool {
    let l = spec_lower(line);
    spec_contains(l, "query"@) && (l.contains('_') || spec_contains(l, "\\mathrm"@)
        || spec_contains(l, "\\text"@))
}

/// A `case_T`-style placeholder line (ASCII case ignored).
pub fn is_case_placeholder_line(line: &str) -> (r: bool)
    ensures
        r == spec_is_case_placeholder_line(line@),
{
    let l = lower(&chars_of(line));
    contains(&l, &chars_of("case")) && (contains_char(&l, '_') || contains(
        &l,
        &chars_of("\\mathrm"),
    ))
}

/// A `query_Q`-style placeholder line (ASCII case ignored).
pub fn is_query_placeholder_line(line: &str) -> (r: bool)
    ensures
        r == spec_is_query_placeholder_line(line@),
{
    let l = lower(&chars_of(line));
    contains(&l, &chars_of("query")) && (contains_char(&l, '_') || contains(
        &l,
        &chars_of("\\mathrm"),
    ) || contains(&l, &chars_of("\\text")))
}

// ─── variable names ─────────────────────────────────────────────────────────

/// The part of `s` before the first `c` (all of `s` when there is none).
pub open spec fn before_char(s: Seq<char>, c: char) -> Seq<char> {
    match spec_find(s, seq![c]) {
        Some(i) => s.take(i),
        None => s,
    }
}

pub fn before_char_chars(s: &Vec<char>, c: char) -> (r: Vec<char>)
    ensures
        r@ == before_char(s@, c),
{
    let mut p: Vec<char> = Vec::new();
    p.push(c);
    assert(p@ =~= seq![c]);
    match find(s, &p) {
        Some(i) => {
            let r = copy_range(s, 0, i);
            assert(r@ =~= s@.take(i as int));
            r
        },
        None => copy_range(s, 0, s.len()),
    }
}

/// Index of the first ASCII letter.
pub open spec fn first_alpha_from(s: Seq<char>, i: int) -> Option<int>
    decreases s.len() - i,
{
    if i < 0 || i >= s.len() {
        None
    } else if spec_is_ascii_alpha(s[i]) {
        Some(i)
    } else {
        first_alpha_from(s, i + 1)
    }
}

pub open spec fn spec_base_var(tok: Seq<char>) -> Option<Seq<char>> {
    let t = spec_replace(tok, "\\mathrm"@, ""@);
    let t = spec_replace(t, "\\text"@, ""@);
    let t = spec_replace(t, "\\rm"@, ""@);
    let t = spec_replace(t, "{"@, ""@);
    let t = spec_replace(t, "}"@, ""@);
    let t = spec_replace(t, "|"@, ""@);
    let t = spec_replace(t, "\\"@, ""@);
    if t.len() == 0 {
        None
    } else {
        match first_alpha_from(t, 0) {
            None => None,
            Some(start) => {
                let base = before_char(before_char(t.skip(start), '_'), '[');
                if base.len() == 0 {
                    None
                } else {
                    Some(spec_snake(base))
                }
            },
        }
    }
}

pub fn base_var_chars(tok: &Vec<char>) -> (r: Option<Vec<char>>)
    ensures
        match r {
            Some(v) => spec_base_var(tok@) == Some(v@),
            None => spec_base_var(tok@) is None,
        },
{
    let t = replace_str(tok, "\\mathrm", "");
    let t = replace_str(&t, "\\text", "");
    let t = replace_str(&t, "\\rm", "");
    let t = replace_str(&t, "{", "");
    let t = replace_str(&t, "}", "");
    let t = replace_str(&t, "|", "");
    let t = replace_str(&t, "\\", "");
    if t.len() == 0 {
        return None;
    }
    let mut i: usize = 0;
    while i < t.len() && !is_ascii_alpha(t[i])
        invariant
            i <= t@.len(),
            first_alpha_from(t@, 0) == first_alpha_from(t@, i as int),
        decreases t.len() - i,
    {
        i += 1;
    }
    if i == t.len() {
        return None;
    }
    let rest = copy_range(&t, i, t.len());
    assert(rest@ =~= t@.skip(i as int));
    let b1 = before_char_chars(&rest, '_');
    let base = before_char_chars(&b1, '[');
    if base.len() == 0 {
        return None;
    }
    Some(snake_chars(&base))
}

/// The snake-cased base name of an indexed token such as `A_i`, `\mathrm{X}_{1}`
/// or `B[j]`: LaTeX wrappers, braces, pipes and backslashes removed, leading
/// non-letters skipped, cut at the first `_` then the first `[`.
pub fn base_var(tok: &str) -> (r: Option<String>)
    ensures
        match r {
            Some(v) => spec_base_var(tok@) == Some(v@),
            None => spec_base_var(tok@) is None,
        },
{
    match base_var_chars(&chars_of(tok)) {
        Some(v) => Some(string_of(&v)),
        None => None,
    }
}

pub open spec fn spec_is_var_name(s: Seq<char>) -> bool {
    &&& s.len() > 0
    &&& spec_parse_u64(s) is None
    &&& forall|i: int| 0 <= i < s.len() ==> spec_is_ascii_alnum(#[trigger] s[i]) || s[i] == '_'
}

pub fn is_var_name_chars(s: &Vec<char>) -> (r: bool)
    ensures
        r == spec_is_var_name(s@),
{
    if s.len() == 0 {
        return false;
    }
    if parse_u64(s).is_some() {
        return false;
    }
    let mut i: usize = 0;
    while i < s.len()
        invariant
            i <= s@.len(),
            forall|j: int| 0 <= j < i ==> spec_is_ascii_alnum(#[trigger] s@[j]) || s@[j] == '_',
        decreases s.len() - i,
    {
        if !(is_ascii_alnum(s[i]) || s[i] == '_') {
            return false;
        }
        i += 1;
    }
    true
}

/// A non-empty identifier of ASCII alphanumerics and `_` that is not an
/// unsigned integer literal.
pub fn is_var_name(s: &str) -> (r: bool)
    ensures
        r == spec_is_var_name(s@),
{
    is_var_name_chars(&chars_of(s))
}

} // verus!

verus! {

// ─── extracting variable names ──────────────────────────────────────────────

/// `\|IDENT\||IDENT`, where IDENT is a letter, alphanumerics, then an optional
/// `_` subscript (braced or alphanumeric).
pub const VAR_NAME_PATTERN: &'static str = "\\|[A-Za-z][A-Za-z0-9]*(?:_(?:\\{[^}]*\\}|[A-Za-z0-9]+))?\\||[A-Za-z][A-Za-z0-9]*(?:_(?:\\{[^}]*\\}|[A-Za-z0-9]+))?";

pub open spec fn last_char(s: Seq<char>) -> Option<char> {
    if s.len() > 0 {
        Some(s.last())
    } else {
        None
    }
}

pub open spec fn first_char(s: Seq<char>) -> Option<char> {
    if s.len() > 0 {
        Some(s[0])
    } else {
        None
    }
}

pub open spec fn blocks_pipe_name(c: Option<char>) -> bool {
    c matches Some(x) && (spec_is_ascii_alnum(x) || x == '\\')
}

pub open spec fn is_arith_op(x: char) -> bool {
    x == '+' || x == '-' || x == '*' || x == '^'
}

pub open spec fn blocks_plain_before(c: Option<char>) -> bool {
    c matches Some(x) && (spec_is_ascii_alnum(x) || x == '\\' || is_arith_op(x))
}

pub open spec fn blocks_plain_after(c: Option<char>) -> bool {
    c matches Some(x) && (spec_is_ascii_alnum(x) || is_arith_op(x))
}

pub open spec fn is_brace(c: char) -> bool {
    c == '{' || c == '}'
}

pub open spec fn strip_braces_start(s: Seq<char>) -> Seq<char>
    decreases s.len(),
{
    if s.len() > 0 && is_brace(s[0]) {
        strip_braces_start(s.drop_first())
    } else {
        s
    }
}

pub open spec fn strip_braces_end(s: Seq<char>) -> Seq<char>
    decreases s.len(),
{
    if s.len() > 0 && is_brace(s.last()) {
        strip_braces_end(s.drop_last())
    } else {
        s
    }
}

pub open spec fn strip_braces(s: Seq<char>) -> Seq<char> {
    strip_braces_end(strip_braces_start(s))
}

pub open spec fn is_pipe_wrapped(raw: Seq<char>) -> bool {
    raw.len() > 0 && raw[0] == '|' && raw.last() == '|'
}

/// The name one match contributes, given the characters around it.
pub open spec fn var_name_candidate(raw: Seq<char>, before: Option<char>, after: Option<char>) -> Option<
    Seq<char>,
> {
    let pipe = is_pipe_wrapped(raw);
    if pipe && (blocks_pipe_name(before) || blocks_pipe_name(after)) {
        None
    } else if !pipe && (blocks_plain_before(before) || blocks_plain_after(after)) {
        None
    } else {
        let inner = if pipe {
            strip_char(raw, '|')
        } else {
            raw
        };
        let base = strip_braces(before_char(inner, '_'));
        if base.len() == 0 {
            None
        } else {
            let b = spec_snake(base);
            if b == "min"@ || b == "max"@ {
                None
            } else {
                let name = if pipe {
                    seq!['|'] + b + seq!['|']
                } else {
                    b
                };
                if name.len() == 0 {
                    None
                } else {
                    Some(name)
                }
            }
        }
    }
}

/// The text before match `k`.
pub open spec fn text_before_match(
    parts: Seq<Seq<char>>,
    matches: Seq<Seq<char>>,
    k: int,
) -> Seq<char> {
    crate::regex_ops::interleave(parts.subrange(0, k + 1), matches.subrange(0, k))
}

/// The text after match `k`.
pub open spec fn text_after_match(
    parts: Seq<Seq<char>>,
    matches: Seq<Seq<char>>,
    k: int,
) -> Seq<char> {
    crate::regex_ops::interleave(
        parts.subrange(k + 1, parts.len() as int),
        matches.subrange(k + 1, matches.len() as int),
    )
}

pub open spec fn push_new(acc: Seq<Seq<char>>, n: Seq<char>) -> Seq<Seq<char>> {
    if acc.contains(n) {
        acc
    } else {
        acc.push(n)
    }
}

pub open spec fn names_from_matches_upto(
    parts: Seq<Seq<char>>,
    matches: Seq<Seq<char>>,
    k: int,
) -> Seq<Seq<char>>
    decreases k,
{
    if k <= 0 {
        seq![]
    } else {
        let acc = names_from_matches_upto(parts, matches, k - 1);
        match var_name_candidate(
            matches[k - 1],
            last_char(text_before_match(parts, matches, k - 1)),
            first_char(text_after_match(parts, matches, k - 1)),
        ) {
            Some(n) => push_new(acc, n),
            None => acc,
        }
    }
}

/// The distinct variable names, in order of first appearance, that the
/// matches contribute.
pub open spec fn spec_names_from_matches(parts: Seq<Seq<char>>, matches: Seq<Seq<char>>) -> Seq<
    Seq<char>,
> {
    names_from_matches_upto(parts, matches, matches.len() as int)
}

pub open spec fn spec_extract_var_names(s: Seq<char>) -> Seq<Seq<char>> {
    if crate::regex_ops::regex_compiles(VAR_NAME_PATTERN@) {
        spec_names_from_matches(
            crate::regex_ops::regex_split_parts(VAR_NAME_PATTERN@, s),
            crate::regex_ops::regex_match_texts(VAR_NAME_PATTERN@, s),
        )
    } else {
        seq![]
    }
}

pub fn strip_braces_chars(s: &Vec<char>) -> (r: Vec<char>)
    ensures
        r@ == strip_braces(s@),
{
    let mut i: usize = 0;
    assert(s@.skip(0) =~= s@);
    while i < s.len() && (s[i] == '{' || s[i] == '}')
        invariant
            i <= s@.len(),
            strip_braces_start(s@.skip(i as int)) == strip_braces_start(s@),
        decreases s.len() - i,
    {
        assert(s@.skip(i as int).drop_first() =~= s@.skip(i + 1));
        i += 1;
    }
    let t = copy_range(s, i, s.len());
    assert(t@ =~= s@.skip(i as int));
    let mut j: usize = t.len();
    assert(t@.take(t@.len() as int) =~= t@);
    while j > 0 && (t[j - 1] == '{' || t[j - 1] == '}')
        invariant
            j <= t@.len(),
            strip_braces_end(t@.take(j as int)) == strip_braces_end(t@),
        decreases j,
    {
        assert(t@.take(j as int).drop_last() =~= t@.take(j - 1));
        j -= 1;
    }
    assert(t@.subrange(0, j as int) =~= t@.take(j as int));
    copy_range(&t, 0, j)
}

fn chars_is_lit(s: &Vec<char>, lit: &str) -> (r: bool)
    ensures
        r == (s@ == lit@),
{
    crate::text::chars_eq(s, &chars_of(lit))
}

pub fn var_name_candidate_chars(raw: &Vec<char>, before: Option<char>, after: Option<char>) -> (r:
    Option<Vec<char>>)
    ensures
        match r {
            Some(v) => var_name_candidate(raw@, before, after) == Some(v@),
            None => var_name_candidate(raw@, before, after) is None,
        },
{
    let pipe = raw.len() > 0 && raw[0] == '|' && raw[raw.len() - 1] == '|';
    let bp = |c: Option<char>| -> (b: bool)
        ensures
            b == blocks_pipe_name(c),
        {
            match c {
                Some(x) => is_ascii_alnum(x) || x == '\\',
                None => false,
            }
        };
    if pipe && (bp(before) || bp(after)) {
        return None;
    }
    let b_before = match before {
        Some(x) => is_ascii_alnum(x) || x == '\\' || x == '+' || x == '-' || x == '*' || x == '^',
        None => false,
    };
    let b_after = match after {
        Some(x) => is_ascii_alnum(x) || x == '+' || x == '-' || x == '*' || x == '^',
        None => false,
    };
    if !pipe && (b_before || b_after) {
        return None;
    }
    let inner = if pipe {
        strip_char_chars(raw, '|')
    } else {
        copy_range(raw, 0, raw.len())
    };
    assert(pipe == is_pipe_wrapped(raw@));
    assert(!pipe ==> inner@ =~= raw@);
    let b0 = before_char_chars(&inner, '_');
    let base = strip_braces_chars(&b0);
    if base.len() == 0 {
        return None;
    }
    let b = snake_chars(&base);
    if chars_is_lit(&b, "min") || chars_is_lit(&b, "max") {
        return None;
    }
    let name = if pipe {
        let mut n: Vec<char> = Vec::new();
        n.push('|');
        append_chars(&mut n, &b);
        n.push('|');
        assert(n@ =~= seq!['|'] + b@ + seq!['|']);
        n
    } else {
        b
    };
    if name.len() == 0 {
        None
    } else {
        Some(name)
    }
}

pub fn strings_contain(v: &Vec<String>, x: &Vec<char>) -> (r: bool)
    ensures
        r == crate::text::sv(v@).contains(x@),
{
    let mut i: usize = 0;
    while i < v.len()
        invariant
            i <= v@.len(),
            forall|j: int| 0 <= j < i ==> #[trigger] v@[j]@ != x@,
        decreases v.len() - i,
    {
        if crate::text::chars_eq(&chars_of(v[i].as_str()), x) {
            assert(crate::text::sv(v@)[i as int] == x@);
            return true;
        }
        i += 1;
    }
    assert forall|j: int| 0 <= j < crate::text::sv(v@).len() implies crate::text::sv(v@)[j]
        != x@ by {
        assert(crate::text::sv(v@)[j] == v@[j]@);
    }
    false
}

/// Push `x` unless already present.
pub fn push_new_string(v: &mut Vec<String>, x: &Vec<char>)
    ensures
        crate::text::sv(final(v)@) == push_new(crate::text::sv(old(v)@), x@),
{
    if !strings_contain(v, x) {
        let s = string_of(x);
        proof {
            crate::text::lemma_sv_push(v@, s);
        }
        v.push(s);
    }
}

/// The variable names contributed by the matches of [`VAR_NAME_PATTERN`],
/// given the pieces of text between them.
pub fn var_names_from_pieces(parts: &Vec<String>, matches: &Vec<String>) -> (r: Vec<String>)
    requires
        parts@.len() == matches@.len() + 1,
    ensures
        crate::text::sv(r@) == spec_names_from_matches(
            crate::text::sv(parts@),
            crate::text::sv(matches@),
        ),
{
    let ghost ps = crate::text::sv(parts@);
    let ghost ms = crate::text::sv(matches@);
    let mut names: Vec<String> = Vec::new();
    let mut k: usize = 0;
    assert(crate::text::sv(names@) =~= Seq::<Seq<char>>::empty());
    while k < matches.len()
        invariant
            ps == crate::text::sv(parts@),
            ms == crate::text::sv(matches@),
            parts@.len() == matches@.len() + 1,
            k <= matches@.len(),
            crate::text::sv(names@) == names_from_matches_upto(ps, ms, k as int),
        decreases matches.len() - k,
    {
        let before_text = crate::regex_ops::interleave_range(parts, matches, 0, k);
        let after_text = crate::regex_ops::interleave_range(parts, matches, k + 1, matches.len());
        let before = if before_text.len() > 0 {
            Some(before_text[before_text.len() - 1])
        } else {
            None
        };
        let after = if after_text.len() > 0 {
            Some(after_text[0])
        } else {
            None
        };
        let raw = chars_of(matches[k].as_str());
        assert(ms[k as int] == raw@);
        match var_name_candidate_chars(&raw, before, after) {
            Some(n) => {
                push_new_string(&mut names, &n);
            },
            None => {},
        }
        k += 1;
    }
    names
}

/// Base variable names in `s`, in order of first appearance: plain and
/// subscripted names (`N`, `A_i`, `A_{i,j}`) by their snake-cased base,
/// length names (`|S|`) kept in pipes; names next to arithmetic operators,
/// and `min` / `max`, are not names.
pub fn extract_var_names(s: &str) -> (r: Vec<String>)
    ensures
        crate::text::sv(r@) == spec_extract_var_names(s@),
{
    let parts = crate::regex_ops::re_split(VAR_NAME_PATTERN, s);
    let matches = crate::regex_ops::re_find_all(VAR_NAME_PATTERN, s);
    match (parts, matches) {
        (Some(p), Some(m)) => var_names_from_pieces(&p, &m),
        _ => {
            let v: Vec<String> = Vec::new();
            assert(crate::text::sv(v@) =~= Seq::<Seq<char>>::empty());
            v
        },
    }
}

} // verus!

verus! {

// ─── `<vars> は` declarations ────────────────────────────────────────────────

/// One or more (possibly pipe-wrapped, subscripted) identifiers separated by
/// `、` or `,`, captured as group 1, followed by `は`.
pub const VAR_DECL_PATTERN: &'static str = "((?:\\|[A-Za-z][A-Za-z0-9]*(?:_(?:\\{[^}]*\\}|[A-Za-z0-9]+))?\\||[A-Za-z][A-Za-z0-9]*(?:_(?:\\{[^}]*\\}|[A-Za-z0-9]+))?)(?:\\s*[、,]\\s*(?:\\|[A-Za-z][A-Za-z0-9]*(?:_(?:\\{[^}]*\\}|[A-Za-z0-9]+))?\\||[A-Za-z][A-Za-z0-9]*(?:_(?:\\{[^}]*\\}|[A-Za-z0-9]+))?))*)\\s*は";

pub open spec fn group1(g: Seq<Option<Seq<char>>>) -> Option<Seq<char>> {
    if g.len() > 1 {
        g[1]
    } else {
        None
    }
}

pub open spec fn var_decls_upto(
    groups: Seq<Seq<Option<Seq<char>>>>,
    parts: Seq<Seq<char>>,
    matches: Seq<Seq<char>>,
    k: int,
) -> Seq<(Seq<Seq<char>>, Seq<char>)>
    decreases k,
{
    if k <= 0 {
        seq![]
    } else {
        let acc = var_decls_upto(groups, parts, matches, k - 1);
        match group1(groups[k - 1]) {
            None => acc,
            Some(vars_str) => {
                let names = spec_extract_var_names(vars_str);
                if names.len() == 0 {
                    acc
                } else {
                    acc.push((names, text_after_match(parts, matches, k - 1)))
                }
            },
        }
    }
}

pub open spec fn spec_find_var_decls(item: Seq<char>) -> Seq<(Seq<Seq<char>>, Seq<char>)> {
    if crate::regex_ops::regex_compiles(VAR_DECL_PATTERN@) {
        let m = crate::regex_ops::regex_match_texts(VAR_DECL_PATTERN@, item);
        var_decls_upto(
            crate::regex_ops::regex_capture_groups(VAR_DECL_PATTERN@, item),
            crate::regex_ops::regex_split_parts(VAR_DECL_PATTERN@, item),
            m,
            m.len() as int,
        )
    } else {
        seq![]
    }
}

pub open spec fn decl_view(d: (Vec<String>, String)) -> (Seq<Seq<char>>, Seq<char>) {
    (crate::text::sv(d.0@), d.1@)
}

pub open spec fn decls_view(v: Seq<(Vec<String>, String)>) -> Seq<(Seq<Seq<char>>, Seq<char>)> {
    v.map_values(|d: (Vec<String>, String)| decl_view(d))
}

/// The declarations found by [`VAR_DECL_PATTERN`], given its capture groups,
/// the pieces of text between its matches and the matches themselves.
pub fn var_decls_from_pieces(
    groups: &Vec<Vec<Option<String>>>,
    parts: &Vec<String>,
    matches: &Vec<String>,
) -> (r: Vec<(Vec<String>, String)>)
    requires
        parts@.len() == matches@.len() + 1,
        groups@.len() == matches@.len(),
    ensures
        decls_view(r@) == var_decls_upto(
            crate::regex_ops::all_groups_view(groups@),
            crate::text::sv(parts@),
            crate::text::sv(matches@),
            matches@.len() as int,
        ),
{
    let ghost gs = crate::regex_ops::all_groups_view(groups@);
    let ghost ps = crate::text::sv(parts@);
    let ghost ms = crate::text::sv(matches@);
    let mut out: Vec<(Vec<String>, String)> = Vec::new();
    let mut k: usize = 0;
    assert(decls_view(out@) =~= Seq::<(Seq<Seq<char>>, Seq<char>)>::empty());
    while k < matches.len()
        invariant
            gs == crate::regex_ops::all_groups_view(groups@),
            ps == crate::text::sv(parts@),
            ms == crate::text::sv(matches@),
            parts@.len() == matches@.len() + 1,
            groups@.len() == matches@.len(),
            k <= matches@.len(),
            decls_view(out@) == var_decls_upto(gs, ps, ms, k as int),
        decreases matches.len() - k,
    {
        let g = &groups[k];
        assert(gs[k as int] == crate::regex_ops::groups_view(g@));
        if g.len() > 1 {
            assert(group1(gs[k as int]) == crate::regex_ops::opt_view(g@[1]));
            match &g[1] {
                Some(vs) => {
                    let names = extract_var_names(vs.as_str());
                    if names.len() > 0 {
                        let rest = crate::regex_ops::interleave_range(
                            parts,
                            matches,
                            k + 1,
                            matches.len(),
                        );
                        let rs = string_of(&rest);
                        let ghost o = out@;
                        let ghost d = (names, rs);
                        out.push((names, rs));
                        assert(decls_view(out@) =~= decls_view(o).push(decl_view(d)));
                    }
                },
                None => {},
            }
        }
        k += 1;
    }
    out
}

/// Every `<vars> は` occurrence in `item`: the base names of the variables
/// and the text after `は`.
pub fn find_var_decls(item: &str) -> (r: Vec<(Vec<String>, String)>)
    ensures
        decls_view(r@) == spec_find_var_decls(item@),
{
    let g = crate::regex_ops::re_captures_all(VAR_DECL_PATTERN, item);
    let p = crate::regex_ops::re_split(VAR_DECL_PATTERN, item);
    let m = crate::regex_ops::re_find_all(VAR_DECL_PATTERN, item);
    match (g, p, m) {
        (Some(g), Some(p), Some(m)) => var_decls_from_pieces(&g, &p, &m),
        _ => {
            let v: Vec<(Vec<String>, String)> = Vec::new();
            assert(decls_view(v@) =~= Seq::<(Seq<Seq<char>>, Seq<char>)>::empty());
            v
        },
    }
}

} // verus!

verus! {

// ─── format-line normalization ──────────────────────────────────────────────

pub const LATEX_CMD_PATTERN: &'static str = "\\\\(?:mathrm|mathit|text|rm|textit|textbf)\\{([^}]+)\\}";
pub const UNDERSCORE_PATTERN: &'static str = "\\s*_\\s*";
pub const COMMA_PATTERN: &'static str = ",\\s+";
pub const BRACE_LEFT_PATTERN: &'static str = "\\{\\s+";
pub const BRACE_RIGHT_PATTERN: &'static str = "\\s+\\}";
pub const BRACE_CONCAT_PATTERN: &'static str = "\\}([A-Za-z\\\\])";
pub const BRACKET_CONCAT_PATTERN: &'static str = "\\]([A-Za-z\\\\])";
pub const DIGIT_CONCAT_PATTERN: &'static str = "([A-Za-z]_\\d+)([A-Za-z\\\\])";
pub const WS_PATTERN: &'static str = "\\s+";

pub open spec fn spec_normalize_line(line: Seq<char>) -> Seq<char> {
    let s = crate::text::spec_trim(line);
    let s = spec_replace(s, "\\cdots"@, "\\ldots"@);
    let s = spec_replace(s, "\\dots"@, "\\ldots"@);
    let s = spec_replace(s, "\\vdots"@, " \\vdots "@);
    let s = spec_replace(s, "\\ldots"@, " \\ldots "@);
    let s = crate::regex_ops::replaced_all_or_same(LATEX_CMD_PATTERN@, s, "$1"@);
    let s = crate::regex_ops::replaced_all_or_same(UNDERSCORE_PATTERN@, s, "_"@);
    let s = crate::regex_ops::replaced_all_or_same(COMMA_PATTERN@, s, ","@);
    let s = crate::regex_ops::replaced_all_or_same(BRACE_LEFT_PATTERN@, s, "{"@);
    let s = crate::regex_ops::replaced_all_or_same(BRACE_RIGHT_PATTERN@, s, "}"@);
    let s = crate::regex_ops::replaced_all_or_same(BRACE_CONCAT_PATTERN@, s, "} $1"@);
    let s = crate::regex_ops::replaced_all_or_same(BRACKET_CONCAT_PATTERN@, s, "] $1"@);
    let s = crate::regex_ops::replaced_all_or_same(DIGIT_CONCAT_PATTERN@, s, "$1 $2"@);
    let s = crate::regex_ops::replaced_all_or_same(WS_PATTERN@, s, " "@);
    crate::text::spec_trim(s)
}

pub fn normalize_line_chars(line: &Vec<char>) -> (r: Vec<char>)
    ensures
        r@ == spec_normalize_line(line@),
{
    let s = crate::text::trim(line);
    let s = replace_str(&s, "\\cdots", "\\ldots");
    let s = replace_str(&s, "\\dots", "\\ldots");
    let s = replace_str(&s, "\\vdots", " \\vdots ");
    let s = replace_str(&s, "\\ldots", " \\ldots ");
    let s = crate::regex_ops::replace_all_or_same(LATEX_CMD_PATTERN, &s, "$1");
    let s = crate::regex_ops::replace_all_or_same(UNDERSCORE_PATTERN, &s, "_");
    let s = crate::regex_ops::replace_all_or_same(COMMA_PATTERN, &s, ",");
    let s = crate::regex_ops::replace_all_or_same(BRACE_LEFT_PATTERN, &s, "{");
    let s = crate::regex_ops::replace_all_or_same(BRACE_RIGHT_PATTERN, &s, "}");
    let s = crate::regex_ops::replace_all_or_same(BRACE_CONCAT_PATTERN, &s, "} $1");
    let s = crate::regex_ops::replace_all_or_same(BRACKET_CONCAT_PATTERN, &s, "] $1");
    let s = crate::regex_ops::replace_all_or_same(DIGIT_CONCAT_PATTERN, &s, "$1 $2");
    let s = crate::regex_ops::replace_all_or_same(WS_PATTERN, &s, " ");
    crate::text::trim(&s)
}

/// Canonical spacing of one format line: ellipses spelled `\ldots` and set
/// apart, LaTeX text commands unwrapped, spaces around `_`, after `,` and
/// inside braces removed, glued tokens separated, whitespace collapsed.
pub fn normalize_line(line: &str) -> (r: String)
    ensures
        r@ == spec_normalize_line(line@),
{
    string_of(&normalize_line_chars(&chars_of(line)))
}

// ─── placeholder subscripts ─────────────────────────────────────────────────

pub open spec fn keyword_subscript_pattern(kw: Seq<char>) -> Seq<char> {
    let e = crate::regex_ops::regex_escaped(kw);
    "(?i)(?:\\\\(?:text|mathrm|rm)\\s*\\{\\s*"@ + e + "\\s*\\}|"@ + e
        + ")_\\s*\\{?\\s*([A-Za-z][A-Za-z0-9]*)\\s*\\}?"@
}

pub open spec fn spec_extract_keyword_subscript(line: Seq<char>, kw: Seq<char>) -> Option<Seq<char>> {
    let p = keyword_subscript_pattern(kw);
    if crate::regex_ops::regex_compiles(p) {
        match crate::regex_ops::regex_first_captures(p, line) {
            Some(g) => match group1(g) {
                Some(sub) => Some(spec_snake(sub)),
                None => None,
            },
            None => None,
        }
    } else {
        None
    }
}

/// The snake-cased subscript of `\text{kw}_X`, `\mathrm{kw}_{X}` or `kw_X`
/// (ASCII case ignored) in `line`.
pub fn extract_keyword_subscript(line: &str, keyword: &str) -> (r: Option<String>)
    ensures
        match r {
            Some(v) => spec_extract_keyword_subscript(line@, keyword@) == Some(v@),
            None => spec_extract_keyword_subscript(line@, keyword@) is None,
        },
{
    let e = crate::regex_ops::re_escape(keyword);
    let mut p = chars_of("(?i)(?:\\\\(?:text|mathrm|rm)\\s*\\{\\s*");
    append_chars(&mut p, &chars_of(e.as_str()));
    append_chars(&mut p, &chars_of("\\s*\\}|"));
    append_chars(&mut p, &chars_of(e.as_str()));
    append_chars(&mut p, &chars_of(")_\\s*\\{?\\s*([A-Za-z][A-Za-z0-9]*)\\s*\\}?"));
    assert(p@ == keyword_subscript_pattern(keyword@));
    let ps = string_of(&p);
    match crate::regex_ops::re_captures(ps.as_str(), line) {
        Some(Some(g)) => {
            if g.len() > 1 {
                assert(group1(crate::regex_ops::groups_view(g@)) == crate::regex_ops::opt_view(
                    g@[1],
                ));
                match &g[1] {
                    Some(sub) => Some(snake(sub.as_str())),
                    None => None,
                }
            } else {
                None
            }
        },
        _ => None,
    }
}

/// The loop variable of a `case_T`-style placeholder.
pub fn extract_case_subscript(line: &str) -> (r: Option<String>)
    ensures
        match r {
            Some(v) => spec_extract_keyword_subscript(line@, "case"@) == Some(v@),
            None => spec_extract_keyword_subscript(line@, "case"@) is None,
        },
{
    extract_keyword_subscript(line, "case")
}

/// The loop variable of a `query_Q`-style placeholder.
pub fn extract_query_subscript(line: &str) -> (r: Option<String>)
    ensures
        match r {
            Some(v) => spec_extract_keyword_subscript(line@, "query"@) == Some(v@),
            None => spec_extract_keyword_subscript(line@, "query"@) is None,
        },
{
    extract_keyword_subscript(line, "query")
}

} // verus!

verus! {

// ─── size expressions ───────────────────────────────────────────────────────

pub const COEF_PATTERN: &'static str = "^(\\d+)([A-Za-z]+)$";

pub open spec fn group_n(g: Seq<Option<Seq<char>>>, n: int) -> Option<Seq<char>> {
    if 0 <= n < g.len() {
        g[n]
    } else {
        None
    }
}

/// `split_once(c)`: the text before and after the first `c`.
pub open spec fn split_once(s: Seq<char>, c: char) -> Option<(Seq<char>, Seq<char>)> {
    match spec_find(s, seq![c]) {
        Some(i) => Some((s.take(i), s.skip(i + 1))),
        None => None,
    }
}

pub open spec fn spec_sym_expr(s: Seq<char>) -> Seq<char> {
    let t = spec_replace(crate::text::spec_trim(s), " "@, ""@);
    let t = spec_replace(t, "\\"@, ""@);
    let dash = match split_once(t, '-') {
        Some(ab) => if crate::text::all_digits(ab.1) {
            Some(spec_snake(ab.0) + seq!['-'] + ab.1)
        } else {
            None
        },
        None => None,
    };
    match dash {
        Some(r) => r,
        None => {
            let coef = if crate::regex_ops::regex_compiles(COEF_PATTERN@) {
                match crate::regex_ops::regex_first_captures(COEF_PATTERN@, t) {
                    Some(g) => match (group_n(g, 1), group_n(g, 2)) {
                        (Some(d), Some(v)) => Some(d + seq!['*'] + spec_snake(v)),
                        _ => None,
                    },
                    None => None,
                }
            } else {
                None
            };
            match coef {
                Some(r) => r,
                None => if forall|i: int| 0 <= i < t.len() ==> spec_is_ascii_alpha(#[trigger] t[i]) {
                    spec_snake(t)
                } else {
                    t
                },
            }
        },
    }
}

fn all_digit_chars(s: &Vec<char>) -> (r: bool)
    ensures
        r == crate::text::all_digits(s@),
{
    let mut i: usize = 0;
    while i < s.len()
        invariant
            i <= s@.len(),
            forall|j: int| 0 <= j < i ==> crate::text::spec_is_ascii_digit(#[trigger] s@[j]),
        decreases s.len() - i,
    {
        if !crate::text::is_ascii_digit(s[i]) {
            return false;
        }
        i += 1;
    }
    true
}

fn all_alpha_chars(s: &Vec<char>) -> (r: bool)
    ensures
        r == forall|i: int| 0 <= i < s@.len() ==> spec_is_ascii_alpha(#[trigger] s@[i]),
{
    let mut i: usize = 0;
    while i < s.len()
        invariant
            i <= s@.len(),
            forall|j: int| 0 <= j < i ==> spec_is_ascii_alpha(#[trigger] s@[j]),
        decreases s.len() - i,
    {
        if !is_ascii_alpha(s[i]) {
            return false;
        }
        i += 1;
    }
    true
}

pub fn sym_expr_chars(s: &Vec<char>) -> (r: Vec<char>)
    ensures
        r@ == spec_sym_expr(s@),
{
    let t = replace_str(&crate::text::trim(s), " ", "");
    let t = replace_str(&t, "\\", "");
    let mut dash: Vec<char> = Vec::new();
    dash.push('-');
    assert(dash@ =~= seq!['-']);
    match find(&t, &dash) {
        Some(i) => {
            let n = t.len();
            assert(dash@.len() == 1);
            assert(i + 1 <= n);
            let a = copy_range(&t, 0, i);
            let b = copy_range(&t, i + 1, n);
            assert(a@ =~= t@.take(i as int));
            assert(b@ =~= t@.skip(i + 1));
            if all_digit_chars(&b) {
                let mut out = snake_chars(&a);
                out.push('-');
                append_chars(&mut out, &b);
                assert(out@ =~= spec_snake(a@) + seq!['-'] + b@);
                return out;
            }
        },
        None => {},
    }
    let ts = string_of(&t);
    match crate::regex_ops::re_captures(COEF_PATTERN, ts.as_str()) {
        Some(Some(g)) => {
            if g.len() > 2 {
                assert(group_n(crate::regex_ops::groups_view(g@), 1) == crate::regex_ops::opt_view(
                    g@[1],
                ));
                assert(group_n(crate::regex_ops::groups_view(g@), 2) == crate::regex_ops::opt_view(
                    g@[2],
                ));
                match (&g[1], &g[2]) {
                    (Some(d), Some(v)) => {
                        let mut out = chars_of(d.as_str());
                        out.push('*');
                        append_chars(&mut out, &snake_chars(&chars_of(v.as_str())));
                        return out;
                    },
                    _ => {},
                }
            }
        },
        _ => {},
    }
    if all_alpha_chars(&t) {
        snake_chars(&t)
    } else {
        t
    }
}

/// Canonical form of one index expression: spaces and backslashes dropped,
/// `N-1` as `n-1`, `2N` as `2*n`, a plain name snake-cased.
pub fn sym_expr(s: &str) -> (r: String)
    ensures
        r@ == spec_sym_expr(s@),
{
    string_of(&sym_expr_chars(&chars_of(s)))
}

/// A literal, or a name plus a literal offset.
pub enum Affine {
    Lit(i64),
    Var(Vec<char>, i128),
}

pub enum AffineM {
    Lit(int),
    Var(Seq<char>, int),
}

pub open spec fn affine_view(a: Affine) -> AffineM {
    match a {
        Affine::Lit(n) => AffineM::Lit(n as int),
        Affine::Var(v, o) => AffineM::Var(v@, o as int),
    }
}

pub const AFFINE_PATTERN: &'static str = "^\\(?([a-z][a-z0-9_]*)\\)?(?:([+-])(\\d+))?$";

pub open spec fn spec_parse_affine(raw: Seq<char>) -> Option<AffineM> {
    let e = spec_sym_expr(raw);
    match crate::text::spec_parse_i64(e) {
        Some(n) => Some(AffineM::Lit(n as int)),
        None => if crate::regex_ops::regex_compiles(AFFINE_PATTERN@) {
            match crate::regex_ops::regex_first_captures(AFFINE_PATTERN@, e) {
                None => None,
                Some(g) => match group_n(g, 1) {
                    None => None,
                    Some(name) => match (group_n(g, 2), group_n(g, 3)) {
                        (Some(sign), Some(n)) => match crate::text::spec_parse_i64(n) {
                            None => None,
                            Some(v) => Some(
                                AffineM::Var(name, if sign == "-"@ { -(v as int) } else { v as int }),
                            ),
                        },
                        _ => Some(AffineM::Var(name, 0)),
                    },
                },
            }
        } else {
            None
        },
    }
}

pub fn parse_affine(raw: &Vec<char>) -> (r: Option<Affine>)
    ensures
        match r {
            Some(a) => spec_parse_affine(raw@) == Some(affine_view(a)),
            None => spec_parse_affine(raw@) is None,
        },
        r matches Some(Affine::Var(_, o)) ==> -0x8000_0000_0000_0000 <= o <= 0x8000_0000_0000_0000,
{
    let e = sym_expr_chars(raw);
    match crate::text::parse_i64(&e) {
        Some(n) => return Some(Affine::Lit(n)),
        None => {},
    }
    let es = string_of(&e);
    match crate::regex_ops::re_captures(AFFINE_PATTERN, es.as_str()) {
        Some(Some(g)) => {
            let ghost gv = crate::regex_ops::groups_view(g@);
            if g.len() <= 1 {
                return None;
            }
            assert(group_n(gv, 1) == crate::regex_ops::opt_view(g@[1]));
            let name = match &g[1] {
                Some(n) => chars_of(n.as_str()),
                None => return None,
            };
            if g.len() > 3 {
                assert(group_n(gv, 2) == crate::regex_ops::opt_view(g@[2]));
                assert(group_n(gv, 3) == crate::regex_ops::opt_view(g@[3]));
                match (&g[2], &g[3]) {
                    (Some(sign), Some(n)) => {
                        let v = match crate::text::parse_i64(&chars_of(n.as_str())) {
                            Some(v) => v,
                            None => return None,
                        };
                        let neg = crate::text::str_eq(sign.as_str(), "-");
                        let w = v as i128;
                        return Some(Affine::Var(name, if neg { -w } else { w }));
                    },
                    _ => {},
                }
            } else {
                assert(group_n(gv, 3) is None);
            }
            Some(Affine::Var(name, 0))
        },
        _ => None,
    }
}

} // verus!

verus! {

/// `name`, `name+k` or `name-k` for a name plus an offset.
pub open spec fn spec_render_var_offset(name: Seq<char>, offset: int) -> Seq<char> {
    if offset == 0 {
        name
    } else if offset > 0 {
        name + seq!['+'] + crate::text::spec_int_chars(offset)
    } else {
        name + crate::text::spec_int_chars(offset)
    }
}

/// The size of the index span `first..=last` as text: `last - first + 1`
/// where both ends are literals or share one variable, the variable plus an
/// offset where only the last end names one; `None` for a negative literal
/// size, for spans between two different variables, a variable start
/// before a literal end, and for ends that are neither.
pub open spec fn spec_len_expr(first: Seq<char>, last: Seq<char>) -> Option<Seq<char>> {
    match (spec_parse_affine(first), spec_parse_affine(last)) {
        (Some(AffineM::Lit(f)), Some(AffineM::Lit(l))) => if l - f + 1 >= 0 {
            Some(crate::text::spec_int_chars(l - f + 1))
        } else {
            None
        },
        (Some(AffineM::Lit(f)), Some(AffineM::Var(name, off))) => Some(
            spec_render_var_offset(name, off - f + 1),
        ),
        (Some(AffineM::Var(a, fo)), Some(AffineM::Var(b, lo))) => if a == b && lo - fo + 1 >= 0 {
            Some(crate::text::spec_int_chars(lo - fo + 1))
        } else {
            None
        },
        _ => None,
    }
}

fn render_var_offset(name: Vec<char>, offset: i128) -> (r: Vec<char>)
    ensures
        r@ == spec_render_var_offset(name@, offset as int),
{
    if offset == 0 {
        name
    } else if offset > 0 {
        let mut out = name;
        out.push('+');
        append_chars(&mut out, &crate::text::int_chars(offset));
        out
    } else {
        let mut out = name;
        append_chars(&mut out, &crate::text::int_chars(offset));
        out
    }
}

/// `len_expr`: the size of an index span, see `spec_len_expr`.
pub fn len_expr(first_idx: &str, last_raw: &str) -> (r: Option<String>)
    ensures
        match r {
            Some(s) => spec_len_expr(first_idx@, last_raw@) == Some(s@),
            None => spec_len_expr(first_idx@, last_raw@) is None,
        },
{
    let f = match parse_affine(&chars_of(first_idx)) {
        Some(a) => a,
        None => return None,
    };
    let l = match parse_affine(&chars_of(last_raw)) {
        Some(a) => a,
        None => return None,
    };
    proof {
        assert(spec_parse_affine(first_idx@) == Some(affine_view(f)));
    }
    match (f, l) {
        (Affine::Lit(a), Affine::Lit(b)) => {
            let len: i128 = b as i128 - a as i128 + 1;
            if len >= 0 {
                Some(string_of(&crate::text::int_chars(len)))
            } else {
                None
            }
        },
        (Affine::Lit(a), Affine::Var(name, off)) => {
            Some(string_of(&render_var_offset(name, off - a as i128 + 1)))
        },
        (Affine::Var(n1, o1), Affine::Var(n2, o2)) => {
            if chars_eq(&n1, &n2) {
                let len: i128 = o2 - o1 + 1;
                if len >= 0 {
                    Some(string_of(&crate::text::int_chars(len)))
                } else {
                    None
                }
            } else {
                None
            }
        },
        _ => None,
    }
}

} // verus!
