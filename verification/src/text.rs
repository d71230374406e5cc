//! Character-level text primitives used by the parsers.
//!
//! Text is handled as `Vec<char>` inside the library; each primitive states
//! its result over `Seq<char>`.

use vstd::prelude::*;

verus! {

// ─── character classes ──────────────────────────────────────────────────────

pub open spec fn spec_is_ascii_upper(c: char) -> bool {
    'A' <= c && c <= 'Z'
}

pub open spec fn spec_is_ascii_lower(c: char) -> bool {
    'a' <= c && c <= 'z'
}

pub open spec fn spec_is_ascii_digit(c: char) -> bool {
    '0' <= c && c <= '9'
}

pub open spec fn spec_is_ascii_alpha(c: char) -> bool {
    spec_is_ascii_upper(c) || spec_is_ascii_lower(c)
}

pub open spec fn spec_is_ascii_alnum(c: char) -> bool {
    spec_is_ascii_alpha(c) || spec_is_ascii_digit(c)
}

pub open spec fn spec_is_ascii(c: char) -> bool {
    (c as u32) < 128
}

/// Unicode `White_Space`, the set `char::is_whitespace` tests.
pub open spec fn spec_is_ws(c: char) -> bool {
    ||| c == '\t'
    ||| c == '\n'
    ||| c == '\u{0B}'
    ||| c == '\u{0C}'
    ||| c == '\r'
    ||| c == ' '
    ||| c == '\u{85}'
    ||| c == '\u{A0}'
    ||| c == '\u{1680}'
    ||| ('\u{2000}' <= c && c <= '\u{200A}')
    ||| c == '\u{2028}'
    ||| c == '\u{2029}'
    ||| c == '\u{202F}'
    ||| c == '\u{205F}'
    ||| c == '\u{3000}'
}

pub open spec fn spec_to_ascii_lower(c: char) -> char {
    if spec_is_ascii_upper(c) {
        ((c as u32) + 32) as char
    } else {
        c
    }
}

pub fn is_ascii_upper(c: char) -> (r: bool)
    ensures
        r == spec_is_ascii_upper(c),
{
    'A' <= c && c <= 'Z'
}

pub fn is_ascii_digit(c: char) -> (r: bool)
    ensures
        r == spec_is_ascii_digit(c),
{
    '0' <= c && c <= '9'
}

pub fn is_ascii_alpha(c: char) -> (r: bool)
    ensures
        r == spec_is_ascii_alpha(c),
{
    ('A' <= c && c <= 'Z') || ('a' <= c && c <= 'z')
}

pub fn is_ascii_alnum(c: char) -> (r: bool)
    ensures
        r == spec_is_ascii_alnum(c),
{
    ('A' <= c && c <= 'Z') || ('a' <= c && c <= 'z') || ('0' <= c && c <= '9')
}

pub fn is_ascii(c: char) -> (r: bool)
    ensures
        r == spec_is_ascii(c),
{
    (c as u32) < 128
}

pub fn is_ws(c: char) -> (r: bool)
    ensures
        r == spec_is_ws(c),
{
    c == '\t' || c == '\n' || c == '\u{0B}' || c == '\u{0C}' || c == '\r' || c == ' ' || c
        == '\u{85}' || c == '\u{A0}' || c == '\u{1680}' || ('\u{2000}' <= c && c <= '\u{200A}')
        || c == '\u{2028}' || c == '\u{2029}' || c == '\u{202F}' || c == '\u{205F}' || c
        == '\u{3000}'
}

pub fn to_ascii_lower(c: char) -> (r: char)
    ensures
        r == spec_to_ascii_lower(c),
{
    if 'A' <= c && c <= 'Z' {
        let b: u8 = c as u8;
        assert(b == c as u32);
        (b + 32) as char
    } else {
        c
    }
}

// ─── conversions between `str` and `Vec<char>` ──────────────────────────────

pub fn chars_of(s: &str) -> (r: Vec<char>)
    ensures
        r@ == s@,
{
    let n = s.unicode_len();
    let mut out: Vec<char> = Vec::new();
    let mut i: usize = 0;
    while i < n
        invariant
            n == s@.len(),
            i <= n,
            out@ == s@.take(i as int),
        decreases n - i,
    {
        out.push(s.get_char(i));
        assert(out@ =~= s@.take(i + 1));
        i += 1;
    }
    assert(out@ =~= s@);
    out
}

/// `String::from_iter` over the characters, in order.
#[verifier::external_body]
pub fn string_of(v: &Vec<char>) -> (r: String)
    ensures
        r@ == v@,
{
    v.iter().collect()
}

pub fn copy_range(s: &Vec<char>, from: usize, to: usize) -> (r: Vec<char>)
    requires
        from <= to <= s@.len(),
    ensures
        r@ == s@.subrange(from as int, to as int),
{
    let mut out: Vec<char> = Vec::new();
    let mut i = from;
    while i < to
        invariant
            from <= i <= to <= s@.len(),
            out@ == s@.subrange(from as int, i as int),
        decreases to - i,
    {
        out.push(s[i]);
        assert(out@ =~= s@.subrange(from as int, i + 1));
        i += 1;
    }
    out
}

pub fn append_chars(dst: &mut Vec<char>, src: &Vec<char>)
    ensures
        final(dst)@ == old(dst)@ + src@,
{
    let mut i: usize = 0;
    let ghost d0 = dst@;
    while i < src.len()
        invariant
            i <= src@.len(),
            dst@ == d0 + src@.take(i as int),
        decreases src.len() - i,
    {
        dst.push(src[i]);
        assert(dst@ =~= d0 + src@.take(i + 1));
        i += 1;
    }
    assert(src@.take(src@.len() as int) =~= src@);
}

pub fn chars_eq(a: &Vec<char>, b: &Vec<char>) -> (r: bool)
    ensures
        r == (a@ == b@),
{
    if a.len() != b.len() {
        return false;
    }
    let mut i: usize = 0;
    while i < a.len()
        invariant
            a@.len() == b@.len(),
            i <= a@.len(),
            forall|j: int| 0 <= j < i ==> a@[j] == b@[j],
        decreases a.len() - i,
    {
        if a[i] != b[i] {
            return false;
        }
        i += 1;
    }
    assert(a@ =~= b@);
    true
}

pub fn str_eq(a: &str, b: &str) -> (r: bool)
    ensures
        r == (a@ == b@),
{
    let x = chars_of(a);
    let y = chars_of(b);
    chars_eq(&x, &y)
}

// ─── searching ──────────────────────────────────────────────────────────────

pub open spec fn matches_at(s: Seq<char>, pat: Seq<char>, i: int) -> bool {
    0 <= i && i + pat.len() <= s.len() && s.subrange(i, i + pat.len()) == pat
}

/// First index `>= i` where `pat` occurs in `s`.
pub open spec fn find_from(s: Seq<char>, pat: Seq<char>, i: int) -> Option<int>
    decreases s.len() + 1 - i,
{
    if i < 0 || i + pat.len() > s.len() {
        None
    } else if matches_at(s, pat, i) {
        Some(i)
    } else {
        find_from(s, pat, i + 1)
    }
}

pub proof fn lemma_find_from_some(s: Seq<char>, pat: Seq<char>, i: int)
    ensures
        find_from(s, pat, i) matches Some(j) ==> i <= j && matches_at(s, pat, j),
    decreases s.len() + 1 - i,
{
    if !(i < 0 || i + pat.len() > s.len()) && !matches_at(s, pat, i) {
        lemma_find_from_some(s, pat, i + 1);
    }
}

/// A character that occurs nowhere in `s` is not found from any index.
pub proof fn lemma_find_char_absent(s: Seq<char>, c: char, i: int)
    requires
        !s.contains(c),
    ensures
        find_from(s, seq![c], i) is None,
    decreases s.len() + 1 - i,
{
    if !(i < 0 || i + 1 > s.len()) {
        if matches_at(s, seq![c], i) {
            assert(s.subrange(i, i + 1)[0] == s[i]);
        }
        lemma_find_char_absent(s, c, i + 1);
    }
}

/// A character that occurs nowhere in `s` is not found backwards either.
pub proof fn lemma_rfind_char_absent(s: Seq<char>, c: char, i: int)
    requires
        !s.contains(c),
    ensures
        rfind_from(s, seq![c], i) is None,
    decreases i + 1,
{
    if i >= 0 {
        if matches_at(s, seq![c], i) {
            assert(s.subrange(i, i + 1)[0] == s[i]);
        }
        lemma_rfind_char_absent(s, c, i - 1);
    }
}

/// Searching backwards from `i` finds the last occurrence of `c` at or
/// before `i`.
pub proof fn lemma_rfind_char_last(s: Seq<char>, c: char, i: int, j: int)
    requires
        0 <= j <= i < s.len(),
        s[j] == c,
        forall|q: int| j < q <= i ==> s[q] != c,
    ensures
        rfind_from(s, seq![c], i) == Some(j),
    decreases i + 1,
{
    if i == j {
        assert(s.subrange(i, i + 1) =~= seq![c]);
    } else {
        if matches_at(s, seq![c], i) {
            assert(s.subrange(i, i + 1)[0] == s[i]);
        }
        lemma_rfind_char_last(s, c, i - 1, j);
    }
}

/// Trimming leaves a text whose ends are not whitespace as it is.
pub proof fn lemma_trim_unchanged(s: Seq<char>)
    requires
        s.len() > 0 ==> !spec_is_ws(s[0]) && !spec_is_ws(s.last()),
    ensures
        spec_trim(s) == s,
{
}

pub open spec fn spec_find(s: Seq<char>, pat: Seq<char>) -> Option<int> {
    find_from(s, pat, 0)
}

pub open spec fn spec_contains(s: Seq<char>, pat: Seq<char>) -> bool {
    spec_find(s, pat) is Some
}

/// Last index `<= i` where `pat` occurs in `s`.
pub open spec fn rfind_from(s: Seq<char>, pat: Seq<char>, i: int) -> Option<int>
    decreases i + 1,
{
    if i < 0 {
        None
    } else if matches_at(s, pat, i) {
        Some(i)
    } else {
        rfind_from(s, pat, i - 1)
    }
}

pub open spec fn spec_rfind(s: Seq<char>, pat: Seq<char>) -> Option<int> {
    rfind_from(s, pat, s.len() - pat.len())
}

pub open spec fn spec_starts_with(s: Seq<char>, pat: Seq<char>) -> bool {
    pat.len() <= s.len() && s.take(pat.len() as int) == pat
}

pub open spec fn spec_ends_with(s: Seq<char>, pat: Seq<char>) -> bool {
    pat.len() <= s.len() && s.skip(s.len() - pat.len()) == pat
}

pub fn matches_at_exec(s: &Vec<char>, pat: &Vec<char>, i: usize) -> (r: bool)
    ensures
        r == matches_at(s@, pat@, i as int),
{
    if i > s.len() || pat.len() > s.len() - i {
        return false;
    }
    let mut k: usize = 0;
    while k < pat.len()
        invariant
            i + pat@.len() <= s@.len(),
            s@.len() <= usize::MAX,
            k <= pat@.len(),
            forall|j: int| 0 <= j < k ==> s@[i + j] == pat@[j],
        decreases pat.len() - k,
    {
        if s[i + k] != pat[k] {
            assert(s@.subrange(i as int, i + pat@.len())[k as int] != pat@[k as int]);
            return false;
        }
        k += 1;
    }
    assert(s@.subrange(i as int, i + pat@.len()) =~= pat@);
    true
}

pub fn find(s: &Vec<char>, pat: &Vec<char>) -> (r: Option<usize>)
    ensures
        match r {
            Some(i) => spec_find(s@, pat@) == Some(i as int) && matches_at(s@, pat@, i as int),
            None => spec_find(s@, pat@) is None,
        },
{
    find_at(s, pat, 0)
}

pub fn find_at(s: &Vec<char>, pat: &Vec<char>, start: usize) -> (r: Option<usize>)
    ensures
        match r {
            Some(i) => find_from(s@, pat@, start as int) == Some(i as int) && matches_at(
                s@,
                pat@,
                i as int,
            ) && start <= i,
            None => find_from(s@, pat@, start as int) is None,
        },
    decreases s@.len() + 1 - start,
{
    if start > s.len() || pat.len() > s.len() - start {
        return None;
    }
    if start == usize::MAX {
        return if matches_at_exec(s, pat, start) { Some(start) } else {
            assert(find_from(s@, pat@, start + 1) is None);
            None
        };
    }
    if matches_at_exec(s, pat, start) {
        Some(start)
    } else {
        find_at(s, pat, start + 1)
    }
}

pub fn rfind(s: &Vec<char>, pat: &Vec<char>) -> (r: Option<usize>)
    ensures
        match r {
            Some(i) => spec_rfind(s@, pat@) == Some(i as int),
            None => spec_rfind(s@, pat@) is None,
        },
{
    if pat.len() > s.len() {
        assert(rfind_from(s@, pat@, s@.len() - pat@.len()) is None);
        return None;
    }
    let mut i: usize = s.len() - pat.len();
    loop
        invariant
            i <= s@.len() - pat@.len(),
            pat@.len() <= s@.len(),
            rfind_from(s@, pat@, s@.len() - pat@.len()) == rfind_from(s@, pat@, i as int),
        decreases i,
    {
        if matches_at_exec(s, pat, i) {
            return Some(i);
        }
        if i == 0 {
            assert(rfind_from(s@, pat@, -1) is None);
            return None;
        }
        i -= 1;
    }
}

pub fn contains(s: &Vec<char>, pat: &Vec<char>) -> (r: bool)
    ensures
        r == spec_contains(s@, pat@),
{
    find(s, pat).is_some()
}

pub fn contains_char(s: &Vec<char>, c: char) -> (r: bool)
    ensures
        r == s@.contains(c),
{
    let mut i: usize = 0;
    while i < s.len()
        invariant
            i <= s@.len(),
            forall|j: int| 0 <= j < i ==> s@[j] != c,
        decreases s.len() - i,
    {
        if s[i] == c {
            return true;
        }
        i += 1;
    }
    false
}

pub fn starts_with(s: &Vec<char>, pat: &Vec<char>) -> (r: bool)
    ensures
        r == spec_starts_with(s@, pat@),
{
    let r = matches_at_exec(s, pat, 0);
    proof {
        if pat@.len() <= s@.len() {
            assert(s@.subrange(0, pat@.len() as int) == s@.take(pat@.len() as int));
        }
    }
    r
}

pub fn ends_with(s: &Vec<char>, pat: &Vec<char>) -> (r: bool)
    ensures
        r == spec_ends_with(s@, pat@),
{
    if pat.len() > s.len() {
        return false;
    }
    let r = matches_at_exec(s, pat, s.len() - pat.len());
    proof {
        assert(s@.subrange(s@.len() - pat@.len(), s@.len() as int) == s@.skip(
            s@.len() - pat@.len(),
        ));
    }
    r
}

// ─── replacing ──────────────────────────────────────────────────────────────

/// `str::replace`: every non-overlapping occurrence of `pat`, scanning from
/// the left, is replaced by `rep` (`pat` non-empty).
pub open spec fn spec_replace(s: Seq<char>, pat: Seq<char>, rep: Seq<char>) -> Seq<char>
    decreases s.len(),
{
    if pat.len() == 0 || s.len() == 0 {
        s
    } else if spec_starts_with(s, pat) {
        rep + spec_replace(s.skip(pat.len() as int), pat, rep)
    } else {
        seq![s[0]] + spec_replace(s.skip(1), pat, rep)
    }
}

/// A prefix that holds no first character of `pat` passes through the
/// replacement untouched.
pub proof fn lemma_replace_skip_prefix(a: Seq<char>, b: Seq<char>, pat: Seq<char>, rep: Seq<char>)
    requires
        pat.len() > 0,
        !a.contains(pat[0]),
    ensures
        spec_replace(a + b, pat, rep) == a + spec_replace(b, pat, rep),
    decreases a.len(),
{
    if a.len() > 0 {
        let s = a + b;
        assert(s[0] == a[0]);
        if spec_starts_with(s, pat) {
            assert(s.take(pat.len() as int)[0] == pat[0]);
        }
        assert(!a.skip(1).contains(pat[0])) by {
            if a.skip(1).contains(pat[0]) {
                let i = choose|i: int| 0 <= i < a.skip(1).len() && a.skip(1)[i] == pat[0];
                assert(a[i + 1] == pat[0]);
            }
        }
        assert(s.skip(1) =~= a.skip(1) + b);
        lemma_replace_skip_prefix(a.skip(1), b, pat, rep);
        assert(a =~= seq![a[0]] + a.skip(1));
    } else {
        assert(a + b =~= b);
    }
}

/// A text that holds no first character of `pat` is left as it is.
pub proof fn lemma_replace_unchanged(s: Seq<char>, pat: Seq<char>, rep: Seq<char>)
    requires
        pat.len() > 0,
        !s.contains(pat[0]),
    ensures
        spec_replace(s, pat, rep) == s,
{
    lemma_replace_skip_prefix(s, seq![], pat, rep);
    assert(s + Seq::<char>::empty() =~= s);
}

/// A text that starts differently from `pat` and holds its first
/// character nowhere after the start is left as it is.
pub proof fn lemma_replace_mismatch(s: Seq<char>, pat: Seq<char>, rep: Seq<char>, j: int)
    requires
        pat.len() > 0,
        s.len() > 0,
        pat.len() > s.len() || (0 <= j < pat.len() && s[j] != pat[j]),
        !s.skip(1).contains(pat[0]),
    ensures
        spec_replace(s, pat, rep) == s,
{
    if spec_starts_with(s, pat) {
        assert(s.take(pat.len() as int)[j] == s[j]);
    }
    lemma_replace_unchanged(s.skip(1), pat, rep);
    assert(s =~= seq![s[0]] + s.skip(1));
}

/// `pat` itself becomes `rep`.
pub proof fn lemma_replace_whole(pat: Seq<char>, rep: Seq<char>)
    requires
        pat.len() > 0,
    ensures
        spec_replace(pat, pat, rep) == rep,
{
    assert(pat.take(pat.len() as int) =~= pat);
    assert(pat.skip(pat.len() as int) =~= Seq::<char>::empty());
    assert(spec_replace(Seq::<char>::empty(), pat, rep) == Seq::<char>::empty());
    assert(spec_replace(pat, pat, rep) == rep + spec_replace(pat.skip(pat.len() as int), pat, rep));
    assert(rep + Seq::<char>::empty() =~= rep);
}

/// Digits after a text pass through a replacement whose pattern holds no
/// digit: no occurrence reaches into them.
pub proof fn lemma_replace_digits_suffix(m: Seq<char>, k: Seq<char>, pat: Seq<char>, rep: Seq<char>)
    requires
        pat.len() > 0,
        all_digits(k),
        forall|j: int| 0 <= j < pat.len() ==> !spec_is_ascii_digit(#[trigger] pat[j]),
    ensures
        spec_replace(m + k, pat, rep) == spec_replace(m, pat, rep) + k,
    decreases m.len(),
{
    if m.len() == 0 {
        assert(m + k =~= k);
        assert(!k.contains(pat[0])) by {
            if k.contains(pat[0]) {
                let i = choose|i: int| 0 <= i < k.len() && k[i] == pat[0];
                assert(spec_is_ascii_digit(k[i]));
            }
        }
        lemma_replace_unchanged(k, pat, rep);
        assert(Seq::<char>::empty() + k =~= k);
    } else {
        let s = m + k;
        if spec_starts_with(s, pat) {
            if pat.len() > m.len() {
                assert(s.take(pat.len() as int)[m.len() as int] == s[m.len() as int]);
                assert(s[m.len() as int] == k[0]);
                assert(spec_is_ascii_digit(k[0]));
                assert(!spec_is_ascii_digit(pat[m.len() as int]));
            }
            assert(m.take(pat.len() as int) =~= s.take(pat.len() as int));
            assert(spec_starts_with(m, pat));
            assert(s.skip(pat.len() as int) =~= m.skip(pat.len() as int) + k);
            lemma_replace_digits_suffix(m.skip(pat.len() as int), k, pat, rep);
        } else {
            if spec_starts_with(m, pat) {
                assert(s.take(pat.len() as int) =~= m.take(pat.len() as int));
            }
            assert(s.skip(1) =~= m.skip(1) + k);
            lemma_replace_digits_suffix(m.skip(1), k, pat, rep);
        }
    }
}

pub fn replace(s: &Vec<char>, pat: &Vec<char>, rep: &Vec<char>) -> (r: Vec<char>)
    ensures
        r@ == spec_replace(s@, pat@, rep@),
{
    if pat.len() == 0 {
        return copy_range(s, 0, s.len());
    }
    let mut out: Vec<char> = Vec::new();
    let mut i: usize = 0;
    assert(s@.skip(0) =~= s@);
    assert(out@ + spec_replace(s@, pat@, rep@) =~= spec_replace(s@, pat@, rep@));
    while i < s.len()
        invariant
            pat@.len() > 0,
            i <= s@.len(),
            out@ + spec_replace(s@.skip(i as int), pat@, rep@) == spec_replace(s@, pat@, rep@),
        decreases s.len() - i,
    {
        let ghost rest = s@.skip(i as int);
        if matches_at_exec(s, pat, i) {
            proof {
                assert(rest.take(pat@.len() as int) =~= s@.subrange(i as int, i + pat@.len()));
                assert(rest.skip(pat@.len() as int) =~= s@.skip(i + pat@.len()));
            }
            append_chars(&mut out, rep);
            i += pat.len();
            proof {
                assert(out@ + spec_replace(s@.skip(i as int), pat@, rep@) =~= (out@
                    .subrange(0, out@.len() - rep@.len())) + (rep@ + spec_replace(
                    s@.skip(i as int),
                    pat@,
                    rep@,
                )));
            }
        } else {
            proof {
                if pat@.len() <= rest.len() {
                    assert(rest.take(pat@.len() as int) =~= s@.subrange(
                        i as int,
                        i + pat@.len(),
                    ));
                }
                assert(rest.skip(1) =~= s@.skip(i + 1));
            }
            let ghost o = out@;
            out.push(s[i]);
            i += 1;
            assert(out@ + spec_replace(s@.skip(i as int), pat@, rep@) =~= o + (seq![rest[0]]
                + spec_replace(rest.skip(1), pat@, rep@)));
        }
    }
    assert(s@.skip(i as int) =~= Seq::<char>::empty());
    assert(out@ + Seq::<char>::empty() =~= out@);
    out
}

pub fn replace_str(s: &Vec<char>, pat: &str, rep: &str) -> (r: Vec<char>)
    ensures
        r@ == spec_replace(s@, pat@, rep@),
{
    let p = chars_of(pat);
    let q = chars_of(rep);
    replace(s, &p, &q)
}

/// The character sequences held by a vector of character vectors.
pub open spec fn vv(v: Seq<Vec<char>>) -> Seq<Seq<char>> {
    v.map_values(|x: Vec<char>| x@)
}

/// The character sequences held by a vector of strings.
pub open spec fn sv(v: Seq<String>) -> Seq<Seq<char>> {
    v.map_values(|x: String| x@)
}

pub proof fn lemma_vv_push(v: Seq<Vec<char>>, x: Vec<char>)
    ensures
        vv(v.push(x)) == vv(v).push(x@),
{
    assert(vv(v.push(x)) =~= vv(v).push(x@));
}

pub proof fn lemma_sv_push(v: Seq<String>, x: String)
    ensures
        sv(v.push(x)) == sv(v).push(x@),
{
    assert(sv(v.push(x)) =~= sv(v).push(x@));
}

// ─── trimming and splitting ─────────────────────────────────────────────────

pub open spec fn spec_trim_start(s: Seq<char>) -> Seq<char>
    decreases s.len(),
{
    if s.len() > 0 && spec_is_ws(s[0]) {
        spec_trim_start(s.drop_first())
    } else {
        s
    }
}

pub open spec fn spec_trim_end(s: Seq<char>) -> Seq<char>
    decreases s.len(),
{
    if s.len() > 0 && spec_is_ws(s.last()) {
        spec_trim_end(s.drop_last())
    } else {
        s
    }
}

/// `str::trim`.
pub open spec fn spec_trim(s: Seq<char>) -> Seq<char> {
    spec_trim_end(spec_trim_start(s))
}

pub fn trim_start(s: &Vec<char>) -> (r: Vec<char>)
    ensures
        r@ == spec_trim_start(s@),
{
    let mut i: usize = 0;
    assert(s@.skip(0) =~= s@);
    while i < s.len() && is_ws(s[i])
        invariant
            i <= s@.len(),
            spec_trim_start(s@.skip(i as int)) == spec_trim_start(s@),
        decreases s.len() - i,
    {
        assert(s@.skip(i as int).drop_first() =~= s@.skip(i + 1));
        i += 1;
    }
    assert(s@.skip(0) =~= s@);
    copy_range(s, i, s.len())
}

pub fn trim_end(s: &Vec<char>) -> (r: Vec<char>)
    ensures
        r@ == spec_trim_end(s@),
{
    let mut j: usize = s.len();
    assert(s@.take(s@.len() as int) =~= s@);
    while j > 0 && is_ws(s[j - 1])
        invariant
            j <= s@.len(),
            spec_trim_end(s@.take(j as int)) == spec_trim_end(s@),
        decreases j,
    {
        assert(s@.take(j as int).drop_last() =~= s@.take(j - 1));
        j -= 1;
    }
    assert(s@.take(s@.len() as int) =~= s@);
    assert(s@.subrange(0, j as int) =~= s@.take(j as int));
    copy_range(s, 0, j)
}

pub fn trim(s: &Vec<char>) -> (r: Vec<char>)
    ensures
        r@ == spec_trim(s@),
{
    let a = trim_start(s);
    trim_end(&a)
}

/// Pieces of `s` between whitespace runs, empty pieces dropped
/// (`str::split_whitespace`), built from the left.
pub open spec fn ws_words_acc(s: Seq<char>, cur: Seq<char>, acc: Seq<Seq<char>>) -> Seq<
    Seq<char>,
>
    decreases s.len(),
{
    if s.len() == 0 {
        if cur.len() > 0 {
            acc.push(cur)
        } else {
            acc
        }
    } else if spec_is_ws(s[0]) {
        ws_words_acc(s.drop_first(), seq![], if cur.len() > 0 { acc.push(cur) } else { acc })
    } else {
        ws_words_acc(s.drop_first(), cur.push(s[0]), acc)
    }
}

pub open spec fn spec_split_ws(s: Seq<char>) -> Seq<Seq<char>> {
    ws_words_acc(s, seq![], seq![])
}

pub fn split_ws(s: &Vec<char>) -> (r: Vec<Vec<char>>)
    ensures
        vv(r@) == spec_split_ws(s@),
{
    let mut acc: Vec<Vec<char>> = Vec::new();
    let mut cur: Vec<char> = Vec::new();
    let mut i: usize = 0;
    assert(s@.skip(0) =~= s@);
    assert(vv(acc@) =~= Seq::<Seq<char>>::empty());
    assert(cur@ =~= Seq::<char>::empty());
    while i < s.len()
        invariant
            i <= s@.len(),
            ws_words_acc(s@.skip(i as int), cur@, vv(acc@)) == spec_split_ws(s@),
        decreases s.len() - i,
    {
        assert(s@.skip(i as int).drop_first() =~= s@.skip(i + 1));
        if is_ws(s[i]) {
            if cur.len() > 0 {
                proof { lemma_vv_push(acc@, cur); }
                acc.push(cur);
                cur = Vec::new();
            }
            assert(cur@ =~= Seq::<char>::empty());
        } else {
            cur.push(s[i]);
        }
        i += 1;
    }
    assert(s@.skip(i as int) =~= Seq::<char>::empty());
    if cur.len() > 0 {
        proof { lemma_vv_push(acc@, cur); }
        acc.push(cur);
    }
    acc
}

/// `str::split` on a single character: pieces between occurrences, the
/// empty ones kept.
pub open spec fn split_char_acc(s: Seq<char>, sep: char, cur: Seq<char>, acc: Seq<Seq<char>>) -> Seq<
    Seq<char>,
>
    decreases s.len(),
{
    if s.len() == 0 {
        acc.push(cur)
    } else if s[0] == sep {
        split_char_acc(s.drop_first(), sep, seq![], acc.push(cur))
    } else {
        split_char_acc(s.drop_first(), sep, cur.push(s[0]), acc)
    }
}

pub open spec fn spec_split_char(s: Seq<char>, sep: char) -> Seq<Seq<char>> {
    split_char_acc(s, sep, seq![], seq![])
}

pub fn split_char(s: &Vec<char>, sep: char) -> (r: Vec<Vec<char>>)
    ensures
        vv(r@) == spec_split_char(s@, sep),
{
    let mut acc: Vec<Vec<char>> = Vec::new();
    let mut cur: Vec<char> = Vec::new();
    let mut i: usize = 0;
    assert(s@.skip(0) =~= s@);
    assert(vv(acc@) =~= Seq::<Seq<char>>::empty());
    assert(cur@ =~= Seq::<char>::empty());
    while i < s.len()
        invariant
            i <= s@.len(),
            split_char_acc(s@.skip(i as int), sep, cur@, vv(acc@)) == spec_split_char(
                s@,
                sep,
            ),
        decreases s.len() - i,
    {
        assert(s@.skip(i as int).drop_first() =~= s@.skip(i + 1));
        if s[i] == sep {
            proof { lemma_vv_push(acc@, cur); }
            acc.push(cur);
            cur = Vec::new();
            assert(cur@ =~= Seq::<char>::empty());
        } else {
            cur.push(s[i]);
        }
        i += 1;
    }
    assert(s@.skip(i as int) =~= Seq::<char>::empty());
    proof { lemma_vv_push(acc@, cur); }
    acc.push(cur);
    acc
}

// ─── case ───────────────────────────────────────────────────────────────────

pub open spec fn spec_lower(s: Seq<char>) -> Seq<char> {
    s.map_values(|c: char| spec_to_ascii_lower(c))
}

pub fn lower(s: &Vec<char>) -> (r: Vec<char>)
    ensures
        r@ == spec_lower(s@),
{
    let mut out: Vec<char> = Vec::new();
    let mut i: usize = 0;
    while i < s.len()
        invariant
            i <= s@.len(),
            out@ == spec_lower(s@.take(i as int)),
        decreases s.len() - i,
    {
        out.push(to_ascii_lower(s[i]));
        assert(out@ =~= spec_lower(s@.take(i + 1)));
        i += 1;
    }
    assert(s@.take(s@.len() as int) =~= s@);
    out
}

pub open spec fn spec_to_ascii_upper(c: char) -> char {
    if spec_is_ascii_lower(c) {
        ((c as u32) - 32) as char
    } else {
        c
    }
}

pub fn to_ascii_upper(c: char) -> (r: char)
    ensures
        r == spec_to_ascii_upper(c),
{
    if 'a' <= c && c <= 'z' {
        let b: u8 = c as u8;
        assert(b == c as u32);
        (b - 32) as char
    } else {
        c
    }
}

pub open spec fn spec_upper(s: Seq<char>) -> Seq<char> {
    s.map_values(|c: char| spec_to_ascii_upper(c))
}

/// `str::to_ascii_uppercase`.
pub fn upper_str(s: &str) -> (r: String)
    ensures
        r@ == spec_upper(s@),
{
    let c = chars_of(s);
    let mut out: Vec<char> = Vec::new();
    let mut i: usize = 0;
    while i < c.len()
        invariant
            c@ == s@,
            i <= c@.len(),
            out@ == spec_upper(c@.take(i as int)),
        decreases c.len() - i,
    {
        out.push(to_ascii_upper(c[i]));
        assert(out@ =~= spec_upper(c@.take(i + 1)));
        i += 1;
    }
    assert(c@.take(c@.len() as int) =~= c@);
    string_of(&out)
}

} // verus!

verus! {

// ─── integers ───────────────────────────────────────────────────────────────

pub open spec fn all_digits(s: Seq<char>) -> bool {
    forall|i: int| 0 <= i < s.len() ==> spec_is_ascii_digit(#[trigger] s[i])
}

pub open spec fn digit_value(c: char) -> int {
    (c as u32) - ('0' as u32)
}

pub open spec fn digits_value(s: Seq<char>) -> int
    decreases s.len(),
{
    if s.len() == 0 {
        0
    } else {
        digits_value(s.drop_last()) * 10 + digit_value(s.last())
    }
}

/// The integer `str::parse` reads: an optional sign (`-` only when
/// `signed`), then one or more ASCII digits, nothing else.
pub open spec fn spec_parse_int(s: Seq<char>, signed: bool) -> Option<int> {
    if s.len() > 0 && (s[0] == '+' || (signed && s[0] == '-')) {
        let body = s.drop_first();
        if body.len() > 0 && all_digits(body) {
            Some(if s[0] == '-' { -digits_value(body) } else { digits_value(body) })
        } else {
            None
        }
    } else if s.len() > 0 && all_digits(s) {
        Some(digits_value(s))
    } else {
        None
    }
}

/// `str::parse::<i64>`.
pub open spec fn spec_parse_i64(s: Seq<char>) -> Option<i64> {
    match spec_parse_int(s, true) {
        Some(v) => if i64::MIN <= v <= i64::MAX {
            Some(v as i64)
        } else {
            None
        },
        None => None,
    }
}

/// `str::parse::<i32>`.
pub open spec fn spec_parse_i32(s: Seq<char>) -> Option<i32> {
    match spec_parse_int(s, true) {
        Some(v) => if i32::MIN <= v <= i32::MAX {
            Some(v as i32)
        } else {
            None
        },
        None => None,
    }
}

/// `str::parse::<u64>`.
pub open spec fn spec_parse_u64(s: Seq<char>) -> Option<u64> {
    match spec_parse_int(s, false) {
        Some(v) => if 0 <= v <= u64::MAX {
            Some(v as u64)
        } else {
            None
        },
        None => None,
    }
}

/// `str::parse::<u32>`.
pub open spec fn spec_parse_u32(s: Seq<char>) -> Option<u32> {
    match spec_parse_int(s, false) {
        Some(v) => if 0 <= v <= u32::MAX {
            Some(v as u32)
        } else {
            None
        },
        None => None,
    }
}

pub proof fn lemma_digits_value_nonneg(s: Seq<char>)
    requires
        all_digits(s),
    ensures
        digits_value(s) >= 0,
    decreases s.len(),
{
    if s.len() > 0 {
        assert(all_digits(s.drop_last()));
        lemma_digits_value_nonneg(s.drop_last());
        assert(spec_is_ascii_digit(s[s.len() - 1]));
    }
}

pub proof fn lemma_digits_value_mono(s: Seq<char>, k: int)
    requires
        all_digits(s),
        0 <= k <= s.len(),
    ensures
        digits_value(s.take(k)) <= digits_value(s),
    decreases s.len(),
{
    if k < s.len() {
        assert(all_digits(s.drop_last()));
        lemma_digits_value_mono(s.drop_last(), k);
        assert(s.drop_last().take(k) =~= s.take(k));
        lemma_digits_value_nonneg(s.drop_last());
        assert(spec_is_ascii_digit(s[s.len() - 1]));
    } else {
        assert(s.take(k) =~= s);
    }
}

/// The value of the all-digit run `s[from..]`, or `None` once it passes
/// `2^64`.
fn digits_capped(s: &Vec<char>, from: usize) -> (r: Option<u128>)
    requires
        from <= s@.len(),
        all_digits(s@.skip(from as int)),
    ensures
        match r {
            Some(v) => v == digits_value(s@.skip(from as int)) && v <= 0x1_0000_0000_0000_0000,
            None => digits_value(s@.skip(from as int)) > 0x1_0000_0000_0000_0000,
        },
{
    let mut v: u128 = 0;
    let mut i: usize = from;
    let ghost body = s@.skip(from as int);
    assert(body.take(0) =~= Seq::<char>::empty());
    while i < s.len()
        invariant
            from <= i <= s@.len(),
            body == s@.skip(from as int),
            all_digits(body),
            v == digits_value(body.take(i - from)),
            v <= 0x1_0000_0000_0000_0000,
        decreases s.len() - i,
    {
        let c = s[i];
        assert(body[i - from] == c);
        assert(spec_is_ascii_digit(c));
        let d = (c as u32 - '0' as u32) as u128;
        assert(body.take(i - from + 1).drop_last() =~= body.take(i - from));
        assert(body.take(i - from + 1).last() == c);
        v = v * 10 + d;
        i += 1;
        if v > 0x1_0000_0000_0000_0000 {
            proof {
                lemma_digits_value_mono(body, i - from);
            }
            return None;
        }
    }
    assert(body.take(i - from) =~= body);
    Some(v)
}

pub fn parse_int(s: &Vec<char>, signed: bool) -> (r: Option<i128>)
    ensures
        match r {
            Some(v) => spec_parse_int(s@, signed) == Some(v as int),
            None => match spec_parse_int(s@, signed) {
                Some(w) => w > 0x1_0000_0000_0000_0000 || w < -0x1_0000_0000_0000_0000,
                None => true,
            },
        },
{
    if s.len() == 0 {
        return None;
    }
    let first = s[0];
    let start: usize = if first == '+' || (signed && first == '-') { 1 } else { 0 };
    if start >= s.len() {
        assert(s@.drop_first().len() == 0);
        return None;
    }
    let mut i = start;
    while i < s.len()
        invariant
            start <= i <= s@.len(),
            s@.len() > 0,
            first == s@[0],
            start == (if first == '+' || (signed && first == '-') { 1usize } else { 0usize }),
            forall|j: int| start <= j < i ==> spec_is_ascii_digit(#[trigger] s@[j]),
        decreases s.len() - i,
    {
        if !is_ascii_digit(s[i]) {
            proof {
                let body = s@.skip(start as int);
                assert(body[i - start] == s@[i as int]);
                assert(!all_digits(body));
                if start == 1 {
                    assert(body =~= s@.drop_first());
                } else {
                    assert(body =~= s@);
                }
            }
            return None;
        }
        i += 1;
    }
    proof {
        let body = s@.skip(start as int);
        assert forall|j: int| 0 <= j < body.len() implies spec_is_ascii_digit(#[trigger] body[j]) by {
            assert(body[j] == s@[start + j]);
        }
        if start == 1 {
            assert(body =~= s@.drop_first());
        } else {
            assert(body =~= s@);
        }
    }
    match digits_capped(s, start) {
        Some(v) => {
            if first == '-' && start == 1 {
                Some(-(v as i128))
            } else {
                Some(v as i128)
            }
        },
        None => None,
    }
}

pub fn parse_i64(s: &Vec<char>) -> (r: Option<i64>)
    ensures
        r == spec_parse_i64(s@),
{
    match parse_int(s, true) {
        Some(v) => if -0x8000_0000_0000_0000 <= v && v <= 0x7fff_ffff_ffff_ffff {
            Some(v as i64)
        } else {
            None
        },
        None => None,
    }
}

pub fn parse_i32(s: &Vec<char>) -> (r: Option<i32>)
    ensures
        r == spec_parse_i32(s@),
{
    match parse_int(s, true) {
        Some(v) => if -0x8000_0000 <= v && v <= 0x7fff_ffff {
            Some(v as i32)
        } else {
            None
        },
        None => None,
    }
}

pub fn parse_u64(s: &Vec<char>) -> (r: Option<u64>)
    ensures
        r == spec_parse_u64(s@),
{
    match parse_int(s, false) {
        Some(v) => if 0 <= v && v <= 0xffff_ffff_ffff_ffff {
            Some(v as u64)
        } else {
            None
        },
        None => None,
    }
}

pub fn parse_u32(s: &Vec<char>) -> (r: Option<u32>)
    ensures
        r == spec_parse_u32(s@),
{
    match parse_int(s, false) {
        Some(v) => if 0 <= v && v <= 0xffff_ffff {
            Some(v as u32)
        } else {
            None
        },
        None => None,
    }
}

pub open spec fn digit_char(d: int) -> char {
    ((d + 48) as u32) as char
}

/// Decimal digits of a natural number, most significant first.
pub open spec fn spec_nat_chars(n: nat) -> Seq<char>
    decreases n,
{
    if n < 10 {
        seq![digit_char(n as int)]
    } else {
        spec_nat_chars(n / 10).push(digit_char((n % 10) as int))
    }
}

/// `to_string` of an integer: decimal, with a leading `-` when negative.
pub open spec fn spec_int_chars(i: int) -> Seq<char> {
    if i < 0 {
        seq!['-'] + spec_nat_chars((-i) as nat)
    } else {
        spec_nat_chars(i as nat)
    }
}

pub fn nat_chars(n: u128) -> (r: Vec<char>)
    ensures
        r@ == spec_nat_chars(n as nat),
    decreases n,
{
    if n < 10 {
        let c = ((n as u8) + 48) as char;
        let mut v = Vec::new();
        v.push(c);
        assert(v@ =~= seq![c]);
        v
    } else {
        let mut v = nat_chars(n / 10);
        let c = (((n % 10) as u8) + 48) as char;
        v.push(c);
        v
    }
}

pub fn int_chars(i: i128) -> (r: Vec<char>)
    ensures
        r@ == spec_int_chars(i as int),
{
    if i < 0 {
        let m: u128 = if i == i128::MIN { 0x8000_0000_0000_0000_0000_0000_0000_0000 } else { (-i) as u128 };
        let d = nat_chars(m);
        let mut v = Vec::new();
        v.push('-');
        append_chars(&mut v, &d);
        assert(v@ =~= seq!['-'] + d@);
        v
    } else {
        nat_chars(i as u128)
    }
}

pub fn int_string(i: i64) -> (r: String)
    ensures
        r@ == spec_int_chars(i as int),
{
    let v = int_chars(i as i128);
    string_of(&v)
}

} // verus!

verus! {

// ─── searching for literal patterns ─────────────────────────────────────────

pub proof fn lemma_rfind_from_some(s: Seq<char>, pat: Seq<char>, i: int)
    ensures
        rfind_from(s, pat, i) matches Some(j) ==> 0 <= j <= i && matches_at(s, pat, j),
    decreases i + 1,
{
    if i >= 0 && !matches_at(s, pat, i) {
        lemma_rfind_from_some(s, pat, i - 1);
    }
}

pub fn find_str(s: &Vec<char>, pat: &str) -> (r: Option<usize>)
    ensures
        match r {
            Some(i) => spec_find(s@, pat@) == Some(i as int) && matches_at(s@, pat@, i as int),
            None => spec_find(s@, pat@) is None,
        },
{
    let p = chars_of(pat);
    find(s, &p)
}

pub fn rfind_str(s: &Vec<char>, pat: &str) -> (r: Option<usize>)
    ensures
        match r {
            Some(i) => spec_rfind(s@, pat@) == Some(i as int) && matches_at(s@, pat@, i as int),
            None => spec_rfind(s@, pat@) is None,
        },
{
    let p = chars_of(pat);
    let r = rfind(s, &p);
    proof {
        lemma_rfind_from_some(s@, pat@, s@.len() - pat@.len());
    }
    r
}

pub fn contains_str(s: &Vec<char>, pat: &str) -> (r: bool)
    ensures
        r == spec_contains(s@, pat@),
{
    find_str(s, pat).is_some()
}

pub fn starts_with_str(s: &Vec<char>, pat: &str) -> (r: bool)
    ensures
        r == spec_starts_with(s@, pat@),
{
    let p = chars_of(pat);
    starts_with(s, &p)
}

pub fn ends_with_str(s: &Vec<char>, pat: &str) -> (r: bool)
    ensures
        r == spec_ends_with(s@, pat@),
{
    let p = chars_of(pat);
    ends_with(s, &p)
}

pub proof fn lemma_trim_start_len(s: Seq<char>)
    ensures
        spec_trim_start(s).len() <= s.len(),
    decreases s.len(),
{
    if s.len() > 0 && spec_is_ws(s[0]) {
        lemma_trim_start_len(s.drop_first());
    }
}

pub proof fn lemma_trim_end_len(s: Seq<char>)
    ensures
        spec_trim_end(s).len() <= s.len(),
    decreases s.len(),
{
    if s.len() > 0 && spec_is_ws(s.last()) {
        lemma_trim_end_len(s.drop_last());
    }
}

pub proof fn lemma_trim_len(s: Seq<char>)
    ensures
        spec_trim(s).len() <= s.len(),
{
    lemma_trim_start_len(s);
    lemma_trim_end_len(spec_trim_start(s));
}

/// `str::trim_start_matches` with a text pattern.
pub open spec fn spec_trim_start_matches(s: Seq<char>, pat: Seq<char>) -> Seq<char>
    decreases s.len(),
{
    if pat.len() > 0 && spec_starts_with(s, pat) {
        spec_trim_start_matches(s.skip(pat.len() as int), pat)
    } else {
        s
    }
}

/// `str::trim_end_matches` with a text pattern.
pub open spec fn spec_trim_end_matches(s: Seq<char>, pat: Seq<char>) -> Seq<char>
    decreases s.len(),
{
    if pat.len() > 0 && spec_ends_with(s, pat) {
        spec_trim_end_matches(s.take(s.len() - pat.len()), pat)
    } else {
        s
    }
}

pub fn trim_start_matches(s: &Vec<char>, pat: &str) -> (r: Vec<char>)
    ensures
        r@ == spec_trim_start_matches(s@, pat@),
{
    let p = chars_of(pat);
    if p.len() == 0 {
        return copy_range(s, 0, s.len());
    }
    let mut i: usize = 0;
    let n = s.len();
    assert(s@.skip(0) =~= s@);
    while matches_at_exec(s, &p, i)
        invariant
            n == s@.len(),
            p@ == pat@,
            p@.len() > 0,
            i <= s@.len(),
            spec_trim_start_matches(s@.skip(i as int), pat@) == spec_trim_start_matches(s@, pat@),
        decreases s@.len() - i,
    {
        assert(s@.skip(i as int).take(p@.len() as int) =~= s@.subrange(i as int, i + p@.len()));
        assert(s@.skip(i as int).skip(p@.len() as int) =~= s@.skip(i + p@.len()));
        i = i + p.len();
    }
    proof {
        let t = s@.skip(i as int);
        if p@.len() <= t.len() {
            assert(t.take(p@.len() as int) =~= s@.subrange(i as int, i + p@.len()));
        }
    }
    copy_range(s, i, s.len())
}

pub fn trim_end_matches(s: &Vec<char>, pat: &str) -> (r: Vec<char>)
    ensures
        r@ == spec_trim_end_matches(s@, pat@),
{
    let p = chars_of(pat);
    if p.len() == 0 {
        return copy_range(s, 0, s.len());
    }
    let mut j: usize = s.len();
    assert(s@.take(s@.len() as int) =~= s@);
    while j >= p.len() && matches_at_exec(s, &p, j - p.len())
        invariant
            p@ == pat@,
            p@.len() > 0,
            j <= s@.len(),
            spec_trim_end_matches(s@.take(j as int), pat@) == spec_trim_end_matches(s@, pat@),
        decreases j,
    {
        let ghost t = s@.take(j as int);
        assert(t.skip(t.len() - p@.len()) =~= s@.subrange(j - p@.len(), j as int));
        assert(t.take(t.len() - p@.len()) =~= s@.take(j - p@.len()));
        j = j - p.len();
    }
    proof {
        let t = s@.take(j as int);
        if p@.len() <= t.len() {
            assert(t.skip(t.len() - p@.len()) =~= s@.subrange(j - p@.len(), j as int));
        }
    }
    assert(s@.subrange(0, j as int) =~= s@.take(j as int));
    copy_range(s, 0, j)
}

/// `str::split` on any of several characters: pieces between occurrences,
/// the empty ones kept.
pub open spec fn split_any_acc(s: Seq<char>, seps: Seq<char>, cur: Seq<char>, acc: Seq<Seq<char>>) -> Seq<
    Seq<char>,
>
    decreases s.len(),
{
    if s.len() == 0 {
        acc.push(cur)
    } else if seps.contains(s[0]) {
        split_any_acc(s.drop_first(), seps, seq![], acc.push(cur))
    } else {
        split_any_acc(s.drop_first(), seps, cur.push(s[0]), acc)
    }
}

pub open spec fn spec_split_any(s: Seq<char>, seps: Seq<char>) -> Seq<Seq<char>> {
    split_any_acc(s, seps, seq![], seq![])
}

pub fn split_any(s: &Vec<char>, seps: &Vec<char>) -> (r: Vec<Vec<char>>)
    ensures
        vv(r@) == spec_split_any(s@, seps@),
{
    let mut acc: Vec<Vec<char>> = Vec::new();
    let mut cur: Vec<char> = Vec::new();
    let mut i: usize = 0;
    assert(s@.skip(0) =~= s@);
    assert(vv(acc@) =~= Seq::<Seq<char>>::empty());
    assert(cur@ =~= Seq::<char>::empty());
    while i < s.len()
        invariant
            i <= s@.len(),
            split_any_acc(s@.skip(i as int), seps@, cur@, vv(acc@)) == spec_split_any(s@, seps@),
        decreases s.len() - i,
    {
        assert(s@.skip(i as int).drop_first() =~= s@.skip(i + 1));
        if contains_char(seps, s[i]) {
            proof { lemma_vv_push(acc@, cur); }
            acc.push(cur);
            cur = Vec::new();
            assert(cur@ =~= Seq::<char>::empty());
        } else {
            cur.push(s[i]);
        }
        i += 1;
    }
    assert(s@.skip(i as int) =~= Seq::<char>::empty());
    proof { lemma_vv_push(acc@, cur); }
    acc.push(cur);
    acc
}

/// `s[a..b]` as a new text (character positions).
pub fn slice_string(s: &Vec<char>, a: usize, b: usize) -> (r: String)
    requires
        a <= b <= s@.len(),
    ensures
        r@ == s@.subrange(a as int, b as int),
{
    string_of(&copy_range(s, a, b))
}

} // verus!

verus! {

/// A copy of a list of strings.
pub fn clone_strings(v: &Vec<String>) -> (r: Vec<String>)
    ensures
        sv(r@) == sv(v@),
        r@.len() == v@.len(),
{
    let mut out: Vec<String> = Vec::new();
    let mut i: usize = 0;
    while i < v.len()
        invariant
            i <= v@.len(),
            out@.len() == i,
            sv(out@) == sv(v@.take(i as int)),
        decreases v.len() - i,
    {
        let s = v[i].clone();
        proof {
            lemma_sv_push(out@, s);
            assert(v@.take(i + 1) =~= v@.take(i as int).push(v@[i as int]));
            lemma_sv_push(v@.take(i as int), v@[i as int]);
        }
        out.push(s);
        i += 1;
    }
    assert(v@.take(v@.len() as int) =~= v@);
    out
}

} // verus!

verus! {

/// `a` followed by `b`.
pub fn concat_str(a: &str, b: &str) -> (r: String)
    ensures
        r@ == a@ + b@,
{
    let mut c = chars_of(a);
    append_chars(&mut c, &chars_of(b));
    string_of(&c)
}

} // verus!
