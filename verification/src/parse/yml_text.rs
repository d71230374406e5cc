//! The text of a persisted `random_test:` section: block sequences of
//! chosen keys rewritten in flow style, and the section put in place of an
//! earlier one in a test-suite file.

use vstd::prelude::*;
use crate::text::{
    append_chars, chars_of, spec_split_char, spec_starts_with, spec_trim_start, spec_trim_start_matches,
    string_of, vv,
};
use crate::template::join_with;

verus! {

// ─── lines ──────────────────────────────────────────────────────────────────

pub open spec fn strip_cr(p: Seq<char>) -> Seq<char> {
    if p.len() > 0 && p.last() == '\r' {
        p.drop_last()
    } else {
        p
    }
}

/// `str::lines`: the pieces between `\n`, a `\r` before each `\n` dropped,
/// and no empty piece after a final `\n`.
pub open spec fn spec_lines(s: Seq<char>) -> Seq<Seq<char>> {
    let parts = spec_split_char(s, '\n');
    if parts.len() == 0 {
        seq![]
    } else {
        let body = parts.drop_last().map_values(|p: Seq<char>| strip_cr(p));
        if parts.last().len() > 0 {
            body.push(parts.last())
        } else {
            body
        }
    }
}

pub fn lines_of(s: &Vec<char>) -> (r: Vec<Vec<char>>)
    ensures
        vv(r@) == spec_lines(s@),
{
    let parts = crate::text::split_char(s, '\n');
    let ghost ps = vv(parts@);
    let mut out: Vec<Vec<char>> = Vec::new();
    if parts.len() == 0 {
        assert(vv(out@) =~= Seq::<Seq<char>>::empty());
        return out;
    }
    let mut i: usize = 0;
    let n = parts.len() - 1;
    assert(vv(out@) =~= ps.drop_last().take(0).map_values(|p: Seq<char>| strip_cr(p)));
    while i < n
        invariant
            ps == vv(parts@),
            n + 1 == parts@.len(),
            i <= n,
            vv(out@) == ps.drop_last().take(i as int).map_values(|p: Seq<char>| strip_cr(p)),
        decreases n - i,
    {
        let p = &parts[i];
        let mut q = crate::text::copy_range(p, 0, p.len());
        if q.len() > 0 && q[q.len() - 1] == '\r' {
            q.pop();
        }
        assert(q@ == strip_cr(ps[i as int]));
        let ghost before = out@;
        out.push(q);
        proof {
            crate::text::lemma_vv_push(before, q);
            assert(ps.drop_last().take(i + 1) =~= ps.drop_last().take(i as int).push(ps[i as int]));
            assert(ps.drop_last().take(i + 1).map_values(|p: Seq<char>| strip_cr(p)) =~= ps.drop_last().take(
                i as int,
            ).map_values(|p: Seq<char>| strip_cr(p)).push(strip_cr(ps[i as int])));
        }
        i += 1;
    }
    assert(ps.drop_last().take(n as int) =~= ps.drop_last());
    let last = &parts[n];
    assert(ps.last() == last@);
    if last.len() > 0 {
        let q = crate::text::copy_range(last, 0, last.len());
        assert(q@ =~= last@);
        proof {
            crate::text::lemma_vv_push(out@, q);
        }
        out.push(q);
    }
    assert(vv(out@) =~= spec_lines(s@));
    out
}

// ─── flow style ─────────────────────────────────────────────────────────────

/// The number of UTF-8 bytes of a character.
pub open spec fn utf8_width(c: char) -> nat {
    if (c as u32) < 0x80 {
        1
    } else if (c as u32) < 0x800 {
        2
    } else if (c as u32) < 0x10000 {
        3
    } else {
        4
    }
}

pub open spec fn utf8_len(s: Seq<char>) -> nat
    decreases s.len(),
{
    if s.len() == 0 {
        0
    } else {
        utf8_len(s.drop_last()) + utf8_width(s.last())
    }
}

/// `n` spaces.
pub open spec fn spaces(n: nat) -> Seq<char> {
    Seq::new(n, |i: int| ' ')
}

/// The byte length of a line's leading whitespace.
pub open spec fn indent_of(line: Seq<char>) -> nat {
    utf8_len(line.take(line.len() - spec_trim_start(line).len()))
}

pub open spec fn is_flat_key(t: Seq<char>) -> bool {
    t == "values:"@ || t == "scalars:"@ || t == "vars:"@ || t == "range:"@
}

pub open spec fn is_pair_key(t: Seq<char>) -> bool {
    t == "ordering:"@ || t == "not_equal:"@
}

/// The text of a sequence item: leading spaces, then `- ` markers, dropped.
pub open spec fn item_of(line: Seq<char>) -> Seq<char> {
    spec_trim_start_matches(spec_trim_start_matches(line, " "@), "- "@)
}

/// The first index at or after `j` whose line does not start with `prefix`.
pub open spec fn run_end(ls: Seq<Seq<char>>, j: int, prefix: Seq<char>) -> int
    decreases ls.len() - j,
{
    if j < 0 || j >= ls.len() || !spec_starts_with(ls[j], prefix) {
        j
    } else {
        run_end(ls, j + 1, prefix)
    }
}

pub open spec fn items_of(ls: Seq<Seq<char>>) -> Seq<Seq<char>> {
    ls.map_values(|l: Seq<char>| item_of(l))
}

/// The pairs of a nested sequence from line `j`: each outer item and the
/// inner items after it, as `[a, b]`; and the index after them.
pub open spec fn pairs_from(ls: Seq<Seq<char>>, j: int, indent: nat) -> (Seq<Seq<char>>, int)
    decreases ls.len() - j,
{
    let outer = spaces(indent + 2) + "- "@;
    let inner = spaces(indent + 4) + "- "@;
    if 0 <= j < ls.len() && spec_starts_with(ls[j], outer) {
        let after = item_of(ls[j]);
        let k = run_end(ls, j + 1, inner);
        proof {
            lemma_run_end(ls, j + 1, inner);
        }
        let sub = (if after.len() > 0 {
            seq![spec_trim_start_matches(after, "- "@)]
        } else {
            seq![]
        }) + items_of(ls.subrange(j + 1, k));
        let pair = "["@ + join_with(sub, ", "@) + "]"@;
        let rest = pairs_from(ls, k, indent);
        (seq![pair] + rest.0, rest.1)
    } else {
        (seq![], j)
    }
}

pub proof fn lemma_run_end(ls: Seq<Seq<char>>, j: int, prefix: Seq<char>)
    requires
        0 <= j <= ls.len(),
    ensures
        j <= run_end(ls, j, prefix) <= ls.len(),
        forall|t: int| j <= t < run_end(ls, j, prefix) ==> spec_starts_with(#[trigger] ls[t], prefix),
        run_end(ls, j, prefix) < ls.len() ==> !spec_starts_with(ls[run_end(ls, j, prefix)], prefix),
    decreases ls.len() - j,
{
    if j < ls.len() && spec_starts_with(ls[j], prefix) {
        lemma_run_end(ls, j + 1, prefix);
    }
}

pub proof fn lemma_pairs_from(ls: Seq<Seq<char>>, j: int, indent: nat)
    requires
        0 <= j <= ls.len(),
    ensures
        j <= pairs_from(ls, j, indent).1 <= ls.len(),
        pairs_from(ls, j, indent).0.len() > 0 ==> pairs_from(ls, j, indent).1 > j,
    decreases ls.len() - j,
{
    let outer = spaces(indent + 2) + "- "@;
    let inner = spaces(indent + 4) + "- "@;
    if 0 <= j < ls.len() && spec_starts_with(ls[j], outer) {
        lemma_run_end(ls, j + 1, inner);
        let k = run_end(ls, j + 1, inner);
        lemma_pairs_from(ls, k, indent);
    }
}

/// The output from line `i` on, each line ended by `\n`.
pub open spec fn compact_from(ls: Seq<Seq<char>>, i: int) -> Seq<char>
    decreases ls.len() - i,
{
    if i < 0 || i >= ls.len() {
        seq![]
    } else {
        let line = ls[i];
        let trimmed = spec_trim_start(line);
        let indent = indent_of(line);
        let key = crate::text::spec_trim_end_matches(trimmed, ":"@);
        if is_flat_key(trimmed) {
            let j = run_end(ls, i + 1, spaces(indent + 2) + "- "@);
            proof {
                lemma_run_end(ls, i + 1, spaces(indent + 2) + "- "@);
            }
            if j == i + 1 {
                line + "\n"@ + compact_from(ls, i + 1)
            } else {
                spaces(indent) + key + ": ["@ + join_with(items_of(ls.subrange(i + 1, j)), ", "@) + "]"@ + "\n"@
                    + compact_from(ls, j)
            }
        } else if is_pair_key(trimmed) {
            let p = pairs_from(ls, i + 1, indent);
            proof {
                lemma_pairs_from(ls, i + 1, indent);
            }
            if p.0.len() == 0 {
                line + "\n"@ + compact_from(ls, i + 1)
            } else {
                spaces(indent) + key + ": ["@ + join_with(p.0, ", "@) + "]"@ + "\n"@ + compact_from(ls, p.1)
            }
        } else {
            line + "\n"@ + compact_from(ls, i + 1)
        }
    }
}

/// Block sequences under `values`, `scalars`, `vars` and `range` written
/// as `key: [a, b]`, and pair sequences under `ordering` and `not_equal`
/// as `key: [[a, b], [c, d]]`; other lines are kept. Every output line
/// ends with `\n`.
pub open spec fn spec_compactify(yaml: Seq<char>) -> Seq<char> {
    compact_from(spec_lines(yaml), 0)
}

// ─── executable ─────────────────────────────────────────────────────────────

fn indent_exec(line: &Vec<char>, trimmed_len: usize) -> (r: u128)
    requires
        trimmed_len <= line@.len(),
    ensures
        r == utf8_len(line@.take(line@.len() - trimmed_len)),
        r <= 4 * line@.len(),
        r <= 4 * (usize::MAX as int),
{
    let n = line.len() - trimmed_len;
    let mut acc: u128 = 0;
    let mut i: usize = 0;
    assert(line@.take(0) =~= Seq::<char>::empty());
    while i < n
        invariant
            n == line@.len() - trimmed_len,
            i <= n,
            acc == utf8_len(line@.take(i as int)),
            acc <= 4 * i,
        decreases n - i,
    {
        let c = line[i] as u32;
        let w: u128 = if c < 0x80 { 1 } else if c < 0x800 { 2 } else if c < 0x10000 { 3 } else { 4 };
        assert(line@.take(i + 1).drop_last() =~= line@.take(i as int));
        assert(w == utf8_width(line@[i as int]));
        acc = acc + w;
        i += 1;
    }
    acc
}

/// `line` starts with `n` spaces and `- `.
fn starts_indented(line: &Vec<char>, n: u128) -> (r: bool)
    requires
        n <= 0x1_0000_0000_0000_0000_0000,
    ensures
        r == spec_starts_with(line@, spaces(n as nat) + "- "@),
{
    proof {
        reveal_strlit("- ");
    }
    let ghost pat = spaces(n as nat) + "- "@;
    assert(pat.len() == n + 2);
    if (line.len() as u128) < n + 2 {
        return false;
    }
    let m = n as usize;
    let mut k: usize = 0;
    while k < m
        invariant
            m == n,
            m + 2 <= line@.len(),
            pat == spaces(n as nat) + "- "@,
            pat.len() == n + 2,
            k <= m,
            forall|t: int| 0 <= t < k ==> #[trigger] line@[t] == ' ',
        decreases m - k,
    {
        if line[k] != ' ' {
            assert(line@.take(pat.len() as int)[k as int] != pat[k as int]);
            return false;
        }
        k += 1;
    }
    let ok = line[m] == '-' && line[m + 1] == ' ';
    proof {
        if ok {
            assert(line@.take(pat.len() as int) =~= pat);
        } else {
            if line@[m as int] != '-' {
                assert(line@.take(pat.len() as int)[m as int] != pat[m as int]);
            } else {
                assert(line@.take(pat.len() as int)[m + 1] != pat[m + 1]);
            }
        }
    }
    ok
}

fn push_spaces(out: &mut Vec<char>, n: u128)
    requires
        n <= usize::MAX,
    ensures
        final(out)@ == old(out)@ + spaces(n as nat),
{
    let ghost o = out@;
    let m = n as usize;
    let mut k: usize = 0;
    while k < m
        invariant
            m == n,
            k <= m,
            out@ == o + spaces(k as nat),
        decreases m - k,
    {
        out.push(' ');
        assert(o + spaces((k + 1) as nat) =~= (o + spaces(k as nat)).push(' '));
        k += 1;
    }
}

fn push_str(out: &mut Vec<char>, s: &str)
    ensures
        final(out)@ == old(out)@ + s@,
{
    append_chars(out, &chars_of(s));
}

fn item_exec(line: &Vec<char>) -> (r: Vec<char>)
    ensures
        r@ == item_of(line@),
{
    crate::text::trim_start_matches(&crate::text::trim_start_matches(line, " "), "- ")
}

fn join_chars(parts: &Vec<Vec<char>>, sep: &str) -> (r: Vec<char>)
    ensures
        r@ == join_with(vv(parts@), sep@),
{
    let ghost ps = vv(parts@);
    let mut out: Vec<char> = Vec::new();
    let mut i: usize = 0;
    assert(ps.take(0) =~= Seq::<Seq<char>>::empty());
    while i < parts.len()
        invariant
            ps == vv(parts@),
            i <= ps.len(),
            out@ == join_with(ps.take(i as int), sep@),
        decreases ps.len() - i,
    {
        assert(ps.take(i + 1).drop_last() =~= ps.take(i as int));
        assert(ps.take(i + 1).last() == parts@[i as int]@);
        if i > 0 {
            push_str(&mut out, sep);
        } else {
            assert(out@ =~= Seq::<char>::empty());
        }
        append_chars(&mut out, &parts[i]);
        proof {
            if i == 0 {
                assert(ps.take(1)[0] == ps[0]);
            }
        }
        i += 1;
    }
    assert(ps.take(ps.len() as int) =~= ps);
    out
}

fn push_vec(v: &mut Vec<Vec<char>>, x: Vec<char>)
    ensures
        vv(final(v)@) == vv(old(v)@).push(x@),
{
    proof {
        crate::text::lemma_vv_push(v@, x);
    }
    v.push(x);
}

/// The items of the lines `j..` that start with `n` spaces and `- `, and
/// the index after them.
fn run_items(ls: &Vec<Vec<char>>, j: usize, n: u128) -> (r: (Vec<Vec<char>>, usize))
    requires
        j <= ls@.len(),
        n <= 0x1_0000_0000_0000_0000_0000,
    ensures
        r.1 == run_end(vv(ls@), j as int, spaces(n as nat) + "- "@),
        vv(r.0@) == items_of(vv(ls@).subrange(j as int, r.1 as int)),
{
    let ghost l = vv(ls@);
    let ghost p = spaces(n as nat) + "- "@;
    let mut items: Vec<Vec<char>> = Vec::new();
    let mut k = j;
    assert(vv(items@) =~= items_of(l.subrange(j as int, j as int)));
    while k < ls.len() && starts_indented(&ls[k], n)
        invariant
            l == vv(ls@),
            n <= 0x1_0000_0000_0000_0000_0000,
            p == spaces(n as nat) + "- "@,
            j <= k <= ls@.len(),
            run_end(l, j as int, p) == run_end(l, k as int, p),
            vv(items@) == items_of(l.subrange(j as int, k as int)),
        decreases ls.len() - k,
    {
        assert(l[k as int] == ls@[k as int]@);
        push_vec(&mut items, item_exec(&ls[k]));
        assert(items_of(l.subrange(j as int, k + 1)) =~= items_of(l.subrange(j as int, k as int)).push(
            item_of(l[k as int]),
        ));
        k += 1;
    }
    proof {
        if k < ls.len() {
            assert(l[k as int] == ls@[k as int]@);
        }
    }
    (items, k)
}

/// The pairs from line `j` on, as `pairs_from` reads them.
fn pairs_exec(ls: &Vec<Vec<char>>, j: usize, indent: u128) -> (r: (Vec<Vec<char>>, usize))
    requires
        j <= ls@.len(),
        indent <= 0x100_0000_0000_0000_0000,
    ensures
        (vv(r.0@), r.1 as int) == pairs_from(vv(ls@), j as int, indent as nat),
{
    let ghost l = vv(ls@);
    let mut pairs: Vec<Vec<char>> = Vec::new();
    let mut k = j;
    proof {
        lemma_pairs_from(l, j as int, indent as nat);
    }
    assert(vv(pairs@) + pairs_from(l, k as int, indent as nat).0 =~= pairs_from(l, j as int, indent as nat).0);
    while k < ls.len() && starts_indented(&ls[k], indent + 2)
        invariant
            l == vv(ls@),
            indent <= 0x100_0000_0000_0000_0000,
            j <= k <= ls@.len(),
            vv(pairs@) + pairs_from(l, k as int, indent as nat).0 == pairs_from(l, j as int, indent as nat).0,
            pairs_from(l, k as int, indent as nat).1 == pairs_from(l, j as int, indent as nat).1,
        decreases ls.len() - k,
    {
        assert(l[k as int] == ls@[k as int]@);
        assert(indent as nat + 2 == (indent + 2) as nat);
        let after = item_exec(&ls[k]);
        let mut sub: Vec<Vec<char>> = Vec::new();
        if after.len() > 0 {
            push_vec(&mut sub, crate::text::trim_start_matches(&after, "- "));
        }
        let ghost s0 = vv(sub@);
        let (inner, next) = run_items(ls, k + 1, indent + 4);
        let mut t: usize = 0;
        while t < inner.len()
            invariant
                t <= inner@.len(),
                vv(sub@) == s0 + vv(inner@).take(t as int),
            decreases inner.len() - t,
        {
            let c = crate::text::copy_range(&inner[t], 0, inner[t].len());
            assert(c@ =~= vv(inner@)[t as int]);
            push_vec(&mut sub, c);
            assert(s0 + vv(inner@).take(t + 1) =~= (s0 + vv(inner@).take(t as int)).push(inner@[t as int]@));
            t += 1;
        }
        assert(vv(inner@).take(inner@.len() as int) =~= vv(inner@));
        let mut pair: Vec<char> = Vec::new();
        push_str(&mut pair, "[");
        append_chars(&mut pair, &join_chars(&sub, ", "));
        push_str(&mut pair, "]");
        proof {
            reveal_strlit("[");
            assert(indent as nat + 4 == (indent + 4) as nat);
            assert(after@ == item_of(l[k as int]));
            assert(vv(sub@) =~= (if after@.len() > 0 {
                seq![spec_trim_start_matches(after@, "- "@)]
            } else {
                seq![]
            }) + items_of(l.subrange(k + 1, next as int)));
            assert(spec_starts_with(l[k as int], spaces(indent as nat + 2) + "- "@));
            assert(next == run_end(l, k + 1, spaces(indent as nat + 4) + "- "@));
            lemma_run_end(l, k + 1, spaces(indent as nat + 4) + "- "@);
            lemma_pairs_from(l, next as int, indent as nat);
            let pf = pairs_from(l, k as int, indent as nat);
            assert(pf.0 == seq![pair@] + pairs_from(l, next as int, indent as nat).0);
            assert(pf.1 == pairs_from(l, next as int, indent as nat).1);
        }
        let ghost p0 = vv(pairs@);
        push_vec(&mut pairs, pair);
        assert(p0.push(pair@) + pairs_from(l, next as int, indent as nat).0 =~= p0 + (seq![pair@] + pairs_from(
            l,
            next as int,
            indent as nat,
        ).0));
        k = next;
    }
    proof {
        if k < ls.len() {
            assert(l[k as int] == ls@[k as int]@);
            assert(indent as nat + 2 == (indent + 2) as nat);
        }
        assert(pairs_from(l, k as int, indent as nat).0 =~= Seq::<Seq<char>>::empty());
        assert(vv(pairs@) + Seq::<Seq<char>>::empty() =~= vv(pairs@));
    }
    (pairs, k)
}

/// Emit what `compact_from` emits for line `i`; the index after the lines
/// it consumed.
#[verifier::rlimit(40)]
fn compact_step(ls: &Vec<Vec<char>>, i: usize, out: &mut Vec<char>) -> (next: usize)
    requires
        i < ls@.len(),
    ensures
        i < next <= ls@.len(),
        final(out)@ + compact_from(vv(ls@), next as int) == old(out)@ + compact_from(vv(ls@), i as int),
{
    let ghost l = vv(ls@);
    let ghost o = out@;
    let n = ls.len();
    assert(i + 1 <= n);
    let line = &ls[i];
    assert(l[i as int] == line@);
    let trimmed = crate::text::trim_start(line);
    proof {
        crate::text::lemma_trim_start_len(line@);
    }
    let indent = indent_exec(line, trimmed.len());
    let ts = string_of(&trimmed);
    let key = crate::text::trim_end_matches(&trimmed, ":");
    let flat = crate::text::str_eq(ts.as_str(), "values:") || crate::text::str_eq(ts.as_str(), "scalars:")
        || crate::text::str_eq(ts.as_str(), "vars:") || crate::text::str_eq(ts.as_str(), "range:");
    let pair = crate::text::str_eq(ts.as_str(), "ordering:") || crate::text::str_eq(ts.as_str(), "not_equal:");
    assert(flat == is_flat_key(spec_trim_start(l[i as int])));
    assert(pair == is_pair_key(spec_trim_start(l[i as int])));
    assert(indent == indent_of(l[i as int]));
    if flat {
        let (items, j) = run_items(ls, i + 1, indent + 2);
        proof {
            assert(indent as nat + 2 == (indent + 2) as nat);
            lemma_run_end(l, i + 1, spaces(indent as nat + 2) + "- "@);
        }
        if j == i + 1 {
            append_chars(out, line);
            push_str(out, "\n");
            return i + 1;
        }
        let _len_next = ls[i + 1].len();
        proof {
            assert(spec_starts_with(l[i + 1], spaces(indent as nat + 2) + "- "@));
            assert(l[i + 1] == ls@[i + 1]@);
        }
        push_spaces(out, indent);
        append_chars(out, &key);
        push_str(out, ": [");
        append_chars(out, &join_chars(&items, ", "));
        push_str(out, "]");
        push_str(out, "\n");
        return j;
    } else if pair {
        let (pairs, j) = pairs_exec(ls, i + 1, indent);
        proof {
            lemma_pairs_from(l, i + 1, indent as nat);
        }
        if pairs.len() == 0 {
            append_chars(out, line);
            push_str(out, "\n");
            return i + 1;
        }
        let _len_next = ls[i + 1].len();
        proof {
            lemma_pairs_nonempty(l, i + 1, indent as nat);
            assert(l[i + 1] == ls@[i + 1]@);
        }
        push_spaces(out, indent);
        append_chars(out, &key);
        push_str(out, ": [");
        append_chars(out, &join_chars(&pairs, ", "));
        push_str(out, "]");
        push_str(out, "\n");
        return j;
    }
    append_chars(out, line);
    push_str(out, "\n");
    i + 1
}

/// Rewrite the block sequences of a serialized section in flow style.
pub fn compactify_values_sequences(yaml: &str) -> (r: String)
    ensures
        r@ == spec_compactify(yaml@),
{
    let ls = lines_of(&chars_of(yaml));
    let ghost l = vv(ls@);
    let mut out: Vec<char> = Vec::new();
    let mut i: usize = 0;
    assert(out@ + compact_from(l, 0) =~= spec_compactify(yaml@));
    while i < ls.len()
        invariant
            l == vv(ls@),
            i <= ls@.len(),
            out@ + compact_from(l, i as int) == spec_compactify(yaml@),
        decreases ls.len() - i,
    {
        i = compact_step(&ls, i, &mut out);
    }
    assert(compact_from(l, i as int) =~= Seq::<char>::empty());
    assert(out@ =~= spec_compactify(yaml@));
    string_of(&out)
}

/// A non-empty run of pairs starts with a line indented past `indent + 2`.
proof fn lemma_pairs_nonempty(ls: Seq<Seq<char>>, j: int, indent: nat)
    requires
        0 <= j <= ls.len(),
        pairs_from(ls, j, indent).0.len() > 0,
    ensures
        j < ls.len(),
        spec_starts_with(ls[j], spaces(indent + 2) + "- "@),
{
}

// ─── the section in its file ────────────────────────────────────────────────

/// The serialized section without a leading `---\n` document marker, in
/// flow style.
pub open spec fn spec_section_text(serialized: Seq<char>) -> Seq<char> {
    spec_compactify(
        if spec_starts_with(serialized, "---\n"@) {
            serialized.skip(4)
        } else {
            serialized
        },
    )
}

pub fn section_text(serialized: &str) -> (r: String)
    ensures
        r@ == spec_section_text(serialized@),
{
    proof {
        reveal_strlit("---\n");
    }
    let s = chars_of(serialized);
    if crate::text::starts_with_str(&s, "---\n") {
        let rest = string_of(&crate::text::copy_range(&s, 4, s.len()));
        assert(rest@ =~= serialized@.skip(4));
        compactify_values_sequences(rest.as_str())
    } else {
        compactify_values_sequences(serialized)
    }
}

/// The index of the first line that starts a `random_test:` key.
pub open spec fn section_line(ls: Seq<Seq<char>>) -> Option<int> {
    if exists|i: int| 0 <= i < ls.len() && spec_starts_with(#[trigger] ls[i], "random_test:"@) {
        Some(choose|i: int| 0 <= i < ls.len() && spec_starts_with(#[trigger] ls[i], "random_test:"@)
            && forall|j: int| 0 <= j < i ==> !spec_starts_with(#[trigger] ls[j], "random_test:"@))
    } else {
        None
    }
}

/// `raw` with any earlier `random_test:` section and what follows it cut,
/// a blank line, then `section`.
pub open spec fn spec_merge_section(raw: Seq<char>, section: Seq<char>) -> Seq<char> {
    let ls = spec_lines(raw);
    let content = match first_section_line(ls, 0) {
        Some(idx) => join_with(ls.take(idx), "\n"@) + "\n"@,
        None => raw,
    };
    let c1 = if crate::text::spec_ends_with(content, "\n"@) {
        content
    } else {
        content + "\n"@
    };
    let c2 = if crate::text::spec_ends_with(c1, "\n\n"@) {
        c1
    } else {
        c1 + "\n"@
    };
    c2 + section
}

/// The first index at or after `j` whose line starts with `random_test:`.
pub open spec fn first_section_line(ls: Seq<Seq<char>>, j: int) -> Option<int>
    decreases ls.len() - j,
{
    if j < 0 || j >= ls.len() {
        None
    } else if spec_starts_with(ls[j], "random_test:"@) {
        Some(j)
    } else {
        first_section_line(ls, j + 1)
    }
}

/// Put `section` at the end of a test-suite file's text, in place of an
/// earlier `random_test:` section.
pub fn merge_section(raw: &str, section: &str) -> (r: String)
    ensures
        r@ == spec_merge_section(raw@, section@),
{
    let rc = chars_of(raw);
    let ls = lines_of(&rc);
    let ghost l = vv(ls@);
    let mut idx: Option<usize> = None;
    let mut i: usize = 0;
    while i < ls.len() && idx.is_none()
        invariant
            l == vv(ls@),
            i <= ls@.len(),
            idx is None ==> first_section_line(l, 0) == first_section_line(l, i as int),
            idx matches Some(k) ==> k < ls@.len() && first_section_line(l, 0) == Some(k as int),
        decreases ls.len() - i,
    {
        assert(l[i as int] == ls@[i as int]@);
        if crate::text::starts_with_str(&ls[i], "random_test:") {
            idx = Some(i);
        }
        i += 1;
    }
    let mut content: Vec<char> = match idx {
        Some(k) => {
            let mut head: Vec<Vec<char>> = Vec::new();
            let mut t: usize = 0;
            while t < k
                invariant
                    l == vv(ls@),
                    k <= ls@.len(),
                    t <= k,
                    vv(head@) == l.take(t as int),
                decreases k - t,
            {
                let c = crate::text::copy_range(&ls[t], 0, ls[t].len());
                assert(c@ =~= l[t as int]);
                push_vec(&mut head, c);
                assert(l.take(t + 1) =~= l.take(t as int).push(l[t as int]));
                t += 1;
            }
            let mut c = join_chars(&head, "\n");
            push_str(&mut c, "\n");
            c
        },
        None => rc,
    };
    proof {
        if idx is None {
            assert(first_section_line(l, ls@.len() as int) is None);
        }
    }
    if !crate::text::ends_with_str(&content, "\n") {
        push_str(&mut content, "\n");
    }
    if !crate::text::ends_with_str(&content, "\n\n") {
        push_str(&mut content, "\n");
    }
    push_str(&mut content, section);
    string_of(&content)
}

} // verus!
