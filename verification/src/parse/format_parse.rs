//! Input format parsing: the lines of a `<pre>` format block into
//! [`FormatBlock`] values.

use vstd::prelude::*;
use crate::maps::{m_has, m_insert, StrMap};
use crate::regex_ops::{all_groups_view, groups_view, opt_view};
use crate::text::{
    chars_eq, chars_of, contains_char, contains_str, copy_range, lemma_sv_push, lemma_vv_push,
    spec_contains, spec_split_ws, spec_trim, split_ws, string_of, sv, trim, vv,
};
use crate::parse::normalize::{group_n, len_expr, spec_len_expr};
use crate::parse::types::{block_view, blocks_view, lemma_blocks_view_push, FormatBlock, FormatBlockM};

verus! {

// ─── indexed tokens ─────────────────────────────────────────────────────────

/// `A[i][j]`: the base, then the bracketed indexes.
pub const BRACKET_TOKEN_PATTERN: &'static str = "^([A-Za-z]+)((?:\\[[^\\]]+\\])+)$";

/// One bracketed index.
pub const BRACKET_INDEX_PATTERN: &'static str = "\\[([^\\]]+)\\]";

/// `A_i`, `A_{i,j}`: the base, then the index list.
pub const UNDERSCORE_TOKEN_PATTERN: &'static str = "^([A-Za-z]+)_(?:\\{)?(.+?)(?:\\})?$";

/// The trimmed bracketed indexes of the first `k` matches, empty ones
/// dropped; `None` when a match lacks its index group.
pub open spec fn bracket_idxs_upto(gs: Seq<Seq<Option<Seq<char>>>>, k: int) -> Option<Seq<Seq<char>>>
    decreases k,
{
    if k <= 0 {
        Some(seq![])
    } else {
        match bracket_idxs_upto(gs, k - 1) {
            None => None,
            Some(acc) => match group_n(gs[k - 1], 1) {
                None => None,
                Some(x) => if spec_trim(x).len() > 0 {
                    Some(acc.push(spec_trim(x)))
                } else {
                    Some(acc)
                },
            },
        }
    }
}

/// The bracket form's result from its base and its indexes (`None`: an
/// index group that did not take part).
pub open spec fn bracket_result(base: Seq<char>, idxs: Option<Seq<Seq<char>>>) -> Option<
    Option<(Seq<char>, Seq<Seq<char>>)>,
> {
    match idxs {
        None => Some(None),
        Some(v) => if v.len() > 0 {
            Some(Some((base, v)))
        } else {
            None
        },
    }
}

/// The bracket form: `None` when it does not apply, `Some(r)` when it
/// decides the result `r`.
pub open spec fn bracket_form(t: Seq<char>) -> Option<Option<(Seq<char>, Seq<Seq<char>>)>> {
    if !crate::regex_ops::regex_compiles(BRACKET_TOKEN_PATTERN@) {
        None
    } else {
        match crate::regex_ops::regex_first_captures(BRACKET_TOKEN_PATTERN@, t) {
            None => None,
            Some(g) => match (group_n(g, 1), group_n(g, 2)) {
                (Some(base), Some(rest)) => bracket_result(
                    base,
                    if crate::regex_ops::regex_compiles(BRACKET_INDEX_PATTERN@) {
                        let gs = crate::regex_ops::regex_capture_groups(BRACKET_INDEX_PATTERN@, rest);
                        bracket_idxs_upto(gs, gs.len() as int)
                    } else {
                        Some(seq![])
                    },
                ),
                _ => Some(None),
            },
        }
    }
}

/// The trimmed pieces that are not empty.
pub open spec fn nonempty_trimmed(parts: Seq<Seq<char>>) -> Seq<Seq<char>>
    decreases parts.len(),
{
    if parts.len() == 0 {
        seq![]
    } else {
        let prev = nonempty_trimmed(parts.drop_last());
        if spec_trim(parts.last()).len() > 0 {
            prev.push(spec_trim(parts.last()))
        } else {
            prev
        }
    }
}

/// The underscore form read from the groups of its match: the base, and
/// the comma-separated indexes that are not blank.
pub open spec fn underscore_from_groups(g: Seq<Option<Seq<char>>>) -> Option<(Seq<char>, Seq<Seq<char>>)> {
    match (group_n(g, 1), group_n(g, 2)) {
        (Some(base), Some(raw)) => {
            let idxs = nonempty_trimmed(crate::text::spec_split_char(raw, ','));
            if idxs.len() > 0 {
                Some((base, idxs))
            } else {
                None
            }
        },
        _ => None,
    }
}

pub open spec fn underscore_form(t: Seq<char>) -> Option<(Seq<char>, Seq<Seq<char>>)> {
    if !crate::regex_ops::regex_compiles(UNDERSCORE_TOKEN_PATTERN@) {
        None
    } else {
        match crate::regex_ops::regex_first_captures(UNDERSCORE_TOKEN_PATTERN@, t) {
            None => None,
            Some(g) => underscore_from_groups(g),
        }
    }
}

/// An indexed token (`A_i`, `A_{i,j}`, `A[i][j]`): its base and indexes.
pub open spec fn spec_parse_indexed_token(token: Seq<char>) -> Option<(Seq<char>, Seq<Seq<char>>)> {
    let t = spec_trim(token);
    match bracket_form(t) {
        Some(r) => r,
        None => underscore_form(t),
    }
}

pub open spec fn token_view(p: (String, Vec<String>)) -> (Seq<char>, Seq<Seq<char>>) {
    (p.0@, sv(p.1@))
}

fn nonempty_trimmed_exec(parts: &Vec<Vec<char>>) -> (r: Vec<String>)
    ensures
        sv(r@) == nonempty_trimmed(vv(parts@)),
{
    let ghost ps = vv(parts@);
    let mut out: Vec<String> = Vec::new();
    let mut i: usize = 0;
    assert(ps.take(0) =~= Seq::<Seq<char>>::empty());
    assert(sv(out@) =~= Seq::<Seq<char>>::empty());
    while i < parts.len()
        invariant
            ps == vv(parts@),
            i <= parts@.len(),
            sv(out@) == nonempty_trimmed(ps.take(i as int)),
        decreases parts.len() - i,
    {
        assert(ps.take(i + 1).drop_last() =~= ps.take(i as int));
        assert(ps.take(i + 1).last() == parts@[i as int]@);
        let t = trim(&parts[i]);
        if t.len() > 0 {
            let s = string_of(&t);
            proof {
                lemma_sv_push(out@, s);
            }
            out.push(s);
        }
        i += 1;
    }
    assert(ps.take(parts@.len() as int) =~= ps);
    out
}

fn bracket_form_exec(t: &String) -> (r: Option<Option<(String, Vec<String>)>>)
    ensures
        match r {
            None => bracket_form(t@) is None,
            Some(None) => bracket_form(t@) == Some(None::<(Seq<char>, Seq<Seq<char>>)>),
            Some(Some(p)) => bracket_form(t@) == Some(Some(token_view(p))),
        },
{
    let g = match crate::regex_ops::re_captures(BRACKET_TOKEN_PATTERN, t.as_str()) {
        None => return None,
        Some(None) => return None,
        Some(Some(g)) => g,
    };
    let (base, rest) = match bracket_head_from_groups(&g) {
        Some(p) => p,
        None => return Some(None),
    };
    let idxs = match crate::regex_ops::re_captures_all(BRACKET_INDEX_PATTERN, rest.as_str()) {
        Some(gs) => bracket_indexes_from_groups(&gs),
        None => {
            let v: Vec<String> = Vec::new();
            assert(sv(v@) =~= Seq::<Seq<char>>::empty());
            Some(v)
        },
    };
    let r = bracket_token_from_parts(base, idxs);
    r
}

/// The base and the bracket part of a bracket token's match, when both
/// groups took part.
pub fn bracket_head_from_groups(g: &Vec<Option<String>>) -> (r: Option<(String, String)>)
    ensures
        match r {
            Some(p) => group_n(groups_view(g@), 1) == Some(p.0@) && group_n(groups_view(g@), 2) == Some(p.1@),
            None => !(group_n(groups_view(g@), 1) is Some && group_n(groups_view(g@), 2) is Some),
        },
{
    if g.len() <= 2 {
        assert(group_n(groups_view(g@), 2) is None);
        return None;
    }
    assert(group_n(groups_view(g@), 1) == opt_view(g@[1]));
    assert(group_n(groups_view(g@), 2) == opt_view(g@[2]));
    match (&g[1], &g[2]) {
        (Some(b), Some(r)) => Some((b.clone(), r.clone())),
        _ => None,
    }
}

/// The indexes of the bracket part from the groups of each `[..]` match:
/// the trimmed, non-blank first groups; `None` when one did not take part.
#[verifier::loop_isolation(false)]
pub fn bracket_indexes_from_groups(gs: &Vec<Vec<Option<String>>>) -> (r: Option<Vec<String>>)
    ensures
        match r {
            Some(v) => bracket_idxs_upto(all_groups_view(gs@), gs@.len() as int) == Some(sv(v@)),
            None => bracket_idxs_upto(all_groups_view(gs@), gs@.len() as int) is None,
        },
{
    let ghost gv = all_groups_view(gs@);
    let mut idxs: Vec<String> = Vec::new();
    let mut k: usize = 0;
    assert(sv(idxs@) =~= Seq::<Seq<char>>::empty());
    while k < gs.len()
        invariant
            gv == all_groups_view(gs@),
            k <= gs@.len(),
            bracket_idxs_upto(gv, k as int) == Some(sv(idxs@)),
        decreases gs.len() - k,
    {
        let c = &gs[k];
        assert(gv[k as int] == groups_view(c@));
        if c.len() <= 1 {
            assert(group_n(gv[k as int], 1) is None);
            proof {
                lemma_bracket_idxs_none(gv, k as int + 1, gv.len() as int);
            }
            return None;
        }
        assert(group_n(gv[k as int], 1) == opt_view(c@[1]));
        match &c[1] {
            Some(x) => {
                let tx = trim(&chars_of(x.as_str()));
                if tx.len() > 0 {
                    let s = string_of(&tx);
                    proof {
                        lemma_sv_push(idxs@, s);
                    }
                    idxs.push(s);
                }
            },
            None => {
                proof {
                    lemma_bracket_idxs_none(gv, k as int + 1, gv.len() as int);
                }
                return None;
            },
        }
        k += 1;
    }
    Some(idxs)
}

/// A bracket token from its base and its indexes.
pub fn bracket_token_from_parts(base: String, idxs: Option<Vec<String>>) -> (r: Option<Option<(String, Vec<String>)>>)
    ensures
        match r {
            None => bracket_result(base@, opt_strings(idxs)) is None,
            Some(None) => bracket_result(base@, opt_strings(idxs)) == Some(None::<(Seq<char>, Seq<Seq<char>>)>),
            Some(Some(p)) => bracket_result(base@, opt_strings(idxs)) == Some(Some(token_view(p))),
        },
{
    match idxs {
        None => Some(None),
        Some(v) => {
            if v.len() > 0 {
                Some(Some((base, v)))
            } else {
                None
            }
        },
    }
}

pub open spec fn opt_strings(o: Option<Vec<String>>) -> Option<Seq<Seq<char>>> {
    match o {
        Some(v) => Some(sv(v@)),
        None => None,
    }
}

proof fn lemma_bracket_idxs_none(gs: Seq<Seq<Option<Seq<char>>>>, k: int, n: int)
    requires
        k <= n,
        bracket_idxs_upto(gs, k) is None,
    ensures
        bracket_idxs_upto(gs, n) is None,
    decreases n - k,
{
    if k < n {
        lemma_bracket_idxs_none(gs, k + 1, n);
    }
}

fn underscore_form_exec(t: &String) -> (r: Option<(String, Vec<String>)>)
    ensures
        match r {
            None => underscore_form(t@) is None,
            Some(p) => underscore_form(t@) == Some(token_view(p)),
        },
{
    match crate::regex_ops::re_captures(UNDERSCORE_TOKEN_PATTERN, t.as_str()) {
        Some(Some(g)) => underscore_token_from_groups(&g),
        _ => None,
    }
}

/// An underscore token (`A_i`, `A_{i,j}`) from the groups of its match.
pub fn underscore_token_from_groups(g: &Vec<Option<String>>) -> (r: Option<(String, Vec<String>)>)
    ensures
        match r {
            None => underscore_from_groups(groups_view(g@)) is None,
            Some(p) => underscore_from_groups(groups_view(g@)) == Some(token_view(p)),
        },
{
    if g.len() <= 2 {
        assert(group_n(groups_view(g@), 2) is None);
        return None;
    }
    assert(group_n(groups_view(g@), 1) == opt_view(g@[1]));
    assert(group_n(groups_view(g@), 2) == opt_view(g@[2]));
    match (&g[1], &g[2]) {
        (Some(b), Some(raw)) => {
            let idxs = nonempty_trimmed_exec(&crate::text::split_char(&chars_of(raw.as_str()), ','));
            if idxs.len() > 0 {
                Some((b.clone(), idxs))
            } else {
                None
            }
        },
        _ => None,
    }
}

/// Split an indexed token (`A_i`, `A_{i,j}`, `A[i][j]`) into its base and
/// its indexes.
pub fn parse_indexed_token(token: &str) -> (r: Option<(String, Vec<String>)>)
    ensures
        match r {
            None => spec_parse_indexed_token(token@) is None,
            Some(p) => spec_parse_indexed_token(token@) == Some(token_view(p)),
        },
{
    let t = string_of(&trim(&chars_of(token)));
    match bracket_form_exec(&t) {
        Some(r) => r,
        None => underscore_form_exec(&t),
    }
}

// ─── one indexed line ───────────────────────────────────────────────────────

/// The tokens of a line that are not `\ldots` or `\vdots`.
pub open spec fn tokens_without_dots(ts: Seq<Seq<char>>) -> Seq<Seq<char>>
    decreases ts.len(),
{
    if ts.len() == 0 {
        seq![]
    } else {
        let prev = tokens_without_dots(ts.drop_last());
        if ts.last() == "\\ldots"@ || ts.last() == "\\vdots"@ {
            prev
        } else {
            prev.push(ts.last())
        }
    }
}

/// Every token parsed as an indexed token, or `None` if one is not.
pub open spec fn parse_all_tokens(ts: Seq<Seq<char>>) -> Option<Seq<(Seq<char>, Seq<Seq<char>>)>>
    decreases ts.len(),
{
    if ts.len() == 0 {
        Some(seq![])
    } else {
        match parse_all_tokens(ts.drop_last()) {
            None => None,
            Some(acc) => match spec_parse_indexed_token(ts.last()) {
                None => None,
                Some(p) => Some(acc.push(p)),
            },
        }
    }
}

/// A horizontal run of one array: its base, and the indexes of its first
/// and last element.
pub struct IndexedLineSpan {
    pub base: String,
    pub first: Vec<String>,
    pub last: Vec<String>,
}

pub open spec fn span_view(s: IndexedLineSpan) -> (Seq<char>, Seq<Seq<char>>, Seq<Seq<char>>) {
    (s.base@, sv(s.first@), sv(s.last@))
}

/// The tokens of a horizontal indexed line, as long as they share one base,
/// one number of indexes, and every index but the innermost, and the span
/// of the innermost index has a length.
pub open spec fn spec_parse_indexed_line_span(line: Seq<char>) -> Option<
    (Seq<char>, Seq<Seq<char>>, Seq<Seq<char>>),
> {
    let toks = tokens_without_dots(spec_split_ws(line));
    if toks.len() < 2 {
        None
    } else {
        match parse_all_tokens(toks) {
            None => None,
            Some(parsed) => span_from_tokens(parsed),
        }
    }
}

/// The span of tokens already split into base and indexes: all share the
/// base and the number of indexes (at least one), and every index but the
/// innermost; the innermost indexes of the first and last token give a
/// length.
pub open spec fn span_from_tokens(parsed: Seq<(Seq<char>, Seq<Seq<char>>)>) -> Option<
    (Seq<char>, Seq<Seq<char>>, Seq<Seq<char>>),
> {
    if parsed.len() == 0 {
        None
    } else {
        let base = parsed[0].0;
        let first = parsed[0].1;
        let last = parsed[parsed.len() - 1].1;
        if first.len() == 0 || exists|i: int|
            0 <= i < parsed.len() && (#[trigger] parsed[i].0 != base || parsed[i].1.len() != first.len())
        {
            None
        } else if exists|i: int|
            0 <= i < parsed.len() && #[trigger] parsed[i].1.take(parsed[i].1.len() - 1) != first.take(
                first.len() - 1,
            )
        {
            None
        } else if spec_len_expr(first.last(), last.last()) is None {
            None
        } else {
            Some((base, first, last))
        }
    }
}

fn tokens_without_dots_exec(ts: &Vec<Vec<char>>) -> (r: Vec<Vec<char>>)
    ensures
        vv(r@) == tokens_without_dots(vv(ts@)),
{
    let ghost tv = vv(ts@);
    let mut out: Vec<Vec<char>> = Vec::new();
    let mut i: usize = 0;
    assert(tv.take(0) =~= Seq::<Seq<char>>::empty());
    assert(vv(out@) =~= Seq::<Seq<char>>::empty());
    while i < ts.len()
        invariant
            tv == vv(ts@),
            i <= ts@.len(),
            vv(out@) == tokens_without_dots(tv.take(i as int)),
        decreases ts.len() - i,
    {
        assert(tv.take(i + 1).drop_last() =~= tv.take(i as int));
        assert(tv.take(i + 1).last() == ts@[i as int]@);
        let s = string_of(&ts[i]);
        if !crate::text::str_eq(s.as_str(), "\\ldots") && !crate::text::str_eq(s.as_str(), "\\vdots") {
            let c = copy_range(&ts[i], 0, ts[i].len());
            assert(c@ =~= ts@[i as int]@);
            proof {
                lemma_vv_push(out@, c);
            }
            out.push(c);
        }
        i += 1;
    }
    assert(tv.take(ts@.len() as int) =~= tv);
    out
}

pub open spec fn tokens_view(v: Seq<(String, Vec<String>)>) -> Seq<(Seq<char>, Seq<Seq<char>>)> {
    v.map_values(|p: (String, Vec<String>)| token_view(p))
}

fn parse_all_tokens_exec(ts: &Vec<Vec<char>>) -> (r: Option<Vec<(String, Vec<String>)>>)
    ensures
        match r {
            None => parse_all_tokens(vv(ts@)) is None,
            Some(v) => parse_all_tokens(vv(ts@)) == Some(tokens_view(v@)) && v@.len() == ts@.len(),
        },
{
    let ghost tv = vv(ts@);
    let mut out: Vec<(String, Vec<String>)> = Vec::new();
    let mut i: usize = 0;
    assert(tv.take(0) =~= Seq::<Seq<char>>::empty());
    assert(tokens_view(out@) =~= Seq::<(Seq<char>, Seq<Seq<char>>)>::empty());
    while i < ts.len()
        invariant
            tv == vv(ts@),
            i <= ts@.len(),
            out@.len() == i,
            parse_all_tokens(tv.take(i as int)) == Some(tokens_view(out@)),
        decreases ts.len() - i,
    {
        assert(tv.take(i + 1).drop_last() =~= tv.take(i as int));
        assert(tv.take(i + 1).last() == ts@[i as int]@);
        match parse_indexed_token(string_of(&ts[i]).as_str()) {
            Some(p) => {
                let ghost o = out@;
                out.push(p);
                assert(tokens_view(out@) =~= tokens_view(o).push(token_view(p)));
            },
            None => {
                proof {
                    lemma_parse_all_none(tv, i as int + 1, tv.len() as int);
                    assert(tv.take(tv.len() as int) =~= tv);
                }
                return None;
            },
        }
        i += 1;
    }
    assert(tv.take(ts@.len() as int) =~= tv);
    Some(out)
}

proof fn lemma_parse_all_none(ts: Seq<Seq<char>>, k: int, n: int)
    requires
        0 <= k <= n <= ts.len(),
        parse_all_tokens(ts.take(k)) is None,
    ensures
        parse_all_tokens(ts.take(n)) is None,
    decreases n - k,
{
    if k < n {
        assert(ts.take(k + 1).drop_last() =~= ts.take(k));
        lemma_parse_all_none(ts, k + 1, n);
    }
}

fn strings_eq(a: &Vec<String>, b: &Vec<String>, n: usize) -> (r: bool)
    requires
        n <= a@.len(),
        n <= b@.len(),
    ensures
        r == (sv(a@).take(n as int) == sv(b@).take(n as int)),
{
    let mut i: usize = 0;
    while i < n
        invariant
            i <= n <= a@.len(),
            n <= b@.len(),
            forall|j: int| 0 <= j < i ==> sv(a@)[j] == sv(b@)[j],
        decreases n - i,
    {
        if !crate::text::str_eq(a[i].as_str(), b[i].as_str()) {
            assert(sv(a@).take(n as int)[i as int] != sv(b@).take(n as int)[i as int]);
            return false;
        }
        i += 1;
    }
    assert(sv(a@).take(n as int) =~= sv(b@).take(n as int));
    true
}

/// One horizontal indexed line, see `spec_parse_indexed_line_span`.
#[verifier::loop_isolation(false)]
#[verifier::spinoff_prover]
pub fn parse_indexed_line_span(line: &str) -> (r: Option<IndexedLineSpan>)
    ensures
        match r {
            None => spec_parse_indexed_line_span(line@) is None,
            Some(s) => spec_parse_indexed_line_span(line@) == Some(span_view(s)),
        },
{
    let toks = tokens_without_dots_exec(&split_ws(&chars_of(line)));
    if toks.len() < 2 {
        return None;
    }
    let parsed = match parse_all_tokens_exec(&toks) {
        Some(p) => p,
        None => return None,
    };
    indexed_line_span_from_tokens(&parsed)
}

/// The span of a line's tokens, each already split into its base and
/// indexes; see `span_from_tokens`.
#[verifier::loop_isolation(false)]
#[verifier::spinoff_prover]
pub fn indexed_line_span_from_tokens(parsed: &Vec<(String, Vec<String>)>) -> (r: Option<IndexedLineSpan>)
    ensures
        match r {
            None => span_from_tokens(tokens_view(parsed@)) is None,
            Some(s) => span_from_tokens(tokens_view(parsed@)) == Some(span_view(s)),
        },
{
    let ghost pv = tokens_view(parsed@);
    if parsed.len() == 0 {
        return None;
    }
    let n = parsed.len();
    assert(pv[0] == token_view(parsed@[0]));
    assert(pv[n - 1] == token_view(parsed@[n - 1]));
    let base = &parsed[0].0;
    let first = &parsed[0].1;
    let last = &parsed[n - 1].1;
    let d = first.len();
    if d == 0 {
        return None;
    }
    let mut i: usize = 0;
    while i < n
        invariant
            n == parsed@.len(),
            pv == tokens_view(parsed@),
            d == first@.len(),
            *base == parsed@[0].0,
            *first == parsed@[0].1,
            i <= n,
            forall|j: int|
                0 <= j < i ==> (#[trigger] pv[j]).0 == pv[0].0 && pv[j].1.len() == pv[0].1.len(),
        decreases n - i,
    {
        assert(pv[i as int] == token_view(parsed@[i as int]));
        if !crate::text::str_eq(parsed[i].0.as_str(), base.as_str()) || parsed[i].1.len() != d {
            assert(pv[i as int].0 != pv[0].0 || pv[i as int].1.len() != pv[0].1.len());
            assert(pv.len() == n);
            assert(exists|j: int|
                0 <= j < pv.len() && (#[trigger] pv[j].0 != pv[0].0 || pv[j].1.len()
                    != pv[0].1.len()));
            return None;
        }
        assert(pv[i as int].0 == pv[0].0 && pv[i as int].1.len() == pv[0].1.len());
        i += 1;
    }
    let mut i: usize = 0;
    while i < n
        invariant
            n == parsed@.len(),
            pv == tokens_view(parsed@),
            d == first@.len(),
            d > 0,
            *first == parsed@[0].1,
            forall|j: int| 0 <= j < n ==> (#[trigger] pv[j]).1.len() == pv[0].1.len(),
            i <= n,
            forall|j: int|
                0 <= j < i ==> #[trigger] pv[j].1.take(pv[j].1.len() - 1) == pv[0].1.take(
                    pv[0].1.len() - 1,
                ),
        decreases n - i,
    {
        assert(pv[i as int] == token_view(parsed@[i as int]));
        assert(pv[i as int].1.len() == d);
        if !strings_eq(&parsed[i].1, first, d - 1) {
            assert(pv[i as int].1.take(pv[i as int].1.len() - 1) != pv[0].1.take(pv[0].1.len() - 1));
            return None;
        }
        i += 1;
    }
    assert(sv(first@).last() == first@[d - 1]@);
    assert(sv(last@).last() == last@[last@.len() - 1]@);
    if len_expr(first[d - 1].as_str(), last[last.len() - 1].as_str()).is_none() {
        return None;
    }
    Some(IndexedLineSpan {
        base: base.clone(),
        first: crate::text::clone_strings(first),
        last: crate::text::clone_strings(last),
    })
}

/// A horizontal one-dimensional array line: its base and length.
pub open spec fn spec_parse_1d_array_line(line: Seq<char>) -> Option<(Seq<char>, Seq<char>)> {
    match spec_parse_indexed_line_span(line) {
        None => None,
        Some(s) => array_line_from(s),
    }
}

/// A one-dimensional array from its span: one index, and the length from
/// the first index to the last.
pub open spec fn array_line_from(s: (Seq<char>, Seq<Seq<char>>, Seq<Seq<char>>)) -> Option<(Seq<char>, Seq<char>)> {
    if s.1.len() != 1 || s.2.len() == 0 {
        None
    } else {
        match spec_len_expr(s.1[0], s.2[0]) {
            None => None,
            Some(l) => Some((s.0, l)),
        }
    }
}

pub fn parse_1d_array_line(line: &str) -> (r: Option<(String, String)>)
    ensures
        match r {
            None => spec_parse_1d_array_line(line@) is None,
            Some(p) => spec_parse_1d_array_line(line@) == Some((p.0@, p.1@)),
        },
{
    match parse_indexed_line_span(line) {
        Some(s) => array_line_from_span(&s),
        None => None,
    }
}

/// A one-dimensional array line from its span; see `array_line_from`.
pub fn array_line_from_span(span: &IndexedLineSpan) -> (r: Option<(String, String)>)
    ensures
        match r {
            None => array_line_from(span_view(*span)) is None,
            Some(p) => array_line_from(span_view(*span)) == Some((p.0@, p.1@)),
        },
{
    if span.first.len() != 1 {
        return None;
    }
    if span.last.len() == 0 {
        return None;
    }
    assert(sv(span.first@)[0] == span.first@[0]@);
    assert(sv(span.last@)[0] == span.last@[0]@);
    match len_expr(span.first[0].as_str(), span.last[0].as_str()) {
        Some(l) => Some((span.base.clone(), l)),
        None => None,
    }
}

} // verus!

verus! {

// ─── rows of tuples: `x_1 y_1`, …, `x_M y_M` ─────────────────────────────────

pub open spec fn token_bases(p: Seq<(Seq<char>, Seq<Seq<char>>)>) -> Seq<Seq<char>> {
    p.map_values(|t: (Seq<char>, Seq<Seq<char>>)| t.0)
}

/// The first row of tuples: two or more singly-indexed tokens sharing one
/// index; their bases and that index.
pub open spec fn nrep_first(line: Seq<char>) -> Option<(Seq<Seq<char>>, Seq<char>)> {
    let toks = spec_split_ws(line);
    if toks.len() < 2 {
        None
    } else {
        match parse_all_tokens(toks) {
            None => None,
            Some(p) => if exists|i: int| 0 <= i < p.len() && (#[trigger] p[i]).1.len() != 1 {
                None
            } else if exists|i: int| 0 <= i < p.len() && (#[trigger] p[i]).1[0] != p[0].1[0] {
                None
            } else {
                Some((token_bases(p), p[0].1[0]))
            },
        }
    }
}

/// A later row of the same tuple: the same bases in order, one shared index.
pub open spec fn nrep_last(line: Seq<char>, bases: Seq<Seq<char>>) -> Option<Seq<char>> {
    let toks = spec_split_ws(line);
    if toks.len() != bases.len() || toks.len() == 0 {
        None
    } else {
        match parse_all_tokens(toks) {
            None => None,
            Some(p) => if exists|i: int|
                0 <= i < p.len() && ((#[trigger] p[i]).0 != bases[i] || p[i].1.len() != 1)
            {
                None
            } else if exists|i: int| 0 <= i < p.len() && (#[trigger] p[i]).1[0] != p[0].1[0] {
                None
            } else {
                Some(p[0].1[0])
            },
        }
    }
}

pub open spec fn has_any_dots(line: Seq<char>) -> bool {
    spec_contains(line, "\\vdots"@) || spec_contains(line, "\\ldots"@) || spec_contains(
        line,
        "\\cdots"@,
    ) || spec_contains(line, "\\dots"@)
}

/// The last matching row from `j` on (ellipsis lines skipped) and where it
/// stands.
pub open spec fn nrep_scan(
    lines: Seq<Seq<char>>,
    bases: Seq<Seq<char>>,
    j: int,
    last: Option<(Seq<char>, int)>,
) -> Option<(Seq<char>, int)>
    decreases lines.len() - j,
{
    if j < 0 || j >= lines.len() {
        last
    } else if has_any_dots(lines[j]) {
        nrep_scan(lines, bases, j + 1, last)
    } else {
        match nrep_last(lines[j], bases) {
            Some(e) => nrep_scan(lines, bases, j + 1, Some((e, j))),
            None => last,
        }
    }
}

/// Tuple rows from line `idx`: the bases, the row count, and how many lines
/// they take.
pub open spec fn spec_parse_n_repeat(lines: Seq<Seq<char>>, idx: int) -> Option<
    (Seq<Seq<char>>, Seq<char>, int),
> {
    if idx < 0 || idx >= lines.len() {
        None
    } else {
        match nrep_first(lines[idx]) {
            None => None,
            Some(f) => match nrep_scan(lines, f.0, idx + 1, None) {
                None => None,
                Some(l) => match spec_len_expr(f.1, l.0) {
                    None => None,
                    Some(c) => Some((f.0, c, l.1 + 1 - idx)),
                },
            },
        }
    }
}

fn first_indexes_equal(p: &Vec<(String, Vec<String>)>) -> (r: bool)
    requires
        forall|i: int| 0 <= i < p@.len() ==> (#[trigger] p@[i]).1@.len() == 1,
        p@.len() > 0,
    ensures
        r == !(exists|i: int|
            0 <= i < p@.len() && (#[trigger] tokens_view(p@)[i]).1[0] != tokens_view(p@)[0].1[0]),
{
    let ghost pv = tokens_view(p@);
    let mut i: usize = 0;
    while i < p.len()
        invariant
            pv == tokens_view(p@),
            forall|k: int| 0 <= k < p@.len() ==> (#[trigger] p@[k]).1@.len() == 1,
            p@.len() > 0,
            i <= p@.len(),
            forall|k: int| 0 <= k < i ==> (#[trigger] pv[k]).1[0] == pv[0].1[0],
        decreases p.len() - i,
    {
        assert(pv[i as int] == token_view(p@[i as int]));
        assert(pv[0] == token_view(p@[0]));
        assert(sv(p@[i as int].1@)[0] == p@[i as int].1@[0]@);
        assert(sv(p@[0].1@)[0] == p@[0].1@[0]@);
        if !crate::text::str_eq(p[i].1[0].as_str(), p[0].1[0].as_str()) {
            assert(pv[i as int].1[0] != pv[0].1[0]);
            return false;
        }
        i += 1;
    }
    true
}

#[verifier::loop_isolation(false)]
fn nrep_first_exec(line: &String) -> (r: Option<(Vec<String>, String)>)
    ensures
        match r {
            None => nrep_first(line@) is None,
            Some(x) => nrep_first(line@) == Some((sv(x.0@), x.1@)),
        },
{
    let toks = split_ws(&chars_of(line.as_str()));
    if toks.len() < 2 {
        return None;
    }
    let p = match parse_all_tokens_exec(&toks) {
        Some(p) => p,
        None => return None,
    };
    let ghost pv = tokens_view(p@);
    let mut i: usize = 0;
    while i < p.len()
        invariant
            pv == tokens_view(p@),
            i <= p@.len(),
            forall|k: int| 0 <= k < i ==> (#[trigger] p@[k]).1@.len() == 1,
        decreases p.len() - i,
    {
        assert(pv[i as int] == token_view(p@[i as int]));
        if p[i].1.len() != 1 {
            assert(pv[i as int].1.len() != 1);
            return None;
        }
        i += 1;
    }
    assert forall|k: int| 0 <= k < p@.len() implies (#[trigger] pv[k]).1.len() == 1 by {
        assert(pv[k] == token_view(p@[k]));
    }
    if !first_indexes_equal(&p) {
        return None;
    }
    let mut bases: Vec<String> = Vec::new();
    let mut k: usize = 0;
    assert(sv(bases@) =~= Seq::<Seq<char>>::empty());
    while k < p.len()
        invariant
            pv == tokens_view(p@),
            k <= p@.len(),
            sv(bases@) == token_bases(pv).take(k as int),
        decreases p.len() - k,
    {
        assert(pv[k as int] == token_view(p@[k as int]));
        let b = p[k].0.clone();
        proof {
            lemma_sv_push(bases@, b);
            assert(token_bases(pv).take(k + 1) =~= token_bases(pv).take(k as int).push(b@));
        }
        bases.push(b);
        k += 1;
    }
    assert(token_bases(pv).take(p@.len() as int) =~= token_bases(pv));
    assert(pv[0] == token_view(p@[0]));
    assert(sv(p@[0].1@)[0] == p@[0].1@[0]@);
    Some((bases, p[0].1[0].clone()))
}

#[verifier::loop_isolation(false)]
fn nrep_last_exec(line: &String, bases: &Vec<String>) -> (r: Option<String>)
    ensures
        match r {
            None => nrep_last(line@, sv(bases@)) is None,
            Some(x) => nrep_last(line@, sv(bases@)) == Some(x@),
        },
{
    let toks = split_ws(&chars_of(line.as_str()));
    if toks.len() != bases.len() || toks.len() == 0 {
        return None;
    }
    let p = match parse_all_tokens_exec(&toks) {
        Some(p) => p,
        None => return None,
    };
    let ghost pv = tokens_view(p@);
    let mut i: usize = 0;
    while i < p.len()
        invariant
            pv == tokens_view(p@),
            i <= p@.len(),
            forall|k: int|
                0 <= k < i ==> (#[trigger] pv[k]).0 == sv(bases@)[k] && pv[k].1.len() == 1,
        decreases p.len() - i,
    {
        assert(pv[i as int] == token_view(p@[i as int]));
        assert(sv(bases@)[i as int] == bases@[i as int]@);
        if !crate::text::str_eq(p[i].0.as_str(), bases[i].as_str()) || p[i].1.len() != 1 {
            assert(pv[i as int].0 != sv(bases@)[i as int] || pv[i as int].1.len() != 1);
            return None;
        }
        i += 1;
    }
    assert forall|k: int| 0 <= k < p@.len() implies (#[trigger] p@[k]).1@.len() == 1 by {
        assert(pv[k] == token_view(p@[k]));
    }
    if !first_indexes_equal(&p) {
        return None;
    }
    assert(pv[0] == token_view(p@[0]));
    assert(sv(p@[0].1@)[0] == p@[0].1@[0]@);
    Some(p[0].1[0].clone())
}

fn has_any_dots_exec(line: &String) -> (r: bool)
    ensures
        r == has_any_dots(line@),
{
    let c = chars_of(line.as_str());
    contains_str(&c, "\\vdots") || contains_str(&c, "\\ldots") || contains_str(&c, "\\cdots")
        || contains_str(&c, "\\dots")
}

/// Rows of tuples from line `idx`, see `spec_parse_n_repeat`.
pub open spec fn last_view(l: Option<(String, usize)>) -> Option<(Seq<char>, int)> {
    match l {
        Some(x) => Some((x.0@, x.1 as int)),
        None => None,
    }
}

pub fn parse_n_repeat(lines: &Vec<String>, idx: usize) -> (r: Option<(Vec<String>, String, usize)>)
    ensures
        match r {
            None => spec_parse_n_repeat(sv(lines@), idx as int) is None,
            Some(x) => spec_parse_n_repeat(sv(lines@), idx as int) == Some(
                (sv(x.0@), x.1@, x.2 as int),
            ) && x.2 >= 1,
        },
{
    if idx >= lines.len() {
        return None;
    }
    assert(sv(lines@)[idx as int] == lines@[idx as int]@);
    let (bases, first_idx) = match nrep_first_exec(&lines[idx]) {
        Some(f) => f,
        None => return None,
    };
    let ghost ls = sv(lines@);
    let mut last: Option<(String, usize)> = None;
    let mut j = idx + 1;
    while j < lines.len()
        invariant
            ls == sv(lines@),
            idx < j <= lines@.len(),
            nrep_scan(ls, sv(bases@), j as int, last_view(last)) == nrep_scan(
                ls,
                sv(bases@),
                idx + 1,
                None,
            ),
            last matches Some(l) ==> idx < l.1 < j,
        ensures
            nrep_scan(ls, sv(bases@), idx + 1, None) == last_view(last),
            last matches Some(l) ==> idx < l.1,
        decreases lines.len() - j,
    {
        assert(ls[j as int] == lines@[j as int]@);
        if has_any_dots_exec(&lines[j]) {
            j += 1;
            continue;
        }
        match nrep_last_exec(&lines[j], &bases) {
            Some(e) => {
                last = Some((e, j));
                j += 1;
            },
            None => break,
        }
    }
    let (li, found) = match last {
        Some(l) => l,
        None => return None,
    };
    match len_expr(first_idx.as_str(), li.as_str()) {
        Some(c) => Some((bases, c, found + 1 - idx)),
        None => None,
    }
}

// ─── vertical arrays ────────────────────────────────────────────────────────

pub open spec fn vert_scan(
    lines: Seq<Seq<char>>,
    base: Seq<char>,
    j: int,
    last: Option<(Seq<char>, int)>,
) -> Option<(Seq<char>, int)>
    decreases lines.len() - j,
{
    if j < 0 || j >= lines.len() {
        last
    } else if spec_contains(lines[j], "\\vdots"@) {
        vert_scan(lines, base, j + 1, last)
    } else {
        match spec_parse_indexed_token(spec_trim(lines[j])) {
            Some(t) => if t.0 == base && t.1.len() == 1 {
                vert_scan(lines, base, j + 1, Some((t.1[0], j)))
            } else {
                last
            },
            None => last,
        }
    }
}

/// A vertical one-dimensional array from line `idx`: its base, length, and
/// how many lines it takes.
pub open spec fn spec_parse_vertical_indexed_span(lines: Seq<Seq<char>>, idx: int) -> Option<
    (Seq<char>, Seq<char>, int),
> {
    if idx < 0 || idx >= lines.len() {
        None
    } else {
        match spec_parse_indexed_token(spec_trim(lines[idx])) {
            None => None,
            Some(f) => if f.1.len() != 1 {
                None
            } else {
                match vert_scan(lines, f.0, idx + 1, None) {
                    None => None,
                    Some(l) => match spec_len_expr(f.1[0], l.0) {
                        None => None,
                        Some(len) => Some((f.0, len, l.1 + 1 - idx)),
                    },
                }
            },
        }
    }
}

pub fn parse_vertical_indexed_span(lines: &Vec<String>, idx: usize) -> (r: Option<
    (String, String, usize),
>)
    ensures
        match r {
            None => spec_parse_vertical_indexed_span(sv(lines@), idx as int) is None,
            Some(x) => spec_parse_vertical_indexed_span(sv(lines@), idx as int) == Some(
                (x.0@, x.1@, x.2 as int),
            ) && x.2 >= 1,
        },
{
    if idx >= lines.len() {
        return None;
    }
    let ghost ls = sv(lines@);
    assert(ls[idx as int] == lines@[idx as int]@);
    let (base, first) = match parse_indexed_token(
        string_of(&trim(&chars_of(lines[idx].as_str()))).as_str(),
    ) {
        Some(t) => t,
        None => return None,
    };
    if first.len() != 1 {
        return None;
    }
    let mut last: Option<(String, usize)> = None;
    let mut j = idx + 1;
    while j < lines.len()
        invariant
            ls == sv(lines@),
            idx < j <= lines@.len(),
            vert_scan(ls, base@, j as int, last_view(last)) == vert_scan(ls, base@, idx + 1, None),
            last matches Some(l) ==> idx < l.1 < j,
        ensures
            vert_scan(ls, base@, idx + 1, None) == last_view(last),
            last matches Some(l) ==> idx < l.1,
        decreases lines.len() - j,
    {
        assert(ls[j as int] == lines@[j as int]@);
        if contains_str(&chars_of(lines[j].as_str()), "\\vdots") {
            j += 1;
            continue;
        }
        match parse_indexed_token(string_of(&trim(&chars_of(lines[j].as_str()))).as_str()) {
            Some((nb, ix)) => {
                if crate::text::str_eq(nb.as_str(), base.as_str()) && ix.len() == 1 {
                    assert(sv(ix@)[0] == ix@[0]@);
                    last = Some((ix[0].clone(), j));
                    j += 1;
                } else {
                    break;
                }
            },
            None => break,
        }
    }
    let (l, found) = match last {
        Some(x) => x,
        None => return None,
    };
    assert(sv(first@)[0] == first@[0]@);
    match len_expr(first[0].as_str(), l.as_str()) {
        Some(len) => Some((base, len, found + 1 - idx)),
        None => None,
    }
}

/// A vertical array of scalars from line `idx`.
pub fn parse_vertical_scalars(lines: &Vec<String>, idx: usize) -> (r: Option<(String, String, usize)>)
    ensures
        match r {
            None => spec_parse_vertical_indexed_span(sv(lines@), idx as int) is None,
            Some(x) => spec_parse_vertical_indexed_span(sv(lines@), idx as int) == Some(
                (x.0@, x.1@, x.2 as int),
            ) && x.2 >= 1,
        },
{
    parse_vertical_indexed_span(lines, idx)
}

} // verus!

verus! {

// ─── grids and stacks of grids ──────────────────────────────────────────────

/// The rows of a grid from `j` on (vertical ellipses skipped): the outer
/// indexes of the last row that matches and where it stands; `None` when a
/// candidate row's span has no length.
pub open spec fn rect_scan(
    lines: Seq<Seq<char>>,
    base: Seq<char>,
    dims: int,
    inner: Seq<char>,
    j: int,
    last: Option<(Seq<Seq<char>>, int)>,
) -> Option<Option<(Seq<Seq<char>>, int)>>
    decreases lines.len() - j,
{
    if j < 0 || j >= lines.len() {
        Some(last)
    } else if spec_contains(lines[j], "\\vdots"@) {
        rect_scan(lines, base, dims, inner, j + 1, last)
    } else {
        match spec_parse_indexed_line_span(lines[j]) {
            Some(row) => if row.0 == base && row.1.len() == dims {
                match spec_len_expr(row.1.last(), row.2.last()) {
                    None => None,
                    Some(l) => if l == inner {
                        rect_scan(lines, base, dims, inner, j + 1, Some((row.1.take(dims - 1), j)))
                    } else {
                        Some(last)
                    },
                }
            } else {
                Some(last)
            },
            None => Some(last),
        }
    }
}

/// The lengths of the spans `from[k]..to[k]` for `k < n`.
pub open spec fn span_lengths(from: Seq<Seq<char>>, to: Seq<Seq<char>>, n: int) -> Option<
    Seq<Seq<char>>,
>
    decreases n,
{
    if n <= 0 {
        Some(seq![])
    } else {
        match span_lengths(from, to, n - 1) {
            None => None,
            Some(acc) => match spec_len_expr(from[n - 1], to[n - 1]) {
                None => None,
                Some(l) => Some(acc.push(l)),
            },
        }
    }
}

/// A `dims`-dimensional array written row by row from line `idx`: its
/// base, its lengths outermost first, and how many lines it takes.
pub open spec fn spec_parse_rectangular_block(lines: Seq<Seq<char>>, idx: int, dims: int) -> Option<
    (Seq<char>, Seq<Seq<char>>, int),
> {
    if idx < 0 || idx >= lines.len() {
        None
    } else {
        match spec_parse_indexed_line_span(lines[idx]) {
            None => None,
            Some(first) => if first.1.len() != dims || dims < 2 {
                None
            } else {
                match spec_len_expr(first.1.last(), first.2.last()) {
                    None => None,
                    Some(inner) => match rect_scan(lines, first.0, dims, inner, idx + 1, None) {
                        None => None,
                        Some(None) => None,
                        Some(Some(l)) => match span_lengths(first.1.take(dims - 1), l.0, dims - 1) {
                            None => None,
                            Some(ls) => Some((first.0, ls.push(inner), l.1 + 1 - idx)),
                        },
                    },
                }
            },
        }
    }
}

pub open spec fn outer_view(l: Option<(Vec<String>, usize)>) -> Option<(Seq<Seq<char>>, int)> {
    match l {
        Some(x) => Some((sv(x.0@), x.1 as int)),
        None => None,
    }
}

fn take_strings(v: &Vec<String>, n: usize) -> (r: Vec<String>)
    requires
        n <= v@.len(),
    ensures
        sv(r@) == sv(v@).take(n as int),
        r@.len() == n,
{
    let mut out: Vec<String> = Vec::new();
    let mut i: usize = 0;
    assert(sv(out@) =~= sv(v@).take(0));
    while i < n
        invariant
            i <= n <= v@.len(),
            out@.len() == i,
            sv(out@) == sv(v@).take(i as int),
        decreases n - i,
    {
        let s = v[i].clone();
        proof {
            lemma_sv_push(out@, s);
            assert(sv(v@).take(i + 1) =~= sv(v@).take(i as int).push(v@[i as int]@));
        }
        out.push(s);
        i += 1;
    }
    out
}

proof fn lemma_span_lengths_len(from: Seq<Seq<char>>, to: Seq<Seq<char>>, n: int)
    requires
        n >= 0,
    ensures
        span_lengths(from, to, n) matches Some(v) ==> v.len() == n,
    decreases n,
{
    if n > 0 {
        lemma_span_lengths_len(from, to, n - 1);
    }
}

proof fn lemma_span_lengths_none(from: Seq<Seq<char>>, to: Seq<Seq<char>>, k: int, n: int)
    requires
        k <= n,
        span_lengths(from, to, k) is None,
    ensures
        span_lengths(from, to, n) is None,
    decreases n - k,
{
    if k < n {
        lemma_span_lengths_none(from, to, k + 1, n);
    }
}

fn rect_rows(lines: &Vec<String>, idx: usize, base: &String, dims: usize, inner: &String) -> (r:
    Option<Option<(Vec<String>, usize)>>)
    requires
        idx < lines@.len(),
        dims >= 2,
    ensures
        match r {
            None => rect_scan(sv(lines@), base@, dims as int, inner@, idx + 1, None) is None,
            Some(l) => rect_scan(sv(lines@), base@, dims as int, inner@, idx + 1, None) == Some(
                outer_view(l),
            ) && (l matches Some(x) ==> idx < x.1 < lines@.len() && x.0@.len() == dims - 1),
        },
{
    let ghost ls = sv(lines@);
    let n = lines.len();
    let mut last: Option<(Vec<String>, usize)> = None;
    let mut j = idx + 1;
    while j < lines.len()
        invariant
            ls == sv(lines@),
            dims >= 2,
            idx < j <= lines@.len(),
            rect_scan(ls, base@, dims as int, inner@, j as int, outer_view(last)) == rect_scan(
                ls,
                base@,
                dims as int,
                inner@,
                idx + 1,
                None,
            ),
            last matches Some(l) ==> idx < l.1 < j && l.0@.len() == dims - 1,
        ensures
            rect_scan(ls, base@, dims as int, inner@, idx + 1, None) == Some(outer_view(last)),
            last matches Some(l) ==> idx < l.1 < lines@.len() && l.0@.len() == dims - 1,
        decreases lines.len() - j,
    {
        assert(ls[j as int] == lines@[j as int]@);
        if contains_str(&chars_of(lines[j].as_str()), "\\vdots") {
            j += 1;
            continue;
        }
        match parse_indexed_line_span(lines[j].as_str()) {
            Some(row) => {
                if crate::text::str_eq(row.base.as_str(), base.as_str()) && row.first.len() == dims {
                    if row.last.len() == 0 {
                        break;
                    }
                    assert(sv(row.first@).last() == row.first@[dims - 1]@);
                    assert(sv(row.last@).last() == row.last@[row.last@.len() - 1]@);
                    let l = match len_expr(
                        row.first[dims - 1].as_str(),
                        row.last[row.last.len() - 1].as_str(),
                    ) {
                        Some(l) => l,
                        None => return None,
                    };
                    if crate::text::str_eq(l.as_str(), inner.as_str()) {
                        last = Some((take_strings(&row.first, dims - 1), j));
                        j += 1;
                    } else {
                        break;
                    }
                } else {
                    break;
                }
            },
            None => break,
        }
    }
    Some(last)
}

fn outer_lengths(from: &Vec<String>, to: &Vec<String>, n: usize) -> (r: Option<Vec<String>>)
    requires
        n <= from@.len(),
        n <= to@.len(),
    ensures
        match r {
            None => span_lengths(sv(from@), sv(to@), n as int) is None,
            Some(v) => span_lengths(sv(from@), sv(to@), n as int) == Some(sv(v@)),
        },
{
    let mut lengths: Vec<String> = Vec::new();
    let mut k: usize = 0;
    assert(sv(lengths@) =~= Seq::<Seq<char>>::empty());
    while k < n
        invariant
            k <= n <= from@.len(),
            n <= to@.len(),
            span_lengths(sv(from@), sv(to@), k as int) == Some(sv(lengths@)),
        decreases n - k,
    {
        assert(sv(from@)[k as int] == from@[k as int]@);
        assert(sv(to@)[k as int] == to@[k as int]@);
        match len_expr(from[k].as_str(), to[k].as_str()) {
            Some(l) => {
                proof {
                    lemma_sv_push(lengths@, l);
                }
                lengths.push(l);
            },
            None => {
                proof {
                    lemma_span_lengths_none(sv(from@), sv(to@), k as int + 1, n as int);
                }
                return None;
            },
        }
        k += 1;
    }
    Some(lengths)
}

pub fn parse_rectangular_block(lines: &Vec<String>, idx: usize, dims: usize) -> (r: Option<
    (String, Vec<String>, usize),
>)
    ensures
        match r {
            None => spec_parse_rectangular_block(sv(lines@), idx as int, dims as int) is None,
            Some(x) => spec_parse_rectangular_block(sv(lines@), idx as int, dims as int) == Some(
                (x.0@, sv(x.1@), x.2 as int),
            ) && x.2 >= 1 && x.1@.len() == dims,
        },
{
    if idx >= lines.len() {
        return None;
    }
    assert(sv(lines@)[idx as int] == lines@[idx as int]@);
    let first = match parse_indexed_line_span(lines[idx].as_str()) {
        Some(f) => f,
        None => return None,
    };
    if first.first.len() != dims || dims < 2 {
        return None;
    }
    if first.last.len() == 0 {
        return None;
    }
    assert(sv(first.first@).last() == first.first@[dims - 1]@);
    assert(sv(first.last@).last() == first.last@[first.last@.len() - 1]@);
    let inner = match len_expr(
        first.first[dims - 1].as_str(),
        first.last[first.last.len() - 1].as_str(),
    ) {
        Some(l) => l,
        None => return None,
    };
    let (last_outer, found) = match rect_rows(lines, idx, &first.base, dims, &inner) {
        Some(Some(x)) => x,
        _ => return None,
    };
    let fo = take_strings(&first.first, dims - 1);
    let mut lengths = match outer_lengths(&fo, &last_outer, dims - 1) {
        Some(v) => v,
        None => return None,
    };
    proof {
        lemma_span_lengths_len(sv(fo@), sv(last_outer@), dims - 1);
    }
    let ghost pre = lengths@;
    let ghost inner_s = inner;
    lengths.push(inner);
    proof {
        lemma_sv_push(pre, inner_s);
    }
    Some((first.base, lengths, found + 1 - idx))
}

/// A grid from line `idx`: its base, width, height, and line count.
pub fn parse_matrix_block(lines: &Vec<String>, idx: usize) -> (r: Option<
    (String, String, String, usize),
>)
    ensures
        match r {
            None => spec_parse_rectangular_block(sv(lines@), idx as int, 2) is None,
            Some(x) => spec_parse_rectangular_block(sv(lines@), idx as int, 2) matches Some(b) && b.0
                == x.0@ && b.1.len() == 2 && b.1[1] == x.1@ && b.1[0] == x.2@ && b.2 == x.3 as int
                && x.3 >= 1,
        },
{
    let (base, lengths, consumed) = match parse_rectangular_block(lines, idx, 2) {
        Some(x) => x,
        None => return None,
    };
    if lengths.len() != 2 {
        return None;
    }
    assert(sv(lengths@)[1] == lengths@[1]@);
    assert(sv(lengths@)[0] == lengths@[0]@);
    Some((base, lengths[1].clone(), lengths[0].clone(), consumed))
}

/// A stack of grids from line `idx`: its base, width, height, count, and
/// line count.
pub fn parse_3d_array_block(lines: &Vec<String>, idx: usize) -> (r: Option<
    (String, String, String, String, usize),
>)
    ensures
        match r {
            None => spec_parse_rectangular_block(sv(lines@), idx as int, 3) is None,
            Some(x) => spec_parse_rectangular_block(sv(lines@), idx as int, 3) matches Some(b) && b.0
                == x.0@ && b.1.len() == 3 && b.1[2] == x.1@ && b.1[1] == x.2@ && b.1[0] == x.3@ && b.2
                == x.4 as int && x.4 >= 1,
        },
{
    let (base, lengths, consumed) = match parse_rectangular_block(lines, idx, 3) {
        Some(x) => x,
        None => return None,
    };
    if lengths.len() != 3 {
        return None;
    }
    assert(sv(lengths@)[2] == lengths@[2]@);
    assert(sv(lengths@)[1] == lengths@[1]@);
    assert(sv(lengths@)[0] == lengths@[0]@);
    Some((base, lengths[2].clone(), lengths[1].clone(), lengths[0].clone(), consumed))
}

} // verus!

verus! {

// ─── rows of varying length: `L_i A_{i,1} … A_{i,L_i}` ──────────────────────

/// The tokens other than `\ldots`.
pub open spec fn tokens_without_ldots(ts: Seq<Seq<char>>) -> Seq<Seq<char>>
    decreases ts.len(),
{
    if ts.len() == 0 {
        seq![]
    } else {
        let prev = tokens_without_ldots(ts.drop_last());
        if ts.last() == "\\ldots"@ {
            prev
        } else {
            prev.push(ts.last())
        }
    }
}

/// The first token from `i` on with two indexes.
pub open spec fn first_two_from(p: Seq<(Seq<char>, Seq<Seq<char>>)>, i: int) -> Option<int>
    decreases p.len() - i,
{
    if i < 0 || i >= p.len() {
        None
    } else if p[i].1.len() == 2 {
        Some(i)
    } else {
        first_two_from(p, i + 1)
    }
}

/// One row of varying length: the bases before the elements (all indexed
/// by the row), the row index, the base of the length, and the element base.
pub open spec fn varlen_row(line: Seq<char>) -> Option<
    (Seq<Seq<char>>, Seq<char>, Seq<char>, Seq<char>),
> {
    if !spec_contains(line, "\\ldots"@) {
        None
    } else {
        let toks = tokens_without_ldots(spec_split_ws(line));
        if toks.len() < 3 {
            None
        } else {
            match parse_all_tokens(toks) {
                None => None,
                Some(p) => match first_two_from(p, 0) {
                    None => None,
                    Some(pos) => if pos == 0 {
                        None
                    } else {
                        let eb = p[pos].0;
                        let ei = p[pos].1;
                        if ei.len() != 2 || !crate::text::all_digits(ei[1]) {
                            None
                        } else {
                            let row = ei[0];
                            if exists|k: int|
                                0 <= k < pos && ((#[trigger] p[k]).1.len() != 1 || p[k].1[0] != row)
                            {
                                None
                            } else {
                                let prefix = token_bases(p.take(pos));
                                let lb = p[p.len() - 1].0;
                                let li = p[p.len() - 1].1;
                                if lb != eb || li.len() != 2 || li[0] != row {
                                    None
                                } else {
                                    match crate::parse::normalize::spec_base_var(li[1]) {
                                        None => None,
                                        Some(len_base) => if !(exists|k: int|
                                            0 <= k < prefix.len()
                                                && crate::parse::normalize::spec_base_var(
                                                #[trigger] prefix[k],
                                            ) == Some(len_base)) {
                                            None
                                        } else {
                                            Some((prefix, row, len_base, eb))
                                        },
                                    }
                                }
                            }
                        }
                    },
                },
            }
        }
    }
}

pub open spec fn varlen_scan(
    lines: Seq<Seq<char>>,
    key: (Seq<Seq<char>>, Seq<char>, Seq<char>),
    j: int,
    last: Option<(Seq<char>, int)>,
) -> Option<(Seq<char>, int)>
    decreases lines.len() - j,
{
    if j < 0 || j >= lines.len() {
        last
    } else if spec_contains(lines[j], "\\vdots"@) {
        varlen_scan(lines, key, j + 1, last)
    } else {
        match varlen_row(lines[j]) {
            Some(r) => if r.0 == key.0 && r.2 == key.1 && r.3 == key.2 {
                varlen_scan(lines, key, j + 1, Some((r.1, j)))
            } else {
                last
            },
            None => last,
        }
    }
}

/// Rows of varying length from line `idx`: the prefix bases, the length
/// base, the element base, the row count, and the line count.
pub open spec fn spec_parse_varlen_rows(lines: Seq<Seq<char>>, idx: int) -> Option<
    (Seq<Seq<char>>, Seq<char>, Seq<char>, Seq<char>, int),
> {
    if idx < 0 || idx >= lines.len() {
        None
    } else {
        match varlen_row(lines[idx]) {
            None => None,
            Some(f) => match varlen_scan(lines, (f.0, f.2, f.3), idx + 1, None) {
                None => None,
                Some(l) => match spec_len_expr(f.1, l.0) {
                    None => None,
                    Some(c) => Some((f.0, f.2, f.3, c, l.1 + 1 - idx)),
                },
            },
        }
    }
}

pub struct VarlenRow {
    pub prefix_bases: Vec<String>,
    pub row_idx: String,
    pub len_base: String,
    pub elem_base: String,
}

pub open spec fn varlen_view(r: VarlenRow) -> (Seq<Seq<char>>, Seq<char>, Seq<char>, Seq<char>) {
    (sv(r.prefix_bases@), r.row_idx@, r.len_base@, r.elem_base@)
}

fn tokens_without_ldots_exec(ts: &Vec<Vec<char>>) -> (r: Vec<Vec<char>>)
    ensures
        vv(r@) == tokens_without_ldots(vv(ts@)),
{
    let ghost tv = vv(ts@);
    let mut out: Vec<Vec<char>> = Vec::new();
    let mut i: usize = 0;
    assert(tv.take(0) =~= Seq::<Seq<char>>::empty());
    assert(vv(out@) =~= Seq::<Seq<char>>::empty());
    while i < ts.len()
        invariant
            tv == vv(ts@),
            i <= ts@.len(),
            vv(out@) == tokens_without_ldots(tv.take(i as int)),
        decreases ts.len() - i,
    {
        assert(tv.take(i + 1).drop_last() =~= tv.take(i as int));
        assert(tv.take(i + 1).last() == ts@[i as int]@);
        if !crate::text::str_eq(string_of(&ts[i]).as_str(), "\\ldots") {
            let c = copy_range(&ts[i], 0, ts[i].len());
            assert(c@ =~= ts@[i as int]@);
            proof {
                lemma_vv_push(out@, c);
            }
            out.push(c);
        }
        i += 1;
    }
    assert(tv.take(ts@.len() as int) =~= tv);
    out
}

fn first_two(p: &Vec<(String, Vec<String>)>) -> (r: Option<usize>)
    ensures
        match r {
            None => first_two_from(tokens_view(p@), 0) is None,
            Some(i) => first_two_from(tokens_view(p@), 0) == Some(i as int),
        },
{
    let ghost pv = tokens_view(p@);
    let mut i: usize = 0;
    while i < p.len()
        invariant
            pv == tokens_view(p@),
            i <= p@.len(),
            first_two_from(pv, i as int) == first_two_from(pv, 0),
        decreases p.len() - i,
    {
        assert(pv[i as int] == token_view(p@[i as int]));
        if p[i].1.len() == 2 {
            return Some(i);
        }
        i += 1;
    }
    None
}

fn all_digit_string(s: &String) -> (r: bool)
    ensures
        r == crate::text::all_digits(s@),
{
    let c = chars_of(s.as_str());
    let mut i: usize = 0;
    while i < c.len()
        invariant
            c@ == s@,
            i <= c@.len(),
            forall|j: int| 0 <= j < i ==> crate::text::spec_is_ascii_digit(#[trigger] c@[j]),
        decreases c.len() - i,
    {
        if !crate::text::is_ascii_digit(c[i]) {
            return false;
        }
        i += 1;
    }
    true
}

#[verifier::loop_isolation(false)]
#[verifier::rlimit(30)]
fn varlen_row_exec(line: &String) -> (r: Option<VarlenRow>)
    ensures
        match r {
            None => varlen_row(line@) is None,
            Some(x) => varlen_row(line@) == Some(varlen_view(x)),
        },
{
    let c = chars_of(line.as_str());
    if !contains_str(&c, "\\ldots") {
        return None;
    }
    let toks = tokens_without_ldots_exec(&split_ws(&c));
    if toks.len() < 3 {
        return None;
    }
    let p = match parse_all_tokens_exec(&toks) {
        Some(p) => p,
        None => return None,
    };
    let ghost pv = tokens_view(p@);
    let pos = match first_two(&p) {
        Some(i) => i,
        None => return None,
    };
    proof {
        lemma_first_two_from(pv, 0);
    }
    if pos == 0 {
        return None;
    }
    assert(pv[pos as int] == token_view(p@[pos as int]));
    let eb = &p[pos].0;
    let ei = &p[pos].1;
    if ei.len() != 2 {
        return None;
    }
    assert(sv(ei@)[1] == ei@[1]@);
    assert(sv(ei@)[0] == ei@[0]@);
    if !all_digit_string(&ei[1]) {
        return None;
    }
    let row = &ei[0];
    let mut prefix: Vec<String> = Vec::new();
    let mut k: usize = 0;
    assert(sv(prefix@) =~= Seq::<Seq<char>>::empty());
    while k < pos
        invariant
            pv == tokens_view(p@),
            pos < p@.len(),
            k <= pos,
            sv(prefix@) == token_bases(pv.take(k as int)),
            forall|m: int| 0 <= m < k ==> !((#[trigger] pv[m]).1.len() != 1 || pv[m].1[0] != row@),
        decreases pos - k,
    {
        assert(pv[k as int] == token_view(p@[k as int]));
        if p[k].1.len() != 1 {
            return None;
        }
        assert(sv(p@[k as int].1@)[0] == p@[k as int].1@[0]@);
        if !crate::text::str_eq(p[k].1[0].as_str(), row.as_str()) {
            return None;
        }
        let b = p[k].0.clone();
        proof {
            lemma_sv_push(prefix@, b);
            assert(token_bases(pv.take(k + 1)) =~= token_bases(pv.take(k as int)).push(b@));
        }
        prefix.push(b);
        k += 1;
    }
    let n = p.len();
    assert(pv[n - 1] == token_view(p@[n - 1]));
    let lb = &p[n - 1].0;
    let li = &p[n - 1].1;
    if !crate::text::str_eq(lb.as_str(), eb.as_str()) || li.len() != 2 {
        return None;
    }
    assert(sv(li@)[0] == li@[0]@);
    assert(sv(li@)[1] == li@[1]@);
    if !crate::text::str_eq(li[0].as_str(), row.as_str()) {
        return None;
    }
    let len_base = match crate::parse::normalize::base_var(li[1].as_str()) {
        Some(b) => b,
        None => return None,
    };
    let mut found = false;
    let mut m: usize = 0;
    while m < prefix.len()
        invariant
            m <= prefix@.len(),
            !found ==> forall|q: int|
                0 <= q < m ==> crate::parse::normalize::spec_base_var(#[trigger] sv(prefix@)[q])
                    != Some(len_base@),
            found ==> exists|q: int|
                0 <= q < prefix@.len() && crate::parse::normalize::spec_base_var(
                    #[trigger] sv(prefix@)[q],
                ) == Some(len_base@),
        decreases prefix.len() - m,
    {
        assert(sv(prefix@)[m as int] == prefix@[m as int]@);
        match crate::parse::normalize::base_var(prefix[m].as_str()) {
            Some(b) => {
                if crate::text::str_eq(b.as_str(), len_base.as_str()) {
                    found = true;
                }
            },
            None => {},
        }
        m += 1;
    }
    if !found {
        return None;
    }
    Some(VarlenRow { prefix_bases: prefix, row_idx: row.clone(), len_base, elem_base: eb.clone() })
}

proof fn lemma_first_two_from(p: Seq<(Seq<char>, Seq<Seq<char>>)>, i: int)
    ensures
        first_two_from(p, i) matches Some(j) ==> i <= j < p.len() && p[j].1.len() == 2,
    decreases p.len() - i,
{
    if 0 <= i < p.len() && p[i].1.len() != 2 {
        lemma_first_two_from(p, i + 1);
    }
}

fn string_lists_eq(a: &Vec<String>, b: &Vec<String>) -> (r: bool)
    ensures
        r == (sv(a@) == sv(b@)),
{
    if a.len() != b.len() {
        return false;
    }
    let r = strings_eq(a, b, a.len());
    proof {
        assert(sv(a@).take(a@.len() as int) =~= sv(a@));
        assert(sv(b@).take(b@.len() as int) =~= sv(b@));
    }
    r
}

/// Rows of varying length from line `idx`, see `spec_parse_varlen_rows`.
pub fn parse_varlen_rows(lines: &Vec<String>, idx: usize) -> (r: Option<
    (Vec<String>, String, String, String, usize),
>)
    ensures
        match r {
            None => spec_parse_varlen_rows(sv(lines@), idx as int) is None,
            Some(x) => spec_parse_varlen_rows(sv(lines@), idx as int) == Some(
                (sv(x.0@), x.1@, x.2@, x.3@, x.4 as int),
            ) && x.4 >= 1,
        },
{
    if idx >= lines.len() {
        return None;
    }
    let ghost ls = sv(lines@);
    assert(ls[idx as int] == lines@[idx as int]@);
    let first = match varlen_row_exec(&lines[idx]) {
        Some(f) => f,
        None => return None,
    };
    let ghost key = (sv(first.prefix_bases@), first.len_base@, first.elem_base@);
    let mut last: Option<(String, usize)> = None;
    let mut j = idx + 1;
    while j < lines.len()
        invariant
            ls == sv(lines@),
            key == (sv(first.prefix_bases@), first.len_base@, first.elem_base@),
            idx < j <= lines@.len(),
            varlen_scan(ls, key, j as int, last_view(last)) == varlen_scan(ls, key, idx + 1, None),
            last matches Some(l) ==> idx < l.1 < j,
        ensures
            varlen_scan(ls, key, idx + 1, None) == last_view(last),
            last matches Some(l) ==> idx < l.1 < lines@.len(),
        decreases lines.len() - j,
    {
        assert(ls[j as int] == lines@[j as int]@);
        if contains_str(&chars_of(lines[j].as_str()), "\\vdots") {
            j += 1;
            continue;
        }
        match varlen_row_exec(&lines[j]) {
            Some(row) => {
                if string_lists_eq(&row.prefix_bases, &first.prefix_bases) && crate::text::str_eq(
                    row.len_base.as_str(),
                    first.len_base.as_str(),
                ) && crate::text::str_eq(row.elem_base.as_str(), first.elem_base.as_str()) {
                    last = Some((row.row_idx, j));
                    j += 1;
                } else {
                    break;
                }
            },
            None => break,
        }
    }
    let (l, found) = match last {
        Some(x) => x,
        None => return None,
    };
    match len_expr(first.row_idx.as_str(), l.as_str()) {
        Some(c) => Some((first.prefix_bases, first.len_base, first.elem_base, c, found + 1 - idx)),
        None => None,
    }
}

} // verus!

verus! {

// ─── separate-line row lengths ──────────────────────────────────────────────

/// A line holding one singly-indexed token (`L_1`).
pub open spec fn single_indexed(cur: Seq<char>) -> bool {
    let toks = spec_split_ws(cur);
    toks.len() == 1 && match spec_parse_indexed_token(toks[0]) {
        Some(t) => t.1.len() == 1,
        None => false,
    }
}

pub open spec fn is_elem_row(nxt: Seq<char>) -> bool {
    spec_contains(nxt, "\\ldots"@) || spec_contains(nxt, "\\cdots"@) || spec_contains(nxt, "\\dots"@)
}

pub open spec fn cur_base(cur: Seq<char>) -> Option<Seq<char>> {
    let toks = spec_split_ws(cur);
    let first = if toks.len() > 0 {
        toks[0]
    } else {
        seq![]
    };
    match spec_parse_indexed_token(first) {
        Some(t) => Some(crate::text::spec_lower(t.0)),
        None => None,
    }
}

/// The tokens that do not start with a backslash.
pub open spec fn tokens_without_commands(ts: Seq<Seq<char>>) -> Seq<Seq<char>>
    decreases ts.len(),
{
    if ts.len() == 0 {
        seq![]
    } else {
        let prev = tokens_without_commands(ts.drop_last());
        if ts.last().len() > 0 && ts.last()[0] == '\\' {
            prev
        } else {
            prev.push(ts.last())
        }
    }
}

/// The base of the length that ends an element row (`X_{1,L_1}` gives `l`).
pub open spec fn last_len_base(nxt: Seq<char>) -> Option<Seq<char>> {
    let ts = tokens_without_commands(spec_split_ws(nxt));
    if ts.len() == 0 {
        None
    } else {
        match spec_parse_indexed_token(ts.last()) {
            Some(t) => if t.1.len() == 2 {
                match crate::parse::normalize::spec_base_var(t.1[1]) {
                    Some(b) => Some(crate::text::spec_lower(b)),
                    None => None,
                }
            } else {
                None
            },
            None => None,
        }
    }
}

/// Line `i` is a row length on its own, and line `i + 1` the row it counts.
pub open spec fn merge_at(norm: Seq<Seq<char>>, i: int) -> bool {
    0 <= i && i + 1 < norm.len() && single_indexed(spec_trim(norm[i])) && is_elem_row(
        spec_trim(norm[i + 1]),
    ) && match (cur_base(spec_trim(norm[i])), last_len_base(spec_trim(norm[i + 1]))) {
        (Some(a), Some(b)) => a == b,
        _ => false,
    }
}

pub open spec fn joined(a: Seq<char>, b: Seq<char>) -> Seq<char> {
    spec_trim(a) + seq![' '] + spec_trim(b)
}

/// The lines from `i` on with each separate row length joined to its row,
/// in the normalized and the original lines alike.
pub open spec fn fold_from(norm: Seq<Seq<char>>, orig: Seq<Seq<char>>, i: int) -> (
    Seq<Seq<char>>,
    Seq<Seq<char>>,
)
    decreases norm.len() - i,
{
    if i < 0 || i >= norm.len() {
        (seq![], seq![])
    } else if merge_at(norm, i) {
        let r = fold_from(norm, orig, i + 2);
        (
            seq![joined(norm[i], norm[i + 1])] + r.0,
            seq![joined(orig[i], orig[i + 1])] + r.1,
        )
    } else {
        let r = fold_from(norm, orig, i + 1);
        (seq![norm[i]] + r.0, seq![orig[i]] + r.1)
    }
}

fn single_indexed_exec(cur: &Vec<char>) -> (r: bool)
    ensures
        r == single_indexed(cur@),
{
    let toks = split_ws(cur);
    if toks.len() != 1 {
        return false;
    }
    assert(vv(toks@)[0] == toks@[0]@);
    match parse_indexed_token(string_of(&toks[0]).as_str()) {
        Some(t) => t.1.len() == 1,
        None => false,
    }
}

fn is_elem_row_exec(nxt: &Vec<char>) -> (r: bool)
    ensures
        r == is_elem_row(nxt@),
{
    contains_str(nxt, "\\ldots") || contains_str(nxt, "\\cdots") || contains_str(nxt, "\\dots")
}

fn cur_base_exec(cur: &Vec<char>) -> (r: Option<Vec<char>>)
    ensures
        match r {
            None => cur_base(cur@) is None,
            Some(b) => cur_base(cur@) == Some(b@),
        },
{
    let toks = split_ws(cur);
    let first = if toks.len() > 0 {
        assert(vv(toks@)[0] == toks@[0]@);
        string_of(&toks[0])
    } else {
        String::new()
    };
    match parse_indexed_token(first.as_str()) {
        Some(t) => Some(crate::text::lower(&chars_of(t.0.as_str()))),
        None => None,
    }
}

fn last_len_base_exec(nxt: &Vec<char>) -> (r: Option<Vec<char>>)
    ensures
        match r {
            None => last_len_base(nxt@) is None,
            Some(b) => last_len_base(nxt@) == Some(b@),
        },
{
    let all = split_ws(nxt);
    let ghost av = vv(all@);
    let mut ts: Vec<Vec<char>> = Vec::new();
    let mut i: usize = 0;
    assert(av.take(0) =~= Seq::<Seq<char>>::empty());
    assert(vv(ts@) =~= Seq::<Seq<char>>::empty());
    while i < all.len()
        invariant
            av == vv(all@),
            i <= all@.len(),
            vv(ts@) == tokens_without_commands(av.take(i as int)),
        decreases all.len() - i,
    {
        assert(av.take(i + 1).drop_last() =~= av.take(i as int));
        assert(av.take(i + 1).last() == all@[i as int]@);
        if !(all[i].len() > 0 && all[i][0] == '\\') {
            let c = copy_range(&all[i], 0, all[i].len());
            assert(c@ =~= all@[i as int]@);
            proof {
                lemma_vv_push(ts@, c);
            }
            ts.push(c);
        }
        i += 1;
    }
    assert(av.take(all@.len() as int) =~= av);
    if ts.len() == 0 {
        return None;
    }
    let n = ts.len();
    assert(vv(ts@).last() == ts@[n - 1]@);
    match parse_indexed_token(string_of(&ts[n - 1]).as_str()) {
        Some(t) => {
            if t.1.len() == 2 {
                assert(sv(t.1@)[1] == t.1@[1]@);
                match crate::parse::normalize::base_var(t.1[1].as_str()) {
                    Some(b) => Some(crate::text::lower(&chars_of(b.as_str()))),
                    None => None,
                }
            } else {
                None
            }
        },
        None => None,
    }
}

fn merge_at_exec(norm: &Vec<String>, i: usize) -> (r: bool)
    requires
        i < norm@.len(),
    ensures
        r == merge_at(sv(norm@), i as int),
{
    if i >= norm.len() - 1 {
        return false;
    }
    assert(sv(norm@)[i as int] == norm@[i as int]@);
    assert(sv(norm@)[i + 1] == norm@[i + 1]@);
    let cur = trim(&chars_of(norm[i].as_str()));
    let nxt = trim(&chars_of(norm[i + 1].as_str()));
    if !single_indexed_exec(&cur) || !is_elem_row_exec(&nxt) {
        return false;
    }
    match (cur_base_exec(&cur), last_len_base_exec(&nxt)) {
        (Some(a), Some(b)) => chars_eq(&a, &b),
        _ => false,
    }
}

fn joined_exec(a: &String, b: &String) -> (r: String)
    ensures
        r@ == joined(a@, b@),
{
    let mut out = trim(&chars_of(a.as_str()));
    out.push(' ');
    crate::text::append_chars(&mut out, &trim(&chars_of(b.as_str())));
    string_of(&out)
}

/// Join each row length written on its own line to the row it counts, in
/// the normalized lines and, at the same positions, the original ones.
pub fn fold_separate_len_rows(norm: &Vec<String>, orig: &Vec<String>) -> (r: (Vec<String>, Vec<String>))
    requires
        norm@.len() <= orig@.len(),
    ensures
        (sv(r.0@), sv(r.1@)) == fold_from(sv(norm@), sv(orig@), 0),
        r.0@.len() == r.1@.len(),
{
    let ghost nv = sv(norm@);
    let ghost ov = sv(orig@);
    let mut out_norm: Vec<String> = Vec::new();
    let mut out_orig: Vec<String> = Vec::new();
    let mut i: usize = 0;
    assert(sv(out_norm@) =~= Seq::<Seq<char>>::empty());
    assert(sv(out_orig@) =~= Seq::<Seq<char>>::empty());
    assert(Seq::<Seq<char>>::empty() + fold_from(nv, ov, 0).0 =~= fold_from(nv, ov, 0).0);
    assert(Seq::<Seq<char>>::empty() + fold_from(nv, ov, 0).1 =~= fold_from(nv, ov, 0).1);
    while i < norm.len()
        invariant
            nv == sv(norm@),
            ov == sv(orig@),
            norm@.len() <= orig@.len(),
            i <= norm@.len() + 1,
            out_norm@.len() == out_orig@.len(),
            sv(out_norm@) + fold_from(nv, ov, i as int).0 == fold_from(nv, ov, 0).0,
            sv(out_orig@) + fold_from(nv, ov, i as int).1 == fold_from(nv, ov, 0).1,
        decreases norm.len() - i,
    {
        let ghost o1 = sv(out_norm@);
        let ghost o2 = sv(out_orig@);
        if merge_at_exec(norm, i) {
            let a = joined_exec(&norm[i], &norm[i + 1]);
            let b = joined_exec(&orig[i], &orig[i + 1]);
            assert(nv[i as int] == norm@[i as int]@ && nv[i + 1] == norm@[i + 1]@);
            assert(ov[i as int] == orig@[i as int]@ && ov[i + 1] == orig@[i + 1]@);
            proof {
                lemma_sv_push(out_norm@, a);
                lemma_sv_push(out_orig@, b);
                let r = fold_from(nv, ov, i + 2);
                assert(o1.push(a@) + r.0 =~= o1 + (seq![a@] + r.0));
                assert(o2.push(b@) + r.1 =~= o2 + (seq![b@] + r.1));
            }
            out_norm.push(a);
            out_orig.push(b);
            i += 2;
        } else {
            let a = norm[i].clone();
            let b = orig[i].clone();
            assert(nv[i as int] == norm@[i as int]@);
            assert(ov[i as int] == orig@[i as int]@);
            proof {
                lemma_sv_push(out_norm@, a);
                lemma_sv_push(out_orig@, b);
                let r = fold_from(nv, ov, i + 1);
                assert(o1.push(a@) + r.0 =~= o1 + (seq![a@] + r.0));
                assert(o2.push(b@) + r.1 =~= o2 + (seq![b@] + r.1));
            }
            out_norm.push(a);
            out_orig.push(b);
            i += 1;
        }
    }
    assert(sv(out_norm@) + Seq::<Seq<char>>::empty() =~= sv(out_norm@));
    assert(sv(out_orig@) + Seq::<Seq<char>>::empty() =~= sv(out_orig@));
    (out_norm, out_orig)
}

} // verus!

verus! {

// ─── the format block ───────────────────────────────────────────────────────

pub open spec fn snake_all(v: Seq<Seq<char>>) -> Seq<Seq<char>> {
    v.map_values(|x: Seq<char>| crate::parse::normalize::spec_snake(x))
}

/// The scalar names of a line of subscripted and plain names (`S_x S_y`),
/// or `None` when a token is neither.
pub open spec fn sub_vars(toks: Seq<Seq<char>>) -> Option<Seq<Seq<char>>>
    decreases toks.len(),
{
    if toks.len() == 0 {
        Some(seq![])
    } else {
        match sub_vars(toks.drop_last()) {
            None => None,
            Some(acc) => match spec_parse_indexed_token(toks.last()) {
                Some(t) => if t.1.len() != 1 {
                    None
                } else {
                    Some(acc.push(crate::parse::normalize::spec_snake(t.0 + seq!['_'] + t.1[0])))
                },
                None => if forall|k: int|
                    0 <= k < toks.last().len() ==> crate::text::spec_is_ascii_alnum(
                        #[trigger] toks.last()[k],
                    ) {
                    Some(acc.push(crate::parse::normalize::spec_snake(toks.last())))
                } else {
                    None
                },
            },
        }
    }
}

pub open spec fn plain_scalar_line(ln: Seq<char>) -> bool {
    ln.contains(' ') && !spec_contains(ln, "\\ldots"@) && !spec_contains(ln, "\\cdots"@)
        && !spec_contains(ln, "\\dots"@) && !ln.contains('_') && !ln.contains('{') && !ln.contains(
        '}',
    )
}

pub open spec fn single_symbol_line(ln: Seq<char>) -> bool {
    !ln.contains(' ') && !spec_contains(ln, "\\ldots"@) && !spec_contains(ln, "\\cdots"@)
        && !spec_contains(ln, "\\dots"@)
}

pub open spec fn array_m(base: Seq<char>, len: Option<Seq<char>>, height: Option<Seq<char>>, count: Option<Seq<char>>, jagged: bool) -> FormatBlockM {
    FormatBlockM::Array { base: crate::parse::normalize::spec_snake(base), len, height, count, jagged }
}

/// What line `i` starts: a block and the lines it takes, or a line that is
/// skipped.
pub open spec fn format_step(norm: Seq<Seq<char>>, orig: Seq<Seq<char>>, i: int) -> (
    Option<FormatBlockM>,
    int,
    Option<Seq<char>>,
) {
    let ln = norm[i];
    if crate::parse::normalize::spec_is_case_placeholder_line(ln)
        || crate::parse::normalize::spec_is_query_placeholder_line(ln) || spec_contains(
        ln,
        "\\vdots"@,
    ) {
        (None, 1, None)
    } else if let Some(v) = spec_parse_varlen_rows(norm, i) {
        (
            Some(array_m(v.2, Some(crate::parse::normalize::spec_snake(v.1)), None, Some(v.3), true)),
            v.4,
            None,
        )
    } else if let Some(b) = spec_parse_rectangular_block(norm, i, 3) {
        (Some(array_m(b.0, Some(b.1[2]), Some(b.1[1]), Some(b.1[0]), false)), b.2, None)
    } else if let Some(b) = spec_parse_rectangular_block(norm, i, 2) {
        (Some(array_m(b.0, Some(b.1[1]), None, Some(b.1[0]), false)), b.2, None)
    } else if let Some(r) = spec_parse_n_repeat(norm, i) {
        (Some(FormatBlockM::Rows { vars: snake_all(r.0), len: r.1 }), r.2, None)
    } else if let Some(v) = spec_parse_vertical_indexed_span(norm, i) {
        (Some(array_m(v.0, Some(v.1), None, None, false)), v.2, None)
    } else if let Some(a) = spec_parse_1d_array_line(ln) {
        let o = if i < orig.len() {
            orig[i]
        } else {
            seq![]
        };
        if crate::parse::normalize::spec_is_concat_hint(o, ln) {
            (Some(FormatBlockM::Scalars(seq![crate::parse::normalize::spec_snake(a.0)])), 1, None)
        } else {
            (Some(array_m(a.0, Some(a.1), None, None, false)), 1, None)
        }
    } else if plain_scalar_line(ln) {
        (Some(FormatBlockM::Scalars(snake_all(spec_split_ws(ln)))), 1, None)
    } else if ln.contains(' ') && ln.contains('_') && !spec_contains(ln, "\\ldots"@) && sub_vars(
        spec_split_ws(ln),
    ) is Some {
        (Some(FormatBlockM::Scalars(sub_vars(spec_split_ws(ln)).unwrap())), 1, None)
    } else if single_symbol_line(ln) {
        (Some(FormatBlockM::Scalars(seq![crate::parse::normalize::spec_snake(spec_trim(ln))])), 1, None)
    } else {
        (None, 1, Some(orig[i]))
    }
}

pub open spec fn at_least_one(n: int) -> int {
    if n >= 1 {
        n
    } else {
        1
    }
}

/// The line after a block of `consumed` lines from `i`, at most `n`.
pub open spec fn next_line(i: int, consumed: int, n: int) -> int {
    if i + at_least_one(consumed) <= n {
        i + at_least_one(consumed)
    } else {
        n
    }
}

pub open spec fn opt_seq<A>(o: Option<A>) -> Seq<A> {
    match o {
        Some(x) => seq![x],
        None => seq![],
    }
}

/// The blocks and the skipped lines from line `i` on.
pub open spec fn blocks_from(norm: Seq<Seq<char>>, orig: Seq<Seq<char>>, i: int) -> (
    Seq<FormatBlockM>,
    Seq<Seq<char>>,
)
    decreases norm.len() - i,
{
    if i < 0 || i >= norm.len() {
        (seq![], seq![])
    } else {
        let s = format_step(norm, orig, i);
        let r = blocks_from(norm, orig, next_line(i, s.1, norm.len() as int));
        (opt_seq(s.0) + r.0, opt_seq(s.2) + r.1)
    }
}

pub open spec fn normalized_lines(lines: Seq<Seq<char>>) -> Seq<Seq<char>> {
    lines.map_values(|l: Seq<char>| crate::parse::normalize::spec_normalize_line(l))
}

/// The blocks of a format, and the original lines no rule reads.
pub open spec fn spec_lines_to_format_blocks(lines: Seq<Seq<char>>) -> (Seq<FormatBlockM>, Seq<Seq<char>>) {
    let f = fold_from(normalized_lines(lines), lines, 0);
    blocks_from(f.0, f.1, 0)
}

fn snake_strings(v: &Vec<String>) -> (r: Vec<String>)
    ensures
        sv(r@) == snake_all(sv(v@)),
{
    let mut out: Vec<String> = Vec::new();
    let mut i: usize = 0;
    while i < v.len()
        invariant
            i <= v@.len(),
            sv(out@) == snake_all(sv(v@)).take(i as int),
        decreases v.len() - i,
    {
        let s = crate::parse::normalize::snake(v[i].as_str());
        proof {
            lemma_sv_push(out@, s);
            assert(snake_all(sv(v@)).take(i + 1) =~= snake_all(sv(v@)).take(i as int).push(s@));
        }
        out.push(s);
        i += 1;
    }
    assert(snake_all(sv(v@)).take(v@.len() as int) =~= snake_all(sv(v@)));
    out
}

fn snake_words(ws: &Vec<Vec<char>>) -> (r: Vec<String>)
    ensures
        sv(r@) == snake_all(vv(ws@)),
{
    let mut out: Vec<String> = Vec::new();
    let mut i: usize = 0;
    while i < ws.len()
        invariant
            i <= ws@.len(),
            sv(out@) == snake_all(vv(ws@)).take(i as int),
        decreases ws.len() - i,
    {
        let s = string_of(&crate::parse::normalize::snake_chars(&ws[i]));
        proof {
            lemma_sv_push(out@, s);
            assert(snake_all(vv(ws@)).take(i + 1) =~= snake_all(vv(ws@)).take(i as int).push(s@));
        }
        out.push(s);
        i += 1;
    }
    assert(snake_all(vv(ws@)).take(ws@.len() as int) =~= snake_all(vv(ws@)));
    out
}

fn all_alnum(s: &Vec<char>) -> (r: bool)
    ensures
        r == forall|k: int| 0 <= k < s@.len() ==> crate::text::spec_is_ascii_alnum(#[trigger] s@[k]),
{
    let mut i: usize = 0;
    while i < s.len()
        invariant
            i <= s@.len(),
            forall|k: int| 0 <= k < i ==> crate::text::spec_is_ascii_alnum(#[trigger] s@[k]),
        decreases s.len() - i,
    {
        if !crate::text::is_ascii_alnum(s[i]) {
            return false;
        }
        i += 1;
    }
    true
}

fn sub_vars_exec(toks: &Vec<Vec<char>>) -> (r: Option<Vec<String>>)
    ensures
        match r {
            None => sub_vars(vv(toks@)) is None,
            Some(v) => sub_vars(vv(toks@)) == Some(sv(v@)),
        },
{
    let ghost tv = vv(toks@);
    let mut out: Vec<String> = Vec::new();
    let mut i: usize = 0;
    assert(tv.take(0) =~= Seq::<Seq<char>>::empty());
    assert(sv(out@) =~= Seq::<Seq<char>>::empty());
    while i < toks.len()
        invariant
            tv == vv(toks@),
            i <= toks@.len(),
            sub_vars(tv.take(i as int)) == Some(sv(out@)),
        decreases toks.len() - i,
    {
        assert(tv.take(i + 1).drop_last() =~= tv.take(i as int));
        assert(tv.take(i + 1).last() == toks@[i as int]@);
        match parse_indexed_token(string_of(&toks[i]).as_str()) {
            Some((base, idxs)) => {
                if idxs.len() != 1 {
                    proof {
                        lemma_sub_vars_none(tv, i as int + 1, tv.len() as int);
                        assert(tv.take(tv.len() as int) =~= tv);
                    }
                    return None;
                }
                assert(sv(idxs@)[0] == idxs@[0]@);
                let mut c = chars_of(base.as_str());
                c.push('_');
                crate::text::append_chars(&mut c, &chars_of(idxs[0].as_str()));
                assert(c@ =~= base@ + seq!['_'] + idxs@[0]@);
                let s = string_of(&crate::parse::normalize::snake_chars(&c));
                proof {
                    lemma_sv_push(out@, s);
                }
                out.push(s);
            },
            None => {
                if all_alnum(&toks[i]) {
                    let s = string_of(&crate::parse::normalize::snake_chars(&toks[i]));
                    proof {
                        lemma_sv_push(out@, s);
                    }
                    out.push(s);
                } else {
                    proof {
                        lemma_sub_vars_none(tv, i as int + 1, tv.len() as int);
                        assert(tv.take(tv.len() as int) =~= tv);
                    }
                    return None;
                }
            },
        }
        i += 1;
    }
    assert(tv.take(toks@.len() as int) =~= tv);
    Some(out)
}

proof fn lemma_sub_vars_none(ts: Seq<Seq<char>>, k: int, n: int)
    requires
        0 <= k <= n <= ts.len(),
        sub_vars(ts.take(k)) is None,
    ensures
        sub_vars(ts.take(n)) is None,
    decreases n - k,
{
    if k < n {
        assert(ts.take(k + 1).drop_last() =~= ts.take(k));
        lemma_sub_vars_none(ts, k + 1, n);
    }
}

fn array_block(base: &String, len: Option<String>, height: Option<String>, count: Option<String>, jagged: bool) -> (r: FormatBlock)
    ensures
        block_view(r) == array_m(base@, opt_view(len), opt_view(height), opt_view(count), jagged),
{
    FormatBlock::Array(crate::parse::types::ArrayBlock {
        base: crate::parse::normalize::snake(base.as_str()),
        len,
        height,
        count,
        jagged,
    })
}

#[verifier::rlimit(40)]
fn format_step_exec(norm: &Vec<String>, orig: &Vec<String>, i: usize) -> (r: (Option<FormatBlock>, usize, Option<String>))
    requires
        i < norm@.len(),
        i < orig@.len(),
    ensures
        (match r.0 {
            Some(b) => Some(block_view(b)),
            None => None::<FormatBlockM>,
        }, r.1 as int, opt_view(r.2)) == format_step(sv(norm@), sv(orig@), i as int),
        r.1 >= 1,
{
    let ghost nv = sv(norm@);
    assert(nv[i as int] == norm@[i as int]@);
    assert(sv(orig@)[i as int] == orig@[i as int]@);
    let ln = &norm[i];
    let lc = chars_of(ln.as_str());
    if crate::parse::normalize::is_case_placeholder_line(ln.as_str())
        || crate::parse::normalize::is_query_placeholder_line(ln.as_str()) || contains_str(
        &lc,
        "\\vdots",
    ) {
        return (None, 1, None);
    }
    match parse_varlen_rows(norm, i) {
        Some((_prefix, len_base, elem_base, count, consumed)) => {
            let b = array_block(
                &elem_base,
                Some(crate::parse::normalize::snake(len_base.as_str())),
                None,
                Some(count),
                true,
            );
            return (Some(b), consumed, None);
        },
        None => {},
    }
    match parse_3d_array_block(norm, i) {
        Some((base, w, h, f, consumed)) => {
            return (Some(array_block(&base, Some(w), Some(h), Some(f), false)), consumed, None);
        },
        None => {},
    }
    match parse_matrix_block(norm, i) {
        Some((base, w, h, consumed)) => {
            return (Some(array_block(&base, Some(w), None, Some(h), false)), consumed, None);
        },
        None => {},
    }
    match parse_n_repeat(norm, i) {
        Some((bases, count, consumed)) => {
            let vars = snake_strings(&bases);
            return (
                Some(FormatBlock::Rows(crate::parse::types::RowsBlock { vars, len: count })),
                consumed,
                None,
            );
        },
        None => {},
    }
    match parse_vertical_scalars(norm, i) {
        Some((base, count, consumed)) => {
            return (Some(array_block(&base, Some(count), None, None, false)), consumed, None);
        },
        None => {},
    }
    match parse_1d_array_line(ln.as_str()) {
        Some((base, len_e)) => {
            if crate::parse::normalize::is_concat_hint(orig[i].as_str(), ln.as_str()) {
                let mut vars: Vec<String> = Vec::new();
                vars.push(crate::parse::normalize::snake(base.as_str()));
                assert(sv(vars@) =~= seq![crate::parse::normalize::spec_snake(base@)]);
                return (
                    Some(FormatBlock::Scalars(crate::parse::types::ScalarsBlock { vars })),
                    1,
                    None,
                );
            } else {
                return (Some(array_block(&base, Some(len_e), None, None, false)), 1, None);
            }
        },
        None => {},
    }
    let has_space = contains_char(&lc, ' ');
    if has_space && !contains_str(&lc, "\\ldots") && !contains_str(&lc, "\\cdots") && !contains_str(
        &lc,
        "\\dots",
    ) && !contains_char(&lc, '_') && !contains_char(&lc, '{') && !contains_char(&lc, '}') {
        let vars = snake_words(&split_ws(&lc));
        return (
            Some(FormatBlock::Scalars(crate::parse::types::ScalarsBlock { vars })),
            1,
            None,
        );
    }
    if has_space && contains_char(&lc, '_') && !contains_str(&lc, "\\ldots") {
        match sub_vars_exec(&split_ws(&lc)) {
            Some(vars) => {
                return (
                    Some(FormatBlock::Scalars(crate::parse::types::ScalarsBlock { vars })),
                    1,
                    None,
                );
            },
            None => {},
        }
    }
    if !has_space && !contains_str(&lc, "\\ldots") && !contains_str(&lc, "\\cdots")
        && !contains_str(&lc, "\\dots") {
        let mut vars: Vec<String> = Vec::new();
        vars.push(string_of(&crate::parse::normalize::snake_chars(&trim(&lc))));
        assert(sv(vars@) =~= seq![crate::parse::normalize::spec_snake(spec_trim(lc@))]);
        return (Some(FormatBlock::Scalars(crate::parse::types::ScalarsBlock { vars })), 1, None);
    }
    (None, 1, Some(orig[i].clone()))
}

/// The format blocks of a format section's lines; the original lines no
/// rule reads are added to `skipped`. Arrays keep their physical
/// dimensions here.
fn normalize_lines(lines: &Vec<String>) -> (raw: Vec<String>)
    ensures
        sv(raw@) == normalized_lines(sv(lines@)),
        raw@.len() == lines@.len(),
{
    let mut raw: Vec<String> = Vec::new();
    let mut k: usize = 0;
    while k < lines.len()
        invariant
            k <= lines@.len(),
            raw@.len() == k,
            sv(raw@) == normalized_lines(sv(lines@)).take(k as int),
        decreases lines.len() - k,
    {
        let s = crate::parse::normalize::normalize_line(lines[k].as_str());
        proof {
            lemma_sv_push(raw@, s);
            assert(normalized_lines(sv(lines@)).take(k + 1) =~= normalized_lines(sv(lines@)).take(
                k as int,
            ).push(s@));
        }
        raw.push(s);
        k += 1;
    }
    assert(normalized_lines(sv(lines@)).take(lines@.len() as int) =~= normalized_lines(sv(lines@)));
    raw
}

#[verifier::rlimit(40)]
pub fn lines_to_format_blocks_inner(lines: &Vec<String>, skipped: &mut Vec<String>) -> (r: Vec<FormatBlock>)
    ensures
        (blocks_view(r@), sv(final(skipped)@)) == (spec_lines_to_format_blocks(sv(lines@)).0, sv(
            old(skipped)@,
        ) + spec_lines_to_format_blocks(sv(lines@)).1),
{
    let raw = normalize_lines(lines);
    let (norm, orig) = fold_separate_len_rows(&raw, lines);
    let ghost nv = sv(norm@);
    let ghost ov = sv(orig@);
    let ghost s0 = sv(skipped@);
    let mut blocks: Vec<FormatBlock> = Vec::new();
    let mut i: usize = 0;
    assert(blocks_view(blocks@) =~= Seq::<FormatBlockM>::empty());
    assert(Seq::<FormatBlockM>::empty() + blocks_from(nv, ov, 0).0 =~= blocks_from(nv, ov, 0).0);
    assert(s0 + blocks_from(nv, ov, 0).1 =~= s0 + blocks_from(nv, ov, 0).1);
    while i < norm.len()
        invariant
            nv == sv(norm@),
            ov == sv(orig@),
            norm@.len() == orig@.len(),
            i <= norm@.len(),
            blocks_view(blocks@) + blocks_from(nv, ov, i as int).0 == blocks_from(nv, ov, 0).0,
            sv(skipped@) + blocks_from(nv, ov, i as int).1 == s0 + blocks_from(nv, ov, 0).1,
        decreases norm.len() - i,
    {
        let (b, consumed, skip) = format_step_exec(&norm, &orig, i);
        let ghost bv = blocks_view(blocks@);
        let ghost skv = sv(skipped@);
        let ghost nxt = next_line(i as int, consumed as int, norm@.len() as int);
        proof {
            let r = blocks_from(nv, ov, nxt);
            assert(blocks_from(nv, ov, i as int) == (
                opt_seq(format_step(nv, ov, i as int).0) + r.0,
                opt_seq(format_step(nv, ov, i as int).2) + r.1,
            ));
        }
        match b {
            Some(blk) => {
                proof {
                    lemma_blocks_view_push(blocks@, blk);
                    assert(bv.push(block_view(blk)) + blocks_from(nv, ov, nxt).0 =~= bv + (
                    seq![block_view(blk)] + blocks_from(nv, ov, nxt).0));
                }
                blocks.push(blk);
            },
            None => {
                assert(bv + blocks_from(nv, ov, nxt).0 =~= bv + (Seq::<FormatBlockM>::empty()
                    + blocks_from(nv, ov, nxt).0));
            },
        }
        match skip {
            Some(line) => {
                proof {
                    lemma_sv_push(skipped@, line);
                    assert(skv.push(line@) + blocks_from(nv, ov, nxt).1 =~= skv + (seq![line@]
                        + blocks_from(nv, ov, nxt).1));
                }
                skipped.push(line);
            },
            None => {
                assert(skv + blocks_from(nv, ov, nxt).1 =~= skv + (Seq::<Seq<char>>::empty()
                    + blocks_from(nv, ov, nxt).1));
            },
        }
        if consumed > norm.len() - i {
            i = norm.len();
        } else {
            i = i + consumed;
        }
    }
    assert(blocks_view(blocks@) + Seq::<FormatBlockM>::empty() =~= blocks_view(blocks@));
    assert(sv(skipped@) + Seq::<Seq<char>>::empty() =~= sv(skipped@));
    blocks
}

/// The format blocks of a format section's lines.
pub fn lines_to_format_blocks(lines: &Vec<String>) -> (r: Vec<FormatBlock>)
    ensures
        blocks_view(r@) == spec_lines_to_format_blocks(sv(lines@)).0,
{
    let mut skipped: Vec<String> = Vec::new();
    lines_to_format_blocks_inner(lines, &mut skipped)
}

} // verus!

verus! {

// ─── names a format mentions ────────────────────────────────────────────────

pub open spec fn name_if_var(x: Seq<char>) -> Seq<Seq<char>> {
    if crate::parse::normalize::spec_is_var_name(x) {
        seq![x]
    } else {
        seq![]
    }
}

pub open spec fn opt_name_if_var(o: Option<Seq<char>>) -> Seq<Seq<char>> {
    match o {
        Some(x) => name_if_var(x),
        None => seq![],
    }
}

pub open spec fn block_names(b: FormatBlockM) -> Seq<Seq<char>>
    decreases b,
{
    match b {
        FormatBlockM::Scalars(vars) => vars,
        FormatBlockM::Array { base, len, height, count, jagged } => seq![base] + opt_name_if_var(len)
            + opt_name_if_var(count) + opt_name_if_var(height),
        FormatBlockM::Rows { vars, len } => name_if_var(len) + vars,
        FormatBlockM::TestCases { count, format } => name_if_var(count) + blocks_names(format),
        FormatBlockM::Queries { count, discriminator, types } => name_if_var(count) + match discriminator {
            Some(d) => seq![d],
            None => Seq::<Seq<char>>::empty(),
        } + branches_names(types),
    }
}

pub open spec fn blocks_names(bs: Seq<FormatBlockM>) -> Seq<Seq<char>>
    decreases bs,
{
    if bs.len() == 0 {
        seq![]
    } else {
        blocks_names(bs.subrange(0, bs.len() - 1)) + block_names(bs[bs.len() - 1])
    }
}

pub open spec fn branches_names(qs: Seq<(Seq<char>, Seq<FormatBlockM>)>) -> Seq<Seq<char>>
    decreases qs,
{
    if qs.len() == 0 {
        seq![]
    } else {
        branches_names(qs.subrange(0, qs.len() - 1)) + blocks_names(qs[qs.len() - 1].1)
    }
}

fn push_name(names: &mut Vec<String>, x: &String)
    ensures
        sv(final(names)@) == sv(old(names)@) + seq![x@],
{
    let c = x.clone();
    proof {
        lemma_sv_push(names@, c);
    }
    names.push(c);
    assert(sv(old(names)@).push(x@) =~= sv(old(names)@) + seq![x@]);
}

fn push_if_var(names: &mut Vec<String>, x: &String)
    ensures
        sv(final(names)@) == sv(old(names)@) + name_if_var(x@),
{
    if crate::parse::normalize::is_var_name(x.as_str()) {
        push_name(names, x);
    } else {
        assert(sv(names@) + Seq::<Seq<char>>::empty() =~= sv(names@));
    }
}

fn push_opt_if_var(names: &mut Vec<String>, x: &Option<String>)
    ensures
        sv(final(names)@) == sv(old(names)@) + opt_name_if_var(opt_view(*x)),
{
    match x {
        Some(s) => push_if_var(names, s),
        None => {
            assert(sv(names@) + Seq::<Seq<char>>::empty() =~= sv(names@));
        },
    }
}

fn append_strings(dst: &mut Vec<String>, src: &Vec<String>)
    ensures
        sv(final(dst)@) == sv(old(dst)@) + sv(src@),
{
    let ghost d0 = sv(dst@);
    let mut i: usize = 0;
    while i < src.len()
        invariant
            i <= src@.len(),
            sv(dst@) == d0 + sv(src@).take(i as int),
        decreases src.len() - i,
    {
        let c = src[i].clone();
        proof {
            lemma_sv_push(dst@, c);
            assert(d0 + sv(src@).take(i + 1) =~= (d0 + sv(src@).take(i as int)).push(c@));
        }
        dst.push(c);
        i += 1;
    }
    assert(sv(src@).take(src@.len() as int) =~= sv(src@));
}

fn block_names_exec(b: &FormatBlock, names: &mut Vec<String>)
    ensures
        sv(final(names)@) == sv(old(names)@) + block_names(block_view(*b)),
    decreases b,
{
    let ghost n0 = sv(names@);
    match b {
        FormatBlock::Scalars(s) => {
            append_strings(names, &s.vars);
        },
        FormatBlock::Array(a) => {
            push_name(names, &a.base);
            push_opt_if_var(names, &a.len);
            push_opt_if_var(names, &a.count);
            push_opt_if_var(names, &a.height);
            assert(sv(names@) =~= n0 + block_names(block_view(*b)));
        },
        FormatBlock::Rows(r) => {
            push_if_var(names, &r.len);
            append_strings(names, &r.vars);
            assert(sv(names@) =~= n0 + block_names(block_view(*b)));
        },
        FormatBlock::TestCases(t) => {
            push_if_var(names, &t.count);
            blocks_names_exec(&t.format, names);
            assert(sv(names@) =~= n0 + block_names(block_view(*b)));
        },
        FormatBlock::Queries(q) => {
            push_if_var(names, &q.count);
            match &q.discriminator {
                Some(d) => push_name(names, d),
                None => {
                    assert(sv(names@) + Seq::<Seq<char>>::empty() =~= sv(names@));
                },
            }
            let ghost n1 = sv(names@);
            let ghost qs = q.types@;
            let mut j: usize = 0;
            assert(branches_names(crate::parse::types::branches_view(qs.subrange(0, 0))) =~= Seq::<
                Seq<char>,
            >::empty());
            assert(n1 + Seq::<Seq<char>>::empty() =~= n1);
            while j < q.types.len()
                invariant
                    *b == FormatBlock::Queries(*q),
                    qs == q.types@,
                    j <= qs.len(),
                    sv(names@) == n1 + branches_names(
                        crate::parse::types::branches_view(qs.subrange(0, j as int)),
                    ),
                decreases q.types.len() - j,
            {
                proof {
                    assert(qs.subrange(0, j + 1).subrange(0, j as int) =~= qs.subrange(0, j as int));
                    let bv = crate::parse::types::branches_view(qs.subrange(0, j + 1));
                    assert(bv.subrange(0, bv.len() - 1) =~= crate::parse::types::branches_view(
                        qs.subrange(0, j as int),
                    )) by {
                        crate::parse::types::lemma_branches_view_len(qs.subrange(0, j as int));
                    }
                    assert((*b)->Queries_0 == *q);
                    assert(decreases_to!(*b => (*b)->Queries_0));
                    assert(decreases_to!(*q => q.types));
                    assert(decreases_to!(q.types => q.types@));
                    assert(decreases_to!(q.types@ => q.types@[j as int]));
                    assert(decreases_to!(q.types@[j as int] => q.types@[j as int].format));
                }
                let ghost before = sv(names@);
                blocks_names_exec(&q.types[j].format, names);
                proof {
                    crate::parse::types::lemma_branches_view_len(qs.subrange(0, j as int));
                    assert(n1 + branches_names(
                        crate::parse::types::branches_view(qs.subrange(0, j + 1)),
                    ) =~= before + blocks_names(blocks_view(qs[j as int].format@)));
                }
                j += 1;
            }
            assert(qs.subrange(0, qs.len() as int) =~= qs);
            assert(sv(names@) =~= n0 + block_names(block_view(*b)));
        },
    }
}

fn blocks_names_exec(blocks: &Vec<FormatBlock>, names: &mut Vec<String>)
    ensures
        sv(final(names)@) == sv(old(names)@) + blocks_names(blocks_view(blocks@)),
    decreases blocks,
{
    let ghost n0 = sv(names@);
    let ghost bs = blocks@;
    let mut i: usize = 0;
    assert(n0 + blocks_names(blocks_view(bs.subrange(0, 0))) =~= n0);
    while i < blocks.len()
        invariant
            bs == blocks@,
            i <= bs.len(),
            sv(names@) == n0 + blocks_names(blocks_view(bs.subrange(0, i as int))),
        decreases blocks.len() - i,
    {
        proof {
            assert(bs.subrange(0, i + 1) =~= bs.subrange(0, i as int).push(bs[i as int]));
            lemma_blocks_view_push(bs.subrange(0, i as int), bs[i as int]);
            let pv = blocks_view(bs.subrange(0, i as int));
            assert(pv.push(block_view(bs[i as int])).subrange(0, pv.len() as int) =~= pv);
        }
        let ghost before = sv(names@);
        block_names_exec(&blocks[i], names);
        assert(n0 + blocks_names(blocks_view(bs.subrange(0, i + 1))) =~= before + block_names(
            block_view(bs[i as int]),
        ));
        i += 1;
    }
    assert(bs.subrange(0, bs.len() as int) =~= bs);
}

/// The variable names a block tree mentions, in order: every scalar, array
/// base and row variable, and the sizes and discriminators that are names.
pub fn collect_var_names(blocks: &Vec<FormatBlock>) -> (r: Vec<String>)
    ensures
        sv(r@) == blocks_names(blocks_view(blocks@)),
{
    let mut names: Vec<String> = Vec::new();
    assert(sv(names@) =~= Seq::<Seq<char>>::empty());
    blocks_names_exec(blocks, &mut names);
    assert(Seq::<Seq<char>>::empty() + blocks_names(blocks_view(blocks@)) =~= blocks_names(
        blocks_view(blocks@),
    ));
    names
}

/// Every name of `names` not yet in the map, added with the default
/// constraint.
pub open spec fn add_defaults(
    m: Seq<(Seq<char>, crate::parse::types::VarConstraintM)>,
    names: Seq<Seq<char>>,
) -> Seq<(Seq<char>, crate::parse::types::VarConstraintM)>
    decreases names.len(),
{
    if names.len() == 0 {
        m
    } else {
        let p = add_defaults(m, names.drop_last());
        if m_has(p, names.last()) {
            p
        } else {
            m_insert(p, names.last(), crate::parse::types::default_constraint())
        }
    }
}

/// Give every variable the format mentions an entry, `usize` by default.
pub fn add_missing_usize_vars(vars: &mut StrMap<crate::parse::types::VarConstraint>, blocks: &Vec<FormatBlock>)
    ensures
        final(vars).model() == add_defaults(old(vars).model(), blocks_names(blocks_view(blocks@))),
{
    let names = collect_var_names(blocks);
    let ghost ns = sv(names@);
    let ghost m0 = vars.model();
    let mut i: usize = 0;
    assert(ns.take(0) =~= Seq::<Seq<char>>::empty());
    while i < names.len()
        invariant
            ns == sv(names@),
            i <= names@.len(),
            vars.model() == add_defaults(m0, ns.take(i as int)),
        decreases names.len() - i,
    {
        assert(ns.take(i + 1).drop_last() =~= ns.take(i as int));
        assert(ns.take(i + 1).last() == names@[i as int]@);
        if !vars.contains_key(names[i].as_str()) {
            vars.insert(names[i].clone(), crate::parse::types::VarConstraint::new());
        }
        i += 1;
    }
    assert(ns.take(names@.len() as int) =~= ns);
}

} // verus!
