//! The walk over a format that renders one input case, with the retries
//! that keep the `ordering` / `not_equal` pairs satisfied.

use vstd::prelude::*;
use std::sync::atomic::AtomicBool;
use crate::interrupt::signalled;
use crate::maps::StrMap;
use crate::parse::types::{block_view, blocks_view, branches_view, FormatBlock, FormatBlockM, VarType};
use crate::random_test::budget::{is_oversize, Budget, GenError};
use crate::random_test::context::{ContextCheckpoint, RenderContext};
use crate::random_test::emitter::{
    block_ready, blocks_ready, constrained_scalar_value, gen_chars, grows, lemma_grows_push, lemma_grows_trans,
    render_chars_array, render_int_array, render_jagged, render_rows, resolve_count, ints_ok, arrs_ok, strs_ok,
};
use crate::random_test::gen::{decide_structural_sizes, StructuralSizes};
use crate::random_test::relation::{opt_set, pairs_ok, spec_pairs_ok, Known};
use crate::random_test::rng::random_index;
use crate::random_test::spec::ResolvedSpec;
use crate::random_test::strategy::{CaseStrategy, RandomStrategy};
use crate::text::int_string;

verus! {

/// Resamples of one repeated-block iteration before the whole case is
/// regenerated.
pub const INNER_BUDGET: u32 = 20;

/// Whole-case regenerations for a corner strategy.
pub const CORNER_BUDGET: u32 = 20;

/// Whole-case regenerations for plain random.
pub const RANDOM_BUDGET: u32 = 100;

/// The ceiling on generated input elements: inputs past it usually mean a
/// missing or misread constraint.
pub const MAX_INPUT_ELEMENTS: u128 = 100_000_000;

/// The outcome of rendering one case.
#[derive(Debug)]
pub enum RenderResult {
    Ready(String),
    /// A corner strategy could not satisfy the pairs within its retries.
    Unsatisfied,
    /// The case outgrew the size ceiling, or plain random exhausted its
    /// retries; the reason in English.
    Abort(String),
    Interrupted,
}

impl RenderResult {
    /// The input of a ready case.
    pub fn unwrap(self) -> (r: String)
        requires
            self is Ready,
        ensures
            self matches RenderResult::Ready(s) && r == s,
    {
        match self {
            RenderResult::Ready(input) => input,
            RenderResult::Unsatisfied => String::new(),
            RenderResult::Abort(reason) => reason,
            RenderResult::Interrupted => String::new(),
        }
    }

    /// Whether the corner could not be satisfied.
    pub fn is_none(&self) -> (r: bool)
        ensures
            r == (*self is Unsatisfied),
    {
        match self {
            RenderResult::Unsatisfied => true,
            _ => false,
        }
    }
}

/// `parts` joined by single spaces.
fn join_words(parts: &Vec<String>) -> (r: String)
    ensures
        r@ == crate::template::join_with(crate::text::sv(parts@), " "@),
{
    crate::text::string_of(&crate::template::join_exec(parts, " "))
}

/// The scalar blocks of a format: each writes one line.
pub open spec fn scalar_blocks(bs: Seq<FormatBlockM>) -> nat
    decreases bs.len(),
{
    if bs.len() == 0 {
        0
    } else {
        scalar_blocks(bs.drop_last()) + if bs.last() is Scalars {
            1nat
        } else {
            0nat
        }
    }
}

/// A scalar no draw can fail: a known integer variable in no `ordering` or
/// `not_equal` pair, with a non-empty effective range that its enumerated
/// domain (when one applies) meets.
pub open spec fn scalar_sure(
    m: crate::random_test::spec::ResolvedM,
    sizes: crate::random_test::gen::SizesM,
    st: CaseStrategy,
    v: Seq<char>,
) -> bool {
    &&& crate::maps::m_get(m.vars, v) is Some
    &&& crate::maps::m_get(m.vars, v)->0.ty != VarType::Chars
    &&& !crate::random_test::relation::paired(v, m)
    &&& ({
        let info = crate::maps::m_get(m.vars, v)->0;
        let b = crate::random_test::gen::spec_effective_lo_hi(v, info, sizes, m);
        &&& b.0 <= b.1
        &&& (info.values matches Some(vs) && vs.len() > 0) && !crate::random_test::emitter::size_shortcut(st, m, v)
            ==> exists|x: i64| info.values->0.contains(x) && b.0 <= x && x <= b.1
    })
}

/// A format of scalar lines only, every variable of them one no draw can
/// fail.
pub open spec fn walk_sure(
    m: crate::random_test::spec::ResolvedM,
    sizes: crate::random_test::gen::SizesM,
    st: CaseStrategy,
    bs: Seq<FormatBlockM>,
) -> bool {
    forall|i: int|
        0 <= i < bs.len() ==> (#[trigger] bs[i] matches FormatBlockM::Scalars(vars) && forall|j: int|
            0 <= j < vars.len() ==> scalar_sure(m, sizes, st, #[trigger] vars[j]))
}

/// The variables of a scalar line (none for other blocks).
pub open spec fn line_vars(b: FormatBlockM) -> Seq<Seq<char>> {
    match b {
        FormatBlockM::Scalars(vars) => vars,
        _ => seq![],
    }
}

/// The line of `vars` under the values `ctx`: each value in decimal,
/// separated by single spaces.
pub open spec fn scalar_line(ctx: Seq<(Seq<char>, i64)>, vars: Seq<Seq<char>>) -> Seq<char> {
    crate::template::join_with(
        vars.map_values(|v: Seq<char>| crate::text::spec_int_chars(crate::maps::m_get(ctx, v)->0 as int)),
        " "@,
    )
}

/// A block the plain text law covers: a line of known integer
/// variables, or a single row of a known integer array.
pub open spec fn plain_block(m: crate::random_test::spec::ResolvedM, b: FormatBlockM) -> bool {
    match b {
        FormatBlockM::Scalars(vars) => forall|j: int|
            0 <= j < vars.len() ==> (crate::maps::m_get(m.vars, #[trigger] vars[j]) matches Some(info) && info.ty
                != VarType::Chars),
        FormatBlockM::Array { base, len, height, count, jagged } => !jagged && count is None && height is None && (
        crate::maps::m_get(m.vars, base) matches Some(info) && info.ty != VarType::Chars),
        _ => false,
    }
}

/// The array variable of an array block.
pub open spec fn array_base(b: FormatBlockM) -> Option<Seq<char>> {
    match b {
        FormatBlockM::Array { base, .. } => Some(base),
        _ => None,
    }
}

/// A format of plain blocks, no array variable written twice.
pub open spec fn plain_format(m: crate::random_test::spec::ResolvedM, bs: Seq<FormatBlockM>) -> bool {
    &&& forall|i: int| 0 <= i < bs.len() ==> #[trigger] plain_block(m, bs[i])
    &&& forall|i: int, j: int|
        0 <= i < j < bs.len() && array_base(bs[i]) is Some ==> #[trigger] array_base(bs[j]) != #[trigger] array_base(
            bs[i],
        )
}

/// The array variables of blocks `from..` have no values yet.
pub open spec fn fresh_arrays(arrs: Seq<(Seq<char>, Seq<i64>)>, bs: Seq<FormatBlockM>, from: int) -> bool {
    forall|i: int| from <= i < bs.len() ==> (#[trigger] array_base(bs[i]) matches Some(x) ==> !crate::maps::m_has(arrs, x))
}

/// The line a plain block writes under the values: the variables'
/// values, or the array's, in decimal separated by single spaces.
pub open spec fn plain_line(ints: Seq<(Seq<char>, i64)>, arrs: Seq<(Seq<char>, Seq<i64>)>, b: FormatBlockM) -> Seq<
    char,
> {
    match b {
        FormatBlockM::Scalars(vars) => scalar_line(ints, vars),
        FormatBlockM::Array { base, .. } => crate::random_test::emitter::spec_join_ints(crate::maps::m_get(arrs, base)->0),
        _ => seq![],
    }
}

/// The values a plain block writes are all known.
pub open spec fn line_known(ints: Seq<(Seq<char>, i64)>, arrs: Seq<(Seq<char>, Seq<i64>)>, b: FormatBlockM) -> bool {
    match b {
        FormatBlockM::Scalars(vars) => all_known(ints, vars),
        FormatBlockM::Array { base, .. } => crate::maps::m_has(arrs, base),
        _ => true,
    }
}

/// The text of a plain format under the values, line by line.
pub open spec fn plain_text(
    ints: Seq<(Seq<char>, i64)>,
    arrs: Seq<(Seq<char>, Seq<i64>)>,
    bs: Seq<FormatBlockM>,
) -> Seq<Seq<char>> {
    bs.map_values(|b: FormatBlockM| plain_line(ints, arrs, b))
}

/// The lines from `from` on are the plain lines of the first `n` blocks
/// under the values, all of them known.
pub open spec fn lines_plain(
    lines: Seq<String>,
    from: int,
    ints: Seq<(Seq<char>, i64)>,
    arrs: Seq<(Seq<char>, Seq<i64>)>,
    vs: Seq<FormatBlockM>,
    n: int,
) -> bool {
    forall|i: int|
        0 <= i < n ==> line_known(ints, arrs, #[trigger] vs[i]) && lines[from + i]@ == plain_line(ints, arrs, vs[i])
}

/// The arrays of the first `n` blocks hold values their constraints
/// allow.
pub open spec fn arrays_ok(
    m: crate::random_test::spec::ResolvedM,
    sizes: crate::random_test::gen::SizesM,
    arrs: Seq<(Seq<char>, Seq<i64>)>,
    vs: Seq<FormatBlockM>,
    n: int,
) -> bool {
    forall|i: int|
        0 <= i < n ==> (#[trigger] array_base(vs[i]) matches Some(x) ==> crate::random_test::emitter::array_values_ok(
            m,
            sizes,
            x,
            crate::maps::m_get(arrs, x)->0,
        ))
}

/// A line of integer variables.
pub open spec fn int_scalars(m: crate::random_test::spec::ResolvedM, b: FormatBlockM) -> bool {
    b is Scalars && forall|j: int|
        0 <= j < line_vars(b).len() ==> (crate::maps::m_get(m.vars, #[trigger] line_vars(b)[j]) matches Some(info)
            && info.ty != VarType::Chars)
}

/// `cuts` splits the texts into the parts of the first `n` blocks, each
/// from `cuts[i]` to `cuts[i + 1]`; a line of integer variables is one
/// text: their values under `ints`, in decimal separated by single spaces.
pub open spec fn segments(
    m: crate::random_test::spec::ResolvedM,
    vs: Seq<FormatBlockM>,
    texts: Seq<Seq<char>>,
    ints: Seq<(Seq<char>, i64)>,
    cuts: Seq<int>,
    n: int,
) -> bool {
    &&& cuts.len() == n + 1
    &&& 0 <= cuts[0]
    &&& forall|i: int, j: int| 0 <= i <= j <= n ==> #[trigger] cuts[i] <= #[trigger] cuts[j]
    &&& cuts[n] <= texts.len()
    &&& forall|i: int|
        0 <= i < n && int_scalars(m, #[trigger] vs[i]) ==> cuts[i + 1] == cuts[i] + 1 && all_known(ints, line_vars(vs[i]))
            && texts[cuts[i]] == scalar_line(ints, line_vars(vs[i]))
}

/// More lines after the parts, and more known values, leave the parts as
/// they read.
proof fn lemma_segments_stable(
    m: crate::random_test::spec::ResolvedM,
    vs: Seq<FormatBlockM>,
    t1: Seq<Seq<char>>,
    t2: Seq<Seq<char>>,
    i1: Seq<(Seq<char>, i64)>,
    i2: Seq<(Seq<char>, i64)>,
    cuts: Seq<int>,
    n: int,
)
    requires
        segments(m, vs, t1, i1, cuts, n),
        t1.len() <= t2.len(),
        forall|q: int| 0 <= q < t1.len() ==> #[trigger] t2[q] == t1[q],
        crate::random_test::emitter::extends(i1, i2),
        0 <= n,
    ensures
        segments(m, vs, t2, i2, cuts, n),
{
    assert forall|i: int| 0 <= i < n && int_scalars(m, #[trigger] vs[i]) implies cuts[i + 1] == cuts[i] + 1 && all_known(
        i2,
        line_vars(vs[i]),
    ) && t2[cuts[i]] == scalar_line(i2, line_vars(vs[i])) by {
        let vars = line_vars(vs[i]);
        assert(cuts[0] <= cuts[i] && cuts[i] <= cuts[i + 1] && cuts[i + 1] <= cuts[n]);
        assert(t2[cuts[i]] == t1[cuts[i]]);
        assert forall|j: int| 0 <= j < vars.len() implies crate::maps::m_get(i1, #[trigger] vars[j])
            == crate::maps::m_get(i2, vars[j]) by {
            assert(crate::maps::m_has(i1, vars[j]));
        }
        lemma_scalar_line_same(i1, i2, vars);
        assert forall|j: int| 0 <= j < vars.len() implies crate::maps::m_has(i2, #[trigger] vars[j]) by {
            assert(crate::maps::m_has(i1, vars[j]));
        }
    }
}

/// Every one of `vars` has a value in `ctx`.
pub open spec fn all_known(ctx: Seq<(Seq<char>, i64)>, vars: Seq<Seq<char>>) -> bool {
    forall|j: int| 0 <= j < vars.len() ==> crate::maps::m_has(ctx, #[trigger] vars[j])
}

proof fn lemma_scalar_line_same(c1: Seq<(Seq<char>, i64)>, c2: Seq<(Seq<char>, i64)>, vars: Seq<Seq<char>>)
    requires
        forall|j: int| 0 <= j < vars.len() ==> crate::maps::m_get(c1, #[trigger] vars[j]) == crate::maps::m_get(c2, vars[j]),
    ensures
        scalar_line(c1, vars) == scalar_line(c2, vars),
{
    assert(vars.map_values(|v: Seq<char>| crate::text::spec_int_chars(crate::maps::m_get(c1, v)->0 as int))
        =~= vars.map_values(|v: Seq<char>| crate::text::spec_int_chars(crate::maps::m_get(c2, v)->0 as int)));
}

/// Values that stay as they were leave the known lines as they read.
proof fn lemma_plain_stable(
    i1: Seq<(Seq<char>, i64)>,
    a1: Seq<(Seq<char>, Seq<i64>)>,
    i2: Seq<(Seq<char>, i64)>,
    a2: Seq<(Seq<char>, Seq<i64>)>,
    lines: Seq<String>,
    from: int,
    vs: Seq<FormatBlockM>,
    n: int,
)
    requires
        crate::random_test::emitter::extends(i1, i2),
        crate::random_test::emitter::extends(a1, a2),
        lines_plain(lines, from, i1, a1, vs, n),
        0 <= n <= vs.len(),
    ensures
        lines_plain(lines, from, i2, a2, vs, n),
{
    assert forall|i: int| 0 <= i < n implies line_known(i2, a2, #[trigger] vs[i]) && lines[from + i]@ == plain_line(
        i2,
        a2,
        vs[i],
    ) by {
        match vs[i] {
            FormatBlockM::Scalars(vars) => {
                assert forall|j: int| 0 <= j < vars.len() implies crate::maps::m_get(i1, #[trigger] vars[j])
                    == crate::maps::m_get(i2, vars[j]) by {
                    assert(crate::maps::m_has(i1, vars[j]));
                }
                lemma_scalar_line_same(i1, i2, vars);
                assert forall|j: int| 0 <= j < vars.len() implies crate::maps::m_has(i2, #[trigger] vars[j]) by {
                    assert(crate::maps::m_has(i1, vars[j]));
                }
            },
            FormatBlockM::Array { base, .. } => {
                assert(crate::maps::m_has(a1, base));
            },
            _ => {},
        }
    }
}

/// Adding a value under a name not yet known keeps every known value.
proof fn lemma_insert_extends<W>(c: Seq<(Seq<char>, W)>, k: Seq<char>, x: W)
    requires
        !crate::maps::m_has(c, k),
    ensures
        crate::random_test::emitter::extends(c, crate::maps::m_insert(c, k, x)),
        crate::maps::m_get(crate::maps::m_insert(c, k, x), k) == Some(x),
        forall|j: Seq<char>| j != k ==> #[trigger] crate::maps::m_get(crate::maps::m_insert(c, k, x), j) == crate::maps::m_get(c, j),
{
    crate::maps::lemma_m_insert_get(c, k, x, k);
    assert forall|j: Seq<char>| j != k implies #[trigger] crate::maps::m_get(crate::maps::m_insert(c, k, x), j)
        == crate::maps::m_get(c, j) by {
        crate::maps::lemma_m_insert_get(c, k, x, j);
    }
}

/// One value of a line of variables: an integer in decimal, within its
/// variable's range or the size decided for it, or, for a string
/// variable, a string over its charset of a length its term allows.
pub open spec fn part_ok(
    m: crate::random_test::spec::ResolvedM,
    z: crate::random_test::gen::SizesM,
    v: Seq<char>,
    p: Seq<char>,
) -> bool {
    ||| exists|x: i64|
        #![trigger crate::text::spec_int_chars(x as int)]
        p == crate::text::spec_int_chars(x as int) && (crate::random_test::emitter::int_fits(m, z, v, x)
            || crate::random_test::emitter::seeded(z, v, x))
    ||| (crate::maps::m_get(m.vars, v) matches Some(info) && info.ty == VarType::Chars && info.charset is Some
        && crate::random_test::emitter::over_charset(p, info.charset->0) && crate::random_test::emitter::str_len_ok(
        m,
        z,
        info.len,
        p.len(),
    ))
}

/// A line of integers in decimal separated by single spaces, each one
/// `[lo, hi]` or, when there is one, the domain allows.
pub open spec fn ints_text(line: Seq<char>, lo: i64, hi: i64, values: Option<Seq<i64>>) -> bool {
    exists|xs: Seq<i64>|
        line == #[trigger] crate::random_test::emitter::spec_join_ints(xs) && forall|i: int|
            0 <= i < xs.len() ==> crate::random_test::emitter::elem_ok(#[trigger] xs[i], lo, hi, values)
}

/// The lines `seg` are ones block `b` may write under the sizes `z`:
/// values within their variables' ranges (or domains), strings over their
/// charsets, each iteration of a repeated block a text of its format.
pub open spec fn block_text(
    m: crate::random_test::spec::ResolvedM,
    z: crate::random_test::gen::SizesM,
    b: FormatBlockM,
    seg: Seq<Seq<char>>,
) -> bool
    decreases b, 0nat,
{
    match b {
        FormatBlockM::Scalars(vars) => seg.len() == 1 && exists|ps: Seq<Seq<char>>|
            #![trigger crate::template::join_with(ps, " "@)]
            ps.len() == vars.len() && seg[0] == crate::template::join_with(ps, " "@) && forall|j: int|
                0 <= j < vars.len() ==> part_ok(m, z, vars[j], #[trigger] ps[j]),
        FormatBlockM::Array { base, jagged, .. } => {
            let info = crate::maps::m_get(m.vars, base)->0;
            let e = crate::random_test::gen::spec_effective_lo_hi(base, info, z, m);
            if jagged {
                forall|k: int|
                    0 <= k < seg.len() ==> crate::random_test::emitter::jagged_line(#[trigger] seg[k], e.0, e.1, info.values)
            } else if crate::maps::m_get(m.vars, base) matches Some(i) && i.ty == VarType::Chars {
                forall|k: int|
                    0 <= k < seg.len() ==> crate::random_test::emitter::over_charset(#[trigger] seg[k], info.charset->0)
                        && (info.len matches Some(crate::parse::types::BoundReprM::Lit(n))
                        ==> seg[k].len() == crate::random_test::emitter::as_len_spec(n))
            } else {
                forall|k: int| 0 <= k < seg.len() ==> ints_text(#[trigger] seg[k], e.0, e.1, info.values)
            }
        },
        FormatBlockM::Rows { vars, .. } => forall|k: int|
            0 <= k < seg.len() ==> crate::random_test::emitter::row_fits(m, z, vars, #[trigger] seg[k]),
        FormatBlockM::TestCases { format, .. } => iters_text(m, z, format, seg),
        FormatBlockM::Queries { types, .. } => queries_text(m, z, types, seg),
    }
}

/// The texts are iterations in a row, each a text of `bs` (an iteration
/// that writes nothing leaves no trace).
pub open spec fn iters_text(
    m: crate::random_test::spec::ResolvedM,
    z: crate::random_test::gen::SizesM,
    bs: Seq<FormatBlockM>,
    texts: Seq<Seq<char>>,
) -> bool
    decreases bs, texts.len(),
{
    texts.len() == 0 || exists|k: int|
        #![trigger texts.take(k)]
        0 <= k < texts.len() && iters_text(m, z, bs, texts.take(k)) && format_text(m, z, bs, texts.skip(k))
}

/// One query as written: the lines `q` of its branch's format, the id
/// merged onto the first of them (trimmed; the id alone when that line is
/// blank), or the id alone when the format wrote nothing.
pub open spec fn query_text(id: Seq<char>, q: Seq<Seq<char>>, p: Seq<Seq<char>>) -> bool {
    if q.len() == 0 {
        p == seq![id]
    } else {
        &&& p.len() == q.len()
        &&& p.skip(1) == q.skip(1)
        &&& p[0] == if crate::text::spec_trim(q[0]).len() == 0 {
            id
        } else {
            id + seq![' '] + crate::text::spec_trim(q[0])
        }
    }
}

/// The texts are queries in a row, each of some branch `(id, format)`: a
/// text of that format with the id merged in (see `query_text`).
pub open spec fn queries_text(
    m: crate::random_test::spec::ResolvedM,
    z: crate::random_test::gen::SizesM,
    qs: Seq<(Seq<char>, Seq<FormatBlockM>)>,
    texts: Seq<Seq<char>>,
) -> bool
    decreases qs, texts.len(),
{
    texts.len() == 0 || exists|k: int, j: int, q: Seq<Seq<char>>|
        #![trigger query_text(qs[j].0, q, texts.skip(k))]
        0 <= k < texts.len() && 0 <= j < qs.len() && queries_text(m, z, qs, texts.take(k)) && format_text(
            m,
            z,
            qs[j].1,
            q,
        ) && query_text(qs[j].0, q, texts.skip(k))
}

/// The texts are the blocks' texts in order, each block's lines ones it
/// may write (see `block_text`).
pub open spec fn format_text(
    m: crate::random_test::spec::ResolvedM,
    z: crate::random_test::gen::SizesM,
    bs: Seq<FormatBlockM>,
    texts: Seq<Seq<char>>,
) -> bool
    decreases bs, 0nat,
{
    if bs.len() == 0 {
        texts.len() == 0
    } else {
        exists|k: int|
            #![trigger texts.take(k)]
            0 <= k <= texts.len() && format_text(m, z, bs.drop_last(), texts.take(k)) && block_text(
                m,
                z,
                bs.last(),
                texts.skip(k),
            )
    }
}

/// A block's lines after a text of the blocks before it extend that text.
proof fn lemma_format_step(
    m: crate::random_test::spec::ResolvedM,
    z: crate::random_test::gen::SizesM,
    vs: Seq<FormatBlockM>,
    bi: int,
    t: Seq<Seq<char>>,
    from: int,
    a: int,
    b: int,
)
    requires
        0 <= bi < vs.len(),
        0 <= from <= a <= b <= t.len(),
        format_text(m, z, vs.take(bi), t.subrange(from, a)),
        block_text(m, z, vs[bi], t.subrange(a, b)),
    ensures
        format_text(m, z, vs.take(bi + 1), t.subrange(from, b)),
{
    let s = t.subrange(from, b);
    assert(vs.take(bi + 1).drop_last() =~= vs.take(bi));
    assert(vs.take(bi + 1).last() == vs[bi]);
    assert(s.take(a - from) =~= t.subrange(from, a));
    assert(s.skip(a - from) =~= t.subrange(a, b));
}

/// One more iteration after a run of them is again a run.
proof fn lemma_iters_step(
    m: crate::random_test::spec::ResolvedM,
    z: crate::random_test::gen::SizesM,
    bs: Seq<FormatBlockM>,
    t: Seq<Seq<char>>,
    from: int,
    a: int,
    c: int,
)
    requires
        0 <= from <= a <= c <= t.len(),
        iters_text(m, z, bs, t.subrange(from, a)),
        format_text(m, z, bs, t.subrange(a, c)),
    ensures
        iters_text(m, z, bs, t.subrange(from, c)),
{
    let s = t.subrange(from, c);
    if a == c {
        assert(s =~= t.subrange(from, a));
    } else {
        assert(s.take(a - from) =~= t.subrange(from, a));
        assert(s.skip(a - from) =~= t.subrange(a, c));
    }
}

/// One more query after a run of them is again a run.
proof fn lemma_queries_step(
    m: crate::random_test::spec::ResolvedM,
    z: crate::random_test::gen::SizesM,
    qs: Seq<(Seq<char>, Seq<FormatBlockM>)>,
    t: Seq<Seq<char>>,
    from: int,
    a: int,
    c: int,
    j: int,
    q: Seq<Seq<char>>,
)
    requires
        0 <= from <= a <= c <= t.len(),
        0 <= j < qs.len(),
        queries_text(m, z, qs, t.subrange(from, a)),
        format_text(m, z, qs[j].1, q),
        query_text(qs[j].0, q, t.subrange(a, c)),
    ensures
        queries_text(m, z, qs, t.subrange(from, c)),
{
    let s = t.subrange(from, c);
    assert(s.take(a - from) =~= t.subrange(from, a));
    assert(s.skip(a - from) =~= t.subrange(a, c));
    assert(query_text(qs[j].0, q, s.skip(a - from)));
}

/// A jagged row within a narrower range is one within the wider.
proof fn lemma_jagged_wider(line: Seq<char>, lo: i64, hi: i64, lo2: i64, hi2: i64, values: Option<Seq<i64>>)
    requires
        lo <= lo2,
        hi2 <= hi,
        crate::random_test::emitter::jagged_line(line, lo2, hi2, values),
    ensures
        crate::random_test::emitter::jagged_line(line, lo, hi, values),
{
    let xs = choose|xs: Seq<i64>|
        xs.len() >= 1 && xs[0] >= 0 && xs.len() == 1 + crate::random_test::emitter::as_len_spec(xs[0]) && line
            == #[trigger] crate::random_test::emitter::spec_join_ints(xs) && forall|i: int|
            1 <= i < xs.len() ==> crate::random_test::emitter::elem_ok(#[trigger] xs[i], lo2, hi2, values);
    assert forall|i: int| 1 <= i < xs.len() implies crate::random_test::emitter::elem_ok(#[trigger] xs[i], lo, hi, values) by {
        assert(crate::random_test::emitter::elem_ok(xs[i], lo2, hi2, values));
    }
}

/// A row of allowed integers within a narrower range is a line of
/// integers within the wider.
proof fn lemma_int_line_wider(
    line: Seq<char>,
    n: nat,
    lo: i64,
    hi: i64,
    lo2: i64,
    hi2: i64,
    values: Option<Seq<i64>>,
    distinct: bool,
)
    requires
        lo <= lo2,
        hi2 <= hi,
        crate::random_test::emitter::int_line(line, n, lo2, hi2, values, distinct),
    ensures
        ints_text(line, lo, hi, values),
{
    let xs = choose|xs: Seq<i64>|
        xs.len() == n && line == #[trigger] crate::random_test::emitter::spec_join_ints(xs) && (distinct
            ==> xs.no_duplicates()) && forall|i: int|
            0 <= i < xs.len() ==> crate::random_test::emitter::elem_ok(#[trigger] xs[i], lo2, hi2, values);
    assert forall|i: int| 0 <= i < xs.len() implies crate::random_test::emitter::elem_ok(#[trigger] xs[i], lo, hi, values) by {
        assert(crate::random_test::emitter::elem_ok(xs[i], lo2, hi2, values));
    }
}

/// `input` is the lines of one assignment of every format: values that
/// keep every pair and lie in their variables' ranges (a structural size
/// is the one decided), arrays' values and strings as their constraints
/// allow, each top-level line of integer variables their values, and
/// every line, repeated blocks' included, one its block may write under
/// those ranges.
pub open spec fn case_ok(m: crate::random_test::spec::ResolvedM, input: Seq<char>) -> bool {
    exists|k: Known, z: crate::random_test::gen::SizesM, ls: Seq<Seq<char>>, cuts: Seq<int>|
        #![trigger spec_pairs_ok(m, k), segments(m, m.format, ls, k.ints, cuts, m.format.len() as int), ints_ok(m, z, k.ints)]
        k.parent is None && k.parent_arrays is None && spec_pairs_ok(m, k) && ints_ok(m, z, k.ints) && arrs_ok(
            m,
            z,
            k.arrs,
        ) && strs_ok(m, z, k.strs) && segments(m, m.format, ls, k.ints, cuts, m.format.len() as int) && cuts[0] == 0
            && cuts[m.format.len() as int] == ls.len() && format_text(m, z, m.format, ls) && input
            == crate::template::join_with(ls, "\n"@) + seq!['\n']
}

/// `input` is the text of a plain format under values that keep every
/// pair of `m` and lie in their variables' ranges (a structural size is
/// the one decided), its arrays' values as their constraints allow (for
/// the sizes decided).
pub open spec fn plain_case(m: crate::random_test::spec::ResolvedM, input: Seq<char>) -> bool {
    exists|k: Known, z: crate::random_test::gen::SizesM|
        #![trigger spec_pairs_ok(m, k), arrays_ok(m, z, k.arrs, m.format, m.format.len() as int)]
        k.parent is None && k.parent_arrays is None && spec_pairs_ok(m, k) && (forall|i: int|
            0 <= i < m.format.len() ==> line_known(k.ints, k.arrs, #[trigger] m.format[i]))
            && arrays_ok(m, z, k.arrs, m.format, m.format.len() as int)
            && ints_ok(m, z, k.ints) && arrs_ok(m, z, k.arrs)
            && input == crate::template::join_with(plain_text(k.ints, k.arrs, m.format), "\n"@) + seq!['\n']
}

/// Render `blocks` in order into `lines`. `Ok(false)` when a value could
/// not be generated (the caller resamples); `Err` when the case is
/// interrupted or too large.
#[verifier::rlimit(60)]
pub fn walk(
    blocks: &Vec<FormatBlock>,
    spec: &ResolvedSpec,
    st: &CaseStrategy,
    sizes: &StructuralSizes,
    context: &mut RenderContext,
    lines: &mut Vec<String>,
    budget: &mut Budget,
    rng: &mut rand::rngs::SmallRng,
    stop: &AtomicBool,
) -> (r: Result<bool, GenError>)
    requires
        blocks_ready(spec.model(), blocks_view(blocks@)),
    ensures
        final(budget).limit == old(budget).limit,
        grows(old(lines)@, final(lines)@),
        r matches Ok(true) ==> {
            &&& final(lines)@.len() >= old(lines)@.len() + scalar_blocks(blocks_view(blocks@))
            &&& old(budget).used <= final(budget).used
            &&& old(budget).used <= old(budget).limit ==> final(budget).used <= final(budget).limit
        },
        r matches Err(e) ==> e is Interrupted || is_oversize(e),
        // the values the walk adds lie in their variables' ranges
        ints_ok(spec.model(), sizes.model(), old(context).scalars.model()) ==> ints_ok(
            spec.model(),
            sizes.model(),
            final(context).scalars.model(),
        ),
        arrs_ok(spec.model(), sizes.model(), old(context).arrays.model()) ==> arrs_ok(
            spec.model(),
            sizes.model(),
            final(context).arrays.model(),
        ),
        strs_ok(spec.model(), sizes.model(), old(context).strings.model()) ==> strs_ok(
            spec.model(),
            sizes.model(),
            final(context).strings.model(),
        ),
        // known values stay as they were
        crate::random_test::emitter::extends(old(context).scalars.model(), final(context).scalars.model()),
        // each line of integer variables is one line: their values as the
        // context holds them after, in decimal
        r matches Ok(true) ==> exists|cuts: Seq<int>|
            #![trigger segments(spec.model(), blocks_view(blocks@), crate::text::sv(final(lines)@), final(context).scalars.model(), cuts, blocks_view(blocks@).len() as int)]
            segments(
                spec.model(),
                blocks_view(blocks@),
                crate::text::sv(final(lines)@),
                final(context).scalars.model(),
                cuts,
                blocks_view(blocks@).len() as int,
            ) && cuts[0] == old(lines)@.len() && cuts[blocks_view(blocks@).len() as int] == final(lines)@.len(),
        // only a draw can make the walk come out empty-handed
        walk_sure(spec.model(), sizes.model(), *st, blocks_view(blocks@)) ==> !(r matches Ok(false)),
        // a plain format writes one line per block: the values of its
        // variables, or of its array, as the context holds them after
        r matches Ok(true) && plain_format(spec.model(), blocks_view(blocks@)) && fresh_arrays(
            old(context).arrays.model(),
            blocks_view(blocks@),
            0,
        ) ==> ({
            let vs = blocks_view(blocks@);
            &&& final(lines)@.len() == old(lines)@.len() + vs.len()
            &&& lines_plain(
                final(lines)@,
                old(lines)@.len() as int,
                final(context).scalars.model(),
                final(context).arrays.model(),
                vs,
                vs.len() as int,
            )
            &&& arrays_ok(spec.model(), sizes.model(), final(context).arrays.model(), vs, vs.len() as int)
        }),
        // every format: the lines added are a text of the blocks, their
        // values within their variables' ranges
        r matches Ok(true) && ints_ok(spec.model(), sizes.model(), old(context).scalars.model()) ==> format_text(
            spec.model(),
            sizes.model(),
            blocks_view(blocks@),
            crate::text::sv(final(lines)@).subrange(old(lines)@.len() as int, final(lines)@.len() as int),
        ),
    decreases blocks, 1int,
{
    let ghost bs = blocks@;
    let ghost vs = blocks_view(bs);
    proof {
        crate::parse::types::lemma_blocks_view_len(bs);
    }
    assert(vs.take(0) =~= Seq::<FormatBlockM>::empty());
    let ghost pf = plain_format(spec.model(), vs) && fresh_arrays(context.arrays.model(), vs, 0);
    let ghost mut cuts: Seq<int> = seq![lines@.len() as int];
    let mut bi: usize = 0;
    while bi < blocks.len()
        invariant
            bs == blocks@,
            vs == blocks_view(bs),
            vs.len() == bs.len(),
            bi <= bs.len(),
            blocks_ready(spec.model(), blocks_view(bs)),
            budget.limit == old(budget).limit,
            grows(old(lines)@, lines@),
            lines@.len() >= old(lines)@.len() + scalar_blocks(vs.take(bi as int)),
            old(budget).used <= budget.used,
            old(budget).used <= old(budget).limit ==> budget.used <= budget.limit,
            walk_sure(spec.model(), sizes.model(), *st, vs) ==> forall|i: int| 0 <= i < vs.len() ==> (#[trigger] vs[i] matches FormatBlockM::Scalars(vars) && forall|j: int|
                0 <= j < vars.len() ==> scalar_sure(spec.model(), sizes.model(), *st, #[trigger] vars[j])),
            pf == (plain_format(spec.model(), vs) && fresh_arrays(old(context).arrays.model(), vs, 0)),
            pf ==> lines@.len() == old(lines)@.len() + bi,
            pf ==> lines_plain(lines@, old(lines)@.len() as int, context.scalars.model(), context.arrays.model(), vs, bi as int),
            pf ==> fresh_arrays(context.arrays.model(), vs, bi as int),
            pf ==> arrays_ok(spec.model(), sizes.model(), context.arrays.model(), vs, bi as int),
            crate::random_test::emitter::extends(old(context).scalars.model(), context.scalars.model()),
            segments(spec.model(), vs, crate::text::sv(lines@), context.scalars.model(), cuts, bi as int),
            cuts[0] == old(lines)@.len(),
            cuts[bi as int] == lines@.len(),
            ints_ok(spec.model(), sizes.model(), old(context).scalars.model()) ==> ints_ok(spec.model(), sizes.model(), context.scalars.model()),
            arrs_ok(spec.model(), sizes.model(), old(context).arrays.model()) ==> arrs_ok(spec.model(), sizes.model(), context.arrays.model()),
            strs_ok(spec.model(), sizes.model(), old(context).strings.model()) ==> strs_ok(spec.model(), sizes.model(), context.strings.model()),
            ints_ok(spec.model(), sizes.model(), old(context).scalars.model()) ==> format_text(
                spec.model(),
                sizes.model(),
                vs.take(bi as int),
                crate::text::sv(lines@).subrange(old(lines)@.len() as int, lines@.len() as int),
            ),
        decreases bs.len() - bi,
    {
        proof {
            crate::parse::types::lemma_blocks_view_index(bs, bi as int);
            assert(vs.take(bi + 1).drop_last() =~= vs.take(bi as int));
            assert(vs.take(bi + 1).last() == block_view(bs[bi as int]));
        }
        if signalled(stop) {
            return Err(GenError::Interrupted);
        }
        proof {
            crate::parse::types::lemma_blocks_view_index(bs, bi as int);
            assert(block_ready(spec.model(), block_view(bs[bi as int])));
            assert(decreases_to!(blocks => blocks@));
            assert(decreases_to!(blocks@ => blocks@[bi as int]));
        }
        let block = &blocks[bi];
        let ghost l_start = lines@;
        let ghost i_start = context.scalars.model();
        proof {
            assert(vs[bi as int] == block_view(bs[bi as int]));
            if pf {
                assert(plain_block(spec.model(), vs[bi as int]));
            }
        }
        match block {
            FormatBlock::Scalars(b) => {
                proof {
                    if walk_sure(spec.model(), sizes.model(), *st, vs) {
                        assert(vs[bi as int] == block_view(bs[bi as int]));
                        assert(block_view(*block) == FormatBlockM::Scalars(crate::text::sv(b.vars@)));
                        assert forall|j: int| 0 <= j < b.vars@.len() implies scalar_sure(
                            spec.model(),
                            sizes.model(),
                            *st,
                            #[trigger] b.vars@[j]@,
                        ) by {
                            assert(crate::text::sv(b.vars@)[j] == b.vars@[j]@);
                        }
                    }
                }
                let ghost svars = crate::text::sv(b.vars@);
                let ghost sf = pf;
                let ghost ib = int_scalars(spec.model(), vs[bi as int]);
                let ghost ab = context.arrays.model();
                proof {
                    assert(vs[bi as int] == block_view(bs[bi as int]));
                    assert(block_view(*block) == FormatBlockM::Scalars(svars));
                    assert(line_vars(vs[bi as int]) == svars);
                    assert(svars.len() == b.vars@.len());
                    if sf {
                        assert(plain_block(spec.model(), vs[bi as int]));
                    }
                    if ib {
                        assert forall|j: int| 0 <= j < b.vars@.len() implies (crate::maps::m_get(
                            spec.model().vars,
                            #[trigger] b.vars@[j]@,
                        ) matches Some(info) && info.ty != VarType::Chars) by {
                            assert(svars[j] == b.vars@[j]@);
                            assert(line_vars(vs[bi as int])[j] == b.vars@[j]@);
                        }
                    }
                }
                let mut parts: Vec<String> = Vec::new();
                let ghost lb = lines@;
                let ghost ub = budget.used;
                let mut vi: usize = 0;
                while vi < b.vars.len()
                    invariant
                        svars == crate::text::sv(b.vars@),
                        svars.len() == b.vars@.len(),
                        line_vars(vs[bi as int]) == svars,
                        bi < vs.len(),
                        sf == pf,
                        pf == (plain_format(spec.model(), vs) && fresh_arrays(old(context).arrays.model(), vs, 0)),
                        context.arrays.model() == ab,
                        sf ==> fresh_arrays(ab, vs, bi as int),
                        sf ==> arrays_ok(spec.model(), sizes.model(), ab, vs, bi as int),
                        ints_ok(spec.model(), sizes.model(), old(context).scalars.model()) ==> ints_ok(spec.model(), sizes.model(), context.scalars.model()),
                        arrs_ok(spec.model(), sizes.model(), old(context).arrays.model()) ==> arrs_ok(spec.model(), sizes.model(), context.arrays.model()),
                        strs_ok(spec.model(), sizes.model(), old(context).strings.model()) ==> strs_ok(spec.model(), sizes.model(), context.strings.model()),
                        vi <= b.vars@.len(),
                        ib == int_scalars(spec.model(), vs[bi as int]),
                        sf ==> ib,
                        crate::random_test::emitter::extends(i_start, context.scalars.model()),
                        crate::random_test::emitter::extends(old(context).scalars.model(), context.scalars.model()),
                        ib ==> forall|j: int| 0 <= j < b.vars@.len() ==> (crate::maps::m_get(
                            spec.model().vars,
                            #[trigger] b.vars@[j]@,
                        ) matches Some(info) && info.ty != VarType::Chars),
                        ib ==> parts@.len() == vi,
                        ints_ok(spec.model(), sizes.model(), old(context).scalars.model()) ==> parts@.len() == vi && forall|j: int|
                            0 <= j < vi ==> part_ok(spec.model(), sizes.model(), b.vars@[j]@, #[trigger] parts@[j]@),
                        ib ==> forall|j: int| 0 <= j < vi ==> crate::maps::m_has(context.scalars.model(), #[trigger] b.vars@[j]@)
                            && parts@[j]@ == crate::text::spec_int_chars(crate::maps::m_get(context.scalars.model(), b.vars@[j]@)->0 as int),
                        sf ==> lines@.len() == old(lines)@.len() + bi,
                        sf ==> lines_plain(lines@, old(lines)@.len() as int, context.scalars.model(), ab, vs, bi as int),
                        block_ready(spec.model(), block_view(*block)),
                        *block == FormatBlock::Scalars(*b),
                        budget.limit == old(budget).limit,
                        grows(old(lines)@, lines@),
                        lines@ == lb,
                        ub <= budget.used,
                        ub <= budget.limit ==> budget.used <= budget.limit,
                        walk_sure(spec.model(), sizes.model(), *st, vs) ==> forall|j: int|
                            0 <= j < b.vars@.len() ==> scalar_sure(spec.model(), sizes.model(), *st, #[trigger] b.vars@[j]@),
                        vs == blocks_view(blocks@),
                    decreases b.vars.len() - vi,
                {
                    let v = &b.vars[vi];
                    assert(block_view(*block) == FormatBlockM::Scalars(crate::text::sv(b.vars@)));
                    assert(crate::text::sv(b.vars@)[vi as int] == v@);
                    assert(crate::text::sv(b.vars@).len() == b.vars@.len());
                    assert(block_ready(spec.model(), FormatBlockM::Scalars(crate::text::sv(b.vars@))));
                    assert(crate::random_test::emitter::value_ok(spec.model(), crate::text::sv(b.vars@)[vi as int]));
                    assert(crate::random_test::emitter::value_ok(spec.model(), v@));
                    proof {
                        if walk_sure(spec.model(), sizes.model(), *st, vs) {
                            assert(b.vars@[vi as int]@ == v@);
                            assert(scalar_sure(spec.model(), sizes.model(), *st, v@));
                        }
                    }
                    match context.scalars.get(v.as_str()) {
                        Some(val) => {
                            let x = *val;
                            match budget.add(1) {
                                Ok(()) => {},
                                Err(e) => return Err(e),
                            }
                            let ghost p0 = parts@;
                            parts.push(int_string(x));
                            proof {
                                if ints_ok(spec.model(), sizes.model(), old(context).scalars.model()) {
                                    let c = context.scalars.model();
                                    assert(crate::maps::m_has(c, v@));
                                    assert(crate::maps::m_get(c, v@) == Some(x));
                                    assert(parts@[vi as int]@ == crate::text::spec_int_chars(x as int));
                                    assert(part_ok(spec.model(), sizes.model(), v@, parts@[vi as int]@));
                                    assert forall|j: int| 0 <= j < vi + 1 implies part_ok(
                                        spec.model(),
                                        sizes.model(),
                                        b.vars@[j]@,
                                        #[trigger] parts@[j]@,
                                    ) by {
                                        if j < vi {
                                            assert(parts@[j] == p0[j]);
                                        } else {
                                            assert(b.vars@[j]@ == v@);
                                        }
                                    }
                                }
                                if ib {
                                    assert forall|j: int| 0 <= j < vi + 1 implies crate::maps::m_has(
                                        context.scalars.model(),
                                        #[trigger] b.vars@[j]@,
                                    ) && parts@[j]@ == crate::text::spec_int_chars(
                                        crate::maps::m_get(context.scalars.model(), b.vars@[j]@)->0 as int,
                                    ) by {
                                        if j < vi {
                                            assert(parts@[j] == p0[j]);
                                        } else {
                                            assert(b.vars@[j]@ == v@);
                                        }
                                    }
                                }
                            }
                            vi += 1;
                            continue;
                        },
                        None => {},
                    }
                    let info = match spec.vars.get(v.as_str()) {
                        Some(i) => i,
                        None => return Ok(false),
                    };
                    let is_chars = match info.ty {
                        VarType::Chars => true,
                        _ => false,
                    };
                    proof {
                        assert(crate::maps::m_get(spec.model().vars, v@) == Some(info.deep_view()));
                        assert(info.deep_view().ty == info.ty);
                        assert(is_chars == (info.deep_view().ty == VarType::Chars));
                    }
                    proof {
                        if ib {
                            assert(b.vars@[vi as int]@ == v@);
                            assert(!is_chars);
                        }
                    }
                    if is_chars {
                        let ghost cg = context.scalars.model();
                        let gres = gen_chars(info, spec, st, sizes, &mut context.scalars, budget, rng, stop);
                        proof {
                            crate::random_test::emitter::lemma_extends_trans(old(context).scalars.model(), cg, context.scalars.model());
                        }
                        let val = match gres {
                            Ok(Some(s)) => s,
                            Ok(None) => return Ok(false),
                            Err(e) => return Err(e),
                        };
                        proof {
                            crate::random_test::emitter::lemma_extends_trans(i_start, cg, context.scalars.model());
                            crate::random_test::emitter::lemma_extends_trans(old(context).scalars.model(), cg, context.scalars.model());
                        }
                        proof {
                            let c0 = context.strings.model();
                            if strs_ok(spec.model(), sizes.model(), c0) {
                                crate::random_test::emitter::lemma_strs_insert(spec.model(), sizes.model(), c0, v@, val@);
                            }
                        }
                        context.strings.insert(v.clone(), val.clone());
                        let ghost p0 = parts@;
                        let ghost sval = val@;
                        parts.push(val);
                        proof {
                            if ints_ok(spec.model(), sizes.model(), old(context).scalars.model()) {
                                let mi = crate::maps::m_get(spec.model().vars, v@)->0;
                                assert(mi == info.deep_view());
                                assert(mi.charset == Some(info.charset->0@));
                                assert(parts@[vi as int]@ == sval);
                                assert(crate::random_test::emitter::over_charset(sval, mi.charset->0));
                                assert(part_ok(spec.model(), sizes.model(), v@, parts@[vi as int]@));
                                assert forall|j: int| 0 <= j < vi + 1 implies part_ok(
                                    spec.model(),
                                    sizes.model(),
                                    b.vars@[j]@,
                                    #[trigger] parts@[j]@,
                                ) by {
                                    if j < vi {
                                        assert(parts@[j] == p0[j]);
                                    } else {
                                        assert(b.vars@[j]@ == v@);
                                    }
                                }
                            }
                        }
                    } else {
                        let val = match constrained_scalar_value(
                            spec,
                            v.as_str(),
                            info,
                            sizes,
                            st,
                            &context.scalars,
                            &context.arrays,
                            rng,
                            stop,
                        ) {
                            Some(x) => x,
                            None => {
                                proof {
                                    if walk_sure(spec.model(), sizes.model(), *st, vs) {
                                        crate::random_test::emitter::lemma_unpaired_free(
                                            v@,
                                            crate::random_test::gen::spec_effective_lo_hi(
                                                v@,
                                                info.deep_view(),
                                                sizes.model(),
                                                spec.model(),
                                            ),
                                            spec.model(),
                                            context.scalars.model(),
                                            context.arrays.model(),
                                        );
                                    }
                                }
                                return Ok(false);
                            },
                        };
                        let ghost c1 = context.scalars.model();
                        proof {
                            if ints_ok(spec.model(), sizes.model(), c1) {
                                assert(crate::random_test::emitter::int_fits(spec.model(), sizes.model(), v@, val));
                                crate::random_test::emitter::lemma_ints_insert(spec.model(), sizes.model(), c1, v@, val);
                            }
                        }
                        context.scalars.insert(v.clone(), val);
                        proof {
                            lemma_insert_extends(c1, v@, val);
                            crate::random_test::emitter::lemma_extends_trans(i_start, c1, context.scalars.model());
                            crate::random_test::emitter::lemma_extends_trans(old(context).scalars.model(), c1, context.scalars.model());
                            if sf {
                                lemma_plain_stable(c1, ab, context.scalars.model(), ab, lines@, old(lines)@.len() as int, vs, bi as int);
                            }
                        }
                        match budget.add(1) {
                            Ok(()) => {},
                            Err(e) => return Err(e),
                        }
                        let ghost p0 = parts@;
                        parts.push(int_string(val));
                        proof {
                            if ints_ok(spec.model(), sizes.model(), old(context).scalars.model()) {
                                assert(crate::random_test::emitter::int_fits(spec.model(), sizes.model(), v@, val));
                                assert(parts@[vi as int]@ == crate::text::spec_int_chars(val as int));
                                assert(part_ok(spec.model(), sizes.model(), v@, parts@[vi as int]@));
                                assert forall|j: int| 0 <= j < vi + 1 implies part_ok(
                                    spec.model(),
                                    sizes.model(),
                                    b.vars@[j]@,
                                    #[trigger] parts@[j]@,
                                ) by {
                                    if j < vi {
                                        assert(parts@[j] == p0[j]);
                                    } else {
                                        assert(b.vars@[j]@ == v@);
                                    }
                                }
                            }
                            if ib {
                                let c2 = context.scalars.model();
                                assert forall|j: int| 0 <= j < vi + 1 implies crate::maps::m_has(
                                    c2,
                                    #[trigger] b.vars@[j]@,
                                ) && parts@[j]@ == crate::text::spec_int_chars(crate::maps::m_get(c2, b.vars@[j]@)->0 as int) by {
                                    crate::maps::lemma_m_insert_get(c1, v@, val, b.vars@[j]@);
                                    if j < vi {
                                        assert(parts@[j] == p0[j]);
                                        assert(crate::maps::m_has(c1, b.vars@[j]@));
                                    } else {
                                        assert(b.vars@[j]@ == v@);
                                    }
                                }
                            }
                        }
                    }
                    vi += 1;
                }
                let line = join_words(&parts);
                proof {
                    lemma_grows_push(old(lines)@, lines@, line);
                    if ib {
                        let c = context.scalars.model();
                        assert(crate::text::sv(parts@) =~= svars.map_values(
                            |w: Seq<char>| crate::text::spec_int_chars(crate::maps::m_get(c, w)->0 as int),
                        )) by {
                            assert forall|j: int| 0 <= j < svars.len() implies crate::text::sv(parts@)[j]
                                == crate::text::spec_int_chars(crate::maps::m_get(c, #[trigger] svars[j])->0 as int) by {
                                assert(svars[j] == b.vars@[j]@);
                            }
                        }
                        assert(line@ == scalar_line(c, svars));
                        assert forall|j: int| 0 <= j < svars.len() implies crate::maps::m_has(c, #[trigger] svars[j]) by {
                            assert(svars[j] == b.vars@[j]@);
                        }
                    }
                }
                let ghost l0 = lines@;
                proof {
                    assert(grows(l_start, l0));
                    lemma_grows_push(l_start, l0, line);
                }
                lines.push(line);
                proof {
                    if ints_ok(spec.model(), sizes.model(), old(context).scalars.model()) {
                        let seg = crate::text::sv(lines@).subrange(l_start.len() as int, lines@.len() as int);
                        let ps = crate::text::sv(parts@);
                        assert(lines@ == l_start.push(line));
                        assert(seg.len() == 1);
                        assert(seg[0] == line@);
                        assert(line@ == crate::template::join_with(ps, " "@));
                        assert forall|j: int| 0 <= j < svars.len() implies part_ok(
                            spec.model(),
                            sizes.model(),
                            svars[j],
                            #[trigger] ps[j],
                        ) by {
                            assert(svars[j] == b.vars@[j]@);
                            assert(ps[j] == parts@[j]@);
                        }
                        assert(vs[bi as int] == FormatBlockM::Scalars(svars));
                        assert(block_text(spec.model(), sizes.model(), vs[bi as int], seg));
                    }
                    if ib {
                        assert(lines@ == l_start.push(line));
                        assert(line@ == scalar_line(context.scalars.model(), svars));
                    }
                    if sf {
                        let c = context.scalars.model();
                        assert forall|i: int| 0 <= i < bi + 1 implies line_known(c, ab, #[trigger] vs[i]) && lines@[old(lines)@.len() + i]@
                            == plain_line(c, ab, vs[i]) by {
                            if i < bi {
                                assert(lines@[old(lines)@.len() + i] == l0[old(lines)@.len() + i]);
                            }
                        }
                        assert(fresh_arrays(ab, vs, bi + 1));
                        assert(arrays_ok(spec.model(), sizes.model(), ab, vs, bi + 1)) by {
                            assert(array_base(vs[bi as int]) is None);
                        }
                    }
                }
            },
            FormatBlock::Array(a) => {
                let is_chars = match spec.vars.get(a.base.as_str()) {
                    Some(i) => match i.ty {
                        VarType::Chars => true,
                        _ => false,
                    },
                    None => false,
                };
                let ghost l0 = lines@;
                let ghost i0 = context.scalars.model();
                let ghost a0 = context.arrays.model();
                proof {
                    if pf {
                        assert(vs[bi as int] == FormatBlockM::Array {
                            base: a.base@,
                            len: crate::regex_ops::opt_view(a.len),
                            height: crate::regex_ops::opt_view(a.height),
                            count: crate::regex_ops::opt_view(a.count),
                            jagged: a.jagged,
                        });
                        assert(!a.jagged && a.count is None && a.height is None);
                        assert(!is_chars);
                    }
                }
                let res = if a.jagged {
                    render_jagged(
                        a,
                        spec,
                        st,
                        sizes,
                        &mut context.scalars,
                        &mut context.arrays,
                        lines,
                        budget,
                        rng,
                        stop,
                    )
                } else if is_chars {
                    render_chars_array(a, spec, st, sizes, &mut context.scalars, lines, budget, rng, stop)
                } else {
                    render_int_array(
                        a,
                        spec,
                        st,
                        sizes,
                        &mut context.scalars,
                        &mut context.arrays,
                        lines,
                        budget,
                        rng,
                        stop,
                    )
                };
                proof {
                    lemma_grows_trans(old(lines)@, l0, lines@);
                    crate::random_test::emitter::lemma_extends_trans(old(context).scalars.model(), i_start, context.scalars.model());
                }
                match res {
                    Ok(true) => {
                        proof {
                            if ints_ok(spec.model(), sizes.model(), old(context).scalars.model()) {
                                let seg = crate::text::sv(lines@).subrange(l0.len() as int, lines@.len() as int);
                                let base = a.base@;
                                let info = crate::maps::m_get(spec.model().vars, base)->0;
                                let e = crate::random_test::gen::spec_effective_lo_hi(base, info, sizes.model(), spec.model());
                                assert(bs[bi as int] == FormatBlock::Array(*a));
                                assert(vs[bi as int] == block_view(bs[bi as int]));
                                assert(vs[bi as int] == FormatBlockM::Array {
                                    base: a.base@,
                                    len: crate::regex_ops::opt_view(a.len),
                                    height: crate::regex_ops::opt_view(a.height),
                                    count: crate::regex_ops::opt_view(a.count),
                                    jagged: a.jagged,
                                });
                                assert(is_chars == (crate::maps::m_get(spec.model().vars, base) matches Some(i) && i.ty
                                    == VarType::Chars));
                                if a.jagged {
                                    let nb = crate::random_test::relation::narrow_by_scalars(
                                        base,
                                        e,
                                        spec.model().ordering,
                                        context.scalars.model(),
                                    );
                                    crate::random_test::relation::lemma_narrow_by_scalars_shrinks(
                                        base,
                                        e,
                                        spec.model().ordering,
                                        context.scalars.model(),
                                    );
                                    assert forall|k: int| 0 <= k < seg.len() implies crate::random_test::emitter::jagged_line(
                                        #[trigger] seg[k],
                                        e.0,
                                        e.1,
                                        info.values,
                                    ) by {
                                        assert(seg[k] == lines@[l0.len() + k]@);
                                        lemma_jagged_wider(seg[k], e.0, e.1, nb.0, nb.1, info.values);
                                    }
                                } else if is_chars {
                                    assert forall|k: int| 0 <= k < seg.len() implies crate::random_test::emitter::over_charset(
                                        #[trigger] seg[k],
                                        info.charset->0,
                                    ) && (info.len matches Some(crate::parse::types::BoundReprM::Lit(n)) ==> seg[k].len()
                                        == crate::random_test::emitter::as_len_spec(n)) by {
                                        assert(seg[k] == lines@[l0.len() + k]@);
                                    }
                                } else {
                                    let nb = crate::random_test::relation::narrow_by_scalars(base, e, spec.model().ordering, i0);
                                    crate::random_test::relation::lemma_narrow_by_scalars_shrinks(base, e, spec.model().ordering, i0);
                                    assert forall|k: int| 0 <= k < seg.len() implies ints_text(
                                        #[trigger] seg[k],
                                        e.0,
                                        e.1,
                                        info.values,
                                    ) by {
                                        assert(seg[k] == lines@[l0.len() + k]@);
                                        let c = context.scalars.model();
                                        assert(crate::random_test::emitter::int_line(
                                            lines@[l0.len() + k]@,
                                            crate::random_test::emitter::opt_size_in(c, a.len, 0),
                                            nb.0,
                                            nb.1,
                                            info.values,
                                            info.all_distinct,
                                        ));
                                        lemma_int_line_wider(
                                            seg[k],
                                            crate::random_test::emitter::opt_size_in(c, a.len, 0),
                                            e.0,
                                            e.1,
                                            nb.0,
                                            nb.1,
                                            info.values,
                                            info.all_distinct,
                                        );
                                    }
                                }
                                assert(block_text(spec.model(), sizes.model(), vs[bi as int], seg));
                            }
                            if pf {
                                let from = old(lines)@.len() as int;
                                let i1 = context.scalars.model();
                                let a1 = context.arrays.model();
                                let base = a.base@;
                                assert(array_base(vs[bi as int]) == Some(base));
                                assert(!crate::maps::m_has(a0, base));
                                let e = choose|e: Seq<i64>|
                                    #![trigger crate::random_test::emitter::spec_join_ints(e)]
                                    lines@.len() == l0.len() + 1 && lines@[l0.len() as int]@
                                        == crate::random_test::emitter::spec_join_ints(e)
                                        && crate::random_test::emitter::array_values_ok(spec.model(), sizes.model(), base, e)
                                        && a1 == crate::maps::m_insert(
                                        a0,
                                        base,
                                        match crate::maps::m_get(a0, base) {
                                            Some(xs) => xs + e,
                                            None => e,
                                        },
                                    );
                                assert(a1 == crate::maps::m_insert(a0, base, e));
                                lemma_insert_extends(a0, base, e);
                                lemma_plain_stable(i0, a0, i1, a1, l0, from, vs, bi as int);
                                assert forall|i: int| 0 <= i < bi + 1 implies line_known(i1, a1, #[trigger] vs[i])
                                    && lines@[from + i]@ == plain_line(i1, a1, vs[i]) by {
                                    if i < bi {
                                        assert(lines@[from + i] == l0[from + i]);
                                    }
                                }
                                assert forall|i: int| bi + 1 <= i < vs.len() implies (#[trigger] array_base(vs[i]) matches Some(
                                    x,
                                ) ==> !crate::maps::m_has(a1, x)) by {
                                    if array_base(vs[i]) is Some {
                                        assert(array_base(vs[i]) != array_base(vs[bi as int]));
                                    }
                                }
                                assert forall|i: int| 0 <= i < bi + 1 implies (#[trigger] array_base(vs[i]) matches Some(x)
                                    ==> crate::random_test::emitter::array_values_ok(
                                    spec.model(),
                                    sizes.model(),
                                    x,
                                    crate::maps::m_get(a1, x)->0,
                                )) by {
                                    if i < bi {
                                        if array_base(vs[i]) is Some {
                                            let x = array_base(vs[i])->0;
                                            assert(line_known(i0, a0, vs[i]));
                                            assert(crate::maps::m_has(a0, x));
                                            assert(crate::maps::m_get(a1, x) == crate::maps::m_get(a0, x));
                                        }
                                    } else {
                                        assert(crate::maps::m_get(a1, base) == Some(e));
                                    }
                                }
                            }
                        }
                    },
                    Ok(false) => return Ok(false),
                    Err(e) => return Err(e),
                }
            },
            FormatBlock::Rows(b) => {
                proof {
                    assert(bs[bi as int] == FormatBlock::Rows(*b));
                    assert(block_ready(spec.model(), block_view(FormatBlock::Rows(*b))));
                    assert(block_view(FormatBlock::Rows(*b)) == FormatBlockM::Rows { vars: crate::text::sv(b.vars@), len: b.len@ });
                    assert forall|i: int| 0 <= i < b.vars@.len() implies crate::random_test::emitter::value_ok(
                        spec.model(),
                        #[trigger] b.vars@[i]@,
                    ) by {
                        assert(crate::text::sv(b.vars@)[i] == b.vars@[i]@);
                    }
                }
                let ghost l0 = lines@;
                let res = render_rows(
                    b,
                    spec,
                    st,
                    sizes,
                    &mut context.scalars,
                    &mut context.arrays,
                    lines,
                    budget,
                    rng,
                    stop,
                );
                proof {
                    lemma_grows_trans(old(lines)@, l0, lines@);
                    crate::random_test::emitter::lemma_extends_trans(old(context).scalars.model(), i_start, context.scalars.model());
                }
                match res {
                    Ok(true) => {
                        proof {
                            let seg = crate::text::sv(lines@).subrange(l0.len() as int, lines@.len() as int);
                            assert(vs[bi as int] == FormatBlockM::Rows { vars: crate::text::sv(b.vars@), len: b.len@ });
                            assert forall|k: int| 0 <= k < seg.len() implies crate::random_test::emitter::row_fits(
                                spec.model(),
                                sizes.model(),
                                crate::text::sv(b.vars@),
                                #[trigger] seg[k],
                            ) by {
                                assert(seg[k] == lines@[l0.len() + k]@);
                            }
                            assert(block_text(spec.model(), sizes.model(), vs[bi as int], seg));
                        }
                    },
                    Ok(false) => return Ok(false),
                    Err(e) => return Err(e),
                }
            },
            FormatBlock::TestCases(b) => {
                let tres = resolve_count(b.count.as_str(), spec, sizes, st, &mut context.scalars, rng, stop);
                proof {
                    crate::random_test::emitter::lemma_extends_trans(old(context).scalars.model(), i_start, context.scalars.model());
                }
                let t = match tres {
                    Some(v) => v,
                    None => return Ok(false),
                };
                proof {
                    crate::random_test::emitter::lemma_extends_trans(old(context).scalars.model(), i_start, context.scalars.model());
                }
                let checkpoint = context.checkpoint();
                proof {
                    assert forall|k: Seq<char>| #[trigger] crate::maps::m_has(context.scalars.model(), k) implies crate::maps::m_has(
                        checkpoint.scalar_names.map.model(),
                        k,
                    ) by {
                        crate::random_test::context::lemma_unit_keys_has(context.scalars.model(), k);
                    }
                }
                proof {
                    assert(bs[bi as int] == FormatBlock::TestCases(*b));
                    assert(decreases_to!(blocks@[bi as int] => (blocks@[bi as int])->TestCases_0));
                    assert(decreases_to!(*b => b.format));
                    assert(decreases_to!(blocks => b.format));
                    assert(block_view(FormatBlock::TestCases(*b)) == FormatBlockM::TestCases {
                        count: b.count@,
                        format: blocks_view(b.format@),
                    });
                    assert(blocks_ready(spec.model(), blocks_view(b.format@)));
                }
                let ghost lt = lines@.len();
                let ghost ut = budget.used;
                proof {
                    if walk_sure(spec.model(), sizes.model(), *st, vs) {
                        assert(vs[bi as int] == block_view(bs[bi as int]));
                    }
                }
                let mut i: i64 = 0;
                while i < t
                    invariant
                        !walk_sure(spec.model(), sizes.model(), *st, vs),
                        vs == blocks_view(blocks@),
                        !pf,
                        blocks_ready(spec.model(), blocks_view(b.format@)),
                        crate::random_test::emitter::extends(i_start, context.scalars.model()),
                        grows(l_start, lines@),
                        crate::random_test::emitter::extends(old(context).scalars.model(), context.scalars.model()),
                        forall|k: Seq<char>| #[trigger] crate::maps::m_has(context.scalars.model(), k) ==> crate::maps::m_has(checkpoint.scalar_names.map.model(), k),
                        ints_ok(spec.model(), sizes.model(), old(context).scalars.model()) ==> ints_ok(spec.model(), sizes.model(), context.scalars.model()),
                        arrs_ok(spec.model(), sizes.model(), old(context).arrays.model()) ==> arrs_ok(spec.model(), sizes.model(), context.arrays.model()),
                        strs_ok(spec.model(), sizes.model(), old(context).strings.model()) ==> strs_ok(spec.model(), sizes.model(), context.strings.model()),
                        decreases_to!(blocks => b.format),
                        lt == l_start.len(),
                        ints_ok(spec.model(), sizes.model(), old(context).scalars.model()) ==> iters_text(
                            spec.model(),
                            sizes.model(),
                            blocks_view(b.format@),
                            crate::text::sv(lines@).subrange(lt as int, lines@.len() as int),
                        ),
                        budget.limit == old(budget).limit,
                        grows(old(lines)@, lines@),
                        lines@.len() >= lt,
                        ut <= budget.used,
                        ut <= budget.limit ==> budget.used <= budget.limit,
                    decreases t - i,
                {
                    if i % 1024 == 0 && signalled(stop) {
                        return Err(GenError::Interrupted);
                    }
                    let ghost l0 = lines@;
                    let ghost cur = context.scalars.model();
                    let rres = run_iteration(
                        &b.format,
                        None,
                        spec,
                        st,
                        sizes,
                        context,
                        &checkpoint,
                        lines,
                        budget,
                        rng,
                        stop,
                    );
                    proof {
                        crate::random_test::emitter::lemma_extends_trans(old(context).scalars.model(), cur, context.scalars.model());
                        crate::random_test::emitter::lemma_extends_trans(i_start, cur, context.scalars.model());
                    }
                    let ok = match rres {
                        Ok(ok) => ok,
                        Err(e) => {
                            proof {
                                lemma_grows_trans(old(lines)@, l0, lines@);
                            }
                            return Err(e);
                        },
                    };
                    proof {
                        lemma_grows_trans(old(lines)@, l0, lines@);
                        lemma_grows_trans(l_start, l0, lines@);
                        if ok && ints_ok(spec.model(), sizes.model(), old(context).scalars.model()) {
                            let t = crate::text::sv(lines@);
                            assert(t.subrange(lt as int, l0.len() as int) =~= crate::text::sv(l0).subrange(
                                lt as int,
                                l0.len() as int,
                            ));
                            lemma_iters_step(
                                spec.model(),
                                sizes.model(),
                                blocks_view(b.format@),
                                t,
                                lt as int,
                                l0.len() as int,
                                lines@.len() as int,
                            );
                        }
                    }
                    if !ok {
                        return Ok(false);
                    }
                    i += 1;
                }
                proof {
                    if ints_ok(spec.model(), sizes.model(), old(context).scalars.model()) {
                        let seg = crate::text::sv(lines@).subrange(l_start.len() as int, lines@.len() as int);
                        assert(bs[bi as int] == FormatBlock::TestCases(*b));
                        assert(vs[bi as int] == block_view(bs[bi as int]));
                        assert(vs[bi as int] == FormatBlockM::TestCases { count: b.count@, format: blocks_view(b.format@) });
                        assert(iters_text(spec.model(), sizes.model(), blocks_view(b.format@), seg));
                        assert(block_text(spec.model(), sizes.model(), vs[bi as int], seg));
                    }
                }
            },
            FormatBlock::Queries(b) => {
                let qres = resolve_count(b.count.as_str(), spec, sizes, st, &mut context.scalars, rng, stop);
                proof {
                    crate::random_test::emitter::lemma_extends_trans(old(context).scalars.model(), i_start, context.scalars.model());
                }
                let q = match qres {
                    Some(v) => v,
                    None => return Ok(false),
                };
                proof {
                    crate::random_test::emitter::lemma_extends_trans(old(context).scalars.model(), i_start, context.scalars.model());
                }
                if b.types.len() > 0 {
                    let checkpoint = context.checkpoint();
                    proof {
                        assert forall|k: Seq<char>| #[trigger] crate::maps::m_has(context.scalars.model(), k) implies crate::maps::m_has(
                            checkpoint.scalar_names.map.model(),
                            k,
                        ) by {
                            crate::random_test::context::lemma_unit_keys_has(context.scalars.model(), k);
                        }
                    }
                    let ghost qs = b.types@;
                    proof {
                        crate::parse::types::lemma_branches_view_len(qs);
                        assert(bs[bi as int] == FormatBlock::Queries(*b));
                        assert(decreases_to!(blocks@[bi as int] => (blocks@[bi as int])->Queries_0));
                        assert(decreases_to!(*b => b.types));
                        assert(decreases_to!(b.types => b.types@));
                        assert(decreases_to!(blocks => b.types@));
                    }
                    let ghost lt = lines@.len();
                    let ghost ut = budget.used;
                    proof {
                        if walk_sure(spec.model(), sizes.model(), *st, vs) {
                            assert(vs[bi as int] == block_view(bs[bi as int]));
                        }
                    }
                    let mut i: i64 = 0;
                    while i < q
                        invariant
                            !walk_sure(spec.model(), sizes.model(), *st, vs),
                        vs == blocks_view(blocks@),
                        !pf,
                            qs == b.types@,
                            crate::random_test::emitter::extends(i_start, context.scalars.model()),
                            grows(l_start, lines@),
                            crate::random_test::emitter::extends(old(context).scalars.model(), context.scalars.model()),
                            forall|k: Seq<char>| #[trigger] crate::maps::m_has(context.scalars.model(), k) ==> crate::maps::m_has(checkpoint.scalar_names.map.model(), k),
                            ints_ok(spec.model(), sizes.model(), old(context).scalars.model()) ==> ints_ok(spec.model(), sizes.model(), context.scalars.model()),
                            arrs_ok(spec.model(), sizes.model(), old(context).arrays.model()) ==> arrs_ok(spec.model(), sizes.model(), context.arrays.model()),
                            strs_ok(spec.model(), sizes.model(), old(context).strings.model()) ==> strs_ok(spec.model(), sizes.model(), context.strings.model()),
                            qs.len() > 0,
                            *block == FormatBlock::Queries(*b),
                            block_ready(spec.model(), block_view(*block)),
                            budget.limit == old(budget).limit,
                            grows(old(lines)@, lines@),
                            decreases_to!(blocks => b.types@),
                            lines@.len() >= lt,
                            lt == l_start.len(),
                            ints_ok(spec.model(), sizes.model(), old(context).scalars.model()) ==> queries_text(
                                spec.model(),
                                sizes.model(),
                                branches_view(qs),
                                crate::text::sv(lines@).subrange(lt as int, lines@.len() as int),
                            ),
                            ut <= budget.used,
                            ut <= budget.limit ==> budget.used <= budget.limit,
                        decreases q - i,
                    {
                        if i % 1024 == 0 && signalled(stop) {
                            return Err(GenError::Interrupted);
                        }
                        let bj = random_index(rng, b.types.len());
                        let branch = &b.types[bj];
                        proof {
                            crate::parse::types::lemma_branches_view_index(qs, bj as int);
                            assert(branches_view(qs)[bj as int].1 == blocks_view(branch.format@));
                            assert(block_view(*block) == FormatBlockM::Queries {
                                count: b.count@,
                                discriminator: crate::regex_ops::opt_view(b.discriminator),
                                types: branches_view(qs),
                            });
                            assert(blocks_ready(spec.model(), branches_view(qs)[bj as int].1));
                            assert(decreases_to!(b.types@ => b.types@[bj as int]));
                            assert(decreases_to!(b.types@[bj as int] => b.types@[bj as int].format));
                            assert(decreases_to!(blocks => branch.format));
                        }
                        let ghost l0 = lines@;
                        let ghost cur = context.scalars.model();
                        let rres = run_iteration(
                            &branch.format,
                            Some(&branch.id),
                            spec,
                            st,
                            sizes,
                            context,
                            &checkpoint,
                            lines,
                            budget,
                            rng,
                            stop,
                        );
                        proof {
                            crate::random_test::emitter::lemma_extends_trans(old(context).scalars.model(), cur, context.scalars.model());
                        crate::random_test::emitter::lemma_extends_trans(i_start, cur, context.scalars.model());
                        }
                        let ok = match rres {
                            Ok(ok) => ok,
                            Err(e) => {
                                proof {
                                    lemma_grows_trans(old(lines)@, l0, lines@);
                                }
                                return Err(e);
                            },
                        };
                        proof {
                            lemma_grows_trans(old(lines)@, l0, lines@);
                            lemma_grows_trans(l_start, l0, lines@);
                            if ok && ints_ok(spec.model(), sizes.model(), old(context).scalars.model()) {
                                let t = crate::text::sv(lines@);
                                let piece = t.subrange(l0.len() as int, lines@.len() as int);
                                let q = choose|q: Seq<Seq<char>>|
                                    #![trigger query_text(branch.id@, q, piece)]
                                    format_text(spec.model(), sizes.model(), blocks_view(branch.format@), q) && query_text(
                                        branch.id@,
                                        q,
                                        piece,
                                    );
                                crate::parse::types::lemma_branches_view_index(qs, bj as int);
                                assert(branches_view(qs)[bj as int].0 == branch.id@);
                                assert(t.subrange(lt as int, l0.len() as int) =~= crate::text::sv(l0).subrange(
                                    lt as int,
                                    l0.len() as int,
                                ));
                                lemma_queries_step(
                                    spec.model(),
                                    sizes.model(),
                                    branches_view(qs),
                                    t,
                                    lt as int,
                                    l0.len() as int,
                                    lines@.len() as int,
                                    bj as int,
                                    q,
                                );
                            }
                        }
                        if !ok {
                            return Ok(false);
                        }
                        i += 1;
                    }
                }
                proof {
                    assert(bs[bi as int] == FormatBlock::Queries(*b));
                    assert(vs[bi as int] == FormatBlockM::Queries {
                        count: b.count@,
                        discriminator: crate::regex_ops::opt_view(b.discriminator),
                        types: branches_view(b.types@),
                    });
                    if ints_ok(spec.model(), sizes.model(), old(context).scalars.model()) {
                        let seg = crate::text::sv(lines@).subrange(l_start.len() as int, lines@.len() as int);
                        if b.types.len() == 0 {
                            assert(lines@ == l_start);
                            assert(seg.len() == 0);
                        }
                        assert(queries_text(spec.model(), sizes.model(), branches_view(b.types@), seg));
                        assert(block_text(spec.model(), sizes.model(), vs[bi as int], seg));
                    }
                }
            },
        }
        proof {
            let c = context.scalars.model();
            assert(grows(l_start, lines@));
            assert forall|q: int| 0 <= q < crate::text::sv(l_start).len() implies #[trigger] crate::text::sv(lines@)[q]
                == crate::text::sv(l_start)[q] by {
                assert(lines@[q] == l_start[q]);
            }
            lemma_segments_stable(
                spec.model(),
                vs,
                crate::text::sv(l_start),
                crate::text::sv(lines@),
                i_start,
                c,
                cuts,
                bi as int,
            );
            crate::random_test::emitter::lemma_extends_trans(old(context).scalars.model(), i_start, c);
            let nc = cuts.push(lines@.len() as int);
            assert forall|i: int, j: int| 0 <= i <= j <= bi + 1 implies #[trigger] nc[i] <= #[trigger] nc[j] by {
                if j == bi + 1 {
                    if i <= bi {
                        assert(nc[i] == cuts[i]);
                        assert(cuts[i] <= cuts[bi as int]);
                    }
                } else {
                    assert(nc[i] == cuts[i] && nc[j] == cuts[j]);
                }
            }
            assert forall|i: int| 0 <= i < bi + 1 && int_scalars(spec.model(), #[trigger] vs[i]) implies nc[i + 1] == nc[i]
                + 1 && all_known(c, line_vars(vs[i])) && crate::text::sv(lines@)[nc[i]] == scalar_line(c, line_vars(vs[i])) by {
                if i < bi {
                    assert(nc[i] == cuts[i] && nc[i + 1] == cuts[i + 1]);
                } else {
                    assert(nc[i] == l_start.len());
                }
            }
            cuts = nc;
            if ints_ok(spec.model(), sizes.model(), old(context).scalars.model()) {
                let t = crate::text::sv(lines@);
                let from = old(lines)@.len() as int;
                assert(t.subrange(from, l_start.len() as int) =~= crate::text::sv(l_start).subrange(
                    from,
                    l_start.len() as int,
                ));
                lemma_format_step(spec.model(), sizes.model(), vs, bi as int, t, from, l_start.len() as int, lines@.len() as int);
            }
        }
        bi += 1;
    }
    assert(vs.take(bs.len() as int) =~= vs);
    Ok(true)
}

/// One iteration of a repeated block, resampled up to `INNER_BUDGET` times
/// until its own values satisfy the pairs (names of the enclosing scope are
/// not checked here). The accepted lines are appended, a query's `id`
/// merged onto its first line; every attempt's values are dropped again
/// down to `checkpoint`. `Ok(false)` when no attempt was accepted.
pub fn run_iteration(
    format: &Vec<FormatBlock>,
    id_token: Option<&String>,
    spec: &ResolvedSpec,
    st: &CaseStrategy,
    sizes: &StructuralSizes,
    context: &mut RenderContext,
    checkpoint: &ContextCheckpoint,
    lines: &mut Vec<String>,
    budget: &mut Budget,
    rng: &mut rand::rngs::SmallRng,
    stop: &AtomicBool,
) -> (r: Result<bool, GenError>)
    requires
        blocks_ready(spec.model(), blocks_view(format@)),
    ensures
        final(budget).limit == old(budget).limit,
        grows(old(lines)@, final(lines)@),
        r matches Ok(false) ==> final(lines)@ == old(lines)@ && final(budget).used == old(budget).used,
        r matches Ok(true) ==> {
            &&& final(lines)@.len() >= old(lines)@.len() + scalar_blocks(blocks_view(format@))
            &&& id_token is Some ==> final(lines)@.len() >= old(lines)@.len() + 1
            &&& old(budget).used <= final(budget).used
            &&& old(budget).used <= old(budget).limit ==> final(budget).used <= final(budget).limit
        },
        r matches Err(e) ==> e is Interrupted || is_oversize(e),
        // when every known name is one the checkpoint holds, known values
        // stay as they were, and what is known after is again held by the
        // checkpoint
        (forall|k: Seq<char>|
            #[trigger] crate::maps::m_has(old(context).scalars.model(), k) ==> crate::maps::m_has(
                checkpoint.scalar_names.map.model(),
                k,
            )) ==> crate::random_test::emitter::extends(old(context).scalars.model(), final(context).scalars.model()),
        r is Ok ==> forall|k: Seq<char>|
            #[trigger] crate::maps::m_has(final(context).scalars.model(), k) ==> crate::maps::m_has(
                checkpoint.scalar_names.map.model(),
                k,
            ) || crate::maps::m_has(old(context).scalars.model(), k),
        // the values an iteration leaves lie in their variables' ranges
        ints_ok(spec.model(), sizes.model(), old(context).scalars.model()) ==> ints_ok(
            spec.model(),
            sizes.model(),
            final(context).scalars.model(),
        ),
        arrs_ok(spec.model(), sizes.model(), old(context).arrays.model()) ==> arrs_ok(
            spec.model(),
            sizes.model(),
            final(context).arrays.model(),
        ),
        strs_ok(spec.model(), sizes.model(), old(context).strings.model()) ==> strs_ok(
            spec.model(),
            sizes.model(),
            final(context).strings.model(),
        ),
        // a query is a text of its branch's format with the id merged in
        r matches Ok(true) && ints_ok(spec.model(), sizes.model(), old(context).scalars.model()) ==> (
        id_token matches Some(id) ==> exists|q: Seq<Seq<char>>|
            #![trigger query_text(id@, q, crate::text::sv(final(lines)@).subrange(old(lines)@.len() as int, final(lines)@.len() as int))]
            format_text(spec.model(), sizes.model(), blocks_view(format@), q) && query_text(
                id@,
                q,
                crate::text::sv(final(lines)@).subrange(old(lines)@.len() as int, final(lines)@.len() as int),
            )),
        // an iteration taken as it was walked is a text of the format
        r matches Ok(true) && id_token is None && ints_ok(spec.model(), sizes.model(), old(context).scalars.model())
            ==> format_text(
            spec.model(),
            sizes.model(),
            blocks_view(format@),
            crate::text::sv(final(lines)@).subrange(old(lines)@.len() as int, final(lines)@.len() as int),
        ),
    decreases format, 2int,
{
    let mut attempt: u32 = 0;
    while attempt < INNER_BUDGET
        invariant
            blocks_ready(spec.model(), blocks_view(format@)),
            budget.limit == old(budget).limit,
            grows(old(lines)@, lines@),
            lines@ == old(lines)@,
            budget.used == old(budget).used,
            (forall|k: Seq<char>|
                #[trigger] crate::maps::m_has(old(context).scalars.model(), k) ==> crate::maps::m_has(
                    checkpoint.scalar_names.map.model(),
                    k,
                )) ==> crate::random_test::emitter::extends(old(context).scalars.model(), context.scalars.model()),
            forall|k: Seq<char>|
                #[trigger] crate::maps::m_has(context.scalars.model(), k) ==> crate::maps::m_has(
                    checkpoint.scalar_names.map.model(),
                    k,
                ) || crate::maps::m_has(old(context).scalars.model(), k),
            ints_ok(spec.model(), sizes.model(), old(context).scalars.model()) ==> ints_ok(spec.model(), sizes.model(), context.scalars.model()),
            arrs_ok(spec.model(), sizes.model(), old(context).arrays.model()) ==> arrs_ok(spec.model(), sizes.model(), context.arrays.model()),
            strs_ok(spec.model(), sizes.model(), old(context).strings.model()) ==> strs_ok(spec.model(), sizes.model(), context.strings.model()),
        decreases INNER_BUDGET - attempt,
    {
        let mut tmp: Vec<String> = Vec::new();
        let mark = budget.used;
        let ghost cur = context.scalars.model();
        let wres = walk(format, spec, st, sizes, context, &mut tmp, budget, rng, stop);
        proof {
            if forall|k: Seq<char>|
                #[trigger] crate::maps::m_has(old(context).scalars.model(), k) ==> crate::maps::m_has(
                    checkpoint.scalar_names.map.model(),
                    k,
                ) {
                crate::random_test::emitter::lemma_extends_trans(old(context).scalars.model(), cur, context.scalars.model());
            }
        }
        let w = match wres {
            Ok(w) => w,
            Err(e) => return Err(e),
        };
        let ghost ft = w && ints_ok(spec.model(), sizes.model(), old(context).scalars.model());
        proof {
            if ft {
                assert(format_text(spec.model(), sizes.model(), blocks_view(format@), crate::text::sv(tmp@).subrange(0, tmp@.len() as int)));
            }
        }
        let accepted = w && pairs_ok(
            spec,
            &context.scalars,
            &context.strings,
            &context.arrays,
            Some(&checkpoint.scalar_names),
            Some(&checkpoint.array_names),
        );
        if accepted {
            match id_token {
                None => {
                    let mut k: usize = 0;
                    while k < tmp.len()
                        invariant
                            grows(old(lines)@, lines@),
                            k <= tmp@.len(),
                            lines@.len() == old(lines)@.len() + k,
                            forall|j: int| 0 <= j < k ==> #[trigger] lines@[old(lines)@.len() + j] == tmp@[j],
                        decreases tmp.len() - k,
                    {
                        let line = tmp[k].clone();
                        proof {
                            lemma_grows_push(old(lines)@, lines@, line);
                        }
                        let ghost l1 = lines@;
                        lines.push(line);
                        proof {
                            assert forall|j: int| 0 <= j < k + 1 implies #[trigger] lines@[old(lines)@.len() + j] == tmp@[j] by {
                                if j < k {
                                    assert(lines@[old(lines)@.len() + j] == l1[old(lines)@.len() + j]);
                                }
                            }
                        }
                        k += 1;
                    }
                    proof {
                        if ft {
                            assert(crate::text::sv(lines@).subrange(old(lines)@.len() as int, lines@.len() as int)
                                =~= crate::text::sv(tmp@).subrange(0, tmp@.len() as int)) by {
                                assert forall|j: int| 0 <= j < tmp@.len() implies crate::text::sv(lines@)[old(lines)@.len() + j]
                                    == #[trigger] crate::text::sv(tmp@)[j] by {
                                    assert(lines@[old(lines)@.len() + j] == tmp@[j]);
                                }
                            }
                        }
                    }
                },
                Some(id) => {
                    match budget.add(1) {
                        Ok(()) => {},
                        Err(e) => return Err(e),
                    }
                    let ghost q = crate::text::sv(tmp@).subrange(0, tmp@.len() as int);
                    if tmp.len() == 0 {
                        let line = id.clone();
                        proof {
                            lemma_grows_push(old(lines)@, lines@, line);
                        }
                        lines.push(line);
                        proof {
                            if ft {
                                assert(crate::text::sv(lines@).subrange(old(lines)@.len() as int, lines@.len() as int)
                                    =~= seq![id@]);
                                assert(query_text(
                                    id@,
                                    q,
                                    crate::text::sv(lines@).subrange(old(lines)@.len() as int, lines@.len() as int),
                                ));
                            }
                        }
                    } else {
                        let first = crate::text::trim(&crate::text::chars_of(tmp[0].as_str()));
                        let line = if first.len() == 0 {
                            id.clone()
                        } else {
                            let mut c = crate::text::chars_of(id.as_str());
                            c.push(' ');
                            crate::text::append_chars(&mut c, &first);
                            crate::text::string_of(&c)
                        };
                        proof {
                            assert(first@ == crate::text::spec_trim(q[0]));
                            assert(line@ == if crate::text::spec_trim(q[0]).len() == 0 {
                                id@
                            } else {
                                id@ + seq![' '] + crate::text::spec_trim(q[0])
                            });
                            lemma_grows_push(old(lines)@, lines@, line);
                        }
                        lines.push(line);
                        let mut k: usize = 1;
                        while k < tmp.len()
                            invariant
                                grows(old(lines)@, lines@),
                                1 <= k <= tmp@.len(),
                                lines@.len() == old(lines)@.len() + k,
                                lines@[old(lines)@.len() as int] == line,
                                forall|j: int| 1 <= j < k ==> #[trigger] lines@[old(lines)@.len() + j] == tmp@[j],
                            decreases tmp.len() - k,
                        {
                            let line2 = tmp[k].clone();
                            proof {
                                lemma_grows_push(old(lines)@, lines@, line2);
                            }
                            let ghost l1 = lines@;
                            lines.push(line2);
                            proof {
                                assert(lines@[old(lines)@.len() as int] == l1[old(lines)@.len() as int]);
                                assert forall|j: int| 1 <= j < k + 1 implies #[trigger] lines@[old(lines)@.len() + j] == tmp@[j] by {
                                    if j < k {
                                        assert(lines@[old(lines)@.len() + j] == l1[old(lines)@.len() + j]);
                                    }
                                }
                            }
                            k += 1;
                        }
                        proof {
                            if ft {
                                let piece = crate::text::sv(lines@).subrange(old(lines)@.len() as int, lines@.len() as int);
                                assert(piece[0] == line@);
                                assert(piece.skip(1) =~= q.skip(1)) by {
                                    assert forall|j: int| 0 <= j < q.len() - 1 implies piece.skip(1)[j] == #[trigger] q.skip(1)[j] by {
                                        assert(lines@[old(lines)@.len() + (j + 1)] == tmp@[j + 1]);
                                    }
                                }
                                assert(query_text(id@, q, piece));
                            }
                        }
                    }
                },
            }
        } else {
            budget.used = mark;
        }
        let ghost sc1 = context.scalars.model();
        let ghost ar1 = context.arrays.model();
        let ghost st1 = context.strings.model();
        let ghost sc0 = old(context).scalars.model();
        context.restore(checkpoint);
        proof {
            let names = checkpoint.scalar_names.map.model();
            if forall|k: Seq<char>| #[trigger] crate::maps::m_has(sc0, k) ==> crate::maps::m_has(names, k) {
                assert forall|k: Seq<char>| #[trigger] crate::maps::m_has(sc0, k) implies crate::maps::m_get(
                    context.scalars.model(),
                    k,
                ) == crate::maps::m_get(sc0, k) by {
                    assert(crate::maps::m_has(names, k));
                    assert(crate::maps::m_has(sc1, k));
                }
            }
            if strs_ok(spec.model(), sizes.model(), st1) {
                crate::random_test::emitter::lemma_strs_sub(spec.model(), sizes.model(), st1, context.strings.model());
            }
            if ints_ok(spec.model(), sizes.model(), sc1) {
                crate::random_test::emitter::lemma_ints_sub(spec.model(), sizes.model(), sc1, context.scalars.model());
            }
            if arrs_ok(spec.model(), sizes.model(), ar1) {
                crate::random_test::emitter::lemma_arrs_sub(spec.model(), sizes.model(), ar1, context.arrays.model());
            }
        }
        if accepted {
            return Ok(true);
        }
        attempt += 1;
    }
    Ok(false)
}

/// The lines joined by newlines, with a final newline.
fn join_lines(lines: &Vec<String>) -> (r: String)
    ensures
        r@ == crate::template::join_with(crate::text::sv(lines@), "\n"@) + seq!['\n'],
        r@.len() > 0 && r@[r@.len() - 1] == '\n',
{
    let mut out = crate::template::join_exec(lines, "\n");
    out.push('\n');
    crate::text::string_of(&out)
}

/// The message when plain random cases keep failing the pairs.
pub open spec fn retry_message() -> Seq<char> {
    "random test constraints could not be satisfied after 100 attempts; check ordering/not_equal constraints and declared ranges"@
}

/// Render one input case for `st`: decide the structural sizes, seed them
/// as known values, walk the format, and keep the case only when every
/// pair holds of the values generated; otherwise regenerate, up to
/// `CORNER_BUDGET` times for a corner (then `Unsatisfied`) or
/// `RANDOM_BUDGET` times for plain random (then `Abort`).
pub fn render_case(spec: &ResolvedSpec, st: &CaseStrategy, rng: &mut rand::rngs::SmallRng, stop: &AtomicBool) -> (r:
    RenderResult)
    requires
        blocks_ready(spec.model(), spec.model().format),
    ensures
        r matches RenderResult::Ready(s) ==> (s@.len() > 0 && s@[s@.len() - 1] == '\n'),
        *st == CaseStrategy::Random(RandomStrategy::Random) ==> !(r is Unsatisfied),
        r matches RenderResult::Ready(s) ==> exists|ls: Seq<Seq<char>>|
            ls.len() >= scalar_blocks(spec.model().format) && s@ == #[trigger] crate::template::join_with(ls, "\n"@)
                + seq!['\n'],
        r matches RenderResult::Abort(m) ==> m@ == retry_message() || crate::text::spec_starts_with(
            m@,
            crate::random_test::budget::oversize_prefix(),
        ),
        // every format renders one assignment whose values meet the
        // constraints, its integer lines their values
        r matches RenderResult::Ready(s) ==> case_ok(spec.model(), s@),
        // a plain format renders one assignment that keeps every pair: each
        // line its variables' values, or its array's, in decimal
        r matches RenderResult::Ready(s) ==> (plain_format(spec.model(), spec.model().format) ==> plain_case(
            spec.model(),
            s@,
        )),
        // with no pairs to keep and a format no draw can fail, whatever
        // sizes are decided, the first case is taken: it is ready unless
        // interrupted or too large
        (spec.model().ordering.len() == 0 && spec.model().not_equal.len() == 0 && forall|z: crate::random_test::gen::SizesM|
            #[trigger] walk_sure(spec.model(), z, *st, spec.model().format)) ==> (r is Ready || r is Interrupted || (r matches RenderResult::Abort(m)
            && crate::text::spec_starts_with(m@, crate::random_test::budget::oversize_prefix()))),
{
    let is_corner = *st != CaseStrategy::Random(RandomStrategy::Random);
    let mut retries: u32 = 0;
    loop
        invariant
            blocks_ready(spec.model(), spec.model().format),
            is_corner == (*st != CaseStrategy::Random(RandomStrategy::Random)),
            retries < RANDOM_BUDGET,
        decreases RANDOM_BUDGET - retries,
    {
        if signalled(stop) {
            return RenderResult::Interrupted;
        }
        let sizes = decide_structural_sizes(spec, st, rng);
        let mut context = RenderContext::new();
        let ghost z = sizes.model();
        match &sizes.test_cases {
            Some(p) => {
                proof {
                    crate::random_test::emitter::lemma_ints_insert(spec.model(), z, context.scalars.model(), p.0@, p.1);
                }
                context.scalars.insert(p.0.clone(), p.1);
            },
            None => {},
        }
        proof {
            use_type_invariant(&sizes.jagged_counts);
            sizes.jagged_counts.lemma_sorted();
        }
        let mut j: usize = 0;
        while j < sizes.jagged_counts.len()
            invariant
                z == sizes.model(),
                crate::maps::m_sorted(z.jagged),
                j <= sizes.jagged_counts.model().len(),
                context.arrays.model().len() == 0,
                context.strings.model().len() == 0,
                ints_ok(spec.model(), z, context.scalars.model()),
            decreases sizes.jagged_counts.model().len() - j,
        {
            let cv = sizes.jagged_counts.key_at(j).clone();
            let n = *sizes.jagged_counts.value_at(j);
            proof {
                crate::maps::lemma_sorted_get_at(z.jagged, j as int);
                assert(crate::random_test::emitter::seeded(z, cv@, n));
                crate::random_test::emitter::lemma_ints_insert(spec.model(), z, context.scalars.model(), cv@, n);
            }
            context.scalars.insert(cv, n);
            j += 1;
        }
        assert(arrs_ok(spec.model(), z, context.arrays.model()));
        assert(strs_ok(spec.model(), z, context.strings.model()));
        let mut lines: Vec<String> = Vec::new();
        let mut budget = Budget::new(MAX_INPUT_ELEMENTS);
        proof {
            assert(spec.model().format == blocks_view(spec.format@));
            assert(fresh_arrays(context.arrays.model(), spec.model().format, 0));
        }
        let ok = match walk(&spec.format, spec, st, &sizes, &mut context, &mut lines, &mut budget, rng, stop) {
            Ok(ok) => ok,
            Err(GenError::Interrupted) => return RenderResult::Interrupted,
            Err(GenError::Oversize(reason)) => {
                proof {
                    assert(is_oversize(GenError::Oversize(reason)));
                }
                return RenderResult::Abort(reason);
            },
        };
        proof {
            if spec.model().ordering.len() == 0 && spec.model().not_equal.len() == 0 && forall|z: crate::random_test::gen::SizesM|
                #[trigger] walk_sure(spec.model(), z, *st, spec.model().format) {
                assert(walk_sure(spec.model(), sizes.model(), *st, spec.model().format));
                assert(ok);
            }
        }
        if ok && pairs_ok(spec, &context.scalars, &context.strings, &context.arrays, None, None) {
            if signalled(stop) {
                return RenderResult::Interrupted;
            }
            let s = join_lines(&lines);
            proof {
                assert(crate::text::sv(lines@).len() == lines@.len());
                assert(spec.model().format == blocks_view(spec.format@));
                let k = Known {
                    ints: context.scalars.model(),
                    strs: context.strings.model(),
                    arrs: context.arrays.model(),
                    parent: opt_set(None),
                    parent_arrays: opt_set(None),
                };
                assert(spec_pairs_ok(spec.model(), k));
                assert(strs_ok(spec.model(), sizes.model(), k.strs));
                assert(ints_ok(spec.model(), sizes.model(), k.ints));
                assert(arrs_ok(spec.model(), sizes.model(), k.arrs));
                let cuts = choose|cuts: Seq<int>|
                    #![trigger segments(spec.model(), blocks_view(spec.format@), crate::text::sv(lines@), context.scalars.model(), cuts, blocks_view(spec.format@).len() as int)]
                    segments(
                        spec.model(),
                        blocks_view(spec.format@),
                        crate::text::sv(lines@),
                        context.scalars.model(),
                        cuts,
                        blocks_view(spec.format@).len() as int,
                    ) && cuts[0] == 0 && cuts[blocks_view(spec.format@).len() as int] == lines@.len();
                assert(crate::text::sv(lines@).subrange(0, lines@.len() as int) =~= crate::text::sv(lines@));
                assert(format_text(spec.model(), sizes.model(), spec.model().format, crate::text::sv(lines@)));
                assert(case_ok(spec.model(), s@));
                if plain_format(spec.model(), spec.model().format) {
                    let f = spec.model().format;
                    assert(crate::text::sv(lines@) =~= plain_text(k.ints, k.arrs, f)) by {
                        assert forall|i: int| 0 <= i < f.len() implies crate::text::sv(lines@)[i] == #[trigger] plain_text(
                            k.ints,
                            k.arrs,
                            f,
                        )[i] by {
                            assert(lines@[0 + i]@ == plain_line(k.ints, k.arrs, f[i]));
                        }
                    }
                    assert(s@ == crate::template::join_with(plain_text(k.ints, k.arrs, f), "\n"@) + seq!['\n']);
                    assert(arrays_ok(spec.model(), sizes.model(), k.arrs, f, f.len() as int));
                    assert(ints_ok(spec.model(), sizes.model(), k.ints));
                    assert(arrs_ok(spec.model(), sizes.model(), k.arrs));
                    assert(plain_case(spec.model(), s@));
                }
            }
            return RenderResult::Ready(s);
        }
        retries += 1;
        if is_corner && retries >= CORNER_BUDGET {
            return RenderResult::Unsatisfied;
        }
        if !is_corner && retries >= RANDOM_BUDGET {
            let m = "random test constraints could not be satisfied after 100 attempts; check ordering/not_equal constraints and declared ranges";
            return RenderResult::Abort(m.to_string());
        }
    }
}

} // verus!
