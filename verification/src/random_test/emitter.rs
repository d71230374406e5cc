//! Values and output lines for the blocks of a format: scalars, sizes,
//! strings, and the array and row renderers.

use vstd::prelude::*;
use std::collections::HashSet;
use std::sync::atomic::AtomicBool;
use crate::maps::{m_get, m_has, StrMap};
use crate::parse::types::{ArrayBlock, BoundRepr, BoundReprM, FormatBlockM, RowsBlock, VarType};
use crate::random_test::budget::{Budget, GenError};
use crate::random_test::gen::{effective_lo_hi, strategy_size_value, StructuralSizes};
use crate::random_test::pick::{
    all_blocked, allowed, free, bounded_distinct_int, gen_int_array_with_positional_bounds, gen_positionally_bounded_int,
};
use crate::random_test::relation::{
    effective_array_strategy, forbids_scalar, has_array_element_constraints, narrow_bounds_from_scalars,
    narrow_scalar_bounds, not_equal_forbidden_scalar, record_array_values, spec_has_element_constraints,
};
use crate::random_test::rng::random_index;
use crate::random_test::shape::gen_string;
use crate::random_test::spec::{seq_max, seq_min, ResolvedM, ResolvedSpec, SizeTerm, SizeTermM, VarInfo, VarInfoM};
use crate::random_test::strategy::{CaseStrategy, DeterministicStrategy, RandomStrategy};
use crate::text::{spec_int_chars, int_string};

verus! {

// ─── what rendering needs of the resolved section ───────────────────────────

/// A size name resolves without going through an offset: a literal, a
/// declared variable, or a declared variable behind a plain term.
pub open spec fn base_ok(m: ResolvedM, vn: Seq<char>) -> bool {
    match m_get(m.size_terms, vn) {
        Some(SizeTermM::Lit(_)) => true,
        Some(SizeTermM::Var(v2)) => m_has(m.vars, v2),
        Some(SizeTermM::VarOffset(_, _)) => false,
        None => m_has(m.vars, vn),
    }
}

/// A count or size name resolves: its term is a literal, names a declared
/// variable, or offsets a name that resolves directly.
pub open spec fn count_ok(m: ResolvedM, name: Seq<char>) -> bool {
    match m_get(m.size_terms, name) {
        Some(SizeTermM::Lit(_)) => true,
        Some(SizeTermM::Var(vn)) => m_has(m.vars, vn),
        Some(SizeTermM::VarOffset(vn, _)) => base_ok(m, vn),
        None => m_has(m.vars, name),
    }
}

pub open spec fn opt_count_ok(m: ResolvedM, c: Option<Seq<char>>) -> bool {
    match c {
        Some(n) => count_ok(m, n),
        None => true,
    }
}

/// A parser-made length domain, written `|S|`.
pub open spec fn is_synthetic(name: Seq<char>) -> bool {
    name.len() >= 2 && name[0] == '|' && name[name.len() - 1] == '|'
}

/// A string length resolves: a literal, a declared length domain, or a
/// size expression whose variables resolve.
pub open spec fn len_ok(m: ResolvedM, len: Option<BoundReprM>) -> bool {
    match len {
        Some(BoundReprM::Lit(_)) => true,
        Some(BoundReprM::Expr(e)) => if is_synthetic(e) {
            m_has(m.vars, e)
        } else {
            match m_get(m.size_terms, e) {
                Some(SizeTermM::Lit(_)) => true,
                Some(SizeTermM::Var(n)) => count_ok(m, n),
                Some(SizeTermM::VarOffset(n, _)) => count_ok(m, n),
                None => false,
            }
        },
        None => false,
    }
}

/// A value variable is declared; a string one has a charset and a length
/// that resolves.
pub open spec fn value_ok(m: ResolvedM, v: Seq<char>) -> bool {
    match m_get(m.vars, v) {
        Some(info) => {
            &&& info.ty == VarType::Chars ==> (info.charset matches Some(cs) && cs.len() > 0 && cs.len() <= i64::MAX
                && len_ok(m, info.len))
            &&& info.values matches Some(vs) ==> vs.len() <= i64::MAX
        },
        None => false,
    }
}

/// The row length of a jagged array has a term whose variable is declared.
pub open spec fn jag_len_ok(m: ResolvedM, l: Seq<char>) -> bool {
    match m_get(m.size_terms, l) {
        Some(SizeTermM::Lit(_)) => true,
        Some(SizeTermM::Var(vn)) => m_has(m.vars, vn),
        Some(SizeTermM::VarOffset(vn, _)) => m_has(m.vars, vn),
        None => false,
    }
}

/// Every value variable of the list is usable.
pub open spec fn values_ok(m: ResolvedM, vs: Seq<Seq<char>>) -> bool {
    forall|i: int| 0 <= i < vs.len() ==> value_ok(m, #[trigger] vs[i])
}

/// Everything a block reads resolves.
pub open spec fn block_ready(m: ResolvedM, b: FormatBlockM) -> bool
    decreases b,
{
    match b {
        FormatBlockM::Scalars(vs) => values_ok(m, vs),
        FormatBlockM::Array { base, len, height, count, jagged } => {
            &&& value_ok(m, base)
            &&& opt_count_ok(m, count)
            &&& if jagged {
                len matches Some(l) && jag_len_ok(m, l)
            } else {
                opt_count_ok(m, len) && opt_count_ok(m, height)
            }
        },
        FormatBlockM::Rows { vars, len } => count_ok(m, len) && values_ok(m, vars),
        FormatBlockM::TestCases { count, format } => count_ok(m, count) && blocks_ready(m, format),
        FormatBlockM::Queries { count, types, .. } => count_ok(m, count) && branches_ready(m, types),
    }
}

/// Every block of the list is ready.
pub open spec fn blocks_ready(m: ResolvedM, bs: Seq<FormatBlockM>) -> bool
    decreases bs,
{
    forall|i: int| 0 <= i < bs.len() ==> block_ready(m, #[trigger] bs[i])
}

/// Every block of every branch is ready.
pub open spec fn branches_ready(m: ResolvedM, qs: Seq<(Seq<char>, Seq<FormatBlockM>)>) -> bool
    decreases qs,
{
    forall|j: int| 0 <= j < qs.len() ==> blocks_ready(m, #[trigger] qs[j].1)
}

// ─── values ─────────────────────────────────────────────────────────────────

/// Every entry of `old` reads the same in `new`.
pub open spec fn extends<W>(old: Seq<(Seq<char>, W)>, new: Seq<(Seq<char>, W)>) -> bool {
    forall|k: Seq<char>| #[trigger] m_has(old, k) ==> m_get(new, k) == m_get(old, k)
}

/// The bounds a scalar is drawn within: its effective range narrowed by
/// the known scalars and arrays it is ordered against.
pub open spec fn scalar_bounds(
    name: Seq<char>,
    lohi: (i64, i64),
    m: ResolvedM,
    ctx: Seq<(Seq<char>, i64)>,
    arrays: Seq<(Seq<char>, Seq<i64>)>,
) -> (i64, i64) {
    let b1 = crate::random_test::relation::narrow_by_scalars(name, lohi, m.ordering, ctx);
    crate::random_test::relation::narrow_by_arrays(name, b1, m.ordering, arrays)
}

proof fn lemma_apart_by_scalars(
    name: Seq<char>,
    lohi: (i64, i64),
    ord: Seq<(Seq<char>, Seq<char>)>,
    ctx: Seq<(Seq<char>, i64)>,
)
    requires
        forall|i: int| 0 <= i < ord.len() ==> (#[trigger] ord[i]).0 != name && ord[i].1 != name,
    ensures
        crate::random_test::relation::narrow_by_scalars(name, lohi, ord, ctx) == lohi,
    decreases ord.len(),
{
    if ord.len() > 0 {
        lemma_apart_by_scalars(name, lohi, ord.drop_last(), ctx);
        assert(ord.last() == ord[ord.len() - 1]);
    }
}

proof fn lemma_apart_by_arrays(
    name: Seq<char>,
    lohi: (i64, i64),
    ord: Seq<(Seq<char>, Seq<char>)>,
    arrays: Seq<(Seq<char>, Seq<i64>)>,
)
    requires
        forall|i: int| 0 <= i < ord.len() ==> (#[trigger] ord[i]).0 != name && ord[i].1 != name,
    ensures
        crate::random_test::relation::narrow_by_arrays(name, lohi, ord, arrays) == lohi,
    decreases ord.len(),
{
    if ord.len() > 0 {
        lemma_apart_by_arrays(name, lohi, ord.drop_last(), arrays);
        assert(ord.last() == ord[ord.len() - 1]);
    }
}

/// A variable in no `ordering` or `not_equal` pair keeps its effective
/// range whatever is known, and nothing is forbidden to it.
pub proof fn lemma_unpaired_free(
    name: Seq<char>,
    lohi: (i64, i64),
    m: ResolvedM,
    ctx: Seq<(Seq<char>, i64)>,
    arrays: Seq<(Seq<char>, Seq<i64>)>,
)
    requires
        !crate::random_test::relation::paired(name, m),
    ensures
        crate::random_test::relation::narrow_by_scalars(name, lohi, m.ordering, ctx) == lohi,
        scalar_bounds(name, lohi, m, ctx, arrays) == lohi,
        forall|x: i64| !#[trigger] forbids_scalar(name, m.not_equal, ctx, arrays, x),
{
    assert forall|i: int| 0 <= i < m.ordering.len() implies (#[trigger] m.ordering[i]).0 != name && m.ordering[i].1 != name by {
        assert(crate::random_test::relation::spec_pair_other(name, m.ordering[i]) is None);
    }
    lemma_apart_by_scalars(name, lohi, m.ordering, ctx);
    lemma_apart_by_arrays(name, lohi, m.ordering, arrays);
    assert forall|x: i64| !#[trigger] forbids_scalar(name, m.not_equal, ctx, arrays, x) by {
        assert forall|i: int| 0 <= i < m.not_equal.len() implies !crate::random_test::relation::ne_value(name, #[trigger] m.not_equal[i], ctx, arrays, x) by {
            assert(crate::random_test::relation::spec_pair_other(name, m.not_equal[i]) is None);
        }
    }
}

// ─── what the known values satisfy ──────────────────────────────────────────

/// A variable decided as itself: no size term gives it the value of a
/// literal, another variable or an offset.
pub open spec fn self_decided(m: ResolvedM, k: Seq<char>) -> bool {
    match m_get(m.size_terms, k) {
        None => true,
        Some(SizeTermM::Var(vn)) => vn == k,
        Some(_) => false,
    }
}

/// `v` is the structural size decided for `k`: the test-case count or a
/// jagged row count.
pub open spec fn seeded(z: crate::random_test::gen::SizesM, k: Seq<char>, v: i64) -> bool {
    (z.test_cases matches Some(p) && p.0 == k && p.1 == v) || m_get(z.jagged, k) == Some(v)
}

/// `v` lies in the effective range of `k` when `k` is an integer variable
/// decided as itself.
pub open spec fn int_fits(m: ResolvedM, z: crate::random_test::gen::SizesM, k: Seq<char>, v: i64) -> bool {
    (m_get(m.vars, k) is Some && m_get(m.vars, k)->0.ty != VarType::Chars && self_decided(m, k)) ==> ({
        let e = crate::random_test::gen::spec_effective_lo_hi(k, m_get(m.vars, k)->0, z, m);
        e.0 <= v <= e.1
    })
}

/// Every known integer value fits its variable's effective range, or is
/// the structural size decided for it.
pub open spec fn ints_ok(m: ResolvedM, z: crate::random_test::gen::SizesM, ctx: Seq<(Seq<char>, i64)>) -> bool {
    forall|k: Seq<char>|
        #[trigger] m_has(ctx, k) ==> (int_fits(m, z, k, m_get(ctx, k)->0) || seeded(z, k, m_get(ctx, k)->0))
}

/// The values of array `k` are each in its effective range, or in its
/// domain when it has one.
pub open spec fn elems_fit(m: ResolvedM, z: crate::random_test::gen::SizesM, k: Seq<char>, xs: Seq<i64>) -> bool {
    (m_get(m.vars, k) is Some && m_get(m.vars, k)->0.ty != VarType::Chars) ==> ({
        let info = m_get(m.vars, k)->0;
        let e = crate::random_test::gen::spec_effective_lo_hi(k, info, z, m);
        forall|q: int| 0 <= q < xs.len() ==> elem_ok(#[trigger] xs[q], e.0, e.1, info.values)
    })
}

/// Every known array holds values its constraints allow.
pub open spec fn arrs_ok(m: ResolvedM, z: crate::random_test::gen::SizesM, arrs: Seq<(Seq<char>, Seq<i64>)>) -> bool {
    forall|k: Seq<char>| #[trigger] m_has(arrs, k) ==> elems_fit(m, z, k, m_get(arrs, k)->0)
}

/// A string length its length term allows: a literal length exactly, a
/// length domain `|S|` a value in that domain's effective range.
pub open spec fn str_len_ok(m: ResolvedM, z: crate::random_test::gen::SizesM, len: Option<BoundReprM>, l: nat) -> bool {
    match len {
        Some(BoundReprM::Lit(n)) => l == as_len_spec(n),
        Some(BoundReprM::Expr(e)) => is_synthetic(e) ==> exists|x: i64|
            #![trigger as_len_spec(x)]
            l == as_len_spec(x) && ({
                let ef = crate::random_test::gen::spec_effective_lo_hi(e, m_get(m.vars, e)->0, z, m);
                ef.0 <= x <= ef.1
            }),
        None => true,
    }
}

/// Every known string is over its charset, of a length its term allows.
pub open spec fn strs_ok(m: ResolvedM, z: crate::random_test::gen::SizesM, strs: Seq<(Seq<char>, Seq<char>)>) -> bool {
    forall|k: Seq<char>|
        #[trigger] m_has(strs, k) ==> ((m_get(m.vars, k) is Some && m_get(m.vars, k)->0.ty == VarType::Chars
            && m_get(m.vars, k)->0.charset is Some) ==> ({
            let info = m_get(m.vars, k)->0;
            let s = m_get(strs, k)->0;
            &&& forall|i: int| 0 <= i < s.len() ==> info.charset->0.contains(#[trigger] s[i])
            &&& str_len_ok(m, z, info.len, s.len())
        }))
}

pub proof fn lemma_strs_insert(
    m: ResolvedM,
    z: crate::random_test::gen::SizesM,
    c: Seq<(Seq<char>, Seq<char>)>,
    k: Seq<char>,
    v: Seq<char>,
)
    requires
        strs_ok(m, z, c),
        m_get(m.vars, k) is Some,
        m_get(m.vars, k)->0.charset is Some,
        forall|i: int| 0 <= i < v.len() ==> m_get(m.vars, k)->0.charset->0.contains(#[trigger] v[i]),
        str_len_ok(m, z, m_get(m.vars, k)->0.len, v.len()),
    ensures
        strs_ok(m, z, crate::maps::m_insert(c, k, v)),
{
    let c2 = crate::maps::m_insert(c, k, v);
    assert forall|j: Seq<char>| #[trigger] m_has(c2, j) implies ((m_get(m.vars, j) is Some && m_get(m.vars, j)->0.ty
        == VarType::Chars && m_get(m.vars, j)->0.charset is Some) ==> ({
        let info = m_get(m.vars, j)->0;
        let s = m_get(c2, j)->0;
        &&& forall|i: int| 0 <= i < s.len() ==> info.charset->0.contains(#[trigger] s[i])
        &&& str_len_ok(m, z, info.len, s.len())
    })) by {
        crate::maps::lemma_m_insert_get(c, k, v, j);
        if j != k {
            assert(m_has(c, j));
        }
    }
}

pub proof fn lemma_strs_sub(
    m: ResolvedM,
    z: crate::random_test::gen::SizesM,
    c: Seq<(Seq<char>, Seq<char>)>,
    c2: Seq<(Seq<char>, Seq<char>)>,
)
    requires
        strs_ok(m, z, c),
        forall|k: Seq<char>| #[trigger] m_has(c2, k) ==> m_get(c2, k) == m_get(c, k),
    ensures
        strs_ok(m, z, c2),
{
    assert forall|k: Seq<char>| #[trigger] m_has(c2, k) implies ((m_get(m.vars, k) is Some && m_get(m.vars, k)->0.ty
        == VarType::Chars && m_get(m.vars, k)->0.charset is Some) ==> ({
        let info = m_get(m.vars, k)->0;
        let s = m_get(c2, k)->0;
        &&& forall|i: int| 0 <= i < s.len() ==> info.charset->0.contains(#[trigger] s[i])
        &&& str_len_ok(m, z, info.len, s.len())
    })) by {
        assert(m_has(c, k));
    }
}

pub proof fn lemma_ints_insert(
    m: ResolvedM,
    z: crate::random_test::gen::SizesM,
    c: Seq<(Seq<char>, i64)>,
    k: Seq<char>,
    v: i64,
)
    requires
        ints_ok(m, z, c),
        int_fits(m, z, k, v) || seeded(z, k, v),
    ensures
        ints_ok(m, z, crate::maps::m_insert(c, k, v)),
{
    let c2 = crate::maps::m_insert(c, k, v);
    assert forall|j: Seq<char>| #[trigger] m_has(c2, j) implies (int_fits(m, z, j, m_get(c2, j)->0) || seeded(
        z,
        j,
        m_get(c2, j)->0,
    )) by {
        crate::maps::lemma_m_insert_get(c, k, v, j);
        if j != k {
            assert(m_has(c, j));
        }
    }
}

/// Keeping only some of the known values, as they were, keeps them fitting.
pub proof fn lemma_ints_sub(
    m: ResolvedM,
    z: crate::random_test::gen::SizesM,
    c: Seq<(Seq<char>, i64)>,
    c2: Seq<(Seq<char>, i64)>,
)
    requires
        ints_ok(m, z, c),
        forall|k: Seq<char>| #[trigger] m_has(c2, k) ==> m_get(c2, k) == m_get(c, k),
    ensures
        ints_ok(m, z, c2),
{
    assert forall|k: Seq<char>| #[trigger] m_has(c2, k) implies (int_fits(m, z, k, m_get(c2, k)->0) || seeded(
        z,
        k,
        m_get(c2, k)->0,
    )) by {
        assert(m_has(c, k));
    }
}

/// Keeping prefixes of some known arrays keeps them fitting.
pub proof fn lemma_arrs_sub(
    m: ResolvedM,
    z: crate::random_test::gen::SizesM,
    a: Seq<(Seq<char>, Seq<i64>)>,
    a2: Seq<(Seq<char>, Seq<i64>)>,
)
    requires
        arrs_ok(m, z, a),
        forall|k: Seq<char>|
            #[trigger] m_has(a2, k) ==> m_has(a, k) && m_get(a2, k)->0.len() <= m_get(a, k)->0.len() && m_get(a2, k)->0
                == m_get(a, k)->0.take(m_get(a2, k)->0.len() as int),
    ensures
        arrs_ok(m, z, a2),
{
    assert forall|k: Seq<char>| #[trigger] m_has(a2, k) implies elems_fit(m, z, k, m_get(a2, k)->0) by {
        assert(m_has(a, k));
        let xs = m_get(a, k)->0;
        let ys = m_get(a2, k)->0;
        if m_get(m.vars, k) is Some && m_get(m.vars, k)->0.ty != VarType::Chars {
            let info = m_get(m.vars, k)->0;
            let ef = crate::random_test::gen::spec_effective_lo_hi(k, info, z, m);
            assert forall|q: int| 0 <= q < ys.len() implies elem_ok(#[trigger] ys[q], ef.0, ef.1, info.values) by {
                assert(ys[q] == xs[q]);
            }
        }
    }
}

pub proof fn lemma_arrs_record(
    m: ResolvedM,
    z: crate::random_test::gen::SizesM,
    c: Seq<(Seq<char>, Seq<i64>)>,
    k: Seq<char>,
    e: Seq<i64>,
)
    requires
        arrs_ok(m, z, c),
        elems_fit(m, z, k, e),
    ensures
        arrs_ok(
            m,
            z,
            crate::maps::m_insert(
                c,
                k,
                match m_get(c, k) {
                    Some(xs) => xs + e,
                    None => e,
                },
            ),
        ),
{
    let nv = match m_get(c, k) {
        Some(xs) => xs + e,
        None => e,
    };
    let c2 = crate::maps::m_insert(c, k, nv);
    assert forall|j: Seq<char>| #[trigger] m_has(c2, j) implies elems_fit(m, z, j, m_get(c2, j)->0) by {
        crate::maps::lemma_m_insert_get(c, k, nv, j);
        if j != k {
            assert(m_has(c, j));
        } else if m_get(c, k) is Some {
            assert(m_has(c, k));
            let xs = m_get(c, k)->0;
            if m_get(m.vars, k) is Some && m_get(m.vars, k)->0.ty != VarType::Chars {
                let info = m_get(m.vars, k)->0;
                let ef = crate::random_test::gen::spec_effective_lo_hi(k, info, z, m);
                assert forall|q: int| 0 <= q < nv.len() implies elem_ok(#[trigger] nv[q], ef.0, ef.1, info.values) by {
                    if q < xs.len() {
                        assert(nv[q] == xs[q]);
                    } else {
                        assert(nv[q] == e[q - xs.len()]);
                    }
                }
            }
        }
    }
}

/// A size variable under the small-size or maximal-size strategy takes
/// that size directly.
pub open spec fn size_shortcut(st: CaseStrategy, m: ResolvedM, name: Seq<char>) -> bool {
    m_has(m.size_vars, name) && (st matches CaseStrategy::Random(RandomStrategy::SmallSize(_)) || st
        == CaseStrategy::Random(RandomStrategy::MaxSize))
}

/// The bounds a scalar is drawn within, as `narrow_scalar_bounds` gives
/// them: none when the bounds from the known scalars are already empty,
/// else those narrowed by the known arrays, none when empty.
pub open spec fn scalar_range(
    name: Seq<char>,
    lohi: (i64, i64),
    m: ResolvedM,
    ctx: Seq<(Seq<char>, i64)>,
    arrays: Seq<(Seq<char>, Seq<i64>)>,
) -> Option<(i64, i64)> {
    let b1 = crate::random_test::relation::narrow_by_scalars(name, lohi, m.ordering, ctx);
    if b1.0 > b1.1 {
        None
    } else {
        let b2 = crate::random_test::relation::narrow_by_arrays(name, b1, m.ordering, arrays);
        crate::random_test::relation::spec_valid_bounds(b2.0, b2.1)
    }
}

/// The size a size variable takes under the small-size strategy (its size
/// clamped into the range) or the maximal-size one (the range's top).
pub open spec fn shortcut_value(st: CaseStrategy, lo: i64, hi: i64) -> i64 {
    match st {
        CaseStrategy::Random(RandomStrategy::SmallSize(k)) => crate::random_test::gen::clamp_size(k, lo, hi),
        _ => hi,
    }
}

/// What a scalar value drawn for `name` is, whatever the draws: `None`
/// when no range is left; inside the range and avoiding what it must
/// differ from; the shortcut size when that is allowed; from the domain
/// when there is one, `None` exactly when no domain value is allowed;
/// and the smallest or largest allowed value under the deterministic
/// extremes.
pub open spec fn scalar_value_ok(
    name: Seq<char>,
    info: VarInfoM,
    sizes: crate::random_test::gen::SizesM,
    st: CaseStrategy,
    m: ResolvedM,
    ctx: Seq<(Seq<char>, i64)>,
    arrays: Seq<(Seq<char>, Seq<i64>)>,
    r: Option<i64>,
) -> bool {
    match scalar_range(name, crate::random_test::gen::spec_effective_lo_hi(name, info, sizes, m), m, ctx, arrays) {
        None => r is None,
        Some((lo, hi)) => {
            &&& r matches Some(x) ==> lo <= x <= hi && !forbids_scalar(name, m.not_equal, ctx, arrays, x)
            &&& size_shortcut(st, m, name) ==> {
                let c = shortcut_value(st, lo, hi);
                &&& !forbids_scalar(name, m.not_equal, ctx, arrays, c) ==> r == Some(c)
                &&& (forall|y: i64| lo <= y <= hi ==> #[trigger] forbids_scalar(name, m.not_equal, ctx, arrays, y)) ==> r is None
            }
            &&& !size_shortcut(st, m, name) && (info.values matches Some(vs) && vs.len() > 0) ==> {
                let vs = info.values->0;
                &&& r is None <==> !exists|x: i64| vs.contains(x) && lo <= x <= hi && !#[trigger] forbids_scalar(name, m.not_equal, ctx, arrays, x)
                &&& r matches Some(x) ==> vs.contains(x)
            }
            &&& !size_shortcut(st, m, name) && !(info.values matches Some(vs) && vs.len() > 0) ==> {
                &&& st == CaseStrategy::Deterministic(DeterministicStrategy::AllMin) ==> match r {
                    Some(x) => forall|y: i64| lo <= y < x ==> #[trigger] forbids_scalar(name, m.not_equal, ctx, arrays, y),
                    None => forall|y: i64| lo <= y <= hi ==> #[trigger] forbids_scalar(name, m.not_equal, ctx, arrays, y),
                }
                &&& st == CaseStrategy::Deterministic(DeterministicStrategy::AllMax) ==> match r {
                    Some(x) => forall|y: i64| x < y <= hi ==> #[trigger] forbids_scalar(name, m.not_equal, ctx, arrays, y),
                    None => forall|y: i64| lo <= y <= hi ==> #[trigger] forbids_scalar(name, m.not_equal, ctx, arrays, y),
                }
                &&& crate::random_test::pick::fixed_candidate(st, 0, 1, lo, hi) matches Some(c) ==> (!forbids_scalar(name, m.not_equal, ctx, arrays, c) ==> r
                    == Some(c))
            }
        },
    }
}

/// A scalar value for `name` within its effective range narrowed by what
/// it is ordered against, avoiding what it must differ from. A size
/// variable under the small-size or maximal-size strategy takes that size
/// when allowed; otherwise the value is picked as a one-element array
/// would be. `None` when nothing is left.
pub fn constrained_scalar_value(
    spec: &ResolvedSpec,
    name: &str,
    info: &VarInfo,
    sizes: &StructuralSizes,
    st: &CaseStrategy,
    ctx: &StrMap<i64>,
    array_ctx: &StrMap<Vec<i64>>,
    rng: &mut rand::rngs::SmallRng,
    stop: &AtomicBool,
) -> (r: Option<i64>)
    ensures
        r matches Some(x) ==> {
            let b = scalar_bounds(
                name@,
                crate::random_test::gen::spec_effective_lo_hi(name@, info.deep_view(), sizes.model(), spec.model()),
                spec.model(),
                ctx.model(),
                array_ctx.model(),
            );
            &&& b.0 <= x <= b.1
            &&& !forbids_scalar(name@, spec.model().not_equal, ctx.model(), array_ctx.model(), x)
            &&& (info.values matches Some(vs) && vs@.len() > 0) && !size_shortcut(*st, spec.model(), name@)
                ==> info.values->0@.contains(x)
        },
        scalar_value_ok(
            name@,
            info.deep_view(),
            sizes.model(),
            *st,
            spec.model(),
            ctx.model(),
            array_ctx.model(),
            r,
        ),
        // whatever is drawn lies in the effective range
        r matches Some(x) ==> ({
            let e = crate::random_test::gen::spec_effective_lo_hi(name@, info.deep_view(), sizes.model(), spec.model());
            e.0 <= x <= e.1
        }),
        // no draw decides whether a value comes: it comes whenever the
        // narrowed range is not empty, no value in it is forbidden, and an
        // enumerated domain (when one applies) meets it
        ({
            let b = scalar_bounds(
                name@,
                crate::random_test::gen::spec_effective_lo_hi(name@, info.deep_view(), sizes.model(), spec.model()),
                spec.model(),
                ctx.model(),
                array_ctx.model(),
            );
            &&& b.0 <= b.1
            &&& forall|y: i64| b.0 <= y <= b.1 ==> !#[trigger] forbids_scalar(name@, spec.model().not_equal, ctx.model(), array_ctx.model(), y)
            &&& (info.values matches Some(vs) && vs@.len() > 0) && !size_shortcut(*st, spec.model(), name@)
                ==> exists|x: i64| info.values->0@.contains(x) && b.0 <= x && x <= b.1
        }) ==> r is Some,
{
    broadcast use vstd::std_specs::hash::group_hash_axioms;
    let (lo0, hi0) = effective_lo_hi(name, info, sizes, spec);
    proof {
        let b1 = crate::random_test::relation::narrow_by_scalars(name@, (lo0, hi0), spec.model().ordering, ctx.model());
        crate::random_test::relation::lemma_narrow_by_arrays_shrinks(name@, b1, spec.model().ordering, array_ctx.model());
        crate::random_test::relation::lemma_narrow_by_scalars_shrinks(name@, (lo0, hi0), spec.model().ordering, ctx.model());
    }
    let (lo, hi) = match narrow_scalar_bounds(name, lo0, hi0, spec, ctx, array_ctx) {
        Some(b) => b,
        None => return None,
    };
    let forbidden = not_equal_forbidden_scalar(name, spec, ctx, array_ctx);
    let used: HashSet<i64> = HashSet::new();
    let is_size = spec.size_vars.contains(name);
    let candidate: Option<i64> = match st {
        CaseStrategy::Random(RandomStrategy::SmallSize(k)) if is_size => {
            let a = if *k >= lo { *k } else { lo };
            Some(if a <= hi { a } else { hi })
        },
        CaseStrategy::Random(RandomStrategy::MaxSize) if is_size => Some(hi),
        _ => None,
    };
    proof {
        assert(used@ =~= Set::<i64>::empty());
        assert(is_size == m_has(spec.model().size_vars, name@));
        assert(candidate is Some <==> size_shortcut(*st, spec.model(), name@));
        assert(candidate matches Some(x) ==> x == shortcut_value(*st, lo, hi));
    }
    match candidate {
        Some(x) => {
            if !forbidden.contains(&x) {
                return Some(x);
            }
            proof {
                assert(lo <= x <= hi);
                assert(forbids_scalar(name@, spec.model().not_equal, ctx.model(), array_ctx.model(), x));
            }
            let res = bounded_distinct_int(st, lo, hi, &used, &forbidden, rng, stop);
            proof {
                assert forall|y: i64| lo <= y <= hi && #[trigger] forbidden@.contains(y) implies !free(
                    y,
                    used@,
                    forbidden@,
                ) by {}
                let ghost nm = name@;
                let ghost ne = spec.model().not_equal;
                let ghost cm = ctx.model();
                let ghost am = array_ctx.model();
                if forall|y: i64| lo <= y <= hi ==> #[trigger] forbids_scalar(nm, ne, cm, am, y) {
                    assert forall|y: i64| lo <= y <= hi implies !#[trigger] free(y, used@, forbidden@) by {
                        assert(forbids_scalar(nm, ne, cm, am, y));
                    }
                    assert(all_blocked(lo, hi, used@, forbidden@));
                }
                assert(forbids_scalar(nm, ne, cm, am, x));
                assert(size_shortcut(*st, spec.model(), name@));
                if res is Some {
                    assert(!forbids_scalar(nm, ne, cm, am, res->0));
                }
            }
            return res;
        },
        None => {
            let values: Option<&Vec<i64>> = match &info.values {
                Some(vs) => Some(vs),
                None => None,
            };
            let res = gen_positionally_bounded_int(st, 0, 1, lo, hi, values, false, &used, &forbidden, rng, stop);
            proof {
                let ghost nm = name@;
                let ghost ne = spec.model().not_equal;
                let ghost cm = ctx.model();
                let ghost am = array_ctx.model();
                if forall|y: i64| lo <= y <= hi ==> !#[trigger] forbids_scalar(nm, ne, cm, am, y) {
                    assert forall|y: i64| lo <= y <= hi implies !#[trigger] forbidden@.contains(y) by {
                        assert(!forbids_scalar(nm, ne, cm, am, y));
                    }
                    if info.values is Some && info.values->0@.len() > 0 && !size_shortcut(*st, spec.model(), nm) {
                        if exists|x: i64| info.values->0@.contains(x) && lo <= x && x <= hi {
                            let x = choose|x: i64| info.values->0@.contains(x) && lo <= x && x <= hi;
                            assert(!forbids_scalar(nm, ne, cm, am, x));
                            assert(allowed(x, lo, hi, false, used@, forbidden@));
                        }
                    }
                }
                assert forall|y: i64| #[trigger] forbids_scalar(nm, ne, cm, am, y) <==> forbidden@.contains(y) by {}
                assert forall|y: i64| #[trigger] allowed(y, lo, hi, false, used@, forbidden@) <==> (lo <= y <= hi
                    && !forbids_scalar(nm, ne, cm, am, y)) by {}
                if info.values is Some {
                    assert(info.deep_view().values == Some(info.values->0@));
                    assert(values == Some(&info.values->0));
                    let ghost vs = info.values->0@;
                    if vs.len() > 0 && !size_shortcut(*st, spec.model(), nm) {
                        if res is None {
                            assert forall|x: i64| vs.contains(x) && lo <= x <= hi implies #[trigger] forbids_scalar(
                                nm,
                                ne,
                                cm,
                                am,
                                x,
                            ) by {
                                if !forbids_scalar(nm, ne, cm, am, x) {
                                    assert(allowed(x, lo, hi, false, used@, forbidden@));
                                }
                            }
                        } else {
                            let z = res->0;
                            assert(vs.contains(z) && allowed(z, lo, hi, false, used@, forbidden@));
                            assert(lo <= z <= hi && !forbids_scalar(nm, ne, cm, am, z));
                        }
                    }
                }
            }
            res
        },
    }
}


/// One size scalar decided afresh, with nothing known yet. `None` is a
/// constraint miss.
pub fn size_value(
    spec: &ResolvedSpec,
    name: &str,
    sizes: &StructuralSizes,
    st: &CaseStrategy,
    rng: &mut rand::rngs::SmallRng,
    stop: &AtomicBool,
) -> (r: Option<i64>)
    requires
        m_has(spec.model().vars, name@),
    ensures
        scalar_value_ok(
            name@,
            m_get(spec.model().vars, name@)->0,
            sizes.model(),
            *st,
            spec.model(),
            Seq::empty(),
            Seq::empty(),
            r,
        ),
        r matches Some(x) ==> ({
            let e = crate::random_test::gen::spec_effective_lo_hi(
                name@,
                m_get(spec.model().vars, name@)->0,
                sizes.model(),
                spec.model(),
            );
            e.0 <= x <= e.1
        }),
{
    let info = match spec.vars.get(name) {
        Some(i) => i,
        None => return None,
    };
    let ctx: StrMap<i64> = StrMap::new();
    let arrays: StrMap<Vec<i64>> = StrMap::new();
    constrained_scalar_value(spec, name, info, sizes, st, &ctx, &arrays, rng, stop)
}

/// A size name without an offset: the known value, else a literal, else
/// a fresh size value, remembered in `ctx`.
fn resolve_base(
    name: &str,
    spec: &ResolvedSpec,
    sizes: &StructuralSizes,
    st: &CaseStrategy,
    ctx: &mut StrMap<i64>,
    rng: &mut rand::rngs::SmallRng,
    stop: &AtomicBool,
) -> (r: Option<i64>)
    requires
        base_ok(spec.model(), name@),
    ensures
        extends(old(ctx).model(), final(ctx).model()),
        forall|k: Seq<char>| k != name@ ==> m_get(final(ctx).model(), k) == #[trigger] m_get(old(ctx).model(), k),
        r matches Some(v) ==> m_get(final(ctx).model(), name@) == Some(v),
        m_get(old(ctx).model(), name@) matches Some(v) ==> r == Some(v),
        !m_has(old(ctx).model(), name@) ==> (m_get(spec.model().size_terms, name@) matches Some(
            SizeTermM::Lit(n),
        ) ==> r == Some(n)),
        ints_ok(spec.model(), sizes.model(), old(ctx).model()) ==> ints_ok(spec.model(), sizes.model(), final(ctx).model()),
{
    match ctx.get(name) {
        Some(v) => return Some(*v),
        None => {},
    }
    let v = match spec.size_terms.get(name) {
        Some(SizeTerm::Lit(n)) => *n,
        Some(SizeTerm::Var(vn)) => match size_value(spec, vn.as_str(), sizes, st, rng, stop) {
            Some(x) => x,
            None => return None,
        },
        Some(SizeTerm::VarOffset(_, _)) => return None,
        None => match size_value(spec, name, sizes, st, rng, stop) {
            Some(x) => x,
            None => return None,
        },
    };
    let ghost before = ctx.model();
    proof {
        if ints_ok(spec.model(), sizes.model(), before) {
            assert(int_fits(spec.model(), sizes.model(), name@, v));
            lemma_ints_insert(spec.model(), sizes.model(), before, name@, v);
        }
    }
    ctx.insert(name.to_string(), v);
    proof {
        assert forall|k: Seq<char>| #[trigger] m_has(before, k) implies m_get(ctx.model(), k) == m_get(before, k) by {
            crate::maps::lemma_m_insert_get(before, name@, v, k);
        }
        assert forall|k: Seq<char>| k != name@ implies m_get(ctx.model(), k) == #[trigger] m_get(before, k) by {
            crate::maps::lemma_m_insert_get(before, name@, v, k);
        }
        crate::maps::lemma_m_insert_get(before, name@, v, name@);
    }
    Some(v)
}

/// A count or size variable: the known value (a seeded structural size or
/// an earlier scalar), else decided now from its term and remembered so a
/// later reference agrees. `None` is a constraint miss (or an offset that
/// leaves `i64`).
pub fn resolve_count(
    name: &str,
    spec: &ResolvedSpec,
    sizes: &StructuralSizes,
    st: &CaseStrategy,
    ctx: &mut StrMap<i64>,
    rng: &mut rand::rngs::SmallRng,
    stop: &AtomicBool,
) -> (r: Option<i64>)
    requires
        count_ok(spec.model(), name@),
    ensures
        extends(old(ctx).model(), final(ctx).model()),
        r matches Some(v) ==> m_get(final(ctx).model(), name@) == Some(v),
        m_get(old(ctx).model(), name@) matches Some(v) ==> r == Some(v),
        !m_has(old(ctx).model(), name@) ==> (m_get(spec.model().size_terms, name@) matches Some(
            SizeTermM::Lit(n),
        ) ==> r == Some(n)),
        ints_ok(spec.model(), sizes.model(), old(ctx).model()) ==> ints_ok(spec.model(), sizes.model(), final(ctx).model()),
{
    match ctx.get(name) {
        Some(v) => return Some(*v),
        None => {},
    }
    let ghost c0 = ctx.model();
    let v = match spec.size_terms.get(name) {
        Some(SizeTerm::Lit(n)) => *n,
        Some(SizeTerm::Var(vn)) => match size_value(spec, vn.as_str(), sizes, st, rng, stop) {
            Some(x) => x,
            None => return None,
        },
        Some(SizeTerm::VarOffset(vn, off)) => {
            assert(vn@ != name@);
            let b = match resolve_base(vn.as_str(), spec, sizes, st, ctx, rng, stop) {
                Some(x) => x,
                None => return None,
            };
            match b.checked_add(*off) {
                Some(x) => x,
                None => return None,
            }
        },
        None => match size_value(spec, name, sizes, st, rng, stop) {
            Some(x) => x,
            None => return None,
        },
    };
    let ghost before = ctx.model();
    assert(!m_has(before, name@)) by {
        if m_has(before, name@) {
            assert(m_has(c0, name@) ==> m_get(before, name@) == m_get(c0, name@));
        }
    }
    proof {
        if ints_ok(spec.model(), sizes.model(), before) {
            assert(int_fits(spec.model(), sizes.model(), name@, v));
            lemma_ints_insert(spec.model(), sizes.model(), before, name@, v);
        }
    }
    ctx.insert(name.to_string(), v);
    proof {
        assert forall|k: Seq<char>| #[trigger] m_has(c0, k) implies m_get(ctx.model(), k) == m_get(c0, k) by {
            crate::maps::lemma_m_insert_get(before, name@, v, k);
            assert(m_has(before, k));
        }
        crate::maps::lemma_m_insert_get(before, name@, v, name@);
    }
    Some(v)
}

/// A parser-made length domain `|S|`.
pub fn is_synthetic_chars_len(name: &str) -> (r: bool)
    ensures
        r == is_synthetic(name@),
{
    let cs = crate::text::chars_of(name);
    cs.len() >= 2 && cs[0] == '|' && cs[cs.len() - 1] == '|'
}

/// `n` as a length: negative is 0, and beyond `usize` is the largest.
fn as_len(n: i64) -> (r: usize)
    ensures
        r == as_len_spec(n),
{
    if n <= 0 {
        0
    } else if (n as u128) > (usize::MAX as u128) {
        usize::MAX
    } else {
        n as usize
    }
}

/// The length of one string token. A length domain `|S|` is sampled
/// afresh for every token; a size expression uses the shared resolved
/// value. `None` is a constraint miss.
fn resolve_len(
    repr: &Option<BoundRepr>,
    spec: &ResolvedSpec,
    sizes: &StructuralSizes,
    st: &CaseStrategy,
    ctx: &mut StrMap<i64>,
    rng: &mut rand::rngs::SmallRng,
    stop: &AtomicBool,
) -> (r: Option<usize>)
    requires
        len_ok(
            spec.model(),
            match *repr {
                Some(b) => Some(crate::parse::types::repr_view(b)),
                None => None,
            },
        ),
    ensures
        extends(old(ctx).model(), final(ctx).model()),
        *repr matches Some(BoundRepr::Lit(n)) ==> r == Some(as_len_spec(n)),
        r matches Some(l) ==> str_len_ok(
            spec.model(),
            sizes.model(),
            match *repr {
                Some(b) => Some(crate::parse::types::repr_view(b)),
                None => None,
            },
            l as nat,
        ),
        ints_ok(spec.model(), sizes.model(), old(ctx).model()) ==> ints_ok(spec.model(), sizes.model(), final(ctx).model()),
{
    let len: i64 = match repr {
        Some(BoundRepr::Lit(n)) => *n,
        Some(BoundRepr::Expr(e)) => {
            if is_synthetic_chars_len(e.as_str()) {
                match size_value(spec, e.as_str(), sizes, st, rng, stop) {
                    Some(x) => {
                        assert(as_len_spec(x) == as_len_spec(x));
                        x
                    },
                    None => return None,
                }
            } else {
                match spec.size_terms.get(e.as_str()) {
                    Some(SizeTerm::Lit(n)) => *n,
                    Some(SizeTerm::Var(vn)) => match resolve_count(vn.as_str(), spec, sizes, st, ctx, rng, stop) {
                        Some(x) => x,
                        None => return None,
                    },
                    Some(SizeTerm::VarOffset(vn, off)) => {
                        let b = match resolve_count(vn.as_str(), spec, sizes, st, ctx, rng, stop) {
                            Some(x) => x,
                            None => return None,
                        };
                        match b.checked_add(*off) {
                            Some(x) => x,
                            None => return None,
                        }
                    },
                    None => return None,
                }
            }
        },
        None => return None,
    };
    Some(as_len(len))
}

pub open spec fn as_len_spec(n: i64) -> usize {
    if n <= 0 {
        0
    } else if n > usize::MAX {
        usize::MAX
    } else {
        n as usize
    }
}

/// A string value for a string variable: its length resolved, counted
/// against the budget, then drawn over its charset.
pub fn gen_chars(
    info: &VarInfo,
    spec: &ResolvedSpec,
    st: &CaseStrategy,
    sizes: &StructuralSizes,
    ctx: &mut StrMap<i64>,
    budget: &mut Budget,
    rng: &mut rand::rngs::SmallRng,
    stop: &AtomicBool,
) -> (r: Result<Option<String>, GenError>)
    requires
        info.charset matches Some(cs) && cs@.len() > 0 && cs@.len() <= i64::MAX,
        len_ok(spec.model(), info.deep_view().len),
    ensures
        extends(old(ctx).model(), final(ctx).model()),
        ints_ok(spec.model(), sizes.model(), old(ctx).model()) ==> ints_ok(spec.model(), sizes.model(), final(ctx).model()),
        final(budget).limit == old(budget).limit,
        r matches Ok(Some(s)) ==> forall|i: int| 0 <= i < s@.len() ==> info.charset->0@.contains(#[trigger] s@[i]),
        r matches Ok(Some(s)) ==> str_len_ok(spec.model(), sizes.model(), info.deep_view().len, s@.len()),
        r matches Err(e) ==> crate::random_test::budget::is_oversize(e),
        r matches Ok(Some(s)) ==> old(budget).used + s@.len() <= old(budget).limit && final(budget).used
            == old(budget).used + s@.len(),
        r matches Ok(Some(s)) ==> (info.charset->0@.len() == 1 ==> forall|i: int|
            0 <= i < s@.len() ==> #[trigger] s@[i] == info.charset->0@[0]),
        info.len matches Some(BoundRepr::Lit(n)) ==> match r {
            Ok(Some(s)) => s@.len() == as_len_spec(n),
            Ok(None) => false,
            Err(_) => old(budget).used + as_len_spec(n) > old(budget).limit,
        },
{
    assert(info.deep_view().len == match info.len {
        Some(b) => Some(crate::parse::types::repr_view(b)),
        None => None,
    });
    let len = match resolve_len(&info.len, spec, sizes, st, ctx, rng, stop) {
        Some(l) => l,
        None => return Ok(None),
    };
    match budget.add(len as u128) {
        Ok(()) => {},
        Err(e) => return Err(e),
    }
    let cs = match &info.charset {
        Some(c) => c,
        None => return Ok(None),
    };
    Ok(Some(gen_string(st, cs, len, None, rng)))
}

// ─── output helpers ─────────────────────────────────────────────────────────

/// The integers in decimal, separated by single spaces.
pub open spec fn spec_join_ints(v: Seq<i64>) -> Seq<char>
    decreases v.len(),
{
    if v.len() == 0 {
        seq![]
    } else if v.len() == 1 {
        spec_int_chars(v[0] as int)
    } else {
        spec_join_ints(v.drop_last()) + seq![' '] + spec_int_chars(v.last() as int)
    }
}

/// The integers in decimal, separated by single spaces.
pub fn join_ints(v: &Vec<i64>) -> (r: String)
    ensures
        r@ == spec_join_ints(v@),
{
    let mut out: Vec<char> = Vec::new();
    let mut i: usize = 0;
    while i < v.len()
        invariant
            i <= v@.len(),
            out@ == spec_join_ints(v@.take(i as int)),
        decreases v.len() - i,
    {
        assert(v@.take(i + 1).drop_last() =~= v@.take(i as int));
        if i > 0 {
            out.push(' ');
        }
        let d = crate::text::int_chars(v[i] as i128);
        crate::text::append_chars(&mut out, &d);
        proof {
            if i == 0 {
                assert(out@ =~= spec_int_chars(v@[0] as int));
            } else {
                assert(out@ =~= spec_join_ints(v@.take(i as int)) + seq![' '] + spec_int_chars(v@[i as int] as int));
            }
        }
        i += 1;
    }
    assert(v@.take(v@.len() as int) =~= v@);
    crate::text::string_of(&out)
}

/// The alternating strategy.
pub fn is_altmaxmin(st: &CaseStrategy) -> (r: bool)
    ensures
        r == (*st == CaseStrategy::Random(RandomStrategy::ArrayAltMaxMin)),
{
    *st == CaseStrategy::Random(RandomStrategy::ArrayAltMaxMin)
}

/// The ends of a checkerboard: an enumerated domain's smallest and largest
/// values, else the range.
pub fn checkerboard_bounds(values: Option<&Vec<i64>>, lo: i64, hi: i64) -> (r: (i64, i64))
    ensures
        match values {
            Some(vs) => if vs@.len() > 0 {
                r == (seq_min(vs@), seq_max(vs@))
            } else {
                r == (lo, hi)
            },
            None => r == (lo, hi),
        },
{
    match values {
        Some(vs) => {
            if vs.len() == 0 {
                return (lo, hi);
            }
            let mut mn = vs[0];
            let mut mx = vs[0];
            let mut i: usize = 1;
            assert(vs@.take(1).drop_last() =~= Seq::<i64>::empty());
            while i < vs.len()
                invariant
                    1 <= i <= vs@.len(),
                    mn == seq_min(vs@.take(i as int)),
                    mx == seq_max(vs@.take(i as int)),
                decreases vs.len() - i,
            {
                assert(vs@.take(i + 1).drop_last() =~= vs@.take(i as int));
                if vs[i] < mn {
                    mn = vs[i];
                }
                if vs[i] > mx {
                    mx = vs[i];
                }
                i += 1;
            }
            assert(vs@.take(vs@.len() as int) =~= vs@);
            (mn, mx)
        },
        None => (lo, hi),
    }
}

/// One checkerboard cell: the upper end where the grid index plus the
/// phase is even, the lower end elsewhere.
pub fn checkerboard_cell(lo: i64, hi: i64, idx: usize, phase: usize) -> (r: i64)
    ensures
        r == if (idx + phase) % 2 == 0 {
            hi
        } else {
            lo
        },
{
    let even = (idx % 2 + phase % 2) % 2 == 0;
    assert(((idx % 2 + phase % 2) % 2 == 0) == ((idx + phase) % 2 == 0)) by (nonlinear_arith);
    if even {
        hi
    } else {
        lo
    }
}


// ─── array renderers ────────────────────────────────────────────────────────

/// `old` is a prefix of `new`.
pub open spec fn grows(old: Seq<String>, new: Seq<String>) -> bool {
    old.len() <= new.len() && forall|i: int| 0 <= i < old.len() ==> #[trigger] new[i] == old[i]
}

pub proof fn lemma_grows_push(a: Seq<String>, b: Seq<String>, x: String)
    requires
        grows(a, b),
    ensures
        grows(a, b.push(x)),
{
    assert forall|i: int| 0 <= i < a.len() implies #[trigger] b.push(x)[i] == a[i] by {
        assert(b.push(x)[i] == b[i]);
    }
}

pub proof fn lemma_grows_trans(a: Seq<String>, b: Seq<String>, c: Seq<String>)
    requires
        grows(a, b),
        grows(b, c),
    ensures
        grows(a, c),
{
    assert forall|i: int| 0 <= i < a.len() implies #[trigger] c[i] == a[i] by {
        assert(c[i] == b[i]);
    }
}

pub proof fn lemma_extends_trans<W>(a: Seq<(Seq<char>, W)>, b: Seq<(Seq<char>, W)>, c: Seq<(Seq<char>, W)>)
    requires
        extends(a, b),
        extends(b, c),
    ensures
        extends(a, c),
{
    assert forall|k: Seq<char>| #[trigger] m_has(a, k) implies m_get(c, k) == m_get(a, k) by {
        assert(m_get(b, k) == m_get(a, k));
        assert(m_has(b, k));
    }
}

fn array_len_of(array_ctx: &StrMap<Vec<i64>>, name: &str) -> (r: usize)
    ensures
        r == match m_get(array_ctx.model(), name@) {
            Some(xs) => xs.len(),
            None => 0,
        },
{
    match array_ctx.get(name) {
        Some(xs) => {
            assert(xs.deep_view() =~= xs@);
            xs.len()
        },
        None => 0,
    }
}

fn values_ref(info: &VarInfo) -> (r: Option<&Vec<i64>>)
    ensures
        r == match info.values {
            Some(vs) => Some(&vs),
            None => None::<&Vec<i64>>,
        },
{
    match &info.values {
        Some(vs) => Some(vs),
        None => None,
    }
}

/// `a * b`, or the largest `usize` when it does not fit.
fn sat_mul(a: usize, b: usize) -> (r: usize)
    ensures
        r == if a * b > usize::MAX {
            usize::MAX as int
        } else {
            a * b
        },
{
    match a.checked_mul(b) {
        Some(x) => x,
        None => usize::MAX,
    }
}

fn too_large() -> (r: GenError)
    ensures
        crate::random_test::budget::is_oversize(r),
{
    let m = "input too large: generated array positions exceed the address space";
    proof {
        reveal_strlit("input too large: generated array positions exceed the address space");
        reveal_strlit("input too large: ");
        assert(m@.take(crate::random_test::budget::oversize_prefix().len() as int)
            =~= crate::random_test::budget::oversize_prefix());
    }
    crate::random_test::budget::oversize(m)
}

/// A resolved size as a length: the value recorded for `name`, negative
/// as 0.
pub open spec fn size_in(c: Seq<(Seq<char>, i64)>, name: Seq<char>) -> nat {
    as_len_spec(m_get(c, name)->0) as nat
}

pub open spec fn opt_size_in(c: Seq<(Seq<char>, i64)>, name: Option<String>, absent: nat) -> nat {
    match name {
        Some(n) => size_in(c, n@),
        None => absent,
    }
}

/// The rows of an integer array: one line for a plain array, else the
/// count, the height, or their product (the largest `usize` beyond it).
pub open spec fn array_rows(c: Seq<(Seq<char>, i64)>, count: Option<String>, height: Option<String>) -> nat {
    match (count, height) {
        (None, None) => 1,
        (Some(x), None) => size_in(c, x@),
        (None, Some(h)) => size_in(c, h@),
        (Some(x), Some(h)) => if size_in(c, x@) * size_in(c, h@) > usize::MAX {
            usize::MAX as nat
        } else {
            size_in(c, x@) * size_in(c, h@)
        },
    }
}

/// A value allowed for an element: from the domain when there is one,
/// else within `[lo, hi]`.
pub open spec fn elem_ok(x: i64, lo: i64, hi: i64, values: Option<Seq<i64>>) -> bool {
    match values {
        Some(vs) => if vs.len() > 0 {
            vs.contains(x)
        } else {
            lo <= x <= hi
        },
        None => lo <= x <= hi,
    }
}

/// A line of `n` allowed integers in decimal, separated by single spaces,
/// no two equal when `distinct`.
pub open spec fn int_line(line: Seq<char>, n: nat, lo: i64, hi: i64, values: Option<Seq<i64>>, distinct: bool) -> bool {
    exists|xs: Seq<i64>|
        xs.len() == n && line == #[trigger] spec_join_ints(xs) && (distinct ==> xs.no_duplicates()) && forall|i: int|
            0 <= i < xs.len() ==> elem_ok(#[trigger] xs[i], lo, hi, values)
}

/// The lines added after `from` are each a line of `n` allowed integers.
pub open spec fn int_lines_from(
    lines: Seq<String>,
    from: int,
    n: nat,
    lo: i64,
    hi: i64,
    values: Option<Seq<i64>>,
    distinct: bool,
) -> bool {
    forall|k: int| from <= k < lines.len() ==> int_line(#[trigger] lines[k]@, n, lo, hi, values, distinct)
}

proof fn lemma_int_lines_push(
    lines: Seq<String>,
    from: int,
    n: nat,
    lo: i64,
    hi: i64,
    values: Option<Seq<i64>>,
    distinct: bool,
    x: String,
    xs: Seq<i64>,
)
    requires
        int_lines_from(lines, from, n, lo, hi, values, distinct),
        0 <= from <= lines.len(),
        xs.len() == n,
        x@ == spec_join_ints(xs),
        distinct ==> xs.no_duplicates(),
        forall|i: int| 0 <= i < xs.len() ==> elem_ok(#[trigger] xs[i], lo, hi, values),
    ensures
        int_lines_from(lines.push(x), from, n, lo, hi, values, distinct),
{
    assert(int_line(x@, n, lo, hi, values, distinct));
    assert forall|k: int| from <= k < lines.push(x).len() implies int_line(
        #[trigger] lines.push(x)[k]@,
        n,
        lo,
        hi,
        values,
        distinct,
    ) by {
        if k < lines.len() {
            assert(lines.push(x)[k] == lines[k]);
        }
    }
}

proof fn lemma_seq_min_max_in(s: Seq<i64>)
    requires
        s.len() > 0,
    ensures
        s.contains(crate::random_test::spec::seq_min(s)),
        s.contains(crate::random_test::spec::seq_max(s)),
    decreases s.len(),
{
    if s.len() == 1 {
        assert(s[0] == crate::random_test::spec::seq_min(s));
        assert(s[0] == crate::random_test::spec::seq_max(s));
    } else {
        lemma_seq_min_max_in(s.drop_last());
        let a = crate::random_test::spec::seq_min(s.drop_last());
        let b = crate::random_test::spec::seq_max(s.drop_last());
        let i = choose|i: int| 0 <= i < s.drop_last().len() && s.drop_last()[i] == a;
        let j = choose|j: int| 0 <= j < s.drop_last().len() && s.drop_last()[j] == b;
        assert(s[i] == a && s[j] == b);
        assert(s[s.len() - 1] == s.last());
    }
}

/// A resolved size recorded in `c` reads the same in every extension.
proof fn lemma_size_kept(c: Seq<(Seq<char>, i64)>, d: Seq<(Seq<char>, i64)>, name: Seq<char>)
    requires
        m_has(c, name),
        extends(c, d),
    ensures
        m_get(d, name) == m_get(c, name),
{
}

/// A jagged row: its length, not negative, then that many integers.
pub open spec fn jagged_line(line: Seq<char>, lo: i64, hi: i64, values: Option<Seq<i64>>) -> bool {
    exists|xs: Seq<i64>|
        xs.len() >= 1 && xs[0] >= 0 && xs.len() == 1 + as_len_spec(xs[0]) && line == #[trigger] spec_join_ints(xs)
            && forall|i: int| 1 <= i < xs.len() ==> elem_ok(#[trigger] xs[i], lo, hi, values)
}

/// A jagged array: the row count resolved once, then per row a length
/// drawn from the length variable's range (never cached, so rows differ),
/// written first on the line, and the row's values.
pub fn render_jagged(
    a: &ArrayBlock,
    spec: &ResolvedSpec,
    st: &CaseStrategy,
    sizes: &StructuralSizes,
    ctx: &mut StrMap<i64>,
    array_ctx: &mut StrMap<Vec<i64>>,
    lines: &mut Vec<String>,
    budget: &mut Budget,
    rng: &mut rand::rngs::SmallRng,
    stop: &AtomicBool,
) -> (r: Result<bool, GenError>)
    requires
        value_ok(spec.model(), a.base@),
        opt_count_ok(spec.model(), crate::regex_ops::opt_view(a.count)),
        a.len matches Some(l) && jag_len_ok(spec.model(), l@),
    ensures
        ints_ok(spec.model(), sizes.model(), old(ctx).model()) ==> ints_ok(spec.model(), sizes.model(), final(ctx).model()),
        arrs_ok(spec.model(), sizes.model(), old(array_ctx).model()) ==> arrs_ok(spec.model(), sizes.model(), final(array_ctx).model()),
        final(budget).limit == old(budget).limit,
        extends(old(ctx).model(), final(ctx).model()),
        grows(old(lines)@, final(lines)@),
        r matches Ok(true) ==> ({
            let rows = match a.count {
                Some(c) => {
                    let v = m_get(final(ctx).model(), c@)->0;
                    if v > 0 {
                        v as nat
                    } else {
                        0nat
                    }
                },
                None => 0nat,
            };
            let info = m_get(spec.model().vars, a.base@)->0;
            let b = crate::random_test::relation::narrow_by_scalars(
                a.base@,
                crate::random_test::gen::spec_effective_lo_hi(a.base@, info, sizes.model(), spec.model()),
                spec.model().ordering,
                final(ctx).model(),
            );
            &&& final(lines)@.len() == old(lines)@.len() + rows
            &&& forall|k: int|
                old(lines)@.len() <= k < final(lines)@.len() ==> jagged_line(
                    #[trigger] final(lines)@[k]@,
                    b.0,
                    b.1,
                    info.values,
                )
            &&& old(budget).used <= old(budget).limit ==> final(budget).used <= final(budget).limit
            &&& old(budget).used <= final(budget).used
        }),
        // nothing but these lets a block come out empty-handed: no such
        // variable or length term, its range narrowed to nothing by the
        // values known then, a row count not known before the block (so drawn), a
        // length term with an offset (a drawn length may overflow with it),
        // distinct elements, or the variable tied by an `ordering` or
        // `not_equal` pair
        r matches Ok(false) ==> ({
            let info = m_get(spec.model().vars, a.base@);
            let term = m_get(spec.model().size_terms, a.len->0@);
            ||| info is None
            ||| ({
                let b = crate::random_test::relation::narrow_by_scalars(
                    a.base@,
                    crate::random_test::gen::spec_effective_lo_hi(a.base@, info->0, sizes.model(), spec.model()),
                    spec.model().ordering,
                    final(ctx).model(),
                );
                b.0 > b.1
            })
            ||| (a.count matches Some(c) && !m_has(old(ctx).model(), c@))
            ||| term is None
            ||| (term matches Some(SizeTermM::Var(vn)) && !m_has(spec.model().vars, vn))
            ||| (term matches Some(SizeTermM::VarOffset(vn, off)) && (!m_has(spec.model().vars, vn) || off != 0))
            ||| info->0.all_distinct
            ||| crate::random_test::relation::paired(a.base@, spec.model())
        }),
        r matches Err(e) ==> crate::random_test::budget::is_oversize(e),
{
    let n0: i64 = match &a.count {
        Some(c) => match resolve_count(c.as_str(), spec, sizes, st, ctx, rng, stop) {
            Some(v) => v,
            None => return Ok(false),
        },
        None => 0,
    };
    let n: i64 = if n0 > 0 { n0 } else { 0 };
    let ghost cn = ctx.model();
    assert(a.count matches Some(c) ==> m_get(cn, c@) == Some(n0));
    let len_var = match &a.len {
        Some(l) => l,
        None => return Ok(false),
    };
    let info = match spec.vars.get(a.base.as_str()) {
        Some(i) => i,
        None => return Ok(false),
    };
    let (lo0, hi0) = effective_lo_hi(a.base.as_str(), info, sizes, spec);
    let (elo, ehi) = match narrow_bounds_from_scalars(a.base.as_str(), lo0, hi0, spec, ctx) {
        Some(b) => b,
        None => return Ok(false),
    };
    proof {
        crate::random_test::relation::lemma_narrow_by_scalars_shrinks(a.base@, (lo0, hi0), spec.model().ordering, ctx.model());
    }
    let values = values_ref(info);
    let distinct = info.all_distinct;
    let ghost vals = info.deep_view().values;
    assert(info.deep_view() == m_get(spec.model().vars, a.base@)->0);
    assert(vals == match values {
        Some(vs) => Some(vs@),
        None => None::<Seq<i64>>,
    });
    let (len_vn, len_off): (Option<&String>, i64) = match spec.size_terms.get(len_var.as_str()) {
        Some(SizeTerm::Lit(v)) => (None, *v),
        Some(SizeTerm::Var(vn)) => (Some(vn), 0),
        Some(SizeTerm::VarOffset(vn, off)) => (Some(vn), *off),
        None => return Ok(false),
    };
    let len_bounds: Option<(i64, i64)> = match len_vn {
        Some(vn) => match spec.vars.get(vn.as_str()) {
            Some(li) => Some(effective_lo_hi(vn.as_str(), li, sizes, spec)),
            None => return Ok(false),
        },
        None => None,
    };
    let ghost l0 = old(lines)@.len();
    let mut i: i64 = 0;
    while i < n
        invariant
            budget.limit == old(budget).limit,
            extends(old(ctx).model(), ctx.model()),
            ctx.model() == cn,
            grows(old(lines)@, lines@),
            values matches Some(vs) ==> vs@.len() <= i64::MAX,
            0 <= i <= n,
            l0 == old(lines)@.len(),
            lines@.len() == l0 + i,
            forall|k: int| l0 <= k < lines@.len() ==> jagged_line(#[trigger] lines@[k]@, elo, ehi, vals),
            vals == info.deep_view().values,
            vals == match values {
                Some(vs) => Some(vs@),
                None => None::<Seq<i64>>,
            },
            elo <= ehi,
            old(budget).used <= old(budget).limit ==> budget.used <= budget.limit,
            old(budget).used <= budget.used,
            info.deep_view() == m_get(spec.model().vars, a.base@)->0,
            m_has(spec.model().vars, a.base@),
            distinct == info.all_distinct,
            a.len matches Some(l) && l == len_var,
            len_vn is None ==> m_get(spec.model().size_terms, len_var@) == Some(SizeTermM::Lit(len_off)),
            len_vn matches Some(vn) ==> (m_get(spec.model().size_terms, len_var@) == Some(SizeTermM::Var(vn@)) && len_off == 0)
                || m_get(spec.model().size_terms, len_var@) == Some(SizeTermM::VarOffset(vn@, len_off)),
            len_vn is Some <==> len_bounds is Some,
            (lo0, hi0) == crate::random_test::gen::spec_effective_lo_hi(a.base@, info.deep_view(), sizes.model(), spec.model()),
            lo0 <= elo,
            ehi <= hi0,
            ints_ok(spec.model(), sizes.model(), old(ctx).model()) ==> ints_ok(spec.model(), sizes.model(), ctx.model()),
            arrs_ok(spec.model(), sizes.model(), old(array_ctx).model()) ==> arrs_ok(spec.model(), sizes.model(), array_ctx.model()),
        decreases n - i,
    {
        let li0: i64 = match len_bounds {
            Some((llo, lhi)) => match strategy_size_value(st, llo, lhi, rng).checked_add(len_off) {
                Some(x) => x,
                None => return Ok(false),
            },
            None => len_off,
        };
        let li: i64 = if li0 > 0 { li0 } else { 0 };
        match budget.add(li as u128 + 1) {
            Ok(()) => {},
            Err(e) => return Err(e),
        }
        let start = array_len_of(array_ctx, a.base.as_str());
        let len = as_len(li);
        if start > usize::MAX - len {
            return Err(too_large());
        }
        let elems = match gen_int_array_with_positional_bounds(
            st,
            a.base.as_str(),
            elo,
            ehi,
            len,
            values,
            distinct,
            spec,
            ctx,
            array_ctx,
            start,
            rng,
            stop,
        ) {
            Some(e) => e,
            None => {
                proof {
                    if spec_has_element_constraints(a.base@, start as int, len as int, spec.model(), ctx.model(), array_ctx.model()) {
                        crate::random_test::relation::lemma_element_constraints_paired(
                            a.base@,
                            start as int,
                            len as int,
                            spec.model(),
                            ctx.model(),
                            array_ctx.model(),
                        );
                    }
                }
                return Ok(false);
            },
        };
        let ghost a0 = array_ctx.model();
        proof {
            if arrs_ok(spec.model(), sizes.model(), a0) {
                assert forall|q: int| 0 <= q < elems@.len() implies elem_ok(#[trigger] elems@[q], lo0, hi0, vals) by {
                    assert(elem_ok(elems@[q], elo, ehi, vals));
                }
                lemma_arrs_record(spec.model(), sizes.model(), a0, a.base@, elems@);
            }
        }
        record_array_values(array_ctx, a.base.as_str(), &elems);
        let mut row: Vec<i64> = Vec::new();
        row.push(li);
        let mut k: usize = 0;
        while k < elems.len()
            invariant
                k <= elems@.len(),
                row@ == seq![li] + elems@.take(k as int),
            decreases elems.len() - k,
        {
            row.push(elems[k]);
            k += 1;
            assert(row@ =~= seq![li] + elems@.take(k as int));
        }
        assert(elems@.take(elems@.len() as int) =~= elems@);
        let line = join_ints(&row);
        proof {
            lemma_grows_push(old(lines)@, lines@, line);
            assert(row@[0] == li && row@.len() == 1 + as_len_spec(li));
            assert forall|q: int| 1 <= q < row@.len() implies elem_ok(#[trigger] row@[q], elo, ehi, vals) by {
                assert(row@[q] == elems@[q - 1]);
            }
            assert(jagged_line(line@, elo, ehi, vals));
            assert forall|k: int| l0 <= k < lines@.push(line).len() implies jagged_line(
                #[trigger] lines@.push(line)[k]@,
                elo,
                ehi,
                vals,
            ) by {
                if k < lines@.len() {
                    assert(lines@.push(line)[k] == lines@[k]);
                }
            }
        }
        lines.push(line);
        i += 1;
    }
    Ok(true)
}

/// Every character of `s` is one of `cs`.
pub open spec fn over_charset(s: Seq<char>, cs: Seq<char>) -> bool {
    forall|i: int| 0 <= i < s.len() ==> cs.contains(#[trigger] s[i])
}

/// A grid or stack of strings: `count × height` tokens (count 1 and height
/// 1 when absent, the height at least 1), one per line, each of its own
/// resolved length; the alternating strategy shares one phase so the rows
/// form a checkerboard.
pub fn render_chars_array(
    a: &ArrayBlock,
    spec: &ResolvedSpec,
    st: &CaseStrategy,
    sizes: &StructuralSizes,
    ctx: &mut StrMap<i64>,
    lines: &mut Vec<String>,
    budget: &mut Budget,
    rng: &mut rand::rngs::SmallRng,
    stop: &AtomicBool,
) -> (r: Result<bool, GenError>)
    requires
        value_ok(spec.model(), a.base@),
        m_get(spec.model().vars, a.base@) matches Some(i) && i.ty == VarType::Chars,
        opt_count_ok(spec.model(), crate::regex_ops::opt_view(a.count)),
        opt_count_ok(spec.model(), crate::regex_ops::opt_view(a.height)),
    ensures
        ints_ok(spec.model(), sizes.model(), old(ctx).model()) ==> ints_ok(spec.model(), sizes.model(), final(ctx).model()),
        final(budget).limit == old(budget).limit,
        extends(old(ctx).model(), final(ctx).model()),
        grows(old(lines)@, final(lines)@),
        r matches Ok(true) ==> ({
            let c = final(ctx).model();
            let info = m_get(spec.model().vars, a.base@)->0;
            let count = opt_size_in(c, a.count, 1);
            let h = opt_size_in(c, a.height, 1);
            let height = if h >= 1 { h } else { 1nat };
            let total = if count * height > usize::MAX { usize::MAX as nat } else { count * height };
            &&& final(lines)@.len() == old(lines)@.len() + total
            &&& forall|k: int| old(lines)@.len() <= k < final(lines)@.len() ==> over_charset(
                #[trigger] final(lines)@[k]@,
                info.charset->0,
            )
            &&& info.len matches Some(BoundReprM::Lit(n)) ==> forall|k: int|
                old(lines)@.len() <= k < final(lines)@.len() ==> (#[trigger] final(lines)@[k])@.len() == as_len_spec(n)
            &&& old(budget).used <= old(budget).limit ==> final(budget).used <= final(budget).limit
            &&& old(budget).used <= final(budget).used
        }),
        r matches Err(e) ==> crate::random_test::budget::is_oversize(e),
{
    let count: usize = match &a.count {
        Some(c) => match resolve_count(c.as_str(), spec, sizes, st, ctx, rng, stop) {
            Some(v) => as_len(v),
            None => return Ok(false),
        },
        None => 1,
    };
    let ghost ctx1 = ctx.model();
    assert(count == opt_size_in(ctx1, a.count, 1));
    let height: usize = match &a.height {
        Some(h) => match resolve_count(h.as_str(), spec, sizes, st, ctx, rng, stop) {
            Some(v) => {
                let l = as_len(v);
                if l >= 1 { l } else { 1 }
            },
            None => {
                proof {
                    lemma_extends_trans(old(ctx).model(), ctx1, ctx.model());
                }
                return Ok(false);
            },
        },
        None => 1,
    };
    proof {
        lemma_extends_trans(old(ctx).model(), ctx1, ctx.model());
        if a.count is Some {
            lemma_size_kept(ctx1, ctx.model(), a.count->0@);
        }
    }
    let ghost c2 = ctx.model();
    assert(count == opt_size_in(c2, a.count, 1));
    assert(height == (if opt_size_in(c2, a.height, 1) >= 1 { opt_size_in(c2, a.height, 1) } else { 1nat }));
    let total: usize = sat_mul(count, height);
    let info = match spec.vars.get(a.base.as_str()) {
        Some(i) => i,
        None => return Ok(false),
    };
    let charset = match &info.charset {
        Some(c) => c,
        None => return Ok(false),
    };
    let phase: usize = if is_altmaxmin(st) {
        random_index(rng, 2)
    } else {
        0
    };
    assert(info.deep_view() == m_get(spec.model().vars, a.base@)->0);
    let ghost l0 = old(lines)@.len();
    let mut idx: usize = 0;
    while idx < total
        invariant
            budget.limit == old(budget).limit,
            extends(old(ctx).model(), ctx.model()),
            extends(c2, ctx.model()),
            ints_ok(spec.model(), sizes.model(), old(ctx).model()) ==> ints_ok(spec.model(), sizes.model(), ctx.model()),
            grows(old(lines)@, lines@),
            info.deep_view() == m_get(spec.model().vars, a.base@)->0,
            info.charset == Some(*charset),
            l0 == old(lines)@.len(),
            idx <= total,
            lines@.len() == l0 + idx,
            forall|k: int| l0 <= k < lines@.len() ==> over_charset(#[trigger] lines@[k]@, charset@),
            info.len matches Some(BoundRepr::Lit(n)) ==> forall|k: int|
                l0 <= k < lines@.len() ==> (#[trigger] lines@[k])@.len() == as_len_spec(n),
            old(budget).used <= old(budget).limit ==> budget.used <= budget.limit,
            old(budget).used <= budget.used,
            charset@.len() > 0,
            charset@.len() <= i64::MAX,
            len_ok(spec.model(), info.deep_view().len),
        decreases total - idx,
    {
        assert(info.deep_view().len == match info.len {
            Some(b) => Some(crate::parse::types::repr_view(b)),
            None => None,
        });
        let ghost before = ctx.model();
        let slen = match resolve_len(&info.len, spec, sizes, st, ctx, rng, stop) {
            Some(l) => l,
            None => {
                proof {
                    lemma_extends_trans(old(ctx).model(), before, ctx.model());
                }
                return Ok(false);
            },
        };
        proof {
            lemma_extends_trans(old(ctx).model(), before, ctx.model());
            lemma_extends_trans(c2, before, ctx.model());
        }
        match budget.add(slen as u128) {
            Ok(()) => {},
            Err(e) => return Err(e),
        }
        let s = gen_string(st, charset, slen, Some((idx, total, phase)), rng);
        proof {
            lemma_grows_push(old(lines)@, lines@, s);
            assert(over_charset(s@, charset@));
            assert forall|k: int| l0 <= k < lines@.push(s).len() implies over_charset(
                #[trigger] lines@.push(s)[k]@,
                charset@,
            ) by {
                if k < lines@.len() {
                    assert(lines@.push(s)[k] == lines@[k]);
                }
            }
            assert forall|k: int| l0 <= k < lines@.push(s).len() && (info.len matches Some(BoundRepr::Lit(n)))
                implies (#[trigger] lines@.push(s)[k])@.len() == as_len_spec(info.len->0->Lit_0) by {
                if k < lines@.len() {
                    assert(lines@.push(s)[k] == lines@[k]);
                }
            }
        }
        lines.push(s);
        idx += 1;
    }
    proof {
        if a.count is Some {
            lemma_size_kept(c2, ctx.model(), a.count->0@);
        }
        if a.height is Some {
            lemma_size_kept(c2, ctx.model(), a.height->0@);
        }
    }
    Ok(true)
}


/// The values of one row of a checkerboard: cell `c` of row `r` by the
/// parity of `r + c` and the phase.
fn checker_row(lo: i64, hi: i64, r: usize, len: usize, phase: usize) -> (out: Vec<i64>)
    ensures
        out@.len() == len,
        forall|c: int| 0 <= c < len ==> #[trigger] out@[c] == if (r + c + phase) % 2 == 0 {
            hi
        } else {
            lo
        },
{
    let mut out: Vec<i64> = Vec::new();
    let mut c: usize = 0;
    while c < len
        invariant
            c <= len,
            out@.len() == c,
            forall|k: int| 0 <= k < c ==> #[trigger] out@[k] == if (r + k + phase) % 2 == 0 {
                hi
            } else {
                lo
            },
        decreases len - c,
    {
        let x = checkerboard_cell(lo, hi, r % 2 + c % 2, phase);
        assert(((r % 2 + c % 2) + phase) % 2 == (r + c + phase) % 2) by (nonlinear_arith);
        out.push(x);
        c += 1;
    }
    out
}

/// Values of the array `name` as its constraints allow: each in its
/// effective range, or its domain when it has one, no two equal when
/// distinct.
pub open spec fn array_values_ok(
    m: ResolvedM,
    sizes: crate::random_test::gen::SizesM,
    name: Seq<char>,
    e: Seq<i64>,
) -> bool {
    let info = m_get(m.vars, name)->0;
    let eff = crate::random_test::gen::spec_effective_lo_hi(name, info, sizes, m);
    &&& forall|q: int| 0 <= q < e.len() ==> elem_ok(#[trigger] e[q], eff.0, eff.1, info.values)
    &&& info.all_distinct ==> e.no_duplicates()
}

/// An integer array, a stack (`count` rows), a grid (`height` rows) or a
/// stack of grids (`count × height` rows) of `len` values each. The
/// alternating strategy with nothing tying the positions draws a
/// checkerboard over the domain's or the range's ends; otherwise each row
/// is generated under the pairs, continuing the positions of earlier rows.
pub fn render_int_array(
    a: &ArrayBlock,
    spec: &ResolvedSpec,
    st: &CaseStrategy,
    sizes: &StructuralSizes,
    ctx: &mut StrMap<i64>,
    array_ctx: &mut StrMap<Vec<i64>>,
    lines: &mut Vec<String>,
    budget: &mut Budget,
    rng: &mut rand::rngs::SmallRng,
    stop: &AtomicBool,
) -> (r: Result<bool, GenError>)
    requires
        value_ok(spec.model(), a.base@),
        opt_count_ok(spec.model(), crate::regex_ops::opt_view(a.len)),
        opt_count_ok(spec.model(), crate::regex_ops::opt_view(a.count)),
        opt_count_ok(spec.model(), crate::regex_ops::opt_view(a.height)),
    ensures
        ints_ok(spec.model(), sizes.model(), old(ctx).model()) ==> ints_ok(spec.model(), sizes.model(), final(ctx).model()),
        arrs_ok(spec.model(), sizes.model(), old(array_ctx).model()) ==> arrs_ok(spec.model(), sizes.model(), final(array_ctx).model()),
        final(budget).limit == old(budget).limit,
        extends(old(ctx).model(), final(ctx).model()),
        grows(old(lines)@, final(lines)@),
        r matches Ok(true) ==> ({
            let c = final(ctx).model();
            let len = opt_size_in(c, a.len, 0);
            let rows = array_rows(c, a.count, a.height);
            let info = m_get(spec.model().vars, a.base@)->0;
            let b = crate::random_test::relation::narrow_by_scalars(
                a.base@,
                crate::random_test::gen::spec_effective_lo_hi(a.base@, info, sizes.model(), spec.model()),
                spec.model().ordering,
                old(ctx).model(),
            );
            &&& final(lines)@.len() == old(lines)@.len() + rows
            &&& int_lines_from(final(lines)@, old(lines)@.len() as int, len, b.0, b.1, info.values, info.all_distinct)
            &&& final(budget).used == old(budget).used + rows * len
            &&& final(budget).used <= final(budget).limit
        }),
        // nothing but these lets a block come out empty-handed: no such
        // variable, its range narrowed to nothing by known values, a size
        // not known before the block (so drawn), distinct elements, or the
        // variable tied by an `ordering` or `not_equal` pair
        r matches Ok(false) ==> ({
            let info = m_get(spec.model().vars, a.base@);
            ||| info is None
            ||| ({
                let b = crate::random_test::relation::narrow_by_scalars(
                    a.base@,
                    crate::random_test::gen::spec_effective_lo_hi(a.base@, info->0, sizes.model(), spec.model()),
                    spec.model().ordering,
                    old(ctx).model(),
                );
                b.0 > b.1
            })
            ||| (a.len matches Some(n) && !m_has(old(ctx).model(), n@))
            ||| (a.count matches Some(n) && !m_has(old(ctx).model(), n@))
            ||| (a.height matches Some(n) && !m_has(old(ctx).model(), n@))
            ||| info->0.all_distinct
            ||| crate::random_test::relation::paired(a.base@, spec.model())
        }),
        // a single row: its line is the decimal of the values recorded
        // after what the context held for the variable
        r matches Ok(true) && a.count is None && a.height is None ==> exists|e: Seq<i64>|
            #![trigger spec_join_ints(e)]
            final(lines)@.len() == old(lines)@.len() + 1 && final(lines)@[old(lines)@.len() as int]@ == spec_join_ints(e)
                && array_values_ok(spec.model(), sizes.model(), a.base@, e)
                && final(array_ctx).model() == crate::maps::m_insert(
                old(array_ctx).model(),
                a.base@,
                match m_get(old(array_ctx).model(), a.base@) {
                    Some(xs) => xs + e,
                    None => e,
                },
            ),
        r matches Err(e) ==> crate::random_test::budget::is_oversize(e),
{
    let info = match spec.vars.get(a.base.as_str()) {
        Some(i) => i,
        None => return Ok(false),
    };
    let (lo0, hi0) = effective_lo_hi(a.base.as_str(), info, sizes, spec);
    let (lo, hi) = match narrow_bounds_from_scalars(a.base.as_str(), lo0, hi0, spec, ctx) {
        Some(b) => b,
        None => return Ok(false),
    };
    proof {
        crate::random_test::relation::lemma_narrow_by_scalars_shrinks(a.base@, (lo0, hi0), spec.model().ordering, ctx.model());
    }
    let values = values_ref(info);
    let distinct = info.all_distinct;
    let ghost vals = info.deep_view().values;
    assert(info.deep_view() == m_get(spec.model().vars, a.base@)->0);
    assert(vals == match values {
        Some(vs) => Some(vs@),
        None => None::<Seq<i64>>,
    });
    assert(lo <= hi);
    let len: usize = match &a.len {
        Some(l) => match resolve_count(l.as_str(), spec, sizes, st, ctx, rng, stop) {
            Some(v) => as_len(v),
            None => return Ok(false),
        },
        None => 0,
    };
    let ghost c1 = ctx.model();
    assert(len == opt_size_in(c1, a.len, 0));
    let count: Option<usize> = match &a.count {
        Some(c) => match resolve_count(c.as_str(), spec, sizes, st, ctx, rng, stop) {
            Some(v) => Some(as_len(v)),
            None => {
                proof {
                    lemma_extends_trans(old(ctx).model(), c1, ctx.model());
                    if m_has(old(ctx).model(), c@) {
                        assert(m_get(c1, c@) == m_get(old(ctx).model(), c@));
                    }
                }
                return Ok(false);
            },
        },
        None => None,
    };
    proof {
        lemma_extends_trans(old(ctx).model(), c1, ctx.model());
        if a.len is Some {
            lemma_size_kept(c1, ctx.model(), a.len->0@);
        }
    }
    let ghost c2 = ctx.model();
    assert(len == opt_size_in(c2, a.len, 0));
    assert(count == match a.count {
        Some(x) => Some(size_in(c2, x@) as usize),
        None => None::<usize>,
    });
    let height: Option<usize> = match &a.height {
        Some(h) => match resolve_count(h.as_str(), spec, sizes, st, ctx, rng, stop) {
            Some(v) => Some(as_len(v)),
            None => {
                proof {
                    lemma_extends_trans(old(ctx).model(), c2, ctx.model());
                    if m_has(old(ctx).model(), h@) {
                        assert(m_get(c2, h@) == m_get(old(ctx).model(), h@));
                    }
                }
                return Ok(false);
            },
        },
        None => None,
    };
    proof {
        lemma_extends_trans(old(ctx).model(), c2, ctx.model());
        if a.len is Some {
            lemma_size_kept(c2, ctx.model(), a.len->0@);
        }
        if a.count is Some {
            lemma_size_kept(c2, ctx.model(), a.count->0@);
        }
    }
    let ghost c3 = ctx.model();
    assert(len == opt_size_in(c3, a.len, 0));
    assert(count == match a.count {
        Some(x) => Some(size_in(c3, x@) as usize),
        None => None::<usize>,
    });
    assert(height == match a.height {
        Some(x) => Some(size_in(c3, x@) as usize),
        None => None::<usize>,
    });
    let ghost n0 = old(lines)@.len();
    let rows: usize = match (count, height) {
        (None, None) => {
            match budget.add(len as u128) {
                Ok(()) => {},
                Err(e) => return Err(e),
            }
            let start = array_len_of(array_ctx, a.base.as_str());
            if start > usize::MAX - len {
                return Err(too_large());
            }
            match gen_int_array_with_positional_bounds(
                st,
                a.base.as_str(),
                lo,
                hi,
                len,
                values,
                distinct,
                spec,
                ctx,
                array_ctx,
                start,
                rng,
                stop,
            ) {
                Some(e) => {
                    let ghost a0 = array_ctx.model();
                    proof {
                        if arrs_ok(spec.model(), sizes.model(), a0) {
                            assert forall|q: int| 0 <= q < e@.len() implies elem_ok(#[trigger] e@[q], lo0, hi0, vals) by {
                                assert(elem_ok(e@[q], lo, hi, vals));
                            }
                            lemma_arrs_record(spec.model(), sizes.model(), a0, a.base@, e@);
                        }
                    }
                    record_array_values(array_ctx, a.base.as_str(), &e);
                    let line = join_ints(&e);
                    proof {
                        lemma_grows_push(old(lines)@, lines@, line);
                        assert(int_lines_from(lines@, n0 as int, len as nat, lo, hi, vals, distinct));
                        lemma_int_lines_push(lines@, n0 as int, len as nat, lo, hi, vals, distinct, line, e@);
                    }
                    let ghost lb = lines@;
                    lines.push(line);
                    proof {
                        assert(a0 == old(array_ctx).model());
                        assert(lb == old(lines)@);
                        assert(lines@[old(lines)@.len() as int]@ == spec_join_ints(e@));
                        crate::random_test::relation::lemma_narrow_by_scalars_shrinks(
                            a.base@,
                            (lo0, hi0),
                            spec.model().ordering,
                            old(ctx).model(),
                        );
                        assert forall|q: int| 0 <= q < e@.len() implies elem_ok(#[trigger] e@[q], lo0, hi0, vals) by {
                            assert(elem_ok(e@[q], lo, hi, vals));
                        }
                        assert(array_values_ok(spec.model(), sizes.model(), a.base@, e@));
                    }
                },
                None => {
                    proof {
                        if spec_has_element_constraints(a.base@, start as int, len as int, spec.model(), ctx.model(), array_ctx.model()) {
                            crate::random_test::relation::lemma_element_constraints_paired(
                                a.base@,
                                start as int,
                                len as int,
                                spec.model(),
                                ctx.model(),
                                array_ctx.model(),
                            );
                        }
                    }
                    return Ok(false);
                },
            }
            return Ok(true);
        },
        (Some(c), None) => c,
        (None, Some(h)) => h,
        (Some(c), Some(h)) => sat_mul(c, h),
    };
    assert(rows == array_rows(c3, a.count, a.height));
    match (rows as u128).checked_mul(len as u128) {
        Some(total) => match budget.add(total) {
            Ok(()) => {},
            Err(e) => return Err(e),
        },
        None => return Err(
            {
                let m = "input too large: generated array element count overflows 128-bit range";
                proof {
                    reveal_strlit("input too large: generated array element count overflows 128-bit range");
                    reveal_strlit("input too large: ");
                    assert(m@.take(crate::random_test::budget::oversize_prefix().len() as int)
                        =~= crate::random_test::budget::oversize_prefix());
                }
                crate::random_test::budget::oversize(m)
            },
        ),
    }
    let effective = effective_array_strategy(st, a.base.as_str(), distinct, spec);
    if is_altmaxmin(&effective) && !has_array_element_constraints(
        a.base.as_str(),
        0,
        sat_mul(rows, len),
        spec,
        ctx,
        array_ctx,
    ) {
        let phase = random_index(rng, 2);
        let (clo, chi) = checkerboard_bounds(values, lo, hi);
        proof {
            if values is Some && values->0@.len() > 0 {
                lemma_seq_min_max_in(values->0@);
            }
        }
        assert(elem_ok(clo, lo, hi, vals) && elem_ok(chi, lo, hi, vals));
        assert(!distinct);
        let mut r: usize = 0;
        while r < rows
            invariant
                !distinct,
                info.deep_view() == m_get(spec.model().vars, a.base@)->0,
                budget.limit == old(budget).limit,
                budget.used == old(budget).used + rows * len,
                extends(old(ctx).model(), ctx.model()),
                ctx.model() == c3,
                (lo0, hi0) == crate::random_test::gen::spec_effective_lo_hi(a.base@, info.deep_view(), sizes.model(), spec.model()),
                lo0 <= lo,
                hi <= hi0,
                ints_ok(spec.model(), sizes.model(), old(ctx).model()) ==> ints_ok(spec.model(), sizes.model(), c3),
                arrs_ok(spec.model(), sizes.model(), old(array_ctx).model()) ==> arrs_ok(spec.model(), sizes.model(), array_ctx.model()),
                grows(old(lines)@, lines@),
                n0 == old(lines)@.len(),
                elem_ok(clo, lo, hi, vals),
                elem_ok(chi, lo, hi, vals),
                r <= rows,
                lines@.len() == n0 + r,
                int_lines_from(lines@, n0 as int, len as nat, lo, hi, vals, distinct),
                lo <= hi,
                vals == info.deep_view().values,
                vals == match values {
                    Some(vs) => Some(vs@),
                    None => None::<Seq<i64>>,
                },
            decreases rows - r,
        {
            let row = checker_row(clo, chi, r, len, phase);
            assert forall|q: int| 0 <= q < row@.len() implies elem_ok(#[trigger] row@[q], lo, hi, vals) by {
                assert(row@[q] == clo || row@[q] == chi);
            }
            proof {
                let a0 = array_ctx.model();
                if arrs_ok(spec.model(), sizes.model(), a0) {
                    assert forall|q: int| 0 <= q < row@.len() implies elem_ok(#[trigger] row@[q], lo0, hi0, vals) by {
                        assert(elem_ok(row@[q], lo, hi, vals));
                    }
                    lemma_arrs_record(spec.model(), sizes.model(), a0, a.base@, row@);
                }
            }
            record_array_values(array_ctx, a.base.as_str(), &row);
            let line = join_ints(&row);
            proof {
                lemma_grows_push(old(lines)@, lines@, line);
                lemma_int_lines_push(lines@, n0 as int, len as nat, lo, hi, vals, distinct, line, row@);
            }
            lines.push(line);
            r += 1;
        }
    } else {
        let mut r: usize = 0;
        while r < rows
            invariant
                budget.limit == old(budget).limit,
                budget.used == old(budget).used + rows * len,
                extends(old(ctx).model(), ctx.model()),
                ctx.model() == c3,
                (lo0, hi0) == crate::random_test::gen::spec_effective_lo_hi(a.base@, info.deep_view(), sizes.model(), spec.model()),
                lo0 <= lo,
                hi <= hi0,
                ints_ok(spec.model(), sizes.model(), old(ctx).model()) ==> ints_ok(spec.model(), sizes.model(), c3),
                arrs_ok(spec.model(), sizes.model(), old(array_ctx).model()) ==> arrs_ok(spec.model(), sizes.model(), array_ctx.model()),
                grows(old(lines)@, lines@),
                n0 == old(lines)@.len(),
                r <= rows,
                lines@.len() == n0 + r,
                int_lines_from(lines@, n0 as int, len as nat, lo, hi, vals, distinct),
                lo <= hi,
                vals == info.deep_view().values,
                vals == match values {
                    Some(vs) => Some(vs@),
                    None => None::<Seq<i64>>,
                },
                values matches Some(vs) ==> vs@.len() <= i64::MAX,
                info.deep_view() == m_get(spec.model().vars, a.base@)->0,
                m_has(spec.model().vars, a.base@),
                distinct == info.all_distinct,
            decreases rows - r,
        {
            let start = array_len_of(array_ctx, a.base.as_str());
            if start > usize::MAX - len {
                return Err(too_large());
            }
            match gen_int_array_with_positional_bounds(
                st,
                a.base.as_str(),
                lo,
                hi,
                len,
                values,
                distinct,
                spec,
                ctx,
                array_ctx,
                start,
                rng,
                stop,
            ) {
                Some(e) => {
                    proof {
                        let a0 = array_ctx.model();
                        if arrs_ok(spec.model(), sizes.model(), a0) {
                            assert forall|q: int| 0 <= q < e@.len() implies elem_ok(#[trigger] e@[q], lo0, hi0, vals) by {
                                assert(elem_ok(e@[q], lo, hi, vals));
                            }
                            lemma_arrs_record(spec.model(), sizes.model(), a0, a.base@, e@);
                        }
                    }
                    record_array_values(array_ctx, a.base.as_str(), &e);
                    let line = join_ints(&e);
                    proof {
                        lemma_grows_push(old(lines)@, lines@, line);
                        lemma_int_lines_push(lines@, n0 as int, len as nat, lo, hi, vals, distinct, line, e@);
                    }
                    lines.push(line);
                },
                None => {
                    proof {
                        if spec_has_element_constraints(a.base@, start as int, len as int, spec.model(), ctx.model(), array_ctx.model()) {
                            crate::random_test::relation::lemma_element_constraints_paired(
                                a.base@,
                                start as int,
                                len as int,
                                spec.model(),
                                ctx.model(),
                                array_ctx.model(),
                            );
                        }
                    }
                    return Ok(false);
                },
            }
            r += 1;
        }
    }
    Ok(true)
}

/// A cell of column `v`: for a string variable a string over its
/// charset, else an integer in decimal that its range, or its domain when
/// it has one, allows.
pub open spec fn cell_ok(m: ResolvedM, z: crate::random_test::gen::SizesM, v: Seq<char>, cell: Seq<char>) -> bool {
    let info = m_get(m.vars, v)->0;
    if info.ty == VarType::Chars {
        info.charset is Some && over_charset(cell, info.charset->0)
    } else {
        let e = crate::random_test::gen::spec_effective_lo_hi(v, info, z, m);
        exists|x: i64| #![trigger spec_int_chars(x as int)] cell == spec_int_chars(x as int) && elem_ok(x, e.0, e.1, info.values)
    }
}

/// A row of the columns `vars`: one allowed cell of each, separated by
/// single spaces.
pub open spec fn row_fits(m: ResolvedM, z: crate::random_test::gen::SizesM, vars: Seq<Seq<char>>, line: Seq<char>) -> bool {
    exists|cells: Seq<Seq<char>>|
        #![trigger crate::template::join_with(cells, " "@)]
        cells.len() == vars.len() && line == crate::template::join_with(cells, " "@) && forall|j: int|
            0 <= j < vars.len() ==> cell_ok(m, z, vars[j], #[trigger] cells[j])
}

/// Cell `i` of every column, in column order.
pub open spec fn row_cells(cols: Seq<Vec<String>>, i: int) -> Seq<Seq<char>> {
    Seq::new(cols.len(), |k: int| cols[k]@[i]@)
}

/// Row `i` of the columns, its cells joined by single spaces.
fn row_line(cols: &Vec<Vec<String>>, i: usize) -> (r: String)
    requires
        forall|k: int| 0 <= k < cols@.len() ==> i < #[trigger] cols@[k]@.len(),
    ensures
        r@ == crate::template::join_with(row_cells(cols@, i as int), " "@),
{
    let ghost ps = row_cells(cols@, i as int);
    let mut out: Vec<char> = Vec::new();
    let mut k: usize = 0;
    assert(ps.take(0) =~= Seq::<Seq<char>>::empty());
    while k < cols.len()
        invariant
            ps == row_cells(cols@, i as int),
            k <= cols@.len(),
            forall|j: int| 0 <= j < cols@.len() ==> i < #[trigger] cols@[j]@.len(),
            out@ == crate::template::join_with(ps.take(k as int), " "@),
        decreases cols.len() - k,
    {
        assert(ps.take(k + 1).drop_last() =~= ps.take(k as int));
        assert(ps.take(k + 1).last() == cols@[k as int]@[i as int]@);
        if k > 0 {
            out.push(' ');
        }
        let cell = crate::text::chars_of(cols[k][i].as_str());
        crate::text::append_chars(&mut out, &cell);
        proof {
            if k == 0 {
                assert(ps.take(1).len() == 1);
                assert(ps.take(1)[0] == ps[0]);
                assert(out@ =~= ps[0]);
            } else {
                reveal_strlit(" ");
                assert(out@ =~= crate::template::join_with(ps.take(k as int), " "@) + " "@ + ps[k as int]);
            }
        }
        k += 1;
    }
    assert(ps.take(ps.len() as int) =~= ps);
    crate::text::string_of(&out)
}

/// The integers as decimal strings.
fn int_strings(v: &Vec<i64>) -> (r: Vec<String>)
    ensures
        r@.len() == v@.len(),
        forall|i: int| 0 <= i < v@.len() ==> #[trigger] r@[i]@ == spec_int_chars(v@[i] as int),
{
    let mut out: Vec<String> = Vec::new();
    let mut i: usize = 0;
    while i < v.len()
        invariant
            i <= v@.len(),
            out@.len() == i,
            forall|k: int| 0 <= k < i ==> #[trigger] out@[k]@ == spec_int_chars(v@[k] as int),
        decreases v.len() - i,
    {
        out.push(int_string(v[i]));
        i += 1;
    }
    out
}

/// Why a column of a rows block can come out empty-handed: no such
/// variable, a string column (its lengths are drawn), distinct values, the
/// variable tied by an `ordering` or `not_equal` pair, or an empty range.
pub open spec fn column_may_fail(m: ResolvedM, sizes: crate::random_test::gen::SizesM, v: Seq<char>) -> bool {
    let info = m_get(m.vars, v);
    ||| info is None
    ||| info->0.ty == VarType::Chars
    ||| info->0.all_distinct
    ||| crate::random_test::relation::paired(v, m)
    ||| ({
        let e = crate::random_test::gen::spec_effective_lo_hi(v, info->0, sizes, m);
        e.0 > e.1
    })
}

/// `len` rows of the listed variables, one tuple per line. Each variable
/// is a column: strings drawn token by token, integers generated as an
/// array under the pairs (a checkerboard column for the alternating
/// strategy when nothing ties it).
pub fn render_rows(
    b: &RowsBlock,
    spec: &ResolvedSpec,
    st: &CaseStrategy,
    sizes: &StructuralSizes,
    ctx: &mut StrMap<i64>,
    array_ctx: &mut StrMap<Vec<i64>>,
    lines: &mut Vec<String>,
    budget: &mut Budget,
    rng: &mut rand::rngs::SmallRng,
    stop: &AtomicBool,
) -> (r: Result<bool, GenError>)
    requires
        count_ok(spec.model(), b.len@),
        forall|i: int| 0 <= i < b.vars@.len() ==> value_ok(spec.model(), #[trigger] b.vars@[i]@),
    ensures
        ints_ok(spec.model(), sizes.model(), old(ctx).model()) ==> ints_ok(spec.model(), sizes.model(), final(ctx).model()),
        arrs_ok(spec.model(), sizes.model(), old(array_ctx).model()) ==> arrs_ok(spec.model(), sizes.model(), final(array_ctx).model()),
        final(budget).limit == old(budget).limit,
        extends(old(ctx).model(), final(ctx).model()),
        grows(old(lines)@, final(lines)@),
        r matches Ok(true) ==> ({
            let rows = size_in(final(ctx).model(), b.len@);
            &&& final(lines)@.len() == old(lines)@.len() + rows
            &&& forall|k: int| old(lines)@.len() <= k < final(lines)@.len() ==> row_fits(
                spec.model(),
                sizes.model(),
                crate::text::sv(b.vars@),
                #[trigger] final(lines)@[k]@,
            )
            &&& old(budget).used <= old(budget).limit ==> final(budget).used <= final(budget).limit
            &&& old(budget).used <= final(budget).used
        }),
        // nothing but these lets a block come out empty-handed: a row
        // count not known before the block (so drawn), or a column that
        // may fail
        r matches Ok(false) ==> !m_has(old(ctx).model(), b.len@) || exists|i: int|
            0 <= i < b.vars@.len() && column_may_fail(spec.model(), sizes.model(), (#[trigger] b.vars@[i])@),
        r matches Err(e) ==> crate::random_test::budget::is_oversize(e),
{
    let rows: usize = match resolve_count(b.len.as_str(), spec, sizes, st, ctx, rng, stop) {
        Some(v) => as_len(v),
        None => return Ok(false),
    };
    let ghost c0 = ctx.model();
    assert(rows == size_in(c0, b.len@));
    assert(m_has(c0, b.len@));
    if rows == 0 {
        return Ok(true);
    }
    let altmm = is_altmaxmin(st);
    let phase: usize = if altmm {
        random_index(rng, 2)
    } else {
        0
    };
    let mut cols: Vec<Vec<String>> = Vec::new();
    let mut vi: usize = 0;
    while vi < b.vars.len()
        invariant
            budget.limit == old(budget).limit,
            extends(old(ctx).model(), ctx.model()),
            extends(c0, ctx.model()),
            m_has(c0, b.len@),
            rows == size_in(c0, b.len@),
            vi <= b.vars@.len(),
            cols@.len() == vi,
            forall|k: int| 0 <= k < cols@.len() ==> #[trigger] cols@[k]@.len() == rows,
            forall|k: int, r: int|
                0 <= k < cols@.len() && 0 <= r < rows ==> cell_ok(spec.model(), sizes.model(), b.vars@[k]@, #[trigger] cols@[k]@[r]@),
            forall|i: int| 0 <= i < b.vars@.len() ==> value_ok(spec.model(), #[trigger] b.vars@[i]@),
            old(budget).used <= old(budget).limit ==> budget.used <= budget.limit,
            old(budget).used <= budget.used,
            lines@ == old(lines)@,
            ints_ok(spec.model(), sizes.model(), old(ctx).model()) ==> ints_ok(spec.model(), sizes.model(), ctx.model()),
            arrs_ok(spec.model(), sizes.model(), old(array_ctx).model()) ==> arrs_ok(spec.model(), sizes.model(), array_ctx.model()),
        decreases b.vars.len() - vi,
    {
        let v = &b.vars[vi];
        assert(value_ok(spec.model(), b.vars@[vi as int]@));
        assert(b.vars@[vi as int]@ == v@);
        let info = match spec.vars.get(v.as_str()) {
            Some(i) => i,
            None => {
                assert(column_may_fail(spec.model(), sizes.model(), b.vars@[vi as int]@));
                return Ok(false);
            },
        };
        let is_chars = match info.ty {
            VarType::Chars => true,
            _ => false,
        };
        proof {
            assert(m_get(spec.model().vars, v@) == Some(info.deep_view()));
            assert(info.deep_view().ty == info.ty);
            if is_chars {
                assert(column_may_fail(spec.model(), sizes.model(), b.vars@[vi as int]@));
            }
        }
        if is_chars {
            let charset = match &info.charset {
                Some(c) => c,
                None => return Ok(false),
            };
            let mut col: Vec<String> = Vec::new();
            let mut i: usize = 0;
            while i < rows
                invariant
                    budget.limit == old(budget).limit,
                    extends(old(ctx).model(), ctx.model()),
                    col@.len() == i,
                    i <= rows,
                    charset@.len() > 0,
                    charset@.len() <= i64::MAX,
                    len_ok(spec.model(), info.deep_view().len),
                    extends(c0, ctx.model()),
                    old(budget).used <= old(budget).limit ==> budget.used <= budget.limit,
                    old(budget).used <= budget.used,
                    vi < b.vars@.len(),
                    column_may_fail(spec.model(), sizes.model(), b.vars@[vi as int]@),
                    ints_ok(spec.model(), sizes.model(), old(ctx).model()) ==> ints_ok(spec.model(), sizes.model(), ctx.model()),
                    arrs_ok(spec.model(), sizes.model(), old(array_ctx).model()) ==> arrs_ok(spec.model(), sizes.model(), array_ctx.model()),
                    m_get(spec.model().vars, b.vars@[vi as int]@) == Some(info.deep_view()),
                    info.ty == VarType::Chars,
                    info.charset == Some(*charset),
                    forall|r: int| 0 <= r < i ==> cell_ok(spec.model(), sizes.model(), b.vars@[vi as int]@, #[trigger] col@[r]@),
                decreases rows - i,
            {
                assert(info.deep_view().len == match info.len {
                    Some(b) => Some(crate::parse::types::repr_view(b)),
                    None => None,
                });
                let ghost before = ctx.model();
                let slen = match resolve_len(&info.len, spec, sizes, st, ctx, rng, stop) {
                    Some(l) => l,
                    None => {
                        proof {
                            lemma_extends_trans(old(ctx).model(), before, ctx.model());
                        }
                        return Ok(false);
                    },
                };
                proof {
                    lemma_extends_trans(old(ctx).model(), before, ctx.model());
                    lemma_extends_trans(c0, before, ctx.model());
                }
                match budget.add(slen as u128) {
                    Ok(()) => {},
                    Err(e) => return Err(e),
                }
                let ghost c1 = col@;
                let cell = gen_string(st, charset, slen, Some((i, rows, phase)), rng);
                proof {
                    let mi = m_get(spec.model().vars, b.vars@[vi as int]@)->0;
                    assert(mi.charset == Some(charset@));
                    assert(over_charset(cell@, charset@));
                    assert(cell_ok(spec.model(), sizes.model(), b.vars@[vi as int]@, cell@));
                }
                col.push(cell);
                proof {
                    assert forall|r: int| 0 <= r < i + 1 implies cell_ok(
                        spec.model(),
                        sizes.model(),
                        b.vars@[vi as int]@,
                        #[trigger] col@[r]@,
                    ) by {
                        if r < i {
                            assert(col@[r] == c1[r]);
                        }
                    }
                }
                i += 1;
            }
            let ghost k0 = cols@;
            cols.push(col);
            proof {
                assert forall|k: int, r: int| 0 <= k < cols@.len() && 0 <= r < rows implies cell_ok(
                    spec.model(),
                    sizes.model(),
                    b.vars@[k]@,
                    #[trigger] cols@[k]@[r]@,
                ) by {
                    if k < k0.len() {
                        assert(cols@[k] == k0[k]);
                    }
                }
            }
        } else {
            let (lo0, hi0) = effective_lo_hi(v.as_str(), info, sizes, spec);
            let (lo, hi) = match narrow_bounds_from_scalars(v.as_str(), lo0, hi0, spec, ctx) {
                Some(bd) => bd,
                None => {
                    proof {
                        if !crate::random_test::relation::paired(v@, spec.model()) {
                            lemma_unpaired_free(v@, (lo0, hi0), spec.model(), ctx.model(), array_ctx.model());
                        }
                        assert(column_may_fail(spec.model(), sizes.model(), b.vars@[vi as int]@));
                    }
                    return Ok(false);
                },
            };
            proof {
                crate::random_test::relation::lemma_narrow_by_scalars_shrinks(v@, (lo0, hi0), spec.model().ordering, ctx.model());
            }
            match budget.add(rows as u128) {
                Ok(()) => {},
                Err(e) => return Err(e),
            }
            let start = array_len_of(array_ctx, v.as_str());
            let values = values_ref(info);
            let effective = effective_array_strategy(st, v.as_str(), info.all_distinct, spec);
            let col: Vec<i64> = if is_altmaxmin(&effective) && !has_array_element_constraints(
                v.as_str(),
                start,
                rows,
                spec,
                ctx,
                array_ctx,
            ) {
                let (clo, chi) = checkerboard_bounds(values, lo, hi);
                proof {
                    if values is Some && values->0@.len() > 0 {
                        lemma_seq_min_max_in(values->0@);
                    }
                }
                let c = checker_row(clo, chi, 0, rows, phase);
                proof {
                    let vals = info.deep_view().values;
                    assert(vals == match values {
                        Some(vs) => Some(vs@),
                        None => None::<Seq<i64>>,
                    });
                    assert(elem_ok(clo, lo, hi, vals) && elem_ok(chi, lo, hi, vals));
                    assert forall|q: int| 0 <= q < c@.len() implies elem_ok(#[trigger] c@[q], lo, hi, vals) by {
                        assert(c@[q] == clo || c@[q] == chi);
                    }
                }
                c
            } else {
                if start > usize::MAX - rows {
                    return Err(too_large());
                }
                match gen_int_array_with_positional_bounds(
                    st,
                    v.as_str(),
                    lo,
                    hi,
                    rows,
                    values,
                    info.all_distinct,
                    spec,
                    ctx,
                    array_ctx,
                    start,
                    rng,
                    stop,
                ) {
                    Some(e) => e,
                    None => {
                        proof {
                            if spec_has_element_constraints(v@, start as int, rows as int, spec.model(), ctx.model(), array_ctx.model()) {
                                crate::random_test::relation::lemma_element_constraints_paired(
                                    v@,
                                    start as int,
                                    rows as int,
                                    spec.model(),
                                    ctx.model(),
                                    array_ctx.model(),
                                );
                            }
                            assert(info.deep_view().all_distinct == info.all_distinct);
                            assert(column_may_fail(spec.model(), sizes.model(), b.vars@[vi as int]@));
                        }
                        return Ok(false);
                    },
                }
            };
            proof {
                let a0 = array_ctx.model();
                let vals = info.deep_view().values;
                assert(vals == match values {
                    Some(vs) => Some(vs@),
                    None => None::<Seq<i64>>,
                });
                assert(forall|q: int| 0 <= q < col@.len() ==> elem_ok(#[trigger] col@[q], lo, hi, vals));
                if arrs_ok(spec.model(), sizes.model(), a0) {
                    assert forall|q: int| 0 <= q < col@.len() implies elem_ok(#[trigger] col@[q], lo0, hi0, vals) by {
                        assert(elem_ok(col@[q], lo, hi, vals));
                    }
                    lemma_arrs_record(spec.model(), sizes.model(), a0, v@, col@);
                }
            }
            record_array_values(array_ctx, v.as_str(), &col);
            let strs = int_strings(&col);
            let ghost k0 = cols@;
            proof {
                let vals = info.deep_view().values;
                let e = crate::random_test::gen::spec_effective_lo_hi(v@, info.deep_view(), sizes.model(), spec.model());
                assert(e == (lo0, hi0));
                assert(m_get(spec.model().vars, b.vars@[vi as int]@)->0 == info.deep_view());
                assert forall|r: int| 0 <= r < rows implies cell_ok(
                    spec.model(),
                    sizes.model(),
                    b.vars@[vi as int]@,
                    #[trigger] strs@[r]@,
                ) by {
                    assert(elem_ok(col@[r], lo, hi, vals));
                    assert(elem_ok(col@[r], lo0, hi0, vals));
                    assert(strs@[r]@ == spec_int_chars(col@[r] as int));
                }
            }
            cols.push(strs);
            proof {
                assert forall|k: int, r: int| 0 <= k < cols@.len() && 0 <= r < rows implies cell_ok(
                    spec.model(),
                    sizes.model(),
                    b.vars@[k]@,
                    #[trigger] cols@[k]@[r]@,
                ) by {
                    if k < k0.len() {
                        assert(cols@[k] == k0[k]);
                    }
                }
            }
        }
        vi += 1;
    }
    let ghost l0 = old(lines)@.len();
    proof {
        lemma_size_kept(c0, ctx.model(), b.len@);
    }
    let mut i: usize = 0;
    while i < rows
        invariant
            forall|k: int| 0 <= k < cols@.len() ==> #[trigger] cols@[k]@.len() == rows,
            cols@.len() == b.vars@.len(),
            grows(old(lines)@, lines@),
            l0 == old(lines)@.len(),
            i <= rows,
            lines@.len() == l0 + i,
            forall|k: int, r: int|
                0 <= k < cols@.len() && 0 <= r < rows ==> cell_ok(spec.model(), sizes.model(), b.vars@[k]@, #[trigger] cols@[k]@[r]@),
            forall|k: int| l0 <= k < lines@.len() ==> row_fits(spec.model(), sizes.model(), crate::text::sv(b.vars@), #[trigger] lines@[k]@),
        decreases rows - i,
    {
        let line = row_line(&cols, i);
        proof {
            let cells = row_cells(cols@, i as int);
            let vars = crate::text::sv(b.vars@);
            assert forall|j: int| 0 <= j < vars.len() implies cell_ok(spec.model(), sizes.model(), vars[j], #[trigger] cells[j]) by {
                assert(vars[j] == b.vars@[j]@);
                assert(cells[j] == cols@[j]@[i as int]@);
            }
            assert(row_fits(spec.model(), sizes.model(), vars, line@));
            assert forall|k: int| l0 <= k < lines@.push(line).len() implies row_fits(
                spec.model(),
                sizes.model(),
                vars,
                #[trigger] lines@.push(line)[k]@,
            ) by {
                if k < lines@.len() {
                    assert(lines@.push(line)[k] == lines@[k]);
                }
            }
            lemma_grows_push(old(lines)@, lines@, line);
            assert(row_cells(cols@, i as int).len() == b.vars@.len());
        }
        lines.push(line);
        i += 1;
    }
    Ok(true)
}

} // verus!
