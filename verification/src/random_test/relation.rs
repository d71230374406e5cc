//! The persisted `ordering` / `not_equal` pairs during generation: which
//! array strategies they leave in force, whether generated values satisfy
//! them, and how they narrow the bounds of values still to generate.

use vstd::prelude::*;
use crate::maps::{m_get, m_has, StrMap, StrSet};
use std::collections::HashSet;
use crate::random_test::spec::{ResolvedM, ResolvedSpec};
use crate::random_test::strategy::{
    is_array_shape_strategy, spec_is_array_shape, CaseStrategy, DeterministicStrategy, RandomStrategy,
};

verus! {

// ─── strategies under constraints ───────────────────────────────────────────

pub open spec fn spec_effective_array_strategy(st: CaseStrategy, name: Seq<char>, distinct: bool, m: ResolvedM) -> CaseStrategy {
    let zero = st == CaseStrategy::Random(RandomStrategy::ZeroCorner);
    let distinct_compatible = st == CaseStrategy::Random(RandomStrategy::ArrayMonoInc) || st
        == CaseStrategy::Random(RandomStrategy::ArrayMonoDec) || st == CaseStrategy::Random(
        RandomStrategy::ArrayMountain,
    );
    let ignored_for_distinct = distinct && (st is Deterministic || zero || (spec_is_array_shape(st)
        && !distinct_compatible));
    let ignored_for_inter_array = m_has(m.inter, name) && (zero || spec_is_array_shape(st));
    if ignored_for_distinct || ignored_for_inter_array {
        CaseStrategy::Random(RandomStrategy::Random)
    } else {
        st
    }
}

/// The strategy an array is generated with: a strategy that distinctness or
/// a relation to another array rules out falls back to plain random.
pub fn effective_array_strategy(st: &CaseStrategy, name: &str, distinct: bool, spec: &ResolvedSpec) -> (r:
    CaseStrategy)
    ensures
        r == spec_effective_array_strategy(*st, name@, distinct, spec.model()),
{
    let zero = *st == CaseStrategy::Random(RandomStrategy::ZeroCorner);
    let distinct_compatible = *st == CaseStrategy::Random(RandomStrategy::ArrayMonoInc) || *st
        == CaseStrategy::Random(RandomStrategy::ArrayMonoDec) || *st == CaseStrategy::Random(
        RandomStrategy::ArrayMountain,
    );
    let deterministic = match st {
        CaseStrategy::Deterministic(_) => true,
        _ => false,
    };
    let ignored_for_distinct = distinct && (deterministic || zero || (is_array_shape_strategy(st)
        && !distinct_compatible));
    let ignored_for_inter_array = spec.inter_array_constrained.contains(name) && (zero
        || is_array_shape_strategy(st));
    if ignored_for_distinct || ignored_for_inter_array {
        CaseStrategy::Random(RandomStrategy::Random)
    } else {
        *st
    }
}

// ─── checking generated values ──────────────────────────────────────────────

/// The member of `p` opposite `name`.
pub open spec fn spec_pair_other(name: Seq<char>, p: (Seq<char>, Seq<char>)) -> Option<Seq<char>> {
    if p.0 == name {
        Some(p.1)
    } else if p.1 == name {
        Some(p.0)
    } else {
        None
    }
}

pub fn pair_other<'a>(name: &str, pair: &'a (String, String)) -> (r: Option<&'a String>)
    ensures
        crate::regex_ops::opt_view(match r {
            Some(s) => Some(*s),
            None => None,
        }) == spec_pair_other(name@, crate::maps::pair_view(*pair)),
{
    if crate::text::str_eq(pair.0.as_str(), name) {
        Some(&pair.1)
    } else if crate::text::str_eq(pair.1.as_str(), name) {
        Some(&pair.0)
    } else {
        None
    }
}

/// A name generated outside the current scope is not checked here.
pub open spec fn local(parent: Option<Seq<(Seq<char>, ())>>, v: Seq<char>) -> bool {
    match parent {
        Some(p) => !m_has(p, v),
        None => true,
    }
}

pub open spec fn int_val(sc: Seq<(Seq<char>, i64)>, parent: Option<Seq<(Seq<char>, ())>>, v: Seq<char>) -> Option<i64> {
    if local(parent, v) {
        m_get(sc, v)
    } else {
        None
    }
}

pub open spec fn arr_val(
    arrays: Seq<(Seq<char>, Seq<i64>)>,
    parent: Option<Seq<(Seq<char>, ())>>,
    v: Seq<char>,
) -> Option<Seq<i64>> {
    if local(parent, v) {
        m_get(arrays, v)
    } else {
        None
    }
}

pub open spec fn str_val(
    strings: Seq<(Seq<char>, Seq<char>)>,
    parent: Option<Seq<(Seq<char>, ())>>,
    v: Seq<char>,
) -> Option<Seq<char>> {
    if local(parent, v) {
        m_get(strings, v)
    } else {
        None
    }
}

/// The values of a context that `pairs_ok` reads.
pub struct Known {
    pub ints: Seq<(Seq<char>, i64)>,
    pub strs: Seq<(Seq<char>, Seq<char>)>,
    pub arrs: Seq<(Seq<char>, Seq<i64>)>,
    pub parent: Option<Seq<(Seq<char>, ())>>,
    pub parent_arrays: Option<Seq<(Seq<char>, ())>>,
}

/// `a <= b` holds of the known values: scalar against scalar, scalar
/// against every element, and arrays position by position.
pub open spec fn ordering_holds(k: Known, a: Seq<char>, b: Seq<char>) -> bool {
    let ia = int_val(k.ints, k.parent, a);
    let ib = int_val(k.ints, k.parent, b);
    let xa = arr_val(k.arrs, k.parent_arrays, a);
    let xb = arr_val(k.arrs, k.parent_arrays, b);
    &&& match (ia, ib) {
        (Some(x), Some(y)) => x <= y,
        _ => true,
    }
    &&& match (ia, xb) {
        (Some(x), Some(ys)) => forall|j: int| 0 <= j < ys.len() ==> x <= #[trigger] ys[j],
        _ => true,
    }
    &&& match (xa, ib) {
        (Some(xs), Some(y)) => forall|j: int| 0 <= j < xs.len() ==> #[trigger] xs[j] <= y,
        _ => true,
    }
    &&& match (xa, xb) {
        (Some(xs), Some(ys)) => forall|j: int| 0 <= j < xs.len() && j < ys.len() ==> #[trigger] xs[j] <= ys[j],
        _ => true,
    }
}

/// `a != b` holds of the known values: scalars, scalar against every
/// element, arrays position by position, and whole strings.
pub open spec fn not_equal_holds(k: Known, a: Seq<char>, b: Seq<char>) -> bool {
    let ia = int_val(k.ints, k.parent, a);
    let ib = int_val(k.ints, k.parent, b);
    let xa = arr_val(k.arrs, k.parent_arrays, a);
    let xb = arr_val(k.arrs, k.parent_arrays, b);
    let sa = str_val(k.strs, k.parent, a);
    let sb = str_val(k.strs, k.parent, b);
    &&& match (ia, ib) {
        (Some(x), Some(y)) => x != y,
        _ => true,
    }
    &&& match (ia, xb) {
        (Some(x), Some(ys)) => !ys.contains(x),
        _ => true,
    }
    &&& match (xa, ib) {
        (Some(xs), Some(y)) => !xs.contains(y),
        _ => true,
    }
    &&& match (xa, xb) {
        (Some(xs), Some(ys)) => forall|j: int| 0 <= j < xs.len() && j < ys.len() ==> #[trigger] xs[j] != ys[j],
        _ => true,
    }
    &&& match (sa, sb) {
        (Some(x), Some(y)) => x != y,
        _ => true,
    }
}

pub open spec fn spec_pairs_ok(m: ResolvedM, k: Known) -> bool {
    &&& forall|i: int| 0 <= i < m.ordering.len() ==> ordering_holds(k, #[trigger] m.ordering[i].0, m.ordering[i].1)
    &&& forall|i: int| 0 <= i < m.not_equal.len() ==> not_equal_holds(k, #[trigger] m.not_equal[i].0, m.not_equal[i].1)
}

pub open spec fn opt_set(p: Option<&StrSet>) -> Option<Seq<(Seq<char>, ())>> {
    match p {
        Some(s) => Some(s.map.model()),
        None => None,
    }
}

fn is_local(parent: Option<&StrSet>, v: &String) -> (r: bool)
    ensures
        r == local(opt_set(parent), v@),
{
    match parent {
        Some(p) => !p.contains(v.as_str()),
        None => true,
    }
}

fn int_val_exec(sc: &StrMap<i64>, parent: Option<&StrSet>, v: &String) -> (r: Option<i64>)
    ensures
        r == int_val(sc.model(), opt_set(parent), v@),
{
    if !is_local(parent, v) {
        return None;
    }
    match sc.get(v.as_str()) {
        Some(x) => Some(*x),
        None => None,
    }
}

fn arr_val_exec<'a>(arrays: &'a StrMap<Vec<i64>>, parent: Option<&StrSet>, v: &String) -> (r: Option<&'a Vec<i64>>)
    ensures
        arr_val(arrays.model(), opt_set(parent), v@) == match r {
            Some(xs) => Some(xs@),
            None => None,
        },
{
    if !is_local(parent, v) {
        return None;
    }
    match arrays.get(v.as_str()) {
        Some(xs) => {
            assert(xs.deep_view() =~= xs@);
            Some(xs)
        },
        None => None,
    }
}

fn str_val_exec<'a>(strings: &'a StrMap<String>, parent: Option<&StrSet>, v: &String) -> (r: Option<&'a String>)
    ensures
        str_val(strings.model(), opt_set(parent), v@) == match r {
            Some(s) => Some(s@),
            None => None,
        },
{
    if !is_local(parent, v) {
        return None;
    }
    strings.get(v.as_str())
}

fn all_le(x: i64, ys: &Vec<i64>) -> (r: bool)
    ensures
        r == forall|j: int| 0 <= j < ys@.len() ==> x <= #[trigger] ys@[j],
{
    let mut i: usize = 0;
    while i < ys.len()
        invariant
            i <= ys@.len(),
            forall|j: int| 0 <= j < i ==> x <= #[trigger] ys@[j],
        decreases ys.len() - i,
    {
        if x > ys[i] {
            return false;
        }
        i += 1;
    }
    true
}

fn all_ge(y: i64, xs: &Vec<i64>) -> (r: bool)
    ensures
        r == forall|j: int| 0 <= j < xs@.len() ==> #[trigger] xs@[j] <= y,
{
    let mut i: usize = 0;
    while i < xs.len()
        invariant
            i <= xs@.len(),
            forall|j: int| 0 <= j < i ==> #[trigger] xs@[j] <= y,
        decreases xs.len() - i,
    {
        if xs[i] > y {
            return false;
        }
        i += 1;
    }
    true
}

fn zip_le(xs: &Vec<i64>, ys: &Vec<i64>) -> (r: bool)
    ensures
        r == forall|j: int| 0 <= j < xs@.len() && j < ys@.len() ==> #[trigger] xs@[j] <= ys@[j],
{
    let mut i: usize = 0;
    while i < xs.len() && i < ys.len()
        invariant
            forall|j: int| 0 <= j < i && j < xs@.len() && j < ys@.len() ==> #[trigger] xs@[j] <= ys@[j],
        decreases xs.len() - i,
    {
        if xs[i] > ys[i] {
            return false;
        }
        i += 1;
    }
    true
}

fn zip_ne(xs: &Vec<i64>, ys: &Vec<i64>) -> (r: bool)
    ensures
        r == forall|j: int| 0 <= j < xs@.len() && j < ys@.len() ==> #[trigger] xs@[j] != ys@[j],
{
    let mut i: usize = 0;
    while i < xs.len() && i < ys.len()
        invariant
            forall|j: int| 0 <= j < i && j < xs@.len() && j < ys@.len() ==> #[trigger] xs@[j] != ys@[j],
        decreases xs.len() - i,
    {
        if xs[i] == ys[i] {
            return false;
        }
        i += 1;
    }
    true
}

fn contains_i64(xs: &Vec<i64>, x: i64) -> (r: bool)
    ensures
        r == xs@.contains(x),
{
    let mut i: usize = 0;
    while i < xs.len()
        invariant
            i <= xs@.len(),
            forall|j: int| 0 <= j < i ==> #[trigger] xs@[j] != x,
        decreases xs.len() - i,
    {
        if xs[i] == x {
            assert(xs@[i as int] == x);
            return true;
        }
        i += 1;
    }
    false
}

/// The generated values of this scope satisfy every `ordering` and
/// `not_equal` pair; names in `parent` (scalars and strings) or
/// `parent_arrays` (arrays) belong to an enclosing scope and are skipped.
pub fn pairs_ok(
    spec: &ResolvedSpec,
    sc: &StrMap<i64>,
    strings: &StrMap<String>,
    arrays: &StrMap<Vec<i64>>,
    parent: Option<&StrSet>,
    parent_arrays: Option<&StrSet>,
) -> (r: bool)
    ensures
        r == spec_pairs_ok(
            spec.model(),
            Known {
                ints: sc.model(),
                strs: strings.model(),
                arrs: arrays.model(),
                parent: opt_set(parent),
                parent_arrays: opt_set(parent_arrays),
            },
        ),
{
    let ghost k = Known {
        ints: sc.model(),
        strs: strings.model(),
        arrs: arrays.model(),
        parent: opt_set(parent),
        parent_arrays: opt_set(parent_arrays),
    };
    let ghost m = spec.model();
    let mut i: usize = 0;
    while i < spec.ordering.len()
        invariant
            k == (Known {
                ints: sc.model(),
                strs: strings.model(),
                arrs: arrays.model(),
                parent: opt_set(parent),
                parent_arrays: opt_set(parent_arrays),
            }),
            m == spec.model(),
            i <= m.ordering.len(),
            forall|j: int| 0 <= j < i ==> ordering_holds(k, #[trigger] m.ordering[j].0, m.ordering[j].1),
        decreases m.ordering.len() - i,
    {
        let a = &spec.ordering[i].0;
        let b = &spec.ordering[i].1;
        assert(m.ordering[i as int] == (a@, b@));
        let ia = int_val_exec(sc, parent, a);
        let ib = int_val_exec(sc, parent, b);
        let xa = arr_val_exec(arrays, parent_arrays, a);
        let xb = arr_val_exec(arrays, parent_arrays, b);
        match (ia, ib) {
            (Some(x), Some(y)) => if x > y {
                assert(!ordering_holds(k, m.ordering[i as int].0, m.ordering[i as int].1));
                return false;
            },
            _ => {},
        }
        match (ia, xb) {
            (Some(x), Some(ys)) => if !all_le(x, ys) {
                assert(!ordering_holds(k, m.ordering[i as int].0, m.ordering[i as int].1));
                return false;
            },
            _ => {},
        }
        match (xa, ib) {
            (Some(xs), Some(y)) => if !all_ge(y, xs) {
                assert(!ordering_holds(k, m.ordering[i as int].0, m.ordering[i as int].1));
                return false;
            },
            _ => {},
        }
        match (xa, xb) {
            (Some(xs), Some(ys)) => if !zip_le(xs, ys) {
                assert(!ordering_holds(k, m.ordering[i as int].0, m.ordering[i as int].1));
                return false;
            },
            _ => {},
        }
        assert(ordering_holds(k, a@, b@));
        i += 1;
    }
    let mut i: usize = 0;
    while i < spec.not_equal.len()
        invariant
            k == (Known {
                ints: sc.model(),
                strs: strings.model(),
                arrs: arrays.model(),
                parent: opt_set(parent),
                parent_arrays: opt_set(parent_arrays),
            }),
            m == spec.model(),
            forall|j: int| 0 <= j < m.ordering.len() ==> ordering_holds(k, #[trigger] m.ordering[j].0, m.ordering[j].1),
            i <= m.not_equal.len(),
            forall|j: int| 0 <= j < i ==> not_equal_holds(k, #[trigger] m.not_equal[j].0, m.not_equal[j].1),
        decreases m.not_equal.len() - i,
    {
        let a = &spec.not_equal[i].0;
        let b = &spec.not_equal[i].1;
        assert(m.not_equal[i as int] == (a@, b@));
        let ia = int_val_exec(sc, parent, a);
        let ib = int_val_exec(sc, parent, b);
        let xa = arr_val_exec(arrays, parent_arrays, a);
        let xb = arr_val_exec(arrays, parent_arrays, b);
        let sa = str_val_exec(strings, parent, a);
        let sb = str_val_exec(strings, parent, b);
        match (ia, ib) {
            (Some(x), Some(y)) => if x == y {
                assert(!not_equal_holds(k, m.not_equal[i as int].0, m.not_equal[i as int].1));
                return false;
            },
            _ => {},
        }
        match (ia, xb) {
            (Some(x), Some(ys)) => if contains_i64(ys, x) {
                assert(!not_equal_holds(k, m.not_equal[i as int].0, m.not_equal[i as int].1));
                return false;
            },
            _ => {},
        }
        match (xa, ib) {
            (Some(xs), Some(y)) => if contains_i64(xs, y) {
                assert(!not_equal_holds(k, m.not_equal[i as int].0, m.not_equal[i as int].1));
                return false;
            },
            _ => {},
        }
        match (xa, xb) {
            (Some(xs), Some(ys)) => if !zip_ne(xs, ys) {
                assert(!not_equal_holds(k, m.not_equal[i as int].0, m.not_equal[i as int].1));
                return false;
            },
            _ => {},
        }
        match (sa, sb) {
            (Some(x), Some(y)) => if crate::text::str_eq(x.as_str(), y.as_str()) {
                assert(!not_equal_holds(k, m.not_equal[i as int].0, m.not_equal[i as int].1));
                return false;
            },
            _ => {},
        }
        assert(not_equal_holds(k, a@, b@));
        i += 1;
    }
    true
}

// ─── narrowing bounds ───────────────────────────────────────────────────────

pub open spec fn spec_valid_bounds(lo: i64, hi: i64) -> Option<(i64, i64)> {
    if lo > hi {
        None
    } else {
        Some((lo, hi))
    }
}

pub fn valid_bounds(lo: i64, hi: i64) -> (r: Option<(i64, i64)>)
    ensures
        r == spec_valid_bounds(lo, hi),
{
    if lo > hi {
        None
    } else {
        Some((lo, hi))
    }
}

pub open spec fn min_i64(a: i64, b: i64) -> i64 {
    if a <= b {
        a
    } else {
        b
    }
}

pub open spec fn max_i64(a: i64, b: i64) -> i64 {
    if a >= b {
        a
    } else {
        b
    }
}

/// `[lo, hi]` narrowed by the known scalars along each `ordering` pair, in
/// order: `name <= b` caps by `b`, `a <= name` raises to `a`.
pub open spec fn narrow_by_scalars(
    name: Seq<char>,
    lohi: (i64, i64),
    ord: Seq<(Seq<char>, Seq<char>)>,
    ctx: Seq<(Seq<char>, i64)>,
) -> (i64, i64)
    decreases ord.len(),
{
    if ord.len() == 0 {
        lohi
    } else {
        let p = narrow_by_scalars(name, lohi, ord.drop_last(), ctx);
        let a = ord.last().0;
        let b = ord.last().1;
        let hi = if a == name {
            match m_get(ctx, b) {
                Some(v) => min_i64(p.1, v),
                None => p.1,
            }
        } else {
            p.1
        };
        let lo = if b == name {
            match m_get(ctx, a) {
                Some(v) => max_i64(p.0, v),
                None => p.0,
            }
        } else {
            p.0
        };
        (lo, hi)
    }
}

/// Bounds of a scalar narrowed by the known scalars it is ordered against;
/// `None` when nothing is left.
pub fn narrow_bounds_from_scalars(name: &str, lo: i64, hi: i64, spec: &ResolvedSpec, ctx: &StrMap<i64>) -> (r:
    Option<(i64, i64)>)
    ensures
        ({
            let b = narrow_by_scalars(name@, (lo, hi), spec.model().ordering, ctx.model());
            r == spec_valid_bounds(b.0, b.1)
        }),
{
    let ghost ord = spec.model().ordering;
    let mut lo = lo;
    let mut hi = hi;
    let ghost lohi0 = (lo, hi);
    let mut i: usize = 0;
    assert(ord.take(0) =~= Seq::<(Seq<char>, Seq<char>)>::empty());
    while i < spec.ordering.len()
        invariant
            ord == spec.model().ordering,
            i <= ord.len(),
            (lo, hi) == narrow_by_scalars(name@, lohi0, ord.take(i as int), ctx.model()),
        decreases ord.len() - i,
    {
        assert(ord.take(i + 1).drop_last() =~= ord.take(i as int));
        let a = &spec.ordering[i].0;
        let b = &spec.ordering[i].1;
        assert(ord.take(i + 1).last() == (a@, b@));
        let mut nhi = hi;
        if crate::text::str_eq(a.as_str(), name) {
            match ctx.get(b.as_str()) {
                Some(v) => if *v < nhi {
                    nhi = *v;
                },
                None => {},
            }
        }
        let mut nlo = lo;
        if crate::text::str_eq(b.as_str(), name) {
            match ctx.get(a.as_str()) {
                Some(v) => if *v > nlo {
                    nlo = *v;
                },
                None => {},
            }
        }
        lo = nlo;
        hi = nhi;
        i += 1;
    }
    assert(ord.take(ord.len() as int) =~= ord);
    valid_bounds(lo, hi)
}

pub open spec fn seq_min_i64(s: Seq<i64>) -> Option<i64>
    decreases s.len(),
{
    if s.len() == 0 {
        None
    } else {
        match seq_min_i64(s.drop_last()) {
            Some(m) => Some(min_i64(m, s.last())),
            None => Some(s.last()),
        }
    }
}

pub open spec fn seq_max_i64(s: Seq<i64>) -> Option<i64>
    decreases s.len(),
{
    if s.len() == 0 {
        None
    } else {
        match seq_max_i64(s.drop_last()) {
            Some(m) => Some(max_i64(m, s.last())),
            None => Some(s.last()),
        }
    }
}

fn min_of(xs: &Vec<i64>) -> (r: Option<i64>)
    ensures
        r == seq_min_i64(xs@),
{
    let mut r: Option<i64> = None;
    let mut i: usize = 0;
    assert(xs@.take(0) =~= Seq::<i64>::empty());
    while i < xs.len()
        invariant
            i <= xs@.len(),
            r == seq_min_i64(xs@.take(i as int)),
        decreases xs.len() - i,
    {
        assert(xs@.take(i + 1).drop_last() =~= xs@.take(i as int));
        r = match r {
            Some(m) => Some(if m <= xs[i] { m } else { xs[i] }),
            None => Some(xs[i]),
        };
        i += 1;
    }
    assert(xs@.take(xs@.len() as int) =~= xs@);
    r
}

fn max_of(xs: &Vec<i64>) -> (r: Option<i64>)
    ensures
        r == seq_max_i64(xs@),
{
    let mut r: Option<i64> = None;
    let mut i: usize = 0;
    assert(xs@.take(0) =~= Seq::<i64>::empty());
    while i < xs.len()
        invariant
            i <= xs@.len(),
            r == seq_max_i64(xs@.take(i as int)),
        decreases xs.len() - i,
    {
        assert(xs@.take(i + 1).drop_last() =~= xs@.take(i as int));
        r = match r {
            Some(m) => Some(if m >= xs[i] { m } else { xs[i] }),
            None => Some(xs[i]),
        };
        i += 1;
    }
    assert(xs@.take(xs@.len() as int) =~= xs@);
    r
}

/// Narrowing by the known scalars only shrinks the bounds.
pub proof fn lemma_narrow_by_scalars_shrinks(
    name: Seq<char>,
    lohi: (i64, i64),
    ord: Seq<(Seq<char>, Seq<char>)>,
    ctx: Seq<(Seq<char>, i64)>,
)
    ensures
        narrow_by_scalars(name, lohi, ord, ctx).0 >= lohi.0,
        narrow_by_scalars(name, lohi, ord, ctx).1 <= lohi.1,
    decreases ord.len(),
{
    if ord.len() > 0 {
        lemma_narrow_by_scalars_shrinks(name, lohi, ord.drop_last(), ctx);
    }
}

/// Narrowing by the known arrays only shrinks the bounds.
pub proof fn lemma_narrow_by_arrays_shrinks(
    name: Seq<char>,
    lohi: (i64, i64),
    ord: Seq<(Seq<char>, Seq<char>)>,
    arrays: Seq<(Seq<char>, Seq<i64>)>,
)
    ensures
        narrow_by_arrays(name, lohi, ord, arrays).0 >= lohi.0,
        narrow_by_arrays(name, lohi, ord, arrays).1 <= lohi.1,
    decreases ord.len(),
{
    if ord.len() > 0 {
        lemma_narrow_by_arrays_shrinks(name, lohi, ord.drop_last(), arrays);
    }
}

/// `[lo, hi]` narrowed by the known arrays along each `ordering` pair:
/// `name <= b` caps by `b`'s smallest element, `a <= name` raises to `a`'s
/// largest.
pub open spec fn narrow_by_arrays(
    name: Seq<char>,
    lohi: (i64, i64),
    ord: Seq<(Seq<char>, Seq<char>)>,
    arrays: Seq<(Seq<char>, Seq<i64>)>,
) -> (i64, i64)
    decreases ord.len(),
{
    if ord.len() == 0 {
        lohi
    } else {
        let p = narrow_by_arrays(name, lohi, ord.drop_last(), arrays);
        let a = ord.last().0;
        let b = ord.last().1;
        let hi = if a == name {
            match m_get(arrays, b) {
                Some(xs) => match seq_min_i64(xs) {
                    Some(v) => min_i64(p.1, v),
                    None => p.1,
                },
                None => p.1,
            }
        } else {
            p.1
        };
        let lo = if b == name {
            match m_get(arrays, a) {
                Some(xs) => match seq_max_i64(xs) {
                    Some(v) => max_i64(p.0, v),
                    None => p.0,
                },
                None => p.0,
            }
        } else {
            p.0
        };
        (lo, hi)
    }
}

/// Bounds of a scalar narrowed first by known scalars, then by known arrays
/// it is ordered against; `None` when nothing is left at either step.
pub fn narrow_scalar_bounds(
    name: &str,
    lo: i64,
    hi: i64,
    spec: &ResolvedSpec,
    ctx: &StrMap<i64>,
    array_ctx: &StrMap<Vec<i64>>,
) -> (r: Option<(i64, i64)>)
    ensures
        ({
            let b1 = narrow_by_scalars(name@, (lo, hi), spec.model().ordering, ctx.model());
            if b1.0 > b1.1 {
                r is None
            } else {
                let b2 = narrow_by_arrays(name@, b1, spec.model().ordering, array_ctx.model());
                r == spec_valid_bounds(b2.0, b2.1)
            }
        }),
{
    let (lo1, hi1) = match narrow_bounds_from_scalars(name, lo, hi, spec, ctx) {
        Some(b) => b,
        None => return None,
    };
    let ghost ord = spec.model().ordering;
    let mut lo = lo1;
    let mut hi = hi1;
    let ghost lohi0 = (lo, hi);
    let mut i: usize = 0;
    assert(ord.take(0) =~= Seq::<(Seq<char>, Seq<char>)>::empty());
    while i < spec.ordering.len()
        invariant
            ord == spec.model().ordering,
            i <= ord.len(),
            (lo, hi) == narrow_by_arrays(name@, lohi0, ord.take(i as int), array_ctx.model()),
        decreases ord.len() - i,
    {
        assert(ord.take(i + 1).drop_last() =~= ord.take(i as int));
        let a = &spec.ordering[i].0;
        let b = &spec.ordering[i].1;
        assert(ord.take(i + 1).last() == (a@, b@));
        let mut nhi = hi;
        if crate::text::str_eq(a.as_str(), name) {
            match array_ctx.get(b.as_str()) {
                Some(xs) => {
                    assert(xs.deep_view() =~= xs@);
                    match min_of(xs) {
                        Some(v) => if v < nhi {
                            nhi = v;
                        },
                        None => {},
                    }
                },
                None => {},
            }
        }
        let mut nlo = lo;
        if crate::text::str_eq(b.as_str(), name) {
            match array_ctx.get(a.as_str()) {
                Some(xs) => {
                    assert(xs.deep_view() =~= xs@);
                    match max_of(xs) {
                        Some(v) => if v > nlo {
                            nlo = v;
                        },
                        None => {},
                    }
                },
                None => {},
            }
        }
        lo = nlo;
        hi = nhi;
        i += 1;
    }
    assert(ord.take(ord.len() as int) =~= ord);
    valid_bounds(lo, hi)
}

/// Append `values` to the array `name`, creating it when absent.
pub fn record_array_values(array_ctx: &mut StrMap<Vec<i64>>, name: &str, values: &Vec<i64>)
    ensures
        final(array_ctx).model() == crate::maps::m_insert(
            old(array_ctx).model(),
            name@,
            match m_get(old(array_ctx).model(), name@) {
                Some(xs) => xs + values@,
                None => values@,
            },
        ),
{
    let mut cur: Vec<i64> = match array_ctx.get(name) {
        Some(xs) => {
            assert(xs.deep_view() =~= xs@);
            let mut c: Vec<i64> = Vec::new();
            let mut i: usize = 0;
            while i < xs.len()
                invariant
                    i <= xs@.len(),
                    c@ == xs@.take(i as int),
                decreases xs.len() - i,
            {
                c.push(xs[i]);
                assert(xs@.take(i + 1) =~= xs@.take(i as int).push(xs@[i as int]));
                i += 1;
            }
            assert(xs@.take(xs@.len() as int) =~= xs@);
            c
        },
        None => Vec::new(),
    };
    let ghost c0 = cur@;
    let mut j: usize = 0;
    while j < values.len()
        invariant
            j <= values@.len(),
            cur@ == c0 + values@.take(j as int),
        decreases values.len() - j,
    {
        cur.push(values[j]);
        assert(c0 + values@.take(j + 1) =~= (c0 + values@.take(j as int)).push(values@[j as int]));
        j += 1;
    }
    assert(values@.take(values@.len() as int) =~= values@);
    assert(cur.deep_view() =~= cur@);
    array_ctx.insert(name.to_string(), cur);
}


// ─── element-wise relations ─────────────────────────────────────────────────

/// `[lo, hi]` narrowed, along each `ordering` pair, by the element at
/// `index` of the known array on the other side.
pub open spec fn narrow_by_elements(
    name: Seq<char>,
    index: int,
    lohi: (i64, i64),
    ord: Seq<(Seq<char>, Seq<char>)>,
    arrays: Seq<(Seq<char>, Seq<i64>)>,
) -> (i64, i64)
    decreases ord.len(),
{
    if ord.len() == 0 {
        lohi
    } else {
        let p = narrow_by_elements(name, index, lohi, ord.drop_last(), arrays);
        let a = ord.last().0;
        let b = ord.last().1;
        let hi = if a == name {
            match m_get(arrays, b) {
                Some(xs) => if 0 <= index < xs.len() {
                    min_i64(p.1, xs[index])
                } else {
                    p.1
                },
                None => p.1,
            }
        } else {
            p.1
        };
        let lo = if b == name {
            match m_get(arrays, a) {
                Some(xs) => if 0 <= index < xs.len() {
                    max_i64(p.0, xs[index])
                } else {
                    p.0
                },
                None => p.0,
            }
        } else {
            p.0
        };
        (lo, hi)
    }
}

/// Bounds of element `index` of `name`, narrowed by the same position of
/// each known array it is ordered against; `None` when nothing is left.
pub fn narrow_element_bounds(
    name: &str,
    index: usize,
    lo: i64,
    hi: i64,
    spec: &ResolvedSpec,
    array_ctx: &StrMap<Vec<i64>>,
) -> (r: Option<(i64, i64)>)
    ensures
        ({
            let b = narrow_by_elements(name@, index as int, (lo, hi), spec.model().ordering, array_ctx.model());
            r == spec_valid_bounds(b.0, b.1)
        }),
{
    let ghost ord = spec.model().ordering;
    let mut lo = lo;
    let mut hi = hi;
    let ghost lohi0 = (lo, hi);
    let mut i: usize = 0;
    assert(ord.take(0) =~= Seq::<(Seq<char>, Seq<char>)>::empty());
    while i < spec.ordering.len()
        invariant
            ord == spec.model().ordering,
            i <= ord.len(),
            (lo, hi) == narrow_by_elements(name@, index as int, lohi0, ord.take(i as int), array_ctx.model()),
        decreases ord.len() - i,
    {
        assert(ord.take(i + 1).drop_last() =~= ord.take(i as int));
        let a = &spec.ordering[i].0;
        let b = &spec.ordering[i].1;
        assert(ord.take(i + 1).last() == (a@, b@));
        let mut nhi = hi;
        if crate::text::str_eq(a.as_str(), name) {
            match array_ctx.get(b.as_str()) {
                Some(xs) => {
                    assert(xs.deep_view() =~= xs@);
                    if index < xs.len() && xs[index] < nhi {
                        nhi = xs[index];
                    }
                },
                None => {},
            }
        }
        let mut nlo = lo;
        if crate::text::str_eq(b.as_str(), name) {
            match array_ctx.get(a.as_str()) {
                Some(xs) => {
                    assert(xs.deep_view() =~= xs@);
                    if index < xs.len() && xs[index] > nlo {
                        nlo = xs[index];
                    }
                },
                None => {},
            }
        }
        lo = nlo;
        hi = nhi;
        i += 1;
    }
    assert(ord.take(ord.len() as int) =~= ord);
    valid_bounds(lo, hi)
}

/// The known array `o` reaches into positions `[start, start + len)`.
pub open spec fn overlaps(arrays: Seq<(Seq<char>, Seq<i64>)>, o: Seq<char>, start: int, len: int) -> bool {
    match m_get(arrays, o) {
        Some(xs) => start < xs.len() && start + len > 0,
        None => false,
    }
}

pub open spec fn pair_overlaps(
    name: Seq<char>,
    p: (Seq<char>, Seq<char>),
    arrays: Seq<(Seq<char>, Seq<i64>)>,
    start: int,
    len: int,
) -> bool {
    match spec_pair_other(name, p) {
        Some(o) => overlaps(arrays, o, start, len),
        None => false,
    }
}

pub open spec fn spec_has_positional(
    name: Seq<char>,
    start: int,
    len: int,
    ord: Seq<(Seq<char>, Seq<char>)>,
    arrays: Seq<(Seq<char>, Seq<i64>)>,
) -> bool {
    exists|i: int| 0 <= i < ord.len() && pair_overlaps(name, #[trigger] ord[i], arrays, start, len)
}

fn overlaps_exec(array_ctx: &StrMap<Vec<i64>>, o: &str, start: usize, len: usize) -> (r: bool)
    ensures
        r == overlaps(array_ctx.model(), o@, start as int, len as int),
{
    match array_ctx.get(o) {
        Some(xs) => {
            assert(xs.deep_view() =~= xs@);
            start < xs.len() && (start > 0 || len > 0)
        },
        None => false,
    }
}

/// Some array `name` is ordered against already has values at the positions
/// `[start, start + len)` are about to take.
pub fn has_positional_array_bounds(
    name: &str,
    start: usize,
    len: usize,
    spec: &ResolvedSpec,
    array_ctx: &StrMap<Vec<i64>>,
) -> (r: bool)
    ensures
        r == spec_has_positional(name@, start as int, len as int, spec.model().ordering, array_ctx.model()),
{
    let ghost ord = spec.model().ordering;
    let mut i: usize = 0;
    while i < spec.ordering.len()
        invariant
            ord == spec.model().ordering,
            i <= ord.len(),
            forall|j: int| 0 <= j < i ==> !pair_overlaps(name@, #[trigger] ord[j], array_ctx.model(), start as int, len as int),
        decreases ord.len() - i,
    {
        assert(ord[i as int] == crate::maps::pair_view(spec.ordering@[i as int]));
        match pair_other(name, &spec.ordering[i]) {
            Some(o) => {
                if overlaps_exec(array_ctx, o.as_str(), start, len) {
                    assert(pair_overlaps(name@, ord[i as int], array_ctx.model(), start as int, len as int));
                    return true;
                }
            },
            None => {},
        }
        i += 1;
    }
    false
}

pub open spec fn ne_reaches(
    name: Seq<char>,
    p: (Seq<char>, Seq<char>),
    ctx: Seq<(Seq<char>, i64)>,
    arrays: Seq<(Seq<char>, Seq<i64>)>,
    start: int,
    len: int,
) -> bool {
    match spec_pair_other(name, p) {
        Some(o) => m_has(ctx, o) || overlaps(arrays, o, start, len),
        None => false,
    }
}

pub open spec fn spec_has_element_constraints(
    name: Seq<char>,
    start: int,
    len: int,
    m: ResolvedM,
    ctx: Seq<(Seq<char>, i64)>,
    arrays: Seq<(Seq<char>, Seq<i64>)>,
) -> bool {
    spec_has_positional(name, start, len, m.ordering, arrays) || exists|i: int|
        0 <= i < m.not_equal.len() && ne_reaches(name, #[trigger] m.not_equal[i], ctx, arrays, start, len)
}

/// `name` is a side of an `ordering` or a `not_equal` pair.
pub open spec fn paired(name: Seq<char>, m: ResolvedM) -> bool {
    ||| exists|i: int| 0 <= i < m.ordering.len() && #[trigger] spec_pair_other(name, m.ordering[i]) is Some
    ||| exists|i: int| 0 <= i < m.not_equal.len() && #[trigger] spec_pair_other(name, m.not_equal[i]) is Some
}

/// Positions tied to known values belong to a variable in some pair.
pub proof fn lemma_element_constraints_paired(
    name: Seq<char>,
    start: int,
    len: int,
    m: ResolvedM,
    ctx: Seq<(Seq<char>, i64)>,
    arrays: Seq<(Seq<char>, Seq<i64>)>,
)
    requires
        spec_has_element_constraints(name, start, len, m, ctx, arrays),
    ensures
        paired(name, m),
{
    if spec_has_positional(name, start, len, m.ordering, arrays) {
        let i = choose|i: int| 0 <= i < m.ordering.len() && pair_overlaps(name, #[trigger] m.ordering[i], arrays, start, len);
        assert(spec_pair_other(name, m.ordering[i]) is Some);
    } else {
        let i = choose|i: int| 0 <= i < m.not_equal.len() && ne_reaches(name, #[trigger] m.not_equal[i], ctx, arrays, start, len);
        assert(spec_pair_other(name, m.not_equal[i]) is Some);
    }
}

/// Positions `[start, start + len)` of `name` are tied to a known value:
/// positionally by `ordering`, or by `not_equal` to a known scalar or to
/// an overlapping known array.
pub fn has_array_element_constraints(
    name: &str,
    start: usize,
    len: usize,
    spec: &ResolvedSpec,
    ctx: &StrMap<i64>,
    array_ctx: &StrMap<Vec<i64>>,
) -> (r: bool)
    ensures
        r == spec_has_element_constraints(name@, start as int, len as int, spec.model(), ctx.model(), array_ctx.model()),
{
    if has_positional_array_bounds(name, start, len, spec, array_ctx) {
        return true;
    }
    let ghost ne = spec.model().not_equal;
    let mut i: usize = 0;
    while i < spec.not_equal.len()
        invariant
            ne == spec.model().not_equal,
            i <= ne.len(),
            forall|j: int| 0 <= j < i ==> !ne_reaches(name@, #[trigger] ne[j], ctx.model(), array_ctx.model(), start as int, len as int),
        decreases ne.len() - i,
    {
        assert(ne[i as int] == crate::maps::pair_view(spec.not_equal@[i as int]));
        match pair_other(name, &spec.not_equal[i]) {
            Some(o) => {
                if ctx.contains_key(o.as_str()) || overlaps_exec(array_ctx, o.as_str(), start, len) {
                    assert(ne_reaches(name@, ne[i as int], ctx.model(), array_ctx.model(), start as int, len as int));
                    return true;
                }
            },
            None => {},
        }
        i += 1;
    }
    false
}

/// `x` is a known value that `name` must differ from through the pair `p`:
/// the scalar on the other side, or any element of the array there.
pub open spec fn ne_value(
    name: Seq<char>,
    p: (Seq<char>, Seq<char>),
    ctx: Seq<(Seq<char>, i64)>,
    arrays: Seq<(Seq<char>, Seq<i64>)>,
    x: i64,
) -> bool {
    match spec_pair_other(name, p) {
        Some(o) => m_get(ctx, o) == Some(x) || (m_get(arrays, o) matches Some(xs) && xs.contains(x)),
        None => false,
    }
}

pub open spec fn forbids_scalar(
    name: Seq<char>,
    ne: Seq<(Seq<char>, Seq<char>)>,
    ctx: Seq<(Seq<char>, i64)>,
    arrays: Seq<(Seq<char>, Seq<i64>)>,
    x: i64,
) -> bool {
    exists|i: int| 0 <= i < ne.len() && ne_value(name, #[trigger] ne[i], ctx, arrays, x)
}

/// `x` is a known value that position `index` of `name` must differ from
/// through the pair `p`: the scalar on the other side, or the same position
/// of the array there.
pub open spec fn ne_element(
    name: Seq<char>,
    index: int,
    p: (Seq<char>, Seq<char>),
    ctx: Seq<(Seq<char>, i64)>,
    arrays: Seq<(Seq<char>, Seq<i64>)>,
    x: i64,
) -> bool {
    match spec_pair_other(name, p) {
        Some(o) => m_get(ctx, o) == Some(x) || (m_get(arrays, o) matches Some(xs) && 0 <= index < xs.len()
            && xs[index] == x),
        None => false,
    }
}

pub open spec fn forbids_element(
    name: Seq<char>,
    index: int,
    ne: Seq<(Seq<char>, Seq<char>)>,
    ctx: Seq<(Seq<char>, i64)>,
    arrays: Seq<(Seq<char>, Seq<i64>)>,
    x: i64,
) -> bool {
    exists|i: int| 0 <= i < ne.len() && ne_element(name, index, #[trigger] ne[i], ctx, arrays, x)
}

/// `set` with every element of `xs` added.
fn with_all(set: HashSet<i64>, xs: &Vec<i64>) -> (r: HashSet<i64>)
    ensures
        forall|x: i64| r@.contains(x) <==> (set@.contains(x) || xs@.contains(x)),
{
    broadcast use vstd::std_specs::hash::group_hash_axioms;
    let mut out = set;
    let mut k: usize = 0;
    while k < xs.len()
        invariant
            k <= xs@.len(),
            forall|x: i64| out@.contains(x) <==> (set@.contains(x) || xs@.take(k as int).contains(x)),
        decreases xs.len() - k,
    {
        out.insert(xs[k]);
        proof {
            assert forall|x: i64| out@.contains(x) <==> (set@.contains(x) || xs@.take(k + 1).contains(x)) by {
                if xs@.take(k + 1).contains(x) && x != xs@[k as int] {
                    let w = choose|w: int| 0 <= w < k + 1 && #[trigger] xs@.take(k + 1)[w] == x;
                    assert(xs@.take(k as int)[w] == x);
                }
                if xs@.take(k as int).contains(x) {
                    let w = choose|w: int| 0 <= w < k && #[trigger] xs@.take(k as int)[w] == x;
                    assert(xs@.take(k + 1)[w] == x);
                }
                if x == xs@[k as int] {
                    assert(xs@.take(k + 1)[k as int] == x);
                }
            }
        }
        k += 1;
    }
    assert(xs@.take(xs@.len() as int) =~= xs@);
    out
}

/// The values a scalar `name` must avoid.
pub fn not_equal_forbidden_scalar(
    name: &str,
    spec: &ResolvedSpec,
    ctx: &StrMap<i64>,
    array_ctx: &StrMap<Vec<i64>>,
) -> (r: HashSet<i64>)
    ensures
        forall|x: i64| r@.contains(x) <==> forbids_scalar(name@, spec.model().not_equal, ctx.model(), array_ctx.model(), x),
{
    broadcast use vstd::std_specs::hash::group_hash_axioms;
    let ghost ne = spec.model().not_equal;
    let mut forbidden: HashSet<i64> = HashSet::new();
    let mut i: usize = 0;
    while i < spec.not_equal.len()
        invariant
            ne == spec.model().not_equal,
            i <= ne.len(),
            forall|x: i64| forbidden@.contains(x) <==> exists|j: int|
                0 <= j < i && ne_value(name@, #[trigger] ne[j], ctx.model(), array_ctx.model(), x),
        decreases ne.len() - i,
    {
        let ghost before = forbidden@;
        assert(ne[i as int] == crate::maps::pair_view(spec.not_equal@[i as int]));
        match pair_other(name, &spec.not_equal[i]) {
            Some(o) => {
                match ctx.get(o.as_str()) {
                    Some(x) => {
                        forbidden.insert(*x);
                    },
                    None => {},
                }
                let ghost mid = forbidden@;
                let ghost arr = m_get(array_ctx.model(), o@);
                assert(forall|x: i64| #[trigger] mid.contains(x) <==> (before.contains(x) || m_get(ctx.model(), o@) == Some(x)));
                match array_ctx.get(o.as_str()) {
                    Some(xs) => {
                        assert(xs.deep_view() =~= xs@);
                        assert(arr == Some(xs@));
                        forbidden = with_all(forbidden, xs);
                        assert(forall|x: i64| #[trigger] forbidden@.contains(x) <==> (mid.contains(x) || (arr matches Some(ys) && ys.contains(x))));
                    },
                    None => {
                        assert(forall|x: i64| #[trigger] forbidden@.contains(x) <==> (mid.contains(x) || (arr matches Some(ys) && ys.contains(x))));
                    },
                }
                assert(forall|x: i64| forbidden@.contains(x) <==> (before.contains(x) || ne_value(name@, ne[i as int], ctx.model(), array_ctx.model(), x)));
            },
            None => {
                assert(forall|x: i64| forbidden@.contains(x) <==> (before.contains(x) || ne_value(name@, ne[i as int], ctx.model(), array_ctx.model(), x)));
            },
        }
        proof {
            assert forall|x: i64| forbidden@.contains(x) <==> exists|j: int|
                0 <= j < i + 1 && ne_value(name@, #[trigger] ne[j], ctx.model(), array_ctx.model(), x) by {
                if ne_value(name@, ne[i as int], ctx.model(), array_ctx.model(), x) {
                    assert(forbidden@.contains(x));
                }
            }
        }
        i += 1;
    }
    forbidden
}

/// Position `index` of `name` may hold `value` as far as `not_equal` goes.
pub fn element_satisfies_not_equal(
    name: &str,
    index: usize,
    value: i64,
    spec: &ResolvedSpec,
    ctx: &StrMap<i64>,
    array_ctx: &StrMap<Vec<i64>>,
) -> (r: bool)
    ensures
        r == !forbids_element(name@, index as int, spec.model().not_equal, ctx.model(), array_ctx.model(), value),
{
    let ghost ne = spec.model().not_equal;
    let mut i: usize = 0;
    while i < spec.not_equal.len()
        invariant
            ne == spec.model().not_equal,
            i <= ne.len(),
            forall|j: int| 0 <= j < i ==> !ne_element(name@, index as int, #[trigger] ne[j], ctx.model(), array_ctx.model(), value),
        decreases ne.len() - i,
    {
        assert(ne[i as int] == crate::maps::pair_view(spec.not_equal@[i as int]));
        match pair_other(name, &spec.not_equal[i]) {
            Some(o) => {
                match ctx.get(o.as_str()) {
                    Some(x) => if *x == value {
                        assert(ne_element(name@, index as int, ne[i as int], ctx.model(), array_ctx.model(), value));
                        return false;
                    },
                    None => {},
                }
                match array_ctx.get(o.as_str()) {
                    Some(xs) => {
                        assert(xs.deep_view() =~= xs@);
                        if index < xs.len() && xs[index] == value {
                            assert(ne_element(name@, index as int, ne[i as int], ctx.model(), array_ctx.model(), value));
                            return false;
                        }
                    },
                    None => {},
                }
            },
            None => {},
        }
        i += 1;
    }
    true
}

/// The values position `index` of `name` must avoid.
pub fn not_equal_forbidden_element(
    name: &str,
    index: usize,
    spec: &ResolvedSpec,
    ctx: &StrMap<i64>,
    array_ctx: &StrMap<Vec<i64>>,
) -> (r: HashSet<i64>)
    ensures
        forall|x: i64| r@.contains(x) <==> forbids_element(name@, index as int, spec.model().not_equal, ctx.model(), array_ctx.model(), x),
{
    broadcast use vstd::std_specs::hash::group_hash_axioms;
    let ghost ne = spec.model().not_equal;
    let mut forbidden: HashSet<i64> = HashSet::new();
    let mut i: usize = 0;
    while i < spec.not_equal.len()
        invariant
            ne == spec.model().not_equal,
            i <= ne.len(),
            forall|x: i64| forbidden@.contains(x) <==> exists|j: int|
                0 <= j < i && ne_element(name@, index as int, #[trigger] ne[j], ctx.model(), array_ctx.model(), x),
        decreases ne.len() - i,
    {
        assert(ne[i as int] == crate::maps::pair_view(spec.not_equal@[i as int]));
        match pair_other(name, &spec.not_equal[i]) {
            Some(o) => {
                match ctx.get(o.as_str()) {
                    Some(x) => {
                        forbidden.insert(*x);
                    },
                    None => {},
                }
                match array_ctx.get(o.as_str()) {
                    Some(xs) => {
                        assert(xs.deep_view() =~= xs@);
                        if index < xs.len() {
                            forbidden.insert(xs[index]);
                        }
                    },
                    None => {},
                }
            },
            None => {},
        }
        proof {
            assert forall|x: i64| forbidden@.contains(x) <==> exists|j: int|
                0 <= j < i + 1 && ne_element(name@, index as int, #[trigger] ne[j], ctx.model(), array_ctx.model(), x) by {
                if ne_element(name@, index as int, ne[i as int], ctx.model(), array_ctx.model(), x) {
                    assert(forbidden@.contains(x));
                }
            }
        }
        i += 1;
    }
    forbidden
}

} // verus!
