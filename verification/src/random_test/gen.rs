//! Structural sizes, effective ranges, and single random values.

use vstd::prelude::*;
use crate::maps::{m_get, m_insert, StrMap};
use crate::parse::task::trunc_div;
use crate::random_test::rng::random_in;
use crate::random_test::spec::{Hi, ResolvedM, ResolvedSpec, VarInfo, VarInfoM};
use crate::random_test::strategy::{CaseStrategy, DeterministicStrategy, RandomStrategy};

verus! {

/// The decided sizes of the sum-limit denominators: the test-case count
/// and each jagged row count.
#[derive(Debug)]
pub struct StructuralSizes {
    pub test_cases: Option<(String, i64)>,
    pub jagged_counts: StrMap<i64>,
}

pub struct SizesM {
    pub test_cases: Option<(Seq<char>, i64)>,
    pub jagged: Seq<(Seq<char>, i64)>,
}

impl StructuralSizes {
    pub open spec fn model(&self) -> SizesM {
        SizesM {
            test_cases: match self.test_cases {
                Some(p) => Some((p.0@, p.1)),
                None => None,
            },
            jagged: self.jagged_counts.model(),
        }
    }

    /// No sizes decided.
    pub fn new() -> (r: StructuralSizes)
        ensures
            r.model().test_cases is None,
            r.model().jagged.len() == 0,
    {
        StructuralSizes { test_cases: None, jagged_counts: StrMap::new() }
    }
}

/// `i64` division by a positive divisor, rounding toward zero.
pub fn div_trunc(a: i64, b: i64) -> (r: i64)
    requires
        b >= 1,
    ensures
        r == trunc_div(a as int, b as int),
{
    if a >= 0 {
        a / b
    } else {
        let q = (-(a as i128)) / (b as i128);
        (-q) as i64
    }
}

pub open spec fn spec_concrete_hi(info: VarInfoM) -> i64 {
    match info.hi {
        Hi::Fixed(n) => n,
        Hi::SumLimited(l) => l,
    }
}

/// The upper end as a number; a sum-limited one is its raw limit.
pub fn concrete_hi(info: &VarInfo) -> (r: i64)
    ensures
        r == spec_concrete_hi(info.deep_view()),
{
    match info.hi {
        Hi::Fixed(n) => n,
        Hi::SumLimited(l) => l,
    }
}

pub open spec fn ordered(lo: i64, hi: i64) -> (i64, i64) {
    if lo > hi {
        (hi, lo)
    } else {
        (lo, hi)
    }
}

pub open spec fn spec_size_bounds(m: ResolvedM, name: Seq<char>) -> (i64, i64) {
    match m_get(m.vars, name) {
        Some(i) => ordered(i.lo, spec_concrete_hi(i)),
        None => (0, 0),
    }
}

/// The bounds of a size variable as written, a reversed pair swapped; an
/// undeclared one (recorded as missing) is `(0, 0)`.
pub fn size_bounds(spec: &ResolvedSpec, name: &str) -> (r: (i64, i64))
    ensures
        r == spec_size_bounds(spec.model(), name@),
{
    let (lo, hi) = match spec.vars.get(name) {
        Some(i) => (i.lo, concrete_hi(i)),
        None => (0, 0),
    };
    if lo > hi {
        (hi, lo)
    } else {
        (lo, hi)
    }
}

/// The divisor of a sum limit for `name`: its jagged row count, else the
/// test-case count, else 1.
pub open spec fn spec_denom(name: Seq<char>, sizes: SizesM, m: ResolvedM) -> i64 {
    match m_get(m.jagged, name) {
        Some(cv) => match m_get(sizes.jagged, cv) {
            Some(n) => n,
            None => 1,
        },
        None => match sizes.test_cases {
            Some(p) => p.1,
            None => 1,
        },
    }
}

/// `L / denom`, at least 1.
pub open spec fn spec_sum_cap(l: i64, denom: i64) -> i64 {
    let d: i64 = if denom >= 1 { denom } else { 1 };
    let q = trunc_div(l as int, d as int);
    if q >= 1 { q as i64 } else { 1 }
}

pub open spec fn spec_effective_lo_hi(name: Seq<char>, info: VarInfoM, sizes: SizesM, m: ResolvedM) -> (i64, i64) {
    let cap = |l: i64| spec_sum_cap(l, spec_denom(name, sizes, m));
    let hi = match info.hi {
        Hi::Fixed(n) => match info.sum_limit {
            Some(l) => if n <= cap(l) { n } else { cap(l) },
            None => n,
        },
        Hi::SumLimited(l) => cap(l),
    };
    ordered(info.lo, hi)
}

fn sum_cap(l: i64, name: &str, sizes: &StructuralSizes, spec: &ResolvedSpec) -> (r: i64)
    ensures
        r == spec_sum_cap(l, spec_denom(name@, sizes.model(), spec.model())),
{
    let denom = match spec.jagged_len_to_count.get(name) {
        Some(cv) => match sizes.jagged_counts.get(cv.as_str()) {
            Some(n) => *n,
            None => 1,
        },
        None => match &sizes.test_cases {
            Some(p) => p.1,
            None => 1,
        },
    };
    let d = if denom >= 1 { denom } else { 1 };
    let q = div_trunc(l, d);
    if q >= 1 { q } else { 1 }
}

/// A variable's effective `(lo, hi)`: a sum limit `L` caps the upper end at
/// `L / denom` (at least 1), the variable's sum denominator dividing; a
/// reversed pair is swapped.
pub fn effective_lo_hi(name: &str, info: &VarInfo, sizes: &StructuralSizes, spec: &ResolvedSpec) -> (r: (i64, i64))
    ensures
        r == spec_effective_lo_hi(name@, info.deep_view(), sizes.model(), spec.model()),
{
    let lo = info.lo;
    let hi = match info.hi {
        Hi::Fixed(n) => match info.sum_limit {
            Some(l) => {
                let c = sum_cap(l, name, sizes, spec);
                if n <= c { n } else { c }
            },
            None => n,
        },
        Hi::SumLimited(l) => sum_cap(l, name, sizes, spec),
    };
    if lo > hi {
        (hi, lo)
    } else {
        (lo, hi)
    }
}

/// A uniform value in `[lo, hi]`, the ends swapped when reversed.
pub fn gen_int(lo: i64, hi: i64, rng: &mut rand::rngs::SmallRng) -> (r: i64)
    ensures
        ordered(lo, hi).0 <= r <= ordered(lo, hi).1,
        lo == hi ==> r == lo,
{
    let (lo, hi) = if lo <= hi { (lo, hi) } else { (hi, lo) };
    if lo == hi {
        lo
    } else {
        random_in(rng, lo, hi)
    }
}

pub open spec fn clamp_size(k: i64, lo: i64, hi: i64) -> i64 {
    let a = if k >= lo { k } else { lo };
    if a <= hi { a } else { hi }
}

/// A size value under a strategy: the maximum, the minimum, `k` clamped to
/// the bounds, or a uniform value.
pub fn strategy_size_value(st: &CaseStrategy, lo: i64, hi: i64, rng: &mut rand::rngs::SmallRng) -> (r: i64)
    ensures
        *st == CaseStrategy::Deterministic(DeterministicStrategy::AllMax) ==> r == hi,
        *st == CaseStrategy::Deterministic(DeterministicStrategy::AllMin) ==> r == lo,
        *st == CaseStrategy::Random(RandomStrategy::MaxSize) ==> r == hi,
        (*st matches CaseStrategy::Random(RandomStrategy::SmallSize(k)) ==> r == clamp_size(k, lo, hi)),
        !(*st == CaseStrategy::Deterministic(DeterministicStrategy::AllMax) || *st == CaseStrategy::Deterministic(
            DeterministicStrategy::AllMin,
        ) || *st == CaseStrategy::Random(RandomStrategy::MaxSize) || st is Random && st->Random_0 is SmallSize)
            ==> ordered(lo, hi).0 <= r <= ordered(lo, hi).1,
{
    match st {
        CaseStrategy::Deterministic(DeterministicStrategy::AllMax) => hi,
        CaseStrategy::Deterministic(DeterministicStrategy::AllMin) => lo,
        CaseStrategy::Random(RandomStrategy::SmallSize(k)) => {
            let a = if *k >= lo { *k } else { lo };
            if a <= hi { a } else { hi }
        },
        CaseStrategy::Random(RandomStrategy::MaxSize) => hi,
        _ => gen_int(lo, hi, rng),
    }
}

/// With a sum limit present, the maximal-size strategy puts the whole
/// budget into one case: the size is 1, clamped to the bounds.
pub fn decide_one(st: &CaseStrategy, lo: i64, hi: i64, sum_present: bool, rng: &mut rand::rngs::SmallRng) -> (r: i64)
    ensures
        sum_present && *st == CaseStrategy::Random(RandomStrategy::MaxSize) ==> r == clamp_size(1, lo, hi),
        !(sum_present && *st == CaseStrategy::Random(RandomStrategy::MaxSize)) ==> (
        *st == CaseStrategy::Deterministic(DeterministicStrategy::AllMax) ==> r == hi) && (*st
            == CaseStrategy::Deterministic(DeterministicStrategy::AllMin) ==> r == lo) && (*st == CaseStrategy::Random(
            RandomStrategy::MaxSize,
        ) ==> r == hi) && (*st matches CaseStrategy::Random(RandomStrategy::SmallSize(k)) ==> r == clamp_size(
            k,
            lo,
            hi,
        )),
{
    if sum_present && *st == CaseStrategy::Random(RandomStrategy::MaxSize) {
        let a: i64 = if 1 >= lo { 1 } else { lo };
        return if a <= hi { a } else { hi };
    }
    strategy_size_value(st, lo, hi, rng)
}

pub open spec fn any_sum_limit(m: ResolvedM) -> bool {
    exists|i: int| 0 <= i < m.vars.len() && (#[trigger] m.vars[i]).1.sum_limit is Some
}

fn any_sum_limit_exec(spec: &ResolvedSpec) -> (r: bool)
    ensures
        r == any_sum_limit(spec.model()),
{
    let ghost m = spec.model();
    let mut i: usize = 0;
    while i < spec.vars.len()
        invariant
            m == spec.model(),
            i <= m.vars.len(),
            forall|j: int| 0 <= j < i ==> (#[trigger] m.vars[j]).1.sum_limit is None,
        decreases m.vars.len() - i,
    {
        if spec.vars.value_at(i).sum_limit.is_some() {
            assert(m.vars[i as int].1.sum_limit is Some);
            return true;
        }
        i += 1;
    }
    false
}

/// Decide the test-case count and each jagged row count under a strategy,
/// each within its size bounds as `decide_one` picks.
pub fn decide_structural_sizes(spec: &ResolvedSpec, st: &CaseStrategy, rng: &mut rand::rngs::SmallRng) -> (r:
    StructuralSizes)
    ensures
        match spec.model().first_count {
            Some(tv) => r.model().test_cases matches Some(p) && p.0 == tv,
            None => r.model().test_cases is None,
        },
        forall|k: Seq<char>| crate::maps::m_has(r.model().jagged, k) ==> exists|i: int|
            0 <= i < spec.model().jagged.len() && #[trigger] spec.model().jagged[i].1 == k,
{
    let any_sum = any_sum_limit_exec(spec);
    let test_cases = match &spec.test_cases_count_var {
        Some(tv) => {
            let (lo, hi) = size_bounds(spec, tv.as_str());
            Some((tv.clone(), decide_one(st, lo, hi, any_sum, rng)))
        },
        None => None,
    };
    let ghost jm = spec.model().jagged;
    let mut jagged_counts: StrMap<i64> = StrMap::new();
    let mut i: usize = 0;
    while i < spec.jagged_len_to_count.len()
        invariant
            jm == spec.model().jagged,
            i <= jm.len(),
            forall|k: Seq<char>| crate::maps::m_has(jagged_counts.model(), k) ==> exists|j: int|
                0 <= j < i && #[trigger] jm[j].1 == k,
        decreases jm.len() - i,
    {
        let len_var = spec.jagged_len_to_count.key_at(i);
        let count_var = spec.jagged_len_to_count.value_at(i);
        let (lo, hi) = size_bounds(spec, count_var.as_str());
        let len_sum_limited = match spec.vars.get(len_var.as_str()) {
            Some(v) => v.sum_limit.is_some(),
            None => false,
        };
        let n = decide_one(st, lo, hi, len_sum_limited, rng);
        let ghost before = jagged_counts.model();
        jagged_counts.insert(count_var.clone(), n);
        proof {
            assert forall|k: Seq<char>| crate::maps::m_has(jagged_counts.model(), k) implies exists|j: int|
                0 <= j < i + 1 && #[trigger] jm[j].1 == k by {
                crate::maps::lemma_m_insert_get(before, count_var@, n, k);
                if k == count_var@ {
                    assert(jm[i as int].1 == k);
                } else {
                    assert(crate::maps::m_has(before, k));
                }
            }
        }
        i += 1;
    }
    StructuralSizes { test_cases, jagged_counts }
}

} // verus!
