//! Single values and arrays under the `ordering` / `not_equal` pairs:
//! values that avoid what is forbidden or already used, and arrays checked
//! or built position by position against the known arrays.

use vstd::prelude::*;
use std::collections::HashSet;
use std::sync::atomic::AtomicBool;
use crate::interrupt::signalled;
use crate::maps::StrMap;
use crate::random_test::gen::gen_int;
use crate::random_test::relation::{
    effective_array_strategy, element_satisfies_not_equal, forbids_element, has_array_element_constraints,
    has_positional_array_bounds, narrow_by_elements, narrow_element_bounds, not_equal_forbidden_element,
    spec_effective_array_strategy, spec_has_element_constraints, spec_has_positional, spec_pair_other,
    overlaps,
};
use crate::random_test::rng::random_index;
use crate::random_test::shape::{array_outcome, contains_value, domain_of, gen_int_array, opt_values, opt_vec, sorted_domain};
use crate::random_test::spec::ResolvedSpec;
use crate::random_test::strategy::{is_array_shape_strategy, CaseStrategy, DeterministicStrategy, RandomStrategy};

verus! {

// ─── one value from a sorted domain ─────────────────────────────────────────

/// The value a strategy takes from a non-empty sorted domain without a
/// draw; `None` where it draws.
pub open spec fn fixed_choice(st: CaseStrategy, index: int, len: int, d: Seq<i64>) -> Option<i64> {
    match st {
        CaseStrategy::Deterministic(DeterministicStrategy::AllMax) => Some(d.last()),
        CaseStrategy::Deterministic(DeterministicStrategy::AllMin) => Some(d[0]),
        CaseStrategy::Random(RandomStrategy::ArrayAltMaxMin) => Some(
            if index % 2 == 0 {
                d.last()
            } else {
                d[0]
            },
        ),
        CaseStrategy::Random(RandomStrategy::ArrayOneMaxRestMin) => Some(
            if index + 1 == len {
                d.last()
            } else {
                d[0]
            },
        ),
        CaseStrategy::Random(RandomStrategy::ZeroCorner) => if d.contains(0) {
            Some(0)
        } else {
            None
        },
        _ => None,
    }
}

/// One value of `domain` for position `index` of `len`: the maximum, the
/// minimum, alternating or once-maximal by position, 0 for the zero corner,
/// else a uniform pick; `None` for an empty domain.
pub fn choose_from_domain(
    st: &CaseStrategy,
    index: usize,
    len: usize,
    domain: &Vec<i64>,
    rng: &mut rand::rngs::SmallRng,
) -> (r: Option<i64>)
    ensures
        r is None <==> domain@.len() == 0,
        r matches Some(x) ==> domain@.contains(x),
        domain@.len() > 0 && fixed_choice(*st, index as int, len as int, domain@) is Some ==> r == fixed_choice(
            *st,
            index as int,
            len as int,
            domain@,
        ),
{
    let n = domain.len();
    if n == 0 {
        return None;
    }
    proof {
        assert(domain@.contains(domain@[0]));
        assert(domain@.contains(domain@[n - 1]));
    }
    let last = domain[n - 1];
    let first = domain[0];
    match st {
        CaseStrategy::Deterministic(DeterministicStrategy::AllMax) => Some(last),
        CaseStrategy::Deterministic(DeterministicStrategy::AllMin) => Some(first),
        CaseStrategy::Random(RandomStrategy::ArrayAltMaxMin) => Some(if index % 2 == 0 { last } else { first }),
        CaseStrategy::Random(RandomStrategy::ArrayOneMaxRestMin) => Some(
            if len > 0 && index == len - 1 {
                last
            } else {
                first
            },
        ),
        CaseStrategy::Random(RandomStrategy::ZeroCorner) if contains_value(domain, 0) => Some(0),
        _ => {
            let k = random_index(rng, n);
            proof {
                assert(domain@.contains(domain@[k as int]));
            }
            Some(domain[k])
        },
    }
}

// ─── one value avoiding a set ───────────────────────────────────────────────

/// `x` is neither used nor forbidden.
pub open spec fn free(x: i64, used: Set<i64>, forbidden: Set<i64>) -> bool {
    !used.contains(x) && !forbidden.contains(x)
}

/// Every value of `[lo, hi]` is used or forbidden.
pub open spec fn all_blocked(lo: i64, hi: i64, used: Set<i64>, forbidden: Set<i64>) -> bool {
    forall|x: i64| lo <= x <= hi ==> !#[trigger] free(x, used, forbidden)
}

/// Whether every value of `[lo, hi]` is blocked; it looks only when the
/// blocked values could cover the range.
fn range_blocked(lo: i64, hi: i64, used: &HashSet<i64>, forbidden: &HashSet<i64>) -> (r: bool)
    ensures
        r ==> all_blocked(lo, hi, used@, forbidden@),
        !r ==> lo <= hi,
{
    broadcast use vstd::std_specs::hash::group_hash_axioms;
    if lo > hi {
        return true;
    }
    let span: i128 = (hi as i128) - (lo as i128) + 1;
    let max_blocked: i128 = used.len() as i128 + forbidden.len() as i128;
    if span > max_blocked {
        return false;
    }
    let mut x = lo;
    loop
        invariant
            lo <= x <= hi,
            forall|y: i64| lo <= y < x ==> !#[trigger] free(y, used@, forbidden@),
        decreases hi - x,
    {
        if !used.contains(&x) && !forbidden.contains(&x) {
            return false;
        }
        assert(!free(x, used@, forbidden@));
        if x == hi {
            return true;
        }
        x = x + 1;
    }
}

/// A value of `[lo, hi]` neither used nor forbidden. The minimum strategy
/// takes the smallest such value, the maximum strategy the largest; others
/// draw up to 1000 times, then take the smallest, giving up when `stop` is
/// seen set during that sweep. `None` when every value is blocked.
#[verifier::loop_isolation(false)]
pub fn bounded_distinct_int(
    st: &CaseStrategy,
    lo: i64,
    hi: i64,
    used: &HashSet<i64>,
    forbidden: &HashSet<i64>,
    rng: &mut rand::rngs::SmallRng,
    stop: &AtomicBool,
) -> (r: Option<i64>)
    ensures
        r matches Some(x) ==> lo <= x <= hi && free(x, used@, forbidden@),
        all_blocked(lo, hi, used@, forbidden@) ==> r is None,
        *st == CaseStrategy::Deterministic(DeterministicStrategy::AllMin) ==> match r {
            Some(x) => forall|y: i64| lo <= y < x ==> !#[trigger] free(y, used@, forbidden@),
            None => all_blocked(lo, hi, used@, forbidden@),
        },
        *st == CaseStrategy::Deterministic(DeterministicStrategy::AllMax) ==> match r {
            Some(x) => forall|y: i64| x < y <= hi ==> !#[trigger] free(y, used@, forbidden@),
            None => all_blocked(lo, hi, used@, forbidden@),
        },
{
    broadcast use vstd::std_specs::hash::group_hash_axioms;
    if range_blocked(lo, hi, used, forbidden) {
        return None;
    }
    let prefer_min = *st == CaseStrategy::Deterministic(DeterministicStrategy::AllMin);
    let prefer_max = *st == CaseStrategy::Deterministic(DeterministicStrategy::AllMax);
    if prefer_min {
        let mut x = lo;
        loop
            invariant
                lo <= x <= hi,
                forall|y: i64| lo <= y < x ==> !#[trigger] free(y, used@, forbidden@),
            decreases hi - x,
        {
            if !used.contains(&x) && !forbidden.contains(&x) {
                assert(free(x, used@, forbidden@));
                return Some(x);
            }
            assert(!free(x, used@, forbidden@));
            if x == hi {
                return None;
            }
            x = x + 1;
        }
    } else if prefer_max {
        let mut x = hi;
        loop
            invariant
                lo <= x <= hi,
                forall|y: i64| x < y <= hi ==> !#[trigger] free(y, used@, forbidden@),
            decreases x - lo,
        {
            if !used.contains(&x) && !forbidden.contains(&x) {
                assert(free(x, used@, forbidden@));
                return Some(x);
            }
            assert(!free(x, used@, forbidden@));
            if x == lo {
                return None;
            }
            x = x - 1;
        }
    } else {
        let mut tries: u32 = 0;
        while tries < 1000
            invariant
                lo <= hi,
            decreases 1000 - tries,
        {
            let x = gen_int(lo, hi, rng);
            if !used.contains(&x) && !forbidden.contains(&x) {
                assert(free(x, used@, forbidden@));
                return Some(x);
            }
            tries += 1;
        }
        let mut x = lo;
        let mut steps: u64 = 0;
        loop
            invariant
                lo <= x <= hi,
            decreases hi - x,
        {
            if steps % 1024 == 0 && signalled(stop) {
                return None;
            }
            steps = steps.wrapping_add(1);
            if !used.contains(&x) && !forbidden.contains(&x) {
                assert(free(x, used@, forbidden@));
                return Some(x);
            }
            if x == hi {
                return None;
            }
            x = x + 1;
        }
    }
}

// ─── one value at a position ────────────────────────────────────────────────

/// `x` may stand at a position: in `[lo, hi]`, not forbidden, and unused
/// when the array is distinct.
pub open spec fn allowed(x: i64, lo: i64, hi: i64, distinct: bool, used: Set<i64>, forbidden: Set<i64>) -> bool {
    lo <= x <= hi && !forbidden.contains(x) && (distinct ==> !used.contains(x))
}

/// The values of `vs` that are allowed, in order.
fn allowed_values(
    vs: &Vec<i64>,
    lo: i64,
    hi: i64,
    distinct: bool,
    used: &HashSet<i64>,
    forbidden: &HashSet<i64>,
) -> (r: Vec<i64>)
    ensures
        forall|x: i64| r@.contains(x) <==> (vs@.contains(x) && allowed(x, lo, hi, distinct, used@, forbidden@)),
{
    broadcast use vstd::std_specs::hash::group_hash_axioms;
    let mut out: Vec<i64> = Vec::new();
    let mut i: usize = 0;
    while i < vs.len()
        invariant
            i <= vs@.len(),
            forall|x: i64| out@.contains(x) <==> (vs@.take(i as int).contains(x) && allowed(x, lo, hi, distinct, used@, forbidden@)),
        decreases vs.len() - i,
    {
        let x = vs[i];
        let ghost before = out@;
        if lo <= x && x <= hi && !forbidden.contains(&x) && (!distinct || !used.contains(&x)) {
            out.push(x);
        }
        proof {
            assert(vs@.take(i + 1) =~= vs@.take(i as int).push(x));
            assert forall|y: i64| out@.contains(y) <==> (vs@.take(i + 1).contains(y) && allowed(y, lo, hi, distinct, used@, forbidden@)) by {
                if out@.contains(y) && !before.contains(y) {
                    let w = choose|w: int| 0 <= w < out@.len() && #[trigger] out@[w] == y;
                    assert(w == before.len());
                    assert(vs@.take(i + 1)[i as int] == y);
                }
                if before.contains(y) {
                    let w = choose|w: int| 0 <= w < before.len() && #[trigger] before[w] == y;
                    assert(out@[w] == y);
                    assert(vs@.take(i as int).contains(y));
                    let u = choose|u: int| 0 <= u < i && #[trigger] vs@.take(i as int)[u] == y;
                    assert(vs@.take(i + 1)[u] == y);
                }
                if vs@.take(i + 1).contains(y) && allowed(y, lo, hi, distinct, used@, forbidden@) {
                    let w = choose|w: int| 0 <= w < i + 1 && #[trigger] vs@.take(i + 1)[w] == y;
                    if w < i {
                        assert(vs@.take(i as int)[w] == y);
                    } else {
                        assert(out@.last() == y);
                        assert(out@[out@.len() - 1] == y);
                    }
                }
            }
        }
        i += 1;
    }
    assert(vs@.take(vs@.len() as int) =~= vs@);
    out
}

/// The candidate a non-distinct position takes without a draw; `None`
/// where it draws.
pub open spec fn fixed_candidate(st: CaseStrategy, index: int, len: int, lo: i64, hi: i64) -> Option<i64> {
    match st {
        CaseStrategy::Random(RandomStrategy::ArrayAltMaxMin) => Some(
            if index % 2 == 0 {
                hi
            } else {
                lo
            },
        ),
        CaseStrategy::Random(RandomStrategy::ArrayOneMaxRestMin) => Some(
            if index + 1 == len {
                hi
            } else {
                lo
            },
        ),
        CaseStrategy::Random(RandomStrategy::ZeroCorner) => if lo <= 0 <= hi {
            Some(0)
        } else {
            None
        },
        _ => None,
    }
}

/// One value for position `index` of an array of `len`, within `[lo, hi]`,
/// avoiding `forbidden`, and `used` too when distinct. With an enumerated
/// domain it is chosen from the allowed domain values; without one, the
/// extreme strategies take the extreme allowed value, the alternating,
/// once-maximal and zero-corner strategies their value by position when
/// allowed, and otherwise a drawn value that is allowed.
#[verifier::loop_isolation(false)]
pub fn gen_positionally_bounded_int(
    st: &CaseStrategy,
    index: usize,
    len: usize,
    lo: i64,
    hi: i64,
    values: Option<&Vec<i64>>,
    distinct: bool,
    used: &HashSet<i64>,
    forbidden: &HashSet<i64>,
    rng: &mut rand::rngs::SmallRng,
    stop: &AtomicBool,
) -> (r: Option<i64>)
    requires
        lo <= hi,
    ensures
        r matches Some(x) ==> allowed(x, lo, hi, distinct, used@, forbidden@),
        (values matches Some(vs) && vs@.len() > 0) ==> ({
            let vs = values->0@;
            &&& r is None <==> !exists|x: i64| vs.contains(x) && #[trigger] allowed(x, lo, hi, distinct, used@, forbidden@)
            &&& r matches Some(x) ==> vs.contains(x)
        }),
        !(values matches Some(vs) && vs@.len() > 0) && !distinct ==> ({
            let all_forbidden = forall|x: i64| lo <= x <= hi ==> #[trigger] forbidden@.contains(x);
            &&& *st == CaseStrategy::Deterministic(DeterministicStrategy::AllMax) ==> match r {
                Some(x) => forall|y: i64| x < y <= hi ==> #[trigger] forbidden@.contains(y),
                None => all_forbidden,
            }
            &&& *st == CaseStrategy::Deterministic(DeterministicStrategy::AllMin) ==> match r {
                Some(x) => forall|y: i64| lo <= y < x ==> #[trigger] forbidden@.contains(y),
                None => all_forbidden,
            }
            &&& fixed_candidate(*st, index as int, len as int, lo, hi) matches Some(c) ==> (!forbidden@.contains(c)
                ==> r == Some(c))
            // with nothing in range forbidden, a value always comes
            &&& (forall|x: i64| lo <= x <= hi ==> !#[trigger] forbidden@.contains(x)) ==> r is Some
        }),
{
    broadcast use vstd::std_specs::hash::group_hash_axioms;
    match values {
        Some(vs) => {
            if vs.len() > 0 {
                let cands = allowed_values(vs, lo, hi, distinct, used, forbidden);
                let domain = domain_of(&cands);
                let r = choose_from_domain(st, index, len, &domain, rng);
                proof {
                    if domain@.len() == 0 {
                        assert forall|x: i64| vs@.contains(x) implies !allowed(x, lo, hi, distinct, used@, forbidden@) by {
                            if allowed(x, lo, hi, distinct, used@, forbidden@) {
                                assert(cands@.contains(x));
                                assert(domain@.contains(x));
                            }
                        }
                    } else {
                        assert(domain@.contains(domain@[0]));
                        assert(cands@.contains(domain@[0]));
                    }
                }
                return r;
            }
        },
        None => {},
    }
    let empty: HashSet<i64> = HashSet::new();
    if !distinct {
        if *st == CaseStrategy::Deterministic(DeterministicStrategy::AllMax) {
            let mut x = hi;
            loop
                invariant
                    lo <= x <= hi,
                    forall|y: i64| x < y <= hi ==> #[trigger] forbidden@.contains(y),
                decreases x - lo,
            {
                if !forbidden.contains(&x) {
                    return Some(x);
                }
                if x == lo {
                    return None;
                }
                x = x - 1;
            }
        }
        if *st == CaseStrategy::Deterministic(DeterministicStrategy::AllMin) {
            let mut x = lo;
            loop
                invariant
                    lo <= x <= hi,
                    forall|y: i64| lo <= y < x ==> #[trigger] forbidden@.contains(y),
                decreases hi - x,
            {
                if !forbidden.contains(&x) {
                    return Some(x);
                }
                if x == hi {
                    return None;
                }
                x = x + 1;
            }
        }
        let candidate = match st {
            CaseStrategy::Random(RandomStrategy::ArrayAltMaxMin) => if index % 2 == 0 {
                hi
            } else {
                lo
            },
            CaseStrategy::Random(RandomStrategy::ArrayOneMaxRestMin) => if len > 0 && index == len - 1 {
                hi
            } else {
                lo
            },
            CaseStrategy::Random(RandomStrategy::ZeroCorner) if lo <= 0 && 0 <= hi => 0,
            _ => gen_int(lo, hi, rng),
        };
        if !forbidden.contains(&candidate) {
            return Some(candidate);
        }
        let r = bounded_distinct_int(st, lo, hi, &empty, forbidden, rng, stop);
        return r;
    }
    bounded_distinct_int(st, lo, hi, used, forbidden, rng, stop)
}


// ─── arrays under the pairs ─────────────────────────────────────────────────

proof fn lemma_narrow_shrinks(
    name: Seq<char>,
    index: int,
    lohi: (i64, i64),
    ord: Seq<(Seq<char>, Seq<char>)>,
    arrays: Seq<(Seq<char>, Seq<i64>)>,
)
    ensures
        narrow_by_elements(name, index, lohi, ord, arrays).0 >= lohi.0,
        narrow_by_elements(name, index, lohi, ord, arrays).1 <= lohi.1,
    decreases ord.len(),
{
    if ord.len() > 0 {
        lemma_narrow_shrinks(name, index, lohi, ord.drop_last(), arrays);
    }
}

/// What an array for positions `[start, start + len)` of `name` satisfies
/// under the pairs: each position avoids what `not_equal` forbids there,
/// and lies within the bounds the ordered arrays leave it.
pub open spec fn positions_ok(
    name: Seq<char>,
    start: int,
    lo: i64,
    hi: i64,
    v: Seq<i64>,
    spec: crate::random_test::spec::ResolvedM,
    ctx: Seq<(Seq<char>, i64)>,
    arrays: Seq<(Seq<char>, Seq<i64>)>,
) -> bool {
    &&& spec_has_element_constraints(name, start, v.len() as int, spec, ctx, arrays) ==> forall|k: int|
        0 <= k < v.len() ==> !forbids_element(name, start + k, spec.not_equal, ctx, arrays, #[trigger] v[k])
    &&& spec_has_positional(name, start, v.len() as int, spec.ordering, arrays) ==> forall|k: int|
        0 <= k < v.len() ==> {
            let b = narrow_by_elements(name, start + k, (lo, hi), spec.ordering, arrays);
            b.0 <= #[trigger] v[k] <= b.1
        }
}

/// An array for positions `[start, start + len)` of `name`. Without a
/// pair that ties these positions to known values it is `gen_int_array`
/// under the effective strategy. Tied only by `not_equal` (a distinct or
/// shaped array), whole candidates are drawn and checked position by
/// position: 32 tries for plain random, one otherwise, after which plain
/// random falls back to building the array position by position, each
/// value within the bounds the ordered arrays leave it and avoiding what is
/// forbidden there (and earlier values when distinct). `None` when a
/// position has no value left, a check fails, or `stop` is seen set.
#[verifier::loop_isolation(false)]
pub fn gen_int_array_with_positional_bounds(
    st: &CaseStrategy,
    name: &str,
    lo: i64,
    hi: i64,
    len: usize,
    values: Option<&Vec<i64>>,
    distinct: bool,
    spec: &ResolvedSpec,
    ctx: &StrMap<i64>,
    array_ctx: &StrMap<Vec<i64>>,
    start: usize,
    rng: &mut rand::rngs::SmallRng,
    stop: &AtomicBool,
) -> (r: Option<Vec<i64>>)
    requires
        start + len <= usize::MAX,
        values matches Some(vs) ==> vs@.len() <= i64::MAX,
    ensures
        !spec_has_element_constraints(name@, start as int, len as int, spec.model(), ctx.model(), array_ctx.model())
            ==> array_outcome(
            spec_effective_array_strategy(*st, name@, distinct, spec.model()),
            lo,
            hi,
            len as int,
            opt_values(values),
            distinct,
            opt_vec(r),
        ),
        r matches Some(v) ==> {
            &&& v@.len() == len
            &&& distinct ==> v@.no_duplicates()
            &&& positions_ok(name@, start as int, lo, hi, v@, spec.model(), ctx.model(), array_ctx.model())
            &&& (values matches Some(vs) && vs@.len() > 0) ==> forall|k: int|
                0 <= k < len ==> values->0@.contains(#[trigger] v@[k])
            &&& !(values matches Some(vs) && vs@.len() > 0) ==> forall|k: int|
                0 <= k < len ==> (if lo <= hi { lo } else { hi }) <= #[trigger] v@[k] <= (if lo <= hi { hi } else { lo })
        },
{
    broadcast use vstd::std_specs::hash::group_hash_axioms;
    let ghost m = spec.model();
    let effective = effective_array_strategy(st, name, distinct, spec);
    if !has_array_element_constraints(name, start, len, spec, ctx, array_ctx) {
        let r = gen_int_array(&effective, lo, hi, len, values, distinct, rng);
        proof {
            if r is Some {
                let v = r->0@;
                if (values matches Some(vs) && vs@.len() > 0) {
                    if len > 0 {
                        let zero = effective == CaseStrategy::Random(RandomStrategy::ZeroCorner);
                        assert(forall|k: int| 0 <= k < len ==> values->0@.contains(#[trigger] v[k]));
                    }
                } else if len > 0 {
                    assert(crate::random_test::shape::in_range(
                        v,
                        (if lo <= hi { lo } else { hi }) as int,
                        (if lo <= hi { hi } else { lo }) as int,
                    ));
                }
            }
        }
        return r;
    }
    let has_active_ordering = has_positional_array_bounds(name, start, len, spec, array_ctx);
    let is_plain_random = effective == CaseStrategy::Random(RandomStrategy::Random);
    if !has_active_ordering && (distinct || is_array_shape_strategy(&effective)) {
        let attempts: u32 = if is_plain_random { 32 } else { 1 };
        let mut a: u32 = 0;
        while a < attempts
            decreases attempts - a,
        {
            if signalled(stop) {
                return None;
            }
            let candidate = match gen_int_array(&effective, lo, hi, len, values, distinct, rng) {
                Some(c) => c,
                None => return None,
            };
            let mut valid = true;
            let mut k: usize = 0;
            while k < candidate.len()
                invariant
                    candidate@.len() == len,
                    k <= len,
                    valid ==> forall|j: int| 0 <= j < k ==> !forbids_element(name@, start + j, m.not_equal, ctx.model(), array_ctx.model(), #[trigger] candidate@[j]),
                decreases candidate.len() - k,
            {
                let ok = (k % 1024 != 0 || !signalled(stop)) && element_satisfies_not_equal(
                    name,
                    start + k,
                    candidate[k],
                    spec,
                    ctx,
                    array_ctx,
                );
                if !ok {
                    valid = false;
                    break;
                }
                k += 1;
            }
            if valid {
                proof {
                    let v = candidate@;
                    if (values matches Some(vs) && vs@.len() > 0) {
                        assert(forall|j: int| 0 <= j < len ==> values->0@.contains(#[trigger] v[j]));
                    } else {
                        assert(crate::random_test::shape::in_range(
                            v,
                            (if lo <= hi { lo } else { hi }) as int,
                            (if lo <= hi { hi } else { lo }) as int,
                        ));
                    }
                }
                return Some(candidate);
            }
            a += 1;
        }
        if !is_plain_random {
            return None;
        }
    }
    let mut out: Vec<i64> = Vec::new();
    let mut used: HashSet<i64> = HashSet::new();
    let mut offset: usize = 0;
    while offset < len
        invariant
            offset <= len,
            out@.len() == offset,
            distinct ==> out@.no_duplicates(),
            distinct ==> forall|x: i64| used@.contains(x) <==> out@.contains(x),
            forall|j: int| 0 <= j < offset ==> !forbids_element(name@, start + j, m.not_equal, ctx.model(), array_ctx.model(), #[trigger] out@[j]),
            forall|j: int| 0 <= j < offset ==> {
                let b = narrow_by_elements(name@, start + j, (lo, hi), m.ordering, array_ctx.model());
                b.0 <= #[trigger] out@[j] <= b.1
            },
            (values matches Some(vs) && vs@.len() > 0) ==> forall|j: int| 0 <= j < offset ==> values->0@.contains(#[trigger] out@[j]),
            forall|j: int| 0 <= j < offset ==> lo <= #[trigger] out@[j] <= hi,
        decreases len - offset,
    {
        if offset % 1024 == 0 && signalled(stop) {
            return None;
        }
        let index = start + offset;
        let (elo, ehi) = match narrow_element_bounds(name, index, lo, hi, spec, array_ctx) {
            Some(b) => b,
            None => return None,
        };
        proof {
            lemma_narrow_shrinks(name@, index as int, (lo, hi), m.ordering, array_ctx.model());
        }
        let forbidden = not_equal_forbidden_element(name, index, spec, ctx, array_ctx);
        let x = match gen_positionally_bounded_int(
            &effective,
            offset,
            len,
            elo,
            ehi,
            values,
            distinct,
            &used,
            &forbidden,
            rng,
            stop,
        ) {
            Some(x) => x,
            None => return None,
        };
        let ghost before = out@;
        if distinct {
            used.insert(x);
        }
        out.push(x);
        proof {
            if distinct {
                assert(!before.contains(x));
                assert(out@.no_duplicates()) by {
                    assert forall|p: int, q: int| 0 <= p < out@.len() && 0 <= q < out@.len() && p != q implies out@[p]
                        != out@[q] by {
                        if p == offset as int {
                            assert(before.contains(out@[q]) || q == offset as int);
                            if q < offset as int {
                                assert(before[q] == out@[q]);
                            }
                        } else if q == offset as int {
                            if p < offset as int {
                                assert(before[p] == out@[p]);
                            }
                        } else {
                            assert(before[p] == out@[p] && before[q] == out@[q]);
                        }
                    }
                }
                assert forall|y: i64| used@.contains(y) <==> out@.contains(y) by {
                    if before.contains(y) {
                        let w = choose|w: int| 0 <= w < before.len() && #[trigger] before[w] == y;
                        assert(out@[w] == y);
                    }
                    if out@.contains(y) && y != x {
                        let w = choose|w: int| 0 <= w < out@.len() && #[trigger] out@[w] == y;
                        assert(w < offset);
                        assert(before[w] == y);
                    }
                    if y == x {
                        assert(out@[offset as int] == x);
                    }
                }
            }
        }
        offset += 1;
    }
    proof {
        let v = out@;
        assert(forall|k: int| 0 <= k < len ==> (if lo <= hi { lo } else { hi }) <= #[trigger] v[k] <= (if lo <= hi { hi } else { lo }));
    }
    Some(out)
}

} // verus!
