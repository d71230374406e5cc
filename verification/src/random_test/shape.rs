//! Arrays and strings of random values, shaped by a case strategy.

use vstd::prelude::*;
use crate::random_test::gen::gen_int;
use crate::random_test::rng::{random_in, random_index, random_ratio, sample_indices};
use crate::random_test::strategy::{CaseStrategy, DeterministicStrategy, RandomStrategy};

verus! {

// ─── shapes ─────────────────────────────────────────────────────────────────

pub open spec fn in_range(v: Seq<i64>, lo: int, hi: int) -> bool {
    forall|i: int| 0 <= i < v.len() ==> lo <= #[trigger] v[i] <= hi
}

pub open spec fn ascending(v: Seq<i64>) -> bool {
    forall|i: int, j: int| 0 <= i <= j < v.len() ==> v[i] <= v[j]
}

pub open spec fn descending(v: Seq<i64>) -> bool {
    forall|i: int, j: int| 0 <= i <= j < v.len() ==> v[i] >= v[j]
}

pub open spec fn all_equal_to(v: Seq<i64>, x: i64) -> bool {
    forall|i: int| 0 <= i < v.len() ==> #[trigger] v[i] == x
}

/// Half of `n`, rounded up.
pub open spec fn half_up(n: int) -> int {
    (n + 1) / 2
}

/// Rising over the first half (rounded up), falling over the rest.
pub open spec fn mountain(v: Seq<i64>) -> bool {
    let h = half_up(v.len() as int);
    ascending(v.take(h)) && descending(v.skip(h))
}

/// The upper end at every position whose parity, shifted by `phase`, is
/// even, the lower end elsewhere.
pub open spec fn alternating(v: Seq<i64>, lo: i64, hi: i64, phase: int) -> bool {
    forall|i: int| 0 <= i < v.len() ==> #[trigger] v[i] == if (i + phase) % 2 == 0 {
        hi
    } else {
        lo
    }
}

pub open spec fn periodic(v: Seq<i64>, p: int) -> bool {
    forall|i: int| 0 <= i < v.len() ==> #[trigger] v[i] == v[i % p]
}

/// Every value is `b` or `b + 1`.
pub open spec fn two_valued(v: Seq<i64>, b: int) -> bool {
    forall|i: int| 0 <= i < v.len() ==> #[trigger] v[i] == b || v[i] == b + 1
}

/// The upper end at position `p`, the lower end everywhere else.
pub open spec fn one_max_at(v: Seq<i64>, p: int, lo: i64, hi: i64) -> bool {
    v[p] == hi && forall|i: int| 0 <= i < v.len() && i != p ==> #[trigger] v[i] == lo
}

/// The largest period tried: 5, or the length when shorter (at least 2).
pub open spec fn period_cap(len: int) -> int {
    let m = if len >= 2 { len } else { 2 };
    if m <= 5 { m } else { 5 }
}

/// What a strategy promises of an array over `[lo, hi]`. A distinct array
/// keeps only the monotone and mountain shapes.
pub open spec fn shaped(st: CaseStrategy, lo: i64, hi: i64, distinct: bool, v: Seq<i64>) -> bool {
    &&& in_range(v, lo as int, hi as int)
    &&& if distinct {
        &&& v.no_duplicates()
        &&& match st {
            CaseStrategy::Random(RandomStrategy::ArrayMonoInc) => ascending(v),
            CaseStrategy::Random(RandomStrategy::ArrayMonoDec) => descending(v),
            CaseStrategy::Random(RandomStrategy::ArrayMountain) => mountain(v) && forall|i: int, j: int|
                0 <= i < half_up(v.len() as int) <= j < v.len() ==> v[i] < v[j],
            _ => true,
        }
    } else {
        match st {
            CaseStrategy::Deterministic(DeterministicStrategy::AllMax) => all_equal_to(v, hi),
            CaseStrategy::Deterministic(DeterministicStrategy::AllMin) => all_equal_to(v, lo),
            CaseStrategy::Random(RandomStrategy::ArrayMonoInc) => ascending(v),
            CaseStrategy::Random(RandomStrategy::ArrayMonoDec) => descending(v),
            CaseStrategy::Random(RandomStrategy::ArrayAllSame) => v.len() > 0 ==> all_equal_to(v, v[0]),
            CaseStrategy::Random(RandomStrategy::ArrayAltMaxMin) => exists|ph: int|
                0 <= ph < 2 && alternating(v, lo, hi, ph),
            CaseStrategy::Random(RandomStrategy::ArrayMountain) => mountain(v),
            CaseStrategy::Random(RandomStrategy::ArrayOneMaxRestMin) => v.len() > 0 ==> exists|p: int|
                0 <= p < v.len() && #[trigger] one_max_at(v, p, lo, hi),
            CaseStrategy::Random(RandomStrategy::ArrayNarrowRange) => if lo < hi {
                exists|b: int| lo <= b < hi && #[trigger] two_valued(v, b)
            } else {
                all_equal_to(v, lo)
            },
            CaseStrategy::Random(RandomStrategy::ArrayPeriodic) => exists|p: int|
                2 <= p <= period_cap(v.len() as int) && periodic(v, p),
            CaseStrategy::Random(RandomStrategy::ZeroCorner) => lo <= 0 <= hi ==> all_equal_to(v, 0),
            _ => true,
        }
    }
}

/// `d` lists the values of `vs` once each, ascending.
pub open spec fn sorted_domain(d: Seq<i64>, vs: Seq<i64>) -> bool {
    &&& forall|i: int, j: int| 0 <= i < j < d.len() ==> d[i] < d[j]
    &&& forall|x: i64| d.contains(x) <==> vs.contains(x)
}

// ─── sorting ────────────────────────────────────────────────────────────────

/// `slice::sort_unstable` on integers: the same values, ascending.
#[verifier::external_body]
fn sorted_values(v: Vec<i64>) -> (r: Vec<i64>)
    ensures
        r@.len() == v@.len(),
        r@.to_multiset() == v@.to_multiset(),
        ascending(r@),
{
    let mut v = v;
    v.sort_unstable();
    v
}

/// What a reordering keeps: membership and the absence of repeats.
proof fn lemma_perm_keeps(a: Seq<i64>, b: Seq<i64>)
    requires
        a.to_multiset() == b.to_multiset(),
    ensures
        forall|x: i64| a.contains(x) <==> b.contains(x),
        a.no_duplicates() ==> b.no_duplicates(),
{
    broadcast use vstd::seq_lib::group_to_multiset_ensures;
    assert forall|x: i64| a.contains(x) <==> b.contains(x) by {
        vstd::seq_lib::to_multiset_contains(a, x);
        vstd::seq_lib::to_multiset_contains(b, x);
    }
    if a.no_duplicates() {
        a.lemma_multiset_has_no_duplicates();
        b.lemma_multiset_has_no_duplicates_conv();
    }
}

proof fn lemma_range_of_members(a: Seq<i64>, b: Seq<i64>, lo: int, hi: int)
    requires
        in_range(a, lo, hi),
        forall|x: i64| b.contains(x) ==> a.contains(x),
    ensures
        in_range(b, lo, hi),
{
    assert forall|i: int| 0 <= i < b.len() implies lo <= #[trigger] b[i] <= hi by {
        assert(b.contains(b[i]));
        let j = choose|j: int| 0 <= j < a.len() && a[j] == b[i];
        assert(lo <= a[j] <= hi);
    }
}

/// `v` reversed.
fn reversed(v: &Vec<i64>) -> (r: Vec<i64>)
    ensures
        r@ == v@.reverse(),
{
    let mut r: Vec<i64> = Vec::new();
    let mut i: usize = v.len();
    while i > 0
        invariant
            i <= v@.len(),
            r@.len() == v@.len() - i,
            forall|k: int| 0 <= k < r@.len() ==> #[trigger] r@[k] == v@[v@.len() - 1 - k],
        decreases i,
    {
        i -= 1;
        r.push(v[i]);
    }
    assert(r@ =~= v@.reverse());
    r
}

/// Positions `[a, b)` of `v`.
fn slice_of(v: &Vec<i64>, a: usize, b: usize) -> (r: Vec<i64>)
    requires
        a <= b <= v@.len(),
    ensures
        r@ == v@.subrange(a as int, b as int),
{
    let mut r: Vec<i64> = Vec::new();
    let mut i: usize = a;
    while i < b
        invariant
            a <= i <= b,
            b <= v@.len(),
            r@ == v@.subrange(a as int, i as int),
        decreases b - i,
    {
        r.push(v[i]);
        assert(v@.subrange(a as int, i + 1) =~= v@.subrange(a as int, i as int).push(v@[i as int]));
        i += 1;
    }
    r
}

fn concat(a: Vec<i64>, b: &Vec<i64>) -> (r: Vec<i64>)
    ensures
        r@ == a@ + b@,
{
    let mut r = a;
    let ghost a0 = r@;
    let mut i: usize = 0;
    while i < b.len()
        invariant
            i <= b@.len(),
            r@ == a0 + b@.take(i as int),
        decreases b.len() - i,
    {
        r.push(b[i]);
        assert(a0 + b@.take(i + 1) =~= (a0 + b@.take(i as int)).push(b@[i as int]));
        i += 1;
    }
    assert(b@.take(b@.len() as int) =~= b@);
    r
}

proof fn lemma_reverse_keeps(v: Seq<i64>)
    ensures
        v.reverse().to_multiset() == v.to_multiset(),
        ascending(v) ==> descending(v.reverse()),
{
    v.lemma_reverse_to_multiset();
}

// ─── plain arrays ───────────────────────────────────────────────────────────

/// `len` uniform values in `[lo, hi]`.
pub fn uniform_vec(lo: i64, hi: i64, len: usize, rng: &mut rand::rngs::SmallRng) -> (r: Vec<i64>)
    requires
        lo <= hi,
    ensures
        r@.len() == len,
        in_range(r@, lo as int, hi as int),
{
    let mut v: Vec<i64> = Vec::new();
    let mut i: usize = 0;
    while i < len
        invariant
            i <= len,
            v@.len() == i,
            lo <= hi,
            in_range(v@, lo as int, hi as int),
        decreases len - i,
    {
        let x = gen_int(lo, hi, rng);
        v.push(x);
        i += 1;
    }
    v
}

pub fn filled(x: i64, len: usize) -> (r: Vec<i64>)
    ensures
        r@.len() == len,
        all_equal_to(r@, x),
{
    let mut v: Vec<i64> = Vec::new();
    let mut i: usize = 0;
    while i < len
        invariant
            i <= len,
            v@.len() == i,
            all_equal_to(v@, x),
        decreases len - i,
    {
        v.push(x);
        i += 1;
    }
    v
}

/// Distinct ascending values arranged as a mountain: the smaller half
/// (rounded up) rising, the rest falling.
fn distinct_mountain(s: &Vec<i64>, lo: i64, hi: i64) -> (out: Vec<i64>)
    requires
        ascending(s@),
        s@.no_duplicates(),
        in_range(s@, lo as int, hi as int),
    ensures
        out@.len() == s@.len(),
        shaped(CaseStrategy::Random(RandomStrategy::ArrayMountain), lo, hi, true, out@),
{
    let len = s.len();
    let h = len / 2 + len % 2;
    let left = slice_of(s, 0, h);
    let right = slice_of(s, h, len);
    let back = reversed(&right);
    let out = concat(left, &back);
    proof {
        assert(h == half_up(len as int));
        assert forall|a: int, b: int| 0 <= a <= b < s@.len() && a != b implies s@[a] < s@[b] by {
            assert(s@[a] <= s@[b]);
            assert(s@[a] != s@[b]);
        }
        assert(out@.take(h as int) =~= s@.take(h as int));
        assert(out@.skip(h as int) =~= s@.skip(h as int).reverse());
        assert forall|a: int, b: int| 0 <= a <= b < out@.skip(h as int).len() implies out@.skip(h as int)[a]
            >= out@.skip(h as int)[b] by {
            assert(out@.skip(h as int)[a] == s@[len - 1 - a]);
            assert(out@.skip(h as int)[b] == s@[len - 1 - b]);
        }
        assert forall|a: int, b: int| 0 <= a < half_up(out@.len() as int) <= b < out@.len() implies out@[a]
            < out@[b] by {
            assert(out@[a] == s@[a]);
            assert(out@[b] == s@[len - 1 - (b - h)]);
        }
        assert forall|k: int| 0 <= k < out@.len() implies (lo as int) <= #[trigger] out@[k] <= (hi as int) by {
            if k < h {
                assert(out@[k] == s@[k]);
            } else {
                assert(out@[k] == s@[len - 1 - (k - h)]);
            }
        }
        assert(out@.no_duplicates()) by {
            assert forall|a: int, b: int| 0 <= a < out@.len() && 0 <= b < out@.len() && a != b implies out@[a]
                != out@[b] by {
                let pa = if a < h { a } else { len - 1 - (a - h) };
                let pb = if b < h { b } else { len - 1 - (b - h) };
                assert(out@[a] == s@[pa]);
                assert(out@[b] == s@[pb]);
                assert(pa != pb);
            }
        }
    }
    out
}

/// A distinct array: `len` distinct values of `[lo, hi]` in random order,
/// sorted into the monotone or mountain shape where the strategy asks.
fn distinct_array(st: &CaseStrategy, lo: i64, hi: i64, len: usize, rng: &mut rand::rngs::SmallRng) -> (r:
    Option<Vec<i64>>)
    requires
        lo <= hi,
    ensures
        r is None <==> (hi - lo + 1 < len || hi - lo + 1 > usize::MAX),
        r matches Some(v) ==> v@.len() == len && shaped(*st, lo, hi, true, v@),
{
    let span_i128: i128 = (hi as i128) - (lo as i128) + 1;
    if span_i128 < len as i128 || span_i128 > usize::MAX as i128 {
        return None;
    }
    let span = span_i128 as usize;
    let idx = sample_indices(rng, span, len);
    let mut v: Vec<i64> = Vec::new();
    let mut i: usize = 0;
    while i < idx.len()
        invariant
            i <= idx@.len(),
            idx@.len() == len,
            idx@.no_duplicates(),
            forall|k: int| 0 <= k < idx@.len() ==> #[trigger] idx@[k] < span,
            span == hi - lo + 1,
            v@.len() == i,
            forall|k: int| 0 <= k < i ==> #[trigger] v@[k] == lo + idx@[k],
        decreases idx.len() - i,
    {
        let x: i64 = (lo as i128 + idx[i] as i128) as i64;
        v.push(x);
        i += 1;
    }
    assert(in_range(v@, lo as int, hi as int));
    assert(v@.no_duplicates()) by {
        assert forall|a: int, b: int| 0 <= a < v@.len() && 0 <= b < v@.len() && a != b implies v@[a] != v@[b] by {
            assert(idx@[a] != idx@[b]);
        }
    }
    match st {
        CaseStrategy::Random(RandomStrategy::ArrayMonoInc) => {
            let s = sorted_values(v);
            proof {
                lemma_perm_keeps(v@, s@);
                lemma_range_of_members(v@, s@, lo as int, hi as int);
            }
            Some(s)
        },
        CaseStrategy::Random(RandomStrategy::ArrayMonoDec) => {
            let s = sorted_values(v);
            let d = reversed(&s);
            proof {
                lemma_perm_keeps(v@, s@);
                lemma_reverse_keeps(s@);
                lemma_perm_keeps(s@, d@);
                lemma_range_of_members(v@, d@, lo as int, hi as int);
            }
            Some(d)
        },
        CaseStrategy::Random(RandomStrategy::ArrayMountain) => {
            let s = sorted_values(v);
            proof {
                lemma_perm_keeps(v@, s@);
                lemma_range_of_members(v@, s@, lo as int, hi as int);
            }
            Some(distinct_mountain(&s, lo, hi))
        },
        _ => Some(v),
    }
}

/// A non-distinct array of the strategy's shape over `[lo, hi]`.
fn shaped_plain(st: &CaseStrategy, lo: i64, hi: i64, len: usize, rng: &mut rand::rngs::SmallRng) -> (r: Vec<i64>)
    requires
        lo <= hi,
    ensures
        r@.len() == len,
        shaped(*st, lo, hi, false, r@),
{
    match st {
        CaseStrategy::Deterministic(DeterministicStrategy::AllMax) => filled(hi, len),
        CaseStrategy::Deterministic(DeterministicStrategy::AllMin) => filled(lo, len),
        CaseStrategy::Random(RandomStrategy::ArrayMonoInc) => {
            let v = uniform_vec(lo, hi, len, rng);
            let s = sorted_values(v);
            proof {
                lemma_perm_keeps(v@, s@);
                lemma_range_of_members(v@, s@, lo as int, hi as int);
            }
            s
        },
        CaseStrategy::Random(RandomStrategy::ArrayMonoDec) => {
            let v = uniform_vec(lo, hi, len, rng);
            let s = sorted_values(v);
            let d = reversed(&s);
            proof {
                lemma_perm_keeps(v@, s@);
                lemma_reverse_keeps(s@);
                lemma_perm_keeps(s@, d@);
                lemma_range_of_members(v@, d@, lo as int, hi as int);
            }
            d
        },
        CaseStrategy::Random(RandomStrategy::ArrayAllSame) => {
            let x = gen_int(lo, hi, rng);
            filled(x, len)
        },
        CaseStrategy::Random(RandomStrategy::ArrayAltMaxMin) => {
            let phase = random_index(rng, 2);
            let mut v: Vec<i64> = Vec::new();
            let mut i: usize = 0;
            while i < len
                invariant
                    i <= len,
                    phase < 2,
                    lo <= hi,
                    v@.len() == i,
                    alternating(v@, lo, hi, phase as int),
                decreases len - i,
            {
                v.push(if (i % 2 + phase) % 2 == 0 { hi } else { lo });
                assert((i as int % 2 + phase) % 2 == (i as int + phase) % 2) by (nonlinear_arith);
                i += 1;
            }
            assert(alternating(v@, lo, hi, phase as int));
            v
        },
        CaseStrategy::Random(RandomStrategy::ArrayMountain) => {
            let v = uniform_vec(lo, hi, len, rng);
            let h = len / 2 + len % 2;
            let first = slice_of(&v, 0, h);
            let rest = slice_of(&v, h, len);
            let up = sorted_values(first);
            let down_asc = sorted_values(rest);
            let down = reversed(&down_asc);
            let out = concat(up, &down);
            proof {
                lemma_perm_keeps(first@, up@);
                lemma_range_of_members(v@, first@, lo as int, hi as int);
                lemma_range_of_members(first@, up@, lo as int, hi as int);
                lemma_perm_keeps(rest@, down_asc@);
                lemma_range_of_members(v@, rest@, lo as int, hi as int);
                lemma_range_of_members(rest@, down_asc@, lo as int, hi as int);
                lemma_reverse_keeps(down_asc@);
                lemma_perm_keeps(down_asc@, down@);
                lemma_range_of_members(down_asc@, down@, lo as int, hi as int);
                assert(h == half_up(len as int));
                assert(out@.take(h as int) =~= up@);
                assert(out@.skip(h as int) =~= down@);
                assert forall|k: int| 0 <= k < out@.len() implies (lo as int) <= #[trigger] out@[k] <= (hi as int) by {
                    if k < h {
                        assert(out@[k] == up@[k]);
                    } else {
                        assert(out@[k] == down@[k - h]);
                    }
                }
            }
            out
        },
        CaseStrategy::Random(RandomStrategy::ArrayOneMaxRestMin) => {
            let mut v = filled(lo, len);
            if len > 0 {
                let p = random_index(rng, len);
                v.set(p, hi);
                assert(one_max_at(v@, p as int, lo, hi));
            }
            v
        },
        CaseStrategy::Random(RandomStrategy::ArrayNarrowRange) => {
            if hi > lo {
                let b = random_in(rng, lo, hi - 1);
                let mut v: Vec<i64> = Vec::new();
                let mut i: usize = 0;
                while i < len
                    invariant
                        i <= len,
                        lo <= b < hi,
                        v@.len() == i,
                        forall|k: int| 0 <= k < i ==> #[trigger] v@[k] == b || v@[k] == b + 1,
                    decreases len - i,
                {
                    let heads = random_ratio(rng, 1, 2);
                    v.push(if heads { b } else { b + 1 });
                    i += 1;
                }
                assert(two_valued(v@, b as int));
                v
            } else {
                filled(lo, len)
            }
        },
        CaseStrategy::Random(RandomStrategy::ArrayPeriodic) => {
            let m: usize = if len >= 2 { len } else { 2 };
            let cap: usize = if m <= 5 { m } else { 5 };
            let p: usize = 2 + random_index(rng, cap - 1);
            let base = uniform_vec(lo, hi, p, rng);
            let mut v: Vec<i64> = Vec::new();
            let mut i: usize = 0;
            while i < len
                invariant
                    i <= len,
                    2 <= p,
                    base@.len() == p,
                    in_range(base@, lo as int, hi as int),
                    v@.len() == i,
                    forall|k: int| 0 <= k < i ==> #[trigger] v@[k] == base@[k % (p as int)],
                decreases len - i,
            {
                v.push(base[i % p]);
                i += 1;
            }
            proof {
                assert forall|k: int| 0 <= k < v@.len() implies #[trigger] v@[k] == v@[k % (p as int)] by {
                    assert(k % (p as int) <= k) by (nonlinear_arith)
                        requires
                            0 <= k,
                            2 <= p,
                    ;
                    assert((k % (p as int)) % (p as int) == k % (p as int)) by (nonlinear_arith)
                        requires
                            0 <= k,
                            2 <= p,
                    ;
                }
                assert(periodic(v@, p as int));
                assert forall|k: int| 0 <= k < v@.len() implies (lo as int) <= #[trigger] v@[k] <= (hi as int) by {
                    assert(0 <= k % (p as int) < p) by (nonlinear_arith)
                        requires
                            0 <= k,
                            2 <= p,
                    ;
                }
            }
            v
        },
        CaseStrategy::Random(RandomStrategy::ZeroCorner) => {
            if lo <= 0 && 0 <= hi {
                filled(0, len)
            } else {
                uniform_vec(lo, hi, len, rng)
            }
        },
        _ => uniform_vec(lo, hi, len, rng),
    }
}

/// An array over `[lo, hi]` (the ends swapped when reversed), shaped by the
/// strategy, or distinct; `None` when distinct values cannot fill it.
pub fn gen_int_array_range(st: &CaseStrategy, lo: i64, hi: i64, len: usize, distinct: bool, rng: &mut rand::rngs::SmallRng) -> (r:
    Option<Vec<i64>>)
    ensures
        ({
            let l = if lo <= hi { lo } else { hi };
            let h = if lo <= hi { hi } else { lo };
            &&& r is None <==> (len > 0 && distinct && (h - l + 1 < len || h - l + 1 > usize::MAX))
            &&& r matches Some(v) ==> v@.len() == len && shaped(*st, l, h, distinct, v@)
        }),
{
    let (lo, hi) = if lo <= hi { (lo, hi) } else { (hi, lo) };
    if len == 0 {
        let v: Vec<i64> = Vec::new();
        proof {
            assert(alternating(v@, lo, hi, 0));
            assert(periodic(v@, 2));
            assert(v@.take(0) =~= v@ && v@.skip(0) =~= v@);
            if lo < hi {
                assert(two_valued(v@, lo as int));
            }
        }
        return Some(v);
    }
    if distinct {
        distinct_array(st, lo, hi, len, rng)
    } else {
        Some(shaped_plain(st, lo, hi, len, rng))
    }
}


// ─── arrays over an enumerated domain ──────────────────────────────────────

/// The values of `vs`, once each, ascending.
pub fn domain_of(vs: &Vec<i64>) -> (r: Vec<i64>)
    ensures
        sorted_domain(r@, vs@),
        r@.len() <= vs@.len(),
{
    let copy = slice_of(vs, 0, vs.len());
    assert(copy@ =~= vs@);
    let s = sorted_values(copy);
    proof {
        lemma_perm_keeps(vs@, s@);
    }
    let mut out: Vec<i64> = Vec::new();
    let mut i: usize = 0;
    while i < s.len()
        invariant
            i <= s@.len(),
            ascending(s@),
            out@.len() <= i,
            forall|a: int, b: int| 0 <= a < b < out@.len() ==> out@[a] < out@[b],
            i > 0 ==> out@.len() > 0 && out@.last() == s@[i - 1],
            forall|x: i64| out@.contains(x) <==> s@.take(i as int).contains(x),
        decreases s.len() - i,
    {
        let ghost before = out@;
        if out.len() == 0 || out[out.len() - 1] != s[i] {
            out.push(s[i]);
            proof {
                if i > 0 {
                    assert(s@[i - 1] <= s@[i as int]);
                }
            }
        }
        proof {
            assert(s@.take(i + 1) =~= s@.take(i as int).push(s@[i as int]));
            assert forall|x: i64| out@.contains(x) <==> s@.take(i + 1).contains(x) by {
                if out@.contains(x) && !before.contains(x) {
                    assert(out@ == before.push(s@[i as int]));
                    let w = choose|w: int| 0 <= w < out@.len() && #[trigger] out@[w] == x;
                    assert(w == before.len());
                    assert(s@.take(i + 1)[i as int] == x);
                }
                if before.contains(x) {
                    let w = choose|w: int| 0 <= w < before.len() && #[trigger] before[w] == x;
                    assert(out@[w] == x);
                }
                if s@.take(i + 1).contains(x) && !s@.take(i as int).contains(x) {
                    let w = choose|w: int| 0 <= w < i + 1 && #[trigger] s@.take(i + 1)[w] == x;
                    if w < i {
                        assert(s@.take(i as int)[w] == x);
                    }
                    assert(x == s@[i as int]);
                    assert(out@.last() == x);
                    assert(out@[out@.len() - 1] == x);
                }
                if s@.take(i as int).contains(x) {
                    let w = choose|w: int| 0 <= w < i && #[trigger] s@.take(i as int)[w] == x;
                    assert(s@.take(i + 1)[w] == x);
                }
            }
        }
        i += 1;
    }
    assert(s@.take(s@.len() as int) =~= s@);
    r_len_bound(&out, &s);
    out
}

/// A strictly increasing sequence drawn from `s` is no longer than `s`.
fn r_len_bound(out: &Vec<i64>, s: &Vec<i64>)
    requires
        forall|a: int, b: int| 0 <= a < b < out@.len() ==> out@[a] < out@[b],
        forall|x: i64| out@.contains(x) <==> s@.contains(x),
    ensures
        out@.len() <= s@.len(),
{
    proof {
        assert(out@.no_duplicates());
        out@.unique_seq_to_set();
        assert(out@.to_set() =~= s@.to_set()) by {
            assert forall|x: i64| out@.to_set().contains(x) <==> s@.to_set().contains(x) by {
            }
        }
        s@.lemma_cardinality_of_set();
    }
}

/// The number of different values of `vs`.
pub open spec fn value_count(vs: Seq<i64>) -> nat {
    vs.to_set().len()
}

proof fn lemma_domain_count(d: Seq<i64>, vs: Seq<i64>)
    requires
        sorted_domain(d, vs),
    ensures
        d.len() == value_count(vs),
        d.no_duplicates(),
{
    assert(d.no_duplicates()) by {
        assert forall|a: int, b: int| 0 <= a < d.len() && 0 <= b < d.len() && a != b implies d[a] != d[b] by {
            if a < b {
                assert(d[a] < d[b]);
            } else {
                assert(d[b] < d[a]);
            }
        }
    }
    d.unique_seq_to_set();
    assert(d.to_set() =~= vs.to_set()) by {
        assert forall|x: i64| d.to_set().contains(x) <==> vs.to_set().contains(x) by {
        }
    }
}

/// `v` is the domain `d` of `vs` read at the positions of an index array
/// of the strategy's shape.
pub open spec fn via_domain(v: Seq<i64>, vs: Seq<i64>, st: CaseStrategy, distinct: bool) -> bool {
    exists|d: Seq<i64>, idx: Seq<i64>|
        #[trigger] sorted_domain(d, vs) && #[trigger] shaped(st, 0, (d.len() - 1) as i64, distinct, idx)
            && idx.len() == v.len() && forall|i: int| 0 <= i < v.len() ==> v[i] == d[idx[i] as int]
}

pub fn contains_value(d: &Vec<i64>, x: i64) -> (r: bool)
    ensures
        r == d@.contains(x),
{
    let mut i: usize = 0;
    while i < d.len()
        invariant
            i <= d@.len(),
            forall|k: int| 0 <= k < i ==> #[trigger] d@[k] != x,
        decreases d.len() - i,
    {
        if d[i] == x {
            assert(d@[i as int] == x);
            return true;
        }
        i += 1;
    }
    false
}

/// What `gen_int_array` promises of its outcome `r` for these arguments.
pub open spec fn array_outcome(
    st: CaseStrategy,
    lo: i64,
    hi: i64,
    len: int,
    values: Option<Seq<i64>>,
    distinct: bool,
    r: Option<Seq<i64>>,
) -> bool {
    if len == 0 {
        r matches Some(v) && v.len() == 0
    } else if values matches Some(vs) && vs.len() > 0 {
        let vs = values->0;
        let zero = st == CaseStrategy::Random(RandomStrategy::ZeroCorner);
        let eff = if zero {
            CaseStrategy::Random(RandomStrategy::Random)
        } else {
            st
        };
        &&& r is None <==> distinct && value_count(vs) < len
        &&& r matches Some(v) ==> {
            &&& v.len() == len
            &&& forall|i: int| 0 <= i < len ==> vs.contains(#[trigger] v[i])
            &&& distinct ==> v.no_duplicates()
            &&& zero && !distinct && vs.contains(0) ==> all_equal_to(v, 0)
            &&& !(zero && !distinct && vs.contains(0)) ==> via_domain(v, vs, eff, distinct)
        }
    } else {
        let l = if lo <= hi { lo } else { hi };
        let h = if lo <= hi { hi } else { lo };
        &&& r is None <==> (distinct && (h - l + 1 < len || h - l + 1 > usize::MAX))
        &&& r matches Some(v) ==> v.len() == len && shaped(st, l, h, distinct, v)
    }
}

pub open spec fn opt_values(values: Option<&Vec<i64>>) -> Option<Seq<i64>> {
    match values {
        Some(vs) => Some(vs@),
        None => None,
    }
}

pub open spec fn opt_vec(r: Option<Vec<i64>>) -> Option<Seq<i64>> {
    match r {
        Some(v) => Some(v@),
        None => None,
    }
}

/// An integer array of length `len` shaped by `st`. With a non-empty
/// enumerated domain `values`, the strategy runs over the indices of the
/// sorted distinct domain and the values are read back (the zero corner
/// takes 0 directly when the domain has it); otherwise it runs over
/// `[lo, hi]`. A distinct array keeps only the monotone and mountain shapes;
/// `None` when there are fewer distinct values than `len`.
pub fn gen_int_array(
    st: &CaseStrategy,
    lo: i64,
    hi: i64,
    len: usize,
    values: Option<&Vec<i64>>,
    distinct: bool,
    rng: &mut rand::rngs::SmallRng,
) -> (r: Option<Vec<i64>>)
    requires
        values matches Some(vs) ==> vs@.len() <= i64::MAX,
    ensures
        array_outcome(*st, lo, hi, len as int, opt_values(values), distinct, opt_vec(r)),
{
    if len == 0 {
        return Some(Vec::new());
    }
    match values {
        Some(vs) => {
            if vs.len() > 0 {
                let domain = domain_of(vs);
                proof {
                    lemma_domain_count(domain@, vs@);
                    assert(vs@.contains(vs@[0]));
                }
                let zero = *st == CaseStrategy::Random(RandomStrategy::ZeroCorner);
                if zero && !distinct && contains_value(&domain, 0) {
                    let v = filled(0, len);
                    return Some(v);
                }
                let eff = if zero {
                    CaseStrategy::Random(RandomStrategy::Random)
                } else {
                    *st
                };
                let k = domain.len();
                let top: i64 = (k - 1) as i64;
                let idxs = match gen_int_array_range(&eff, 0, top, len, distinct, rng) {
                    Some(ix) => ix,
                    None => return None,
                };
                let mut out: Vec<i64> = Vec::new();
                let mut i: usize = 0;
                while i < idxs.len()
                    invariant
                        i <= idxs@.len(),
                        idxs@.len() == len,
                        k == domain@.len(),
                        in_range(idxs@, 0, k - 1),
                        out@.len() == i,
                        forall|j: int| 0 <= j < i ==> #[trigger] out@[j] == domain@[idxs@[j] as int],
                    decreases idxs.len() - i,
                {
                    out.push(domain[idxs[i] as usize]);
                    i += 1;
                }
                proof {
                    assert forall|j: int| 0 <= j < len implies vs@.contains(#[trigger] out@[j]) by {
                        assert(domain@.contains(domain@[idxs@[j] as int]));
                    }
                    if distinct {
                        assert forall|a: int, b: int| 0 <= a < out@.len() && 0 <= b < out@.len() && a != b implies out@[a]
                            != out@[b] by {
                            assert(idxs@[a] != idxs@[b]);
                            assert(domain@.no_duplicates());
                        }
                    }
                    assert(sorted_domain(domain@, vs@) && shaped(eff, 0, (domain@.len() - 1) as i64, distinct, idxs@));
                }
                Some(out)
            } else {
                gen_int_array_range(st, lo, hi, len, distinct, rng)
            }
        },
        None => gen_int_array_range(st, lo, hi, len, distinct, rng),
    }
}


// ─── strings ────────────────────────────────────────────────────────────────

/// The last character of `cs` where the shifted parity of position `i` is
/// even, the first elsewhere.
pub open spec fn checker_char(cs: Seq<char>, i: int, phase: int, roff: int) -> char {
    if (i + phase + roff) % 2 == 0 {
        cs[cs.len() - 1]
    } else {
        cs[0]
    }
}

pub open spec fn row_offset(row_info: Option<(usize, usize, usize)>) -> int {
    match row_info {
        Some(t) => t.0 as int,
        None => 0,
    }
}

pub open spec fn checkered(s: Seq<char>, cs: Seq<char>, phase: int, roff: int) -> bool {
    forall|i: int| 0 <= i < s.len() ==> #[trigger] s[i] == checker_char(cs, i, phase, roff)
}

/// `s` is `cs` read at the positions of an index array of the strategy's
/// shape over the charset's indices.
pub open spec fn via_charset(s: Seq<char>, cs: Seq<char>, st: CaseStrategy) -> bool {
    exists|idx: Seq<i64>|
        #[trigger] shaped(st, 0, (cs.len() - 1) as i64, false, idx) && idx.len() == s.len() && forall|i: int|
            0 <= i < s.len() ==> s[i] == cs[idx[i] as int]
}

/// A string of length `len` over `charset`, the strategy applied to the
/// charset's indices. With `row_info = Some((row, total, phase))` the
/// alternating strategy makes a checkerboard across rows: the phase is
/// shared and the row shifts the parity.
pub fn gen_string(
    st: &CaseStrategy,
    charset: &Vec<char>,
    len: usize,
    row_info: Option<(usize, usize, usize)>,
    rng: &mut rand::rngs::SmallRng,
) -> (r: String)
    requires
        charset@.len() > 0,
        charset@.len() <= i64::MAX,
    ensures
        r@.len() == len,
        forall|i: int| 0 <= i < len ==> charset@.contains(#[trigger] r@[i]),
        charset@.len() == 1 ==> forall|i: int| 0 <= i < len ==> #[trigger] r@[i] == charset@[0],
        charset@.len() > 1 && *st == CaseStrategy::Random(RandomStrategy::ArrayAltMaxMin) ==> exists|ph: int|
            0 <= ph < 2 && (row_info matches Some(t) ==> ph == t.2 % 2) && #[trigger] checkered(
                r@,
                charset@,
                ph,
                row_offset(row_info),
            ),
        charset@.len() > 1 && *st != CaseStrategy::Random(RandomStrategy::ArrayAltMaxMin) ==> via_charset(
            r@,
            charset@,
            *st,
        ),
{
    let mut out: Vec<char> = Vec::new();
    if len == 0 {
        let r = crate::text::string_of(&out);
        proof {
            let idx: Seq<i64> = seq![];
            assert(alternating(idx, 0, (charset@.len() - 1) as i64, 0));
            assert(periodic(idx, 2));
            assert(idx.take(0) =~= idx && idx.skip(0) =~= idx);
            if 0 < charset@.len() - 1 {
                assert(two_valued(idx, 0));
            }
            assert(shaped(*st, 0, (charset@.len() - 1) as i64, false, idx));
            let ph: int = match row_info {
                Some(t) => t.2 as int % 2,
                None => 0,
            };
            assert(checkered(r@, charset@, ph, row_offset(row_info)));
        }
        return r;
    }
    let clen = charset.len();
    if clen == 1 {
        let mut i: usize = 0;
        while i < len
            invariant
                i <= len,
                charset@.len() == 1,
                out@.len() == i,
                forall|k: int| 0 <= k < i ==> #[trigger] out@[k] == charset@[0],
            decreases len - i,
        {
            out.push(charset[0]);
            i += 1;
        }
        let r = crate::text::string_of(&out);
        proof {
            assert forall|k: int| 0 <= k < len implies charset@.contains(#[trigger] r@[k]) by {
                assert(r@[k] == charset@[0]);
            }
        }
        return r;
    }
    match st {
        CaseStrategy::Random(RandomStrategy::ArrayAltMaxMin) => {
            let phase: usize = match row_info {
                Some(t) => t.2 % 2,
                None => random_index(rng, 2),
            };
            let roff: usize = match row_info {
                Some(t) => t.0,
                None => 0,
            };
            let ghost ro: int = roff as int;
            let mut i: usize = 0;
            while i < len
                invariant
                    i <= len,
                    clen == charset@.len(),
                    clen > 1,
                    phase < 2,
                    ro == roff as int,
                    out@.len() == i,
                    forall|k: int| 0 <= k < i ==> #[trigger] out@[k] == checker_char(charset@, k, phase as int, ro),
                decreases len - i,
            {
                let c = if (i % 2 + phase + roff % 2) % 2 == 0 {
                    charset[clen - 1]
                } else {
                    charset[0]
                };
                assert((i as int % 2 + phase + ro % 2) % 2 == (i as int + phase + ro) % 2) by (nonlinear_arith)
                    requires
                        0 <= i,
                        0 <= ro,
                        0 <= phase,
                ;
                out.push(c);
                i += 1;
            }
            let r = crate::text::string_of(&out);
            proof {
                assert forall|k: int| 0 <= k < len implies charset@.contains(#[trigger] r@[k]) by {
                    if (k + phase + ro) % 2 == 0 {
                        assert(charset@[clen - 1] == r@[k]);
                    } else {
                        assert(charset@[0] == r@[k]);
                    }
                }
                assert(ro == row_offset(row_info));
                assert(row_info matches Some(t) ==> phase == t.2 % 2);
                assert(checkered(r@, charset@, phase as int, row_offset(row_info)));
            }
            r
        },
        _ => {
            let top: i64 = (clen - 1) as i64;
            let idx = match gen_int_array_range(st, 0, top, len, false, rng) {
                Some(v) => v,
                None => Vec::new(),
            };
            let mut i: usize = 0;
            while i < len
                invariant
                    i <= len,
                    idx@.len() == len,
                    in_range(idx@, 0, clen - 1),
                    clen == charset@.len(),
                    out@.len() == i,
                    forall|k: int| 0 <= k < i ==> #[trigger] out@[k] == charset@[idx@[k] as int],
                decreases len - i,
            {
                out.push(charset[idx[i] as usize]);
                i += 1;
            }
            let r = crate::text::string_of(&out);
            proof {
                assert forall|k: int| 0 <= k < len implies charset@.contains(#[trigger] r@[k]) by {
                    assert(charset@[idx@[k] as int] == r@[k]);
                }
                assert(shaped(*st, 0, (charset@.len() - 1) as i64, false, idx@));
            }
            r
        },
    }
}

} // verus!
