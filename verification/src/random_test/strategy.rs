//! Which strategies the cases of a problem are generated with: a few plain
//! random cases, every corner strategy once in random order, then an endless
//! tail of mostly plain random cases.

use vstd::prelude::*;
use crate::random_test::rng::{random_index, random_ratio, shuffle_strategies};
use crate::random_test::spec::{ResolvedM, ResolvedSpec};

verus! {

/// Strategies whose input is the same every run; emitted at most once.
#[derive(Clone, Copy, Debug, PartialEq, Eq, Structural)]
pub enum DeterministicStrategy {
    AllMax,
    AllMin,
}

/// Strategies with a random element.
#[derive(Clone, Copy, Debug, PartialEq, Eq, Structural)]
pub enum RandomStrategy {
    Random,
    /// Size variables forced to `k`; the rest random.
    SmallSize(i64),
    /// Size variables at their maximum; the rest random.
    MaxSize,
    /// Variables whose range spans zero set to 0.
    ZeroCorner,
    ArrayMonoInc,
    ArrayMonoDec,
    ArrayAllSame,
    ArrayAltMaxMin,
    ArrayMountain,
    ArrayOneMaxRestMin,
    /// Each element one of two consecutive values.
    ArrayNarrowRange,
    /// A random repeating pattern of 2 to 5 values.
    ArrayPeriodic,
}

#[derive(Clone, Copy, Debug, PartialEq, Eq, Structural)]
pub enum CaseStrategy {
    Deterministic(DeterministicStrategy),
    Random(RandomStrategy),
}

/// An integer array carries `all_distinct`.
pub open spec fn spec_has_distinct_array(m: ResolvedM) -> bool {
    exists|i: int| 0 <= i < m.vars.len() && (#[trigger] m.vars[i]).1.all_distinct
}

pub fn has_distinct_array(spec: &ResolvedSpec) -> (r: bool)
    ensures
        r == spec_has_distinct_array(spec.model()),
{
    let ghost m = spec.model();
    let mut i: usize = 0;
    while i < spec.vars.len()
        invariant
            m == spec.model(),
            i <= m.vars.len(),
            forall|j: int| 0 <= j < i ==> !(#[trigger] m.vars[j]).1.all_distinct,
        decreases m.vars.len() - i,
    {
        if spec.vars.value_at(i).all_distinct {
            assert(m.vars[i as int].1.all_distinct);
            return true;
        }
        i += 1;
    }
    false
}

pub fn has_inter_array_constraints(spec: &ResolvedSpec) -> (r: bool)
    ensures
        r == (spec.model().inter.len() > 0),
{
    !spec.inter_array_constrained.is_empty()
}

/// The corner strategies of a problem: the extremes, the small and maximal
/// sizes, the zero corner, and the array shapes its arrays allow.
pub open spec fn spec_corners(m: ResolvedM) -> Seq<CaseStrategy> {
    let base = seq![
        CaseStrategy::Deterministic(DeterministicStrategy::AllMax),
        CaseStrategy::Deterministic(DeterministicStrategy::AllMin),
        CaseStrategy::Random(RandomStrategy::SmallSize(1)),
        CaseStrategy::Random(RandomStrategy::SmallSize(2)),
        CaseStrategy::Random(RandomStrategy::SmallSize(3)),
        CaseStrategy::Random(RandomStrategy::ZeroCorner),
        CaseStrategy::Random(RandomStrategy::MaxSize),
    ];
    if m.inter.len() > 0 {
        base
    } else if spec_has_distinct_array(m) {
        base + seq![
            CaseStrategy::Random(RandomStrategy::ArrayMonoInc),
            CaseStrategy::Random(RandomStrategy::ArrayMonoDec),
            CaseStrategy::Random(RandomStrategy::ArrayMountain),
        ]
    } else if m.has_array {
        base + seq![
            CaseStrategy::Random(RandomStrategy::ArrayMonoInc),
            CaseStrategy::Random(RandomStrategy::ArrayMonoDec),
            CaseStrategy::Random(RandomStrategy::ArrayAllSame),
            CaseStrategy::Random(RandomStrategy::ArrayAltMaxMin),
            CaseStrategy::Random(RandomStrategy::ArrayMountain),
            CaseStrategy::Random(RandomStrategy::ArrayOneMaxRestMin),
            CaseStrategy::Random(RandomStrategy::ArrayNarrowRange),
            CaseStrategy::Random(RandomStrategy::ArrayPeriodic),
        ]
    } else {
        base
    }
}

pub fn corner_strategies(spec: &ResolvedSpec) -> (r: Vec<CaseStrategy>)
    ensures
        r@ == spec_corners(spec.model()),
{
    let mut v: Vec<CaseStrategy> = vec![
        CaseStrategy::Deterministic(DeterministicStrategy::AllMax),
        CaseStrategy::Deterministic(DeterministicStrategy::AllMin),
        CaseStrategy::Random(RandomStrategy::SmallSize(1)),
        CaseStrategy::Random(RandomStrategy::SmallSize(2)),
        CaseStrategy::Random(RandomStrategy::SmallSize(3)),
        CaseStrategy::Random(RandomStrategy::ZeroCorner),
        CaseStrategy::Random(RandomStrategy::MaxSize),
    ];
    let ghost base = v@;
    if !has_inter_array_constraints(spec) {
        if has_distinct_array(spec) {
            v.push(CaseStrategy::Random(RandomStrategy::ArrayMonoInc));
            v.push(CaseStrategy::Random(RandomStrategy::ArrayMonoDec));
            v.push(CaseStrategy::Random(RandomStrategy::ArrayMountain));
        } else if spec.has_array {
            v.push(CaseStrategy::Random(RandomStrategy::ArrayMonoInc));
            v.push(CaseStrategy::Random(RandomStrategy::ArrayMonoDec));
            v.push(CaseStrategy::Random(RandomStrategy::ArrayAllSame));
            v.push(CaseStrategy::Random(RandomStrategy::ArrayAltMaxMin));
            v.push(CaseStrategy::Random(RandomStrategy::ArrayMountain));
            v.push(CaseStrategy::Random(RandomStrategy::ArrayOneMaxRestMin));
            v.push(CaseStrategy::Random(RandomStrategy::ArrayNarrowRange));
            v.push(CaseStrategy::Random(RandomStrategy::ArrayPeriodic));
        }
    }
    assert(v@ =~= spec_corners(spec.model()));
    v
}

/// The random-element strategies among `s`, in order.
pub open spec fn random_parts(s: Seq<CaseStrategy>) -> Seq<RandomStrategy>
    decreases s.len(),
{
    if s.len() == 0 {
        seq![]
    } else {
        let p = random_parts(s.drop_last());
        match s.last() {
            CaseStrategy::Random(r) => p.push(r),
            CaseStrategy::Deterministic(_) => p,
        }
    }
}

/// The plain random cases that lead: one below ten cases, else two, never
/// more than the count.
pub open spec fn initial_random(count: u32) -> nat {
    let k: nat = if count < 10 { 1 } else { 2 };
    if k < count { k } else { count as nat }
}

/// An unbounded source of strategies: `prefix` first, then a tail that is a
/// random corner three times in ten (when there is one) and plain random
/// otherwise.
#[derive(Debug)]
pub struct StrategyStream {
    pub prefix: Vec<CaseStrategy>,
    pub random_corners: Vec<RandomStrategy>,
    pub pos: usize,
}

/// The stream for `count` cases: the leading plain random cases, then the
/// corners in a random order; the tail repeats only random-element corners.
pub fn strategy_stream(spec: &ResolvedSpec, count: u32, rng: &mut rand::rngs::SmallRng) -> (r: StrategyStream)
    ensures
        r.pos == 0,
        r.prefix@.len() == initial_random(count) + spec_corners(spec.model()).len(),
        forall|i: int| 0 <= i < initial_random(count) ==> #[trigger] r.prefix@[i] == CaseStrategy::Random(
            RandomStrategy::Random,
        ),
        r.prefix@.subrange(initial_random(count) as int, r.prefix@.len() as int).to_multiset()
            == spec_corners(spec.model()).to_multiset(),
        r.random_corners@ == random_parts(r.prefix@.subrange(initial_random(count) as int, r.prefix@.len() as int)),
{
    let mut corners = corner_strategies(spec);
    let k: u32 = if count < 10 { 1 } else { 2 };
    let initial: u32 = if k < count { k } else { count };
    shuffle_strategies(&mut corners, rng);
    let ghost cs = corners@;
    let mut random_corners: Vec<RandomStrategy> = Vec::new();
    let mut i: usize = 0;
    assert(cs.take(0) =~= Seq::<CaseStrategy>::empty());
    while i < corners.len()
        invariant
            cs == corners@,
            i <= cs.len(),
            random_corners@ == random_parts(cs.take(i as int)),
        decreases cs.len() - i,
    {
        assert(cs.take(i + 1).drop_last() =~= cs.take(i as int));
        match corners[i] {
            CaseStrategy::Random(r) => random_corners.push(r),
            CaseStrategy::Deterministic(_) => {},
        }
        i += 1;
    }
    assert(cs.take(cs.len() as int) =~= cs);
    let mut prefix: Vec<CaseStrategy> = Vec::new();
    let mut j: u32 = 0;
    while j < initial
        invariant
            j <= initial,
            prefix@.len() == j,
            forall|t: int| 0 <= t < j ==> #[trigger] prefix@[t] == CaseStrategy::Random(RandomStrategy::Random),
        decreases initial - j,
    {
        prefix.push(CaseStrategy::Random(RandomStrategy::Random));
        j += 1;
    }
    let ghost head = prefix@;
    let mut c: usize = 0;
    while c < corners.len()
        invariant
            cs == corners@,
            c <= cs.len(),
            prefix@ == head + cs.take(c as int),
        decreases cs.len() - c,
    {
        prefix.push(corners[c]);
        assert(head + cs.take(c + 1) =~= (head + cs.take(c as int)).push(cs[c as int]));
        c += 1;
    }
    assert(cs.take(cs.len() as int) =~= cs);
    assert(prefix@.subrange(initial as int, prefix@.len() as int) =~= cs);
    StrategyStream { prefix, random_corners, pos: 0 }
}

impl StrategyStream {
    /// The next strategy: the prefix in order, then the tail.
    pub fn next(&mut self, rng: &mut rand::rngs::SmallRng) -> (r: CaseStrategy)
        ensures
            final(self).prefix == old(self).prefix,
            final(self).random_corners == old(self).random_corners,
            old(self).pos < old(self).prefix@.len() ==> r == old(self).prefix@[old(self).pos as int]
                && final(self).pos == old(self).pos + 1,
            old(self).pos >= old(self).prefix@.len() ==> final(self).pos == old(self).pos && (r == CaseStrategy::Random(
                RandomStrategy::Random,
            ) || exists|i: int|
                0 <= i < old(self).random_corners@.len() && r == CaseStrategy::Random(
                    #[trigger] old(self).random_corners@[i],
                )),
    {
        if self.pos < self.prefix.len() {
            let s = self.prefix[self.pos];
            self.pos += 1;
            return s;
        }
        if random_ratio(rng, 3, 10) && self.random_corners.len() > 0 {
            let idx = random_index(rng, self.random_corners.len());
            CaseStrategy::Random(self.random_corners[idx])
        } else {
            CaseStrategy::Random(RandomStrategy::Random)
        }
    }
}

pub open spec fn is_plain_random(s: CaseStrategy) -> bool {
    s == CaseStrategy::Random(RandomStrategy::Random)
}

/// A case's name: plain random cases are `random{n}`, every other case
/// `corner{n}`, each counter counting its own kind from 1.
pub fn case_name(s: &CaseStrategy, corner: &mut u32, random: &mut u32) -> (r: String)
    requires
        is_plain_random(*s) ==> *old(random) < u32::MAX,
        !is_plain_random(*s) ==> *old(corner) < u32::MAX,
    ensures
        is_plain_random(*s) ==> *final(random) == *old(random) + 1 && *final(corner) == *old(corner) && r@ == "random"@
            + crate::text::spec_nat_chars(*final(random) as nat),
        !is_plain_random(*s) ==> *final(corner) == *old(corner) + 1 && *final(random) == *old(random) && r@ == "corner"@
            + crate::text::spec_nat_chars(*final(corner) as nat),
{
    match s {
        CaseStrategy::Random(RandomStrategy::Random) => {
            *random += 1;
            crate::text::concat_str("random", crate::text::string_of(&crate::text::nat_chars(*random as u128)).as_str())
        },
        _ => {
            *corner += 1;
            crate::text::concat_str("corner", crate::text::string_of(&crate::text::nat_chars(*corner as u128)).as_str())
        },
    }
}

/// Whether a strategy shapes whole arrays.
pub open spec fn spec_is_array_shape(st: CaseStrategy) -> bool {
    match st {
        CaseStrategy::Random(r) => match r {
            RandomStrategy::ArrayMonoInc | RandomStrategy::ArrayMonoDec | RandomStrategy::ArrayAllSame
            | RandomStrategy::ArrayAltMaxMin | RandomStrategy::ArrayMountain | RandomStrategy::ArrayOneMaxRestMin
            | RandomStrategy::ArrayNarrowRange | RandomStrategy::ArrayPeriodic => true,
            _ => false,
        },
        _ => false,
    }
}

pub fn is_array_shape_strategy(st: &CaseStrategy) -> (r: bool)
    ensures
        r == spec_is_array_shape(*st),
{
    match st {
        CaseStrategy::Random(r) => match r {
            RandomStrategy::ArrayMonoInc | RandomStrategy::ArrayMonoDec | RandomStrategy::ArrayAllSame
            | RandomStrategy::ArrayAltMaxMin | RandomStrategy::ArrayMountain | RandomStrategy::ArrayOneMaxRestMin
            | RandomStrategy::ArrayNarrowRange | RandomStrategy::ArrayPeriodic => true,
            _ => false,
        },
        _ => false,
    }
}

} // verus!
