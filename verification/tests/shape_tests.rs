use compete_spec::maps::StrMap;
use compete_spec::parse::types::{
    BoundRepr, FormatBlock, RandomTestSection, ScalarsBlock, TestCasesBlock, VarConstraint, VarType,
};
use compete_spec::random_test::gen::{decide_structural_sizes, gen_int};
use compete_spec::random_test::shape::{gen_int_array, gen_string};
use compete_spec::random_test::spec::{resolve, ResolvedSpec};
use compete_spec::random_test::strategy::{CaseStrategy, DeterministicStrategy, RandomStrategy};
use rand::rngs::SmallRng;
use rand::SeedableRng as _;

fn rng() -> SmallRng {
    SmallRng::seed_from_u64(0xC0FFEE)
}

fn vc(lo: i64, hi: i64) -> VarConstraint {
    VarConstraint {
        var_type: VarType::Usize,
        range: Some([BoundRepr::Lit(lo), BoundRepr::Lit(hi)]),
        ..Default::default()
    }
}

fn mkspec(vars: StrMap<VarConstraint>, format: Vec<FormatBlock>) -> ResolvedSpec {
    resolve(&RandomTestSection { vars, format, ..Default::default() })
}

fn is_distinct(v: &[i64]) -> bool {
    let mut s = v.to_vec();
    s.sort_unstable();
    s.dedup();
    s.len() == v.len()
}

#[test]
fn decide_structural_sizes_per_strategy() {
    let mut v = StrMap::new();
    v.insert("t".into(), vc(1, 100));
    let spec = mkspec(
        v,
        vec![FormatBlock::TestCases(TestCasesBlock {
            count: "t".into(),
            format: vec![FormatBlock::Scalars(ScalarsBlock {
                vars: vec!["x".into()],
            })],
        })],
    );
    let mut r = rng();
    let max = decide_structural_sizes(
        &spec,
        &CaseStrategy::Deterministic(DeterministicStrategy::AllMax),
        &mut r,
    );
    assert_eq!(max.test_cases, Some(("t".into(), 100)));
    let min = decide_structural_sizes(
        &spec,
        &CaseStrategy::Deterministic(DeterministicStrategy::AllMin),
        &mut r,
    );
    assert_eq!(min.test_cases, Some(("t".into(), 1)));
    let small = decide_structural_sizes(
        &spec,
        &CaseStrategy::Random(RandomStrategy::SmallSize(2)),
        &mut r,
    );
    assert_eq!(small.test_cases, Some(("t".into(), 2)));
    // No sum_limit anywhere ⇒ MaxSize keeps T maxed.
    let maxsize = decide_structural_sizes(
        &spec,
        &CaseStrategy::Random(RandomStrategy::MaxSize),
        &mut r,
    );
    assert_eq!(maxsize.test_cases, Some(("t".into(), 100)));
}

#[test]
fn maxsize_concentrates_sum_into_one_case() {
    let mut v = StrMap::new();
    v.insert("t".into(), vc(1, 100));
    let mut sumvar = VarConstraint {
        var_type: VarType::Usize,
        range: Some([BoundRepr::Lit(1), BoundRepr::Expr("_".into())]),
        ..Default::default()
    };
    sumvar.sum_limit = Some(50);
    v.insert("k".into(), sumvar);
    let spec = mkspec(
        v,
        vec![FormatBlock::TestCases(TestCasesBlock {
            count: "t".into(),
            format: vec![FormatBlock::Scalars(ScalarsBlock {
                vars: vec!["k".into()],
            })],
        })],
    );
    let s = decide_structural_sizes(
        &spec,
        &CaseStrategy::Random(RandomStrategy::MaxSize),
        &mut rng(),
    );
    assert_eq!(s.test_cases, Some(("t".into(), 1)));
}

#[test]
fn gen_int_basics() {
    let mut r = rng();
    assert_eq!(gen_int(5, 5, &mut r), 5);
    for _ in 0..200 {
        let v = gen_int(10, 3, &mut r);
        assert!((3..=10).contains(&v));
        let w = gen_int(1, 100, &mut r);
        assert!((1..=100).contains(&w));
    }
}

#[test]
fn gen_int_array_shapes() {
    let mut r = rng();
    let mono_inc = gen_int_array(
        &CaseStrategy::Random(RandomStrategy::ArrayMonoInc),
        1,
        100,
        30,
        None,
        false,
        &mut r,
    )
    .unwrap();
    assert_eq!(mono_inc.len(), 30);
    assert!(mono_inc.windows(2).all(|w| w[0] <= w[1]));

    let mono_dec = gen_int_array(
        &CaseStrategy::Random(RandomStrategy::ArrayMonoDec),
        1,
        100,
        30,
        None,
        false,
        &mut r,
    )
    .unwrap();
    assert!(mono_dec.windows(2).all(|w| w[0] >= w[1]));

    let same = gen_int_array(
        &CaseStrategy::Random(RandomStrategy::ArrayAllSame),
        1,
        100,
        20,
        None,
        false,
        &mut r,
    )
    .unwrap();
    assert!(same.windows(2).all(|w| w[0] == w[1]));

    let alt = gen_int_array(
        &CaseStrategy::Random(RandomStrategy::ArrayAltMaxMin),
        1,
        100,
        20,
        None,
        false,
        &mut r,
    )
    .unwrap();
    assert!(alt.iter().all(|&x| x == 1 || x == 100));

    let zero = gen_int_array(
        &CaseStrategy::Random(RandomStrategy::ZeroCorner),
        -10,
        10,
        15,
        None,
        false,
        &mut r,
    )
    .unwrap();
    assert!(zero.iter().all(|&x| x == 0));

    let zero_with_upper_bound = gen_int_array(
        &CaseStrategy::Random(RandomStrategy::ZeroCorner),
        -10,
        0,
        15,
        None,
        false,
        &mut r,
    )
    .unwrap();
    assert!(zero_with_upper_bound.iter().all(|&x| x == 0));

    let zero_with_lower_bound = gen_int_array(
        &CaseStrategy::Random(RandomStrategy::ZeroCorner),
        0,
        10,
        15,
        None,
        false,
        &mut r,
    )
    .unwrap();
    assert!(zero_with_lower_bound.iter().all(|&x| x == 0));

    let periodic = gen_int_array(
        &CaseStrategy::Random(RandomStrategy::ArrayPeriodic),
        1,
        1000,
        40,
        None,
        false,
        &mut r,
    )
    .unwrap();
    assert_eq!(periodic.len(), 40);
    let p = (2..=5)
        .find(|&p| {
            periodic
                .iter()
                .enumerate()
                .all(|(i, &x)| x == periodic[i % p])
        })
        .expect("array should be periodic with period 2..=5");
    assert!((2..=5).contains(&p));
}

#[test]
fn gen_int_array_enum_values_only() {
    let mut r = rng();
    let vals = vec![1i64, 2];

    let maxed = gen_int_array(
        &CaseStrategy::Deterministic(DeterministicStrategy::AllMax),
        0,
        0,
        8,
        Some(&vals),
        false,
        &mut r,
    )
    .unwrap();
    assert!(maxed.iter().all(|&x| x == 2));

    let alt = gen_int_array(
        &CaseStrategy::Random(RandomStrategy::ArrayAltMaxMin),
        0,
        0,
        9,
        Some(&vals),
        false,
        &mut r,
    )
    .unwrap();
    assert!(alt.iter().all(|&x| vals.contains(&x)));
    assert!(alt.contains(&1));
    assert!(alt.contains(&2));

    let zero = gen_int_array(
        &CaseStrategy::Random(RandomStrategy::ZeroCorner),
        0,
        0,
        20,
        Some(&vals),
        false,
        &mut r,
    )
    .unwrap();
    assert!(zero.iter().all(|&x| vals.contains(&x)));
}

#[test]
fn gen_int_array_distinct() {
    let mut r = rng();
    let d = gen_int_array(
        &CaseStrategy::Random(RandomStrategy::Random),
        1,
        10,
        5,
        None,
        true,
        &mut r,
    )
    .unwrap();
    assert_eq!(d.len(), 5);
    assert!(is_distinct(&d));
    assert!(d.iter().all(|&x| (1..=10).contains(&x)));

    // span < len ⇒ infeasible ⇒ None (caller resamples / backfills),
    // never a constraint-violating array.
    assert!(gen_int_array(
        &CaseStrategy::Random(RandomStrategy::Random),
        1,
        3,
        10,
        None,
        true,
        &mut r,
    )
    .is_none());

    let vals = vec![10i64, 20, 30];
    let e = gen_int_array(
        &CaseStrategy::Random(RandomStrategy::Random),
        0,
        0,
        3,
        Some(&vals),
        true,
        &mut r,
    )
    .unwrap();
    assert!(is_distinct(&e));
    assert!(e.iter().all(|x| vals.contains(x)));

    assert!(gen_int_array(
        &CaseStrategy::Random(RandomStrategy::Random),
        0,
        0,
        4,
        Some(&vals),
        true,
        &mut r,
    )
    .is_none());
}

#[test]
fn gen_int_array_distinct_shapes() {
    let mut r = rng();
    let inc = gen_int_array(
        &CaseStrategy::Random(RandomStrategy::ArrayMonoInc),
        1,
        1000,
        30,
        None,
        true,
        &mut r,
    )
    .unwrap();
    assert!(is_distinct(&inc));
    assert!(inc.windows(2).all(|w| w[0] < w[1]));

    let dec = gen_int_array(
        &CaseStrategy::Random(RandomStrategy::ArrayMonoDec),
        1,
        1000,
        30,
        None,
        true,
        &mut r,
    )
    .unwrap();
    assert!(is_distinct(&dec));
    assert!(dec.windows(2).all(|w| w[0] > w[1]));

    let mtn = gen_int_array(
        &CaseStrategy::Random(RandomStrategy::ArrayMountain),
        1,
        1000,
        21,
        None,
        true,
        &mut r,
    )
    .unwrap();
    assert!(is_distinct(&mtn));
    let peak = mtn.iter().enumerate().max_by_key(|&(_, &x)| x).unwrap().0;
    assert!(mtn[..=peak].windows(2).all(|w| w[0] < w[1]));
    assert!(mtn[peak..].windows(2).all(|w| w[0] > w[1]));

    // A strategy with no distinct-compatible shape (AllMax) must emit a
    // plain distinct permutation, NOT a constant array.
    let neutral = gen_int_array(
        &CaseStrategy::Deterministic(DeterministicStrategy::AllMax),
        1,
        1000,
        10,
        None,
        true,
        &mut r,
    )
    .unwrap();
    assert!(is_distinct(&neutral));
    assert!(neutral.iter().any(|&x| x != 1000));
}

#[test]
fn gen_string_basics() {
    let mut r = rng();
    let cs = vec!['a', 'b', 'c'];
    let lo = gen_string(
        &CaseStrategy::Deterministic(DeterministicStrategy::AllMin),
        &cs,
        4,
        None,
        &mut r,
    );
    assert_eq!(lo, "aaaa");
    let hi = gen_string(
        &CaseStrategy::Deterministic(DeterministicStrategy::AllMax),
        &cs,
        4,
        None,
        &mut r,
    );
    assert_eq!(hi, "cccc");
    let same = gen_string(
        &CaseStrategy::Random(RandomStrategy::ArrayAllSame),
        &cs,
        6,
        None,
        &mut r,
    );
    let first = same.chars().next().unwrap();
    assert!(same.chars().all(|c| c == first));
    let rnd = gen_string(
        &CaseStrategy::Random(RandomStrategy::Random),
        &cs,
        8,
        None,
        &mut r,
    );
    assert_eq!(rnd.chars().count(), 8);
    assert!(rnd.chars().all(|c| cs.contains(&c)));
}

#[test]
fn gen_string_2d_checkerboard() {
    let mut r = rng();
    let cs = vec!['a', 'z'];
    let st = CaseStrategy::Random(RandomStrategy::ArrayAltMaxMin);
    let row0 = gen_string(&st, &cs, 4, Some((0, 3, 0)), &mut r);
    let row1 = gen_string(&st, &cs, 4, Some((1, 3, 0)), &mut r);
    let row2 = gen_string(&st, &cs, 4, Some((2, 3, 0)), &mut r);
    // Adjacent rows differ at every column (vertical checkerboard).
    assert!(row0.chars().zip(row1.chars()).all(|(a, b)| a != b));
    // Two rows apart are identical (parity repeats).
    assert_eq!(row0, row2);
}
