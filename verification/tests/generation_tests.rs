use compete_spec::maps::StrMap;
use compete_spec::parse::types::{
    ArrayBlock, BoundRepr, FormatBlock, RandomTestSection, ScalarsBlock, TestCasesBlock, VarConstraint, VarType,
};
use compete_spec::random_test::gen::{effective_lo_hi, size_bounds, StructuralSizes};
use compete_spec::random_test::relation::{
    effective_array_strategy, narrow_scalar_bounds, pairs_ok, record_array_values,
};
use compete_spec::random_test::spec::{resolve, Hi, ResolvedSpec, VarInfo};
use compete_spec::random_test::strategy::{CaseStrategy, DeterministicStrategy, RandomStrategy};

fn ranged(lo: i64, hi: i64, distinct: bool) -> VarConstraint {
    let mut v = VarConstraint::new();
    v.var_type = VarType::Usize;
    v.range = Some([BoundRepr::Lit(lo), BoundRepr::Lit(hi)]);
    v.all_distinct = distinct;
    v
}

fn array(base: &str, len: &str) -> FormatBlock {
    FormatBlock::Array(ArrayBlock { base: base.into(), len: Some(len.into()), height: None, count: None, jagged: false })
}

fn spec(distinct: bool, inter_array: bool) -> ResolvedSpec {
    let mut section = RandomTestSection::new();
    section.vars.insert("a".into(), ranged(1, 10, distinct));
    section.vars.insert("b".into(), ranged(1, 10, false));
    section.format = vec![array("a", "3"), array("b", "3")];
    if inter_array {
        section.not_equal = vec![["a".into(), "b".into()]];
    }
    resolve(&section)
}

#[test]
fn all_distinct_ignores_only_incompatible_strategies() {
    let spec = spec(true, false);
    let random = CaseStrategy::Random(RandomStrategy::Random);
    for st in [
        CaseStrategy::Deterministic(DeterministicStrategy::AllMax),
        CaseStrategy::Deterministic(DeterministicStrategy::AllMin),
        CaseStrategy::Random(RandomStrategy::ZeroCorner),
        CaseStrategy::Random(RandomStrategy::ArrayAllSame),
        CaseStrategy::Random(RandomStrategy::ArrayAltMaxMin),
        CaseStrategy::Random(RandomStrategy::ArrayOneMaxRestMin),
        CaseStrategy::Random(RandomStrategy::ArrayNarrowRange),
        CaseStrategy::Random(RandomStrategy::ArrayPeriodic),
    ] {
        assert_eq!(effective_array_strategy(&st, "a", true, &spec), random);
    }
    for st in [
        CaseStrategy::Random(RandomStrategy::ArrayMonoInc),
        CaseStrategy::Random(RandomStrategy::ArrayMonoDec),
        CaseStrategy::Random(RandomStrategy::ArrayMountain),
        CaseStrategy::Random(RandomStrategy::MaxSize),
    ] {
        assert_eq!(effective_array_strategy(&st, "a", true, &spec), st);
    }
}

#[test]
fn inter_array_ignores_array_shapes_but_keeps_extremes() {
    let spec = spec(false, true);
    let random = CaseStrategy::Random(RandomStrategy::Random);
    for st in [
        CaseStrategy::Random(RandomStrategy::ZeroCorner),
        CaseStrategy::Random(RandomStrategy::ArrayMonoInc),
        CaseStrategy::Random(RandomStrategy::ArrayMonoDec),
        CaseStrategy::Random(RandomStrategy::ArrayAllSame),
        CaseStrategy::Random(RandomStrategy::ArrayAltMaxMin),
        CaseStrategy::Random(RandomStrategy::ArrayMountain),
        CaseStrategy::Random(RandomStrategy::ArrayOneMaxRestMin),
        CaseStrategy::Random(RandomStrategy::ArrayNarrowRange),
        CaseStrategy::Random(RandomStrategy::ArrayPeriodic),
    ] {
        assert_eq!(effective_array_strategy(&st, "a", false, &spec), random);
    }
    for st in [
        CaseStrategy::Deterministic(DeterministicStrategy::AllMax),
        CaseStrategy::Deterministic(DeterministicStrategy::AllMin),
    ] {
        assert_eq!(effective_array_strategy(&st, "a", false, &spec), st);
    }
}

#[test]
fn all_distinct_rule_wins_for_inter_array_extremes() {
    let spec = spec(true, true);
    let random = CaseStrategy::Random(RandomStrategy::Random);
    for st in [
        CaseStrategy::Deterministic(DeterministicStrategy::AllMax),
        CaseStrategy::Deterministic(DeterministicStrategy::AllMin),
    ] {
        assert_eq!(effective_array_strategy(&st, "a", true, &spec), random);
    }
}

fn mkspec(vars: Vec<(&str, VarConstraint)>, format: Vec<FormatBlock>) -> ResolvedSpec {
    let mut s = RandomTestSection::new();
    for (k, v) in vars {
        s.vars.insert(k.to_string(), v);
    }
    s.format = format;
    resolve(&s)
}

fn vinfo(lo: i64, hi: Hi) -> VarInfo {
    VarInfo {
        ty: VarType::Usize,
        lo,
        hi,
        values: None,
        charset: None,
        len: None,
        all_distinct: false,
        sum_limit: None,
    }
}

#[test]
fn resolve_populates_sum_denominators() {
    let spec = mkspec(
        vec![],
        vec![FormatBlock::TestCases(TestCasesBlock {
            count: "t".into(),
            format: vec![FormatBlock::Array(ArrayBlock {
                base: "a".into(),
                len: Some("l".into()),
                height: None,
                count: Some("n".into()),
                jagged: true,
            })],
        })],
    );
    assert_eq!(spec.test_cases_count_var, Some("t".into()));
    assert_eq!(spec.jagged_len_to_count.get("l"), Some(&"n".to_string()));
}

#[test]
fn effective_lo_hi_variants() {
    let spec = mkspec(vec![], vec![]);

    let fixed = vinfo(2, Hi::Fixed(50));
    assert_eq!(effective_lo_hi("x", &fixed, &StructuralSizes::new(), &spec), (2, 50));

    let with_t = StructuralSizes { test_cases: Some(("t".into(), 4)), jagged_counts: StrMap::new() };
    let sl = vinfo(1, Hi::SumLimited(100));
    assert_eq!(effective_lo_hi("x", &sl, &with_t, &spec), (1, 25));

    assert_eq!(effective_lo_hi("x", &sl, &StructuralSizes::new(), &spec), (1, 100));
}

// ─── further cases ──────────────────────────────────────────────────────────

#[test]
fn fixed_upper_end_with_sum_limit_takes_the_smaller() {
    let spec = mkspec(vec![], vec![]);
    let mut v = vinfo(1, Hi::Fixed(50));
    v.sum_limit = Some(90);
    let with_t = StructuralSizes { test_cases: Some(("t".into(), 3)), jagged_counts: StrMap::new() };
    assert_eq!(effective_lo_hi("x", &v, &with_t, &spec), (1, 30));
    // A cap below 1 is raised to 1, then the pair is ordered.
    let mut w = vinfo(5, Hi::SumLimited(2));
    w.sum_limit = Some(2);
    assert_eq!(effective_lo_hi("x", &w, &with_t, &spec), (1, 5));
}

#[test]
fn size_bounds_swap_and_default() {
    let spec = mkspec(vec![("n", ranged(9, 3, false))], vec![]);
    assert_eq!(size_bounds(&spec, "n"), (3, 9));
    assert_eq!(size_bounds(&spec, "m"), (0, 0));
}

#[test]
fn pairs_ok_checks_scalars_arrays_and_strings() {
    let mut s = RandomTestSection::new();
    s.ordering = vec![["x".into(), "y".into()], ["x".into(), "a".into()]];
    s.not_equal = vec![["s".into(), "t".into()]];
    let spec = resolve(&s);
    let mut sc: StrMap<i64> = StrMap::new();
    let strings: StrMap<String> = StrMap::new();
    let mut arrays: StrMap<Vec<i64>> = StrMap::new();
    sc.insert("x".into(), 3);
    sc.insert("y".into(), 5);
    assert!(pairs_ok(&spec, &sc, &strings, &arrays, None, None));
    arrays.insert("a".into(), vec![4, 2]);
    assert!(!pairs_ok(&spec, &sc, &strings, &arrays, None, None));
    let mut strs: StrMap<String> = StrMap::new();
    strs.insert("s".into(), "ab".into());
    strs.insert("t".into(), "ab".into());
    arrays.insert("a".into(), vec![4, 7]);
    assert!(!pairs_ok(&spec, &sc, &strs, &arrays, None, None));
}

#[test]
fn scalar_bounds_narrow_along_orderings() {
    let mut s = RandomTestSection::new();
    s.ordering = vec![["x".into(), "y".into()], ["z".into(), "x".into()], ["x".into(), "a".into()]];
    let spec = resolve(&s);
    let mut sc: StrMap<i64> = StrMap::new();
    sc.insert("y".into(), 8);
    sc.insert("z".into(), 2);
    let mut arrays: StrMap<Vec<i64>> = StrMap::new();
    assert_eq!(narrow_scalar_bounds("x", 0, 10, &spec, &sc, &arrays), Some((2, 8)));
    record_array_values(&mut arrays, "a", &vec![7, 6]);
    record_array_values(&mut arrays, "a", &vec![9]);
    assert_eq!(arrays.get("a"), Some(&vec![7, 6, 9]));
    assert_eq!(narrow_scalar_bounds("x", 0, 10, &spec, &sc, &arrays), Some((2, 6)));
    assert_eq!(narrow_scalar_bounds("x", 7, 10, &spec, &sc, &arrays), None);
}
