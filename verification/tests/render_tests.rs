use compete_spec::maps::StrMap;
use compete_spec::parse::types::{
    copy_blocks, ArrayBlock, BoundRepr, FormatBlock, QueriesBlock, QueryBranch, RandomTestSection, RowsBlock, ScalarsBlock,
    TestCasesBlock, VarConstraint, VarType,
};
use compete_spec::random_test::budget::Budget;
use compete_spec::random_test::context::RenderContext;
use compete_spec::random_test::gen::StructuralSizes;
use compete_spec::random_test::render::{render_case, run_iteration, RenderResult, MAX_INPUT_ELEMENTS};
use compete_spec::random_test::spec::{resolve, ResolvedSpec};
use compete_spec::random_test::strategy::{CaseStrategy, DeterministicStrategy, RandomStrategy};
use rand::rngs::SmallRng;
use rand::SeedableRng as _;
use std::collections::HashSet;
use std::sync::atomic::AtomicBool;

fn rng() -> SmallRng {
    SmallRng::seed_from_u64(0xC0FFEE)
}

fn render(spec: &ResolvedSpec, st: &CaseStrategy, rng: &mut SmallRng) -> RenderResult {
    render_case(spec, st, rng, &AtomicBool::new(false))
}

fn vc(lo: i64, hi: i64) -> VarConstraint {
    VarConstraint {
        var_type: VarType::Usize,
        range: Some([BoundRepr::Lit(lo), BoundRepr::Lit(hi)]),
        ..Default::default()
    }
}

fn vc_enum(values: &[&str]) -> VarConstraint {
    VarConstraint {
        var_type: VarType::Usize,
        values: Some(values.iter().map(|v| (*v).to_string()).collect()),
        ..Default::default()
    }
}

fn mkspec(vars: StrMap<VarConstraint>, format: Vec<FormatBlock>) -> ResolvedSpec {
    resolve(&RandomTestSection { vars, format, ..Default::default() })
}

fn scalars(vs: &[&str]) -> FormatBlock {
    FormatBlock::Scalars(ScalarsBlock { vars: vs.iter().map(|s| s.to_string()).collect() })
}

fn lines_of(s: &str) -> Vec<&str> {
    s.lines().collect()
}

fn det_max() -> CaseStrategy {
    CaseStrategy::Deterministic(DeterministicStrategy::AllMax)
}
fn det_min() -> CaseStrategy {
    CaseStrategy::Deterministic(DeterministicStrategy::AllMin)
}
fn random() -> CaseStrategy {
    CaseStrategy::Random(RandomStrategy::Random)
}

#[test]
fn array_len_integer_literal_resolves() {
    let mut v = StrMap::new();
    v.insert("a".into(), vc(1, 9));
    let spec = mkspec(
        v,
        vec![FormatBlock::Array(ArrayBlock {
            base: "a".into(),
            len: Some("3".into()),
            height: None,
            count: None,
            jagged: false,
        })],
    );
    let out = render(&spec, &det_max(), &mut rng()).unwrap();
    assert_eq!(lines_of(&out)[0].split_whitespace().count(), 3);
}

#[test]
fn array_len_var_plus_offset_resolves() {
    // abc453-b shape: array len `(t)+1`.
    let mut v = StrMap::new();
    v.insert("t".into(), vc(1, 100));
    v.insert("x".into(), vc(1, 100));
    v.insert("a".into(), vc(0, 100));
    let spec = mkspec(
        v,
        vec![
            scalars(&["t", "x"]),
            FormatBlock::Array(ArrayBlock {
                base: "a".into(),
                len: Some("(t)+1".into()),
                height: None,
                count: None,
                jagged: false,
            }),
        ],
    );
    let out = render(&spec, &det_max(), &mut rng()).unwrap();
    let ls = lines_of(&out);
    assert_eq!(ls[0], "100 100");
    assert_eq!(ls[1].split_whitespace().count(), 101);
}

#[test]
fn rows_len_var_minus_offset_resolves_and_consistent() {
    // abc448-d shape: array len `n`, rows len `n-1`. Same `n` must drive
    // both (consistency) and `n-1` must resolve, not collapse to 0.
    let mut v = StrMap::new();
    v.insert("n".into(), vc(2, 5));
    v.insert("a".into(), vc(1, 9));
    v.insert("u".into(), vc(1, 5));
    v.insert("v".into(), vc(1, 5));
    let spec = mkspec(
        v,
        vec![
            scalars(&["n"]),
            FormatBlock::Array(ArrayBlock {
                base: "a".into(),
                len: Some("n".into()),
                height: None,
                count: None,
                jagged: false,
            }),
            FormatBlock::Rows(RowsBlock {
                vars: vec!["u".into(), "v".into()],
                len: "n-1".into(),
            }),
        ],
    );
    let out = render(&spec, &det_max(), &mut rng()).unwrap();
    let ls = lines_of(&out);
    assert_eq!(ls[0], "5");
    assert_eq!(ls[1].split_whitespace().count(), 5);
    assert_eq!(ls.len(), 2 + 4);
    for r in &ls[2..] {
        assert_eq!(r.split_whitespace().count(), 2);
    }
}

#[test]
fn rows_numeric_enum_values_are_preserved() {
    // abc440-f shape: enum columns inside Rows must use `values`, not the
    // placeholder numeric range `[0,0]` from spec resolution.
    let mut v = StrMap::new();
    v.insert("n".into(), vc(4, 4));
    v.insert("a".into(), vc(1, 100));
    v.insert("b".into(), vc_enum(&["1", "2"]));
    let spec = mkspec(
        v,
        vec![
            scalars(&["n"]),
            FormatBlock::Rows(RowsBlock {
                vars: vec!["a".into(), "b".into()],
                len: "n".into(),
            }),
        ],
    );
    let out = render(
        &spec,
        &CaseStrategy::Random(RandomStrategy::ArrayAltMaxMin),
        &mut rng(),
    )
    .unwrap();
    let ls = lines_of(&out);
    assert_eq!(ls[0], "4");
    for row in &ls[1..] {
        let vals: Vec<&str> = row.split_whitespace().collect();
        assert_eq!(vals.len(), 2);
        assert!(
            vals[1] == "1" || vals[1] == "2",
            "enum column escaped values: {}",
            row
        );
    }
}

#[test]
fn int_array_numeric_enum_values_are_preserved() {
    let mut v = StrMap::new();
    v.insert("a".into(), vc_enum(&["1", "2"]));
    let spec = mkspec(
        v,
        vec![FormatBlock::Array(ArrayBlock {
            base: "a".into(),
            len: Some("8".into()),
            height: None,
            count: None,
            jagged: false,
        })],
    );
    let out = render(&spec, &det_max(), &mut rng()).unwrap();
    assert!(out.split_whitespace().all(|x| x == "2"), "{}", out);
}

#[test]
fn scalar_enum_without_range_renders_domain_values() {
    // Regression: enum scalars without `range` used to keep the (0, 0)
    // placeholder bounds, which filtered the whole domain out and made
    // every case unsatisfiable.
    let mut v = StrMap::new();
    v.insert("k".into(), vc_enum(&["3", "7"]));
    let spec = mkspec(v, vec![scalars(&["k"])]);
    assert!(spec.missing.is_empty(), "{:?}", spec.missing);

    let out = render(&spec, &det_max(), &mut rng()).unwrap();
    assert_eq!(lines_of(&out)[0], "7");
    let out = render(&spec, &det_min(), &mut rng()).unwrap();
    assert_eq!(lines_of(&out)[0], "3");
    for _ in 0..20 {
        let out = render(&spec, &random(), &mut rng()).unwrap();
        let val = lines_of(&out)[0].to_owned();
        assert!(val == "3" || val == "7", "{}", out);
    }
}

#[test]
fn chars_scalar_string_literal_len_resolves() {
    let mut v = StrMap::new();
    v.insert(
        "s".into(),
        VarConstraint {
            var_type: VarType::Chars,
            values: Some(vec!["a".into(), "b".into()]),
            len: Some(BoundRepr::Expr("4".into())),
            ..Default::default()
        },
    );
    let spec = mkspec(v, vec![scalars(&["s"])]);
    let out = render(&spec, &det_min(), &mut rng()).unwrap();
    assert_eq!(lines_of(&out)[0], "aaaa");
}

#[test]
fn chars_scalar_offset_len_resolves() {
    let mut v = StrMap::new();
    v.insert("n".into(), vc(5, 5));
    v.insert(
        "s".into(),
        VarConstraint {
            var_type: VarType::Chars,
            values: Some(vec!["a".into()]),
            len: Some(BoundRepr::Expr("n-1".into())),
            ..Default::default()
        },
    );
    let spec = mkspec(v, vec![scalars(&["n"]), scalars(&["s"])]);
    let out = render(&spec, &det_max(), &mut rng()).unwrap();
    let ls = lines_of(&out);
    assert_eq!(ls[0], "5");
    assert_eq!(ls[1], "aaaa");
}

#[test]
fn chars_scalar_oversize_aborts_before_allocating() {
    let mut v = StrMap::new();
    v.insert(
        "s".into(),
        VarConstraint {
            var_type: VarType::Chars,
            values: Some(vec!["a".to_owned()]),
            len: Some(BoundRepr::Lit((MAX_INPUT_ELEMENTS + 1) as i64)),
            ..Default::default()
        },
    );
    let spec = mkspec(v, vec![scalars(&["s"])]);
    match render(&spec, &det_max(), &mut rng()) {
        RenderResult::Abort(reason) => {
            assert!(reason.contains("input too large"), "{}", reason);
        }
        RenderResult::Ready(_) => panic!("oversize Chars scalar should not render"),
        RenderResult::Unsatisfied => panic!("oversize Chars scalar is not a constraint miss"),
        RenderResult::Interrupted => panic!("unexpected interrupt"),
    }
}

#[test]
fn int_array_oversize_aborts_before_allocating() {
    let mut v = StrMap::new();
    v.insert("a".into(), vc(1, 9));
    let spec = mkspec(
        v,
        vec![FormatBlock::Array(ArrayBlock {
            base: "a".into(),
            len: Some((MAX_INPUT_ELEMENTS + 1).to_string()),
            height: None,
            count: None,
            jagged: false,
        })],
    );
    match render(&spec, &det_max(), &mut rng()) {
        RenderResult::Abort(reason) => {
            assert!(reason.contains("input too large"), "{}", reason);
        }
        RenderResult::Ready(_) => panic!("oversize int array should not render"),
        RenderResult::Unsatisfied => panic!("oversize int array is not a constraint miss"),
        RenderResult::Interrupted => panic!("unexpected interrupt"),
    }
}

#[test]
fn test_cases_count_printed_once_and_body_repeats() {
    let mut v = StrMap::new();
    v.insert("t".into(), vc(1, 100));
    v.insert("x".into(), vc(1, 5));
    let spec = mkspec(
        v,
        vec![
            scalars(&["t"]),
            FormatBlock::TestCases(TestCasesBlock {
                count: "t".into(),
                format: vec![scalars(&["x"])],
            }),
        ],
    );
    let out = render(&spec, &det_max(), &mut rng()).unwrap();
    let ls = lines_of(&out);
    assert_eq!(ls[0], "100");
    assert_eq!(ls.len(), 1 + 100);
    assert!(ls[1..].iter().all(|l| *l == "5"));

    let small = render(
        &spec,
        &CaseStrategy::Random(RandomStrategy::SmallSize(2)),
        &mut rng(),
    )
    .unwrap();
    let ls = lines_of(&small);
    assert_eq!(ls[0], "2");
    assert_eq!(ls.len(), 1 + 2);
}

#[test]
fn one_d_int_array() {
    let mut v = StrMap::new();
    v.insert("n".into(), vc(1, 10));
    v.insert("a".into(), vc(1, 100));
    let spec = mkspec(
        v,
        vec![
            scalars(&["n"]),
            FormatBlock::Array(ArrayBlock {
                base: "a".into(),
                len: Some("n".into()),
                height: None,
                count: None,
                jagged: false,
            }),
        ],
    );
    let out = render(&spec, &det_max(), &mut rng()).unwrap();
    let ls = lines_of(&out);
    assert_eq!(ls[0], "10");
    let arr: Vec<i64> = ls[1]
        .split_whitespace()
        .map(|x| x.parse().unwrap())
        .collect();
    assert_eq!(arr.len(), 10);
    assert!(arr.iter().all(|&x| x == 100));
}

#[test]
fn two_d_int_grid() {
    let mut v = StrMap::new();
    v.insert("h".into(), vc(2, 4));
    v.insert("w".into(), vc(3, 3));
    v.insert("a".into(), vc(1, 9));
    let spec = mkspec(
        v,
        vec![
            scalars(&["h", "w"]),
            FormatBlock::Array(ArrayBlock {
                base: "a".into(),
                len: Some("w".into()),
                height: None,
                count: Some("h".into()),
                jagged: false,
            }),
        ],
    );
    let out = render(&spec, &det_max(), &mut rng()).unwrap();
    let ls = lines_of(&out);
    assert_eq!(ls[0], "4 3");
    assert_eq!(ls.len(), 1 + 4);
    for row in &ls[1..] {
        let r: Vec<i64> = row.split_whitespace().map(|x| x.parse().unwrap()).collect();
        assert_eq!(r.len(), 3);
        assert!(r.iter().all(|&x| x == 9));
    }
}

#[test]
fn two_d_altmaxmin_is_checkerboard() {
    let mut v = StrMap::new();
    v.insert("h".into(), vc(3, 3));
    v.insert("w".into(), vc(4, 4));
    v.insert("a".into(), vc(1, 9));
    let spec = mkspec(
        v,
        vec![
            scalars(&["h", "w"]),
            FormatBlock::Array(ArrayBlock {
                base: "a".into(),
                len: Some("w".into()),
                height: None,
                count: Some("h".into()),
                jagged: false,
            }),
        ],
    );
    let out = render(
        &spec,
        &CaseStrategy::Random(RandomStrategy::ArrayAltMaxMin),
        &mut rng(),
    )
    .unwrap();
    let ls = lines_of(&out);
    let grid: Vec<Vec<i64>> = ls[1..]
        .iter()
        .map(|r| r.split_whitespace().map(|x| x.parse().unwrap()).collect())
        .collect();
    // Adjacent rows differ at every column; rows two apart are identical.
    for c in 0..4 {
        assert_ne!(grid[0][c], grid[1][c]);
        assert_ne!(grid[1][c], grid[2][c]);
        assert_eq!(grid[0][c], grid[2][c]);
    }
}

#[test]
fn chars_1d_array() {
    let mut v = StrMap::new();
    v.insert("h".into(), vc(2, 2));
    v.insert(
        "s".into(),
        VarConstraint {
            var_type: VarType::Chars,
            values: Some(vec!["a".into(), "b".into(), "c".into()]),
            len: Some(BoundRepr::Lit(4)),
            ..Default::default()
        },
    );
    let spec = mkspec(
        v,
        vec![
            scalars(&["h"]),
            FormatBlock::Array(ArrayBlock {
                base: "s".into(),
                len: None,
                height: None,
                count: Some("h".into()),
                jagged: false,
            }),
        ],
    );
    let out = render(&spec, &det_min(), &mut rng()).unwrap();
    let ls = lines_of(&out);
    assert_eq!(ls[0], "2");
    assert_eq!(ls.len(), 1 + 2);
    assert!(ls[1..].iter().all(|l| *l == "aaaa"));
}

#[test]
fn chars_array_synthetic_length_is_sampled_per_string() {
    let mut v = StrMap::new();
    v.insert("|s|".into(), vc(1, 20));
    v.insert(
        "s".into(),
        VarConstraint {
            var_type: VarType::Chars,
            values: Some(vec!["a".into()]),
            len: Some(BoundRepr::Expr("|s|".into())),
            ..Default::default()
        },
    );
    let spec = mkspec(
        v,
        vec![FormatBlock::Array(ArrayBlock {
            base: "s".into(),
            len: None,
            height: None,
            count: Some("12".into()),
            jagged: false,
        })],
    );
    let out = render(&spec, &random(), &mut rng()).unwrap();
    let lengths: HashSet<usize> = lines_of(&out).iter().map(|s| s.len()).collect();
    assert!(lengths.len() > 1, "{}", out);
}

#[test]
fn chars_array_synthetic_length_with_height_is_sampled_per_string() {
    let mut v = StrMap::new();
    v.insert("|s|".into(), vc(1, 20));
    v.insert(
        "s".into(),
        VarConstraint {
            var_type: VarType::Chars,
            values: Some(vec!["a".into()]),
            len: Some(BoundRepr::Expr("|s|".into())),
            ..Default::default()
        },
    );
    let spec = mkspec(
        v,
        vec![FormatBlock::Array(ArrayBlock {
            base: "s".into(),
            len: None,
            height: Some("3".into()),
            count: Some("4".into()),
            jagged: false,
        })],
    );
    let out = render(&spec, &random(), &mut rng()).unwrap();
    let lengths: HashSet<usize> = lines_of(&out).iter().map(|s| s.len()).collect();
    assert!(lengths.len() > 1, "{}", out);
}

#[test]
fn repeated_chars_scalar_synthetic_length_is_sampled_per_string() {
    let mut v = StrMap::new();
    v.insert("t".into(), vc(12, 12));
    v.insert("|s|".into(), vc(1, 20));
    v.insert(
        "s".into(),
        VarConstraint {
            var_type: VarType::Chars,
            values: Some(vec!["a".into()]),
            len: Some(BoundRepr::Expr("|s|".into())),
            ..Default::default()
        },
    );
    let spec = mkspec(
        v,
        vec![
            scalars(&["t"]),
            FormatBlock::TestCases(TestCasesBlock {
                count: "t".into(),
                format: vec![scalars(&["s"])],
            }),
        ],
    );
    let out = render(&spec, &random(), &mut rng()).unwrap();
    let lines = lines_of(&out);
    assert_eq!(lines[0], "12");
    let lengths: HashSet<usize> = lines[1..].iter().map(|s| s.len()).collect();
    assert!(lengths.len() > 1, "{}", out);
}

#[test]
fn rows_chars_synthetic_length_is_sampled_per_string() {
    let mut v = StrMap::new();
    v.insert("|s|".into(), vc(1, 20));
    v.insert(
        "s".into(),
        VarConstraint {
            var_type: VarType::Chars,
            values: Some(vec!["a".into()]),
            len: Some(BoundRepr::Expr("|s|".into())),
            ..Default::default()
        },
    );
    let spec = mkspec(
        v,
        vec![FormatBlock::Rows(RowsBlock {
            vars: vec!["s".into()],
            len: "12".into(),
        })],
    );
    let out = render(&spec, &random(), &mut rng()).unwrap();
    let lengths: HashSet<usize> = lines_of(&out).iter().map(|s| s.len()).collect();
    assert!(lengths.len() > 1, "{}", out);
}

#[test]
fn rows_block_monoinc_columns_sorted() {
    let mut v = StrMap::new();
    v.insert("m".into(), vc(3, 3));
    v.insert("x".into(), vc(1, 100));
    v.insert("y".into(), vc(1, 100));
    let spec = mkspec(
        v,
        vec![
            scalars(&["m"]),
            FormatBlock::Rows(RowsBlock {
                vars: vec!["x".into(), "y".into()],
                len: "m".into(),
            }),
        ],
    );
    let out = render(
        &spec,
        &CaseStrategy::Random(RandomStrategy::ArrayMonoInc),
        &mut rng(),
    )
    .unwrap();
    let ls = lines_of(&out);
    assert_eq!(ls[0], "3");
    assert_eq!(ls.len(), 1 + 3);
    let col_x: Vec<i64> = ls[1..]
        .iter()
        .map(|r| r.split_whitespace().next().unwrap().parse().unwrap())
        .collect();
    assert!(col_x.windows(2).all(|w| w[0] <= w[1]));
    for r in &ls[1..] {
        assert_eq!(r.split_whitespace().count(), 2);
    }
}

#[test]
fn jagged_sum_limit_respected() {
    let mut v = StrMap::new();
    v.insert("n".into(), vc(2, 2));
    let mut lc = VarConstraint {
        var_type: VarType::Usize,
        range: Some([BoundRepr::Lit(1), BoundRepr::Expr("_".into())]),
        ..Default::default()
    };
    lc.sum_limit = Some(5);
    v.insert("l".into(), lc);
    v.insert("a".into(), vc(1, 9));
    let spec = mkspec(
        v,
        vec![
            scalars(&["n"]),
            FormatBlock::Array(ArrayBlock {
                base: "a".into(),
                len: Some("l".into()),
                height: None,
                count: Some("n".into()),
                jagged: true,
            }),
        ],
    );
    let out = render(&spec, &random(), &mut rng()).unwrap();
    let ls = lines_of(&out);
    assert_eq!(ls[0], "2");
    let mut sum = 0i64;
    for row in &ls[1..] {
        let toks: Vec<i64> = row.split_whitespace().map(|x| x.parse().unwrap()).collect();
        let li = toks[0];
        assert_eq!(toks.len() as i64, 1 + li);
        assert!(toks[1..].iter().all(|&e| (1..=9).contains(&e)));
        sum += li;
    }
    assert!(sum <= 5, "sum of row lengths {} exceeds limit", sum);
}

#[test]
fn two_d_distinct_per_row_only() {
    let mut v = StrMap::new();
    v.insert("h".into(), vc(2, 2));
    v.insert("w".into(), vc(5, 5));
    v.insert(
        "a".into(),
        VarConstraint {
            var_type: VarType::Usize,
            range: Some([BoundRepr::Lit(1), BoundRepr::Lit(5)]),
            all_distinct: true,
            ..Default::default()
        },
    );
    let spec = mkspec(
        v,
        vec![
            scalars(&["h", "w"]),
            FormatBlock::Array(ArrayBlock {
                base: "a".into(),
                len: Some("w".into()),
                height: None,
                count: Some("h".into()),
                jagged: false,
            }),
        ],
    );
    let out = render(&spec, &random(), &mut rng()).unwrap();
    let ls = lines_of(&out);
    for row in &ls[1..] {
        let mut r: Vec<i64> = row.split_whitespace().map(|x| x.parse().unwrap()).collect();
        assert_eq!(r.len(), 5);
        r.sort_unstable();
        r.dedup();
        assert_eq!(r.len(), 5, "row not distinct");
    }
}

#[test]
fn ordering_satisfied_for_random_and_none_for_impossible_corner() {
    let mut v = StrMap::new();
    v.insert("a".into(), vc(1, 10));
    v.insert("b".into(), vc(1, 10));
    let mut sec = RandomTestSection {
        vars: v,
        format: vec![scalars(&["a", "b"])],
        ..Default::default()
    };
    sec.ordering = vec![["a".into(), "b".into()]];
    let spec = resolve(&sec);
    for _ in 0..50 {
        let out = render(&spec, &random(), &mut rng()).unwrap();
        let toks: Vec<i64> = out
            .lines()
            .next()
            .unwrap()
            .split_whitespace()
            .map(|x| x.parse().unwrap())
            .collect();
        assert!(toks[0] <= toks[1]);
    }

    let mut v2 = StrMap::new();
    v2.insert("a".into(), vc(5, 5));
    v2.insert("b".into(), vc(1, 1));
    let mut sec2 = RandomTestSection {
        vars: v2,
        format: vec![scalars(&["a", "b"])],
        ..Default::default()
    };
    sec2.ordering = vec![["a".into(), "b".into()]];
    let spec2 = resolve(&sec2);
    assert!(render(&spec2, &det_max(), &mut rng()).is_none());
}

#[test]
fn impossible_random_constraints_abort_after_retry_budget() {
    let mut v = StrMap::new();
    v.insert("a".into(), vc(5, 5));
    v.insert("b".into(), vc(1, 1));
    let mut sec = RandomTestSection {
        vars: v,
        format: vec![scalars(&["a", "b"])],
        ..Default::default()
    };
    sec.ordering = vec![["a".into(), "b".into()]];
    let spec = resolve(&sec);

    match render(&spec, &random(), &mut rng()) {
        RenderResult::Abort(reason) => {
            assert!(reason.contains("100 attempts"), "{}", reason);
            assert!(reason.contains("ordering/not_equal"), "{}", reason);
        }
        RenderResult::Ready(input) => panic!("unexpected ready input: {}", input),
        RenderResult::Unsatisfied => panic!("plain Random must return an abort reason"),
        RenderResult::Interrupted => panic!("unexpected interrupt"),
    }
}

#[test]
fn ordering_narrows_array_elements_by_existing_scalar() {
    let mut v = StrMap::new();
    v.insert("n".into(), vc(3, 3));
    v.insert("a".into(), vc(1, 200_000));
    let mut sec = RandomTestSection {
        vars: v,
        format: vec![
            scalars(&["n"]),
            FormatBlock::Array(ArrayBlock {
                base: "a".into(),
                len: Some("n".into()),
                height: None,
                count: None,
                jagged: false,
            }),
        ],
        ..Default::default()
    };
    sec.ordering = vec![["a".into(), "n".into()]];
    let spec = resolve(&sec);

    for _ in 0..20 {
        let out = render(&spec, &random(), &mut rng()).unwrap();
        let ls = lines_of(&out);
        let n: i64 = ls[0].parse().unwrap();
        let vals: Vec<i64> = ls[1]
            .split_whitespace()
            .map(|x| x.parse().unwrap())
            .collect();
        assert!(vals.iter().all(|&x| x <= n), "{}", out);
    }
}

#[test]
fn scalar_not_equal_keeps_array_shape_strategy() {
    let mut v = StrMap::new();
    v.insert("x".into(), vc(10, 10));
    v.insert("a".into(), vc(1, 9));
    let mut sec = RandomTestSection {
        vars: v,
        format: vec![
            scalars(&["x"]),
            FormatBlock::Array(ArrayBlock {
                base: "a".into(),
                len: Some("5".into()),
                height: None,
                count: None,
                jagged: false,
            }),
        ],
        ..Default::default()
    };
    sec.not_equal = vec![["x".into(), "a".into()]];
    let spec = resolve(&sec);
    let out = render(
        &spec,
        &CaseStrategy::Random(RandomStrategy::ArrayMonoInc),
        &mut rng(),
    )
    .unwrap();
    let values: Vec<i64> = lines_of(&out)[1]
        .split_whitespace()
        .map(|x| x.parse().unwrap())
        .collect();
    assert!(values.windows(2).all(|w| w[0] <= w[1]), "{}", out);
    assert!(values.iter().all(|&x| x != 10), "{}", out);
}

#[test]
fn prior_array_narrows_later_scalar_lower_bound() {
    let mut v = StrMap::new();
    v.insert("a".into(), vc(7, 9));
    v.insert("x".into(), vc(1, 10));
    let mut sec = RandomTestSection {
        vars: v,
        format: vec![
            FormatBlock::Array(ArrayBlock {
                base: "a".into(),
                len: Some("3".into()),
                height: None,
                count: None,
                jagged: false,
            }),
            scalars(&["x"]),
        ],
        ..Default::default()
    };
    sec.ordering = vec![["a".into(), "x".into()]];
    let spec = resolve(&sec);

    for _ in 0..20 {
        let out = render(&spec, &random(), &mut rng()).unwrap();
        let ls = lines_of(&out);
        let vals: Vec<i64> = ls[0]
            .split_whitespace()
            .map(|x| x.parse().unwrap())
            .collect();
        let x: i64 = ls[1].parse().unwrap();
        assert!(vals.iter().all(|&a| a <= x), "{}", out);
    }
}

#[test]
fn prior_array_narrows_later_scalar_upper_bound() {
    let mut v = StrMap::new();
    v.insert("a".into(), vc(3, 5));
    v.insert("x".into(), vc(1, 10));
    let mut sec = RandomTestSection {
        vars: v,
        format: vec![
            FormatBlock::Array(ArrayBlock {
                base: "a".into(),
                len: Some("3".into()),
                height: None,
                count: None,
                jagged: false,
            }),
            scalars(&["x"]),
        ],
        ..Default::default()
    };
    sec.ordering = vec![["x".into(), "a".into()]];
    let spec = resolve(&sec);

    for _ in 0..20 {
        let out = render(&spec, &random(), &mut rng()).unwrap();
        let ls = lines_of(&out);
        let vals: Vec<i64> = ls[0]
            .split_whitespace()
            .map(|x| x.parse().unwrap())
            .collect();
        let x: i64 = ls[1].parse().unwrap();
        assert!(vals.iter().all(|&a| x <= a), "{}", out);
    }
}

#[test]
fn impossible_prior_array_bound_is_unsatisfied_or_aborted() {
    let mut v = StrMap::new();
    v.insert("a".into(), vc(9, 9));
    v.insert("x".into(), vc(1, 5));
    let mut sec = RandomTestSection {
        vars: v,
        format: vec![
            FormatBlock::Array(ArrayBlock {
                base: "a".into(),
                len: Some("2".into()),
                height: None,
                count: None,
                jagged: false,
            }),
            scalars(&["x"]),
        ],
        ..Default::default()
    };
    sec.ordering = vec![["a".into(), "x".into()]];
    let spec = resolve(&sec);

    assert!(render(&spec, &det_min(), &mut rng()).is_none());
    match render(&spec, &random(), &mut rng()) {
        RenderResult::Abort(reason) => {
            assert!(reason.contains("100 attempts"), "{}", reason)
        }
        RenderResult::Ready(input) => panic!("unexpected ready input: {}", input),
        RenderResult::Unsatisfied => panic!("plain Random must return an abort reason"),
        RenderResult::Interrupted => panic!("unexpected interrupt"),
    }
}

#[test]
fn prior_array_narrows_later_array_positionally() {
    let mut v = StrMap::new();
    v.insert("a".into(), vc(5, 9));
    v.insert("b".into(), vc(1, 9));
    let mut sec = RandomTestSection {
        vars: v,
        format: vec![
            FormatBlock::Array(ArrayBlock {
                base: "a".into(),
                len: Some("4".into()),
                height: None,
                count: None,
                jagged: false,
            }),
            FormatBlock::Array(ArrayBlock {
                base: "b".into(),
                len: Some("4".into()),
                height: None,
                count: None,
                jagged: false,
            }),
        ],
        ..Default::default()
    };
    sec.ordering = vec![["a".into(), "b".into()]];
    let spec = resolve(&sec);

    for _ in 0..20 {
        let out = render(&spec, &random(), &mut rng()).unwrap();
        let ls = lines_of(&out);
        let a: Vec<i64> = ls[0]
            .split_whitespace()
            .map(|x| x.parse().unwrap())
            .collect();
        let b: Vec<i64> = ls[1]
            .split_whitespace()
            .map(|x| x.parse().unwrap())
            .collect();
        assert!(a.iter().zip(&b).all(|(&x, &y)| x <= y), "{}", out);
    }
}

#[test]
fn prior_array_position_does_not_force_global_max_bound() {
    let mut v = StrMap::new();
    v.insert("a".into(), vc(1, 9));
    v.insert("b".into(), vc(1, 9));
    let mut sec = RandomTestSection {
        vars: v,
        format: vec![
            FormatBlock::Array(ArrayBlock {
                base: "a".into(),
                len: Some("3".into()),
                height: None,
                count: None,
                jagged: false,
            }),
            FormatBlock::Array(ArrayBlock {
                base: "b".into(),
                len: Some("3".into()),
                height: None,
                count: None,
                jagged: false,
            }),
        ],
        ..Default::default()
    };
    sec.ordering = vec![["a".into(), "b".into()]];
    let spec = resolve(&sec);

    let out = render(
        &spec,
        &CaseStrategy::Random(RandomStrategy::ArrayOneMaxRestMin),
        &mut rng(),
    )
    .unwrap();
    let ls = lines_of(&out);
    let a: Vec<i64> = ls[0]
        .split_whitespace()
        .map(|x| x.parse().unwrap())
        .collect();
    let b: Vec<i64> = ls[1]
        .split_whitespace()
        .map(|x| x.parse().unwrap())
        .collect();
    assert!(a.iter().zip(&b).all(|(&x, &y)| x <= y), "{}", out);
    assert!(
        b.iter().any(|&x| x < 9),
        "global max narrowing would force all b_i to 9: {}",
        out
    );
}

#[test]
fn impossible_prior_array_to_later_array_position_aborts() {
    let mut v = StrMap::new();
    v.insert("a".into(), vc(9, 9));
    v.insert("b".into(), vc(1, 5));
    let mut sec = RandomTestSection {
        vars: v,
        format: vec![
            FormatBlock::Array(ArrayBlock {
                base: "a".into(),
                len: Some("2".into()),
                height: None,
                count: None,
                jagged: false,
            }),
            FormatBlock::Array(ArrayBlock {
                base: "b".into(),
                len: Some("2".into()),
                height: None,
                count: None,
                jagged: false,
            }),
        ],
        ..Default::default()
    };
    sec.ordering = vec![["a".into(), "b".into()]];
    let spec = resolve(&sec);

    assert!(render(&spec, &det_min(), &mut rng()).is_none());
    match render(&spec, &random(), &mut rng()) {
        RenderResult::Abort(reason) => {
            assert!(reason.contains("100 attempts"), "{}", reason)
        }
        RenderResult::Ready(input) => panic!("unexpected ready input: {}", input),
        RenderResult::Unsatisfied => panic!("plain Random must return an abort reason"),
        RenderResult::Interrupted => panic!("unexpected interrupt"),
    }
}

#[test]
fn prior_rows_column_narrows_later_rows_column_positionally() {
    let mut v = StrMap::new();
    v.insert("a".into(), vc(4, 8));
    v.insert("b".into(), vc(1, 8));
    let mut sec = RandomTestSection {
        vars: v,
        format: vec![FormatBlock::Rows(RowsBlock {
            vars: vec!["a".into(), "b".into()],
            len: "4".into(),
        })],
        ..Default::default()
    };
    sec.ordering = vec![["a".into(), "b".into()]];
    let spec = resolve(&sec);

    for _ in 0..20 {
        let out = render(&spec, &random(), &mut rng()).unwrap();
        for row in lines_of(&out) {
            let vals: Vec<i64> = row.split_whitespace().map(|x| x.parse().unwrap()).collect();
            assert!(vals[0] <= vals[1], "{}", out);
        }
    }
}

#[test]
fn prior_rows_column_narrows_later_scalar() {
    let mut v = StrMap::new();
    v.insert("a".into(), vc(2, 6));
    v.insert("x".into(), vc(1, 10));
    let mut sec = RandomTestSection {
        vars: v,
        format: vec![
            FormatBlock::Rows(RowsBlock {
                vars: vec!["a".into()],
                len: "3".into(),
            }),
            scalars(&["x"]),
        ],
        ..Default::default()
    };
    sec.ordering = vec![["a".into(), "x".into()]];
    let spec = resolve(&sec);

    for _ in 0..20 {
        let out = render(&spec, &random(), &mut rng()).unwrap();
        let ls = lines_of(&out);
        let vals: Vec<i64> = ls[..3].iter().map(|x| x.parse().unwrap()).collect();
        let x: i64 = ls[3].parse().unwrap();
        assert!(vals.iter().all(|&a| a <= x), "{}", out);
    }
}

#[test]
fn iteration_reuses_and_restores_parent_array_context() {
    let mut vars = StrMap::new();
    vars.insert("a".into(), vc(5, 5));
    vars.insert("b".into(), vc(1, 10));
    vars.insert("x".into(), vc(1, 10));
    let iter_format = vec![
        scalars(&["x"]),
        FormatBlock::Array(ArrayBlock {
            base: "b".into(),
            len: Some("2".into()),
            height: None,
            count: None,
            jagged: false,
        }),
    ];
    let mut section = RandomTestSection {
        vars,
        format: copy_blocks(&iter_format),
        ..Default::default()
    };
    section.ordering = vec![["a".into(), "b".into()], ["a".into(), "x".into()]];
    let spec = resolve(&section);

    let mut arrays = StrMap::new();
    arrays.insert("a".to_string(), vec![5i64, 5, 5]);
    let mut context = RenderContext { scalars: StrMap::new(), strings: StrMap::new(), arrays };
    let checkpoint = context.checkpoint();
    let mut lines = Vec::new();
    let mut budget = Budget::new(MAX_INPUT_ELEMENTS);

    assert!(run_iteration(
        &iter_format,
        None,
        &spec,
        &random(),
        &StructuralSizes::new(),
        &mut context,
        &checkpoint,
        &mut lines,
        &mut budget,
        &mut rng(),
        &AtomicBool::new(false),
    )
    .unwrap());

    assert!(
        context.scalars.is_empty(),
        "iteration scalars must not leak to parent"
    );
    assert_eq!(context.arrays.get("a").unwrap(), &vec![5i64, 5, 5]);
    assert!(
        !context.arrays.contains_key("b"),
        "iteration arrays must not leak to parent"
    );
    assert!(lines[0].parse::<i64>().unwrap() >= 5);
    assert!(lines[1]
        .split_whitespace()
        .map(|x| x.parse::<i64>().unwrap())
        .all(|x| x >= 5));
}

#[test]
fn scope_crossing_ordering_narrows_inner_scalar() {
    let mut v = StrMap::new();
    v.insert("n".into(), vc(2, 2));
    v.insert("q".into(), vc(3, 3));
    v.insert("x".into(), vc(1, 200_000));
    let mut sec = RandomTestSection {
        vars: v,
        format: vec![
            scalars(&["n", "q"]),
            FormatBlock::TestCases(TestCasesBlock {
                count: "q".into(),
                format: vec![scalars(&["x"])],
            }),
        ],
        ..Default::default()
    };
    sec.ordering = vec![["x".into(), "n".into()]];
    let spec = resolve(&sec);

    let out = render(&spec, &random(), &mut rng()).unwrap();
    let ls = lines_of(&out);
    let header: Vec<i64> = ls[0]
        .split_whitespace()
        .map(|x| x.parse().unwrap())
        .collect();
    let n = header[0];
    for row in &ls[1..] {
        let x: i64 = row.parse().unwrap();
        assert!(x <= n, "{}", out);
    }
}

#[test]
fn chars_not_equal_checks_whole_string() {
    let mut v = StrMap::new();
    v.insert(
        "s".into(),
        VarConstraint {
            var_type: VarType::Chars,
            values: Some(vec!["a".into(), "b".into()]),
            len: Some(BoundRepr::Lit(4)),
            ..Default::default()
        },
    );
    v.insert(
        "t".into(),
        VarConstraint {
            var_type: VarType::Chars,
            values: Some(vec!["a".into(), "b".into()]),
            len: Some(BoundRepr::Lit(4)),
            ..Default::default()
        },
    );
    let mut sec = RandomTestSection {
        vars: v,
        format: vec![scalars(&["s", "t"])],
        ..Default::default()
    };
    sec.not_equal = vec![["s".into(), "t".into()]];
    let spec = resolve(&sec);

    for _ in 0..20 {
        let out = render(&spec, &random(), &mut rng()).unwrap();
        let toks: Vec<&str> = out.split_whitespace().collect();
        assert_eq!(toks.len(), 2);
        assert_ne!(toks[0], toks[1], "{}", out);
    }
}

#[test]
fn not_equal_satisfied_and_impossible_corner_none() {
    let mut v = StrMap::new();
    v.insert("a".into(), vc(1, 2));
    v.insert("b".into(), vc(1, 2));
    let mut sec = RandomTestSection {
        vars: v,
        format: vec![scalars(&["a", "b"])],
        ..Default::default()
    };
    sec.not_equal = vec![["a".into(), "b".into()]];
    let spec = resolve(&sec);
    for _ in 0..50 {
        let out = render(&spec, &random(), &mut rng()).unwrap();
        let toks: Vec<i64> = out
            .lines()
            .next()
            .unwrap()
            .split_whitespace()
            .map(|x| x.parse().unwrap())
            .collect();
        assert_ne!(toks[0], toks[1]);
    }

    let mut v2 = StrMap::new();
    v2.insert("a".into(), vc(3, 3));
    v2.insert("b".into(), vc(3, 3));
    let mut sec2 = RandomTestSection {
        vars: v2,
        format: vec![scalars(&["a", "b"])],
        ..Default::default()
    };
    sec2.not_equal = vec![["a".into(), "b".into()]];
    let spec2 = resolve(&sec2);
    assert!(render(&spec2, &det_min(), &mut rng()).is_none());
}

#[test]
fn scalar_not_equal_excludes_prior_array_values() {
    let mut v = StrMap::new();
    v.insert("a".into(), vc(1, 2));
    v.insert("x".into(), vc(1, 3));
    let mut sec = RandomTestSection {
        vars: v,
        format: vec![
            FormatBlock::Array(ArrayBlock {
                base: "a".into(),
                len: Some("2".into()),
                height: None,
                count: None,
                jagged: false,
            }),
            scalars(&["x"]),
        ],
        ..Default::default()
    };
    sec.not_equal = vec![["a".into(), "x".into()]];
    let spec = resolve(&sec);

    let out = render(&spec, &det_max(), &mut rng()).unwrap();
    let ls = lines_of(&out);
    assert_eq!(ls[0], "2 2");
    assert_eq!(ls[1], "3");
}

#[test]
fn array_not_equal_excludes_same_index_values() {
    let mut v = StrMap::new();
    v.insert("a".into(), vc(1, 2));
    v.insert("b".into(), vc(1, 2));
    let mut sec = RandomTestSection {
        vars: v,
        format: vec![
            FormatBlock::Array(ArrayBlock {
                base: "a".into(),
                len: Some("3".into()),
                height: None,
                count: None,
                jagged: false,
            }),
            FormatBlock::Array(ArrayBlock {
                base: "b".into(),
                len: Some("3".into()),
                height: None,
                count: None,
                jagged: false,
            }),
        ],
        ..Default::default()
    };
    sec.not_equal = vec![["a".into(), "b".into()]];
    let spec = resolve(&sec);

    let out = render(&spec, &det_max(), &mut rng()).unwrap();
    let ls = lines_of(&out);
    let a: Vec<i64> = ls[0]
        .split_whitespace()
        .map(|x| x.parse().unwrap())
        .collect();
    let b: Vec<i64> = ls[1]
        .split_whitespace()
        .map(|x| x.parse().unwrap())
        .collect();
    assert_eq!(a, vec![2, 2, 2]);
    assert_eq!(b, vec![1, 1, 1]);
    assert!(a.iter().zip(&b).all(|(&x, &y)| x != y), "{}", out);
}

#[test]
fn rows_not_equal_excludes_same_row_values() {
    let mut v = StrMap::new();
    v.insert("a".into(), vc(1, 2));
    v.insert("b".into(), vc(1, 2));
    let mut sec = RandomTestSection {
        vars: v,
        format: vec![FormatBlock::Rows(RowsBlock {
            vars: vec!["a".into(), "b".into()],
            len: "3".into(),
        })],
        ..Default::default()
    };
    sec.not_equal = vec![["a".into(), "b".into()]];
    let spec = resolve(&sec);

    let out = render(&spec, &det_max(), &mut rng()).unwrap();
    for row in lines_of(&out) {
        let vals: Vec<i64> = row.split_whitespace().map(|x| x.parse().unwrap()).collect();
        assert_ne!(vals[0], vals[1], "{}", out);
    }
}

#[test]
fn per_iteration_ordering_rejected_locally() {
    // a, b are produced inside each test case; ordering a <= b must hold
    // per iteration even though they never reach the top context.
    let mut v = StrMap::new();
    v.insert("t".into(), vc(2, 2));
    v.insert("a".into(), vc(1, 10));
    v.insert("b".into(), vc(1, 10));
    let mut sec = RandomTestSection {
        vars: v,
        format: vec![
            scalars(&["t"]),
            FormatBlock::TestCases(TestCasesBlock {
                count: "t".into(),
                format: vec![scalars(&["a", "b"])],
            }),
        ],
        ..Default::default()
    };
    sec.ordering = vec![["a".into(), "b".into()]];
    let spec = resolve(&sec);
    let out = render(&spec, &random(), &mut rng()).unwrap();
    let ls = lines_of(&out);
    assert_eq!(ls[0], "2");
    assert_eq!(ls.len(), 1 + 2);
    for row in &ls[1..] {
        let toks: Vec<i64> = row.split_whitespace().map(|x| x.parse().unwrap()).collect();
        assert!(toks[0] <= toks[1], "per-iteration ordering violated");
    }

    // Impossible per-iteration constraint under a corner strategy → None.
    let mut v2 = StrMap::new();
    v2.insert("t".into(), vc(1, 1));
    v2.insert("a".into(), vc(5, 5));
    v2.insert("b".into(), vc(1, 1));
    let mut sec2 = RandomTestSection {
        vars: v2,
        format: vec![
            scalars(&["t"]),
            FormatBlock::TestCases(TestCasesBlock {
                count: "t".into(),
                format: vec![scalars(&["a", "b"])],
            }),
        ],
        ..Default::default()
    };
    sec2.ordering = vec![["a".into(), "b".into()]];
    let spec2 = resolve(&sec2);
    assert!(render(&spec2, &det_min(), &mut rng()).is_none());
}

#[test]
fn queries_emit_id_token_and_no_count_line() {
    let mut v = StrMap::new();
    v.insert("q".into(), vc(2, 2));
    v.insert("x".into(), vc(1, 5));
    v.insert("y".into(), vc(1, 5));
    let spec = mkspec(
        v,
        vec![
            scalars(&["q"]),
            FormatBlock::Queries(QueriesBlock {
                count: "q".into(),
                discriminator: None,
                types: vec![
                    QueryBranch {
                        id: "1".into(),
                        format: vec![scalars(&["x"])],
                    },
                    QueryBranch {
                        id: "2".into(),
                        format: vec![scalars(&["y"])],
                    },
                ],
            }),
        ],
    );
    let out = render(&spec, &random(), &mut rng()).unwrap();
    let ls = lines_of(&out);
    assert_eq!(ls[0], "2");
    assert_eq!(ls.len(), 1 + 2);
    for q in &ls[1..] {
        let toks: Vec<&str> = q.split_whitespace().collect();
        assert_eq!(toks.len(), 2);
        assert!(toks[0] == "1" || toks[0] == "2");
        assert!(toks[1].parse::<i64>().is_ok());
    }
}

#[test]
fn nested_strings_and_grids_keep_charsets_and_ranges() {
    let mut v = StrMap::new();
    v.insert("t".into(), vc(2, 3));
    v.insert("h".into(), vc(1, 3));
    v.insert(
        "s".into(),
        VarConstraint {
            var_type: VarType::Chars,
            values: Some(vec!["x".into(), "y".into()]),
            len: Some(BoundRepr::Lit(3)),
            ..Default::default()
        },
    );
    v.insert("g".into(), vc(7, 9));
    let spec = mkspec(
        v,
        vec![
            scalars(&["t"]),
            FormatBlock::TestCases(TestCasesBlock {
                count: "t".into(),
                format: vec![
                    scalars(&["h", "s"]),
                    FormatBlock::Array(ArrayBlock {
                        base: "g".into(),
                        len: Some("h".into()),
                        height: Some("h".into()),
                        count: None,
                        jagged: false,
                    }),
                ],
            }),
        ],
    );
    for _ in 0..5 {
        let out = render(&spec, &random(), &mut rng()).unwrap();
        let ls = lines_of(&out);
        let t: usize = ls[0].parse().unwrap();
        assert!((2..=3).contains(&t));
        let mut at = 1;
        for _ in 0..t {
            let head: Vec<&str> = ls[at].split(' ').collect();
            assert_eq!(head.len(), 2);
            let h: usize = head[0].parse().unwrap();
            assert!((1..=3).contains(&h));
            assert_eq!(head[1].len(), 3);
            assert!(head[1].chars().all(|c| c == 'x' || c == 'y'));
            for r in 0..h {
                let xs: Vec<i64> = ls[at + 1 + r].split(' ').map(|x| x.parse().unwrap()).collect();
                assert_eq!(xs.len(), h);
                assert!(xs.iter().all(|x| (7..=9).contains(x)));
            }
            at += 1 + h;
        }
        assert_eq!(ls.len(), at);
    }
}
