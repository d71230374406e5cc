use compete_spec::maps::StrMap;
use compete_spec::parse::types::{
    ArrayBlock, BoundRepr, FormatBlock, QueriesBlock, QueryBranch, RandomTestSection, RowsBlock, ScalarsBlock,
    TestCasesBlock, VarConstraint, VarType,
};
use compete_spec::random_test::cases::{generate_cases_with_rng, GenerateOutcome};
use compete_spec::random_test::spec::resolve;
use rand::rngs::SmallRng;
use rand::SeedableRng as _;
use std::sync::atomic::AtomicBool;

fn seeded() -> SmallRng {
    SmallRng::seed_from_u64(0xC0FFEE)
}

fn generate(section: &RandomTestSection, count: u32, rng: &mut SmallRng) -> GenerateOutcome {
    generate_cases_with_rng(section, count, rng, &AtomicBool::new(false))
}

fn vc(lo: i64, hi: i64) -> VarConstraint {
    VarConstraint {
        var_type: VarType::Usize,
        range: Some([BoundRepr::Lit(lo), BoundRepr::Lit(hi)]),
        values: None,
        len: None,
        sum_limit: None,
        all_distinct: false,
    }
}

fn section_with(vars: Vec<(&str, VarConstraint)>, format: Vec<FormatBlock>) -> RandomTestSection {
    let mut m = StrMap::new();
    for (k, v) in vars {
        m.insert(k.to_owned(), v);
    }
    RandomTestSection { vars: m, format, ordering: vec![], not_equal: vec![], skipped: vec![] }
}

/// `n` scalars + a 1D int array `a[n]`, all bounds present.
fn simple_section() -> RandomTestSection {
    section_with(
        vec![("n", vc(1, 5)), ("a", vc(0, 9))],
        vec![
            FormatBlock::Scalars(ScalarsBlock { vars: vec!["n".to_owned()] }),
            FormatBlock::Array(ArrayBlock {
                base: "a".to_owned(),
                len: Some("n".to_owned()),
                height: None,
                count: None,
                jagged: false,
            }),
        ],
    )
}

#[test]
fn missing_aborts_with_reasons() {
    // `n` has no range and no values → recorded in spec.missing.
    let mut bad = vc(0, 0);
    bad.range = None;
    let section = section_with(
        vec![("n", bad)],
        vec![FormatBlock::Scalars(ScalarsBlock {
            vars: vec!["n".to_owned()],
        })],
    );
    let mut rng = seeded();
    match generate(&section, 5, &mut rng) {
        GenerateOutcome::Aborted { reasons } => {
            let resolved = resolve(&section);
            assert!(!reasons.is_empty());
            assert_eq!(reasons, resolved.missing);
        }
        GenerateOutcome::Ready { .. } => panic!("expected Aborted"),
        GenerateOutcome::Interrupted => panic!("unexpected interrupt"),
    }
}

#[test]
fn all_cases_emitted() {
    let section = simple_section();
    let mut rng = seeded();
    match generate(&section, 5, &mut rng) {
        GenerateOutcome::Ready { cases, .. } => {
            assert_eq!(cases.len(), 5);
            assert!(cases.iter().all(|(_, i)| !i.is_empty()));
            // Names contiguous 1.. within each family.
            let mut c = 0;
            let mut r = 0;
            for (name, _) in &cases {
                if let Some(n) = name.strip_prefix("corner") {
                    c += 1;
                    assert_eq!(n.parse::<u32>().unwrap(), c);
                } else if let Some(n) = name.strip_prefix("random") {
                    r += 1;
                    assert_eq!(n.parse::<u32>().unwrap(), r);
                } else {
                    panic!("unexpected name {}", name);
                }
            }
        }
        GenerateOutcome::Aborted { reasons } => panic!("aborted: {:?}", reasons),
        GenerateOutcome::Interrupted => panic!("unexpected interrupt"),
    }
}

#[test]
fn impossible_corner_dropped() {
    // a in [5,5], b in [1,1], require a <= b → no corner can satisfy it,
    // but Random retries unboundedly... it also cannot. So ordering must be
    // satisfiable by Random: use a in [1,5], b in [1,5], a <= b (feasible),
    // and an impossible-for-corner pair via not_equal on a fixed var.
    let section = RandomTestSection {
        vars: {
            let mut m = StrMap::new();
            m.insert("a".to_owned(), vc(1, 5));
            m.insert("b".to_owned(), vc(1, 5));
            m
        },
        format: vec![FormatBlock::Scalars(ScalarsBlock {
            vars: vec!["a".to_owned(), "b".to_owned()],
        })],
        ordering: vec![["a".to_owned(), "b".to_owned()]],
        not_equal: vec![],
        skipped: vec![],
    };
    let mut rng = seeded();
    match generate(&section, 30, &mut rng) {
        GenerateOutcome::Ready { cases, .. } => {
            // Every emitted case must satisfy a <= b.
            for (_name, input) in &cases {
                let nums: Vec<i64> = input
                    .split_whitespace()
                    .map(|x| x.parse().unwrap())
                    .collect();
                assert!(nums[0] <= nums[1], "{}: {:?}", _name, input);
            }
        }
        GenerateOutcome::Aborted { reasons } => panic!("aborted: {:?}", reasons),
        GenerateOutcome::Interrupted => panic!("unexpected interrupt"),
    }
}

#[test]
fn exact_count_even_when_corners_fail() {
    // Same shape as `impossible_corner_dropped`: ordering a<=b makes some
    // corner strategies unsatisfiable, but the spec is feasible for plain
    // Random. The emitted total must still equal the requested count.
    let section = RandomTestSection {
        vars: {
            let mut m = StrMap::new();
            m.insert("a".to_owned(), vc(1, 5));
            m.insert("b".to_owned(), vc(1, 5));
            m
        },
        format: vec![FormatBlock::Scalars(ScalarsBlock {
            vars: vec!["a".to_owned(), "b".to_owned()],
        })],
        ordering: vec![["a".to_owned(), "b".to_owned()]],
        not_equal: vec![],
        skipped: vec![],
    };
    for &c in &[1u32, 5, 30] {
        let mut rng = seeded();
        match generate(&section, c, &mut rng) {
            GenerateOutcome::Ready { cases, .. } => {
                assert_eq!(cases.len(), c as usize, "count {c}");
            }
            GenerateOutcome::Aborted { reasons } => panic!("aborted: {:?}", reasons),
            GenerateOutcome::Interrupted => panic!("unexpected interrupt"),
        }
    }
}

#[test]
fn count_zero_emits_nothing() {
    let mut rng = seeded();
    match generate(&simple_section(), 0, &mut rng) {
        GenerateOutcome::Ready { cases, .. } => {
            assert!(cases.is_empty());
        }
        GenerateOutcome::Aborted { reasons } => panic!("aborted: {:?}", reasons),
        GenerateOutcome::Interrupted => panic!("unexpected interrupt"),
    }
}

#[test]
fn skipped_passthrough() {
    let mut section = simple_section();
    section.skipped = vec!["foo is an integer".to_owned()];
    let mut rng = seeded();
    match generate(&section, 3, &mut rng) {
        GenerateOutcome::Ready { skipped, .. } => {
            assert_eq!(skipped, vec!["foo is an integer".to_owned()]);
        }
        GenerateOutcome::Aborted { reasons } => panic!("aborted: {:?}", reasons),
        GenerateOutcome::Interrupted => panic!("unexpected interrupt"),
    }
}

#[test]
fn plain_format_cases_are_the_values_in_range() {
    let section = simple_section();
    let mut rng = seeded();
    match generate(&section, 8, &mut rng) {
        GenerateOutcome::Ready { cases, .. } => {
            assert_eq!(cases.len(), 8);
            for (_, input) in &cases {
                assert!(input.ends_with('\n'));
                let lines: Vec<&str> = input.trim_end_matches('\n').split('\n').collect();
                assert_eq!(lines.len(), 2);
                let n: i64 = lines[0].parse().unwrap();
                assert!((1..=5).contains(&n));
                let xs: Vec<i64> = lines[1].split(' ').map(|t| t.parse().unwrap()).collect();
                assert_eq!(xs.len() as i64, n);
                assert!(xs.iter().all(|x| (0..=9).contains(x)));
            }
        }
        GenerateOutcome::Aborted { reasons } => panic!("aborted: {:?}", reasons),
        GenerateOutcome::Interrupted => panic!("unexpected interrupt"),
    }
}

#[test]
fn repeated_cases_values_stay_in_range() {
    let section = section_with(
        vec![("t", vc(1, 3)), ("n", vc(1, 4)), ("a", vc(5, 7))],
        vec![
            FormatBlock::Scalars(ScalarsBlock { vars: vec!["t".to_owned()] }),
            FormatBlock::TestCases(TestCasesBlock {
                count: "t".to_owned(),
                format: vec![
                    FormatBlock::Scalars(ScalarsBlock { vars: vec!["n".to_owned()] }),
                    FormatBlock::Array(ArrayBlock {
                        base: "a".to_owned(),
                        len: Some("n".to_owned()),
                        height: None,
                        count: None,
                        jagged: false,
                    }),
                ],
            }),
        ],
    );
    let mut rng = seeded();
    match generate(&section, 6, &mut rng) {
        GenerateOutcome::Ready { cases, .. } => {
            assert_eq!(cases.len(), 6);
            for (_, input) in &cases {
                let lines: Vec<&str> = input.trim_end_matches('\n').split('\n').collect();
                let t: usize = lines[0].parse().unwrap();
                assert!((1..=3).contains(&t));
                assert_eq!(lines.len(), 1 + 2 * t);
                for c in 0..t {
                    let n: usize = lines[1 + 2 * c].parse().unwrap();
                    assert!((1..=4).contains(&n));
                    let xs: Vec<i64> = lines[2 + 2 * c].split(' ').map(|x| x.parse().unwrap()).collect();
                    assert_eq!(xs.len(), n);
                    assert!(xs.iter().all(|x| (5..=7).contains(x)));
                }
            }
        }
        GenerateOutcome::Aborted { reasons } => panic!("aborted: {:?}", reasons),
        GenerateOutcome::Interrupted => panic!("unexpected interrupt"),
    }
}

#[test]
fn rows_and_queries_values_stay_in_range() {
    let section = section_with(
        vec![("m", vc(1, 3)), ("u", vc(10, 12)), ("w", vc(20, 21)), ("q", vc(1, 3)), ("x", vc(40, 44))],
        vec![
            FormatBlock::Scalars(ScalarsBlock { vars: vec!["m".to_owned()] }),
            FormatBlock::Rows(RowsBlock { vars: vec!["u".to_owned(), "w".to_owned()], len: "m".to_owned() }),
            FormatBlock::Scalars(ScalarsBlock { vars: vec!["q".to_owned()] }),
            FormatBlock::Queries(QueriesBlock {
                count: "q".to_owned(),
                discriminator: None,
                types: vec![QueryBranch {
                    id: "1".to_owned(),
                    format: vec![FormatBlock::Scalars(ScalarsBlock { vars: vec!["x".to_owned()] })],
                }],
            }),
        ],
    );
    let mut rng = seeded();
    match generate(&section, 6, &mut rng) {
        GenerateOutcome::Ready { cases, .. } => {
            assert_eq!(cases.len(), 6);
            for (_, input) in &cases {
                let lines: Vec<&str> = input.trim_end_matches('\n').split('\n').collect();
                let m: usize = lines[0].parse().unwrap();
                assert!((1..=3).contains(&m));
                for r in 0..m {
                    let cells: Vec<i64> = lines[1 + r].split(' ').map(|x| x.parse().unwrap()).collect();
                    assert_eq!(cells.len(), 2);
                    assert!((10..=12).contains(&cells[0]));
                    assert!((20..=21).contains(&cells[1]));
                }
                let q: usize = lines[1 + m].parse().unwrap();
                assert!((1..=3).contains(&q));
                assert_eq!(lines.len(), 2 + m + q);
                for k in 0..q {
                    let parts: Vec<&str> = lines[2 + m + k].split(' ').collect();
                    assert_eq!(parts.len(), 2);
                    assert_eq!(parts[0], "1");
                    let x: i64 = parts[1].parse().unwrap();
                    assert!((40..=44).contains(&x));
                }
            }
        }
        GenerateOutcome::Aborted { reasons } => panic!("aborted: {:?}", reasons),
        GenerateOutcome::Interrupted => panic!("unexpected interrupt"),
    }
}
