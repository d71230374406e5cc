use compete_spec::maps::StrMap;
use compete_spec::parse::types::{ArrayBlock, BoundRepr, FormatBlock, RandomTestSection, VarConstraint, VarType};
use compete_spec::random_test::pick::gen_int_array_with_positional_bounds;
use compete_spec::random_test::spec::resolve;
use compete_spec::random_test::strategy::{CaseStrategy, RandomStrategy};
use rand::rngs::SmallRng;
use rand::SeedableRng as _;
use std::collections::HashSet;
use std::sync::atomic::AtomicBool;
use std::time::{Duration, Instant};

#[test]
fn distinct_inter_array_scale_stays_near_linear() {

    let m = 300_000usize;
    let n = 300_000i64;
    let distinct_var = VarConstraint {
        var_type: VarType::Usize,
        range: Some([BoundRepr::Lit(1), BoundRepr::Lit(n)]),
        all_distinct: true,
        ..Default::default()
    };
    let mut vars = StrMap::new();
    vars.insert("x".into(), distinct_var.clone());
    vars.insert("y".into(), distinct_var);
    let mut section = RandomTestSection {
        vars,
        format: vec![
            FormatBlock::Array(ArrayBlock {
                base: "x".into(),
                len: Some("m".into()),
                height: None,
                count: None,
                jagged: false,
            }),
            FormatBlock::Array(ArrayBlock {
                base: "y".into(),
                len: Some("m".into()),
                height: None,
                count: None,
                jagged: false,
            }),
        ],
        ..Default::default()
    };
    section.ordering = vec![["x".into(), "n".into()], ["y".into(), "n".into()]];
    section.not_equal = vec![["x".into(), "y".into()]];
    let spec = resolve(&section);
    assert!(spec.inter_array_constrained.contains("y"));

    let mut ctx: StrMap<i64> = StrMap::new();
    ctx.insert("n".into(), n);
    let mut array_ctx: StrMap<Vec<i64>> = StrMap::new();
    array_ctx.insert("x".into(), (1..=n).collect());

    let mut rng = SmallRng::seed_from_u64(0xABC435);
    let start = Instant::now();
    let y = gen_int_array_with_positional_bounds(
        &CaseStrategy::Random(RandomStrategy::Random),
        "y",
        1,
        n,
        m,
        None,
        true,
        &spec,
        &ctx,
        &array_ctx,
        0,
        &mut rng,
        &AtomicBool::new(false),
    )
    .expect("distinct y with x[i] != y[i] must be generatable");
    let elapsed = start.elapsed();

    assert!(
        elapsed < Duration::from_secs(20),
        "generation took {:?}; expected near-linear (whole-array) time",
        elapsed
    );
    assert_eq!(y.len(), m);
    assert_eq!(y.iter().copied().collect::<HashSet<_>>().len(), m, "y must stay all_distinct");
    for (i, &v) in y.iter().enumerate() {
        assert!((1..=n).contains(&v), "y[{}] = {} out of [1, {}]", i, v, n);
        assert_ne!(v, (i as i64) + 1, "y[{}] must differ from x[{}]", i, i);
    }
}
