use compete_spec::maps::{PairSet, StrMap};
use compete_spec::parse::bounds::BoundExpr;
use compete_spec::parse::constraint_parse::{ConstraintParse, StrSpec};
use compete_spec::parse::enrich::{
    canonicalize_chars_array_dimensions, enrich_section_with_constraints, task_to_format_blocks,
};
use compete_spec::parse::range_bounds::apply_ordering_range_bounds;
use compete_spec::parse::task::apply_sum_count_bounds;
use compete_spec::parse::types::{
    find_jagged_array, hi_of, lit_range, scalars, sect, vc, ArrayBlock, BoundRepr, FormatBlock, RandomTestSection, ScalarsBlock,
    TaskSection, TestCasesBlock, VarConstraint, VarType,
};

fn typed(t: VarType) -> VarConstraint {
    let mut v = VarConstraint::new();
    v.var_type = t;
    v
}

fn pairs(ps: &[(&str, &str)]) -> PairSet {
    let mut s = PairSet::new();
    for (a, b) in ps {
        s.insert((a.to_string(), b.to_string()));
    }
    s
}

fn section_of(vars: Vec<(&str, VarConstraint)>, format: Vec<FormatBlock>) -> RandomTestSection {
    let mut s = RandomTestSection::new();
    for (k, v) in vars {
        s.vars.insert(k.to_string(), v);
    }
    s.format = format;
    s
}

fn array(base: &str, len: Option<&str>, count: Option<&str>, jagged: bool) -> FormatBlock {
    FormatBlock::Array(ArrayBlock {
        base: base.into(),
        len: len.map(|s| s.to_string()),
        height: None,
        count: count.map(|s| s.to_string()),
        jagged,
    })
}

fn pair(a: &str, b: &str) -> [String; 2] {
    [a.to_string(), b.to_string()]
}

#[test]
fn constraint_pair_filters_match_random_generation_scope() {
    let mut parsed = ConstraintParse::new();
    parsed.var_le = pairs(&[("n", "m"), ("m", "p"), ("s", "t"), ("n", "s")]);
    parsed.var_ne = pairs(&[("n", "m"), ("s", "t"), ("n", "s")]);

    let mut section = section_of(
        vec![
            ("n", typed(VarType::Usize)),
            ("m", typed(VarType::I64)),
            ("p", typed(VarType::Usize)),
            ("s", typed(VarType::Chars)),
            ("t", typed(VarType::Chars)),
        ],
        vec![],
    );

    enrich_section_with_constraints(&parsed, &mut section);

    assert_eq!(section.ordering, vec![pair("m", "p"), pair("n", "m"), pair("n", "p")]);
    assert_eq!(section.not_equal, vec![pair("n", "m"), pair("s", "t")]);
}

#[test]
fn constraint_pair_shape_filters_match_requirements() {
    let mut parsed = ConstraintParse::new();
    parsed.var_le = pairs(&[("a", "b"), ("j", "b")]);
    parsed.var_ne = pairs(&[("a", "b"), ("j", "b"), ("s", "t"), ("u", "v")]);

    let mut vars = Vec::new();
    for name in ["a", "b", "j"] {
        vars.push((name, typed(VarType::Usize)));
    }
    for name in ["s", "t", "u", "v"] {
        vars.push((name, typed(VarType::Chars)));
    }
    let mut section = section_of(
        vars,
        vec![
            FormatBlock::Scalars(ScalarsBlock { vars: vec!["s".into(), "t".into()] }),
            array("a", Some("n"), None, false),
            array("b", Some("n"), None, false),
            array("j", Some("l"), Some("n"), true),
            array("u", None, Some("n"), false),
            array("v", None, Some("n"), false),
        ],
    );

    enrich_section_with_constraints(&parsed, &mut section);

    assert_eq!(section.ordering, vec![pair("a", "b")]);
    assert_eq!(section.not_equal, vec![pair("a", "b"), pair("s", "t")]);
}

#[test]
fn not_equal_only_index_names_are_not_emitted_as_vars_or_pairs() {
    let task = TaskSection {
        letter: "F".into(),
        input_blocks: vec![vec!["N".into(), "X_1 Y_1".into(), r"\vdots".into(), "X_N Y_N".into()]],
        constraints_items: vec![
            r"1 \leq N \leq 6 \times 10^4".into(),
            r"0 \leq X_i \leq 2 \times 10^7".into(),
            r"0 \leq Y_i \leq 2 \times 10^7".into(),
            r"i \neq j ならば (X_i,Y_i) \neq (X_j,Y_j)".into(),
        ],
    };

    let section = task_to_format_blocks(&task);
    assert!(section.vars.contains_key("n"));
    assert!(section.vars.contains_key("x"));
    assert!(section.vars.contains_key("y"));
    assert!(!section.vars.contains_key("i"));
    assert!(!section.vars.contains_key("j"));
    assert!(!section.not_equal.contains(&pair("i", "j")));
}

#[test]
fn not_equal_before_later_ranges_is_still_emitted() {
    let task = TaskSection {
        letter: "A".into(),
        input_blocks: vec![vec!["N".into(), "A_1 B_1".into(), r"\vdots".into(), "A_N B_N".into()]],
        constraints_items: vec![
            r"A_i \neq B_i".into(),
            r"1 \leq N \leq 10".into(),
            r"0 \leq A_i,B_i \leq N".into(),
        ],
    };

    let section = task_to_format_blocks(&task);
    assert!(section.vars.contains_key("a"));
    assert!(section.vars.contains_key("b"));
    assert!(section.not_equal.contains(&pair("a", "b")));
    assert!(section.ordering.contains(&pair("a", "n")));
    assert!(section.ordering.contains(&pair("b", "n")));
}

#[test]
fn ordering_ranges_are_materialized_from_persisted_pairs() {
    let ranged = |lo: i64, hi: i64| {
        let mut v = typed(VarType::Usize);
        v.range = lit_range(lo, hi);
        v
    };
    let mut section = section_of(vec![("a", ranged(1, 1_000)), ("b", ranged(0, 500)), ("c", ranged(0, 100))], vec![]);
    section.ordering = vec![pair("a", "b"), pair("b", "c")];

    apply_ordering_range_bounds(&mut section);

    assert_eq!(section.vars.get("a").unwrap().range, lit_range(1, 100));
    assert_eq!(section.vars.get("b").unwrap().range, lit_range(1, 100));
    assert_eq!(section.vars.get("c").unwrap().range, lit_range(1, 100));
}

#[test]
fn pipe_wrapped_chars_length_var_is_lowercase_usize_with_sum_limit() {
    let mut parsed = ConstraintParse::new();
    parsed.str_vars.insert(
        "a".into(),
        StrSpec { charset: vec!['x'], len_lo: Some(BoundExpr::Lit(1)), len_hi: Some(BoundExpr::Lit(2_000_000)) },
    );
    parsed.sum_limits.insert("|a|".into(), 2_000_000);

    let mut a = typed(VarType::Chars);
    a.values = Some(vec!["x".into()]);
    let mut section = section_of(vec![("a", a)], vec![FormatBlock::Scalars(ScalarsBlock { vars: vec!["a".into()] })]);

    enrich_section_with_constraints(&parsed, &mut section);

    let a = section.vars.get("a").expect("a");
    assert_eq!(a.len, Some(BoundRepr::Expr("|a|".into())));

    let len = section.vars.get("|a|").expect("|a|");
    assert_eq!(len.var_type, VarType::Usize);
    assert_eq!(len.sum_limit, Some(2_000_000));
    assert_eq!(len.range, lit_range(1, 2_000_000));
}

#[test]
fn chars_dimension_mapping_depends_on_type_not_base_name() {
    let mut vars: StrMap<VarConstraint> = StrMap::new();
    let mut word = typed(VarType::Chars);
    word.len = Some(BoundRepr::Expr("1".into()));
    vars.insert("word".to_string(), word);
    let mut blocks = vec![array("word", Some("w"), Some("h"), false)];

    canonicalize_chars_array_dimensions(&mut blocks, &mut vars);

    assert_eq!(vars.get("word").unwrap().len, Some(BoundRepr::Expr("w".into())));
    match &blocks[0] {
        FormatBlock::Array(array) => {
            assert_eq!(array.len, None);
            assert_eq!(array.count.as_deref(), Some("h"));
        }
        other => panic!("expected array, got {:?}", other),
    }
}

// ─── count bounds entailed by sum limits ────────────────────────────────────

fn test_cases(count: &str, format: Vec<FormatBlock>) -> FormatBlock {
    FormatBlock::TestCases(TestCasesBlock { count: count.into(), format })
}

#[test]
fn testcases_count_derived_from_sum_limit() {
    let mut s = sect(
        vec![("q", vc(1, None, None)), ("n", vc(3, Some(200_000), Some(200_000)))],
        vec![test_cases("q", vec![scalars(&["n"])])],
    );
    apply_sum_count_bounds(&mut s);
    assert_eq!(hi_of(&s, "q"), BoundRepr::Lit(66_666));
}

#[test]
fn jagged_count_derived_and_range_created() {
    let mut k = vc(1, None, Some(5000));
    k.range = Some([BoundRepr::Lit(1), BoundRepr::Expr("_".into())]);
    let mut m = VarConstraint::new();
    m.range = None;
    let mut s = sect(vec![("m", m), ("k", k)], vec![array("a", Some("k"), Some("m"), true)]);
    apply_sum_count_bounds(&mut s);
    assert_eq!(s.vars.get("m").unwrap().range, Some([BoundRepr::Lit(0), BoundRepr::Lit(5000)]));
}

#[test]
fn explicit_upper_bound_preserved() {
    let mut s = sect(
        vec![("q", vc(1, Some(50), None)), ("n", vc(3, Some(200_000), Some(200_000)))],
        vec![test_cases("q", vec![scalars(&["n"])])],
    );
    apply_sum_count_bounds(&mut s);
    assert_eq!(hi_of(&s, "q"), BoundRepr::Lit(50));
}

#[test]
fn size_var_lo_zero_not_derived() {
    let mut s = sect(
        vec![("q", vc(1, None, None)), ("n", vc(0, Some(200_000), Some(200_000)))],
        vec![test_cases("q", vec![scalars(&["n"])])],
    );
    apply_sum_count_bounds(&mut s);
    assert_eq!(hi_of(&s, "q"), BoundRepr::Expr("_".into()));
}

#[test]
fn multiple_size_vars_take_min() {
    let mut s = sect(
        vec![
            ("q", vc(1, None, None)),
            ("n", vc(10, None, Some(1_000_000_000))),
            ("p", vc(2, None, Some(200_000))),
        ],
        vec![test_cases("q", vec![scalars(&["n", "p"])])],
    );
    apply_sum_count_bounds(&mut s);
    assert_eq!(hi_of(&s, "q"), BoundRepr::Lit(100_000));
}

#[test]
fn contradictory_leaves_placeholder() {
    let mut s = sect(
        vec![("q", vc(1, None, None)), ("n", vc(10, None, Some(5)))],
        vec![test_cases("q", vec![scalars(&["n"])])],
    );
    apply_sum_count_bounds(&mut s);
    assert_eq!(hi_of(&s, "q"), BoundRepr::Expr("_".into()));
}

// ─── further cases ──────────────────────────────────────────────────────────

#[test]
fn negative_lower_bound_makes_i64() {
    let task = TaskSection {
        letter: "D".into(),
        input_blocks: vec![vec!["L R".into()]],
        constraints_items: vec![r"-10^6 \leq L \leq R \leq 10^6".into()],
    };
    let section = task_to_format_blocks(&task);
    for v in ["l", "r"] {
        let c = section.vars.get(v).unwrap();
        assert_eq!(c.var_type, VarType::I64, "{v} type");
        assert_eq!(c.range, lit_range(-1_000_000, 1_000_000), "{v} range");
    }
    assert!(section.ordering.contains(&pair("l", "r")));
}

#[test]
fn tightening_is_a_fixpoint_of_the_relations() {
    let ranged = |lo: i64, hi: i64| {
        let mut v = typed(VarType::Usize);
        v.range = lit_range(lo, hi);
        v
    };
    let mut section = section_of(vec![("x", ranged(5, 9)), ("y", ranged(0, 7))], vec![]);
    section.ordering = vec![pair("x", "y")];
    apply_ordering_range_bounds(&mut section);
    assert_eq!(section.vars.get("x").unwrap().range, lit_range(5, 7));
    assert_eq!(section.vars.get("y").unwrap().range, lit_range(5, 7));
    // A second application changes nothing.
    apply_ordering_range_bounds(&mut section);
    assert_eq!(section.vars.get("x").unwrap().range, lit_range(5, 7));
    assert_eq!(section.vars.get("y").unwrap().range, lit_range(5, 7));
}

#[test]
fn placeholder_upper_end_takes_the_literal() {
    let mut a = typed(VarType::Usize);
    a.range = Some([BoundRepr::Lit(1), BoundRepr::Expr("_".into())]);
    let mut b = typed(VarType::Usize);
    b.range = lit_range(0, 30);
    let mut section = section_of(vec![("a", a), ("b", b)], vec![]);
    section.ordering = vec![pair("a", "b")];
    apply_ordering_range_bounds(&mut section);
    assert_eq!(section.vars.get("a").unwrap().range, lit_range(1, 30));
    assert_eq!(section.vars.get("b").unwrap().range, lit_range(1, 30));
}

#[test]
fn first_jagged_array_is_found_depth_first() {
    let blocks = vec![
        array("a", Some("n"), None, false),
        FormatBlock::TestCases(TestCasesBlock {
            count: "t".into(),
            format: vec![array("b", Some("k"), Some("m"), true), array("c", Some("l"), Some("m"), true)],
        }),
    ];
    let found = find_jagged_array(&blocks).expect("jagged");
    assert_eq!(found.base, "b");
    assert!(find_jagged_array(&vec![array("a", Some("n"), None, false)]).is_none());
}
