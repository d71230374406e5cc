use compete_spec::maps::StrMap;
use compete_spec::parse::types::{
    ArrayBlock, BoundRepr, FormatBlock, QueriesBlock, QueryBranch, RandomTestSection, RowsBlock, ScalarsBlock,
    TestCasesBlock, VarConstraint, VarType,
};
use compete_spec::random_test::spec::{parse_size, resolve, strip_one_paren, Hi, SizeTerm, VarInfo};

fn vc_num(ty: VarType, lo: Option<i64>, hi: Option<i64>) -> VarConstraint {
    let range = match (lo, hi) {
        (None, None) => None,
        (l, h) => Some([
            l.map(BoundRepr::Lit).unwrap_or(BoundRepr::Expr("_".into())),
            h.map(BoundRepr::Lit).unwrap_or(BoundRepr::Expr("_".into())),
        ]),
    };
    let mut v = VarConstraint::new();
    v.var_type = ty;
    v.range = range;
    v
}

fn chars(values: Option<Vec<&str>>, len: Option<BoundRepr>) -> VarConstraint {
    let mut v = VarConstraint::new();
    v.var_type = VarType::Chars;
    v.values = values.map(|vs| vs.into_iter().map(|s| s.to_string()).collect());
    v.len = len;
    v
}

fn section(vars: Vec<(&str, VarConstraint)>, format: Vec<FormatBlock>) -> RandomTestSection {
    let mut s = RandomTestSection::new();
    for (k, v) in vars {
        s.vars.insert(k.to_string(), v);
    }
    s.format = format;
    s
}

fn array(base: &str, len: Option<&str>, height: Option<&str>, count: Option<&str>, jagged: bool) -> FormatBlock {
    FormatBlock::Array(ArrayBlock {
        base: base.into(),
        len: len.map(|s| s.to_string()),
        height: height.map(|s| s.to_string()),
        count: count.map(|s| s.to_string()),
        jagged,
    })
}

fn rows(vars: &[&str], len: &str) -> FormatBlock {
    FormatBlock::Rows(RowsBlock { vars: vars.iter().map(|s| s.to_string()).collect(), len: len.into() })
}

#[test]
fn numeric_literal_range_resolves() {
    let r = resolve(&section(vec![("n", vc_num(VarType::Usize, Some(1), Some(100)))], vec![]));
    let n = r.vars.get("n").unwrap();
    assert_eq!(n.lo, 1);
    assert_eq!(n.hi, Hi::Fixed(100));
    assert!(r.missing.is_empty());
}

#[test]
fn missing_hi_with_sum_limit_is_sum_limited() {
    let mut c = vc_num(VarType::Usize, Some(1), None);
    c.sum_limit = Some(200_000);
    let r = resolve(&section(vec![("n", c)], vec![]));
    assert_eq!(r.vars.get("n").unwrap().hi, Hi::SumLimited(200_000));
    assert!(r.missing.is_empty());
}

#[test]
fn missing_hi_without_sum_limit_is_recorded() {
    let r = resolve(&section(vec![("n", vc_num(VarType::Usize, Some(1), None))], vec![]));
    assert_eq!(r.missing.len(), 1);
    assert!(r.missing[0].contains("`n`"));
    assert!(r.missing[0].contains("upper bound missing"));
    assert!(r.missing[0].contains("random_test.vars.n.range"));
}

#[test]
fn missing_lo_is_recorded() {
    let r = resolve(&section(vec![("n", vc_num(VarType::Usize, None, Some(10)))], vec![]));
    assert_eq!(r.missing.len(), 1);
    assert!(r.missing[0].contains("lower bound missing"));
}

#[test]
fn chars_with_values_builds_charset() {
    let r = resolve(&section(
        vec![
            ("n", vc_num(VarType::Usize, Some(1), Some(10))),
            ("s", chars(Some(vec!["a", "b", "c"]), Some(BoundRepr::Expr("n".into())))),
        ],
        vec![],
    ));
    assert_eq!(r.vars.get("s").unwrap().charset, Some(vec!['a', 'b', 'c']));
    assert!(r.missing.is_empty());
}

#[test]
fn chars_without_values_is_recorded_no_default() {
    let r = resolve(&section(vec![("s", chars(None, Some(BoundRepr::Expr("n".into()))))], vec![]));
    assert_eq!(r.vars.get("s").unwrap().charset, None);
    assert!(r.missing.iter().any(|m| m.contains("Chars charset missing")));
}

#[test]
fn chars_without_len_is_recorded() {
    let r = resolve(&section(vec![("s", chars(Some(vec!["a"]), None))], vec![]));
    assert!(r.missing.iter().any(|m| m.contains("Chars length missing")));
}

#[test]
fn int_enum_values_parsed() {
    let mut b = VarConstraint::new();
    b.values = Some(vec!["1".into(), "2".into()]);
    let r = resolve(&section(vec![("b", b)], vec![]));
    assert_eq!(r.vars.get("b").unwrap().values, Some(vec![1, 2]));
    assert!(r.missing.is_empty());
}

#[test]
fn size_vars_collected_from_all_positions() {
    let format = vec![
        array("a", Some("w"), Some("h"), Some("f"), false),
        rows(&["x", "y"], "m"),
        FormatBlock::TestCases(TestCasesBlock {
            count: "t".into(),
            format: vec![array("l", Some("ll"), None, Some("n"), true)],
        }),
        FormatBlock::Queries(QueriesBlock {
            count: "q".into(),
            discriminator: None,
            types: vec![QueryBranch { id: "1".into(), format: vec![array("z", Some("zl"), None, None, false)] }],
        }),
        FormatBlock::Scalars(ScalarsBlock { vars: vec!["k".into()] }),
    ];
    let r = resolve(&section(vec![], format));
    for expected in ["w", "h", "f", "m", "t", "ll", "n", "q", "zl"] {
        assert!(r.size_vars.contains(expected), "missing size var {}", expected);
    }
    assert!(!r.size_vars.contains("k"));
    assert!(!r.size_vars.contains("a"));
}

fn vars_with(names: &[&str]) -> StrMap<VarInfo> {
    let mut m = StrMap::new();
    for n in names {
        m.insert(
            (*n).to_owned(),
            VarInfo {
                ty: VarType::Usize,
                lo: 1,
                hi: Hi::Fixed(10),
                values: None,
                charset: None,
                len: None,
                all_distinct: false,
                sum_limit: None,
            },
        );
    }
    m
}

#[test]
fn parse_size_shapes() {
    let v = vars_with(&["n", "t", "|S|"]);
    assert_eq!(parse_size("3", &v), Some(SizeTerm::Lit(3)));
    assert_eq!(parse_size(" 2 ", &v), Some(SizeTerm::Lit(2)));
    assert_eq!(parse_size("n", &v), Some(SizeTerm::Var("n".into())));
    assert_eq!(parse_size("|S|", &v), Some(SizeTerm::Var("|S|".into())));
    assert_eq!(parse_size("n-1", &v), Some(SizeTerm::VarOffset("n".into(), -1)));
    assert_eq!(parse_size("(t)+1", &v), Some(SizeTerm::VarOffset("t".into(), 1)));
    assert_eq!(parse_size("(n)-2", &v), Some(SizeTerm::VarOffset("n".into(), -2)));
    assert_eq!(parse_size("2*n", &v), None);
    assert_eq!(parse_size("n*m", &v), None);
    assert_eq!(parse_size("n+m", &v), None);
    assert_eq!(parse_size("k", &v), None);
    assert_eq!(parse_size("k-1", &v), None);
}

#[test]
fn unsupported_size_expr_is_recorded() {
    let r = resolve(&section(
        vec![("n", vc_num(VarType::Usize, Some(1), Some(10)))],
        vec![array("a", Some("2*n"), None, None, false)],
    ));
    assert!(r.missing.iter().any(|m| m.contains("size expression `2*n`")), "missing: {:?}", r.missing);
}

#[test]
fn size_expr_referencing_unknown_var_is_recorded() {
    let r = resolve(&section(vec![], vec![rows(&["u", "v"], "n-1")]));
    assert!(r.missing.iter().any(|m| m.contains("size expression `n-1`")), "missing: {:?}", r.missing);
}

#[test]
fn chars_len_size_exprs_are_validated_like_format_sizes() {
    let r = resolve(&section(
        vec![
            ("n", vc_num(VarType::Usize, Some(2), Some(10))),
            ("s", chars(Some(vec!["a"]), Some(BoundRepr::Expr("17".into())))),
            ("t", chars(Some(vec!["a"]), Some(BoundRepr::Expr("n-1".into())))),
        ],
        vec![],
    ));
    assert!(r.missing.is_empty(), "unexpected missing: {:?}", r.missing);
    assert_eq!(r.size_terms.get("17"), Some(&SizeTerm::Lit(17)));
    assert_eq!(r.size_terms.get("n-1"), Some(&SizeTerm::VarOffset("n".into(), -1)));
}

#[test]
fn unsupported_chars_len_size_expr_is_recorded() {
    let r = resolve(&section(
        vec![
            ("n", vc_num(VarType::Usize, Some(2), Some(10))),
            ("s", chars(Some(vec!["a"]), Some(BoundRepr::Expr("2*n".into())))),
        ],
        vec![],
    ));
    assert!(r.missing.iter().any(|m| m.contains("size expression `2*n`")), "missing: {:?}", r.missing);
}

#[test]
fn supported_size_exprs_do_not_record() {
    let r = resolve(&section(
        vec![
            ("n", vc_num(VarType::Usize, Some(2), Some(10))),
            ("t", vc_num(VarType::Usize, Some(1), Some(10))),
            ("a", vc_num(VarType::Usize, Some(1), Some(10))),
            ("u", vc_num(VarType::Usize, Some(1), Some(10))),
            ("v", vc_num(VarType::Usize, Some(1), Some(10))),
        ],
        vec![
            array("a", Some("n"), None, None, false),
            rows(&["u", "v"], "n-1"),
            array("a", Some("(t)+1"), None, Some("3"), false),
        ],
    ));
    assert!(r.missing.is_empty(), "unexpected missing: {:?}", r.missing);
}

#[test]
fn enum_var_without_range_derives_bounds_from_values() {
    let mut b = VarConstraint::new();
    b.values = Some(vec!["2".into(), "1".into()]);
    let r = resolve(&section(vec![("b", b)], vec![FormatBlock::Scalars(ScalarsBlock { vars: vec!["b".into()] })]));
    assert!(r.missing.is_empty(), "unexpected missing: {:?}", r.missing);
    let info = r.vars.get("b").unwrap();
    assert_eq!(info.lo, 1);
    assert_eq!(info.hi, Hi::Fixed(2));
}

#[test]
fn empty_enum_values_recorded_as_missing() {
    let mut b = VarConstraint::new();
    b.values = Some(vec![]);
    let r = resolve(&section(vec![("b", b)], vec![]));
    assert!(r.missing.iter().any(|m| m.contains("`values` is empty")), "{:?}", r.missing);
}

#[test]
fn undeclared_format_variable_recorded_as_missing() {
    let r = resolve(&section(vec![], vec![FormatBlock::Scalars(ScalarsBlock { vars: vec!["x".into()] })]));
    assert!(
        r.missing.iter().any(|m| m.contains("variable `x`") && m.contains("missing from")),
        "{:?}",
        r.missing
    );
}

#[test]
fn chars_array_not_equal_becomes_skipped_warning() {
    let chars_vc = || chars(Some(vec!["a", "b"]), Some(BoundRepr::Lit(4)));
    let mut s = section(
        vec![("s", chars_vc()), ("t", chars_vc())],
        vec![array("s", None, None, Some("2"), false), array("t", None, None, Some("2"), false)],
    );
    s.not_equal = vec![["s".into(), "t".into()]];
    let r = resolve(&s);
    assert!(
        r.skipped.iter().any(|m| m.contains("not_equal involving string array `s`")),
        "{:?}",
        r.skipped
    );
}

#[test]
fn ordering_and_not_equal_passthrough() {
    let mut s = section(vec![], vec![]);
    s.ordering = vec![["m".into(), "n".into()]];
    s.not_equal = vec![["a".into(), "b".into()]];
    s.skipped = vec!["weird constraint".into()];
    let r = resolve(&s);
    assert_eq!(r.ordering, vec![("m".to_string(), "n".to_string())]);
    assert_eq!(r.not_equal, vec![("a".to_string(), "b".to_string())]);
    assert_eq!(r.skipped, vec!["weird constraint".to_string()]);
}

#[test]
fn jagged_arrays_excluded_from_inter_array_constraint() {
    let format = vec![
        array("a", Some("3"), None, Some("2"), true),
        array("b", Some("3"), None, None, false),
        array("c", Some("3"), None, None, false),
    ];
    let mut s = section(vec![], format);
    s.not_equal = vec![["a".into(), "b".into()], ["b".into(), "c".into()]];
    let r = resolve(&s);
    assert!(!r.inter_array_constrained.contains("a"));
    assert!(r.inter_array_constrained.contains("b"));
    assert!(r.inter_array_constrained.contains("c"));
}

// ─── further cases ──────────────────────────────────────────────────────────

#[test]
fn non_integer_values_recorded_with_message() {
    let mut b = VarConstraint::new();
    b.values = Some(vec!["1".into(), "x".into()]);
    let r = resolve(&section(vec![("b", b)], vec![]));
    assert_eq!(
        r.missing,
        vec!["variable `b`: `values` is non-integer — edit `random_test.vars.b.values` in the yml".to_string()]
    );
    assert_eq!(r.vars.get("b").unwrap().values, None);
}

#[test]
fn strip_one_paren_cases() {
    assert_eq!(strip_one_paren(" (n) "), "n");
    assert_eq!(strip_one_paren("( t )"), "t");
    assert_eq!(strip_one_paren("("), "(");
    assert_eq!(strip_one_paren("n"), "n");
}

#[test]
fn has_array_from_rows_or_string_length() {
    let r = resolve(&section(vec![], vec![rows(&["u"], "3")]));
    assert!(r.has_array);
    let r = resolve(&section(vec![("s", chars(Some(vec!["a"]), Some(BoundRepr::Lit(2))))], vec![]));
    assert!(r.has_array);
    let r = resolve(&section(vec![], vec![FormatBlock::Scalars(ScalarsBlock { vars: vec!["k".into()] })]));
    assert!(!r.has_array);
}
