use compete_spec::parse::analysis::{analyze_format, VarShape};
use compete_spec::parse::types::{ArrayBlock, FormatBlock, RowsBlock, ScalarsBlock, TestCasesBlock};

#[test]
fn collects_shapes_sizes_and_denominators() {
    let blocks = vec![
        FormatBlock::Scalars(ScalarsBlock {
            vars: vec!["t".into()],
        }),
        FormatBlock::TestCases(TestCasesBlock {
            count: "t".into(),
            format: vec![
                FormatBlock::Rows(RowsBlock {
                    vars: vec!["x".into()],
                    len: "n".into(),
                }),
                FormatBlock::Array(ArrayBlock {
                    base: "a".into(),
                    len: Some("l".into()),
                    height: None,
                    count: Some("n".into()),
                    jagged: true,
                }),
            ],
        }),
    ];
    let got = analyze_format(&blocks);
    assert_eq!(got.shape_of("x"), VarShape::Rows);
    assert_eq!(got.shape_of("a"), VarShape::Jagged);
    assert_eq!(got.first_test_cases_count.as_deref(), Some("t"));
    assert_eq!(
        got.jagged_len_to_count.get("l").map(String::as_str),
        Some("n")
    );
    assert!(got.size_exprs.contains("t"));
    assert!(got.size_exprs.contains("n"));
}
