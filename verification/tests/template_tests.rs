use compete_spec::maps::StrMap;
use compete_spec::parse::format_parse::{lines_to_format_blocks, parse_varlen_rows};
use compete_spec::parse::types::{
    ArrayBlock, BoundRepr, FormatBlock, QueriesBlock, QueryBranch, ScalarsBlock, TaskSection, TestCasesBlock,
    VarConstraint, VarType,
};
use compete_spec::template::{format_blocks_to_guess_result, render_section_from_format_blocks, render_task};

#[test]
fn parse_varlen_rows_with_fixed_prefixes() {
    let lines = vec![
        "P_1 C_1 F_{1,1} F_{1,2} \\ldots F_{1,C_1}".to_string(),
        "P_2 C_2 F_{2,1} F_{2,2} \\ldots F_{2,C_2}".to_string(),
        "\\vdots".to_string(),
        "P_N C_N F_{N,1} F_{N,2} \\ldots F_{N,C_N}".to_string(),
    ];
    let got = parse_varlen_rows(&lines, 0).expect("must parse");
    assert_eq!(got.0, vec!["P".to_string(), "C".to_string()]);
    assert_eq!(got.1, "c");
    assert_eq!(got.2, "F");
    assert_eq!(got.3, "n");
}

#[test]
fn render_section_handles_strictly_superior_block() {
    let task = TaskSection {
        letter: "D".to_string(),
        input_blocks: vec![vec![
            "N M".to_string(),
            "P _ 1 C _ 1 F _ {1,1} F _ {1,2} \\ldots F _ {1,C _ 1}".to_string(),
            "\\vdots".to_string(),
            "P _ N C _ N F _ {N,1} F _ {N,2} \\ldots F _ {N,C _ N}".to_string(),
        ]],
        constraints_items: vec![],
    };
    let rendered = render_task(&task);
    assert!(rendered.contains("fn main()"), "{}", rendered);
    assert!(rendered.contains("n: usize"), "{}", rendered);
    assert!(rendered.contains("m: usize"), "{}", rendered);
}

#[test]
fn render_section_handles_e_manga() {
    let task = TaskSection {
        letter: "E".to_string(),
        input_blocks: vec![vec!["N".to_string(), "a_1 \\ldots a_N".to_string()]],
        constraints_items: vec!["1 <= N <= 3 * 10^5".to_string(), "1 <= a_i <= 10^9".to_string()],
    };
    let rendered = render_task(&task);
    assert!(!rendered.contains("TODO"), "{}", rendered);
    assert!(rendered.contains("n: usize"), "{}", rendered);
    assert!(rendered.contains("a: [usize; n]"), "{}", rendered);
}

#[test]
fn render_section_handles_f_ladder() {
    let task = TaskSection {
        letter: "F".to_string(),
        input_blocks: vec![vec![
            "N".to_string(),
            "A_1 B_1".to_string(),
            "A_2 B_2".to_string(),
            "\\ldots".to_string(),
            "A_N B_N".to_string(),
        ]],
        constraints_items: vec!["1 <= N <= 2 * 10^5".to_string(), "1 <= A_i, B_i <= 10^9".to_string()],
    };
    let rendered = render_task(&task);
    assert!(!rendered.contains("TODO"), "{}", rendered);
    assert!(rendered.contains("n: usize"), "{}", rendered);
    assert!(rendered.contains("ab: [(usize, usize); n]"), "{}", rendered);
}

#[test]
fn render_section_handles_g_gravity() {
    let task = TaskSection {
        letter: "G".to_string(),
        input_blocks: vec![vec![
            "N W".to_string(),
            "X_1 Y_1".to_string(),
            "X_2 Y_2".to_string(),
            "\\vdots".to_string(),
            "X_N Y_N".to_string(),
            "Q".to_string(),
            "T_1 A_1".to_string(),
            "T_2 A_2".to_string(),
            "\\vdots".to_string(),
            "T_Q A_Q".to_string(),
        ]],
        constraints_items: vec![
            "1 <= N <= 2 * 10^5".to_string(),
            "1 <= W <= N".to_string(),
            "1 <= X_i <= W".to_string(),
            "1 <= Y_i <= 10^9".to_string(),
            "1 <= Q <= 2 * 10^5".to_string(),
            "1 <= T_j <= 10^9".to_string(),
            "1 <= A_j <= N".to_string(),
        ],
    };
    let rendered = render_task(&task);
    assert!(!rendered.contains("TODO"), "{}", rendered);
    assert!(rendered.contains("n: usize"), "{}", rendered);
    assert!(rendered.contains("w: usize"), "{}", rendered);
    assert!(rendered.contains("xy: [(usize, usize); n]"), "{}", rendered);
    assert!(rendered.contains("q: usize"), "{}", rendered);
    assert!(rendered.contains("ta: [(usize, usize); q]"), "{}", rendered);
}

#[test]
fn lines_to_format_blocks_scalar() {
    let lines = vec!["N".to_string()];
    let blocks = lines_to_format_blocks(&lines);
    assert_eq!(blocks.len(), 1);
    match &blocks[0] {
        FormatBlock::Scalars(sb) => assert_eq!(sb.vars, vec!["n".to_string()]),
        _ => panic!("expected Scalars"),
    }
}

#[test]
fn lines_to_format_blocks_array() {
    let lines = vec!["N".to_string(), "A_1 A_2 \\ldots A_N".to_string()];
    let blocks = lines_to_format_blocks(&lines);
    assert_eq!(blocks.len(), 2);
    match &blocks[1] {
        FormatBlock::Array(a) => {
            assert_eq!(a.base, "a");
            assert_eq!(a.len.as_deref(), Some("n"));
        }
        _ => panic!("expected Array"),
    }
}

#[test]
fn lines_to_format_blocks_rows() {
    let lines = vec!["N".to_string(), "x_1 y_1".to_string(), "\\vdots".to_string(), "x_N y_N".to_string()];
    let blocks = lines_to_format_blocks(&lines);
    let rows_block = blocks.iter().find_map(|b| if let FormatBlock::Rows(r) = b { Some(r) } else { None });
    let r = rows_block.expect("expected Rows block");
    assert_eq!(r.vars, vec!["x", "y"]);
    assert_eq!(r.len, "n");
}

#[test]
fn lines_to_format_blocks_rows_far_closing_line() {
    let mut lines = vec!["N".to_string(), "x_1 y_1".to_string()];
    for _ in 0..15 {
        lines.push("\\vdots".to_string());
    }
    lines.push("x_N y_N".to_string());
    let blocks = lines_to_format_blocks(&lines);
    let r = blocks
        .iter()
        .find_map(|b| if let FormatBlock::Rows(r) = b { Some(r) } else { None })
        .expect("expected Rows block resolved past 12-line cap");
    assert_eq!(r.vars, vec!["x", "y"]);
    assert_eq!(r.len, "n");
}

fn array(base: &str, len: Option<&str>, height: Option<&str>, count: Option<&str>, jagged: bool) -> FormatBlock {
    FormatBlock::Array(ArrayBlock {
        base: base.to_string(),
        len: len.map(|s| s.to_string()),
        height: height.map(|s| s.to_string()),
        count: count.map(|s| s.to_string()),
        jagged,
    })
}

fn scalars(vs: &[&str]) -> FormatBlock {
    FormatBlock::Scalars(ScalarsBlock { vars: vs.iter().map(|s| s.to_string()).collect() })
}

fn chars_var(len: Option<BoundRepr>) -> VarConstraint {
    let mut v = VarConstraint::new();
    v.var_type = VarType::Chars;
    v.len = len;
    v
}

#[test]
fn format_blocks_to_guess_result_scalar_and_array() {
    let vars = StrMap::new();
    let blocks = vec![scalars(&["n"]), array("a", Some("n"), None, None, false)];
    let result = format_blocks_to_guess_result(&blocks, &vars);
    assert!(result.decls.iter().any(|d| d.contains("n: usize")));
    assert!(result.decls.iter().any(|d| d.contains("a: [usize; n]")));
}

#[test]
fn format_blocks_str_var_uses_chars() {
    let mut vars = StrMap::new();
    vars.insert("s".to_string(), chars_var(Some(BoundRepr::Expr("17".into()))));
    let blocks = vec![scalars(&["n"]), scalars(&["s"])];
    let result = format_blocks_to_guess_result(&blocks, &vars);
    assert!(
        result.decls.iter().any(|d| d.contains("s: Chars,")),
        "single Chars var should be rendered as `s: Chars,`, got: {:?}",
        result.decls
    );
    let rendered = render_section_from_format_blocks(&blocks, &vars);
    assert!(
        rendered.contains("use proconio::{input, fastout, marker::Chars};"),
        "rendered template should import Chars marker. got:\n{}",
        rendered,
    );
}

#[test]
fn format_blocks_jagged_outputs_proconio_jagged_syntax() {
    let vars = StrMap::new();
    let blocks = vec![array("a", Some("l"), None, Some("n"), true)];
    let result = format_blocks_to_guess_result(&blocks, &vars);
    assert!(result.decls.iter().any(|d| d.contains("a: [[usize]; n],")), "{:?}", result.decls);
}

#[test]
fn format_blocks_chars_grid_2d() {
    let mut vars = StrMap::new();
    vars.insert("s".to_string(), chars_var(None));
    let blocks = vec![array("s", None, None, Some("h"), false)];
    let result = format_blocks_to_guess_result(&blocks, &vars);
    assert!(result.decls.iter().any(|d| d.contains("s: [Chars; h],")), "{:?}", result.decls);
}

#[test]
fn format_blocks_chars_3d() {
    let mut vars = StrMap::new();
    vars.insert("s".to_string(), chars_var(None));
    let blocks = vec![array("s", None, Some("h"), Some("f"), false)];
    let result = format_blocks_to_guess_result(&blocks, &vars);
    assert!(result.decls.iter().any(|d| d.contains("s: [[Chars; h]; f],")), "{:?}", result.decls);
}

#[test]
fn format_blocks_int_matrix_2d_uses_len_as_inner() {
    let vars = StrMap::new();
    let blocks = vec![array("a", Some("w"), None, Some("h"), false)];
    let result = format_blocks_to_guess_result(&blocks, &vars);
    assert!(result.decls.iter().any(|d| d.contains("a: [[usize; w]; h],")), "{:?}", result.decls);
}

#[test]
fn format_blocks_int_3d() {
    let vars = StrMap::new();
    let blocks = vec![array("a", Some("w"), Some("h"), Some("f"), false)];
    let result = format_blocks_to_guess_result(&blocks, &vars);
    assert!(result.decls.iter().any(|d| d.contains("a: [[[usize; w]; h]; f],")), "{:?}", result.decls);
}

#[test]
fn render_queries_with_chars_branch_imports_chars() {
    let mut vars = StrMap::new();
    vars.insert("q".to_string(), VarConstraint::new());
    vars.insert("s".to_string(), chars_var(None));
    vars.insert("k".to_string(), VarConstraint::new());
    let queries = QueriesBlock {
        count: "q".to_string(),
        discriminator: Some("qt".to_string()),
        types: vec![
            QueryBranch { id: "1".to_string(), format: vec![scalars(&["s"])] },
            QueryBranch { id: "2".to_string(), format: vec![scalars(&["k"])] },
        ],
    };
    let blocks = vec![scalars(&["q"]), FormatBlock::Queries(queries)];
    let rendered = render_section_from_format_blocks(&blocks, &vars);
    assert!(
        rendered.contains("use proconio::{input, fastout, marker::Chars};"),
        "queries-with-Chars rendering should import Chars marker. got:\n{}",
        rendered,
    );
}

// ─── further cases ──────────────────────────────────────────────────────────

#[test]
fn render_plain_template_exactly() {
    let vars = StrMap::new();
    let blocks = vec![scalars(&["n", "n"]), array("a", Some("n"), None, None, false)];
    let rendered = render_section_from_format_blocks(&blocks, &vars);
    assert_eq!(
        rendered,
        "use proconio::{input, fastout};\n\n#[fastout]\nfn main() {\n    input! {\n        n: usize,\n        a: [usize; n],\n    }\n}"
    );
}

#[test]
fn render_test_cases_template_exactly() {
    let mut vars = StrMap::new();
    let mut k = VarConstraint::new();
    k.var_type = VarType::I64;
    vars.insert("k".to_string(), k);
    let blocks = vec![FormatBlock::TestCases(TestCasesBlock { count: "t".into(), format: vec![scalars(&["k"])] })];
    let rendered = render_section_from_format_blocks(&blocks, &vars);
    assert_eq!(
        rendered,
        "use proconio::{input, fastout};\n\n#[fastout]\nfn main() {\n    input! {\n    }\n    for _ in 0..t {\n        input! {\n            k: i64,\n        }\n        /* solve testcase */\n    }\n}"
    );
}

#[test]
fn render_numbered_queries_exactly() {
    let vars = StrMap::new();
    let queries = QueriesBlock {
        count: "q".to_string(),
        discriminator: None,
        types: vec![
            QueryBranch { id: "1".to_string(), format: vec![scalars(&["x", "y"])] },
            QueryBranch { id: "2".to_string(), format: vec![] },
        ],
    };
    let rendered = render_section_from_format_blocks(&vec![FormatBlock::Queries(queries)], &vars);
    assert_eq!(
        rendered,
        "use proconio::{input, fastout};\n\n#[fastout]\nfn main() {\n    input! {\n    }\n    for _ in 0..q {\n        input! { qt: usize }\n        match qt {\n            1 => { input! { x: usize, y: usize } },\n            2 => {},\n            _ => unreachable!(),\n        }\n        /* process query */\n    }\n}"
    );
}
