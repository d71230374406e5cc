use compete_spec::parse::enrich::task_to_format_blocks;
use compete_spec::parse::html::{extract_constraints_items, parse_task_sections_checked, strip_tags, strip_tags_keep_code};
use compete_spec::parse::types::{ArrayBlock, BoundRepr, FormatBlock, RandomTestSection, VarType};
use std::path::Path;

fn lit_range(lo: i64, hi: i64) -> Option<[BoundRepr; 2]> {
    Some([BoundRepr::Lit(lo), BoundRepr::Lit(hi)])
}

const CONTEST_BASE: &str = "/workspaces/atcoder-rust-devcontainer/src/contest";

fn load_section(contest: &str, letter: char) -> Option<RandomTestSection> {
    let path = format!("{}/{}/task.html", CONTEST_BASE, contest);
    if !Path::new(&path).exists() {
        return None;
    }
    let html = read_fixture(&path)?;
    let sections = parse_task_sections_checked(&html).expect("input heading before output heading");
    let upper = letter.to_ascii_uppercase().to_string();
    let task = sections.iter().find(|s| s.letter == upper)?;
    Some(task_to_format_blocks(task))
}

/// The fixture's text. Tests here cannot open files, so a present fixture
/// is reported rather than silently skipped.
fn read_fixture(path: &str) -> Option<String> {
    panic!("fixture {} is present but cannot be read from this test harness", path)
}

fn find_jagged_array(blocks: &[FormatBlock]) -> Option<&ArrayBlock> {
    for b in blocks {
        match b {
            FormatBlock::Array(ab) if ab.jagged => return Some(ab),
            FormatBlock::TestCases(tb) => {
                if let Some(ab) = find_jagged_array(&tb.format) {
                    return Some(ab);
                }
            }
            FormatBlock::Queries(qb) => {
                for qt in &qb.types {
                    if let Some(ab) = find_jagged_array(&qt.format) {
                        return Some(ab);
                    }
                }
            }
            _ => {}
        }
    }
    None
}

#[test]
fn abc448_f_does_not_emit_predicate_index_vars() {
    let Some(section) = load_section("abc448", 'f') else {
        return;
    };

    assert!(section.vars.contains_key("n"));
    assert!(section.vars.contains_key("x"));
    assert!(section.vars.contains_key("y"));
    assert!(!section.vars.contains_key("i"));
    assert!(!section.vars.contains_key("j"));
    assert!(!section.not_equal.contains(&["i".into(), "j".into()]));
}

#[test]
fn abc455_f_ordering_closure_reaches_n() {
    let Some(section) = load_section("abc455", 'f') else {
        return;
    };

    assert!(section.ordering.contains(&["l".into(), "r".into()]));
    assert!(section.ordering.contains(&["r".into(), "n".into()]));
    assert!(section.ordering.contains(&["l".into(), "n".into()]));
}

#[test]
fn abc431_c_min_operands_materialize_k_upper_bound() {
    let Some(section) = load_section("abc431", 'c') else {
        return;
    };

    assert!(section.ordering.contains(&["k".into(), "m".into()]));
    assert!(section.ordering.contains(&["k".into(), "n".into()]));
    assert_eq!(section.vars.get("k").unwrap().range, lit_range(1, 200_000));
}

#[test]
fn abc450_a_simple_range() {
    let Some(section) = load_section("abc450", 'a') else {
        return;
    };
    let n = section.vars.get("n").expect("n");
    assert_eq!(n.var_type, VarType::Usize);
    assert_eq!(n.range, lit_range(1, 9));
}

#[test]
fn abc461_d_multi_var_natural_range() {
    let Some(section) = load_section("abc461", 'd') else {
        return;
    };
    assert_eq!(section.vars.get("h").unwrap().range, lit_range(1, 500));
    assert_eq!(section.vars.get("w").unwrap().range, lit_range(1, 500));
}

#[test]
fn abc442_e_full_constraints() {
    let Some(section) = load_section("abc442", 'e') else {
        return;
    };

    // Numeric ranges, including i64 negative bounds
    let n = section.vars.get("n").expect("n");
    assert_eq!(n.var_type, VarType::Usize);
    assert_eq!(n.range, lit_range(2, 200_000));

    let q = section.vars.get("q").expect("q");
    assert_eq!(q.range, lit_range(1, 200_000));

    let x = section.vars.get("x").expect("x");
    assert_eq!(x.var_type, VarType::I64);
    assert_eq!(x.range, lit_range(-1_000_000_000, 1_000_000_000));

    let a = section.vars.get("a").expect("a");
    assert_eq!(a.var_type, VarType::Usize);
    // A_j ≤ N → range hi resolves to N's max literal
    assert_eq!(a.range, lit_range(1, 200_000));

    // ordering covers a ≤ n and b ≤ n (a, b implicitly bounded by n)
    assert!(section.ordering.contains(&["a".into(), "n".into()]));
    assert!(section.ordering.contains(&["b".into(), "n".into()]));

    // not_equal: A_j ≠ B_j → registered as base pair (a, b)
    assert!(section.not_equal.contains(&["a".into(), "b".into()]));

    // (X_i, Y_i) ≠ (0, 0) is a tuple constraint we can't represent → skipped
    assert!(
        section
            .skipped
            .iter()
            .any(|s| s.contains("(X_i,Y_i)") || s.contains("(0,0)")),
        "expected tuple constraint in skipped, got: {:?}",
        section.skipped
    );
}

#[test]
fn abc441_b_chars_with_len_ref() {
    let Some(section) = load_section("abc441", 'b') else {
        return;
    };

    let s = section.vars.get("s").expect("s");
    assert_eq!(s.var_type, VarType::Chars);
    assert!(
        s.values.as_ref().is_some_and(|vs| vs.len() == 26),
        "s should have 26-char charset (a-z), got: {:?}",
        s.values
    );
    // |S| = N → len: n (direct reference)
    assert_eq!(s.len, Some(BoundRepr::Expr("n".into())));

    // format: s appears as a scalar (not array)
    let has_s_scalar = section
        .format
        .iter()
        .any(|b| matches!(b, FormatBlock::Scalars(sb) if sb.vars.contains(&"s".to_string())));
    assert!(
        has_s_scalar,
        "s should appear as a scalar in format, got: {:?}",
        section.format
    );
}

#[test]
fn abc450_a_format_unchanged() {
    let Some(section) = load_section("abc450", 'a') else {
        return;
    };
    // Format should be a single scalars block with [n]
    assert_eq!(section.format.len(), 1);
    match &section.format[0] {
        FormatBlock::Scalars(sb) => assert_eq!(sb.vars, vec!["n".to_string()]),
        other => panic!("expected scalars, got {:?}", other),
    }
}

#[test]
fn abc442_b_enum_no_range() {
    let Some(section) = load_section("abc442", 'b') else {
        return;
    };
    let a = section.vars.get("a").expect("a");
    assert_eq!(a.var_type, VarType::Usize);
    assert!(
        a.values.is_some(),
        "a should have values from enum constraint"
    );
    assert!(
        a.range.is_none(),
        "a should NOT have range when values is set, got: {:?}",
        a.range
    );
}

#[test]
fn abc442_d_japanese_prefix_and_lit_preservation() {
    let Some(section) = load_section("abc442", 'd') else {
        return;
    };
    // n.range must NOT be overwritten by `1 ≤ l ≤ r ≤ N` chain.
    let n = section.vars.get("n").expect("n");
    assert_eq!(n.range, lit_range(2, 200_000));

    // x's range comes from `1 ≤ x ≤ N-1` (after Japanese prefix stripping).
    let x = section.vars.get("x").expect("x");
    assert_eq!(x.range, lit_range(1, 199_999));

    // l's lo from the chain prefix `1`.
    let l = section.vars.get("l").expect("l");
    assert_eq!(
        l.range.as_ref().map(|r| r[0].clone()),
        Some(BoundRepr::Lit(1))
    );

    // r resolves through `r ≤ N` to the literal upper bound.
    let r = section.vars.get("r").expect("r");
    assert_eq!(
        r.range.as_ref().map(|x| x[1].clone()),
        Some(BoundRepr::Lit(200_000))
    );
}

#[test]
fn abc457_c_jagged_with_sum_limit() {
    let Some(section) = load_section("abc457", 'c') else {
        return;
    };
    assert!(
        !section.vars.contains_key("i"),
        "aggregate constraint index must not become an input variable"
    );
    assert!(
        !section.ordering.contains(&["k".into(), "i".into()]),
        "aggregate constraint must not become scalar ordering"
    );
    let ab = find_jagged_array(&section.format).expect("jagged array block");
    assert!(ab.jagged, "jagged flag should be true");
    let l_var = ab.len.as_ref().expect("len variable (each row's length)");
    assert!(ab.count.is_some(), "count (number of rows) should be set");
    // The per-row length variable must exist in vars and carry sum_limit.
    let l = section
        .vars
        .get(l_var.as_str())
        .unwrap_or_else(|| panic!("var {} missing", l_var));
    assert!(
        l.sum_limit.is_some(),
        "expected sum_limit on jagged length var {}, got vars[{}]={:?}",
        l_var,
        l_var,
        l
    );
}

#[test]
fn abc446_b_jagged_without_sum_limit() {
    let Some(section) = load_section("abc446", 'b') else {
        return;
    };
    let ab = find_jagged_array(&section.format).expect("jagged array block");
    assert!(ab.jagged);
    let l_var = ab.len.as_ref().expect("len variable");
    let l = section.vars.get(l_var.as_str()).expect("len var entry");
    assert!(
        l.sum_limit.is_none(),
        "abc446-b has no Σ constraint, so jagged length var must have no sum_limit, got: {:?}",
        l.sum_limit
    );
}

#[test]
fn abc453_d_chars_grid_inner_len() {
    let Some(section) = load_section("abc453", 'd') else {
        return;
    };
    assert!(
        !section.vars.contains_key("code") && !section.vars.contains_key("g"),
        "HTML <code> tags must not create numeric vars, got vars: {:?}",
        section.vars.len()
    );
    assert!(
        section
            .ordering
            .iter()
            .all(|pair| pair.iter().all(|v| v != "code" && v != "g")),
        "HTML <code> tags must not create ordering pairs, got: {:?}",
        section.ordering
    );
    let s = section.vars.get("s").expect("s var");
    assert_eq!(s.var_type, VarType::Chars);
    assert_eq!(s.len, Some(BoundRepr::Expr("w".into())));
    // The grid block itself must not carry the inner width any more
    // (post-migration ArrayBlock has no `width` field).
    let grid = section
        .format
        .iter()
        .find_map(|b| match b {
            FormatBlock::Array(ab) if ab.base == "s" && ab.count.is_some() && !ab.jagged => {
                Some(ab)
            }
            _ => None,
        })
        .expect("Chars grid array block");
    assert!(
        grid.len.is_none(),
        "Chars 2D grid block should NOT carry an inner len on the format side; got: {:?}",
        grid.len
    );
}

#[test]
fn abc459_d_string_length_sum_limit_is_attached_to_synthetic_len() {
    let Some(section) = load_section("abc459", 'd') else {
        return;
    };

    assert_eq!(section.vars.get("s").unwrap().len, Some(BoundRepr::Expr("|s|".into())));
    assert_eq!(section.vars.get("s").unwrap().sum_limit, None);
    assert_eq!(section.vars.get("|s|").unwrap().range, lit_range(1, 1_000_000));
    assert_eq!(section.vars.get("|s|").unwrap().sum_limit, Some(1_000_000));
}

#[test]
fn abc459_b_horizontal_chars_array_uses_count_and_keeps_string_len() {
    let Some(section) = load_section("abc459", 'b') else {
        return;
    };
    let s = section.vars.get("s").expect("s var");
    assert_eq!(s.var_type, VarType::Chars);
    assert_eq!(s.len, Some(BoundRepr::Expr("|s|".into())));
    let array = section
        .format
        .iter()
        .find_map(|block| match block {
            FormatBlock::Array(array) if array.base == "s" => Some(array),
            _ => None,
        })
        .expect("s array block");
    assert_eq!(array.len, None);
    assert_eq!(array.height, None);
    assert_eq!(array.count.as_deref(), Some("n"));
}

#[test]
fn abc440_g_chars_3d_inner_len_comes_from_format_width() {
    let Some(section) = load_section("abc440", 'g') else {
        return;
    };
    let s = section.vars.get("s").expect("s var");
    assert_eq!(s.var_type, VarType::Chars);
    assert_eq!(s.len, Some(BoundRepr::Expr("w".into())));
    let array = section
        .format
        .iter()
        .find_map(|block| match block {
            FormatBlock::Array(array) if array.base == "s" => Some(array),
            _ => None,
        })
        .expect("s array block");
    assert_eq!(array.len, None);
    assert_eq!(array.height.as_deref(), Some("h"));
    assert_eq!(array.count.as_deref(), Some("f"));
}

#[test]
fn abc449_d_chain_i64() {
    let Some(section) = load_section("abc449", 'd') else {
        return;
    };
    // Constraints: `-10^6 <= L <= R <= 10^6`, `-10^6 <= D <= U <= 10^6`.
    // L/D have a literal-negative lo; R/U only get a `Var` lo that resolves
    // transitively to -10^6. All four must end up I64 with the same range.
    for v in ["l", "r", "d", "u"] {
        let c = section.vars.get(v).unwrap_or_else(|| panic!("{}", v));
        assert_eq!(c.var_type, VarType::I64, "{v} type");
        assert_eq!(c.range, lit_range(-1_000_000, 1_000_000), "{v} range");
    }
}

#[test]
fn abc453_g_query_operands_use_base_variables() {
    let Some(section) = load_section("abc453", 'g') else {
        return;
    };

    for name in ["x_i", "y_i", "z_i", "l_i", "r_i"] {
        assert!(
            !section.vars.contains_key(name),
            "query operand index name must not be emitted: {}",
            name
        );
    }
    for name in ["x", "y", "z", "l", "r"] {
        assert!(
            section.vars.contains_key(name),
            "missing base variable: {}",
            name
        );
    }

    let queries = section
        .format
        .iter()
        .find_map(|block| match block {
            FormatBlock::Queries(q) => Some(q),
            _ => None,
        })
        .expect("queries block");
    let operands: Vec<Vec<String>> = queries
        .types
        .iter()
        .map(|branch| match branch.format.first() {
            Some(FormatBlock::Scalars(s)) => s.vars.clone(),
            _ => Vec::new(),
        })
        .collect();
    assert_eq!(
        operands,
        vec![
            vec!["x".to_string(), "y".to_string()],
            vec!["x".to_string(), "y".to_string(), "z".to_string()],
            vec!["x".to_string(), "l".to_string(), "r".to_string()],
        ]
    );
}

#[test]
fn strip_tags_removes_tags_and_decodes_entities() {
    assert_eq!(strip_tags("<b>a</b>&lt;b&gt; &amp; c"), "a<b> & c");
    assert_eq!(strip_tags("<var>N\n</var>\n<var>A_1</var>"), "N\n\nA_1");
}

#[test]
fn strip_tags_keep_code_keeps_only_code() {
    assert_eq!(strip_tags_keep_code("<code>N</code> is <var>x</var> &amp; y"), "<code>N</code> is x & y");
}

#[test]
fn constraints_items_come_from_the_constraints_section() {
    let seg = "<section><h3>制約</h3><ul><li><var>1 \\leq N \\leq 10</var></li><li> </li>\
               <li>入力は全て整数</li></ul></section><section><h3>入力</h3></section>";
    assert_eq!(
        extract_constraints_items(seg),
        vec!["1 \\leq N \\leq 10".to_string(), "入力は全て整数".to_string()]
    );
    let en = "<h3>Constraints</h3><ul><li><code>N</code> is even</li></ul><h3>Input</h3>";
    assert_eq!(extract_constraints_items(en), vec!["<code>N</code> is even".to_string()]);
    assert!(extract_constraints_items("<h3>Notes</h3><ul><li>x</li></ul>").is_empty());
}

#[test]
fn task_sections_split_by_heading() {
    let html = "<span class=\"h2\">A - First</span>\
        <section><h3>制約</h3><ul><li>1 \\leq N \\leq 9</li></ul></section>\
        <section><h3>入力</h3><pre><var>N</var>\n<var>A_1</var> <var>A_2</var>\n</pre></section>\
        <section><h3>出力</h3><pre>ignored</pre></section>\
        <span class=\"h2\">B - Second</span><p>no input section</p>\
        <span class=\"h2\">C - Third</span><h3>入力</h3><pre>  S  \n\n</pre>";
    let sections = parse_task_sections_checked(html).expect("ordered headings");
    assert_eq!(sections.len(), 2);
    assert_eq!(sections[0].letter, "A");
    assert_eq!(sections[0].input_blocks, vec![vec!["N".to_string(), "A_1 A_2".to_string()]]);
    assert_eq!(sections[0].constraints_items, vec!["1 \\leq N \\leq 9".to_string()]);
    assert_eq!(sections[1].letter, "C");
    assert_eq!(sections[1].input_blocks, vec![vec!["S".to_string()]]);
    assert!(sections[1].constraints_items.is_empty());
}

#[test]
fn output_heading_before_input_heading_is_refused() {
    let html = "<span class=\"h2\">A - T</span><h3>出力</h3><h3>入力</h3><pre>N</pre>";
    assert!(parse_task_sections_checked(html).is_none());
}
