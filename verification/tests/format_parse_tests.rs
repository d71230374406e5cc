use compete_spec::parse::format_parse::{
    lines_to_format_blocks, lines_to_format_blocks_inner, parse_1d_array_line, parse_n_repeat,
    parse_varlen_rows, parse_vertical_scalars,
};
use compete_spec::parse::types::FormatBlock;

#[test]
fn short_form() {
    assert_eq!(
        parse_1d_array_line(r"A_1 \ldots A_N"),
        Some(("A".to_string(), "n".to_string()))
    );
}

#[test]
fn full_form_with_middle() {
    assert_eq!(
        parse_1d_array_line(r"A_1 A_2 \ldots A_N"),
        Some(("A".to_string(), "n".to_string()))
    );
}

#[test]
fn zero_indexed() {
    // 0-origin array: length is N (last index N-1).
    assert_eq!(
        parse_1d_array_line(r"A_0 \ldots A_{N-1}"),
        Some(("A".to_string(), "n".to_string()))
    );
}

#[test]
fn braced_indices() {
    assert_eq!(
        parse_1d_array_line(r"A_{1} \ldots A_{M}"),
        Some(("A".to_string(), "m".to_string()))
    );
}

#[test]
fn fixed_indexed_line_uses_endpoint_span() {
    assert_eq!(
        parse_1d_array_line(r"A_1 A_2 A_3"),
        Some(("A".to_string(), "3".to_string()))
    );
}

#[test]
fn shifted_index_span_keeps_affine_offset() {
    assert_eq!(
        parse_1d_array_line(r"A_{-1} \ldots A_W"),
        Some(("A".to_string(), "w+2".to_string()))
    );
}

#[test]
fn not_an_array_without_indexes() {
    assert_eq!(parse_1d_array_line("A B C"), None);
}

#[test]
fn vertical_1d_supports_shifted_endpoints() {
    let lines = vec![
        r"A_{-1}".to_string(),
        r"\vdots".to_string(),
        r"A_W".to_string(),
    ];
    assert_eq!(
        parse_vertical_scalars(&lines, 0),
        Some(("A".to_string(), "w+2".to_string(), 3))
    );
}

#[test]
fn fixed_width_matrix_can_have_dynamic_row_span() {
    let lines = vec![
        r"X_{1,1} X_{1,2} X_{1,3}".to_string(),
        r"X_{2,1} X_{2,2} X_{2,3}".to_string(),
        r"\vdots".to_string(),
        r"X_{N,1} X_{N,2} X_{N,3}".to_string(),
    ];
    let blocks = lines_to_format_blocks(&lines);
    match &blocks[0] {
        FormatBlock::Array(a) => {
            assert_eq!(a.base, "x");
            assert_eq!(a.len.as_deref(), Some("3"));
            assert_eq!(a.count.as_deref(), Some("n"));
        }
        other => panic!("expected array, got {:?}", other),
    }
}

#[test]
fn fully_fixed_matrix_remains_literal_sized() {
    let lines = vec![
        r"A_{1,1} A_{1,2} A_{1,3}".to_string(),
        r"A_{2,1} A_{2,2} A_{2,3}".to_string(),
        r"A_{3,1} A_{3,2} A_{3,3}".to_string(),
    ];
    let blocks = lines_to_format_blocks(&lines);
    match &blocks[0] {
        FormatBlock::Array(a) => {
            assert_eq!(a.len.as_deref(), Some("3"));
            assert_eq!(a.count.as_deref(), Some("3"));
        }
        other => panic!("expected array, got {:?}", other),
    }
}

#[test]
fn fixed_inner_3d_uses_outer_endpoint_spans() {
    let lines = vec![
        r"A_{1,1,1} A_{1,1,2}".to_string(),
        r"\vdots".to_string(),
        r"A_{F,H,1} A_{F,H,2}".to_string(),
    ];
    let blocks = lines_to_format_blocks(&lines);
    match &blocks[0] {
        FormatBlock::Array(a) => {
            assert_eq!(a.len.as_deref(), Some("2"));
            assert_eq!(a.height.as_deref(), Some("h"));
            assert_eq!(a.count.as_deref(), Some("f"));
        }
        other => panic!("expected array, got {:?}", other),
    }
}

#[test]
fn indexed_grid_retains_physical_dimension_spans() {
    let lines = vec![
        r"S_{-1,1} S_{-1,2}".to_string(),
        r"\vdots".to_string(),
        r"S_{H,1} S_{H,2}".to_string(),
    ];
    let blocks = lines_to_format_blocks_inner(&lines, &mut Vec::new());
    match &blocks[0] {
        FormatBlock::Array(a) => {
            assert_eq!(a.base, "s");
            assert_eq!(a.len.as_deref(), Some("2"));
            assert_eq!(a.count.as_deref(), Some("h+2"));
        }
        other => panic!("expected array, got {:?}", other),
    }
}

#[test]
fn jagged_outer_count_uses_same_dimension_span() {
    let lines = vec![
        r"L_{-1} A_{-1,1} \ldots A_{-1,L_{-1}}".to_string(),
        r"\vdots".to_string(),
        r"L_N A_{N,1} \ldots A_{N,L_N}".to_string(),
    ];
    let got = parse_varlen_rows(&lines, 0).expect("must parse");
    assert_eq!(got.1, "l");
    assert_eq!(got.3, "n+2");
}

#[test]
fn vertical_indexed_array_retains_physical_dimension_span() {
    let lines = vec![
        r"S_{-1}".to_string(),
        r"\vdots".to_string(),
        r"S_H".to_string(),
    ];
    assert_eq!(
        parse_vertical_scalars(&lines, 0),
        Some(("S".to_string(), "h+2".to_string(), 3))
    );
}

#[test]
fn tuple_rows_count_uses_same_dimension_span() {
    let lines = vec![
        r"X_{-1} Y_{-1}".to_string(),
        r"\vdots".to_string(),
        r"X_M Y_M".to_string(),
    ];
    let got = parse_n_repeat(&lines, 0).expect("must parse");
    assert_eq!(got.1, "m+2");
}
