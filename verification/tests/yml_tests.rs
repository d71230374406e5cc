use compete_spec::parse::yml_text::{compactify_values_sequences, merge_section, section_text};

#[test]
fn flat_sequences_get_flow_style() {
    let yaml = "values:\n  - a\n  - b\n  - c\n";
    let got = compactify_values_sequences(yaml);
    assert_eq!(got, "values: [a, b, c]\n");
}

#[test]
fn range_2_lit() {
    let yaml = "range:\n  - 1\n  - 100\n";
    let got = compactify_values_sequences(yaml);
    assert_eq!(got, "range: [1, 100]\n");
}

#[test]
fn ordering_nested_pairs() {
    let yaml = "ordering:\n  - - a\n    - b\n  - - c\n    - d\n";
    let got = compactify_values_sequences(yaml);
    assert_eq!(got, "ordering: [[a, b], [c, d]]\n");
}

#[test]
fn not_equal_nested_pairs() {
    let yaml = "not_equal:\n  - - a\n    - b\n";
    let got = compactify_values_sequences(yaml);
    assert_eq!(got, "not_equal: [[a, b]]\n");
}

#[test]
fn nested_inside_indent() {
    let yaml = "random_test:\n  ordering:\n    - - a\n      - b\nother: 1\n";
    let got = compactify_values_sequences(yaml);
    assert_eq!(got, "random_test:\n  ordering: [[a, b]]\nother: 1\n");
}

// ─── further cases ──────────────────────────────────────────────────────────

#[test]
fn mapping_vars_and_empty_sequences_are_kept() {
    let yaml = "random_test:\n  vars:\n    n:\n      type: usize\n      range:\n        - 1\n        - 5\n  ordering: []\n";
    let got = compactify_values_sequences(yaml);
    assert_eq!(
        got,
        "random_test:\n  vars:\n    n:\n      type: usize\n      range: [1, 5]\n  ordering: []\n"
    );
}

#[test]
fn crlf_lines_and_missing_final_newline() {
    assert_eq!(compactify_values_sequences("values:\r\n  - x\r\nend"), "values: [x]\nend\n");
    assert_eq!(compactify_values_sequences(""), "");
}

#[test]
fn section_text_drops_document_marker() {
    assert_eq!(section_text("---\nrandom_test:\n  values:\n    - 1\n"), "random_test:\n  values: [1]\n");
    assert_eq!(section_text("random_test: {}\n"), "random_test: {}\n");
}

#[test]
fn merge_replaces_an_earlier_section() {
    let raw = "type: Batch\ncases: []\nrandom_test:\n  old: 1\n";
    assert_eq!(merge_section(raw, "random_test:\n  new: 2\n"), "type: Batch\ncases: []\n\nrandom_test:\n  new: 2\n");
    assert_eq!(merge_section("type: Batch", "random_test: {}\n"), "type: Batch\n\nrandom_test: {}\n");
    assert_eq!(merge_section("a\n\n", "x\n"), "a\n\nx\n");
}
