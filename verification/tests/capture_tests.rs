use compete_spec::random_test::context::RenderContext;
use compete_spec::parse::format_parse::{
    array_line_from_span, bracket_head_from_groups, bracket_indexes_from_groups, bracket_token_from_parts,
    indexed_line_span_from_tokens, parse_indexed_token, underscore_token_from_groups, IndexedLineSpan,
};
use compete_spec::parse::normalize::snake;
use compete_spec::random_test::spec::lit;
use compete_spec::parse::types::BoundRepr;

fn s(x: &str) -> String {
    x.to_owned()
}

#[test]
fn underscore_groups_give_base_and_trimmed_indexes() {
    let g = vec![Some(s("A_{i, j}")), Some(s("A")), Some(s("i, ,j"))];
    assert_eq!(
        underscore_token_from_groups(&g),
        Some((s("A"), vec![s("i"), s("j")]))
    );
    let blank = vec![Some(s("A_{ }")), Some(s("A")), Some(s(" "))];
    assert_eq!(underscore_token_from_groups(&blank), None);
    assert_eq!(underscore_token_from_groups(&vec![Some(s("A"))]), None);
}

#[test]
fn bracket_parts_from_groups() {
    let g = vec![Some(s("A[i][j]")), Some(s("A")), Some(s("[i][j]"))];
    assert_eq!(bracket_head_from_groups(&g), Some((s("A"), s("[i][j]"))));
    assert_eq!(bracket_head_from_groups(&vec![Some(s("A")), None, None]), None);
    let gs = vec![
        vec![Some(s("[i]")), Some(s(" i "))],
        vec![Some(s("[j]")), Some(s("j"))],
    ];
    assert_eq!(bracket_indexes_from_groups(&gs), Some(vec![s("i"), s("j")]));
    assert_eq!(bracket_indexes_from_groups(&vec![vec![Some(s("[]")), None]]), None);
    assert_eq!(
        bracket_token_from_parts(s("A"), Some(vec![s("i")])),
        Some(Some((s("A"), vec![s("i")])))
    );
    assert_eq!(bracket_token_from_parts(s("A"), Some(vec![])), None);
    assert_eq!(bracket_token_from_parts(s("A"), None), Some(None));
    assert_eq!(parse_indexed_token("A[i][j]"), Some((s("A"), vec![s("i"), s("j")])));
}

#[test]
fn a_span_from_split_tokens_gives_the_array_line() {
    let toks = vec![(s("A"), vec![s("1")]), (s("A"), vec![s("2")]), (s("A"), vec![s("N")])];
    let span = indexed_line_span_from_tokens(&toks).unwrap();
    assert_eq!(span.base, "A");
    assert_eq!(span.first, vec![s("1")]);
    assert_eq!(span.last, vec![s("N")]);
    assert_eq!(array_line_from_span(&span), Some((s("A"), s("n"))));
    let mixed = vec![(s("A"), vec![s("1")]), (s("B"), vec![s("N")])];
    assert!(indexed_line_span_from_tokens(&mixed).is_none());
    assert!(indexed_line_span_from_tokens(&vec![]).is_none());
    let two_d = IndexedLineSpan { base: s("A"), first: vec![s("1"), s("1")], last: vec![s("1"), s("N")] };
    assert_eq!(array_line_from_span(&two_d), None);
}

#[test]
fn snake_output_is_snake_and_stable() {
    let r = snake("Hello World!");
    assert_eq!(r, "hello_world");
    assert_eq!(snake(&r), r);
    let r = snake("__A--b__9__");
    assert_eq!(r, "a_b_9");
    assert!(r.chars().all(|c| c.is_ascii_lowercase() || c.is_ascii_digit() || c == '_'));
    assert!(!r.contains("__") && !r.starts_with('_') && !r.ends_with('_'));
    assert_eq!(snake(&r), r);
}

#[test]
fn lit_reads_only_literals() {
    assert_eq!(lit(Some(&BoundRepr::Lit(7))), Some(7));
    assert_eq!(lit(Some(&BoundRepr::Expr(s("N")))), None);
    assert_eq!(lit(None), None);
}

#[test]
fn restore_after_additions_gives_the_checkpoint_back() {
    let mut ctx = RenderContext::new();
    ctx.scalars.insert(s("n"), 3);
    ctx.strings.insert(s("S"), s("ab"));
    ctx.arrays.insert(s("A"), vec![1, 2]);
    let cp = ctx.checkpoint();
    ctx.scalars.insert(s("m"), 5);
    ctx.scalars.insert(s("a"), 9);
    ctx.strings.insert(s("T"), s("x"));
    ctx.arrays.insert(s("A"), vec![1, 2, 7, 8]);
    ctx.arrays.insert(s("B"), vec![4]);
    ctx.restore(&cp);
    assert_eq!(*ctx.scalars.entries(), vec![(s("n"), 3)]);
    assert_eq!(*ctx.strings.entries(), vec![(s("S"), s("ab"))]);
    assert_eq!(*ctx.arrays.entries(), vec![(s("A"), vec![1, 2])]);
}

#[test]
fn use_line_heads_the_template() {
    let mut out: Vec<String> = Vec::new();
    compete_spec::template::push_use_line(&mut out, false);
    assert_eq!(out, vec![s("use proconio::{input, fastout};"), s(""), s("#[fastout]")]);
    let mut out: Vec<String> = vec![s("x")];
    compete_spec::template::push_use_line(&mut out, true);
    assert_eq!(out[1], "use proconio::{input, fastout, marker::Chars};");
}
