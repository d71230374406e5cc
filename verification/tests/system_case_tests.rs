use compete_spec::maps::PairSet;
use compete_spec::parse::ordering::transitive_closure_ordering;
use compete_spec::testing::{pair_system_test_cases, txt_stem, SystemTestCase};

fn s(x: &str) -> String {
    x.to_string()
}

#[test]
fn txt_stem_reads_the_extension_as_a_path_does() {
    assert_eq!(txt_stem("01.txt"), Some(s("01")));
    assert_eq!(txt_stem("a.b.txt"), Some(s("a.b")));
    assert_eq!(txt_stem("..txt"), Some(s(".")));
    assert_eq!(txt_stem(".txt"), None);
    assert_eq!(txt_stem("01.in"), None);
    assert_eq!(txt_stem("txt"), None);
}

#[test]
fn system_cases_pair_inputs_with_outputs_in_name_order() {
    let ins = vec![
        (s("b.txt"), s("2\n")),
        (s("a.txt"), s("1\n")),
        (s("c.txt"), s("3\n")),
        (s("notes.md"), s("x")),
    ];
    let outs = vec![(s("a.txt"), s("10\n")), (s("c.txt"), s("30\n")), (s("z.txt"), s("99\n"))];
    let cases = pair_system_test_cases(&ins, &outs);
    assert_eq!(
        cases,
        vec![
            SystemTestCase { name: s("a"), input: s("1\n"), output: Some(s("10\n")) },
            SystemTestCase { name: s("b"), input: s("2\n"), output: None },
            SystemTestCase { name: s("c"), input: s("3\n"), output: Some(s("30\n")) },
        ]
    );
}

#[test]
fn system_cases_without_inputs_are_dropped() {
    let ins: Vec<(String, String)> = vec![];
    let outs = vec![(s("a.txt"), s("1\n"))];
    assert_eq!(pair_system_test_cases(&ins, &outs), vec![]);
}

#[test]
fn ordering_closure_is_transitive_and_keeps_given_pairs() {
    let mut ps = PairSet::new();
    ps.insert((s("a"), s("b")));
    ps.insert((s("b"), s("c")));
    ps.insert((s("c"), s("d")));
    let r = transitive_closure_ordering(ps);
    for (x, y) in [("a", "b"), ("b", "c"), ("c", "d"), ("a", "c"), ("b", "d"), ("a", "d")] {
        assert!(r.contains(&(s(x), s(y))), "missing {} {}", x, y);
    }
    assert!(!r.contains(&(s("d"), s("a"))));
    assert_eq!(r.len(), 6);
}
