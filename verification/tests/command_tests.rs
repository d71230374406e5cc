use compete_spec::commands::{parse_cross_args, validate_generated_check_options};

#[test]
fn no_test_rejects_generated_checks() {
    assert!(validate_generated_check_options(true, false, true, false).is_err());
    assert!(validate_generated_check_options(true, false, false, true).is_err());
}

#[test]
fn no_sample_requires_generated_check() {
    assert!(validate_generated_check_options(false, true, false, false).is_err());
    assert!(validate_generated_check_options(false, true, true, false).is_ok());
    assert!(validate_generated_check_options(false, true, false, true).is_ok());
}

#[test]
fn plain_no_test_remains_valid() {
    assert!(validate_generated_check_options(true, false, false, false).is_ok());
}

#[test]
fn cross_args_split_into_target_and_count() {
    let v = |ss: &[&str]| ss.iter().map(|s| (*s).to_owned()).collect::<Vec<_>>();
    assert_eq!(parse_cross_args(&v(&[])).unwrap(), (None, 100));
    assert_eq!(parse_cross_args(&v(&["30"])).unwrap(), (None, 30));
    assert_eq!(
        parse_cross_args(&v(&["e_cross"])).unwrap(),
        (Some("e_cross"), 100)
    );
    assert_eq!(
        parse_cross_args(&v(&["e_cross", "30"])).unwrap(),
        (Some("e_cross"), 30)
    );
}

#[test]
fn cross_rejects_a_path_and_a_non_numeric_count() {
    let v = |ss: &[&str]| ss.iter().map(|s| (*s).to_owned()).collect::<Vec<_>>();
    // Silently defaulting to 100 cases on a typo hid the mistake entirely.
    assert!(parse_cross_args(&v(&["e_cross", "xyz"])).is_err());
    for path in ["e_cross.rs", "src/bin/e_cross.rs", "./e_cross"] {
        assert!(
            parse_cross_args(&v(&[path])).is_err(),
            "`--cross {path}` must be rejected as a path"
        );
    }
}
