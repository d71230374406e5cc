use compete_spec::project::{
    deserialize_bin_example, BinEntry, PackageMetadataCargoCompete,
    PackageMetadataCargoCompeteBinExample,
};

fn entry(key: &str, name: Option<&str>, alias: Option<&str>, problem: &str) -> BinEntry {
    BinEntry {
        key: key.to_owned(),
        name: name.map(|s| s.to_owned()),
        alias: alias.map(|s| s.to_owned()),
        problem: problem.to_owned(),
    }
}

fn bin_example(alias: &str, problem: &str) -> PackageMetadataCargoCompeteBinExample {
    PackageMetadataCargoCompeteBinExample {
        alias: alias.to_owned(),
        problem: problem.to_owned(),
    }
}

fn metadata() -> PackageMetadataCargoCompete {
    PackageMetadataCargoCompete {
        config: None,
        bin: deserialize_bin_example(&vec![
            entry(
                "abc999-a",
                None,
                Some("a"),
                "https://atcoder.jp/contests/abc999/tasks/abc999_a",
            ),
            entry(
                "abc999-e",
                None,
                Some("e"),
                "https://atcoder.jp/contests/abc999/tasks/abc999_e",
            ),
        ]),
        example: vec![],
    }
}

#[test]
fn cross_target_borrows_the_base_problem_but_keeps_its_own_name() {
    let md = metadata();
    let (name, meta) = md.bin_like_by_name_or_alias_or_cross("e_cross").unwrap();
    assert_eq!(name, "e_cross");
    assert_eq!(meta.alias, "e");

    let (name, meta) = md
        .bin_like_by_name_or_alias_or_cross("abc999-e_cross")
        .unwrap();
    assert_eq!(name, "abc999-e_cross");
    assert_eq!(meta.alias, "e");
}

#[test]
fn a_registered_target_still_wins_and_unrelated_names_do_not_resolve() {
    let md = metadata();
    let (name, meta) = md.bin_like_by_name_or_alias_or_cross("e").unwrap();
    assert_eq!((name.as_str(), &*meta.alias), ("abc999-e", "e"));

    for unknown in ["_cross", "e_copy", "e2", "ex", "z_cross"] {
        assert!(
            md.bin_like_by_name_or_alias_or_cross(unknown).is_err(),
            "`{unknown}` must not resolve to another problem",
        );
    }
}

#[test]
fn deserialize_package_metadata_cargo_compete() {
    let expected = PackageMetadataCargoCompete {
        config: None,
        bin: vec![
            (
                "practice-a".to_owned(),
                bin_example("a", "https://atcoder.jp/contests/practice/tasks/practice_1"),
            ),
            (
                "practice-b".to_owned(),
                bin_example("b", "https://atcoder.jp/contests/practice/tasks/practice_2"),
            ),
        ],
        example: vec![],
    };
    let actual = PackageMetadataCargoCompete {
        config: None,
        bin: deserialize_bin_example(&vec![
            entry(
                "practice-a",
                None,
                Some("a"),
                "https://atcoder.jp/contests/practice/tasks/practice_1",
            ),
            entry(
                "practice-b",
                None,
                Some("b"),
                "https://atcoder.jp/contests/practice/tasks/practice_2",
            ),
        ]),
        example: vec![],
    };
    assert_eq!(expected, actual);

    let expected = PackageMetadataCargoCompete {
        config: None,
        bin: vec![(
            "aplusb".to_owned(),
            bin_example("aplusb", "https://judge.yosupo.jp/problem/aplusb"),
        )],
        example: vec![],
    };
    let actual = PackageMetadataCargoCompete {
        config: None,
        bin: deserialize_bin_example(&vec![entry(
            "aplusb",
            None,
            None,
            "https://judge.yosupo.jp/problem/aplusb",
        )]),
        example: vec![],
    };
    assert_eq!(expected, actual);

    let expected = PackageMetadataCargoCompete {
        config: None,
        bin: vec![],
        example: vec![(
            "aplusb".to_owned(),
            bin_example("aplusb", "https://judge.yosupo.jp/problem/aplusb"),
        )],
    };
    let actual = PackageMetadataCargoCompete {
        config: None,
        bin: vec![],
        example: deserialize_bin_example(&vec![entry(
            "aplusb",
            None,
            None,
            "https://judge.yosupo.jp/problem/aplusb",
        )]),
    };
    assert_eq!(expected, actual);
}

#[test]
fn a_name_entry_takes_the_key_as_its_alias_and_a_repeated_name_keeps_its_place() {
    let got = deserialize_bin_example(&vec![
        entry("a", Some("abc001-a"), None, "u1"),
        entry("b", None, None, "u2"),
        entry("abc001-a", None, Some("z"), "u3"),
    ]);
    assert_eq!(
        got,
        vec![
            ("abc001-a".to_owned(), bin_example("z", "u3")),
            ("b".to_owned(), bin_example("b", "u2")),
        ]
    );
}

#[test]
fn ambiguous_and_missing_names_are_reported() {
    let md = PackageMetadataCargoCompete {
        config: None,
        bin: vec![("x".to_owned(), bin_example("a", "u1"))],
        example: vec![("y".to_owned(), bin_example("a", "u2"))],
    };
    assert_eq!(
        md.bin_like_by_name_or_alias("a").unwrap_err(),
        "multiple `problem`s for a"
    );
    assert_eq!(
        md.bin_like_by_name_or_alias("q").unwrap_err(),
        "no `problem` for: q"
    );
    let (name, meta) = md.bin_like_by_name_or_alias("y").unwrap();
    assert_eq!((name.as_str(), meta.problem.as_str()), ("y", "u2"));
    assert_eq!(
        md.bin_like_by_name_or_alias_or_cross("q_cross").unwrap_err(),
        "no `problem` for: q"
    );
}
