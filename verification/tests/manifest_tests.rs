use compete_spec::random_test::cargo_reg::CrossRegistration;
use compete_spec::random_test::manifest::register_cross_bin;

const MANIFEST: &str = r#"[package]
name = "abc999"

[package.metadata.cargo-compete.bin]
abc999-a = { alias = "a", problem = "https://atcoder.jp/contests/abc999/tasks/abc999_a" }

[[bin]]
name = "abc999-a"
path = "src/bin/a.rs"
"#;

fn reg(path: &str) -> CrossRegistration {
    CrossRegistration {
        bin_name: "abc999-e-cross".to_owned(),
        alias: "e-cross".to_owned(),
        path: path.to_owned(),
    }
}

#[test]
fn a_new_cross_binary_is_registered_then_kept() {
    let problem = "https://atcoder.jp/contests/abc999/tasks/abc999_e";
    let text = register_cross_bin(MANIFEST, &reg("src/bin/e_cross.rs"), problem)
        .unwrap()
        .expect("registration writes the manifest");
    assert!(text.contains("name = \"abc999-e-cross\""));
    assert!(text.contains("path = \"src/bin/e_cross.rs\""));
    assert!(text.contains("alias = \"e-cross\""));
    assert!(text.contains(problem));
    assert!(text.contains("abc999-a"));
    assert_eq!(register_cross_bin(&text, &reg("src/bin/e_cross.rs"), problem), Ok(None));
    let moved = register_cross_bin(&text, &reg("src/bin/e2.rs"), problem)
        .unwrap()
        .expect("a new path is written");
    assert!(moved.contains("path = \"src/bin/e2.rs\""));
    assert!(!moved.contains("path = \"src/bin/e_cross.rs\""));
}

#[test]
fn a_manifest_that_is_not_toml_or_lacks_the_table_is_refused() {
    assert_eq!(
        register_cross_bin("[package", &reg("p.rs"), "u"),
        Err("failed to parse Cargo.toml".to_owned())
    );
    assert_eq!(
        register_cross_bin("[package]\nname = \"x\"\n", &reg("p.rs"), "u"),
        Err("`package.metadata.cargo-compete.bin` is not in Cargo.toml".to_owned())
    );
}
