use cargo_bom::tree::{get_package_id, parse_tree, Dependency, TreeError};
use cargo_bom::version::SemanticVersion;
use cargo_bom::words::split_words;

#[test]
fn parses_line_with_trailing_asterisk() {
    let line = "    │   └── tracing-core v0.1.28 (*)";
    let dep = Dependency::from_str(line).ok().unwrap();
    assert_eq!(dep.id, "tracing-core");
    assert!(dep.version.same(&SemanticVersion::new(0, 1, 28)));
}

#[test]
fn words_split_on_ascii_whitespace() {
    let w = split_words("  a\tbb \n c  ");
    assert_eq!(w, vec!["a".to_string(), "bb".to_string(), "c".to_string()]);
    assert!(split_words("   ").is_empty());
}

#[test]
fn package_id_is_first_identity_word() {
    let w = split_words("│ ├── serde_json v1.0.0");
    assert_eq!(get_package_id(&w), Some(2));
    let none = split_words("│ ├── (*)");
    assert_eq!(get_package_id(&none), None);
}

#[test]
fn tree_line_without_identity_fails() {
    assert!(matches!(Dependency::from_str("│ └── (*)"), Err(TreeError::MissingIdentity)));
}

#[test]
fn tree_line_without_version_fails() {
    assert!(matches!(Dependency::from_str("└── foo"), Err(TreeError::MissingVersion)));
}

#[test]
fn tree_line_with_bad_prefix_fails() {
    match Dependency::from_str("└── foo 1.0.0") {
        Err(TreeError::BadVersionPrefix(w)) => assert_eq!(w, "1.0.0"),
        _ => panic!("expected a bad prefix"),
    }
}

#[test]
fn tree_line_with_bad_version_fails() {
    match Dependency::from_str("└── foo v1.0") {
        Err(TreeError::BadVersion(w)) => assert_eq!(w, "1.0"),
        _ => panic!("expected a bad version"),
    }
}

#[test]
fn tree_skips_root_and_keeps_order_and_duplicates() {
    let lines = vec![
        "mycrate v0.1.0 (/path)".to_string(),
        "├── foo v1.0.0".to_string(),
        "│   └── bar v2.0.0-rc.1".to_string(),
        "└── foo v1.0.0 (*)".to_string(),
    ];
    let deps = parse_tree(&lines).ok().unwrap();
    assert_eq!(deps.len(), 3);
    assert_eq!(deps[0].id, "foo");
    assert_eq!(deps[1].id, "bar");
    assert_eq!(deps[1].version.to_text(), "2.0.0-rc.1");
    assert_eq!(deps[2].id, "foo");
}

#[test]
fn tree_parsing_twice_gives_same_entries() {
    let lines = vec!["root v0.1.0".to_string(), "├── a v1.0.0".to_string(), "└── b v0.2.3".to_string()];
    let first = parse_tree(&lines).ok().unwrap();
    let second = parse_tree(&lines).ok().unwrap();
    assert_eq!(first.len(), second.len());
    for (x, y) in first.iter().zip(second.iter()) {
        assert_eq!(x.id, y.id);
        assert!(x.version.same(&y.version));
    }
}

#[test]
fn tree_with_bad_line_fails_whole() {
    let lines = vec!["root v0.1.0".to_string(), "├── a v1.0.0".to_string(), "└── (*)".to_string()];
    assert!(matches!(parse_tree(&lines), Err(TreeError::MissingIdentity)));
}

#[test]
fn empty_tree_has_no_entries() {
    assert!(parse_tree(&Vec::new()).ok().unwrap().is_empty());
    assert!(parse_tree(&vec!["root v1.0.0".to_string()]).ok().unwrap().is_empty());
}
