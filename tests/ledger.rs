use cargo_bom::config::{Config, VendorPackage};
use cargo_bom::log::{BuildLog, EventField, LogError, PackageInfo};
use cargo_bom::version::{SemanticVersion, Versions};

fn texts(v: &Versions) -> Vec<String> {
    v.values().iter().map(|x| x.to_text()).collect()
}

fn descriptors(lines: &[&str]) -> Vec<String> {
    lines.iter().map(|s| s.to_string()).collect()
}

#[test]
fn versions_of_two_events_are_unioned() {
    let log = BuildLog::from_descriptors(&descriptors(&[
        "baz 1.0.0 (registry+https://github.com/rust-lang/crates.io-index)",
        "baz 1.1.0 (registry+https://github.com/rust-lang/crates.io-index)",
    ]))
    .ok()
    .unwrap();
    let usage = log.packages.get("baz").unwrap();
    assert_eq!(texts(&usage.versions), vec!["1.0.0", "1.1.0"]);
}

#[test]
fn event_order_and_repeats_do_not_change_versions() {
    let a = BuildLog::from_descriptors(&descriptors(&["x 2.0.0 s", "x 1.0.0 s", "y 0.1.0 t", "x 2.0.0 s"])).ok().unwrap();
    let b = BuildLog::from_descriptors(&descriptors(&["y 0.1.0 t", "x 1.0.0 s", "x 2.0.0 s"])).ok().unwrap();
    assert_eq!(a.packages.len(), 2);
    assert_eq!(b.packages.len(), 2);
    assert_eq!(texts(&a.packages.get("x").unwrap().versions), vec!["1.0.0", "2.0.0"]);
    assert_eq!(texts(&b.packages.get("x").unwrap().versions), vec!["1.0.0", "2.0.0"]);
    assert_eq!(a.packages.key_at(0), "x");
    assert_eq!(a.packages.key_at(1), "y");
}

#[test]
fn conflicting_origins_fail() {
    let r = BuildLog::from_descriptors(&descriptors(&["foo 1.0.0 one", "foo 1.0.1 two"]));
    match r {
        Err(LogError::OriginConflict { id, found, existing }) => {
            assert_eq!(id, "foo");
            assert_eq!(found, "two");
            assert_eq!(existing, "one");
        }
        _ => panic!("expected an origin conflict"),
    }
}

#[test]
fn conflicting_origins_leave_ledger_unchanged() {
    let mut log = BuildLog::from_descriptors(&descriptors(&["foo 1.0.0 one"])).ok().unwrap();
    let info = PackageInfo::from_str("foo 2.0.0 two").ok().unwrap();
    assert!(log.merge(info).is_err());
    assert_eq!(texts(&log.packages.get("foo").unwrap().versions), vec!["1.0.0"]);
    assert_eq!(log.packages.get("foo").unwrap().source, "one");
}

#[test]
fn conflicts_surface_across_files() {
    let mut log = BuildLog::new();
    assert!(log.ingest(&descriptors(&["foo 1.0.0 one"])).is_ok());
    assert!(matches!(log.ingest(&descriptors(&["foo 1.0.0 two"])), Err(LogError::OriginConflict { .. })));
}

#[test]
fn descriptor_missing_fields_fail() {
    assert!(matches!(PackageInfo::from_str("   "), Err(LogError::MalformedEvent(EventField::Id))));
    assert!(matches!(PackageInfo::from_str("foo"), Err(LogError::MalformedEvent(EventField::Version))));
    assert!(matches!(PackageInfo::from_str("foo 1.0.0"), Err(LogError::MalformedEvent(EventField::Source))));
}

#[test]
fn descriptor_with_bad_version_fails() {
    match PackageInfo::from_str("foo 1.x src") {
        Err(LogError::BadVersion(v)) => assert_eq!(v, "1.x"),
        _ => panic!("expected a bad version"),
    }
}

#[test]
fn descriptor_parses_three_words() {
    let info = PackageInfo::from_str("serde 1.0.130 (registry+https://x) extra").ok().unwrap();
    assert_eq!(info.id, "serde");
    assert_eq!(info.version.to_text(), "1.0.130");
    assert_eq!(info.source, "(registry+https://x)");
}

#[test]
fn failed_ingestion_returns_no_ledger() {
    assert!(BuildLog::from_descriptors(&descriptors(&["a 1.0.0 s", "b"])).is_err());
}

#[test]
fn repeated_version_is_kept_once() {
    let mut v = Versions::new();
    v.insert(SemanticVersion::new(1, 0, 0));
    v.insert(SemanticVersion::new(1, 0, 0));
    assert_eq!(v.len(), 1);
    assert!(v.contains(&SemanticVersion::new(1, 0, 0)));
    assert!(!v.contains(&SemanticVersion::new(1, 0, 1)));
}

#[test]
fn versions_ascend_by_precedence() {
    let mut v = Versions::new();
    for t in ["1.10.0", "1.2.0", "1.0.0", "1.0.0-alpha", "0.9.9"] {
        v.insert(SemanticVersion::parse(t).unwrap());
    }
    assert_eq!(texts(&v), vec!["0.9.9", "1.0.0-alpha", "1.0.0", "1.2.0", "1.10.0"]);
    assert_eq!(v.to_text(), "[0.9.9, 1.0.0-alpha, 1.0.0, 1.2.0, 1.10.0]");
    assert_eq!(v.first().unwrap().to_text(), "0.9.9");
}

#[test]
fn version_parse_reads_all_parts() {
    let v = SemanticVersion::parse("1.2.3-beta.2+build.5").unwrap();
    assert_eq!((v.major(), v.minor(), v.patch()), (1, 2, 3));
    assert_eq!(v.pre(), "beta.2");
    assert_eq!(v.build(), "build.5");
    assert_eq!(v.to_text(), "1.2.3-beta.2+build.5");
    assert!(SemanticVersion::parse("").is_none());
    assert!(SemanticVersion::parse("1.0").is_none());
}

#[test]
fn version_compare_orders_by_precedence() {
    let a = SemanticVersion::parse("1.0.0-rc.1").unwrap();
    let b = SemanticVersion::parse("1.0.0").unwrap();
    assert_eq!(a.compare(&b), std::cmp::Ordering::Less);
    assert_eq!(b.compare(&a), std::cmp::Ordering::Greater);
    assert_eq!(b.compare(&SemanticVersion::new(1, 0, 0)), std::cmp::Ordering::Equal);
}

#[test]
fn pruning_removes_build_only_and_vendor() {
    let mut log = BuildLog::from_descriptors(&descriptors(&["a 1.0.0 s", "b 1.0.0 s", "c 1.0.0 s"])).ok().unwrap();
    let mut config = Config::new();
    config.build_only.insert("a".to_string());
    config.vendor.insert("c".to_string(), VendorPackage { url: "https://example.com/c".to_string() });
    log.remove_build_deps(&config);
    assert!(log.packages.get("a").is_none());
    assert_eq!(log.packages.len(), 2);
    log.remove_vendor_deps(&config);
    assert_eq!(log.packages.len(), 1);
    assert_eq!(log.packages.key_at(0), "b");
}
