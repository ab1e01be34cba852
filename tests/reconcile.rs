use cargo_bom::bom::{create_bom, BomError, LicenseType, Timestamp};
use cargo_bom::components::{extract_deps, merge_components, Component, ExtractError};
use cargo_bom::config::{
    Config, Copyright, License, LicenseTexts, Package, Source, VendorPackage, NO_COPYRIGHT_LINE,
};
use cargo_bom::ids::IdMap;
use cargo_bom::log::BuildLog;
use cargo_bom::reconcile::{diff_tree, generate_config, TreeMismatch};
use cargo_bom::report::{gen_licenses, gen_licenses_for, ReportError, COPIES_NOTE, REPORT_HEADER};
use cargo_bom::tree::parse_tree;
use cargo_bom::version::Versions;

fn ledger(lines: &[&str]) -> BuildLog {
    let d: Vec<String> = lines.iter().map(|s| s.to_string()).collect();
    BuildLog::from_descriptors(&d).ok().unwrap()
}

fn tree(lines: &[&str]) -> Vec<cargo_bom::tree::Dependency> {
    let mut all = vec!["root v0.1.0".to_string()];
    all.extend(lines.iter().map(|s| s.to_string()));
    parse_tree(&all).ok().unwrap()
}

fn texts() -> LicenseTexts {
    LicenseTexts {
        isc: "ISC TEXT".to_string(),
        mit: "MIT TEXT".to_string(),
        openssl: "OPENSSL TEXT".to_string(),
        bsl1: "BSL TEXT".to_string(),
        mpl2: "MPL TEXT".to_string(),
        bsd3: "BSD3 TEXT".to_string(),
        unicode_dfs_2016: "UNICODE TEXT".to_string(),
    }
}

fn package(id: &str, licenses: Vec<License>) -> Package {
    Package { id: id.to_string(), source: Source::CratesIo, licenses }
}

#[test]
fn diff_reports_ledger_version_missing_from_tree() {
    let log = ledger(&["foo 1.0.0 s", "foo 1.0.1 s"]);
    let t = tree(&["└── foo v1.0.0"]);
    let d = diff_tree(&log, &t);
    assert!(d.tree_only.is_empty());
    assert_eq!(d.log_only.len(), 1);
    assert_eq!(d.log_only[0].id, "foo");
    assert_eq!(d.log_only[0].version.to_text(), "1.0.1");
}

#[test]
fn diff_reports_both_directions() {
    let log = ledger(&["foo 1.0.0 s", "bar 2.0.0 s"]);
    let t = tree(&["├── foo v1.1.0", "└── baz v0.1.0"]);
    let d = diff_tree(&log, &t);
    assert_eq!(d.tree_only.len(), 2);
    match &d.tree_only[0] {
        TreeMismatch::UnknownVersion(dep) => {
            assert_eq!(dep.id, "foo");
            assert_eq!(dep.version.to_text(), "1.1.0");
        }
        _ => panic!("expected an unknown version"),
    }
    match &d.tree_only[1] {
        TreeMismatch::UnknownPackage(id) => assert_eq!(id, "baz"),
        _ => panic!("expected an unknown package"),
    }
    let log_only: Vec<(String, String)> = d.log_only.iter().map(|x| (x.id.clone(), x.version.to_text())).collect();
    assert_eq!(log_only, vec![("bar".to_string(), "2.0.0".to_string()), ("foo".to_string(), "1.0.0".to_string())]);
}

#[test]
fn gen_config_puts_untreed_package_in_build_only() {
    let log = ledger(&["qux 2.0.0 s", "serde 1.0.0 s"]);
    let t = tree(&["└── serde v1.0.0"]);
    let c = generate_config(&log, &t);
    assert!(c.build_only.contains("qux"));
    assert!(!c.third_party.contains_key("qux"));
    assert!(c.third_party.contains_key("serde"));
    assert!(!c.build_only.contains("serde"));
    let p = c.third_party.get("serde").unwrap();
    assert_eq!(p.id, "serde");
    assert!(p.licenses.is_empty());
}

#[test]
fn report_rejects_package_missing_from_allow_list() {
    let log = ledger(&["bar 1.0.0 s", "foo 1.0.0 s", "zed 1.0.0 s"]);
    let mut config = Config::new();
    config.third_party.insert("foo".to_string(), package("foo", vec![License::Mpl2]));
    match gen_licenses(log, &config, &texts()) {
        Err(ReportError::AllowListViolation(ids)) => assert_eq!(ids, vec!["bar".to_string(), "zed".to_string()]),
        _ => panic!("expected an allow-list violation"),
    }
}

#[test]
fn report_rejects_package_without_license() {
    let log = ledger(&["foo 1.0.0 s"]);
    let mut config = Config::new();
    config.third_party.insert("foo".to_string(), package("foo", vec![]));
    match gen_licenses(log, &config, &texts()) {
        Err(ReportError::NoLicenseSpecified(id)) => assert_eq!(id, "foo"),
        _ => panic!("expected a missing license"),
    }
}

#[test]
fn report_rejects_unclassified_license() {
    let log = ledger(&["foo 1.0.0 s"]);
    let mut config = Config::new();
    config.third_party.insert("foo".to_string(), package("foo", vec![License::Unknown]));
    match gen_licenses(log, &config, &texts()) {
        Err(ReportError::UnknownLicense(id)) => assert_eq!(id, "foo"),
        _ => panic!("expected an unknown license"),
    }
}

#[test]
fn report_lines_are_exact() {
    let log = ledger(&["b 1.0.0 s", "a 0.2.0 s", "a 0.1.0 s", "skip 1.0.0 s", "vend 1.0.0 s"]);
    let mut config = Config::new();
    config.build_only.insert("skip".to_string());
    config.vendor.insert("vend".to_string(), VendorPackage { url: "https://example.com/vend".to_string() });
    config.third_party.insert(
        "a".to_string(),
        package("a", vec![License::Mit { copyright: Copyright::Lines(vec!["Copyright A".to_string()]) }, License::Mpl2]),
    );
    config.third_party.insert("b".to_string(), package("b", vec![License::Isc { copyright: Copyright::NotPresent }]));
    let rep = gen_licenses(log, &config, &texts()).ok().unwrap();
    let expected: Vec<String> = vec![
        REPORT_HEADER,
        "",
        "  * ISC",
        "      - https://spdx.org/licenses/ISC.html",
        "  * MIT",
        "      - https://spdx.org/licenses/MIT.html",
        "  * MPL-2.0",
        "      - https://spdx.org/licenses/MPL-2.0.html",
        "",
        COPIES_NOTE,
        "",
        "crate: a",
        "version(s): 0.1.0, 0.2.0",
        "url: https://crates.io/crates/a",
        "license(s): MIT AND MPL-2.0",
        "Copyright A",
        "",
        "crate: b",
        "version(s): 1.0.0",
        "url: https://crates.io/crates/b",
        "license(s): ISC",
        NO_COPYRIGHT_LINE,
        "",
        "ISC TEXT",
        "",
        "MIT TEXT",
        "",
        "MPL TEXT",
        "",
    ]
    .into_iter()
    .map(|s| s.to_string())
    .collect();
    assert_eq!(rep.lines, expected);
    assert_eq!(rep.summary.len(), 3);
}

#[test]
fn not_present_copyright_gives_placeholder_line() {
    assert_eq!(Copyright::NotPresent.lines(), vec![NO_COPYRIGHT_LINE.to_string()]);
    let l = License::Bsd3 { copyright: Copyright::NotPresent };
    assert_eq!(l.copyright(), Some(vec![NO_COPYRIGHT_LINE.to_string()]));
    assert_eq!(l.copyrights(), Some(vec![NO_COPYRIGHT_LINE.to_string()]));
    assert!(!NO_COPYRIGHT_LINE.is_empty());
    assert_eq!(License::OpenSsl.copyright(), None);
    assert_eq!(License::Unknown.copyright(), None);
}

#[test]
fn license_accessors_are_fixed() {
    let l = License::UnicodeDfs2016;
    assert_eq!(l.spdx_short(), "Unicode-DFS-2016");
    assert_eq!(l.url(), "https://spdx.org/licenses/Unicode-DFS-2016.html");
    assert_eq!(l.text(&texts()), "UNICODE TEXT");
    let info = License::Bsl1.info(&texts());
    assert_eq!(info.url, "https://spdx.org/licenses/BSL-1.0.html");
    assert_eq!(info.text, "BSL TEXT");
    assert!(!License::Unknown.known());
    assert_eq!(package("serde", vec![]).url(), "https://crates.io/crates/serde");
}

#[test]
fn bom_lists_vendor_and_open_source_dependencies() {
    let log = ledger(&["app 0.3.0 s", "app 0.2.0 s", "lib 1.0.0 s", "oss 2.1.0 s", "tool 1.0.0 s"]);
    let mut config = Config::new();
    config.build_only.insert("tool".to_string());
    config.vendor.insert("app".to_string(), VendorPackage { url: "https://example.com/app".to_string() });
    config.vendor.insert("lib".to_string(), VendorPackage { url: "https://example.com/lib".to_string() });
    config.third_party.insert(
        "oss".to_string(),
        package("oss", vec![License::Mit { copyright: Copyright::Lines(vec!["(c) X".to_string()]) }]),
    );
    let ts = Timestamp { seconds: 1_700_000_000, nanos: 5 };
    let bom = create_bom("app".to_string(), log, config, ts).ok().unwrap();
    assert_eq!(bom.timestamp, ts);
    assert_eq!(bom.subject.crate_name, "app");
    assert_eq!(bom.subject.url, "https://example.com/app");
    assert_eq!(bom.subject.version.to_text(), "0.2.0");
    assert_eq!(bom.dependencies.len(), 2);
    assert_eq!(bom.dependencies[0].crate_name, "lib");
    assert_eq!(bom.dependencies[0].url, "https://example.com/lib");
    assert!(matches!(bom.dependencies[0].license, LicenseType::Vendor));
    assert_eq!(bom.dependencies[1].crate_name, "oss");
    assert_eq!(bom.dependencies[1].url, "https://crates.io/crates/oss");
    assert_eq!(bom.dependencies[1].versions[0].to_text(), "2.1.0");
    match &bom.dependencies[1].license {
        LicenseType::OpenSource(v) => {
            assert_eq!(v.len(), 1);
            assert_eq!(v[0].spdx_short, "MIT");
            assert_eq!(v[0].copyrights, Some(vec!["(c) X".to_string()]));
        }
        _ => panic!("expected open source"),
    }
}

#[test]
fn bom_subject_errors() {
    let config = Config::new();
    assert!(matches!(
        create_bom("app".to_string(), ledger(&["app 1.0.0 s"]), config, Timestamp { seconds: 0, nanos: 0 }),
        Err(BomError::SubjectNotVendor(_))
    ));
    let mut config = Config::new();
    config.vendor.insert("app".to_string(), VendorPackage { url: "u".to_string() });
    assert!(matches!(
        create_bom("app".to_string(), ledger(&["other 1.0.0 s"]), config, Timestamp { seconds: 0, nanos: 0 }),
        Err(BomError::SubjectNotInLog(_))
    ));
}

#[test]
fn bom_rejects_unknown_dependency() {
    let mut config = Config::new();
    config.vendor.insert("app".to_string(), VendorPackage { url: "u".to_string() });
    match create_bom("app".to_string(), ledger(&["app 1.0.0 s", "mystery 1.0.0 s"]), config, Timestamp { seconds: 0, nanos: 0 }) {
        Err(BomError::UnknownDependency(id)) => assert_eq!(id, "mystery"),
        _ => panic!("expected an unknown dependency"),
    }
}

#[test]
fn components_skip_build_only_and_vendor() {
    let mut config = Config::new();
    config.build_only.insert("b".to_string());
    config.vendor.insert("v".to_string(), VendorPackage { url: "u".to_string() });
    let cs = vec![
        Component { name: "x".to_string(), version: Some("1.0.0".to_string()) },
        Component { name: "b".to_string(), version: Some("1.0.0".to_string()) },
        Component { name: "v".to_string(), version: Some("1.0.0".to_string()) },
        Component { name: "x".to_string(), version: Some("0.9.0".to_string()) },
    ];
    let deps = extract_deps(&Some(cs), &config).ok().unwrap();
    assert_eq!(deps.len(), 1);
    assert_eq!(deps.get("x").unwrap().to_text(), "[0.9.0, 1.0.0]");
}

#[test]
fn component_errors() {
    let config = Config::new();
    assert!(matches!(extract_deps(&None, &config), Err(ExtractError::MissingComponents)));
    let cs = vec![Component { name: "x".to_string(), version: None }];
    assert!(matches!(extract_deps(&Some(cs), &config), Err(ExtractError::MissingVersion(_))));
    let cs = vec![Component { name: "x".to_string(), version: Some("one".to_string()) }];
    assert!(matches!(extract_deps(&Some(cs), &config), Err(ExtractError::BadVersion(_))));
}

#[test]
fn components_of_several_files_are_merged() {
    let config = Config::new();
    let first = vec![Component { name: "x".to_string(), version: Some("1.0.0".to_string()) }];
    let second = vec![
        Component { name: "x".to_string(), version: Some("1.1.0".to_string()) },
        Component { name: "y".to_string(), version: Some("0.1.0".to_string()) },
    ];
    let mut acc: IdMap<Versions> = IdMap::new();
    merge_components(&mut acc, &extract_deps(&Some(first), &config).ok().unwrap());
    merge_components(&mut acc, &extract_deps(&Some(second), &config).ok().unwrap());
    assert_eq!(acc.len(), 2);
    assert_eq!(acc.get("x").unwrap().to_text(), "[1.0.0, 1.1.0]");
    let mut config = Config::new();
    config.third_party.insert("x".to_string(), package("x", vec![License::Bsl1]));
    config.third_party.insert("y".to_string(), package("y", vec![License::OpenSsl]));
    let rep = gen_licenses_for(&acc, &config, &texts()).ok().unwrap();
    assert!(rep.lines.contains(&"version(s): 1.0.0, 1.1.0".to_string()));
}

#[test]
fn gen_config_keeps_each_identity_in_one_category() {
    let log = ledger(&["foo 1.0.0 s", "foo 1.0.1 s", "bar 0.1.0 s"]);
    let t = tree(&["└── foo v1.0.0"]);
    let c = generate_config(&log, &t);
    assert!(c.third_party.contains_key("foo"));
    assert!(!c.build_only.contains("foo"));
    assert!(c.build_only.contains("bar"));
    assert_eq!(c.build_only.len(), 1);
    assert_eq!(c.third_party.len(), 1);
}
