use cargo_bom::config::{Copyright, License, LicenseError, Package, Source, TargetInfo, NO_COPYRIGHT_LINE};

fn package(licenses: Vec<License>) -> Package {
    Package { id: "p".to_string(), source: Source::CratesIo, licenses }
}

#[test]
fn package_licenses_become_spdx_expressions() {
    let p = package(vec![License::Mit { copyright: Copyright::NotPresent }, License::Mpl2]);
    assert_eq!(p.licenses().ok().unwrap().len(), 2);
    assert!(package(vec![]).licenses().ok().unwrap().is_empty());
}

#[test]
fn package_copyright_joins_lines() {
    let p = package(vec![
        License::Mit { copyright: Copyright::Lines(vec!["a".to_string(), "b".to_string()]) },
        License::OpenSsl,
        License::Isc { copyright: Copyright::NotPresent },
    ]);
    assert_eq!(p.copyright_text(), Some(format!("a\nb\n{}", NO_COPYRIGHT_LINE)));
    let n = p.copyright().unwrap();
    assert_eq!(n.to_string(), format!("a b {}", NO_COPYRIGHT_LINE));
    assert_eq!(package(vec![License::Bsl1]).copyright_text(), None);
    assert!(package(vec![License::Bsl1]).copyright().is_none());
}

#[test]
fn vendor_license_needs_a_uri() {
    let t = TargetInfo {
        name: "app".to_string(),
        version: "1.0.0".to_string(),
        license_url: "https://example.com/license".to_string(),
    };
    assert_eq!(t.vendor_licenses().ok().unwrap().len(), 1);
    let bad = TargetInfo { name: "app".to_string(), version: "1.0.0".to_string(), license_url: "no uri".to_string() };
    match bad.vendor_licenses() {
        Err(LicenseError::InvalidUri(u)) => assert_eq!(u, "no uri"),
        _ => panic!("expected an invalid URI"),
    }
}

#[test]
fn license_texts_must_all_be_present() {
    let mut t = cargo_bom::config::LicenseTexts {
        isc: "i".to_string(),
        mit: "m".to_string(),
        openssl: "o".to_string(),
        bsl1: "b".to_string(),
        mpl2: "p".to_string(),
        bsd3: "d".to_string(),
        unicode_dfs_2016: "u".to_string(),
    };
    assert!(t.all_present());
    t.mpl2 = String::new();
    assert!(!t.all_present());
}
