use lib::inventory::{BinEntry, BinStatus, Probe};
use lib::npm::{claims_of_packages, load_packages_from, parse_package_json, scan, NpmPackage};

#[test]
fn parse_package_json_with_bin_object() {
    let pkg = parse_package_json(
        r#"{"name": "typescript", "version": "5.5.3",
            "bin": {"tsc": "./bin/tsc", "tsserver": "./bin/tsserver"}}"#,
    )
    .unwrap();
    assert_eq!(pkg.name, "typescript");
    assert_eq!(pkg.version, "5.5.3");
    assert_eq!(pkg.bins, vec!["tsc", "tsserver"]);
}

#[test]
fn parse_package_json_with_string_bin_uses_the_package_name() {
    let pkg = parse_package_json(
        r#"{"name": "prettier", "version": "3.3.2", "bin": "./bin/prettier.cjs"}"#,
    )
    .unwrap();
    assert_eq!(pkg.bins, vec!["prettier"]);
}

#[test]
fn scoped_string_bin_drops_the_scope() {
    let pkg = parse_package_json(
        r#"{"name": "@example/widget", "version": "1.0.0", "bin": "./cli.js"}"#,
    )
    .unwrap();
    assert_eq!(pkg.bins, vec!["widget"]);
}

#[test]
fn library_without_bin_declares_no_executables() {
    let pkg = parse_package_json(r#"{"name": "lodash", "version": "4.17.21"}"#).unwrap();
    assert!(pkg.bins.is_empty());
}

#[test]
fn parse_package_json_requires_a_name() {
    assert!(parse_package_json(r#"{"version": "1.0.0"}"#).is_err());
    assert!(parse_package_json("{nope").is_err());
}

fn typescript() -> NpmPackage {
    NpmPackage {
        name: "typescript".into(),
        version: "5.5.3".into(),
        bins: vec!["tsc".into(), "tsserver".into()],
    }
}

fn link(name: &str, target: Option<&str>) -> BinEntry {
    BinEntry {
        name: name.into(),
        path: format!("/n/bin/{name}"),
        link_target: target.map(|t| t.into()),
        same_file_as_rustup: false,
    }
}

#[test]
fn npm_scan_reconciles_declared_bins_with_the_bin_dir() {
    let packages = vec![typescript()];
    let claims = claims_of_packages(&packages);
    assert_eq!(claims.len(), 2);
    let probes = vec![
        Probe { exists: true, present: true },
        Probe { exists: false, present: false },
    ];
    let entries = vec![link("tsc", Some("/n/lib/node_modules/typescript/bin/tsc"))];
    let records = scan("/n", &packages, &probes, &entries);
    let by_name = |n: &str| records.iter().find(|r| r.name == n).unwrap();
    assert_eq!(by_name("tsc").status, BinStatus::Healthy);
    assert_eq!(by_name("tsc").package, "typescript");
    assert_eq!(
        by_name("tsserver").status,
        BinStatus::Missing("declared by 'typescript' but not linked in /n/bin".into())
    );
}

#[test]
fn npm_scan_flags_links_from_uninstalled_packages() {
    let entries = vec![link("gone-cli", Some("/n/lib/node_modules/gone-cli/cli.js"))];
    let records = scan("/n", &Vec::new(), &Vec::new(), &entries);
    let orphan = records.iter().find(|r| r.name == "gone-cli").unwrap();
    let BinStatus::Orphan(reason) = &orphan.status else {
        panic!("expected orphan");
    };
    assert!(reason.contains("node_modules"), "got: {reason}");
}

#[test]
fn npm_scan_reports_dangling_links_as_missing() {
    let packages = vec![typescript()];
    let probes = vec![
        Probe { exists: false, present: true },
        Probe { exists: true, present: true },
    ];
    let records = scan("/n", &packages, &probes, &Vec::new());
    let tsc = records.iter().find(|r| r.name == "tsc").unwrap();
    assert_eq!(tsc.status, BinStatus::Missing("link in /n/bin is a dangling symlink".into()));
    assert_eq!(tsc.origin, "npm global");
}

#[test]
fn load_packages_sorts_by_name_and_skips_bad_manifests() {
    let manifests = vec![
        r#"{"name": "zx", "version": "8.0.0", "bin": "./zx.js"}"#.to_string(),
        "{broken".to_string(),
        r#"{"name": "@example/widget", "version": "2.1.0", "bin": {"widget": "./cli.js"}}"#.to_string(),
    ];
    let pkgs = load_packages_from(&manifests);
    let names: Vec<&str> = pkgs.iter().map(|p| p.name.as_str()).collect();
    assert_eq!(names, vec!["@example/widget", "zx"]);
    assert_eq!(pkgs[0].version, "2.1.0");
}

#[test]
fn parse_package_json_errors_say_what_is_wrong() {
    assert_eq!(
        parse_package_json(r#"{"version": "1.0.0"}"#).unwrap_err(),
        "package.json: missing 'name'"
    );
    assert_eq!(parse_package_json(r#"{"name": 7}"#).unwrap_err(), "package.json: missing 'name'");
    assert_eq!(parse_package_json("{nope").unwrap_err(), "package.json: expected object key at byte 1");
}

#[test]
fn load_packages_of_missing_prefix_is_empty() {
    // A prefix without `lib/node_modules` yields no manifest texts at all.
    let none: Vec<String> = Vec::new();
    assert!(load_packages_from(&none).is_empty());
}
