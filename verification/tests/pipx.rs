use lib::inventory::{BinEntry, BinStatus, Probe};
use lib::pipx::{load_venvs_from, parse_metadata, scan, PipxVenv};

const METADATA: &str = r#"{
    "main_package": {
        "package": "black",
        "package_or_url": "black",
        "package_version": "24.4.2",
        "apps": ["blackd", "black"],
        "app_paths": []
    },
    "pipx_metadata_version": "0.2"
}"#;

#[test]
fn parse_metadata_reads_package_version_and_sorted_apps() {
    let venv = parse_metadata(METADATA).unwrap();
    assert_eq!(venv.package, "black");
    assert_eq!(venv.version, "24.4.2");
    assert_eq!(venv.apps, vec!["black", "blackd"]);
}

#[test]
fn parse_metadata_tolerates_missing_version_but_not_missing_package() {
    let venv = parse_metadata(r#"{"main_package": {"package": "x", "apps": []}}"#).unwrap();
    assert_eq!(venv.version, "?");
    assert!(parse_metadata(r#"{"main_package": {}}"#).is_err());
    assert!(parse_metadata(r#"{}"#).is_err());
    assert!(parse_metadata("garbage").is_err());
}

fn black() -> PipxVenv {
    parse_metadata(METADATA).unwrap()
}

fn entry(name: &str, target: Option<&str>) -> BinEntry {
    BinEntry {
        name: name.into(),
        path: format!("/b/{name}"),
        link_target: target.map(|t| t.into()),
        same_file_as_rustup: false,
    }
}

#[test]
fn pipx_scan_marks_exposed_launchers_ok_and_absent_ones_missing() {
    let venvs = vec![black()];
    let probes = vec![
        Probe { exists: true, present: true },
        Probe { exists: false, present: false },
    ];
    let entries = vec![entry("black", Some("/p/venvs/black/bin/black"))];
    let records = scan("/p", "/b", &venvs, &probes, &entries);
    let by_name = |n: &str| records.iter().find(|r| r.name == n).unwrap();
    assert_eq!(by_name("black").status, BinStatus::Healthy);
    assert_eq!(by_name("black").version, "24.4.2");
    assert!(matches!(by_name("blackd").status, BinStatus::Missing(_)));
}

#[test]
fn pipx_scan_flags_dangling_venv_symlinks_with_a_sharp_reason() {
    let entries = vec![entry("removed-tool", Some("/p/venvs/removed-tool/bin/removed-tool"))];
    let records = scan("/p", "/b", &Vec::new(), &Vec::new(), &entries);
    let orphan = records.iter().find(|r| r.name == "removed-tool").unwrap();
    let BinStatus::Orphan(reason) = &orphan.status else {
        panic!("expected orphan, got {:?}", orphan.status);
    };
    assert!(reason.contains("pipx venv"), "got: {reason}");
}

#[test]
fn pipx_scan_reports_unmanaged_bin_dir_files_as_orphans() {
    let entries = vec![entry("old-deploy-script", None)];
    let records = scan("/p", "/b", &vec![black()], &vec![Probe { exists: true, present: true }; 2], &entries);
    let orphan = records.iter().find(|r| r.name == "old-deploy-script").unwrap();
    assert!(matches!(orphan.status, BinStatus::Orphan(_)));
    assert_eq!(orphan.package, "?");
}

#[test]
fn load_venvs_sorts_by_package_and_skips_garbage() {
    let texts = vec![
        METADATA.to_string(),
        "garbage".to_string(),
        r#"{"main_package": {"package": "awscli", "package_version": "1.0", "apps": ["aws"]}}"#.to_string(),
    ];
    let venvs = load_venvs_from(&texts);
    let names: Vec<&str> = venvs.iter().map(|v| v.package.as_str()).collect();
    assert_eq!(names, vec!["awscli", "black"]);
}

#[test]
fn parse_metadata_errors_say_what_is_wrong() {
    assert_eq!(parse_metadata("{}").unwrap_err(), "pipx_metadata.json: missing 'main_package'");
    assert_eq!(
        parse_metadata(r#"{"main_package": {}}"#).unwrap_err(),
        "pipx_metadata.json: missing main_package.package"
    );
    assert_eq!(parse_metadata("garbage").unwrap_err(), "pipx_metadata.json: invalid number '' at byte 0");
}

#[test]
fn load_venvs_of_missing_home_is_empty() {
    // A pipx home without `venvs` yields no metadata texts at all.
    let none: Vec<String> = Vec::new();
    assert!(load_venvs_from(&none).is_empty());
}
