use lib::cargo::{load_installs_from, parse_crates2, parse_crates_toml, parse_spec, scan, CargoInstall};
use lib::inventory::{BinEntry, BinStatus, Probe};

const CRATES_IO: &str = "registry+https://github.com/rust-lang/crates.io-index";

#[test]
fn parse_spec_extracts_all_fields() {
    let (name, version, origin, source) =
        parse_spec(&format!("ripgrep 14.1.0 ({CRATES_IO})")).unwrap();
    assert_eq!(name, "ripgrep");
    assert_eq!(version, "14.1.0");
    assert_eq!(origin, "crates.io");
    assert_eq!(source, CRATES_IO);
}

#[test]
fn parse_spec_classifies_every_source_kind() {
    let origin = |src: &str| parse_spec(&format!("x 1.0.0 ({src})")).unwrap().2;
    assert_eq!(origin(CRATES_IO), "crates.io");
    assert_eq!(origin("sparse+https://index.crates.io/"), "crates.io");
    assert_eq!(origin("registry+https://example.test/index"), "registry");
    assert_eq!(origin("git+https://example.test/repo.git#abc123"), "git");
    assert_eq!(origin("path+file:///build/mytool"), "path");
}

#[test]
fn parse_spec_rejects_malformed_specs() {
    assert!(parse_spec("no-version-or-source").is_none());
    assert!(parse_spec("name 1.0.0").is_none());
    assert!(parse_spec("name 1.0.0 extra (src)").is_none());
    assert!(parse_spec("name 1.0.0 ()").is_none());
}

#[test]
fn parse_crates2_reads_installs_and_sorts_by_name() {
    let text = format!(
        r#"{{"installs": {{
            "zoxide 0.9.4 ({CRATES_IO})": {{"bins": ["zoxide"]}},
            "cargo-edit 0.12.2 ({CRATES_IO})": {{"bins": ["cargo-add", "cargo-rm"]}}
        }}}}"#
    );
    let installs = parse_crates2(&text).unwrap();
    assert_eq!(installs.len(), 2);
    assert_eq!(installs[0].name, "cargo-edit");
    assert_eq!(installs[0].bins, vec!["cargo-add", "cargo-rm"]);
    assert_eq!(installs[1].name, "zoxide");
    assert_eq!(installs[1].version, "0.9.4");
}

#[test]
fn parse_crates2_rejects_wrong_shape() {
    assert!(parse_crates2("{}").is_err());
    assert!(parse_crates2(r#"{"installs": {"bad spec": {"bins": []}}}"#).is_err());
    assert!(parse_crates2("not json").is_err());
}

#[test]
fn parse_crates_toml_reads_the_legacy_registry() {
    let text = format!(
        "[v1]\n\"ripgrep 14.1.0 ({CRATES_IO})\" = [\"rg\"]\n\
         \"cargo-edit 0.12.2 ({CRATES_IO})\" = [\"cargo-add\", \"cargo-rm\"]\n"
    );
    let installs = parse_crates_toml(&text).unwrap();
    assert_eq!(installs.len(), 2);
    assert_eq!(installs[1].name, "ripgrep");
    assert_eq!(installs[1].bins, vec!["rg"]);
    assert_eq!(installs[0].bins, vec!["cargo-add", "cargo-rm"]);
}

#[test]
fn parse_crates_toml_ignores_comments_and_other_tables() {
    let text = format!(
        "# registry\n[v2]\n\"junk 0.0.0 ({CRATES_IO})\" = [\"junk\"]\n\
         [v1]\n\"real 1.0.0 ({CRATES_IO})\" = [\"real\"]\n"
    );
    let installs = parse_crates_toml(&text).unwrap();
    assert_eq!(installs.len(), 1);
    assert_eq!(installs[0].name, "real");
}

#[test]
fn parse_crates_toml_reports_the_failing_line() {
    let err = parse_crates_toml("[v1]\nthis is not an entry\n").unwrap_err();
    assert!(err.contains("line 2"), "got: {err}");
}

fn install(name: &str, bins: &[&str]) -> CargoInstall {
    CargoInstall {
        name: name.to_string(),
        version: "1.0.0".to_string(),
        origin: "crates.io".to_string(),
        source: CRATES_IO.to_string(),
        bins: bins.iter().map(|b| b.to_string()).collect(),
    }
}

fn entry(name: &str, link: Option<&str>, rustup_twin: bool) -> BinEntry {
    BinEntry {
        name: name.to_string(),
        path: format!("/home/u/.cargo/bin/{name}"),
        link_target: link.map(|l| l.to_string()),
        same_file_as_rustup: rustup_twin,
    }
}

#[test]
fn cargo_scan_reconciles_claims_against_the_listing() {
    let installs = vec![install("ripgrep", &["rg"]), install("gone-tool", &["gone"])];
    let probes = vec![
        Probe { exists: true, present: true },
        Probe { exists: false, present: false },
    ];
    let entries = vec![entry("mystery", None, false), entry("rg", None, false)];
    let records = scan("/home/u/.cargo", &installs, &probes, &entries);
    let by_name = |n: &str| records.iter().find(|r| r.name == n).unwrap();
    assert_eq!(records.len(), 3);
    assert_eq!(by_name("rg").status, BinStatus::Healthy);
    assert_eq!(by_name("rg").package, "ripgrep");
    assert_eq!(by_name("rg").path, "/home/u/.cargo/bin/rg");
    assert_eq!(
        by_name("gone").status,
        BinStatus::Missing("registered by 'gone-tool' but absent from /home/u/.cargo/bin".to_string())
    );
    assert!(matches!(by_name("mystery").status, BinStatus::Orphan(_)));
    let names: Vec<&str> = records.iter().map(|r| r.name.as_str()).collect();
    assert_eq!(names, vec!["gone", "mystery", "rg"]);
}

#[test]
fn cargo_scan_attributes_rustup_and_its_proxies() {
    let entries = vec![
        entry("cargo", Some("/home/u/.cargo/bin/rustup"), false),
        entry("mystery", None, false),
        entry("rustc", None, true),
        entry("rustup", None, false),
    ];
    let records = scan("/home/u/.cargo", &Vec::new(), &Vec::new(), &entries);
    let by_name = |n: &str| records.iter().find(|r| r.name == n).unwrap();
    assert_eq!(by_name("rustup").status, BinStatus::Healthy);
    assert_eq!(by_name("rustup").origin, "rustup");
    for proxy in ["cargo", "rustc"] {
        assert_eq!(by_name(proxy).status, BinStatus::Healthy, "{proxy}");
        assert_eq!(by_name(proxy).package, "rustup");
        assert_eq!(by_name(proxy).origin, "rustup proxy");
    }
    assert!(matches!(by_name("mystery").status, BinStatus::Orphan(_)));
}

#[test]
fn cargo_scan_without_any_registry_marks_everything_orphan() {
    let entries = vec![entry("stray", None, false)];
    let records = scan("/home/u/.cargo", &Vec::new(), &Vec::new(), &entries);
    assert_eq!(records.len(), 1);
    assert!(matches!(records[0].status, BinStatus::Orphan(_)));
    assert_eq!(records[0].package, "?");
}

#[test]
fn load_installs_prefers_crates2_then_toml_then_nothing() {
    let crates2 = format!(r#"{{"installs": {{"zoxide 0.9.4 ({CRATES_IO})": {{"bins": ["zoxide"]}}}}}}"#);
    let toml = format!("[v1]\n\"ripgrep 14.1.0 ({CRATES_IO})\" = [\"rg\"]\n");
    let from2 = load_installs_from(Some(&crates2), Some(&toml)).unwrap();
    assert_eq!(from2.len(), 1);
    assert_eq!(from2[0].name, "zoxide");
    let from_toml = load_installs_from(None, Some(&toml)).unwrap();
    assert_eq!(from_toml[0].name, "ripgrep");
    assert!(load_installs_from(None, None).unwrap().is_empty());
    assert!(load_installs_from(Some("not json"), Some(&toml)).is_err());
}

#[test]
fn parse_crates2_errors_say_what_is_wrong() {
    assert_eq!(parse_crates2("{}").unwrap_err(), ".crates2.json: missing 'installs' object");
    assert_eq!(
        parse_crates2(r#"{"installs": []}"#).unwrap_err(),
        ".crates2.json: missing 'installs' object"
    );
    assert_eq!(
        parse_crates2(r#"{"installs": {"bad spec": {"bins": []}}}"#).unwrap_err(),
        ".crates2.json: unparsable spec 'bad spec'"
    );
    assert_eq!(parse_crates2("not json").unwrap_err(), ".crates2.json: invalid literal at byte 0");
}
