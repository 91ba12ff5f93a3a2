use lib::inventory::{BinStatus, BinaryRecord, Ecosystem, Inventory, Section};
use lib::json::{self, Json};
use lib::report::{render_human, render_json, summarize, ReportOpts};
use lib::shadow::Shadow;

fn record(name: &str, status: BinStatus) -> BinaryRecord {
    BinaryRecord {
        name: name.to_string(),
        path: format!("/fake/bin/{name}"),
        ecosystem: Ecosystem::Cargo,
        package: "pkg".into(),
        version: "1.0.0".into(),
        origin: "crates.io".into(),
        status,
    }
}

fn inventory(records: Vec<BinaryRecord>) -> Inventory {
    Inventory {
        sections: vec![Section {
            ecosystem: Ecosystem::Cargo,
            bin_dir: "/fake/bin".to_string(),
            records,
        }],
    }
}

fn empty_inventory() -> Inventory {
    Inventory { sections: Vec::new() }
}

#[test]
fn summarize_counts_each_bucket_once() {
    let inv = inventory(vec![
        record("a", BinStatus::Healthy),
        record("b", BinStatus::Orphan("why".into())),
        record("c", BinStatus::Missing("gone".into())),
    ]);
    let shadows = vec![Shadow {
        name: "a".into(),
        entries: vec!["/x/a".to_string(), "/y/a".to_string()],
    }];
    let s = summarize(&inv, &shadows, &ReportOpts::default());
    assert_eq!(s.binaries, 2); // missing entries are not on disk
    assert_eq!(s.orphans, 1);
    assert_eq!(s.missing, 1);
    assert_eq!(s.shadowed, 1);
    assert_eq!(s.stale, 0);
}

#[test]
fn staleness_needs_both_a_threshold_and_a_real_age() {
    let inv = inventory(vec![record("old-tool", BinStatus::Healthy)]);
    let age = 400 * 86_400;
    let with = ReportOpts { stale_secs: Some(365 * 86_400), ages: vec![Some(age)] };
    assert_eq!(summarize(&inv, &[], &with).stale, 1);
    let without = ReportOpts { stale_secs: None, ages: vec![Some(age)] };
    assert_eq!(summarize(&inv, &[], &without).stale, 0);
    let unknown_age = ReportOpts { stale_secs: Some(365 * 86_400), ages: vec![None] };
    assert_eq!(summarize(&inv, &[], &unknown_age).stale, 0);

    let human = render_human(&inv, &[], &with);
    assert!(human.contains("ok, stale"), "got:\n{human}");
    assert!(human.contains("1y 35d"), "got:\n{human}");
}

#[test]
fn missing_records_are_never_stale() {
    let inv = inventory(vec![record("gone", BinStatus::Missing("absent".into()))]);
    let opts = ReportOpts { stale_secs: Some(1), ages: vec![Some(1_000)] };
    assert_eq!(summarize(&inv, &[], &opts).stale, 0);
}

#[test]
fn human_report_lists_sections_orphans_missing_and_summary() {
    let inv = inventory(vec![
        record("good", BinStatus::Healthy),
        record("junk", BinStatus::Orphan("nobody claims it".into())),
        record("gone", BinStatus::Missing("registered but absent".into())),
    ]);
    let shadows = vec![Shadow {
        name: "good".into(),
        entries: vec!["/fake/bin/good".to_string(), "/usr/bin/good".to_string()],
    }];
    let text = render_human(&inv, &shadows, &ReportOpts::default());
    assert!(text.contains("cargo · /fake/bin — 3 binaries, 1 package\n"));
    assert!(text.contains("orphans (1)"));
    assert!(text.contains("nobody claims it"));
    assert!(text.contains("missing (1)"));
    assert!(text.contains("registered but absent"));
    assert!(text.contains("shadows (1)"));
    assert!(text.contains("/fake/bin/good wins; shadowed: /usr/bin/good"));
    assert!(text.contains(
        "summary: 2 binaries · 1 package · 1 orphan · 1 missing · 1 shadowed name · 0 stale"
    ));
}

#[test]
fn human_report_aligns_the_table() {
    let inv = inventory(vec![record("a", BinStatus::Healthy), record("longer-name", BinStatus::Healthy)]);
    let opts = ReportOpts { stale_secs: None, ages: vec![Some(90), None] };
    let text = render_human(&inv, &[], &opts);
    let expected = "cargo · /fake/bin — 2 binaries, 1 package\n\
                    \x20 NAME         PACKAGE  VERSION  ORIGIN     AGE  STATUS\n\
                    \x20 a            pkg      1.0.0    crates.io  1m   ok\n\
                    \x20 longer-name  pkg      1.0.0    crates.io  -    ok\n\n";
    assert!(text.starts_with(expected), "got:\n{text}");
    assert!(text.ends_with("summary: 2 binaries · 1 package · 0 orphans · 0 missing · 0 shadowed names · 0 stale\n"));
}

#[test]
fn empty_scan_says_so_instead_of_printing_nothing() {
    let text = render_human(&empty_inventory(), &[], &ReportOpts::default());
    assert!(text.contains("nothing to scan"));
    assert!(text.contains("summary: 0 binaries"));
}

#[test]
fn json_report_round_trips_through_our_own_parser() {
    let mut rec = record("we\"ird", BinStatus::Orphan("line\nbreak".into()));
    rec.package = "?".into();
    let inv = inventory(vec![record("good", BinStatus::Healthy), rec]);
    let shadows = vec![Shadow {
        name: "good".into(),
        entries: vec!["/a/good".to_string(), "/b/good".to_string()],
    }];
    let text = render_json(&inv, &shadows, &ReportOpts::default());
    let doc = json::parse(&text).expect("report must be valid JSON");
    let bins = doc.get("binaries").unwrap().as_array().unwrap();
    assert_eq!(bins.len(), 2);
    assert_eq!(bins[1].get("name").unwrap().as_str(), Some("we\"ird"));
    assert_eq!(bins[1].get("status").unwrap().as_str(), Some("orphan"));
    assert_eq!(bins[1].get("age_days"), Some(&Json::Null));
    let shadows = doc.get("shadows").unwrap().as_array().unwrap();
    assert_eq!(shadows[0].get("winner").unwrap().as_str(), Some("/a/good"));
    let summary = doc.get("summary").unwrap();
    match summary.get("orphans") {
        Some(Json::Number(t)) => assert_eq!(t.parse::<f64>().unwrap(), 1.0),
        other => panic!("got {other:?}"),
    }
}

#[test]
fn json_report_with_empty_inventory_is_still_valid() {
    let text = render_json(&empty_inventory(), &[], &ReportOpts::default());
    let doc = json::parse(&text).unwrap();
    assert_eq!(doc.get("binaries").unwrap().as_array().unwrap().len(), 0);
    assert_eq!(doc.get("shadows").unwrap().as_array().unwrap().len(), 0);
}

#[test]
fn json_report_carries_ages_in_days_and_staleness() {
    let inv = inventory(vec![record("old", BinStatus::Healthy)]);
    let opts = ReportOpts { stale_secs: Some(86_400), ages: vec![Some(3 * 86_400 + 5)] };
    let text = render_json(&inv, &[], &opts);
    let doc = json::parse(&text).unwrap();
    let bin = &doc.get("binaries").unwrap().as_array().unwrap()[0];
    assert_eq!(bin.get("age_days"), Some(&Json::Number("3".into())));
    assert_eq!(bin.get("stale"), Some(&Json::Bool(true)));
    assert_eq!(doc.get("binsweep").unwrap().as_str(), Some("0.1.0"));
}
