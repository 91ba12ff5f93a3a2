use lib::gobin::{
    extract_build_info, parse_modinfo, push_var_string, read_uvarint, record_for, scan,
    synthesize_binary, GoBuildInfo, GoFile, FLAG_INLINE_STRINGS, MAGIC,
};
use lib::inventory::{BinStatus, Ecosystem};

fn unknown() -> GoBuildInfo {
    GoBuildInfo::unknown()
}

#[test]
fn uvarint_decodes_single_and_multi_byte_values() {
    assert_eq!(read_uvarint(&[0x00]), Some((0, 1)));
    assert_eq!(read_uvarint(&[0x7f]), Some((127, 1)));
    assert_eq!(read_uvarint(&[0x80, 0x01]), Some((128, 2)));
    assert_eq!(read_uvarint(&[0xac, 0x02]), Some((300, 2)));
}

#[test]
fn uvarint_rejects_unterminated_input() {
    assert_eq!(read_uvarint(&[0x80]), None);
    assert_eq!(read_uvarint(&[]), None);
}

#[test]
fn extracts_full_provenance_from_a_synthesized_binary() {
    let data = synthesize_binary("go1.22.4", "example.test/hello", "v1.6.0");
    let info = extract_build_info(&data).unwrap();
    assert_eq!(info.go_version, "go1.22.4");
    assert_eq!(info.mod_path, "example.test/hello");
    assert_eq!(info.module_version, "v1.6.0");
}

#[test]
fn accepts_unwrapped_modinfo_without_sentinels() {
    let mut data = Vec::new();
    data.extend_from_slice(&MAGIC);
    data.push(8);
    data.push(FLAG_INLINE_STRINGS);
    data.extend_from_slice(&[0u8; 16]);
    push_var_string(&mut data, b"go1.21.0");
    push_var_string(
        &mut data,
        b"path\texample.test/raw\nmod\texample.test/raw\tv0.3.0\th1:x=\n",
    );
    let info = extract_build_info(&data).unwrap();
    assert_eq!(info.mod_path, "example.test/raw");
    assert_eq!(info.module_version, "v0.3.0");
}

#[test]
fn falls_back_to_path_line_when_mod_line_is_absent() {
    let (path, version) = parse_modinfo("path\texample.test/vendored/cmd/v\n");
    assert_eq!(path.as_deref(), Some("example.test/vendored/cmd/v"));
    assert_eq!(version, None);
}

#[test]
fn mod_line_beats_path_line() {
    let (path, version) = parse_modinfo(
        "path\texample.test/tool/cmd/tool\nmod\texample.test/tool\tv2.0.1\th1:y=\n",
    );
    assert_eq!(path.as_deref(), Some("example.test/tool"));
    assert_eq!(version.as_deref(), Some("v2.0.1"));
}

#[test]
fn non_go_bytes_yield_none() {
    assert_eq!(extract_build_info(b"#!/bin/sh\necho hi\n"), None);
    assert_eq!(extract_build_info(b""), None);
}

#[test]
fn old_pointer_format_yields_an_honest_unknown() {
    let mut data = Vec::new();
    data.extend_from_slice(&MAGIC);
    data.push(8);
    data.push(0);
    data.extend_from_slice(&[0u8; 16]);
    let info = extract_build_info(&data).unwrap();
    assert_eq!(info, unknown());
}

#[test]
fn truncated_header_is_not_a_go_binary() {
    let mut data = Vec::new();
    data.extend_from_slice(&MAGIC);
    data.push(8);
    assert_eq!(extract_build_info(&data), None);
}

#[test]
fn truncated_version_string_degrades_to_unknown() {
    let mut data = Vec::new();
    data.extend_from_slice(&MAGIC);
    data.push(8);
    data.push(FLAG_INLINE_STRINGS);
    data.extend_from_slice(&[0u8; 16]);
    data.push(0xff);
    let info = extract_build_info(&data).unwrap();
    assert_eq!(info, unknown());
}

#[test]
fn go_scan_splits_go_builds_from_orphans() {
    let files = vec![
        GoFile {
            name: "copied-by-hand".to_string(),
            path: "/go/bin/copied-by-hand".to_string(),
            data: b"\x7fELF but not go".to_vec(),
        },
        GoFile {
            name: "gopls-like".to_string(),
            path: "/go/bin/gopls-like".to_string(),
            data: synthesize_binary("go1.23.1", "example.test/lsp", "v0.16.2"),
        },
    ];
    let records = scan(files);
    assert_eq!(records.len(), 2);
    let orphan = records.iter().find(|r| r.name == "copied-by-hand").unwrap();
    assert!(matches!(orphan.status, BinStatus::Orphan(_)));
    let good = records.iter().find(|r| r.name == "gopls-like").unwrap();
    assert_eq!(good.package, "example.test/lsp");
    assert_eq!(good.version, "v0.16.2");
    assert_eq!(good.origin, "go module (go1.23.1)");
    assert_eq!(good.ecosystem, Ecosystem::Go);
}

#[test]
fn unreadable_file_is_an_orphan_with_the_go_reason() {
    let rec = record_for("x".to_string(), "/go/bin/x".to_string(), &[]);
    assert_eq!(
        rec.status,
        BinStatus::Orphan("no Go build info \u{2014} not built by 'go install'".to_string())
    );
    assert_eq!(rec.package, "?");
}

#[test]
fn uvarint_round_trips_through_the_encoder() {
    for n in [0usize, 1, 127, 128, 300, 16_383, 16_384, 1 << 20] {
        let body = vec![b'a'; n];
        let mut out = Vec::new();
        push_var_string(&mut out, &body);
        let (v, used) = read_uvarint(&out).unwrap();
        assert_eq!(v as usize, n);
        assert_eq!(out.len(), used + n);
    }
}
