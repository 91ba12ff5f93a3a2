use lib::inventory::{
    collect, resolve_roots, BinStatus, BinaryRecord, Ecosystem, Env, Inventory, PipxLayouts,
    RootOverrides, Roots, Scans, Section,
};

fn no_env() -> Env {
    Env::default()
}

#[test]
fn resolve_roots_uses_conventional_defaults() {
    let roots = resolve_roots("/h", &no_env(), &RootOverrides::default(), PipxLayouts::default());
    assert_eq!(roots.cargo_home.unwrap(), "/h/.cargo");
    assert_eq!(roots.go_bin.unwrap(), "/h/go/bin");
    assert_eq!(roots.pipx_bin.unwrap(), "/h/.local/bin");
    assert_eq!(roots.npm_prefix.unwrap(), "/h/.npm-global");
    // Neither pipx layout exists on disk, so the modern default wins.
    assert_eq!(roots.pipx_home.unwrap(), "/h/.local/share/pipx");
}

#[test]
fn resolve_roots_honors_tool_environment_variables() {
    let env = Env {
        cargo_home: Some("/opt/cargo".into()),
        gobin: Some("/opt/gobin".into()),
        gopath: None,
        pipx_home: Some("/opt/pipx".into()),
        pipx_bin_dir: Some("/opt/pipx/bin".into()),
        npm_config_prefix: Some("/opt/npm".into()),
    };
    let roots = resolve_roots("/h", &env, &RootOverrides::default(), PipxLayouts::default());
    assert_eq!(roots.cargo_home.unwrap(), "/opt/cargo");
    assert_eq!(roots.go_bin.unwrap(), "/opt/gobin");
    assert_eq!(roots.pipx_home.unwrap(), "/opt/pipx");
    assert_eq!(roots.pipx_bin.unwrap(), "/opt/pipx/bin");
    assert_eq!(roots.npm_prefix.unwrap(), "/opt/npm");
}

#[test]
fn gopath_fallback_appends_bin() {
    let env = Env { gopath: Some("/data/go".to_string()), ..Env::default() };
    let roots = resolve_roots("/h", &env, &RootOverrides::default(), PipxLayouts::default());
    assert_eq!(roots.go_bin.unwrap(), "/data/go/bin");
}

#[test]
fn gobin_beats_gopath() {
    let env = Env {
        gobin: Some("/direct/bin".into()),
        gopath: Some("/data/go".into()),
        ..Env::default()
    };
    let roots = resolve_roots("/h", &env, &RootOverrides::default(), PipxLayouts::default());
    assert_eq!(roots.go_bin.unwrap(), "/direct/bin");
}

#[test]
fn cli_overrides_beat_environment() {
    let env = Env { cargo_home: Some("/from-env".to_string()), ..Env::default() };
    let overrides = RootOverrides {
        cargo_home: Some("/from-flag".to_string()),
        ..Default::default()
    };
    let roots = resolve_roots("/h", &env, &overrides, PipxLayouts::default());
    assert_eq!(roots.cargo_home.unwrap(), "/from-flag");
}

#[test]
fn empty_env_values_are_treated_as_unset() {
    // `GOBIN=""` in a shell profile must not send the scan to `./bin`.
    let env = Env { gobin: Some(String::new()), ..Env::default() };
    let roots = resolve_roots("/h", &env, &RootOverrides::default(), PipxLayouts::default());
    assert_eq!(roots.go_bin.unwrap(), "/h/go/bin");
}

#[test]
fn legacy_pipx_layout_is_used_only_when_it_alone_exists() {
    let only_legacy = PipxLayouts { modern: false, legacy: true };
    let both = PipxLayouts { modern: true, legacy: true };
    let r = resolve_roots("/h", &no_env(), &RootOverrides::default(), only_legacy);
    assert_eq!(r.pipx_home.unwrap(), "/h/.local/pipx");
    let r = resolve_roots("/h", &no_env(), &RootOverrides::default(), both);
    assert_eq!(r.pipx_home.unwrap(), "/h/.local/share/pipx");
}

#[test]
fn collect_skips_absent_ecosystems() {
    let roots = Roots {
        cargo_home: Some("/nonexistent/cargo".to_string()),
        go_bin: Some("/nonexistent/gobin".to_string()),
        pipx_home: Some("/nonexistent/pipx".to_string()),
        pipx_bin: Some("/nonexistent/bin".to_string()),
        npm_prefix: Some("/nonexistent/npm".to_string()),
    };
    let inv = collect(&roots, Scans { cargo: None, go: None, pipx: None, npm: None });
    assert!(inv.sections.is_empty());
    assert_eq!(inv.package_count(), 0);
    assert!(inv.orphans().is_empty());
}

fn mk(eco: Ecosystem, pkg: &str, status: BinStatus) -> BinaryRecord {
    BinaryRecord {
        name: "x".into(),
        path: "/x".into(),
        ecosystem: eco,
        package: pkg.into(),
        version: "1".into(),
        origin: "?".into(),
        status,
    }
}

#[test]
fn package_count_dedupes_within_but_not_across_ecosystems() {
    let inv = Inventory {
        sections: vec![Section {
            ecosystem: Ecosystem::Cargo,
            bin_dir: "/b".to_string(),
            records: vec![
                mk(Ecosystem::Cargo, "cargo-edit", BinStatus::Healthy),
                mk(Ecosystem::Cargo, "cargo-edit", BinStatus::Healthy),
                mk(Ecosystem::Npm, "cargo-edit", BinStatus::Healthy),
                mk(Ecosystem::Go, "junk", BinStatus::Orphan("why".into())),
            ],
        }],
    };
    // Two real packages; the orphan's placeholder never counts.
    assert_eq!(inv.package_count(), 2);
    assert_eq!(inv.orphans().len(), 1);
}

#[test]
fn collect_keeps_ecosystem_order_and_bin_dirs() {
    let roots = Roots {
        cargo_home: Some("/h/.cargo".to_string()),
        go_bin: Some("/h/go/bin".to_string()),
        pipx_home: Some("/h/.local/share/pipx".to_string()),
        pipx_bin: Some("/h/.local/bin".to_string()),
        npm_prefix: Some("/h/.npm-global".to_string()),
    };
    let scans = Scans {
        cargo: Some(vec![mk(Ecosystem::Cargo, "a", BinStatus::Healthy)]),
        go: None,
        pipx: Some(Vec::new()),
        npm: Some(vec![mk(Ecosystem::Npm, "b", BinStatus::Missing("gone".into()))]),
    };
    let inv = collect(&roots, scans);
    let dirs: Vec<(Ecosystem, &str)> =
        inv.sections.iter().map(|s| (s.ecosystem, s.bin_dir.as_str())).collect();
    assert_eq!(
        dirs,
        vec![
            (Ecosystem::Cargo, "/h/.cargo/bin"),
            (Ecosystem::Pipx, "/h/.local/bin"),
            (Ecosystem::Npm, "/h/.npm-global/bin"),
        ]
    );
    assert_eq!(inv.records().len(), 2);
    assert_eq!(inv.missing().len(), 1);
}

#[test]
fn status_codes_and_details() {
    assert_eq!(BinStatus::Healthy.code(), "ok");
    assert_eq!(BinStatus::Healthy.detail(), "");
    assert_eq!(BinStatus::Orphan("why".into()).code(), "orphan");
    assert_eq!(BinStatus::Missing("gone".into()).detail(), "gone");
    assert_eq!(Ecosystem::Pipx.label(), "pipx");
}
