use lib::cli::{
    json_error, orphans_command, parse_args, scan_command, scan_exit, shadows_command, strict_exit,
    which_command,
    Command, Opts,
};
use lib::inventory::{BinStatus, BinaryRecord, Ecosystem, Inventory, Section};
use lib::report::{render_human, render_json, ReportOpts, Summary};
use lib::shadow::Shadow;

fn parse(args: &[&str]) -> Result<(Command, Opts), String> {
    parse_args(&args.iter().map(|s| s.to_string()).collect::<Vec<_>>())
}

#[test]
fn no_arguments_means_scan() {
    let (cmd, opts) = parse(&[]).unwrap();
    assert_eq!(cmd, Command::Scan);
    assert!(!opts.json);
    assert!(!opts.strict);
}

#[test]
fn subcommands_parse_with_their_flags_in_any_order() {
    let (cmd, opts) = parse(&["--json", "scan", "--strict", "--stale", "90d"]).unwrap();
    assert_eq!(cmd, Command::Scan);
    assert!(opts.json);
    assert!(opts.strict);
    assert_eq!(opts.stale_secs, Some(90 * 86_400));
}

#[test]
fn which_takes_a_name() {
    let (cmd, _) = parse(&["which", "rg"]).unwrap();
    assert_eq!(cmd, Command::Which("rg".into()));
    assert!(parse(&["which"]).is_err());
}

#[test]
fn root_override_flags_land_in_overrides() {
    let (_, opts) = parse(&[
        "scan",
        "--home",
        "/h",
        "--cargo-home",
        "/c",
        "--go-bin",
        "/g",
        "--pipx-home",
        "/p",
        "--pipx-bin",
        "/pb",
        "--npm-prefix",
        "/n",
        "--path",
        "/a:/b",
    ])
    .unwrap();
    assert_eq!(opts.home.unwrap(), "/h");
    assert_eq!(opts.overrides.cargo_home.unwrap(), "/c");
    assert_eq!(opts.overrides.go_bin.unwrap(), "/g");
    assert_eq!(opts.overrides.pipx_home.unwrap(), "/p");
    assert_eq!(opts.overrides.pipx_bin.unwrap(), "/pb");
    assert_eq!(opts.overrides.npm_prefix.unwrap(), "/n");
    assert_eq!(opts.path_var.unwrap(), "/a:/b");
}

#[test]
fn unknown_options_and_commands_are_rejected() {
    assert!(parse(&["--frobnicate"]).is_err());
    assert!(parse(&["frobnicate"]).is_err());
    assert!(parse(&["scan", "extra"]).is_err());
    assert!(parse(&["--stale"]).is_err());
    assert!(parse(&["--stale", "soon"]).is_err());
}

#[test]
fn help_and_version_short_circuit() {
    assert_eq!(parse(&["--help"]).unwrap().0, Command::Help);
    assert_eq!(parse(&["help"]).unwrap().0, Command::Help);
    assert_eq!(parse(&["-V"]).unwrap().0, Command::Version);
    assert_eq!(parse(&["--help", "--nonsense"]).unwrap().0, Command::Help);
}

#[test]
fn parse_errors_carry_their_messages() {
    assert_eq!(parse(&["--frobnicate"]).unwrap_err(), "unknown option '--frobnicate'");
    assert_eq!(parse(&["frobnicate"]).unwrap_err(), "unknown command 'frobnicate'");
    assert_eq!(parse(&["scan", "extra"]).unwrap_err(), "unexpected argument 'extra'");
    assert_eq!(parse(&["--home"]).unwrap_err(), "--home needs a value");
    assert_eq!(parse(&["which"]).unwrap_err(), "which needs a binary name");
    assert_eq!(
        parse(&["--stale", "soon"]).unwrap_err(),
        "duration 'soon' must start with a number"
    );
    // A second subcommand word is an extra argument, not a new command.
    assert_eq!(parse(&["orphans", "shadows"]).unwrap_err(), "unexpected argument 'shadows'");
}

#[test]
fn json_is_only_for_scan() {
    let (cmd, opts) = parse(&["orphans", "--json"]).unwrap();
    assert_eq!(json_error(&cmd, &opts).unwrap(), "--json is only supported by 'scan'");
    let (cmd, opts) = parse(&["scan", "--json"]).unwrap();
    assert!(json_error(&cmd, &opts).is_none());
}

fn rec(name: &str, path: &str, eco: Ecosystem, pkg: &str, status: BinStatus) -> BinaryRecord {
    BinaryRecord {
        name: name.into(),
        path: path.into(),
        ecosystem: eco,
        package: pkg.into(),
        version: "14.1.0".into(),
        origin: "crates.io".into(),
        status,
    }
}

fn sample() -> Inventory {
    Inventory {
        sections: vec![
            Section {
                ecosystem: Ecosystem::Cargo,
                bin_dir: "/h/.cargo/bin".into(),
                records: vec![
                    rec("mystery", "/h/.cargo/bin/mystery", Ecosystem::Cargo, "?", BinStatus::Orphan("no owner".into())),
                    rec("rg", "/h/.cargo/bin/rg", Ecosystem::Cargo, "ripgrep", BinStatus::Healthy),
                ],
            },
            Section {
                ecosystem: Ecosystem::Npm,
                bin_dir: "/n/bin".into(),
                records: vec![
                    rec("tsc", "/n/bin/tsc", Ecosystem::Npm, "typescript", BinStatus::Healthy),
                    rec("tsserver", "/n/bin/tsserver", Ecosystem::Npm, "typescript", BinStatus::Missing("not linked".into())),
                ],
            },
        ],
    }
}

#[test]
fn orphans_command_lists_only_problems() {
    let strict = parse(&["orphans", "--strict"]).unwrap().1;
    let (text, code) = orphans_command(&sample(), &strict);
    assert_eq!(
        text,
        "orphan   cargo /h/.cargo/bin/mystery — no owner\nmissing  npm   tsserver — not linked\n"
    );
    assert_eq!(code, 1);
    let empty = Inventory { sections: Vec::new() };
    let (text, code) = orphans_command(&empty, &strict);
    assert_eq!(text, "no orphans: every binary is claimed and every claim is on disk\n");
    assert_eq!(code, 0);
}

#[test]
fn shadows_command_shows_winner_then_losers() {
    let shadows = vec![Shadow { name: "rg".into(), entries: vec!["/a/rg".into(), "/b/rg".into()] }];
    let lenient = parse(&["shadows"]).unwrap().1;
    let (text, code) = shadows_command(&shadows, &lenient);
    assert_eq!(text, "rg\n  wins      /a/rg\n  shadowed  /b/rg\n");
    assert_eq!(code, 0);
    let (text, _) = shadows_command(&[], &lenient);
    assert_eq!(text, "no shadows: every name on PATH resolves to exactly one file\n");
}

#[test]
fn which_reports_provenance_and_off_path_providers() {
    let inv = sample();
    let hits = vec!["/usr/local/bin/rg".to_string(), "/h/.cargo/bin/rg".to_string()];
    let (text, code) = which_command("rg", &inv, &hits);
    assert_eq!(
        text,
        "rg — 2 places on PATH\n  1. /usr/local/bin/rg  ← active\n  2. /h/.cargo/bin/rg  shadowed  (cargo · ripgrep 14.1.0)\n"
    );
    assert_eq!(code, 0);
    let (text, code) = which_command("tsc", &inv, &Vec::new());
    assert_eq!(
        text,
        "tsc: not found on PATH\n  also: /n/bin/tsc (npm · typescript 14.1.0) — not reachable via PATH\n"
    );
    assert_eq!(code, 0);
    let (text, code) = which_command("no-such-binary", &inv, &Vec::new());
    assert_eq!(text, "no-such-binary: not found on PATH\n");
    assert_eq!(code, 1);
}

#[test]
fn strict_exit_needs_both_the_flag_and_findings() {
    let strict = parse(&["--strict"]).unwrap().1;
    let lenient = parse(&[]).unwrap().1;
    assert_eq!(strict_exit(&strict, 3), 1);
    assert_eq!(strict_exit(&strict, 0), 0);
    assert_eq!(strict_exit(&lenient, 3), 0);
    let s = Summary { binaries: 4, packages: 2, orphans: 0, missing: 0, shadowed: 1, stale: 0 };
    assert_eq!(scan_exit(&strict, &s), 1);
    assert_eq!(scan_exit(&lenient, &s), 0);
}

#[test]
fn which_compares_paths_by_components() {
    let inv = sample();
    let hits = vec!["/h//.cargo/bin/rg".to_string()];
    let (text, code) = which_command("rg", &inv, &hits);
    assert_eq!(
        text,
        "rg — 1 place on PATH\n  1. /h//.cargo/bin/rg  ← active  (cargo · ripgrep 14.1.0)\n"
    );
    assert_eq!(code, 0);
}

#[test]
fn scan_command_picks_the_report_and_the_exit_code() {
    let inv = sample();
    let ropts = ReportOpts { stale_secs: None, ages: vec![None, None, None, None] };
    let human = parse(&["scan", "--strict"]).unwrap().1;
    let (text, code) = scan_command(&inv, &[], &human, &ropts);
    assert_eq!(text, render_human(&inv, &[], &ropts));
    assert_eq!(code, 1);
    let json = parse(&["scan", "--json"]).unwrap().1;
    let (text, code) = scan_command(&inv, &[], &json, &ropts);
    assert_eq!(text, render_json(&inv, &[], &ropts));
    assert!(text.starts_with('{'));
    assert_eq!(code, 0);
}
