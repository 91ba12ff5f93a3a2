//! Command-line interface logic: argument parsing, the `--json` rule, the
//! exit-code decisions and the text of the `orphans`, `shadows` and
//! `which` subcommands. Reading the environment and the disk, and
//! printing, belong to the program that calls these.

use vstd::prelude::*;
use crate::text::{owned, push_all, push_u64, chars_of, str_eq, dec, texts_of};
use crate::inventory::{
    BinaryRecord, Inventory, RootOverrides, RecordV, all_records, filter_status, refs_view,
    eco_label, status_detail, opt_text,
};
use crate::report::{
    label5, Summary, ReportOpts, render_human, render_json, summarize, human_text, json_text,
    shadows_nonempty,
};
use crate::shadow::Shadow;
use crate::path::{same_path, same_path_of};
use crate::util::{parse_duration, duration_secs, duration_error, count, count_text};

verus! {

/// The subcommand to run.
#[derive(Debug, PartialEq)]
pub enum Command {
    Scan,
    Orphans,
    Shadows,
    Which(String),
    Help,
    Version,
}

/// The mathematical content of a `Command`.
pub enum CommandV {
    Scan,
    Orphans,
    Shadows,
    Which(Seq<char>),
    Help,
    Version,
}

impl View for Command {
    type V = CommandV;

    open spec fn view(&self) -> CommandV {
        match self {
            Command::Scan => CommandV::Scan,
            Command::Orphans => CommandV::Orphans,
            Command::Shadows => CommandV::Shadows,
            Command::Which(n) => CommandV::Which(n@),
            Command::Help => CommandV::Help,
            Command::Version => CommandV::Version,
        }
    }
}

/// The options given on the command line.
#[derive(Debug, Default)]
pub struct Opts {
    pub home: Option<String>,
    pub path_var: Option<String>,
    pub overrides: RootOverrides,
    pub stale_secs: Option<u64>,
    pub json: bool,
    pub strict: bool,
}

/// The mathematical content of an `Opts`.
pub struct OptsV {
    pub home: Option<Seq<char>>,
    pub path_var: Option<Seq<char>>,
    pub cargo_home: Option<Seq<char>>,
    pub go_bin: Option<Seq<char>>,
    pub pipx_home: Option<Seq<char>>,
    pub pipx_bin: Option<Seq<char>>,
    pub npm_prefix: Option<Seq<char>>,
    pub stale_secs: Option<u64>,
    pub json: bool,
    pub strict: bool,
}

impl View for Opts {
    type V = OptsV;

    open spec fn view(&self) -> OptsV {
        OptsV {
            home: opt_text(self.home),
            path_var: opt_text(self.path_var),
            cargo_home: opt_text(self.overrides.cargo_home),
            go_bin: opt_text(self.overrides.go_bin),
            pipx_home: opt_text(self.overrides.pipx_home),
            pipx_bin: opt_text(self.overrides.pipx_bin),
            npm_prefix: opt_text(self.overrides.npm_prefix),
            stale_secs: self.stale_secs,
            json: self.json,
            strict: self.strict,
        }
    }
}

/// No option given.
pub open spec fn default_opts() -> OptsV {
    OptsV {
        home: None,
        path_var: None,
        cargo_home: None,
        go_bin: None,
        pipx_home: None,
        pipx_bin: None,
        npm_prefix: None,
        stale_secs: None,
        json: false,
        strict: false,
    }
}

/// The options that take a path or PATH string as their value.
pub open spec fn is_value_flag(a: Seq<char>) -> bool {
    ||| a == "--home"@
    ||| a == "--path"@
    ||| a == "--cargo-home"@
    ||| a == "--go-bin"@
    ||| a == "--pipx-home"@
    ||| a == "--pipx-bin"@
    ||| a == "--npm-prefix"@
}

/// The options after value flag `a` was given value `v`.
pub open spec fn set_value(o: OptsV, a: Seq<char>, v: Seq<char>) -> OptsV {
    if a == "--home"@ {
        OptsV { home: Some(v), ..o }
    } else if a == "--path"@ {
        OptsV { path_var: Some(v), ..o }
    } else if a == "--cargo-home"@ {
        OptsV { cargo_home: Some(v), ..o }
    } else if a == "--go-bin"@ {
        OptsV { go_bin: Some(v), ..o }
    } else if a == "--pipx-home"@ {
        OptsV { pipx_home: Some(v), ..o }
    } else if a == "--pipx-bin"@ {
        OptsV { pipx_bin: Some(v), ..o }
    } else {
        OptsV { npm_prefix: Some(v), ..o }
    }
}

/// Reading the arguments from position `i` on, with the subcommand and
/// options seen so far: the first argument that settles the outcome
/// decides it, otherwise the subcommand defaults to `scan`.
pub open spec fn parse_from(args: Seq<Seq<char>>, i: int, cmd: Option<CommandV>, o: OptsV) -> Result<(CommandV, OptsV), Seq<char>>
    decreases args.len() - i,
{
    if i < 0 || i >= args.len() {
        Ok((match cmd { Some(c) => c, None => CommandV::Scan }, o))
    } else {
        let a = args[i];
        if a == "-h"@ || a == "--help"@ || a == "help"@ {
            Ok((CommandV::Help, o))
        } else if a == "-V"@ || a == "--version"@ {
            Ok((CommandV::Version, o))
        } else if is_value_flag(a) {
            if i + 1 >= args.len() {
                Err(a + " needs a value"@)
            } else {
                parse_from(args, i + 2, cmd, set_value(o, a, args[i + 1]))
            }
        } else if a == "--stale"@ {
            if i + 1 >= args.len() {
                Err(a + " needs a value"@)
            } else {
                match duration_secs(args[i + 1]) {
                    Some(n) => parse_from(args, i + 2, cmd, OptsV { stale_secs: Some(n as u64), ..o }),
                    None => Err(duration_error(args[i + 1])),
                }
            }
        } else if a == "--json"@ {
            parse_from(args, i + 1, cmd, OptsV { json: true, ..o })
        } else if a == "--strict"@ {
            parse_from(args, i + 1, cmd, OptsV { strict: true, ..o })
        } else if (a == "scan"@ || a == "orphans"@ || a == "shadows"@) && cmd is None {
            parse_from(
                args,
                i + 1,
                Some(if a == "scan"@ { CommandV::Scan } else if a == "orphans"@ { CommandV::Orphans } else { CommandV::Shadows }),
                o,
            )
        } else if a == "which"@ && cmd is None {
            if i + 1 >= args.len() {
                Err("which needs a binary name"@)
            } else {
                parse_from(args, i + 2, Some(CommandV::Which(args[i + 1])), o)
            }
        } else if a.len() > 0 && a[0] == '-' {
            Err("unknown option '"@ + a + "'"@)
        } else if cmd is None {
            Err("unknown command '"@ + a + "'"@)
        } else {
            Err("unexpected argument '"@ + a + "'"@)
        }
    }
}

/// Law: `-h` is an alias of `--help` and `help`, and `-V` of `--version`:
/// wherever an argument is read (not taken as the value of an option), the
/// short form reads exactly as the long one, and asking for help or the
/// version settles the outcome with the options read so far.
pub proof fn lemma_short_aliases(args: Seq<Seq<char>>, i: int, cmd: Option<CommandV>, o: OptsV)
    requires
        0 <= i < args.len(),
    ensures
        args[i] == "-h"@ ==> parse_from(args, i, cmd, o) == parse_from(args.update(i, "--help"@), i, cmd, o),
        args[i] == "-h"@ ==> parse_from(args, i, cmd, o) == parse_from(args.update(i, "help"@), i, cmd, o),
        args[i] == "-h"@ ==> parse_from(args, i, cmd, o) == Ok::<(CommandV, OptsV), Seq<char>>((CommandV::Help, o)),
        args[i] == "-V"@ ==> parse_from(args, i, cmd, o) == parse_from(args.update(i, "--version"@), i, cmd, o),
        args[i] == "-V"@ ==> parse_from(args, i, cmd, o) == Ok::<(CommandV, OptsV), Seq<char>>((CommandV::Version, o)),
{
    let h = args.update(i, "--help"@);
    let g = args.update(i, "help"@);
    let v = args.update(i, "--version"@);
    assert(h[i] == "--help"@ && g[i] == "help"@ && v[i] == "--version"@);
    reveal_strlit("-h");
    reveal_strlit("--help");
    reveal_strlit("-V");
    reveal_strlit("--version");
    reveal_strlit("help");
    assert("--version"@ != "-h"@ && "--version"@ != "--help"@ && "--version"@ != "help"@) by {
        assert("--version"@.len() != "-h"@.len());
        assert("--version"@.len() != "--help"@.len());
        assert("--version"@.len() != "help"@.len());
    }
    assert("-V"@ != "-h"@ && "-V"@ != "--help"@ && "-V"@ != "help"@) by {
        assert("-V"@[1] != "-h"@[1]);
        assert("-V"@.len() != "--help"@.len());
        assert("-V"@.len() != "help"@.len());
    }
}

/// `a` is none of the words the argument reader gives a meaning to
/// before `--json` and `--strict`.
proof fn lemma_flag_words()
    ensures
        !is_value_flag("--json"@) && !is_value_flag("--strict"@),
        "--json"@ != "-h"@ && "--json"@ != "--help"@ && "--json"@ != "help"@,
        "--json"@ != "-V"@ && "--json"@ != "--version"@ && "--json"@ != "--stale"@,
        "--strict"@ != "-h"@ && "--strict"@ != "--help"@ && "--strict"@ != "help"@,
        "--strict"@ != "-V"@ && "--strict"@ != "--version"@ && "--strict"@ != "--stale"@,
        "--strict"@ != "--json"@,
{
    reveal_strlit("--json");
    reveal_strlit("--strict");
    reveal_strlit("-h");
    reveal_strlit("--help");
    reveal_strlit("help");
    reveal_strlit("-V");
    reveal_strlit("--version");
    reveal_strlit("--stale");
    reveal_strlit("--home");
    reveal_strlit("--path");
    reveal_strlit("--cargo-home");
    reveal_strlit("--go-bin");
    reveal_strlit("--pipx-home");
    reveal_strlit("--pipx-bin");
    reveal_strlit("--npm-prefix");
    assert("--json"@.len() == 6 && "--strict"@.len() == 8);
    assert("--json"@[2] == 'j' && "--strict"@[2] == 's');
    assert("--stale"@[3] == 't' && "--strict"@[3] == 't' && "--stale"@[4] == 'a' && "--strict"@[4] == 'r');
    assert("--path"@[2] == 'p' && "--pipx-bin"@.len() == 10 && "--pipx-home"@.len() == 11);
}

/// Law: `--json` and `--strict` may stand anywhere an argument is read:
/// each only switches its own option on, and two of them next to each
/// other read the same in either order.
pub proof fn lemma_switch_flags(args: Seq<Seq<char>>, i: int, cmd: Option<CommandV>, o: OptsV)
    requires
        0 <= i < args.len(),
    ensures
        args[i] == "--json"@ ==> parse_from(args, i, cmd, o) == parse_from(args, i + 1, cmd, OptsV { json: true, ..o }),
        args[i] == "--strict"@ ==> parse_from(args, i, cmd, o) == parse_from(args, i + 1, cmd, OptsV { strict: true, ..o }),
        i + 1 < args.len() && args[i] == "--json"@ && args[i + 1] == "--strict"@ ==> parse_from(args, i, cmd, o)
            == parse_from(args.update(i, "--strict"@).update(i + 1, "--json"@), i, cmd, o),
{
    lemma_flag_words();
    let sw = args.update(i, "--strict"@).update(i + 1, "--json"@);
    if i + 1 < args.len() {
        assert(sw[i] == "--strict"@ && sw[i + 1] == "--json"@);
        assert(forall|k: int| 0 <= k < args.len() && k != i && k != i + 1 ==> sw[k] == args[k]);
        if args[i] == "--json"@ && args[i + 1] == "--strict"@ {
            let o2 = OptsV { json: true, strict: true, ..o };
            assert(OptsV { strict: true, ..OptsV { json: true, ..o } } == o2);
            assert(OptsV { json: true, ..OptsV { strict: true, ..o } } == o2);
            lemma_parse_from_same_tail(args, sw, i + 2, cmd, o2);
            let oj = OptsV { json: true, ..o };
            let os = OptsV { strict: true, ..o };
            assert(parse_from(args, i, cmd, o) == parse_from(args, i + 1, cmd, oj));
            assert(parse_from(args, i + 1, cmd, oj) == parse_from(args, i + 2, cmd, OptsV { strict: true, ..oj }));
            assert(parse_from(sw, i, cmd, o) == parse_from(sw, i + 1, cmd, os));
            assert(parse_from(sw, i + 1, cmd, os) == parse_from(sw, i + 2, cmd, OptsV { json: true, ..os }));
        }
    }
}

/// Reading from `i` on looks only at the arguments from `i` on.
proof fn lemma_parse_from_same_tail(a: Seq<Seq<char>>, b: Seq<Seq<char>>, i: int, cmd: Option<CommandV>, o: OptsV)
    requires
        0 <= i,
        a.len() == b.len(),
        forall|k: int| i <= k < a.len() ==> a[k] == b[k],
    ensures
        parse_from(a, i, cmd, o) == parse_from(b, i, cmd, o),
    decreases a.len() - i,
{
    if i < a.len() {
        let x = a[i];
        assert(b[i] == x);
        if i + 1 < a.len() {
            assert(b[i + 1] == a[i + 1]);
        }
        if is_value_flag(x) && i + 1 < a.len() {
            lemma_parse_from_same_tail(a, b, i + 2, cmd, set_value(o, x, a[i + 1]));
        } else if x == "--stale"@ && i + 1 < a.len() {
            if let Some(n) = duration_secs(a[i + 1]) {
                lemma_parse_from_same_tail(a, b, i + 2, cmd, OptsV { stale_secs: Some(n as u64), ..o });
            }
        } else {
            lemma_parse_from_same_tail(a, b, i + 1, cmd, OptsV { json: true, ..o });
            lemma_parse_from_same_tail(a, b, i + 1, cmd, OptsV { strict: true, ..o });
            lemma_parse_from_same_tail(a, b, i + 1, Some(CommandV::Scan), o);
            lemma_parse_from_same_tail(a, b, i + 1, Some(CommandV::Orphans), o);
            lemma_parse_from_same_tail(a, b, i + 1, Some(CommandV::Shadows), o);
            if i + 1 < a.len() {
                lemma_parse_from_same_tail(a, b, i + 2, Some(CommandV::Which(a[i + 1])), o);
            }
        }
    }
}

/// The view of an optional subcommand.
pub open spec fn opt_cmd(c: Option<Command>) -> Option<CommandV> {
    match c {
        Some(x) => Some(x@),
        None => None,
    }
}

/// The message for a flag given without its value.
fn needs_value(a: &str) -> (m: String)
    ensures
        m@ == a@ + " needs a value"@,
{
    let mut m = owned(a);
    push_all(&mut m, " needs a value");
    m
}

/// `'` + `a` + `'` after a prefix.
fn quoted_msg(prefix: &str, a: &str) -> (m: String)
    ensures
        m@ == prefix@ + a@ + "'"@,
{
    let mut m = owned(prefix);
    push_all(&mut m, a);
    push_all(&mut m, "'");
    m
}

/// Parse the command-line arguments (without the program name) into a
/// subcommand and options.
pub fn parse_args(args: &Vec<String>) -> (r: Result<(Command, Opts), String>)
    ensures
        match r {
            Ok((c, o)) => parse_from(texts_of(args@), 0, None, default_opts()) == Ok::<(CommandV, OptsV), Seq<char>>((c@, o@)),
            Err(m) => parse_from(texts_of(args@), 0, None, default_opts()) == Err::<(CommandV, OptsV), Seq<char>>(m@),
        },
{
    let ghost av = texts_of(args@);
    let ghost goal = parse_from(av, 0, None, default_opts());
    let mut command: Option<Command> = None;
    let mut opts = Opts {
        home: None,
        path_var: None,
        overrides: RootOverrides { cargo_home: None, go_bin: None, pipx_home: None, pipx_bin: None, npm_prefix: None },
        stale_secs: None,
        json: false,
        strict: false,
    };
    let mut i: usize = 0;
    assert(opts@ == default_opts());
    while i < args.len()
        invariant
            i <= args@.len(),
            av == texts_of(args@),
            goal == parse_from(av, 0, None, default_opts()),
            parse_from(av, i as int, opt_cmd(command), opts@) == goal,
        decreases args@.len() - i,
    {
        let arg = args[i].as_str();
        let ghost a = av[i as int];
        assert(a == arg@);
        if str_eq(arg, "-h") || str_eq(arg, "--help") || str_eq(arg, "help") {
            return Ok((Command::Help, opts));
        }
        if str_eq(arg, "-V") || str_eq(arg, "--version") {
            return Ok((Command::Version, opts));
        }
        if str_eq(arg, "--home") || str_eq(arg, "--path") || str_eq(arg, "--cargo-home") || str_eq(arg, "--go-bin")
            || str_eq(arg, "--pipx-home") || str_eq(arg, "--pipx-bin") || str_eq(arg, "--npm-prefix") {
            if i + 1 >= args.len() {
                return Err(needs_value(arg));
            }
            let v = args[i + 1].clone();
            assert(av[i + 1] == v@);
            let ghost before = opts@;
            if str_eq(arg, "--home") {
                opts.home = Some(v);
            } else if str_eq(arg, "--path") {
                opts.path_var = Some(v);
            } else if str_eq(arg, "--cargo-home") {
                opts.overrides.cargo_home = Some(v);
            } else if str_eq(arg, "--go-bin") {
                opts.overrides.go_bin = Some(v);
            } else if str_eq(arg, "--pipx-home") {
                opts.overrides.pipx_home = Some(v);
            } else if str_eq(arg, "--pipx-bin") {
                opts.overrides.pipx_bin = Some(v);
            } else {
                opts.overrides.npm_prefix = Some(v);
            }
            assert(opts@ == set_value(before, a, av[i + 1]));
            i += 2;
        } else if str_eq(arg, "--stale") {
            if i + 1 >= args.len() {
                return Err(needs_value(arg));
            }
            assert(av[i + 1] == args@[i + 1]@);
            match parse_duration(args[i + 1].as_str()) {
                Ok(n) => {
                    opts.stale_secs = Some(n);
                },
                Err(m) => {
                    return Err(m);
                },
            }
            i += 2;
        } else if str_eq(arg, "--json") {
            opts.json = true;
            i += 1;
        } else if str_eq(arg, "--strict") {
            opts.strict = true;
            i += 1;
        } else if (str_eq(arg, "scan") || str_eq(arg, "orphans") || str_eq(arg, "shadows")) && command.is_none() {
            command = Some(if str_eq(arg, "scan") {
                Command::Scan
            } else if str_eq(arg, "orphans") {
                Command::Orphans
            } else {
                Command::Shadows
            });
            i += 1;
        } else if str_eq(arg, "which") && command.is_none() {
            if i + 1 >= args.len() {
                return Err(owned("which needs a binary name"));
            }
            assert(av[i + 1] == args@[i + 1]@);
            command = Some(Command::Which(args[i + 1].clone()));
            i += 2;
        } else {
            let v = chars_of(arg);
            if v.len() > 0 && v[0] == '-' {
                return Err(quoted_msg("unknown option '", arg));
            } else if command.is_none() {
                return Err(quoted_msg("unknown command '", arg));
            } else {
                return Err(quoted_msg("unexpected argument '", arg));
            }
        }
    }
    let c = match command {
        Some(c) => c,
        None => Command::Scan,
    };
    Ok((c, opts))
}

// ------------------------------------------------------------------
// Dispatch decisions

/// The other subcommands are line-oriented human views: accepting
/// `--json` and printing text anyway would break the caller's pipeline.
pub fn json_error(command: &Command, opts: &Opts) -> (r: Option<String>)
    ensures
        r is Some <==> (opts.json && !(command@ is Scan || command@ is Help || command@ is Version)),
        r matches Some(m) ==> m@ == "--json is only supported by 'scan'"@,
{
    if opts.json {
        match command {
            Command::Scan | Command::Help | Command::Version => None,
            _ => Some(owned("--json is only supported by 'scan'")),
        }
    } else {
        None
    }
}

/// The exit code under `--strict`: 1 when there are findings, else 0.
pub fn strict_exit(opts: &Opts, findings: usize) -> (code: u8)
    ensures
        code == (if opts.strict && findings > 0 { 1u8 } else { 0u8 }),
{
    if opts.strict && findings > 0 {
        1
    } else {
        0
    }
}

/// The exit code of `scan`: under `--strict`, 1 when any orphan, missing
/// claim or shadow was found.
pub fn scan_exit(opts: &Opts, s: &Summary) -> (code: u8)
    ensures
        code == (if opts.strict && s.orphans + s.missing + s.shadowed > 0 { 1u8 } else { 0u8 }),
{
    if opts.strict && (s.orphans > 0 || s.missing > 0 || s.shadowed > 0) {
        1
    } else {
        0
    }
}

/// The `scan` subcommand: the JSON report under `--json`, the human
/// report otherwise, and the exit code that `--strict` asks for.
pub fn scan_command(inv: &Inventory, shadows: &[Shadow], opts: &Opts, report_opts: &ReportOpts) -> (r: (String, u8))
    requires
        shadows_nonempty(shadows@),
    ensures
        r.0@ == (if opts.json {
            json_text(inv.sections@, shadows@, *report_opts)
        } else {
            human_text(inv.sections@, shadows@, *report_opts)
        }),
        r.1 == (if opts.strict && filter_status(all_records(inv.sections@), true).len()
            + filter_status(all_records(inv.sections@), false).len() + shadows@.len() > 0 {
            1u8
        } else {
            0u8
        }),
{
    let text = if opts.json {
        render_json(inv, shadows, report_opts)
    } else {
        render_human(inv, shadows, report_opts)
    };
    let s = summarize(inv, shadows, report_opts);
    (text, scan_exit(opts, &s))
}

// ------------------------------------------------------------------
// The `orphans` subcommand

/// One orphan line of the `orphans` subcommand.
pub open spec fn orphan_row(r: RecordV) -> Seq<char> {
    "orphan   "@ + label5(r.ecosystem) + " "@ + r.path + " — "@ + status_detail(r.status) + "\n"@
}

/// One missing line of the `orphans` subcommand.
pub open spec fn missing_row(r: RecordV) -> Seq<char> {
    "missing  "@ + label5(r.ecosystem) + " "@ + r.name + " — "@ + status_detail(r.status) + "\n"@
}

/// The text of the `orphans` subcommand.
pub open spec fn orphans_output(secs: Seq<crate::inventory::Section>) -> Seq<char> {
    let os = filter_status(all_records(secs), true);
    let ms = filter_status(all_records(secs), false);
    (if os.len() == 0 && ms.len() == 0 {
        "no orphans: every binary is claimed and every claim is on disk\n"@
    } else {
        Seq::empty()
    }) + crate::report::lines_of(os, |r: RecordV| orphan_row(r)) + crate::report::lines_of(ms, |r: RecordV| missing_row(r))
}

fn push_rows(out: &mut String, rs: &Vec<&BinaryRecord>, orphan: bool)
    ensures
        final(out)@ == old(out)@ + crate::report::lines_of(
            refs_view(rs@),
            if orphan { |r: RecordV| orphan_row(r) } else { |r: RecordV| missing_row(r) },
        ),
{
    let ghost f = if orphan { |r: RecordV| orphan_row(r) } else { |r: RecordV| missing_row(r) };
    let ghost rv = refs_view(rs@);
    let ghost start = out@;
    let mut i: usize = 0;
    assert(rv.take(0) =~= Seq::<RecordV>::empty());
    assert(out@ =~= start + crate::report::lines_of(rv.take(0), f));
    while i < rs.len()
        invariant
            i <= rs@.len(),
            rv == refs_view(rs@),
            f == (if orphan { |r: RecordV| orphan_row(r) } else { |r: RecordV| missing_row(r) }),
            out@ == start + crate::report::lines_of(rv.take(i as int), f),
        decreases rs@.len() - i,
    {
        let r = rs[i];
        assert(rv.take(i + 1).drop_last() =~= rv.take(i as int));
        assert(rv.take(i + 1).last() == r@);
        let ghost before = out@;
        if orphan {
            push_all(out, "orphan   ");
        } else {
            push_all(out, "missing  ");
        }
        push_all(out, crate::report::label_padded(r.ecosystem));
        push_all(out, " ");
        if orphan {
            push_all(out, r.path.as_str());
        } else {
            push_all(out, r.name.as_str());
        }
        push_all(out, " — ");
        push_all(out, r.status.detail());
        push_all(out, "\n");
        assert(out@ =~= before + f(r@));
        i += 1;
    }
    assert(rv.take(rs@.len() as int) =~= rv);
}

/// The `orphans` subcommand: its text and its exit code.
pub fn orphans_command(inv: &Inventory, opts: &Opts) -> (r: (String, u8))
    ensures
        r.0@ == orphans_output(inv.sections@),
        r.1 == (if opts.strict && (filter_status(all_records(inv.sections@), true).len() > 0
            || filter_status(all_records(inv.sections@), false).len() > 0) { 1u8 } else { 0u8 }),
{
    let orphans = inv.orphans();
    let missing = inv.missing();
    let mut out = String::new();
    if orphans.len() == 0 && missing.len() == 0 {
        push_all(&mut out, "no orphans: every binary is claimed and every claim is on disk\n");
    }
    push_rows(&mut out, &orphans, true);
    push_rows(&mut out, &missing, false);
    proof {
        reveal_strlit("no orphans: every binary is claimed and every claim is on disk\n");
        assert(refs_view(orphans@).len() == orphans@.len());
        assert(refs_view(missing@).len() == missing@.len());
    }
    assert(out@ =~= orphans_output(inv.sections@));
    let code = if opts.strict && (orphans.len() > 0 || missing.len() > 0) { 1u8 } else { 0u8 };
    (out, code)
}

// ------------------------------------------------------------------
// The `shadows` subcommand

/// The lines of the first `n` paths of a shadow, the winner marked.
pub open spec fn entry_lines(entries: Seq<Seq<char>>, n: int) -> Seq<char>
    decreases n,
{
    if n <= 0 {
        Seq::empty()
    } else {
        entry_lines(entries, n - 1)
            + "  "@ + (if n - 1 == 0 { "wins    "@ } else { "shadowed"@ }) + "  "@ + entries[n - 1] + "\n"@
    }
}

/// One shadow as the `shadows` subcommand prints it.
pub open spec fn shadow_block(s: Shadow) -> Seq<char> {
    s.name@ + "\n"@ + entry_lines(texts_of(s.entries@), s.entries@.len() as int)
}

/// The first `n` shadows as the `shadows` subcommand prints them.
pub open spec fn shadow_blocks(shs: Seq<Shadow>, n: int) -> Seq<char>
    decreases n,
{
    if n <= 0 {
        Seq::empty()
    } else {
        shadow_blocks(shs, n - 1) + shadow_block(shs[n - 1])
    }
}

/// The text of the `shadows` subcommand.
pub open spec fn shadows_output(shs: Seq<Shadow>) -> Seq<char> {
    (if shs.len() == 0 {
        "no shadows: every name on PATH resolves to exactly one file\n"@
    } else {
        Seq::empty()
    }) + shadow_blocks(shs, shs.len() as int)
}

fn push_shadow_block(out: &mut String, sh: &Shadow)
    ensures
        final(out)@ == old(out)@ + shadow_block(*sh),
{
    let ghost ev = texts_of(sh.entries@);
    push_all(out, sh.name.as_str());
    push_all(out, "\n");
    let ghost start = out@;
    let mut i: usize = 0;
    while i < sh.entries.len()
        invariant
            i <= sh.entries@.len(),
            ev == texts_of(sh.entries@),
            out@ == start + entry_lines(ev, i as int),
        decreases sh.entries@.len() - i,
    {
        let ghost before = out@;
        push_all(out, "  ");
        if i == 0 {
            push_all(out, "wins    ");
        } else {
            push_all(out, "shadowed");
        }
        push_all(out, "  ");
        push_all(out, sh.entries[i].as_str());
        push_all(out, "\n");
        assert(ev[i as int] == sh.entries@[i as int]@);
        assert(out@ =~= start + entry_lines(ev, i + 1));
        i += 1;
    }
    assert(final(out)@ =~= old(out)@ + shadow_block(*sh));
}

/// The `shadows` subcommand: its text and its exit code.
pub fn shadows_command(shadows: &[Shadow], opts: &Opts) -> (r: (String, u8))
    ensures
        r.0@ == shadows_output(shadows@),
        r.1 == (if opts.strict && shadows@.len() > 0 { 1u8 } else { 0u8 }),
{
    let mut out = String::new();
    if shadows.len() == 0 {
        push_all(&mut out, "no shadows: every name on PATH resolves to exactly one file\n");
    }
    let ghost head = out@;
    let mut k: usize = 0;
    while k < shadows.len()
        invariant
            k <= shadows@.len(),
            out@ == head + shadow_blocks(shadows@, k as int),
        decreases shadows@.len() - k,
    {
        push_shadow_block(&mut out, &shadows[k]);
        k += 1;
    }
    proof {
        reveal_strlit("no shadows: every name on PATH resolves to exactly one file\n");
    }
    assert(out@ =~= shadows_output(shadows@));
    (out, strict_exit(opts, shadows.len()))
}

// ------------------------------------------------------------------
// The `which` subcommand

/// What a record says of where its file came from.
pub open spec fn provenance_text(r: RecordV) -> Seq<char> {
    if r.status is Orphan {
        eco_label(r.ecosystem) + " · orphan"@
    } else {
        eco_label(r.ecosystem) + " · "@ + r.package + " "@ + r.version
    }
}

/// The provenance of a path: that of the first record at that path (the
/// same components) that is not missing.
pub open spec fn provenance(rs: Seq<RecordV>, path: Seq<char>) -> Option<Seq<char>>
    decreases rs.len(),
{
    if rs.len() == 0 {
        None
    } else if same_path(rs[0].path, path) && !(rs[0].status is Missing) {
        Some(provenance_text(rs[0]))
    } else {
        provenance(rs.drop_first(), path)
    }
}

/// The line of the `idx`-th place a name is found on PATH.
pub open spec fn hit_line(rs: Seq<RecordV>, idx: int, hit: Seq<char>) -> Seq<char> {
    "  "@ + dec((idx + 1) as nat) + ". "@ + hit + "  "@
        + (if idx == 0 { "← active"@ } else { "shadowed"@ })
        + (match provenance(rs, hit) {
            Some(p) => "  ("@ + p + ")"@,
            None => Seq::empty(),
        })
        + "\n"@
}

/// The lines of the first `n` places.
pub open spec fn hit_lines(rs: Seq<RecordV>, hits: Seq<Seq<char>>, n: int) -> Seq<char>
    decreases n,
{
    if n <= 0 {
        Seq::empty()
    } else {
        hit_lines(rs, hits, n - 1) + hit_line(rs, n - 1, hits[n - 1])
    }
}

/// Whether some path of `hits` is `p`, component by component.
pub open spec fn path_listed(hits: Seq<Seq<char>>, p: Seq<char>) -> bool {
    exists|k: int| 0 <= k < hits.len() && same_path(#[trigger] hits[k], p)
}

/// Whether some path of `hits` is `p`, component by component.
fn path_in(hits: &Vec<String>, p: &str) -> (r: bool)
    ensures
        r == path_listed(texts_of(hits@), p@),
{
    let ghost hv = texts_of(hits@);
    let mut i: usize = 0;
    while i < hits.len()
        invariant
            i <= hits@.len(),
            hv == texts_of(hits@),
            forall|k: int| 0 <= k < i ==> !same_path(#[trigger] hv[k], p@),
        decreases hits@.len() - i,
    {
        assert(hv[i as int] == hits@[i as int]@);
        if same_path_of(hits[i].as_str(), p) {
            assert(same_path(hv[i as int], p@));
            return true;
        }
        i += 1;
    }
    false
}

/// The providers of `name` that the package managers know about and
/// that PATH cannot reach.
pub open spec fn off_path(rs: Seq<RecordV>, name: Seq<char>, hits: Seq<Seq<char>>) -> Seq<RecordV>
    decreases rs.len(),
{
    if rs.len() == 0 {
        Seq::empty()
    } else {
        let prev = off_path(rs.drop_last(), name, hits);
        let r = rs.last();
        if r.name == name && !(r.status is Missing) && !path_listed(hits, r.path) {
            prev.push(r)
        } else {
            prev
        }
    }
}

/// The line of a provider PATH cannot reach.
pub open spec fn also_line(r: RecordV) -> Seq<char> {
    "  also: "@ + r.path + " ("@ + eco_label(r.ecosystem) + " · "@ + r.package + " "@ + r.version
        + ") — not reachable via PATH\n"@
}

/// The text of `which name`, given where PATH has it (`hits`, winner first).
pub open spec fn which_output(name: Seq<char>, rs: Seq<RecordV>, hits: Seq<Seq<char>>) -> Seq<char> {
    (if hits.len() == 0 {
        name + ": not found on PATH\n"@
    } else {
        name + " — "@ + count_text(hits.len(), "place"@, "places"@) + " on PATH\n"@
            + hit_lines(rs, hits, hits.len() as int)
    }) + crate::report::lines_of(off_path(rs, name, hits), |r: RecordV| also_line(r))
}

fn provenance_of(all: &Vec<&BinaryRecord>, path: &str) -> (r: Option<String>)
    ensures
        opt_text(r) == provenance(refs_view(all@), path@),
{
    let ghost rv = refs_view(all@);
    let mut i: usize = 0;
    assert(rv.skip(0) =~= rv);
    while i < all.len()
        invariant
            i <= all@.len(),
            rv == refs_view(all@),
            provenance(rv, path@) == provenance(rv.skip(i as int), path@),
        decreases all@.len() - i,
    {
        let r = all[i];
        assert(rv.skip(i as int)[0] == r@);
        assert(rv.skip(i as int).drop_first() =~= rv.skip(i + 1));
        if same_path_of(r.path.as_str(), path) && !r.status.is_missing() {
            let mut t = owned(r.ecosystem.label());
            if r.status.is_orphan() {
                push_all(&mut t, " · orphan");
            } else {
                push_all(&mut t, " · ");
                push_all(&mut t, r.package.as_str());
                push_all(&mut t, " ");
                push_all(&mut t, r.version.as_str());
            }
            return Some(t);
        }
        i += 1;
    }
    None
}

fn push_hit_line(out: &mut String, all: &Vec<&BinaryRecord>, i: usize, hit: &str)
    requires
        i < usize::MAX,
    ensures
        final(out)@ == old(out)@ + hit_line(refs_view(all@), i as int, hit@),
{
    push_all(out, "  ");
    push_u64(out, (i + 1) as u64);
    push_all(out, ". ");
    push_all(out, hit);
    push_all(out, "  ");
    if i == 0 {
        push_all(out, "← active");
    } else {
        push_all(out, "shadowed");
    }
    let ghost mid = out@;
    match provenance_of(all, hit) {
        Some(p) => {
            push_all(out, "  (");
            push_all(out, p.as_str());
            push_all(out, ")");
        },
        None => {},
    }
    push_all(out, "\n");
    assert(final(out)@ =~= old(out)@ + hit_line(refs_view(all@), i as int, hit@));
}

fn push_hit_lines(out: &mut String, all: &Vec<&BinaryRecord>, hits: &Vec<String>)
    ensures
        final(out)@ == old(out)@ + hit_lines(refs_view(all@), texts_of(hits@), hits@.len() as int),
{
    let ghost rv = refs_view(all@);
    let ghost hv = texts_of(hits@);
    let ghost start = out@;
    let mut i: usize = 0;
    while i < hits.len()
        invariant
            i <= hits@.len(),
            rv == refs_view(all@),
            hv == texts_of(hits@),
            out@ == start + hit_lines(rv, hv, i as int),
        decreases hits@.len() - i,
    {
        assert(hv[i as int] == hits@[i as int]@);
        push_hit_line(out, all, i, hits[i].as_str());
        assert(out@ =~= start + hit_lines(rv, hv, i + 1));
        i += 1;
    }
}

/// The `which` subcommand, given every place PATH has `name` (winner
/// first): its text, and exit code 1 when nothing provides the name.
pub fn which_command(name: &str, inv: &Inventory, hits: &Vec<String>) -> (r: (String, u8))
    ensures
        r.0@ == which_output(name@, all_records(inv.sections@), texts_of(hits@)),
        r.1 == (if hits@.len() == 0 && off_path(all_records(inv.sections@), name@, texts_of(hits@)).len() == 0 {
            1u8
        } else {
            0u8
        }),
{
    let all = inv.records();
    let ghost rv = refs_view(all@);
    let ghost hv = texts_of(hits@);
    let mut out = owned(name);
    if hits.len() == 0 {
        push_all(&mut out, ": not found on PATH\n");
    } else {
        push_all(&mut out, " — ");
        push_all(&mut out, count(hits.len(), "place", "places").as_str());
        push_all(&mut out, " on PATH\n");
        push_hit_lines(&mut out, &all, hits);
    }
    let ghost head = out@;
    let ghost f = |r: RecordV| also_line(r);
    let mut n_off: usize = 0;
    let mut i: usize = 0;
    assert(rv.take(0) =~= Seq::<RecordV>::empty());
    assert(out@ =~= head + crate::report::lines_of(off_path(rv.take(0), name@, hv), f));
    while i < all.len()
        invariant
            i <= all@.len(),
            rv == refs_view(all@),
            hv == texts_of(hits@),
            f == (|r: RecordV| also_line(r)),
            out@ == head + crate::report::lines_of(off_path(rv.take(i as int), name@, hv), f),
            n_off == off_path(rv.take(i as int), name@, hv).len(),
            n_off <= i,
        decreases all@.len() - i,
    {
        let r = all[i];
        assert(rv.take(i + 1).drop_last() =~= rv.take(i as int));
        assert(rv.take(i + 1).last() == r@);
        assert(crate::text::texts_of(hits@) =~= hv);
        let ghost prev = off_path(rv.take(i as int), name@, hv);
        if str_eq(r.name.as_str(), name) && !r.status.is_missing()
            && !path_in(hits, r.path.as_str()) {
            assert(off_path(rv.take(i + 1), name@, hv) == prev.push(r@));
            assert(prev.push(r@).drop_last() =~= prev);
            let ghost before = out@;
            push_all(&mut out, "  also: ");
            push_all(&mut out, r.path.as_str());
            push_all(&mut out, " (");
            push_all(&mut out, r.ecosystem.label());
            push_all(&mut out, " · ");
            push_all(&mut out, r.package.as_str());
            push_all(&mut out, " ");
            push_all(&mut out, r.version.as_str());
            push_all(&mut out, ") — not reachable via PATH\n");
            assert(out@ =~= before + also_line(r@));
            n_off += 1;
        }
        i += 1;
    }
    assert(rv.take(all@.len() as int) =~= rv);
    proof {
        reveal_strlit(": not found on PATH\n");
    }
    assert(out@ =~= which_output(name@, rv, hv));
    let code = if hits.len() == 0 && n_off == 0 { 1u8 } else { 0u8 };
    (out, code)
}

} // verus!
