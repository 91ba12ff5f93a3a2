//! Cargo provenance: the install registry `cargo install` keeps in
//! `$CARGO_HOME/.crates2.json` (or the legacy `.crates.toml`), and the
//! reconciliation of its claims against what sits in `$CARGO_HOME/bin`.

use vstd::prelude::*;
use crate::text::{
    chars_of, string_of, string_from, owned, push_all, push_u64, dec, find_seq, find_in,
    rfind_char, rfind_in, words, words_in, ascii_lower, ascii_lower_of, has_prefix,
    starts_with_in, contains_seq, contains_in, split_char, split_in, trim, trim_bounds,
    slice_of, str_eq, sort_by_key, Named, name_key, sort_by_name,
    lemma_sort_map, texts_of, is_unicode_ws, lemma_words_two, lemma_find_from_skip,
    occurs_here, sorted_by_key,
};
use crate::json::{self, JsonV, member_of, items_view, members_view, parse_doc, doc_err};
use crate::inventory::{
    BinaryRecord, BinStatus, Ecosystem, RecordV, StatusV, BinEntry, EntryV, Probe, entries_view,
    records_view, record_name, unclaimed_records, is_claimed, sort_records,
};
use crate::path::{join, join_path, file_name, file_name_is};

verus! {

/// One `cargo install` record: package, version, where it came from, and
/// the executables it claims.
#[derive(Debug, Clone, PartialEq)]
pub struct CargoInstall {
    pub name: String,
    pub version: String,
    /// `crates.io`, `registry`, `git`, `path` or `?`.
    pub origin: String,
    /// The raw source URL from the spec, for the JSON report.
    pub source: String,
    pub bins: Vec<String>,
}

/// The mathematical content of a `CargoInstall`.
pub struct InstallV {
    pub name: Seq<char>,
    pub version: Seq<char>,
    pub origin: Seq<char>,
    pub source: Seq<char>,
    pub bins: Seq<Seq<char>>,
}

impl View for CargoInstall {
    type V = InstallV;

    open spec fn view(&self) -> InstallV {
        InstallV {
            name: self.name@,
            version: self.version@,
            origin: self.origin@,
            source: self.source@,
            bins: texts_of(self.bins@),
        }
    }
}

/// The view of one install, as a function.
pub open spec fn install_view_fn() -> spec_fn(CargoInstall) -> InstallV {
    |c: CargoInstall| c@
}

/// The views of a list of installs.
pub open spec fn installs_view(v: Seq<CargoInstall>) -> Seq<InstallV> {
    v.map_values(install_view_fn())
}

/// The sort key of an install: its package name.
pub open spec fn install_name() -> spec_fn(InstallV) -> Seq<char> {
    |i: InstallV| i.name
}

impl Named for CargoInstall {
    open spec fn spec_name(&self) -> Seq<char> {
        self.name@
    }

    fn name_str(&self) -> (r: &str) {
        self.name.as_str()
    }
}

/// Sort installs by package name, stably.
fn sort_installs(v: Vec<CargoInstall>) -> (r: Vec<CargoInstall>)
    ensures
        installs_view(r@) == sort_by_key(installs_view(v@), install_name()),
{
    let r = sort_by_name(v);
    proof {
        lemma_sort_map(v@, name_key::<CargoInstall>(), install_view_fn(), install_name());
    }
    r
}

// ------------------------------------------------------------------
// Package specs

/// The short origin label of a cargo source URL. Both the git-index and
/// sparse protocols of the default registry read as `crates.io`.
pub open spec fn classify(source: Seq<char>) -> Seq<char> {
    let l = ascii_lower(source);
    if has_prefix(l, "registry+"@) || has_prefix(l, "sparse+"@) {
        if contains_seq(l, "crates.io"@) {
            "crates.io"@
        } else {
            "registry"@
        }
    } else if has_prefix(l, "git+"@) {
        "git"@
    } else if has_prefix(l, "path+"@) {
        "path"@
    } else {
        "?"@
    }
}

/// The fields of a package spec `name version (source)`: the head before
/// the first ` (` must be exactly two words, the source runs up to the
/// last `)`.
pub open spec fn spec_fields(spec: Seq<char>) -> Option<(Seq<char>, Seq<char>, Seq<char>, Seq<char>)> {
    match find_seq(spec, " ("@) {
        None => None,
        Some(open) => match rfind_char(spec, ')') {
            None => None,
            Some(close) => if close <= open + 2 {
                None
            } else {
                let w = words(spec.take(open));
                let source = spec.subrange(open + 2, close);
                if w.len() == 2 {
                    Some((w[0], w[1], classify(source), source))
                } else {
                    None
                }
            },
        },
    }
}

/// Law: a spec written as `name version (source)`, with a name and a
/// version that are non-empty words (the version not starting with `(`)
/// and a non-empty source, reads back as its four fields, the origin
/// being the classification of the source.
pub proof fn lemma_spec_fields_of_parts(name: Seq<char>, version: Seq<char>, source: Seq<char>)
    requires
        name.len() > 0,
        version.len() > 0,
        source.len() > 0,
        forall|i: int| 0 <= i < name.len() ==> !is_unicode_ws(#[trigger] name[i]),
        forall|i: int| 0 <= i < version.len() ==> !is_unicode_ws(#[trigger] version[i]),
        version[0] != '(',
    ensures
        spec_fields(name + " "@ + version + " ("@ + source + ")"@)
            == Some((name, version, classify(source), source)),
{
    reveal_strlit(" ");
    reveal_strlit(" (");
    reveal_strlit(")");
    let head = name + seq![' '] + version;
    let spec = name + " "@ + version + " ("@ + source + ")"@;
    assert(" "@ =~= seq![' ']);
    assert(spec =~= head + seq![' ', '('] + source + seq![')']);
    let n = name.len() as int;
    let l = head.len() as int;
    let pat = " ("@;
    assert(pat =~= seq![' ', '(']);
    assert forall|k: int| 0 <= k < l implies !#[trigger] occurs_here(spec, pat, k) by {
        if k < n {
            assert(spec[k] == name[k]);
            assert(spec.subrange(k, k + 2)[0] == spec[k]);
        } else if k == n {
            assert(spec[k + 1] == version[0]);
            assert(spec.subrange(k, k + 2)[1] == spec[k + 1]);
        } else {
            assert(spec[k] == version[k - n - 1]);
            assert(spec.subrange(k, k + 2)[0] == spec[k]);
        }
    }
    lemma_find_from_skip(spec, pat, 0, l);
    assert(spec.subrange(l, l + 2) =~= pat);
    assert(find_seq(spec, pat) == Some(l));
    assert(spec.last() == ')');
    assert(rfind_char(spec, ')') == Some(spec.len() - 1));
    assert(spec.take(l) =~= head);
    assert(is_unicode_ws(' '));
    lemma_words_two(name, ' ', version);
    assert(spec.subrange(l + 2, spec.len() - 1) =~= source);
}

/// Map a cargo source URL to a short origin label.
fn classify_source(source: &Vec<char>) -> (r: String)
    ensures
        r@ == classify(source@),
{
    let lowered = ascii_lower_of(source);
    if starts_with_in(&lowered, "registry+") || starts_with_in(&lowered, "sparse+") {
        if contains_in(&lowered, "crates.io") {
            owned("crates.io")
        } else {
            owned("registry")
        }
    } else if starts_with_in(&lowered, "git+") {
        owned("git")
    } else if starts_with_in(&lowered, "path+") {
        owned("path")
    } else {
        owned("?")
    }
}

/// Parse a cargo package spec key such as
/// `ripgrep 14.1.0 (registry+https://github.com/rust-lang/crates.io-index)`
/// into `(name, version, origin, source)`.
pub fn parse_spec(spec: &str) -> (r: Option<(String, String, String, String)>)
    ensures
        spec_fields(spec@) is Some <==> r is Some,
        r matches Some((n, v, o, s)) ==> spec_fields(spec@) == Some((n@, v@, o@, s@)),
{
    let v = chars_of(spec);
    let open = match find_in(&v, " (") {
        Some(i) => i,
        None => return None,
    };
    let close = match rfind_in(&v, ')') {
        Some(i) => i,
        None => return None,
    };
    proof {
        assert(" ("@.len() == 2) by { reveal_strlit(" ("); }
        crate::text::lemma_find_seq_bounds(v@, " ("@);
        crate::text::lemma_rfind_bounds(v@, ')');
    }
    if close < open || close - open <= 2 {
        return None;
    }
    let head = slice_of(&v, 0, open);
    assert(head@ =~= v@.take(open as int));
    let source = slice_of(&v, open + 2, close);
    let w = words_in(&head);
    if w.len() != 2 {
        return None;
    }
    let origin = classify_source(&source);
    Some((string_from(&w[0]), string_from(&w[1]), origin, string_from(&source)))
}

// ------------------------------------------------------------------
// The legacy `.crates.toml`

/// One quoted bin name of a `.crates.toml` list, quotes removed.
pub open spec fn toml_bin(t: Seq<char>) -> Option<Seq<char>> {
    if t.len() >= 2 && t[0] == '"' && t.last() == '"' {
        Some(t.subrange(1, t.len() - 1))
    } else {
        None
    }
}

/// The bin names of the comma-separated pieces of a list; empty pieces
/// are skipped, any other piece must be quoted.
pub open spec fn toml_bins(pieces: Seq<Seq<char>>) -> Option<Seq<Seq<char>>>
    decreases pieces.len(),
{
    if pieces.len() == 0 {
        Some(Seq::empty())
    } else {
        match toml_bins(pieces.drop_last()) {
            None => None,
            Some(acc) => {
                let t = trim(pieces.last());
                if t.len() == 0 {
                    Some(acc)
                } else {
                    match toml_bin(t) {
                        None => None,
                        Some(b) => Some(acc.push(b)),
                    }
                }
            },
        }
    }
}

proof fn lemma_toml_bins_none_extends(ps: Seq<Seq<char>>, k: int)
    requires
        0 <= k <= ps.len(),
        toml_bins(ps.take(k)) is None,
    ensures
        toml_bins(ps) is None,
    decreases ps.len() - k,
{
    if k < ps.len() {
        assert(ps.take(k + 1).drop_last() =~= ps.take(k));
        lemma_toml_bins_none_extends(ps, k + 1);
    } else {
        assert(ps.take(k) =~= ps);
    }
}

/// One `"spec" = ["a", "b"]` line, split into the spec and its bins.
pub open spec fn toml_entry(line: Seq<char>) -> Option<(Seq<char>, Seq<Seq<char>>)> {
    if line.len() == 0 || line[0] != '"' {
        None
    } else {
        let rest = line.drop_first();
        match find_seq(rest, "\" = ["@) {
            None => None,
            Some(end) => {
                let after = rest.skip(end + 5);
                if after.len() == 0 || after.last() != ']' {
                    None
                } else {
                    match toml_bins(split_char(after.drop_last(), ',')) {
                        None => None,
                        Some(bins) => Some((rest.take(end), bins)),
                    }
                }
            },
        }
    }
}

/// Split one `"spec" = ["a", "b"]` line.
#[verifier::rlimit(40)]
fn parse_toml_entry(line: &Vec<char>) -> (r: Option<(Vec<char>, Vec<String>)>)
    ensures
        toml_entry(line@) is Some <==> r is Some,
        r matches Some((spec, bins)) ==> toml_entry(line@) == Some((spec@, texts_of(bins@))),
{
    if line.len() == 0 || line[0] != '"' {
        return None;
    }
    let rest = slice_of(line, 1, line.len());
    assert(rest@ =~= line@.drop_first());
    let end = match find_in(&rest, "\" = [") {
        Some(e) => e,
        None => return None,
    };
    proof {
        assert("\" = ["@.len() == 5) by { reveal_strlit("\" = ["); }
        crate::text::lemma_find_seq_bounds(rest@, "\" = ["@);
    }
    let after = slice_of(&rest, end + 5, rest.len());
    assert(after@ =~= rest@.skip(end + 5));
    if after.len() == 0 || after[after.len() - 1] != ']' {
        return None;
    }
    let list = slice_of(&after, 0, after.len() - 1);
    assert(list@ =~= after@.drop_last());
    let pieces = split_in(&list, ',');
    let ghost ps = split_char(list@, ',');
    let mut bins: Vec<String> = Vec::new();
    let mut i: usize = 0;
    assert(ps.take(0) =~= Seq::<Seq<char>>::empty());
    let ghost whole = match toml_bins(ps) {
        None => None,
        Some(bs) => Some((rest@.take(end as int), bs)),
    };
    assert(toml_entry(line@) == whole);
    while i < pieces.len()
        invariant
            i <= pieces@.len(),
            toml_entry(line@) == whole,
            whole == match toml_bins(ps) {
                None => None,
                Some(bs) => Some((rest@.take(end as int), bs)),
            },
            pieces@.len() == ps.len(),
            forall|j: int| 0 <= j < pieces@.len() ==> #[trigger] pieces@[j]@ == ps[j],
            toml_bins(ps.take(i as int)) == Some(texts_of(bins@)),
        decreases pieces@.len() - i,
    {
        let piece = &pieces[i];
        let (a, b) = trim_bounds(piece, 0, piece.len());
        assert(piece@.subrange(0, piece@.len() as int) =~= piece@);
        assert(ps.take(i + 1).drop_last() =~= ps.take(i as int));
        assert(ps.take(i + 1).last() == ps[i as int]);
        if a < b {
            if b - a >= 2 && piece[a] == '"' && piece[b - 1] == '"' {
                let name = string_of(piece, a + 1, b - 1);
                proof {
                    let t = piece@.subrange(a as int, b as int);
                    assert(t.subrange(1, t.len() - 1) =~= piece@.subrange(a + 1, b - 1));
                }
                let ghost before = bins@;
                bins.push(name);
                assert(texts_of(bins@) =~= texts_of(before).push(bins@.last()@));
            } else {
                proof {
                    let t = piece@.subrange(a as int, b as int);
                    assert(ps[i as int] == piece@);
                    assert(trim(ps.take(i + 1).last()) == t);
                    assert(toml_bin(t) is None);
                    assert(toml_bins(ps.take(i + 1)) is None);
                    lemma_toml_bins_none_extends(ps, i + 1);
                }
                return None;
            }
        }
        i += 1;
    }
    assert(ps.take(ps.len() as int) =~= ps);
    let spec = slice_of(&rest, 0, end);
    assert(spec@ =~= rest@.take(end as int));
    Some((spec, bins))
}


/// The outcome of reading `.crates.toml` lines from `i` on, inside the
/// `[v1]` table when `in_v1`, with the installs read so far in `acc`. An
/// error carries the 1-based line number and whether the entry parsed but
/// its package spec did not.
pub open spec fn toml_scan(ls: Seq<Seq<char>>, i: int, in_v1: bool, acc: Seq<InstallV>) -> Result<
    Seq<InstallV>,
    (nat, bool),
>
    decreases ls.len() - i,
{
    if i < 0 || i >= ls.len() {
        Ok(acc)
    } else {
        let line = trim(ls[i]);
        if line.len() == 0 || line[0] == '#' {
            toml_scan(ls, i + 1, in_v1, acc)
        } else if line[0] == '[' {
            toml_scan(ls, i + 1, line == "[v1]"@, acc)
        } else if !in_v1 {
            toml_scan(ls, i + 1, in_v1, acc)
        } else {
            match toml_entry(line) {
                None => Err(((i + 1) as nat, false)),
                Some((spec, bins)) => match spec_fields(spec) {
                    None => Err(((i + 1) as nat, true)),
                    Some((n, v, o, src)) => toml_scan(
                        ls,
                        i + 1,
                        in_v1,
                        acc.push(InstallV { name: n, version: v, origin: o, source: src, bins }),
                    ),
                },
            }
        }
    }
}

/// The installs a `.crates.toml` text records, sorted by name; or the
/// failing line.
pub open spec fn crates_toml(text: Seq<char>) -> Result<Seq<InstallV>, (nat, bool)> {
    match toml_scan(split_char(text, '\n'), 0, false, Seq::empty()) {
        Ok(acc) => Ok(sort_by_key(acc, install_name())),
        Err(e) => Err(e),
    }
}

/// The message for a failing `.crates.toml` line.
pub open spec fn toml_error(line: nat, bad_spec: bool) -> Seq<char> {
    ".crates.toml line "@ + dec(line) + if bad_spec {
        ": bad package spec"@
    } else {
        ": unparsable entry"@
    }
}

fn toml_error_message(line: usize, bad_spec: bool) -> (r: String)
    ensures
        r@ == toml_error(line as nat, bad_spec),
{
    let mut m = owned(".crates.toml line ");
    push_u64(&mut m, line as u64);
    if bad_spec {
        push_all(&mut m, ": bad package spec");
    } else {
        push_all(&mut m, ": unparsable entry");
    }
    m
}

/// Parse the legacy `.crates.toml`:
///
/// ```toml
/// [v1]
/// "ripgrep 14.1.0 (registry+https://github.com/rust-lang/crates.io-index)" = ["rg"]
/// ```
///
/// This is not a general TOML parser: cargo only ever writes this shape.
pub fn parse_crates_toml(text: &str) -> (r: Result<Vec<CargoInstall>, String>)
    ensures
        crates_toml(text@) is Ok <==> r is Ok,
        r matches Ok(v) ==> crates_toml(text@) == Ok::<Seq<InstallV>, (nat, bool)>(installs_view(v@)),
        r matches Err(m) ==> (crates_toml(text@) matches Err((n, b)) && m@ == toml_error(n, b)),
{
    let v = chars_of(text);
    let lines = split_in(&v, '\n');
    let ghost ls = split_char(text@, '\n');
    let mut in_v1 = false;
    let mut out: Vec<CargoInstall> = Vec::new();
    let mut idx: usize = 0;
    assert(installs_view(out@) =~= Seq::empty());
    while idx < lines.len()
        invariant
            idx <= lines@.len(),
            lines@.len() == ls.len(),
            v@ == text@,
            ls == split_char(text@, '\n'),
            forall|j: int| 0 <= j < lines@.len() ==> #[trigger] lines@[j]@ == ls[j],
            toml_scan(ls, 0, false, Seq::empty()) == toml_scan(ls, idx as int, in_v1, installs_view(out@)),
        decreases lines@.len() - idx,
    {
        let raw = &lines[idx];
        let (a, b) = trim_bounds(raw, 0, raw.len());
        assert(raw@.subrange(0, raw@.len() as int) =~= raw@);
        let line = slice_of(raw, a, b);
        assert(line@ == trim(ls[idx as int]));
        if line.len() == 0 || line[0] == '#' {
            idx += 1;
            continue;
        }
        if line[0] == '[' {
            let line_s = string_from(&line);
            in_v1 = str_eq(line_s.as_str(), "[v1]");
            idx += 1;
            continue;
        }
        if !in_v1 {
            idx += 1;
            continue;
        }
        let (spec_chars, bins) = match parse_toml_entry(&line) {
            Some(e) => e,
            None => return Err(toml_error_message(idx + 1, false)),
        };
        let spec = string_from(&spec_chars);
        let (name, version, origin, source) = match parse_spec(spec.as_str()) {
            Some(f) => f,
            None => return Err(toml_error_message(idx + 1, true)),
        };
        let ghost before = out@;
        out.push(CargoInstall { name, version, origin, source, bins });
        assert(installs_view(out@) =~= installs_view(before).push(out@.last()@));
        idx += 1;
    }
    let sorted = sort_installs(out);
    Ok(sorted)
}

// ------------------------------------------------------------------
// `.crates2.json`

/// The string values among JSON values, in order.
pub open spec fn json_strings(items: Seq<JsonV>) -> Seq<Seq<char>>
    decreases items.len(),
{
    if items.len() == 0 {
        Seq::empty()
    } else {
        let rest = json_strings(items.drop_last());
        match items.last() {
            JsonV::Str(t) => rest.push(t),
            _ => rest,
        }
    }
}

/// The `bins` list of an install entry: its string elements, or nothing.
pub open spec fn entry_bins(entry: JsonV) -> Seq<Seq<char>> {
    match member_of(entry, "bins"@) {
        Some(JsonV::Array(items)) => json_strings(items),
        _ => Seq::empty(),
    }
}

/// Installs of the `installs` members from `i` on, appended to `acc`;
/// `None` at the first unparsable spec.
pub open spec fn crates2_scan(m: Seq<(Seq<char>, JsonV)>, i: int, acc: Seq<InstallV>) -> Option<
    Seq<InstallV>,
>
    decreases m.len() - i,
{
    if i < 0 || i >= m.len() {
        Some(acc)
    } else {
        match spec_fields(m[i].0) {
            None => None,
            Some((n, v, o, src)) => crates2_scan(
                m,
                i + 1,
                acc.push(InstallV { name: n, version: v, origin: o, source: src, bins: entry_bins(m[i].1) }),
            ),
        }
    }
}

/// The installs `.crates2.json` records, sorted by name: the document is
/// `{"installs": {"<spec>": {"bins": [...]}}}`.
pub open spec fn crates2(text: Seq<char>) -> Option<Seq<InstallV>> {
    match parse_doc(text) {
        None => None,
        Some(doc) => match member_of(doc, "installs"@) {
            Some(JsonV::Object(m)) => match crates2_scan(m, 0, Seq::empty()) {
                Some(acc) => Some(sort_by_key(acc, install_name())),
                None => None,
            },
            _ => None,
        },
    }
}

/// The first spec key, from member `i` on, that does not parse.
pub open spec fn first_bad_spec(m: Seq<(Seq<char>, JsonV)>, i: int) -> Option<Seq<char>>
    decreases m.len() - i,
{
    if i < 0 || i >= m.len() {
        None
    } else if spec_fields(m[i].0) is None {
        Some(m[i].0)
    } else {
        first_bad_spec(m, i + 1)
    }
}

/// The installs scan succeeds exactly when no spec from `i` on fails, and
/// then holds one install per member.
proof fn lemma_crates2_scan(m: Seq<(Seq<char>, JsonV)>, i: int, acc: Seq<InstallV>)
    requires
        0 <= i <= m.len(),
    ensures
        crates2_scan(m, i, acc) is Some <==> first_bad_spec(m, i) is None,
        crates2_scan(m, i, acc) matches Some(r) ==> r.len() == acc.len() + m.len() - i,
    decreases m.len() - i,
{
    if i < m.len() {
        if let Some((n, v, o, src)) = spec_fields(m[i].0) {
            lemma_crates2_scan(
                m,
                i + 1,
                acc.push(InstallV { name: n, version: v, origin: o, source: src, bins: entry_bins(m[i].1) }),
            );
        }
    }
}

/// Law: `.crates2.json` reads exactly when it is a JSON document whose
/// `installs` member is an object every key of which is a package spec;
/// it then yields one install per key, sorted by name.
pub proof fn lemma_crates2_reads(text: Seq<char>)
    ensures
        crates2(text) is Some <==> (parse_doc(text) matches Some(doc) && member_of(doc, "installs"@) matches Some(
            JsonV::Object(m),
        ) && first_bad_spec(m, 0) is None),
        crates2(text) matches Some(v) ==> sorted_by_key(v, install_name()) && (parse_doc(text) matches Some(doc)
            && member_of(doc, "installs"@) matches Some(JsonV::Object(m)) && v.len() == m.len()),
{
    if let Some(doc) = parse_doc(text) {
        if let Some(JsonV::Object(m)) = member_of(doc, "installs"@) {
            lemma_crates2_scan(m, 0, Seq::empty());
            if let Some(acc) = crates2_scan(m, 0, Seq::empty()) {
                crate::text::lemma_sort_by_key_sorted(acc, install_name());
            }
        }
    }
}

/// Whether `msg` is what reading `.crates2.json` reports for `text`: the
/// JSON reader's complaint (`doc_err`) after a `.crates2.json: ` prefix, a missing
/// `installs` object, or the first package spec that does not parse.
pub open spec fn crates2_error(text: Seq<char>, msg: Seq<char>) -> bool {
    match parse_doc(text) {
        None => msg == ".crates2.json: "@ + doc_err(text),
        Some(doc) => match member_of(doc, "installs"@) {
            Some(JsonV::Object(m)) => match first_bad_spec(m, 0) {
                Some(k) => msg == ".crates2.json: unparsable spec '"@ + k + "'"@,
                None => false,
            },
            _ => msg == ".crates2.json: missing 'installs' object"@,
        },
    }
}

/// The string elements of a JSON array, as owned strings.
pub fn strings_of(items: &[json::Json]) -> (r: Vec<String>)
    ensures
        texts_of(r@) == json_strings(items_view(items@)),
{
    let mut out: Vec<String> = Vec::new();
    let mut i: usize = 0;
    proof { json::lemma_items_view(items@); }
    assert(items@.take(0) =~= Seq::<json::Json>::empty());
    assert(texts_of(out@) =~= Seq::empty());
    while i < items.len()
        invariant
            i <= items@.len(),
            texts_of(out@) == json_strings(items_view(items@.take(i as int))),
        decreases items@.len() - i,
    {
        proof {
            json::lemma_items_view(items@.take(i + 1));
            json::lemma_items_view(items@.take(i as int));
            assert(items_view(items@.take(i + 1)).drop_last() =~= items_view(items@.take(i as int)));
            assert(items_view(items@.take(i + 1)).last() == items@[i as int].jv());
        }
        match items[i].as_str() {
            Some(t) => {
                let ghost before = out@;
                out.push(owned(t));
                assert(texts_of(out@) =~= texts_of(before).push(t@));
            },
            None => {},
        }
        i += 1;
    }
    assert(items@.take(items@.len() as int) =~= items@);
    out
}

/// Parse `.crates2.json`: `{"installs": {"<spec>": {"bins": [...]}}}`.
pub fn parse_crates2(text: &str) -> (r: Result<Vec<CargoInstall>, String>)
    ensures
        crates2(text@) is Some <==> r is Ok,
        r matches Ok(v) ==> crates2(text@) == Some(installs_view(v@)),
        r matches Err(m) ==> crates2_error(text@, m@),
{
    let doc = match json::parse(text) {
        Ok(d) => d,
        Err(e) => {
            let mut m = owned(".crates2.json: ");
            push_all(&mut m, e.as_str());
            return Err(m);
        },
    };
    let installs = match doc.get("installs") {
        Some(v) => match v.as_object() {
            Some(m) => m,
            None => return Err(owned(".crates2.json: missing 'installs' object")),
        },
        None => return Err(owned(".crates2.json: missing 'installs' object")),
    };
    let ghost mv = members_view(installs@);
    proof { json::lemma_members_view(installs@); }
    let mut out: Vec<CargoInstall> = Vec::new();
    let mut i: usize = 0;
    assert(installs_view(out@) =~= Seq::empty());
    let ghost whole = match crates2_scan(mv, 0, Seq::empty()) {
        Some(acc) => Some(sort_by_key(acc, install_name())),
        None => None,
    };
    assert(crates2(text@) == whole);
    while i < installs.len()
        invariant
            i <= installs@.len(),
            crates2(text@) == whole,
            whole == match crates2_scan(mv, 0, Seq::empty()) {
                Some(acc) => Some(sort_by_key(acc, install_name())),
                None => None,
            },
            mv == members_view(installs@),
            mv.len() == installs@.len(),
            forall|j: int| 0 <= j < installs@.len() ==> #[trigger] mv[j] == (installs@[j].0@, installs@[j].1.jv()),
            crates2_scan(mv, 0, Seq::empty()) == crates2_scan(mv, i as int, installs_view(out@)),
            first_bad_spec(mv, 0) == first_bad_spec(mv, i as int),
            parse_doc(text@) matches Some(doc) && member_of(doc, "installs"@) == Some(JsonV::Object(mv)),
        decreases installs@.len() - i,
    {
        let (spec, entry) = (&installs[i].0, &installs[i].1);
        let (name, version, origin, source) = match parse_spec(spec.as_str()) {
            Some(f) => f,
            None => {
                let mut m = owned(".crates2.json: unparsable spec '");
                push_all(&mut m, spec.as_str());
                push_all(&mut m, "'");
                return Err(m);
            },
        };
        let bins = match entry.get("bins") {
            Some(b) => match b.as_array() {
                Some(items) => strings_of(items),
                None => Vec::new(),
            },
            None => Vec::new(),
        };
        assert(texts_of(bins@) == entry_bins(entry.jv()));
        let ghost before = out@;
        out.push(CargoInstall { name, version, origin, source, bins });
        assert(installs_view(out@) =~= installs_view(before).push(out@.last()@));
        i += 1;
    }
    let sorted = sort_installs(out);
    Ok(sorted)
}


// ------------------------------------------------------------------
// Reconciling claims against the bin directory

/// Every claimed executable with the install that claims it, in install
/// order.
pub open spec fn cargo_claims(installs: Seq<InstallV>) -> Seq<(Seq<char>, InstallV)>
    decreases installs.len(),
{
    if installs.len() == 0 {
        Seq::empty()
    } else {
        let last = installs.last();
        cargo_claims(installs.drop_last()) + last.bins.map_values(|b: Seq<char>| (b, last))
    }
}

/// The names of claims.
pub open spec fn claim_names(claims: Seq<(Seq<char>, InstallV)>) -> Seq<Seq<char>> {
    claims.map_values(|c: (Seq<char>, InstallV)| c.0)
}

/// The record of one claimed executable.
pub open spec fn claim_record(bin_dir: Seq<char>, c: (Seq<char>, InstallV), exists: bool) -> RecordV {
    RecordV {
        name: c.0,
        path: join_path(bin_dir, c.0),
        ecosystem: Ecosystem::Cargo,
        package: c.1.name,
        version: c.1.version,
        origin: c.1.origin,
        status: if exists {
            StatusV::Healthy
        } else {
            StatusV::Missing("registered by '"@ + c.1.name + "' but absent from "@ + bin_dir)
        },
    }
}

/// How an unclaimed entry of the cargo bin dir is attributed: `rustup`
/// itself by name, a link to it (symlink or hard link) as a proxy.
pub open spec fn rustup_origin(e: EntryV) -> Option<Seq<char>> {
    if e.name == "rustup"@ {
        Some("rustup"@)
    } else if (e.link_target matches Some(t) && file_name(t) == Some("rustup"@))
        || e.same_file_as_rustup {
        Some("rustup proxy"@)
    } else {
        None
    }
}

/// The record of an unclaimed entry of the cargo bin dir.
pub open spec fn cargo_entry_record(e: EntryV) -> RecordV {
    match rustup_origin(e) {
        Some(o) => RecordV {
            name: e.name,
            path: e.path,
            ecosystem: Ecosystem::Cargo,
            package: "rustup"@,
            version: "?"@,
            origin: o,
            status: StatusV::Healthy,
        },
        None => RecordV {
            name: e.name,
            path: e.path,
            ecosystem: Ecosystem::Cargo,
            package: "?"@,
            version: "?"@,
            origin: "?"@,
            status: StatusV::Orphan("present in bin dir but no cargo install record"@),
        },
    }
}

/// `cargo_entry_record` as a function value.
pub open spec fn cargo_entry_fn() -> spec_fn(EntryV) -> RecordV {
    |e: EntryV| cargo_entry_record(e)
}

/// The full cargo scan: claimed binaries (present or missing), then every
/// other executable of the bin dir, all sorted by name.
pub open spec fn cargo_scan(
    cargo_home: Seq<char>,
    installs: Seq<InstallV>,
    probes: Seq<Probe>,
    entries: Seq<EntryV>,
) -> Seq<RecordV> {
    let bin_dir = join_path(cargo_home, "bin"@);
    let claims = cargo_claims(installs);
    let claimed = Seq::new(
        claims.len(),
        |k: int| claim_record(bin_dir, claims[k], probes[k].exists),
    );
    sort_by_key(
        claimed + unclaimed_records(entries, claim_names(claims), cargo_entry_fn()),
        record_name(),
    )
}

/// The claims of a list of installs, each as the bin name and the index of
/// its install.
fn claims_of(installs: &Vec<CargoInstall>) -> (r: Vec<(String, usize)>)
    ensures
        r@.len() == cargo_claims(installs_view(installs@)).len(),
        forall|k: int| 0 <= k < r@.len() ==> {
            let c = cargo_claims(installs_view(installs@))[k];
            &&& (#[trigger] r@[k]).1 < installs@.len()
            &&& r@[k].0@ == c.0
            &&& installs@[r@[k].1 as int]@ == c.1
        },
{
    let ghost iv = installs_view(installs@);
    let mut out: Vec<(String, usize)> = Vec::new();
    let mut i: usize = 0;
    assert(iv.take(0) =~= Seq::<InstallV>::empty());
    while i < installs.len()
        invariant
            i <= installs@.len(),
            iv == installs_view(installs@),
            out@.len() == cargo_claims(iv.take(i as int)).len(),
            forall|k: int| 0 <= k < out@.len() ==> {
                let c = cargo_claims(iv.take(i as int))[k];
                &&& (#[trigger] out@[k]).1 < installs@.len()
                &&& out@[k].0@ == c.0
                &&& installs@[out@[k].1 as int]@ == c.1
            },
        decreases installs@.len() - i,
    {
        let bins = &installs[i].bins;
        let ghost last = iv[i as int];
        let ghost base = cargo_claims(iv.take(i as int));
        let ghost base_len = out@.len();
        assert(iv.take(i + 1).drop_last() =~= iv.take(i as int));
        assert(iv.take(i + 1).last() == last);
        assert(last.bins == texts_of(bins@));
        let mut j: usize = 0;
        while j < bins.len()
            invariant
                j <= bins@.len(),
                i < installs@.len(),
                bins == &installs@[i as int].bins,
                last == installs@[i as int]@,
                last.bins == texts_of(bins@),
                base_len == base.len(),
                out@.len() == base.len() + j,
                forall|k: int| 0 <= k < out@.len() ==> {
                    let c = (base + last.bins.map_values(|b: Seq<char>| (b, last)))[k];
                    &&& (#[trigger] out@[k]).1 < installs@.len()
                    &&& out@[k].0@ == c.0
                    &&& installs@[out@[k].1 as int]@ == c.1
                },
            decreases bins@.len() - j,
        {
            out.push((bins[j].clone(), i));
            j += 1;
        }
        i += 1;
    }
    assert(iv.take(installs@.len() as int) =~= iv);
    out
}

/// Full cargo scan: claimed binaries first (present or missing), then
/// whatever else sits in `bin/`: rustup and its toolchain proxies are
/// attributed to rustup, anything else is an orphan. Sorted by name.
/// `probes[k]` is what looking up the `k`-th claimed executable (in
/// install order) found; `entries` is the listing of `bin/`.
pub fn scan(
    cargo_home: &str,
    installs: &Vec<CargoInstall>,
    probes: &Vec<Probe>,
    entries: &Vec<BinEntry>,
) -> (r: Vec<BinaryRecord>)
    requires
        probes@.len() == cargo_claims(installs_view(installs@)).len(),
    ensures
        records_view(r@) == cargo_scan(cargo_home@, installs_view(installs@), probes@, entries_view(entries@)),
{
    proof { reveal_strlit("bin"); }
    let bin_dir = join(cargo_home, "bin");
    let claims = claims_of(installs);
    let ghost cl = cargo_claims(installs_view(installs@));
    let ghost claimed_spec = Seq::new(
        cl.len(),
        |k: int| claim_record(bin_dir@, cl[k], probes@[k].exists),
    );
    let mut records: Vec<BinaryRecord> = Vec::new();
    let mut names: Vec<String> = Vec::new();
    let mut k: usize = 0;
    while k < claims.len()
        invariant
            k <= claims@.len(),
            claims@.len() == cl.len(),
            probes@.len() == cl.len(),
            forall|m: int| 0 <= m < claims@.len() ==> {
                &&& (#[trigger] claims@[m]).1 < installs@.len()
                &&& claims@[m].0@ == cl[m].0
                &&& installs@[claims@[m].1 as int]@ == cl[m].1
            },
            claimed_spec == Seq::new(cl.len(), |m: int| claim_record(bin_dir@, cl[m], probes@[m].exists)),
            records_view(records@) == claimed_spec.take(k as int),
            texts_of(names@) == claim_names(cl).take(k as int),
        decreases claims@.len() - k,
    {
        let bin = &claims[k].0;
        let inst = &installs[claims[k].1];
        let path = join(bin_dir.as_str(), bin.as_str());
        let status = if probes[k].exists {
            BinStatus::Healthy
        } else {
            let mut m = owned("registered by '");
            push_all(&mut m, inst.name.as_str());
            push_all(&mut m, "' but absent from ");
            push_all(&mut m, bin_dir.as_str());
            BinStatus::Missing(m)
        };
        let rec = BinaryRecord {
            name: bin.clone(),
            path,
            ecosystem: Ecosystem::Cargo,
            package: inst.name.clone(),
            version: inst.version.clone(),
            origin: inst.origin.clone(),
            status,
        };
        assert(rec@ == claimed_spec[k as int]);
        let ghost rv = rec@;
        let ghost before = records@;
        records.push(rec);
        assert(records@.last()@ == rv);
        assert(records_view(records@) =~= records_view(before).push(rv));
        assert(claimed_spec.take(k + 1) =~= claimed_spec.take(k as int).push(claimed_spec[k as int]));
        let ghost nbefore = names@;
        let bc = bin.clone();
        assert(bc@ == cl[k as int].0);
        names.push(bc);
        assert(names@.last()@ == cl[k as int].0);
        assert(texts_of(names@) =~= texts_of(nbefore).push(cl[k as int].0));
        assert(claim_names(cl).take(k + 1) =~= claim_names(cl).take(k as int).push(cl[k as int].0));
        k += 1;
    }
    assert(claimed_spec.take(cl.len() as int) =~= claimed_spec);
    assert(claim_names(cl).take(cl.len() as int) =~= claim_names(cl));
    let ghost ev = entries_view(entries@);
    let ghost f = cargo_entry_fn();
    let mut i: usize = 0;
    assert(ev.take(0) =~= Seq::<EntryV>::empty());
    assert(records_view(records@) =~= claimed_spec + unclaimed_records(ev.take(0), claim_names(cl), f));
    while i < entries.len()
        invariant
            i <= entries@.len(),
            ev == entries_view(entries@),
            f == cargo_entry_fn(),
            texts_of(names@) == claim_names(cl),
            records_view(records@) == claimed_spec + unclaimed_records(ev.take(i as int), claim_names(cl), f),
        decreases entries@.len() - i,
    {
        let e = &entries[i];
        assert(ev.take(i + 1).drop_last() =~= ev.take(i as int));
        assert(ev.take(i + 1).last() == e@);
        if !is_claimed(&names, e.name.as_str()) {
            let rec = cargo_entry(e);
            let ghost rv = rec@;
            let ghost before = records@;
            records.push(rec);
            assert(records@.last()@ == rv);
            assert(rv == f(e@));
            assert(records_view(records@) =~= records_view(before).push(rv));
        }
        i += 1;
    }
    assert(ev.take(entries@.len() as int) =~= ev);
    sort_records(records)
}

/// The record of an unclaimed entry of the cargo bin dir.
fn cargo_entry(e: &BinEntry) -> (r: BinaryRecord)
    ensures
        r@ == cargo_entry_record(e@),
{
    let origin: Option<String> = if str_eq(e.name.as_str(), "rustup") {
        Some(owned("rustup"))
    } else {
        let linked = match &e.link_target {
            Some(t) => file_name_is(t.as_str(), "rustup"),
            None => false,
        };
        if linked || e.same_file_as_rustup {
            Some(owned("rustup proxy"))
        } else {
            None
        }
    };
    match origin {
        Some(o) => BinaryRecord {
            name: e.name.clone(),
            path: e.path.clone(),
            ecosystem: Ecosystem::Cargo,
            package: owned("rustup"),
            version: owned("?"),
            origin: o,
            status: BinStatus::Healthy,
        },
        None => BinaryRecord {
            name: e.name.clone(),
            path: e.path.clone(),
            ecosystem: Ecosystem::Cargo,
            package: owned("?"),
            version: owned("?"),
            origin: owned("?"),
            status: BinStatus::Orphan(owned("present in bin dir but no cargo install record")),
        },
    }
}

/// The installs cargo has recorded, from the text of `.crates2.json` when
/// that file could be read, else from the legacy `.crates.toml`, else
/// none at all.
pub fn load_installs_from(crates2_json: Option<&str>, crates_toml_text: Option<&str>) -> (r: Result<Vec<CargoInstall>, String>)
    ensures
        match crates2_json {
            Some(t) => {
                &&& (crates2(t@) is Some <==> r is Ok)
                &&& (r matches Ok(v) ==> crates2(t@) == Some(installs_view(v@)))
                &&& (r matches Err(m) ==> crates2_error(t@, m@))
            },
            None => match crates_toml_text {
                Some(t) => {
                    &&& (crates_toml(t@) is Ok <==> r is Ok)
                    &&& (r matches Ok(v) ==> crates_toml(t@) == Ok::<Seq<InstallV>, (nat, bool)>(installs_view(v@)))
                    &&& (r matches Err(m) ==> (crates_toml(t@) matches Err((n, b)) && m@ == toml_error(n, b)))
                },
                None => r matches Ok(v) && v@.len() == 0,
            },
        },
{
    match crates2_json {
        Some(t) => parse_crates2(t),
        None => match crates_toml_text {
            Some(t) => parse_crates_toml(t),
            None => Ok(Vec::new()),
        },
    }
}

} // verus!
