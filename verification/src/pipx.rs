//! pipx provenance: every pipx-installed application lives in its own venv
//! under `$PIPX_HOME/venvs/<pkg>/`, described by a `pipx_metadata.json`,
//! and is exposed on PATH via a launcher in `$PIPX_BIN_DIR` (usually
//! `~/.local/bin`, the classic landfill).

use vstd::prelude::*;
use crate::text::{
    owned, texts_of, dedup, sort_by_key, text_key, sort_dedup, Named, name_key, sort_by_name,
    lemma_sort_map,
};
use crate::json::{self, JsonV, member_of, parse_doc, doc_err};
use crate::cargo::{json_strings, strings_of};

use crate::inventory::{
    BinaryRecord, BinEntry, Claim, ClaimV, Ecosystem, Probe, claims_view, entries_view, records_view,
    reconcile, reconcile_spec,
};

verus! {

/// One pipx venv: the package it holds and the apps it exposes.
#[derive(Debug, Clone, PartialEq)]
pub struct PipxVenv {
    pub package: String,
    pub version: String,
    pub apps: Vec<String>,
}

/// The mathematical content of a `PipxVenv`.
pub struct VenvV {
    pub package: Seq<char>,
    pub version: Seq<char>,
    pub apps: Seq<Seq<char>>,
}

impl View for PipxVenv {
    type V = VenvV;

    open spec fn view(&self) -> VenvV {
        VenvV { package: self.package@, version: self.version@, apps: texts_of(self.apps@) }
    }
}

/// The venv a `pipx_metadata.json` text describes: `main_package.package`
/// is required, `package_version` defaults to `?`, `apps` are its string
/// elements, sorted and deduplicated.
pub open spec fn metadata(text: Seq<char>) -> Option<VenvV> {
    match parse_doc(text) {
        None => None,
        Some(doc) => match member_of(doc, "main_package"@) {
            None => None,
            Some(main) => match member_of(main, "package"@) {
                Some(JsonV::Str(package)) => {
                    let version = match member_of(main, "package_version"@) {
                        Some(JsonV::Str(v)) => v,
                        _ => "?"@,
                    };
                    let raw = match member_of(main, "apps"@) {
                        Some(JsonV::Array(items)) => json_strings(items),
                        _ => Seq::empty(),
                    };
                    Some(VenvV { package, version, apps: dedup(sort_by_key(raw, text_key())) })
                },
                _ => None,
            },
        },
    }
}

/// Whether `msg` is what reading a `pipx_metadata.json` reports for
/// `text`: the JSON reader's complaint (`doc_err`) after a `pipx_metadata.json: `
/// prefix, a missing `main_package`, or a missing string package name.
pub open spec fn metadata_error(text: Seq<char>, msg: Seq<char>) -> bool {
    match parse_doc(text) {
        None => msg == "pipx_metadata.json: "@ + doc_err(text),
        Some(doc) => match member_of(doc, "main_package"@) {
            None => msg == "pipx_metadata.json: missing 'main_package'"@,
            Some(_) => msg == "pipx_metadata.json: missing main_package.package"@,
        },
    }
}

/// Parse a `pipx_metadata.json`. Only `main_package` matters for
/// inventory purposes.
pub fn parse_metadata(text: &str) -> (r: Result<PipxVenv, String>)
    ensures
        metadata(text@) is Some <==> r is Ok,
        r matches Ok(v) ==> metadata(text@) == Some(v@),
        r matches Err(m) ==> metadata_error(text@, m@),
{
    let doc = match json::parse(text) {
        Ok(d) => d,
        Err(e) => {
            let mut m = owned("pipx_metadata.json: ");
            crate::text::push_all(&mut m, e.as_str());
            return Err(m);
        },
    };
    let main = match doc.get("main_package") {
        Some(m) => m,
        None => return Err(owned("pipx_metadata.json: missing 'main_package'")),
    };
    let package = match main.get("package") {
        Some(j) => match j.as_str() {
            Some(s) => owned(s),
            None => return Err(owned("pipx_metadata.json: missing main_package.package")),
        },
        None => return Err(owned("pipx_metadata.json: missing main_package.package")),
    };
    let version = match main.get("package_version") {
        Some(j) => match j.as_str() {
            Some(s) => owned(s),
            None => owned("?"),
        },
        None => owned("?"),
    };
    let apps = match main.get("apps") {
        Some(j) => match j.as_array() {
            Some(items) => strings_of(items),
            None => Vec::new(),
        },
        None => Vec::new(),
    };
    assert(texts_of(apps@) == match member_of(main.jv(), "apps"@) {
        Some(JsonV::Array(items)) => json_strings(items),
        _ => Seq::empty(),
    });
    let apps = sort_dedup(apps);
    Ok(PipxVenv { package, version, apps })
}

impl Named for PipxVenv {
    open spec fn spec_name(&self) -> Seq<char> {
        self.package@
    }

    fn name_str(&self) -> (r: &str) {
        self.package.as_str()
    }
}

/// The view of a venv, as a function.
pub open spec fn venv_view_fn() -> spec_fn(PipxVenv) -> VenvV {
    |v: PipxVenv| v@
}

/// The sort key of a venv view: its package.
pub open spec fn venv_package() -> spec_fn(VenvV) -> Seq<char> {
    |v: VenvV| v.package
}

/// The venvs that the metadata texts describe, in order, skipping those
/// that do not parse.
pub open spec fn metadata_venvs(texts: Seq<Seq<char>>) -> Seq<VenvV>
    decreases texts.len(),
{
    if texts.len() == 0 {
        Seq::empty()
    } else {
        let rest = metadata_venvs(texts.drop_last());
        match metadata(texts.last()) {
            Some(v) => rest.push(v),
            None => rest,
        }
    }
}

/// Every venv whose metadata parses, sorted by package name; the texts
/// come from `<pipx home>/venvs/*/pipx_metadata.json`.
pub fn load_venvs_from(metadata_texts: &Vec<String>) -> (r: Vec<PipxVenv>)
    ensures
        r@.map_values(venv_view_fn()) == sort_by_key(metadata_venvs(texts_of(metadata_texts@)), venv_package()),
{
    let ghost tv = texts_of(metadata_texts@);
    let mut out: Vec<PipxVenv> = Vec::new();
    let mut i: usize = 0;
    assert(tv.take(0) =~= Seq::<Seq<char>>::empty());
    assert(out@.map_values(venv_view_fn()) =~= Seq::empty());
    while i < metadata_texts.len()
        invariant
            i <= metadata_texts@.len(),
            tv == texts_of(metadata_texts@),
            out@.map_values(venv_view_fn()) == metadata_venvs(tv.take(i as int)),
        decreases metadata_texts@.len() - i,
    {
        assert(tv.take(i + 1).drop_last() =~= tv.take(i as int));
        assert(tv.take(i + 1).last() == metadata_texts@[i as int]@);
        match parse_metadata(metadata_texts[i].as_str()) {
            Ok(v) => {
                let ghost before = out@;
                let ghost vv = v@;
                out.push(v);
                assert(out@.map_values(venv_view_fn()) =~= before.map_values(venv_view_fn()).push(vv));
            },
            Err(_) => {},
        }
        i += 1;
    }
    assert(tv.take(metadata_texts@.len() as int) =~= tv);
    let sorted = sort_by_name(out);
    proof {
        lemma_sort_map(out@, name_key::<PipxVenv>(), venv_view_fn(), venv_package());
    }
    sorted
}


/// Every executable claimed, with the package that claims it, in order.
pub open spec fn venv_claims(v: Seq<VenvV>) -> Seq<ClaimV>
    decreases v.len(),
{
    if v.len() == 0 {
        Seq::empty()
    } else {
        let last = v.last();
        venv_claims(v.drop_last()) + last.apps.map_values(
            |b: Seq<char>| ClaimV { bin: b, package: last.package, version: last.version },
        )
    }
}

/// The claims of a list, in order.
pub fn claims_of_venvs(v: &Vec<PipxVenv>) -> (r: Vec<Claim>)
    ensures
        claims_view(r@) == venv_claims(v@.map_values(venv_view_fn())),
{
    let ghost vv = v@.map_values(venv_view_fn());
    let mut out: Vec<Claim> = Vec::new();
    let mut i: usize = 0;
    assert(vv.take(0) =~= Seq::<VenvV>::empty());
    assert(claims_view(out@) =~= Seq::empty());
    while i < v.len()
        invariant
            i <= v@.len(),
            vv == v@.map_values(venv_view_fn()),
            claims_view(out@) == venv_claims(vv.take(i as int)),
        decreases v@.len() - i,
    {
        let item = &v[i];
        let ghost last = vv[i as int];
        let ghost base = claims_view(out@);
        assert(vv.take(i + 1).drop_last() =~= vv.take(i as int));
        assert(vv.take(i + 1).last() == last);
        assert(last == item@);
        let ghost add = last.apps.map_values(
            |b: Seq<char>| ClaimV { bin: b, package: last.package, version: last.version },
        );
        let mut j: usize = 0;
        while j < item.apps.len()
            invariant
                j <= item.apps@.len(),
                last == item@,
                add == last.apps.map_values(
                    |b: Seq<char>| ClaimV { bin: b, package: last.package, version: last.version },
                ),
                claims_view(out@) == base + add.take(j as int),
            decreases item.apps@.len() - j,
        {
            let c = Claim {
                bin: item.apps[j].clone(),
                package: item.package.clone(),
                version: item.version.clone(),
            };
            let ghost before = out@;
            let ghost cw = c@;
            assert(cw == add[j as int]);
            out.push(c);
            assert(claims_view(out@) =~= claims_view(before).push(cw));
            assert(add.take(j + 1) =~= add.take(j as int).push(add[j as int]));
            j += 1;
        }
        assert(add.take(add.len() as int) =~= add);
        i += 1;
    }
    assert(vv.take(v@.len() as int) =~= vv);
    out
}

/// Full pipx scan: claimed launchers first (present or missing), then
/// unclaimed bin-dir entries as orphans (dangling pipx symlinks get a
/// sharper reason than random unmanaged files), sorted by name. `venvs`
/// are the venvs sorted by package, `probes[k]` what looking up the `k`-th
/// claimed launcher found, `entries` the listing of `bin_dir`.
pub fn scan(
    pipx_home: &str,
    bin_dir: &str,
    venvs: &Vec<PipxVenv>,
    probes: &Vec<Probe>,
    entries: &Vec<BinEntry>,
) -> (r: Vec<BinaryRecord>)
    requires
        probes@.len() == venv_claims(venvs@.map_values(venv_view_fn())).len(),
    ensures
        records_view(r@) == reconcile_spec(
            Ecosystem::Pipx,
            bin_dir@,
            pipx_home@,
            venv_claims(venvs@.map_values(venv_view_fn())),
            probes@,
            entries_view(entries@),
        ),
{
    let claims = claims_of_venvs(venvs);
    reconcile(Ecosystem::Pipx, bin_dir, pipx_home, &claims, probes, entries)
}


/// Law: the apps a `pipx_metadata.json` exposes come out sorted and
/// without duplicates: each sorts strictly before the next.
pub proof fn lemma_venv_apps_increasing(text: Seq<char>)
    ensures
        metadata(text) matches Some(v) ==> crate::text::strictly_increasing(v.apps),
{
    if let Some(doc) = parse_doc(text) {
        if let Some(main) = member_of(doc, "main_package"@) {
            let raw = match member_of(main, "apps"@) {
                Some(JsonV::Array(items)) => json_strings(items),
                _ => Seq::empty(),
            };
            crate::text::lemma_sort_by_key_sorted(raw, text_key());
            crate::text::lemma_dedup_sorted(sort_by_key(raw, text_key()));
        }
    }
}

} // verus!
