//! npm provenance: global installs live under `<prefix>/lib/node_modules/`
//! (one directory per package, two levels for `@scope/name`), each with a
//! `package.json` whose `bin` field names the executables npm links into
//! `<prefix>/bin`.

use vstd::prelude::*;
use crate::text::{
    chars_of, owned, string_from, slice_of, rfind_char, rfind_in, texts_of, dedup, sort_by_key,
    text_key, sort_dedup, Named, name_key, sort_by_name, lemma_sort_map,
};
use crate::json::{self, Json, JsonV, member_of, members_view, parse_doc, doc_err};

use crate::inventory::{
    BinaryRecord, BinEntry, Claim, ClaimV, Ecosystem, Probe, claims_view, entries_view, records_view,
    reconcile, reconcile_spec,
};
use crate::path::{join, join_path};

verus! {

/// One globally installed npm package and the bin names it declares.
#[derive(Debug, Clone, PartialEq)]
pub struct NpmPackage {
    pub name: String,
    pub version: String,
    pub bins: Vec<String>,
}

/// The mathematical content of an `NpmPackage`.
pub struct NpmV {
    pub name: Seq<char>,
    pub version: Seq<char>,
    pub bins: Seq<Seq<char>>,
}

impl View for NpmPackage {
    type V = NpmV;

    open spec fn view(&self) -> NpmV {
        NpmV { name: self.name@, version: self.version@, bins: texts_of(self.bins@) }
    }
}

/// `@types/node` is `node`; `typescript` is `typescript`: the part after
/// the last `/`.
pub open spec fn unscoped(name: Seq<char>) -> Seq<char> {
    match rfind_char(name, '/') {
        Some(i) => name.skip(i + 1),
        None => name,
    }
}

/// The keys of object members.
pub open spec fn member_keys(m: Seq<(Seq<char>, JsonV)>) -> Seq<Seq<char>> {
    m.map_values(|kv: (Seq<char>, JsonV)| kv.0)
}

/// The package a `package.json` text describes: a string `name` is
/// required, `version` defaults to `?`, and the executables come from
/// `bin`: a string names one executable after the unscoped package name,
/// an object names one per key. Bin names are sorted and deduplicated.
pub open spec fn package_json(text: Seq<char>) -> Option<NpmV> {
    match parse_doc(text) {
        None => None,
        Some(doc) => match member_of(doc, "name"@) {
            Some(JsonV::Str(name)) => {
                let version = match member_of(doc, "version"@) {
                    Some(JsonV::Str(v)) => v,
                    _ => "?"@,
                };
                let raw = match member_of(doc, "bin"@) {
                    Some(JsonV::Str(_)) => seq![unscoped(name)],
                    Some(JsonV::Object(m)) => member_keys(m),
                    _ => Seq::empty(),
                };
                Some(NpmV { name, version, bins: dedup(sort_by_key(raw, text_key())) })
            },
            _ => None,
        },
    }
}

/// Whether `msg` is what reading a `package.json` reports for `text`:
/// the JSON reader's complaint (`doc_err`) after a `package.json: ` prefix, or a
/// missing string `name`.
pub open spec fn package_json_error(text: Seq<char>, msg: Seq<char>) -> bool {
    match parse_doc(text) {
        None => msg == "package.json: "@ + doc_err(text),
        Some(_) => msg == "package.json: missing 'name'"@,
    }
}

/// `@types/node` becomes `node`; `typescript` stays `typescript`.
fn unscoped_name(name: &str) -> (r: String)
    ensures
        r@ == unscoped(name@),
{
    let v = chars_of(name);
    match rfind_in(&v, '/') {
        Some(i) => {
            proof { crate::text::lemma_rfind_bounds(v@, '/'); }
            let t = slice_of(&v, i + 1, v.len());
            assert(t@ =~= v@.skip(i + 1));
            string_from(&t)
        },
        None => owned(name),
    }
}

/// Parse a `package.json`, extracting `name`, `version` and the
/// normalized `bin` map. Per npm's rules a string `bin` names one
/// executable after the package (the part after the scope).
pub fn parse_package_json(text: &str) -> (r: Result<NpmPackage, String>)
    ensures
        package_json(text@) is Some <==> r is Ok,
        r matches Ok(p) ==> package_json(text@) == Some(p@),
        r matches Err(m) ==> package_json_error(text@, m@),
{
    let doc = match json::parse(text) {
        Ok(d) => d,
        Err(e) => {
            let mut m = owned("package.json: ");
            crate::text::push_all(&mut m, e.as_str());
            return Err(m);
        },
    };
    let name = match doc.get("name") {
        Some(j) => match j.as_str() {
            Some(s) => owned(s),
            None => return Err(owned("package.json: missing 'name'")),
        },
        None => return Err(owned("package.json: missing 'name'")),
    };
    let version = match doc.get("version") {
        Some(j) => match j.as_str() {
            Some(s) => owned(s),
            None => owned("?"),
        },
        None => owned("?"),
    };
    let mut bins: Vec<String> = Vec::new();
    let ghost raw: Seq<Seq<char>>;
    match doc.get("bin") {
        Some(Json::String(_)) => {
            bins.push(unscoped_name(name.as_str()));
            proof { raw = seq![unscoped(name@)]; }
            assert(texts_of(bins@) =~= raw);
        },
        Some(Json::Object(map)) => {
            proof {
                json::lemma_members_view(map@);
                raw = member_keys(members_view(map@));
            }
            let mut i: usize = 0;
            while i < map.len()
                invariant
                    i <= map@.len(),
                    raw == member_keys(members_view(map@)),
                    members_view(map@).len() == map@.len(),
                    forall|j: int| 0 <= j < map@.len() ==> #[trigger] members_view(map@)[j] == (map@[j].0@, map@[j].1.jv()),
                    texts_of(bins@) == raw.take(i as int),
                decreases map@.len() - i,
            {
                let ghost before = bins@;
                let k = map[i].0.clone();
                assert(k@ == map@[i as int].0@);
                assert(raw[i as int] == members_view(map@)[i as int].0);
                bins.push(k);
                assert(texts_of(bins@) =~= texts_of(before).push(map@[i as int].0@));
                assert(raw.take(i + 1) =~= raw.take(i as int).push(raw[i as int]));
                i += 1;
            }
            assert(raw.take(map@.len() as int) =~= raw);
        },
        _ => {
            proof { raw = Seq::empty(); }
            assert(texts_of(bins@) =~= raw);
        },
    }
    let bins = sort_dedup(bins);
    Ok(NpmPackage { name, version, bins })
}

impl Named for NpmPackage {
    open spec fn spec_name(&self) -> Seq<char> {
        self.name@
    }

    fn name_str(&self) -> (r: &str) {
        self.name.as_str()
    }
}

/// The view of a package, as a function.
pub open spec fn npm_view_fn() -> spec_fn(NpmPackage) -> NpmV {
    |p: NpmPackage| p@
}

/// The sort key of a package view.
pub open spec fn npm_name() -> spec_fn(NpmV) -> Seq<char> {
    |p: NpmV| p.name
}

/// The packages that the manifest texts describe, in order, skipping those
/// that do not parse.
pub open spec fn manifests_packages(texts: Seq<Seq<char>>) -> Seq<NpmV>
    decreases texts.len(),
{
    if texts.len() == 0 {
        Seq::empty()
    } else {
        let rest = manifests_packages(texts.drop_last());
        match package_json(texts.last()) {
            Some(p) => rest.push(p),
            None => rest,
        }
    }
}

/// Every global package whose `package.json` parses, sorted by name; the
/// texts come from the package directories (top-level and `@scope/name`).
pub fn load_packages_from(manifests: &Vec<String>) -> (r: Vec<NpmPackage>)
    ensures
        r@.map_values(npm_view_fn()) == sort_by_key(manifests_packages(texts_of(manifests@)), npm_name()),
{
    let ghost tv = texts_of(manifests@);
    let mut out: Vec<NpmPackage> = Vec::new();
    let mut i: usize = 0;
    assert(tv.take(0) =~= Seq::<Seq<char>>::empty());
    assert(out@.map_values(npm_view_fn()) =~= Seq::empty());
    while i < manifests.len()
        invariant
            i <= manifests@.len(),
            tv == texts_of(manifests@),
            out@.map_values(npm_view_fn()) == manifests_packages(tv.take(i as int)),
        decreases manifests@.len() - i,
    {
        assert(tv.take(i + 1).drop_last() =~= tv.take(i as int));
        assert(tv.take(i + 1).last() == manifests@[i as int]@);
        match parse_package_json(manifests[i].as_str()) {
            Ok(p) => {
                let ghost before = out@;
                let ghost pv = p@;
                out.push(p);
                assert(out@.map_values(npm_view_fn()) =~= before.map_values(npm_view_fn()).push(pv));
            },
            Err(_) => {},
        }
        i += 1;
    }
    assert(tv.take(manifests@.len() as int) =~= tv);
    let sorted = sort_by_name(out);
    proof {
        lemma_sort_map(out@, name_key::<NpmPackage>(), npm_view_fn(), npm_name());
    }
    sorted
}


/// Every executable claimed, with the package that claims it, in order.
pub open spec fn npm_claims(v: Seq<NpmV>) -> Seq<ClaimV>
    decreases v.len(),
{
    if v.len() == 0 {
        Seq::empty()
    } else {
        let last = v.last();
        npm_claims(v.drop_last()) + last.bins.map_values(
            |b: Seq<char>| ClaimV { bin: b, package: last.name, version: last.version },
        )
    }
}

/// The claims of a list, in order.
pub fn claims_of_packages(v: &Vec<NpmPackage>) -> (r: Vec<Claim>)
    ensures
        claims_view(r@) == npm_claims(v@.map_values(npm_view_fn())),
{
    let ghost vv = v@.map_values(npm_view_fn());
    let mut out: Vec<Claim> = Vec::new();
    let mut i: usize = 0;
    assert(vv.take(0) =~= Seq::<NpmV>::empty());
    assert(claims_view(out@) =~= Seq::empty());
    while i < v.len()
        invariant
            i <= v@.len(),
            vv == v@.map_values(npm_view_fn()),
            claims_view(out@) == npm_claims(vv.take(i as int)),
        decreases v@.len() - i,
    {
        let item = &v[i];
        let ghost last = vv[i as int];
        let ghost base = claims_view(out@);
        assert(vv.take(i + 1).drop_last() =~= vv.take(i as int));
        assert(vv.take(i + 1).last() == last);
        assert(last == item@);
        let ghost add = last.bins.map_values(
            |b: Seq<char>| ClaimV { bin: b, package: last.name, version: last.version },
        );
        let mut j: usize = 0;
        while j < item.bins.len()
            invariant
                j <= item.bins@.len(),
                last == item@,
                add == last.bins.map_values(
                    |b: Seq<char>| ClaimV { bin: b, package: last.name, version: last.version },
                ),
                claims_view(out@) == base + add.take(j as int),
            decreases item.bins@.len() - j,
        {
            let c = Claim {
                bin: item.bins[j].clone(),
                package: item.name.clone(),
                version: item.version.clone(),
            };
            let ghost before = out@;
            let ghost cw = c@;
            assert(cw == add[j as int]);
            out.push(c);
            assert(claims_view(out@) =~= claims_view(before).push(cw));
            assert(add.take(j + 1) =~= add.take(j as int).push(add[j as int]));
            j += 1;
        }
        assert(add.take(add.len() as int) =~= add);
        i += 1;
    }
    assert(vv.take(v@.len() as int) =~= vv);
    out
}

/// Full npm scan: claimed bin links first (present or missing), then
/// unclaimed bin-dir entries as orphans, sorted by name. `packages` are the
/// installed packages sorted by name, `probes[k]` what looking up the
/// `k`-th claimed link found, `entries` the listing of `<prefix>/bin`.
pub fn scan(
    prefix: &str,
    packages: &Vec<NpmPackage>,
    probes: &Vec<Probe>,
    entries: &Vec<BinEntry>,
) -> (r: Vec<BinaryRecord>)
    requires
        probes@.len() == npm_claims(packages@.map_values(npm_view_fn())).len(),
    ensures
        records_view(r@) == reconcile_spec(
            Ecosystem::Npm,
            join_path(prefix@, "bin"@),
            prefix@,
            npm_claims(packages@.map_values(npm_view_fn())),
            probes@,
            entries_view(entries@),
        ),
{
    let bin_dir = join(prefix, "bin");
    let claims = claims_of_packages(packages);
    reconcile(Ecosystem::Npm, bin_dir.as_str(), prefix, &claims, probes, entries)
}


/// Law: the executables a `package.json` declares come out sorted and
/// without duplicates: each sorts strictly before the next.
pub proof fn lemma_package_bins_increasing(text: Seq<char>)
    ensures
        package_json(text) matches Some(p) ==> crate::text::strictly_increasing(p.bins),
{
    if let Some(doc) = parse_doc(text) {
        if let Some(JsonV::Str(name)) = member_of(doc, "name"@) {
            let raw = match member_of(doc, "bin"@) {
                Some(JsonV::Str(_)) => seq![unscoped(name)],
                Some(JsonV::Object(m)) => member_keys(m),
                _ => Seq::empty(),
            };
            crate::text::lemma_sort_by_key_sorted(raw, text_key());
            crate::text::lemma_dedup_sorted(sort_by_key(raw, text_key()));
        }
    }
}

} // verus!
