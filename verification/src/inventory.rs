//! The unified inventory model: one `BinaryRecord` per executable (or per
//! claimed-but-missing executable), grouped into per-ecosystem sections,
//! and the resolution of every ecosystem's install roots.

use vstd::prelude::*;
use crate::text::{owned, str_eq, Named};
use crate::path::{join, join_path, path_starts_with, normal_pieces, has_component, starts_with_path};
use crate::text::{split_char, push_all};

verus! {

/// The four ecosystems binsweep understands.
#[derive(Debug, Clone, Copy, PartialEq, Eq, Structural)]
pub enum Ecosystem {
    Cargo,
    Go,
    Pipx,
    Npm,
}

/// The short label of an ecosystem.
pub open spec fn eco_label(e: Ecosystem) -> Seq<char> {
    match e {
        Ecosystem::Cargo => "cargo"@,
        Ecosystem::Go => "go"@,
        Ecosystem::Pipx => "pipx"@,
        Ecosystem::Npm => "npm"@,
    }
}

impl Ecosystem {
    pub fn label(&self) -> (r: &'static str)
        ensures
            r@ == eco_label(*self),
    {
        match self {
            Ecosystem::Cargo => "cargo",
            Ecosystem::Go => "go",
            Ecosystem::Pipx => "pipx",
            Ecosystem::Npm => "npm",
        }
    }
}

/// Health of one inventory entry.
#[derive(Debug, Clone, PartialEq, Eq)]
pub enum BinStatus {
    /// Present on disk and claimed by a package manifest.
    Healthy,
    /// Present on disk but no manifest claims it (the landfill).
    Orphan(String),
    /// Claimed by a manifest but the executable is gone.
    Missing(String),
}

/// The mathematical content of a `BinStatus`.
pub enum StatusV {
    Healthy,
    Orphan(Seq<char>),
    Missing(Seq<char>),
}

impl View for BinStatus {
    type V = StatusV;

    open spec fn view(&self) -> StatusV {
        match self {
            BinStatus::Healthy => StatusV::Healthy,
            BinStatus::Orphan(w) => StatusV::Orphan(w@),
            BinStatus::Missing(w) => StatusV::Missing(w@),
        }
    }
}

/// The status word of the report.
pub open spec fn status_code(s: StatusV) -> Seq<char> {
    match s {
        StatusV::Healthy => "ok"@,
        StatusV::Orphan(_) => "orphan"@,
        StatusV::Missing(_) => "missing"@,
    }
}

/// The reason attached to a status (empty for `Ok`).
pub open spec fn status_detail(s: StatusV) -> Seq<char> {
    match s {
        StatusV::Healthy => Seq::empty(),
        StatusV::Orphan(w) => w,
        StatusV::Missing(w) => w,
    }
}

impl BinStatus {
    pub fn code(&self) -> (r: &'static str)
        ensures
            r@ == status_code(self@),
    {
        match self {
            BinStatus::Healthy => "ok",
            BinStatus::Orphan(_) => "orphan",
            BinStatus::Missing(_) => "missing",
        }
    }

    pub fn detail(&self) -> (r: &str)
        ensures
            r@ == status_detail(self@),
    {
        match self {
            BinStatus::Healthy => {
                proof { reveal_strlit(""); }
                ""
            },
            BinStatus::Orphan(why) => why.as_str(),
            BinStatus::Missing(why) => why.as_str(),
        }
    }

    pub fn is_orphan(&self) -> (r: bool)
        ensures
            r == (self@ is Orphan),
    {
        match self {
            BinStatus::Orphan(_) => true,
            _ => false,
        }
    }

    pub fn is_missing(&self) -> (r: bool)
        ensures
            r == (self@ is Missing),
    {
        match self {
            BinStatus::Missing(_) => true,
            _ => false,
        }
    }
}

/// One executable (or one claimed executable slot) with full provenance.
#[derive(Debug, Clone)]
pub struct BinaryRecord {
    /// Executable file name, e.g. `rg`.
    pub name: String,
    /// Full path where the executable lives (or should live).
    pub path: String,
    pub ecosystem: Ecosystem,
    /// Owning package/module, `?` when unknown.
    pub package: String,
    /// Package version, `?` when unknown.
    pub version: String,
    /// Where the package came from: `crates.io`, `git`, `path`,
    /// `go module (...)`, `pipx venv`, `npm global`, or `?` for orphans.
    pub origin: String,
    pub status: BinStatus,
}

/// The mathematical content of a `BinaryRecord`.
pub struct RecordV {
    pub name: Seq<char>,
    pub path: Seq<char>,
    pub ecosystem: Ecosystem,
    pub package: Seq<char>,
    pub version: Seq<char>,
    pub origin: Seq<char>,
    pub status: StatusV,
}

impl View for BinaryRecord {
    type V = RecordV;

    open spec fn view(&self) -> RecordV {
        RecordV {
            name: self.name@,
            path: self.path@,
            ecosystem: self.ecosystem,
            package: self.package@,
            version: self.version@,
            origin: self.origin@,
            status: self.status@,
        }
    }
}

impl Named for BinaryRecord {
    open spec fn spec_name(&self) -> Seq<char> {
        self.name@
    }

    fn name_str(&self) -> (r: &str) {
        self.name.as_str()
    }
}

/// The view of one record, as a function.
pub open spec fn record_view_fn() -> spec_fn(BinaryRecord) -> RecordV {
    |r: BinaryRecord| r@
}

/// The views of a list of records.
pub open spec fn records_view(v: Seq<BinaryRecord>) -> Seq<RecordV> {
    v.map_values(record_view_fn())
}

/// The sort key of a record: its name.
pub open spec fn record_name() -> spec_fn(RecordV) -> Seq<char> {
    |r: RecordV| r.name
}

/// The views of a list of borrowed records.
pub open spec fn refs_view(v: Seq<&BinaryRecord>) -> Seq<RecordV> {
    v.map_values(|b: &BinaryRecord| b@)
}

/// What a listing of a bin directory knows about one executable entry.
pub struct BinEntry {
    /// The entry's file name.
    pub name: String,
    /// The entry's full path.
    pub path: String,
    /// Where the entry points when it is a symlink, made absolute against
    /// the directory that holds the link.
    pub link_target: Option<String>,
    /// The entry is the same file (same device and inode) as `rustup` in
    /// the same directory.
    pub same_file_as_rustup: bool,
}

/// The mathematical content of a `BinEntry`.
pub struct EntryV {
    pub name: Seq<char>,
    pub path: Seq<char>,
    pub link_target: Option<Seq<char>>,
    pub same_file_as_rustup: bool,
}

impl View for BinEntry {
    type V = EntryV;

    open spec fn view(&self) -> EntryV {
        EntryV {
            name: self.name@,
            path: self.path@,
            link_target: match self.link_target {
                Some(t) => Some(t@),
                None => None,
            },
            same_file_as_rustup: self.same_file_as_rustup,
        }
    }
}

/// The views of a listing.
pub open spec fn entries_view(v: Seq<BinEntry>) -> Seq<EntryV> {
    v.map_values(|e: BinEntry| e@)
}

/// What looking up a claimed executable's path found.
#[derive(Clone, Copy, Debug)]
pub struct Probe {
    /// The path resolves to a file (symlinks followed).
    pub exists: bool,
    /// Something occupies the name, possibly a dangling symlink.
    pub present: bool,
}

/// The entries whose names nobody claims, each turned into a record by `f`.
pub open spec fn unclaimed_records(
    entries: Seq<EntryV>,
    claimed: Seq<Seq<char>>,
    f: spec_fn(EntryV) -> RecordV,
) -> Seq<RecordV>
    decreases entries.len(),
{
    if entries.len() == 0 {
        Seq::empty()
    } else {
        let rest = unclaimed_records(entries.drop_last(), claimed, f);
        if claimed.contains(entries.last().name) {
            rest
        } else {
            rest.push(f(entries.last()))
        }
    }
}

/// Whether `name` is among `claimed`.
pub fn is_claimed(claimed: &Vec<String>, name: &str) -> (r: bool)
    ensures
        r == crate::text::texts_of(claimed@).contains(name@),
{
    let ghost cv = crate::text::texts_of(claimed@);
    let mut i: usize = 0;
    while i < claimed.len()
        invariant
            i <= claimed@.len(),
            cv == crate::text::texts_of(claimed@),
            forall|j: int| 0 <= j < i ==> cv[j] != name@,
        decreases claimed@.len() - i,
    {
        if str_eq(claimed[i].as_str(), name) {
            assert(cv[i as int] == name@);
            assert(cv.contains(name@));
            return true;
        }
        i += 1;
    }
    false
}

/// Sort records by name, stably.
pub fn sort_records(v: Vec<BinaryRecord>) -> (r: Vec<BinaryRecord>)
    ensures
        records_view(r@) == crate::text::sort_by_key(records_view(v@), record_name()),
{
    let r = crate::text::sort_by_name(v);
    proof {
        crate::text::lemma_sort_map(v@, crate::text::name_key::<BinaryRecord>(), record_view_fn(), record_name());
    }
    r
}

/// One claimed executable: its name and the package that declares it.
pub struct Claim {
    pub bin: String,
    pub package: String,
    pub version: String,
}

/// The mathematical content of a `Claim`.
pub struct ClaimV {
    pub bin: Seq<char>,
    pub package: Seq<char>,
    pub version: Seq<char>,
}

impl View for Claim {
    type V = ClaimV;

    open spec fn view(&self) -> ClaimV {
        ClaimV { bin: self.bin@, package: self.package@, version: self.version@ }
    }
}

/// The views of a list of claims.
pub open spec fn claims_view(v: Seq<Claim>) -> Seq<ClaimV> {
    v.map_values(|c: Claim| c@)
}

/// The names claimed.
pub open spec fn claimed_bins(v: Seq<ClaimV>) -> Seq<Seq<char>> {
    v.map_values(|c: ClaimV| c.bin)
}

/// The status of a claimed npm link or pipx launcher.
pub open spec fn claim_status(eco: Ecosystem, bin_dir: Seq<char>, c: ClaimV, p: Probe) -> StatusV {
    if p.exists {
        StatusV::Healthy
    } else if p.present {
        StatusV::Missing(
            if eco == Ecosystem::Npm {
                "link in "@ + bin_dir + " is a dangling symlink"@
            } else {
                "launcher in "@ + bin_dir + " is a dangling symlink"@
            },
        )
    } else {
        StatusV::Missing(
            if eco == Ecosystem::Npm {
                "declared by '"@ + c.package + "' but not linked in "@ + bin_dir
            } else {
                "app of '"@ + c.package + "' but no launcher in "@ + bin_dir
            },
        )
    }
}

/// Where a claimed npm link or pipx launcher comes from.
pub open spec fn linked_origin(eco: Ecosystem) -> Seq<char> {
    if eco == Ecosystem::Npm {
        "npm global"@
    } else {
        "pipx venv"@
    }
}

/// The record of a claimed npm link or pipx launcher.
pub open spec fn claim_rec(eco: Ecosystem, bin_dir: Seq<char>, c: ClaimV, p: Probe) -> RecordV {
    RecordV {
        name: c.bin,
        path: join_path(bin_dir, c.bin),
        ecosystem: eco,
        package: c.package,
        version: c.version,
        origin: linked_origin(eco),
        status: claim_status(eco, bin_dir, c, p),
    }
}

/// Why nobody owns an entry of the npm or pipx bin dir: symlinks into
/// `node_modules` (npm) or into the pipx home (pipx) get a sharper reason
/// than random unmanaged files.
pub open spec fn orphan_reason(eco: Ecosystem, home: Seq<char>, e: EntryV) -> Seq<char> {
    match e.link_target {
        Some(t) => if eco == Ecosystem::Npm {
            if normal_pieces(split_char(t, '/')).contains("node_modules"@) {
                "links into node_modules but no installed package declares it"@
            } else {
                "symlink in npm bin dir with no known owner"@
            }
        } else if path_starts_with(t, home) {
            "points into a pipx venv that no longer exists"@
        } else {
            "symlink in bin dir with no known package owner"@
        },
        None => if eco == Ecosystem::Npm {
            "file in npm bin dir with no known owner"@
        } else {
            "file in bin dir with no known package owner"@
        },
    }
}

/// The orphan record of an unclaimed entry.
pub open spec fn orphan_rec(eco: Ecosystem, home: Seq<char>, e: EntryV) -> RecordV {
    RecordV {
        name: e.name,
        path: e.path,
        ecosystem: eco,
        package: "?"@,
        version: "?"@,
        origin: "?"@,
        status: StatusV::Orphan(orphan_reason(eco, home, e)),
    }
}

/// `orphan_rec` for one ecosystem and home, as a function.
pub open spec fn orphan_fn(eco: Ecosystem, home: Seq<char>) -> spec_fn(EntryV) -> RecordV {
    |e: EntryV| orphan_rec(eco, home, e)
}

/// The npm or pipx scan: claimed executables first (present or missing),
/// then unclaimed entries of the bin dir as orphans, sorted by name.
pub open spec fn reconcile_spec(
    eco: Ecosystem,
    bin_dir: Seq<char>,
    home: Seq<char>,
    claims: Seq<ClaimV>,
    probes: Seq<Probe>,
    entries: Seq<EntryV>,
) -> Seq<RecordV> {
    crate::text::sort_by_key(
        Seq::new(claims.len(), |k: int| claim_rec(eco, bin_dir, claims[k], probes[k]))
            + unclaimed_records(entries, claimed_bins(claims), orphan_fn(eco, home)),
        record_name(),
    )
}

fn claim_record_of(eco: Ecosystem, bin_dir: &str, c: &Claim, p: Probe) -> (r: BinaryRecord)
    ensures
        r@ == claim_rec(eco, bin_dir@, c@, p),
{
    let status = if p.exists {
        BinStatus::Healthy
    } else if p.present {
        let mut m = if eco == Ecosystem::Npm { owned("link in ") } else { owned("launcher in ") };
        push_all(&mut m, bin_dir);
        push_all(&mut m, " is a dangling symlink");
        BinStatus::Missing(m)
    } else {
        let mut m = if eco == Ecosystem::Npm { owned("declared by '") } else { owned("app of '") };
        push_all(&mut m, c.package.as_str());
        if eco == Ecosystem::Npm {
            push_all(&mut m, "' but not linked in ");
        } else {
            push_all(&mut m, "' but no launcher in ");
        }
        push_all(&mut m, bin_dir);
        BinStatus::Missing(m)
    };
    BinaryRecord {
        name: c.bin.clone(),
        path: join(bin_dir, c.bin.as_str()),
        ecosystem: eco,
        package: c.package.clone(),
        version: c.version.clone(),
        origin: if eco == Ecosystem::Npm { owned("npm global") } else { owned("pipx venv") },
        status,
    }
}

fn orphan_record_of(eco: Ecosystem, home: &str, e: &BinEntry) -> (r: BinaryRecord)
    ensures
        r@ == orphan_rec(eco, home@, e@),
{
    let reason = match &e.link_target {
        Some(t) => if eco == Ecosystem::Npm {
            if has_component(t.as_str(), "node_modules") {
                owned("links into node_modules but no installed package declares it")
            } else {
                owned("symlink in npm bin dir with no known owner")
            }
        } else if starts_with_path(t.as_str(), home) {
            owned("points into a pipx venv that no longer exists")
        } else {
            owned("symlink in bin dir with no known package owner")
        },
        None => if eco == Ecosystem::Npm {
            owned("file in npm bin dir with no known owner")
        } else {
            owned("file in bin dir with no known package owner")
        },
    };
    BinaryRecord {
        name: e.name.clone(),
        path: e.path.clone(),
        ecosystem: eco,
        package: owned("?"),
        version: owned("?"),
        origin: owned("?"),
        status: BinStatus::Orphan(reason),
    }
}

/// Reconcile the claims of npm packages or pipx venvs against their bin
/// dir: `probes[k]` is what looking up claim `k`'s path found, `entries`
/// the listing of the bin dir, `home` the pipx home (unused for npm).
pub fn reconcile(
    eco: Ecosystem,
    bin_dir: &str,
    home: &str,
    claims: &Vec<Claim>,
    probes: &Vec<Probe>,
    entries: &Vec<BinEntry>,
) -> (r: Vec<BinaryRecord>)
    requires
        probes@.len() == claims@.len(),
    ensures
        records_view(r@) == reconcile_spec(eco, bin_dir@, home@, claims_view(claims@), probes@, entries_view(entries@)),
{
    let ghost cv = claims_view(claims@);
    let ghost claimed_spec = Seq::new(cv.len(), |k: int| claim_rec(eco, bin_dir@, cv[k], probes@[k]));
    let mut records: Vec<BinaryRecord> = Vec::new();
    let mut names: Vec<String> = Vec::new();
    let mut k: usize = 0;
    while k < claims.len()
        invariant
            k <= claims@.len(),
            probes@.len() == claims@.len(),
            cv == claims_view(claims@),
            claimed_spec == Seq::new(cv.len(), |m: int| claim_rec(eco, bin_dir@, cv[m], probes@[m])),
            records_view(records@) == claimed_spec.take(k as int),
            crate::text::texts_of(names@) == claimed_bins(cv).take(k as int),
        decreases claims@.len() - k,
    {
        let rec = claim_record_of(eco, bin_dir, &claims[k], probes[k]);
        let ghost rv = rec@;
        let ghost before = records@;
        records.push(rec);
        assert(records@.last()@ == rv);
        assert(records_view(records@) =~= records_view(before).push(rv));
        assert(claimed_spec.take(k + 1) =~= claimed_spec.take(k as int).push(claimed_spec[k as int]));
        let ghost nbefore = names@;
        let b = claims[k].bin.clone();
        names.push(b);
        assert(crate::text::texts_of(names@) =~= crate::text::texts_of(nbefore).push(cv[k as int].bin));
        assert(claimed_bins(cv).take(k + 1) =~= claimed_bins(cv).take(k as int).push(cv[k as int].bin));
        k += 1;
    }
    assert(claimed_spec.take(cv.len() as int) =~= claimed_spec);
    assert(claimed_bins(cv).take(cv.len() as int) =~= claimed_bins(cv));
    let ghost ev = entries_view(entries@);
    let ghost f = orphan_fn(eco, home@);
    let mut i: usize = 0;
    assert(ev.take(0) =~= Seq::<EntryV>::empty());
    assert(records_view(records@) =~= claimed_spec + unclaimed_records(ev.take(0), claimed_bins(cv), f));
    while i < entries.len()
        invariant
            i <= entries@.len(),
            ev == entries_view(entries@),
            f == orphan_fn(eco, home@),
            crate::text::texts_of(names@) == claimed_bins(cv),
            records_view(records@) == claimed_spec + unclaimed_records(ev.take(i as int), claimed_bins(cv), f),
        decreases entries@.len() - i,
    {
        let e = &entries[i];
        assert(ev.take(i + 1).drop_last() =~= ev.take(i as int));
        assert(ev.take(i + 1).last() == e@);
        if !is_claimed(&names, e.name.as_str()) {
            let rec = orphan_record_of(eco, home, e);
            let ghost rv = rec@;
            let ghost before = records@;
            records.push(rec);
            assert(records@.last()@ == rv);
            assert(rv == f(e@));
            assert(records_view(records@) =~= records_view(before).push(rv));
        }
        i += 1;
    }
    assert(ev.take(entries@.len() as int) =~= ev);
    sort_records(records)
}

/// One scanned ecosystem: its bin directory and everything found in it.
#[derive(Debug)]
pub struct Section {
    pub ecosystem: Ecosystem,
    pub bin_dir: String,
    pub records: Vec<BinaryRecord>,
}

/// The whole scan result.
#[derive(Debug)]
pub struct Inventory {
    pub sections: Vec<Section>,
}

/// All records across sections, in section order.
pub open spec fn all_records(sections: Seq<Section>) -> Seq<RecordV>
    decreases sections.len(),
{
    if sections.len() == 0 {
        Seq::empty()
    } else {
        all_records(sections.drop_last()) + records_view(sections.last().records@)
    }
}

/// The records whose status satisfies `keep`, in order.
pub open spec fn filter_status(rs: Seq<RecordV>, orphan: bool) -> Seq<RecordV>
    decreases rs.len(),
{
    if rs.len() == 0 {
        Seq::empty()
    } else {
        let rest = filter_status(rs.drop_last(), orphan);
        let r = rs.last();
        if (orphan && r.status is Orphan) || (!orphan && r.status is Missing) {
            rest.push(r)
        } else {
            rest
        }
    }
}

/// Number of distinct elements of a sequence.
pub open spec fn distinct_count<A>(s: Seq<A>) -> nat
    decreases s.len(),
{
    if s.len() == 0 {
        0
    } else if s.drop_last().contains(s.last()) {
        distinct_count(s.drop_last())
    } else {
        distinct_count(s.drop_last()) + 1
    }
}

/// The `(ecosystem, package)` pairs of the records that are not orphans.
pub open spec fn owned_packages(rs: Seq<RecordV>) -> Seq<(Ecosystem, Seq<char>)>
    decreases rs.len(),
{
    if rs.len() == 0 {
        Seq::empty()
    } else {
        let rest = owned_packages(rs.drop_last());
        let r = rs.last();
        if r.status is Orphan {
            rest
        } else {
            rest.push((r.ecosystem, r.package))
        }
    }
}

/// Never more distinct elements than elements.
pub proof fn lemma_distinct_count_le<A>(s: Seq<A>)
    ensures
        distinct_count(s) <= s.len(),
    decreases s.len(),
{
    if s.len() > 0 {
        lemma_distinct_count_le(s.drop_last());
    }
}

/// Never more owned packages than records.
pub proof fn lemma_owned_packages_le(rs: Seq<RecordV>)
    ensures
        owned_packages(rs).len() <= rs.len(),
    decreases rs.len(),
{
    if rs.len() > 0 {
        lemma_owned_packages_le(rs.drop_last());
    }
}

/// The packages of a list of records are the `(ecosystem, package)` pairs
/// of its records that are not orphans.
proof fn lemma_owned_packages_contains(rs: Seq<RecordV>, pair: (Ecosystem, Seq<char>))
    ensures
        owned_packages(rs).contains(pair) <==> exists|i: int|
            0 <= i < rs.len() && !(rs[i].status is Orphan) && (#[trigger] rs[i].ecosystem, rs[i].package) == pair,
    decreases rs.len(),
{
    if rs.len() > 0 {
        let t = rs.drop_last();
        lemma_owned_packages_contains(t, pair);
        let o = owned_packages(t);
        let r = rs.last();
        if owned_packages(rs).contains(pair) {
            let k = choose|k: int| 0 <= k < owned_packages(rs).len() && owned_packages(rs)[k] == pair;
            if !(r.status is Orphan) && k == o.len() {
                assert(rs[rs.len() - 1] == r);
            } else {
                assert(o.contains(pair)) by {
                    assert(o[k] == pair);
                }
                let i = choose|i: int| 0 <= i < t.len() && !(t[i].status is Orphan) && (#[trigger] t[i].ecosystem, t[i].package) == pair;
                assert(rs[i] == t[i]);
            }
        }
        if exists|i: int| 0 <= i < rs.len() && !(rs[i].status is Orphan) && (#[trigger] rs[i].ecosystem, rs[i].package) == pair {
            let i = choose|i: int| 0 <= i < rs.len() && !(rs[i].status is Orphan) && (#[trigger] rs[i].ecosystem, rs[i].package) == pair;
            if i == rs.len() - 1 {
                assert(owned_packages(rs)[o.len() as int] == pair);
            } else {
                assert(t[i] == rs[i]);
                let k = choose|k: int| 0 <= k < o.len() && o[k] == pair;
                if r.status is Orphan {
                    assert(owned_packages(rs)[k] == pair);
                } else {
                    assert(owned_packages(rs)[k] == pair);
                }
            }
        }
    }
}

/// Law: the package count grows by one exactly for a record that is not
/// an orphan (missing records included) whose ecosystem and package no
/// earlier non-orphan record has; orphans and repeats leave it unchanged.
pub proof fn lemma_package_count_step(rs: Seq<RecordV>, r: RecordV)
    ensures
        r.status is Orphan ==> distinct_count(owned_packages(rs.push(r))) == distinct_count(owned_packages(rs)),
        !(r.status is Orphan) ==> distinct_count(owned_packages(rs.push(r))) == distinct_count(owned_packages(rs))
            + if (exists|i: int| 0 <= i < rs.len() && !(rs[i].status is Orphan)
                && (#[trigger] rs[i].ecosystem, rs[i].package) == (r.ecosystem, r.package)) { 0nat } else { 1nat },
{
    assert(rs.push(r).drop_last() =~= rs);
    lemma_owned_packages_contains(rs, (r.ecosystem, r.package));
    if !(r.status is Orphan) {
        let o = owned_packages(rs);
        assert(owned_packages(rs.push(r)) == o.push((r.ecosystem, r.package)));
        assert(o.push((r.ecosystem, r.package)).drop_last() =~= o);
    }
}

impl Inventory {
    /// All records across sections, in section order.
    pub fn records(&self) -> (r: Vec<&BinaryRecord>)
        ensures
            refs_view(r@) == all_records(self.sections@),
    {
        let mut out: Vec<&BinaryRecord> = Vec::new();
        let mut i: usize = 0;
        assert(self.sections@.take(0) =~= Seq::<Section>::empty());
        assert(refs_view(out@) =~= Seq::empty());
        while i < self.sections.len()
            invariant
                i <= self.sections@.len(),
                refs_view(out@) == all_records(self.sections@.take(i as int)),
            decreases self.sections@.len() - i,
        {
            let recs = &self.sections[i].records;
            let ghost base = out@;
            let mut j: usize = 0;
            while j < recs.len()
                invariant
                    j <= recs@.len(),
                    refs_view(out@) == refs_view(base) + records_view(recs@.take(j as int)),
                decreases recs@.len() - j,
            {
                let ghost prev = out@;
                out.push(&recs[j]);
                assert(refs_view(out@) =~= refs_view(prev).push(recs@[j as int]@));
                assert(records_view(recs@.take(j + 1)) =~= records_view(recs@.take(j as int)).push(recs@[j as int]@));
                j += 1;
                assert(refs_view(out@) =~= refs_view(base) + records_view(recs@.take(j as int)));
            }
            assert(recs@.take(recs@.len() as int) =~= recs@);
            assert(self.sections@.take(i + 1).drop_last() =~= self.sections@.take(i as int));
            i += 1;
        }
        assert(self.sections@.take(self.sections@.len() as int) =~= self.sections@);
        out
    }

    /// The orphan records, in section order.
    pub fn orphans(&self) -> (r: Vec<&BinaryRecord>)
        ensures
            refs_view(r@) == filter_status(all_records(self.sections@), true),
    {
        self.with_status(true)
    }

    /// The missing records, in section order.
    pub fn missing(&self) -> (r: Vec<&BinaryRecord>)
        ensures
            refs_view(r@) == filter_status(all_records(self.sections@), false),
    {
        self.with_status(false)
    }

    fn with_status(&self, orphan: bool) -> (r: Vec<&BinaryRecord>)
        ensures
            refs_view(r@) == filter_status(all_records(self.sections@), orphan),
    {
        let all = self.records();
        let ghost av = refs_view(all@);
        let mut out: Vec<&BinaryRecord> = Vec::new();
        let mut i: usize = 0;
        assert(av.take(0) =~= Seq::<RecordV>::empty());
        assert(refs_view(out@) =~= Seq::empty());
        while i < all.len()
            invariant
                i <= all@.len(),
                av == refs_view(all@),
                refs_view(out@) == filter_status(av.take(i as int), orphan),
            decreases all@.len() - i,
        {
            let r = all[i];
            assert(av.take(i + 1).drop_last() =~= av.take(i as int));
            assert(av.take(i + 1).last() == r@);
            let keep = if orphan { r.status.is_orphan() } else { r.status.is_missing() };
            if keep {
                let ghost before = out@;
                out.push(r);
                assert(refs_view(out@) =~= refs_view(before).push(r@));
            }
            i += 1;
        }
        assert(av.take(all@.len() as int) =~= av);
        out
    }

    /// Distinct `(ecosystem, package)` count across all sections, orphans
    /// excluded.
    pub fn package_count(&self) -> (r: usize)
        ensures
            r == distinct_count(owned_packages(all_records(self.sections@))),
    {
        let all = self.records();
        let ghost av = refs_view(all@);
        let mut seen: Vec<(Ecosystem, &str)> = Vec::new();
        let mut count: usize = 0;
        let mut i: usize = 0;
        assert(av.take(0) =~= Seq::<RecordV>::empty());
        while i < all.len()
            invariant
                i <= all@.len(),
                av == refs_view(all@),
                seen@.map_values(|p: (Ecosystem, &str)| (p.0, p.1@)) == owned_packages(av.take(i as int)),
                count == distinct_count(owned_packages(av.take(i as int))),
                count <= i,
            decreases all@.len() - i,
        {
            let r = all[i];
            assert(av.take(i + 1).drop_last() =~= av.take(i as int));
            assert(av.take(i + 1).last() == r@);
            if !r.status.is_orphan() {
                let ghost sv = seen@.map_values(|p: (Ecosystem, &str)| (p.0, p.1@));
                let mut found = false;
                let mut k: usize = 0;
                while k < seen.len()
                    invariant
                        k <= seen@.len(),
                        sv == seen@.map_values(|p: (Ecosystem, &str)| (p.0, p.1@)),
                        found == exists|j: int| 0 <= j < k && sv[j] == (r.ecosystem, r.package@),
                    decreases seen@.len() - k,
                {
                    if seen[k].0 == r.ecosystem && str_eq(seen[k].1, r.package.as_str()) {
                        found = true;
                    }
                    assert(sv[k as int] == (seen@[k as int].0, seen@[k as int].1@));
                    k += 1;
                }
                proof {
                    if found {
                        let j = choose|j: int| 0 <= j < seen@.len() && sv[j] == (r.ecosystem, r.package@);
                        assert(sv.contains((r.ecosystem, r.package@)));
                    } else {
                        assert(!sv.contains((r.ecosystem, r.package@)));
                    }
                }
                if !found {
                    count += 1;
                }
                let ghost before = seen@;
                seen.push((r.ecosystem, r.package.as_str()));
                assert(seen@.map_values(|p: (Ecosystem, &str)| (p.0, p.1@)) =~= before.map_values(|p: (Ecosystem, &str)| (p.0, p.1@)).push((r.ecosystem, r.package@)));
                assert(owned_packages(av.take(i + 1)).drop_last() =~= owned_packages(av.take(i as int)));
            }
            i += 1;
        }
        assert(av.take(all@.len() as int) =~= av);
        count
    }
}

// ------------------------------------------------------------------
// Install roots

/// The install locations to scan, after applying flags > env > defaults.
#[derive(Debug, Clone, Default)]
pub struct Roots {
    pub cargo_home: Option<String>,
    pub go_bin: Option<String>,
    pub pipx_home: Option<String>,
    pub pipx_bin: Option<String>,
    pub npm_prefix: Option<String>,
}

/// Explicit overrides coming from CLI flags.
#[derive(Debug, Clone, Default)]
pub struct RootOverrides {
    pub cargo_home: Option<String>,
    pub go_bin: Option<String>,
    pub pipx_home: Option<String>,
    pub pipx_bin: Option<String>,
    pub npm_prefix: Option<String>,
}

/// The environment variables that steer root discovery, as the process
/// environment holds them (`None` when unset).
#[derive(Debug, Clone, Default)]
pub struct Env {
    /// `CARGO_HOME`
    pub cargo_home: Option<String>,
    /// `GOBIN`
    pub gobin: Option<String>,
    /// `GOPATH`
    pub gopath: Option<String>,
    /// `PIPX_HOME`
    pub pipx_home: Option<String>,
    /// `PIPX_BIN_DIR`
    pub pipx_bin_dir: Option<String>,
    /// `NPM_CONFIG_PREFIX`
    pub npm_config_prefix: Option<String>,
}

/// Which of pipx's two home layouts exist on disk: a `venvs` directory
/// under `<home>/.local/share/pipx` (since pipx 1.5) and under
/// `<home>/.local/pipx` (before).
#[derive(Debug, Clone, Copy, Default)]
pub struct PipxLayouts {
    pub modern: bool,
    pub legacy: bool,
}

/// The text of an optional string.
pub open spec fn opt_text(o: Option<String>) -> Option<Seq<char>> {
    match o {
        Some(s) => Some(s@),
        None => None,
    }
}

/// An environment value counts only when it is set and not empty.
pub open spec fn env_value(v: Option<String>) -> Option<Seq<char>> {
    match v {
        Some(s) => if s@.len() > 0 { Some(s@) } else { None },
        None => None,
    }
}

/// Flag first, then environment, then the default.
pub open spec fn pick_root(flag: Option<String>, env: Option<String>, default: Seq<char>) -> Seq<char> {
    match opt_text(flag) {
        Some(f) => f,
        None => match env_value(env) {
            Some(e) => e,
            None => default,
        },
    }
}

/// The Go bin dir: flag, then `GOBIN`, then `$GOPATH/bin`, then `<home>/go/bin`.
pub open spec fn go_bin_root(home: Seq<char>, env: Env, ov: RootOverrides) -> Seq<char> {
    match opt_text(ov.go_bin) {
        Some(f) => f,
        None => match env_value(env.gobin) {
            Some(e) => e,
            None => match env_value(env.gopath) {
                Some(p) => join_path(p, "bin"@),
                None => join_path(join_path(home, "go"@), "bin"@),
            },
        },
    }
}

/// The default pipx home: the modern layout unless only the legacy one exists.
pub open spec fn pipx_default(home: Seq<char>, layouts: PipxLayouts) -> Seq<char> {
    if layouts.modern || !layouts.legacy {
        join_path(join_path(join_path(home, ".local"@), "share"@), "pipx"@)
    } else {
        join_path(join_path(home, ".local"@), "pipx"@)
    }
}

/// Flag first, then environment, then the default, as a string.
fn pick(flag: &Option<String>, env: &Option<String>, default: String) -> (r: String)
    ensures
        r@ == pick_root(*flag, *env, default@),
{
    match flag {
        Some(f) => f.clone(),
        None => match env {
            Some(e) => if !e.as_str().is_empty() {
                e.clone()
            } else {
                default
            },
            None => default,
        },
    }
}

/// Resolve every ecosystem root the same way its own tooling would: CLI
/// flag first, then the tool's environment variable (an empty value
/// counts as unset), then its conventional default under `home`.
pub fn resolve_roots(home: &str, env: &Env, overrides: &RootOverrides, layouts: PipxLayouts) -> (r: Roots)
    ensures
        opt_text(r.cargo_home) == Some(pick_root(overrides.cargo_home, env.cargo_home, join_path(home@, ".cargo"@))),
        opt_text(r.go_bin) == Some(go_bin_root(home@, *env, *overrides)),
        opt_text(r.pipx_home) == Some(pick_root(overrides.pipx_home, env.pipx_home, pipx_default(home@, layouts))),
        opt_text(r.pipx_bin) == Some(pick_root(overrides.pipx_bin, env.pipx_bin_dir, join_path(join_path(home@, ".local"@), "bin"@))),
        opt_text(r.npm_prefix) == Some(pick_root(overrides.npm_prefix, env.npm_config_prefix, join_path(home@, ".npm-global"@))),
{
    proof {
        reveal_strlit(".cargo");
        reveal_strlit("go");
        reveal_strlit("bin");
        reveal_strlit(".local");
        reveal_strlit("share");
        reveal_strlit("pipx");
        reveal_strlit(".npm-global");
    }
    let cargo_home = pick(&overrides.cargo_home, &env.cargo_home, join(home, ".cargo"));
    let go_bin = match &overrides.go_bin {
        Some(f) => f.clone(),
        None => match &env.gobin {
            Some(e) if !e.as_str().is_empty() => e.clone(),
            _ => match &env.gopath {
                Some(p) if !p.as_str().is_empty() => join(p.as_str(), "bin"),
                _ => {
                    let go = join(home, "go");
                    join(go.as_str(), "bin")
                },
            },
        },
    };
    let local = join(home, ".local");
    let pipx_default_home = if layouts.modern || !layouts.legacy {
        let share = join(local.as_str(), "share");
        join(share.as_str(), "pipx")
    } else {
        join(local.as_str(), "pipx")
    };
    let pipx_home = pick(&overrides.pipx_home, &env.pipx_home, pipx_default_home);
    let pipx_bin = pick(&overrides.pipx_bin, &env.pipx_bin_dir, join(local.as_str(), "bin"));
    let npm_prefix = pick(&overrides.npm_prefix, &env.npm_config_prefix, join(home, ".npm-global"));
    Roots {
        cargo_home: Some(cargo_home),
        go_bin: Some(go_bin),
        pipx_home: Some(pipx_home),
        pipx_bin: Some(pipx_bin),
        npm_prefix: Some(npm_prefix),
    }
}

/// What scanning found for each ecosystem whose install root exists on
/// disk (`$CARGO_HOME/bin`, the Go bin dir, `<pipx home>/venvs`,
/// `<npm prefix>/lib/node_modules`); `None` for an ecosystem that is not
/// installed.
pub struct Scans {
    pub cargo: Option<Vec<BinaryRecord>>,
    pub go: Option<Vec<BinaryRecord>>,
    pub pipx: Option<Vec<BinaryRecord>>,
    pub npm: Option<Vec<BinaryRecord>>,
}

/// The mathematical content of one section.
pub struct SectionV {
    pub ecosystem: Ecosystem,
    pub bin_dir: Seq<char>,
    pub records: Seq<RecordV>,
}

/// The views of a list of sections.
pub open spec fn sections_view(v: Seq<Section>) -> Seq<SectionV> {
    v.map_values(|s: Section| SectionV { ecosystem: s.ecosystem, bin_dir: s.bin_dir@, records: records_view(s.records@) })
}

/// The section an ecosystem contributes, if its root is known and was scanned.
pub open spec fn section_of(eco: Ecosystem, root: Option<Seq<char>>, scanned: Option<Vec<BinaryRecord>>, bin_dir: Seq<char>) -> Seq<SectionV> {
    match (root, scanned) {
        (Some(_), Some(v)) => seq![SectionV { ecosystem: eco, bin_dir, records: records_view(v@) }],
        _ => Seq::empty(),
    }
}

/// The sections of an inventory, in the fixed order cargo, go, pipx, npm.
pub open spec fn collected(roots: Roots, scans: Scans) -> Seq<SectionV> {
    let cargo_dir = match opt_text(roots.cargo_home) { Some(h) => join_path(h, "bin"@), None => Seq::empty() };
    let go_dir = match opt_text(roots.go_bin) { Some(g) => g, None => Seq::empty() };
    let pipx_dir = match opt_text(roots.pipx_bin) { Some(b) => b, None => Seq::empty() };
    let pipx_root = match (roots.pipx_home, roots.pipx_bin) { (Some(h), Some(_)) => Some(h@), _ => None };
    let npm_dir = match opt_text(roots.npm_prefix) { Some(p) => join_path(p, "bin"@), None => Seq::empty() };
    section_of(Ecosystem::Cargo, opt_text(roots.cargo_home), scans.cargo, cargo_dir)
        + section_of(Ecosystem::Go, opt_text(roots.go_bin), scans.go, go_dir)
        + section_of(Ecosystem::Pipx, pipx_root, scans.pipx, pipx_dir)
        + section_of(Ecosystem::Npm, opt_text(roots.npm_prefix), scans.npm, npm_dir)
}

/// Assemble the inventory of every resolved root that was scanned.
/// Ecosystems that are not installed simply produce no section: absence
/// is not an error.
pub fn collect(roots: &Roots, scans: Scans) -> (r: Inventory)
    ensures
        sections_view(r.sections@) == collected(*roots, scans),
{
    proof {
        reveal_strlit("bin");
    }
    let ghost sc = scans;
    let Scans { cargo, go, pipx, npm } = scans;
    let mut sections: Vec<Section> = Vec::new();
    let ghost mut expect: Seq<SectionV> = Seq::empty();
    if let (Some(home), Some(records)) = (&roots.cargo_home, cargo) {
        sections.push(Section { ecosystem: Ecosystem::Cargo, bin_dir: join(home.as_str(), "bin"), records });
    }
    assert(sections_view(sections@) =~= section_of(Ecosystem::Cargo, opt_text(roots.cargo_home), sc.cargo,
        match opt_text(roots.cargo_home) { Some(h) => join_path(h, "bin"@), None => Seq::empty() }));
    let ghost s1 = sections_view(sections@);
    if let (Some(dir), Some(records)) = (&roots.go_bin, go) {
        sections.push(Section { ecosystem: Ecosystem::Go, bin_dir: dir.clone(), records });
    }
    assert(sections_view(sections@) =~= s1 + section_of(Ecosystem::Go, opt_text(roots.go_bin), sc.go,
        match opt_text(roots.go_bin) { Some(g) => g, None => Seq::empty() }));
    let ghost s2 = sections_view(sections@);
    if let (Some(_), Some(bin), Some(records)) = (&roots.pipx_home, &roots.pipx_bin, pipx) {
        sections.push(Section { ecosystem: Ecosystem::Pipx, bin_dir: bin.clone(), records });
    }
    assert(sections_view(sections@) =~= s2 + section_of(Ecosystem::Pipx,
        match (roots.pipx_home, roots.pipx_bin) { (Some(h), Some(_)) => Some(h@), _ => None }, sc.pipx,
        match opt_text(roots.pipx_bin) { Some(b) => b, None => Seq::empty() }));
    let ghost s3 = sections_view(sections@);
    if let (Some(prefix), Some(records)) = (&roots.npm_prefix, npm) {
        sections.push(Section { ecosystem: Ecosystem::Npm, bin_dir: join(prefix.as_str(), "bin"), records });
    }
    assert(sections_view(sections@) =~= s3 + section_of(Ecosystem::Npm, opt_text(roots.npm_prefix), sc.npm,
        match opt_text(roots.npm_prefix) { Some(p) => join_path(p, "bin"@), None => Seq::empty() }));
    Inventory { sections }
}

} // verus!
