//! PATH shadowing: when the same executable name exists in more than one
//! PATH directory, the earliest directory wins and everything later is
//! dead weight, or worse, the thing you actually meant to run. The PATH
//! is resolved once and every collision is reported.
//!
//! Looking at the disk (listing directories, resolving canonical paths,
//! testing execute bits) is the caller's part; what it found comes in as
//! `DirListing`s and parallel vectors, and every decision is made here.

use vstd::prelude::*;
use crate::text::{
    chars_of, owned, str_eq, str_lt, lex_lt, split_char, split_in, string_from, texts_of,
    lemma_lex_total, lemma_lex_transitive, };
use crate::path::{join, join_path};
use crate::inventory::is_claimed;

verus! {

/// One shadowed name: `entries[0]` is what the shell actually runs, the
/// rest are shadowed, in PATH order.
#[derive(Debug, Clone, PartialEq)]
pub struct Shadow {
    pub name: String,
    pub entries: Vec<String>,
}

impl Shadow {
    /// The path the shell actually runs.
    pub fn winner(&self) -> (r: &String)
        requires
            self.entries@.len() >= 1,
        ensures
            r@ == self.entries@[0]@,
    {
        &self.entries[0]
    }

    /// The shadowed paths, in PATH order.
    pub fn losers(&self) -> (r: &[String])
        requires
            self.entries@.len() >= 1,
        ensures
            r@ == self.entries@.subrange(1, self.entries@.len() as int),
    {
        vstd::slice::slice_subrange(self.entries.as_slice(), 1, self.entries.len())
    }
}

// ------------------------------------------------------------------
// Splitting PATH

/// The directories of a PATH: the non-empty segments, each kept the first
/// time it occurs.
pub open spec fn keep_dirs(pieces: Seq<Seq<char>>) -> Seq<Seq<char>>
    decreases pieces.len(),
{
    if pieces.len() == 0 {
        Seq::empty()
    } else {
        let prev = keep_dirs(pieces.drop_last());
        let p = pieces.last();
        if p.len() == 0 || prev.contains(p) {
            prev
        } else {
            prev.push(p)
        }
    }
}

/// What `keep_dirs` keeps: exactly the non-empty pieces, none twice.
pub proof fn lemma_keep_dirs(pieces: Seq<Seq<char>>)
    ensures
        forall|i: int| 0 <= i < keep_dirs(pieces).len() ==> #[trigger] keep_dirs(pieces)[i].len() > 0,
        forall|i: int, j: int|
            0 <= i < j < keep_dirs(pieces).len() ==> keep_dirs(pieces)[i] != keep_dirs(pieces)[j],
        forall|p: Seq<char>| keep_dirs(pieces).contains(p) <==> (p.len() > 0 && pieces.contains(p)),
    decreases pieces.len(),
{
    if pieces.len() > 0 {
        let prev = keep_dirs(pieces.drop_last());
        lemma_keep_dirs(pieces.drop_last());
        assert forall|p: Seq<char>| keep_dirs(pieces).contains(p) <==> (p.len() > 0 && pieces.contains(p)) by {
            if pieces.contains(p) && p.len() > 0 {
                let k = choose|k: int| 0 <= k < pieces.len() && pieces[k] == p;
                if k < pieces.len() - 1 {
                    assert(pieces.drop_last()[k] == p);
                }
            }
            if pieces.drop_last().contains(p) {
                let k = choose|k: int| 0 <= k < pieces.len() - 1 && pieces.drop_last()[k] == p;
                assert(pieces[k] == p);
            }
            if keep_dirs(pieces).contains(p) && !prev.contains(p) {
                assert(keep_dirs(pieces) == prev.push(pieces.last()));
                let k = choose|k: int| 0 <= k < keep_dirs(pieces).len() && keep_dirs(pieces)[k] == p;
                assert(k == prev.len());
            }
            if prev.contains(p) {
                let k = choose|k: int| 0 <= k < prev.len() && prev[k] == p;
                if keep_dirs(pieces) != prev {
                    assert(keep_dirs(pieces)[k] == p);
                }
            }
            if p == pieces.last() && p.len() > 0 && !prev.contains(p) {
                assert(keep_dirs(pieces)[prev.len() as int] == p);
            }
        }
    }
}

/// Split a PATH string into directories, dropping empty segments and
/// exact duplicates (a duplicated PATH entry is not a shadow: the file is
/// only reachable once).
pub fn split_path_var(path: &str) -> (r: Vec<String>)
    ensures
        texts_of(r@) == keep_dirs(split_char(path@, ':')),
        forall|i: int| 0 <= i < r@.len() ==> #[trigger] r@[i]@.len() > 0,
        forall|i: int, j: int| 0 <= i < j < r@.len() ==> r@[i]@ != r@[j]@,
        forall|p: Seq<char>|
            texts_of(r@).contains(p) <==> (p.len() > 0 && split_char(path@, ':').contains(p)),
{
    let v = chars_of(path);
    let pieces = split_in(&v, ':');
    let ghost sp = split_char(path@, ':');
    let mut out: Vec<String> = Vec::new();
    let mut i: usize = 0;
    assert(sp.take(0) =~= Seq::<Seq<char>>::empty());
    assert(texts_of(out@) =~= Seq::<Seq<char>>::empty());
    while i < pieces.len()
        invariant
            i <= pieces@.len(),
            v@ == path@,
            sp == split_char(path@, ':'),
            pieces@.len() == sp.len(),
            forall|k: int| 0 <= k < pieces@.len() ==> #[trigger] pieces@[k]@ == sp[k],
            texts_of(out@) == keep_dirs(sp.take(i as int)),
        decreases pieces@.len() - i,
    {
        let seg = string_from(&pieces[i]);
        assert(sp.take(i + 1).drop_last() =~= sp.take(i as int));
        assert(sp.take(i + 1).last() == seg@);
        if pieces[i].len() > 0 && !is_claimed(&out, seg.as_str()) {
            let ghost before = out@;
            out.push(seg);
            assert(texts_of(out@) =~= texts_of(before).push(sp[i as int]));
        }
        proof {
            if seg@.len() == 0 {
                assert(keep_dirs(sp.take(i + 1)) == keep_dirs(sp.take(i as int)));
            }
        }
        i += 1;
    }
    assert(sp.take(sp.len() as int) =~= sp);
    proof {
        lemma_keep_dirs(sp);
        assert forall|i: int| 0 <= i < out@.len() implies #[trigger] out@[i]@.len() > 0 by {
            assert(texts_of(out@)[i] == out@[i]@);
        }
        assert forall|i: int, j: int| 0 <= i < j < out@.len() implies out@[i]@ != out@[j]@ by {
            assert(texts_of(out@)[i] == out@[i]@);
            assert(texts_of(out@)[j] == out@[j]@);
        }
    }
    out
}

// ------------------------------------------------------------------
// Finding shadows

/// One executable entry of a PATH directory.
pub struct PathEntry {
    /// The entry's file name.
    pub name: String,
    /// The entry's full path.
    pub path: String,
    /// The file the entry resolves to (its canonical path, or the path
    /// itself when it cannot be resolved): two entries with one identity
    /// are two routes to the same file.
    pub identity: String,
}

/// The mathematical content of a `PathEntry`.
pub struct PathEntryV {
    pub name: Seq<char>,
    pub path: Seq<char>,
    pub identity: Seq<char>,
}

impl View for PathEntry {
    type V = PathEntryV;

    open spec fn view(&self) -> PathEntryV {
        PathEntryV { name: self.name@, path: self.path@, identity: self.identity@ }
    }
}

/// What listing one PATH directory found: the directory's identity (its
/// canonical path, or the path itself when it cannot be resolved) and its
/// executable entries. A directory that does not exist lists nothing.
pub struct DirListing {
    pub identity: String,
    pub entries: Vec<PathEntry>,
}

/// The mathematical content of a `DirListing`.
pub struct ListingV {
    pub identity: Seq<char>,
    pub entries: Seq<PathEntryV>,
}

impl View for DirListing {
    type V = ListingV;

    open spec fn view(&self) -> ListingV {
        ListingV { identity: self.identity@, entries: self.entries@.map_values(|e: PathEntry| e@) }
    }
}

/// The views of a list of listings.
pub open spec fn listings_view(v: Seq<DirListing>) -> Seq<ListingV> {
    v.map_values(|l: DirListing| l@)
}

/// No element before `ids[i]` equals it.
pub open spec fn first_of(ids: Seq<Seq<char>>, i: int) -> bool {
    forall|j: int| 0 <= j < i ==> ids[j] != ids[i]
}

/// The identities of a list of listings.
pub open spec fn listing_ids(ls: Seq<ListingV>) -> Seq<Seq<char>> {
    ls.map_values(|l: ListingV| l.identity)
}

/// The entries of the directories that are not aliases of an earlier one
/// (the first spelling wins), in PATH order.
pub open spec fn reachable_entries(ls: Seq<ListingV>) -> Seq<PathEntryV>
    decreases ls.len(),
{
    if ls.len() == 0 {
        Seq::empty()
    } else {
        let prev = reachable_entries(ls.drop_last());
        if first_of(listing_ids(ls), ls.len() - 1) {
            prev + ls.last().entries
        } else {
            prev
        }
    }
}

/// The identities of a list of entries.
pub open spec fn ids_of(es: Seq<PathEntryV>) -> Seq<Seq<char>> {
    es.map_values(|e: PathEntryV| e.identity)
}

/// The paths of a list of entries.
pub open spec fn paths_of(es: Seq<PathEntryV>) -> Seq<Seq<char>> {
    es.map_values(|e: PathEntryV| e.path)
}

/// The entries called `name`, in order, keeping only the first route to
/// each file.
pub open spec fn distinct_hits(es: Seq<PathEntryV>, name: Seq<char>) -> Seq<PathEntryV>
    decreases es.len(),
{
    if es.len() == 0 {
        Seq::empty()
    } else {
        let prev = distinct_hits(es.drop_last(), name);
        let e = es.last();
        if e.name == name && !ids_of(prev).contains(e.identity) {
            prev.push(e)
        } else {
            prev
        }
    }
}

/// The hits of a name are entries of that name, no two of them routes to
/// the same file, and every route to a file called `name` is represented.
pub proof fn lemma_distinct_hits(es: Seq<PathEntryV>, name: Seq<char>)
    ensures
        forall|i: int| 0 <= i < distinct_hits(es, name).len() ==> (#[trigger] distinct_hits(es, name)[i]).name == name,
        forall|i: int, j: int| 0 <= i < j < distinct_hits(es, name).len()
            ==> (#[trigger] distinct_hits(es, name)[i]).identity != (#[trigger] distinct_hits(es, name)[j]).identity,
        forall|k: int| 0 <= k < es.len() && (#[trigger] es[k]).name == name
            ==> ids_of(distinct_hits(es, name)).contains(es[k].identity),
    decreases es.len(),
{
    if es.len() > 0 {
        let prev = distinct_hits(es.drop_last(), name);
        lemma_distinct_hits(es.drop_last(), name);
        let cur = distinct_hits(es, name);
        assert forall|k: int| 0 <= k < es.len() && (#[trigger] es[k]).name == name
            implies ids_of(cur).contains(es[k].identity) by {
            if k < es.len() - 1 {
                assert(es.drop_last()[k] == es[k]);
                let q = choose|q: int| 0 <= q < prev.len() && ids_of(prev)[q] == es[k].identity;
                if cur != prev {
                    assert(ids_of(cur)[q] == ids_of(prev)[q]);
                }
            } else if cur != prev {
                assert(ids_of(cur)[prev.len() as int] == es[k].identity);
            }
        }
        if cur != prev {
            assert forall|i: int, j: int| 0 <= i < j < cur.len()
                implies (#[trigger] cur[i]).identity != (#[trigger] cur[j]).identity by {
                if j == prev.len() {
                    assert(ids_of(prev)[i] == prev[i].identity);
                }
            }
        }
    }
}

/// A name that has hits is the name of some entry.
proof fn lemma_hits_named(es: Seq<PathEntryV>, name: Seq<char>)
    requires
        distinct_hits(es, name).len() > 0,
    ensures
        exists|k: int| 0 <= k < es.len() && #[trigger] es[k].name == name,
    decreases es.len(),
{
    let prev = distinct_hits(es.drop_last(), name);
    if prev.len() > 0 {
        lemma_hits_named(es.drop_last(), name);
        let k = choose|k: int| 0 <= k < es.len() - 1 && #[trigger] es.drop_last()[k].name == name;
        assert(es[k].name == name);
    } else {
        assert(es[es.len() - 1].name == name);
    }
}

/// Every element of `s` is strictly before every later one.
pub open spec fn strictly_sorted(s: Seq<Seq<char>>) -> bool {
    forall|i: int, j: int| 0 <= i < j < s.len() ==> lex_lt(#[trigger] s[i], #[trigger] s[j])
}

/// Inserts `s` into the strictly ascending `names` unless it is there.
fn insert_name(names: &mut Vec<String>, s: &str)
    requires
        strictly_sorted(texts_of(old(names)@)),
    ensures
        strictly_sorted(texts_of(final(names)@)),
        forall|t: Seq<char>|
            #[trigger] texts_of(final(names)@).contains(t) <==> (texts_of(old(names)@).contains(t) || t == s@),
{
    let ghost before = texts_of(names@);
    let mut j: usize = 0;
    while j < names.len() && str_lt(names[j].as_str(), s)
        invariant
            j <= names@.len(),
            before == texts_of(names@),
            forall|k: int| 0 <= k < j ==> lex_lt(#[trigger] before[k], s@),
        decreases names@.len() - j,
    {
        j += 1;
    }
    if j < names.len() && str_eq(names[j].as_str(), s) {
        assert(before[j as int] == s@);
        return;
    }
    proof {
        if j < before.len() {
            lemma_lex_total(before[j as int], s@);
            assert(lex_lt(s@, before[j as int]));
            assert forall|k: int| j < k < before.len() implies lex_lt(s@, #[trigger] before[k]) by {
                lemma_lex_transitive(s@, before[j as int], before[k]);
            }
        }
    }
    names.insert(j, owned(s));
    let ghost after = texts_of(names@);
    assert(after =~= before.insert(j as int, s@));
    assert forall|a: int, b: int| 0 <= a < b < after.len() implies lex_lt(#[trigger] after[a], #[trigger] after[b]) by {
        if b < j {
        } else if a < j && b == j {
        } else if a < j {
            assert(after[b] == before[b - 1]);
            lemma_lex_transitive(after[a], s@, after[b]);
        } else if a == j {
            assert(after[b] == before[b - 1]);
        } else {
            assert(after[a] == before[a - 1]);
            assert(after[b] == before[b - 1]);
        }
    }
    assert forall|t: Seq<char>| #[trigger] after.contains(t) <==> (before.contains(t) || t == s@) by {
        if after.contains(t) {
            let k = choose|k: int| 0 <= k < after.len() && after[k] == t;
            if k < j {
                assert(before[k] == t);
            } else if k > j {
                assert(before[k - 1] == t);
            }
        }
        if before.contains(t) {
            let k = choose|k: int| 0 <= k < before.len() && before[k] == t;
            if k < j {
                assert(after[k] == t);
            } else {
                assert(after[k + 1] == t);
            }
        }
        if t == s@ {
            assert(after[j as int] == t);
        }
    }
}

/// A copy of an entry.
fn copy_entry(e: &PathEntry) -> (r: PathEntry)
    ensures
        r@ == e@,
{
    PathEntry { name: e.name.clone(), path: e.path.clone(), identity: e.identity.clone() }
}

/// The entries of the directories that are not aliases of an earlier one.
fn reachable(listings: &Vec<DirListing>) -> (r: Vec<PathEntry>)
    ensures
        r@.map_values(|e: PathEntry| e@) == reachable_entries(listings_view(listings@)),
{
    let ghost lv = listings_view(listings@);
    let mut out: Vec<PathEntry> = Vec::new();
    let mut i: usize = 0;
    assert(lv.take(0) =~= Seq::<ListingV>::empty());
    assert(out@.map_values(|e: PathEntry| e@) =~= Seq::<PathEntryV>::empty());
    while i < listings.len()
        invariant
            i <= listings@.len(),
            lv == listings_view(listings@),
            out@.map_values(|e: PathEntry| e@) == reachable_entries(lv.take(i as int)),
        decreases listings@.len() - i,
    {
        let mut first = true;
        let mut j: usize = 0;
        while j < i
            invariant
                j <= i < listings@.len(),
                lv == listings_view(listings@),
                first == (forall|k: int| 0 <= k < j ==> lv[k].identity != lv[i as int].identity),
            decreases i - j,
        {
            assert(lv[j as int] == listings@[j as int]@);
            assert(lv[i as int] == listings@[i as int]@);
            if str_eq(listings[j].identity.as_str(), listings[i].identity.as_str()) {
                first = false;
            }
            j += 1;
        }
        let ghost t = lv.take(i + 1);
        assert(t.drop_last() =~= lv.take(i as int));
        assert(t.last() == lv[i as int]);
        assert(first == first_of(listing_ids(t), t.len() - 1)) by {
            assert forall|k: int| 0 <= k <= i implies #[trigger] listing_ids(t)[k] == lv[k].identity by {
                assert(t[k] == lv[k]);
            }
            if !first {
                let k = choose|k: int| 0 <= k < i && !(lv[k].identity != lv[i as int].identity);
                assert(listing_ids(t)[k] == listing_ids(t)[i as int]);
            }
        }
        if first {
            let es = &listings[i].entries;
            let ghost base = out@.map_values(|e: PathEntry| e@);
            let mut k: usize = 0;
            while k < es.len()
                invariant
                    k <= es@.len(),
                    out@.map_values(|e: PathEntry| e@) == base + es@.map_values(|e: PathEntry| e@).take(k as int),
                decreases es@.len() - k,
            {
                let ghost prev = out@;
                out.push(copy_entry(&es[k]));
                assert(out@.map_values(|e: PathEntry| e@) =~= prev.map_values(|e: PathEntry| e@).push(es@[k as int]@));
                assert(es@.map_values(|e: PathEntry| e@).take(k + 1) =~= es@.map_values(|e: PathEntry| e@).take(k as int).push(es@[k as int]@));
                k += 1;
            }
            assert(es@.map_values(|e: PathEntry| e@).take(es@.len() as int) =~= lv[i as int].entries);
        }
        i += 1;
    }
    assert(lv.take(listings@.len() as int) =~= lv);
    out
}

/// The paths of the entries called `name`, first route to each file only.
fn hits_of(es: &Vec<PathEntry>, name: &str) -> (r: Vec<String>)
    ensures
        texts_of(r@) == paths_of(distinct_hits(es@.map_values(|e: PathEntry| e@), name@)),
{
    let ghost ev = es@.map_values(|e: PathEntry| e@);
    let mut paths: Vec<String> = Vec::new();
    let mut ids: Vec<String> = Vec::new();
    let mut i: usize = 0;
    assert(ev.take(0) =~= Seq::<PathEntryV>::empty());
    assert(texts_of(paths@) =~= Seq::<Seq<char>>::empty());
    assert(texts_of(ids@) =~= Seq::<Seq<char>>::empty());
    while i < es.len()
        invariant
            i <= es@.len(),
            ev == es@.map_values(|e: PathEntry| e@),
            texts_of(paths@) == paths_of(distinct_hits(ev.take(i as int), name@)),
            texts_of(ids@) == ids_of(distinct_hits(ev.take(i as int), name@)),
        decreases es@.len() - i,
    {
        let e = &es[i];
        let ghost prev = distinct_hits(ev.take(i as int), name@);
        assert(ev.take(i + 1).drop_last() =~= ev.take(i as int));
        assert(ev.take(i + 1).last() == e@);
        if str_eq(e.name.as_str(), name) && !is_claimed(&ids, e.identity.as_str()) {
            let ghost p0 = paths@;
            let ghost i0 = ids@;
            paths.push(e.path.clone());
            ids.push(e.identity.clone());
            assert(texts_of(paths@) =~= texts_of(p0).push(e.path@));
            assert(texts_of(ids@) =~= texts_of(i0).push(e.identity@));
            assert(paths_of(prev.push(e@)) =~= paths_of(prev).push(e.path@));
            assert(ids_of(prev.push(e@)) =~= ids_of(prev).push(e.identity@));
        }
        i += 1;
    }
    assert(ev.take(es@.len() as int) =~= ev);
    paths
}

/// The names that are shadowed, given the reachable entries.
pub open spec fn is_shadowed(es: Seq<PathEntryV>, name: Seq<char>) -> bool {
    distinct_hits(es, name).len() >= 2
}

/// What the shadows found among the first `m` sorted names satisfy.
#[verifier::opaque]
spec fn shadows_upto(out: Seq<Shadow>, nv: Seq<Seq<char>>, ev: Seq<PathEntryV>, m: int) -> bool {
    &&& forall|i: int, j: int| 0 <= i < j < out.len() ==> lex_lt(#[trigger] out[i].name@, #[trigger] out[j].name@)
    &&& forall|i: int| 0 <= i < out.len() ==> exists|k: int| 0 <= k < m && nv[k] == #[trigger] out[i].name@
    &&& forall|i: int| 0 <= i < out.len() ==> {
        &&& is_shadowed(ev, #[trigger] out[i].name@)
        &&& texts_of(out[i].entries@) == paths_of(distinct_hits(ev, out[i].name@))
    }
    &&& forall|k: int| 0 <= k < m && is_shadowed(ev, #[trigger] nv[k])
        ==> exists|i: int| 0 <= i < out.len() && out[i].name@ == nv[k]
}

proof fn lemma_shadows_push(before: Seq<Shadow>, sh: Shadow, nv: Seq<Seq<char>>, ev: Seq<PathEntryV>, m: int)
    requires
        0 <= m < nv.len(),
        strictly_sorted(nv),
        shadows_upto(before, nv, ev, m),
        sh.name@ == nv[m],
        is_shadowed(ev, nv[m]),
        texts_of(sh.entries@) == paths_of(distinct_hits(ev, nv[m])),
    ensures
        shadows_upto(before.push(sh), nv, ev, m + 1),
{
    reveal(shadows_upto);
    let out = before.push(sh);
    assert forall|i: int, j: int| 0 <= i < j < out.len() implies lex_lt(#[trigger] out[i].name@, #[trigger] out[j].name@) by {
        assert(before[i] == out[i]);
        if j == out.len() - 1 {
            let k = choose|k: int| 0 <= k < m && nv[k] == #[trigger] before[i].name@;
            assert(lex_lt(nv[k], nv[m]));
        } else {
            assert(before[j] == out[j]);
        }
    }
    assert forall|i: int| 0 <= i < out.len() implies exists|k: int| 0 <= k < m + 1 && nv[k] == #[trigger] out[i].name@ by {
        if i < before.len() {
            assert(before[i] == out[i]);
            let k = choose|k: int| 0 <= k < m && nv[k] == #[trigger] before[i].name@;
            assert(nv[k] == out[i].name@);
        } else {
            assert(nv[m] == out[i].name@);
        }
    }
    assert forall|i: int| 0 <= i < out.len() implies {
        &&& is_shadowed(ev, #[trigger] out[i].name@)
        &&& texts_of(out[i].entries@) == paths_of(distinct_hits(ev, out[i].name@))
    } by {
        if i < before.len() {
            assert(before[i] == out[i]);
        }
    }
    assert forall|k: int| 0 <= k < m + 1 && is_shadowed(ev, #[trigger] nv[k])
        implies exists|i: int| 0 <= i < out.len() && out[i].name@ == nv[k] by {
        if k < m {
            let i = choose|i: int| 0 <= i < before.len() && before[i].name@ == nv[k];
            assert(out[i] == before[i]);
        } else {
            assert(out[before.len() as int].name@ == nv[k]);
        }
    }
}

proof fn lemma_shadows_skip(out: Seq<Shadow>, nv: Seq<Seq<char>>, ev: Seq<PathEntryV>, m: int)
    requires
        0 <= m < nv.len(),
        shadows_upto(out, nv, ev, m),
        !is_shadowed(ev, nv[m]),
    ensures
        shadows_upto(out, nv, ev, m + 1),
{
    reveal(shadows_upto);
    assert forall|i: int| 0 <= i < out.len() implies exists|k: int| 0 <= k < m + 1 && nv[k] == #[trigger] out[i].name@ by {
        let k = choose|k: int| 0 <= k < m && nv[k] == #[trigger] out[i].name@;
    }
}

/// Find every executable name present in two or more of the listed PATH
/// directories (earlier directories win). Directories that are aliases of
/// an earlier one and entries that resolve to a file already seen under
/// that name are deduplicated: two routes to one file are not a conflict.
/// Results are sorted by name for stable output.
pub fn find_shadows(listings: &Vec<DirListing>) -> (r: Vec<Shadow>)
    ensures
        forall|i: int, j: int| 0 <= i < j < r@.len() ==> lex_lt(#[trigger] r@[i].name@, #[trigger] r@[j].name@),
        forall|i: int| 0 <= i < r@.len() ==> {
            let es = reachable_entries(listings_view(listings@));
            &&& is_shadowed(es, #[trigger] r@[i].name@)
            &&& texts_of(r@[i].entries@) == paths_of(distinct_hits(es, r@[i].name@))
        },
        forall|n: Seq<char>| #[trigger] is_shadowed(reachable_entries(listings_view(listings@)), n)
            ==> exists|i: int| 0 <= i < r@.len() && r@[i].name@ == n,
{
    let es = reachable(listings);
    let ghost ev = es@.map_values(|e: PathEntry| e@);
    let mut names: Vec<String> = Vec::new();
    let mut i: usize = 0;
    while i < es.len()
        invariant
            i <= es@.len(),
            ev == es@.map_values(|e: PathEntry| e@),
            strictly_sorted(texts_of(names@)),
            forall|t: Seq<char>| #[trigger] texts_of(names@).contains(t)
                <==> exists|k: int| 0 <= k < i && #[trigger] ev[k].name == t,
        decreases es@.len() - i,
    {
        let ghost before = texts_of(names@);
        insert_name(&mut names, es[i].name.as_str());
        assert forall|t: Seq<char>| #[trigger] texts_of(names@).contains(t)
            <==> exists|k: int| 0 <= k < i + 1 && #[trigger] ev[k].name == t by {
            if t == ev[i as int].name {
                assert(ev[i as int].name == t);
            }
            if exists|k: int| 0 <= k < i + 1 && #[trigger] ev[k].name == t {
                let k = choose|k: int| 0 <= k < i + 1 && #[trigger] ev[k].name == t;
                if k < i {
                    assert(before.contains(t));
                }
            }
        }
        i += 1;
    }
    let ghost nv = texts_of(names@);
    let mut out: Vec<Shadow> = Vec::new();
    let mut m: usize = 0;
    proof {
        reveal(shadows_upto);
    }
    while m < names.len()
        invariant
            m <= names@.len(),
            ev == es@.map_values(|e: PathEntry| e@),
            nv == texts_of(names@),
            strictly_sorted(nv),
            shadows_upto(out@, nv, ev, m as int),
        decreases names@.len() - m,
    {
        let hits = hits_of(&es, names[m].as_str());
        assert(hits@.len() == distinct_hits(ev, nv[m as int]).len()) by {
            assert(texts_of(hits@).len() == hits@.len());
        }
        if hits.len() >= 2 {
            let ghost before = out@;
            let sh = Shadow { name: names[m].clone(), entries: hits };
            out.push(sh);
            proof {
                lemma_shadows_push(before, sh, nv, ev, m as int);
            }
        } else {
            proof {
                lemma_shadows_skip(out@, nv, ev, m as int);
            }
        }
        m += 1;
    }
    proof {
        reveal(shadows_upto);
    }
    proof {
        assert forall|n: Seq<char>| #[trigger] is_shadowed(ev, n)
            implies exists|i: int| 0 <= i < out@.len() && out@[i].name@ == n by {
            lemma_hits_named(ev, n);
            let k = choose|k: int| 0 <= k < ev.len() && #[trigger] ev[k].name == n;
            assert(nv.contains(n));
            let q = choose|q: int| 0 <= q < nv.len() && nv[q] == n;
            assert(is_shadowed(ev, nv[q]));
        }
    }
    out
}

// ------------------------------------------------------------------
// Resolving one name

/// Every PATH occurrence of `name`, winner first: `dirs[i]` joined with
/// `name`, for each directory that is not an alias of an earlier one
/// (`ids` are the directories' identities) and where that path is an
/// executable (`found[i]`).
pub open spec fn resolved(dirs: Seq<Seq<char>>, ids: Seq<Seq<char>>, name: Seq<char>, found: Seq<bool>) -> Seq<Seq<char>>
    decreases dirs.len(),
{
    if dirs.len() == 0 {
        Seq::empty()
    } else {
        let i = dirs.len() - 1;
        let prev = resolved(dirs.drop_last(), ids, name, found);
        if first_of(ids, i) && found[i] {
            prev.push(join_path(dirs[i], name))
        } else {
            prev
        }
    }
}

/// Whether `ids[i]` occurs before index `i`.
fn seen_before(ids: &Vec<String>, i: usize) -> (r: bool)
    requires
        i < ids@.len(),
    ensures
        r == !first_of(texts_of(ids@), i as int),
{
    let ghost iv = texts_of(ids@);
    let mut j: usize = 0;
    while j < i
        invariant
            j <= i < ids@.len(),
            iv == texts_of(ids@),
            forall|k: int| 0 <= k < j ==> iv[k] != iv[i as int],
        decreases i - j,
    {
        if str_eq(ids[j].as_str(), ids[i].as_str()) {
            assert(iv[j as int] == iv[i as int]);
            return true;
        }
        j += 1;
    }
    false
}

/// Every PATH occurrence of one name, winner first, for `which`: `ids[i]`
/// is the identity of `dirs[i]` and `executable[i]` whether `dirs[i]`
/// joined with `name` is an executable. Aliased directories are
/// deduplicated the same way `find_shadows` does.
pub fn resolve_name(dirs: &Vec<String>, ids: &Vec<String>, name: &str, executable: &Vec<bool>) -> (r: Vec<String>)
    requires
        ids@.len() == dirs@.len(),
        executable@.len() == dirs@.len(),
    ensures
        texts_of(r@) == resolved(texts_of(dirs@), texts_of(ids@), name@, executable@),
{
    let ghost dv = texts_of(dirs@);
    let mut out: Vec<String> = Vec::new();
    let mut i: usize = 0;
    assert(dv.take(0) =~= Seq::<Seq<char>>::empty());
    assert(texts_of(out@) =~= Seq::<Seq<char>>::empty());
    while i < dirs.len()
        invariant
            i <= dirs@.len(),
            ids@.len() == dirs@.len(),
            executable@.len() == dirs@.len(),
            dv == texts_of(dirs@),
            texts_of(out@) == resolved(dv.take(i as int), texts_of(ids@), name@, executable@),
        decreases dirs@.len() - i,
    {
        assert(dv.take(i + 1).drop_last() =~= dv.take(i as int));
        assert(dv.take(i + 1).last() == dirs@[i as int]@);
        if !seen_before(ids, i) && executable[i] {
            let ghost before = out@;
            out.push(join(dirs[i].as_str(), name));
            assert(texts_of(out@) =~= texts_of(before).push(join_path(dirs@[i as int]@, name@)));
        }
        i += 1;
    }
    assert(dv.take(dirs@.len() as int) =~= dv);
    out
}

} // verus!
