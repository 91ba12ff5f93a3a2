//! Rendering: the human report (aligned tables, orphan and shadow
//! sections, a one-line summary) and the machine-readable JSON document.
//! File ages are measured by the caller at one instant and handed in with
//! the options, so staleness is a pure function of the inputs.

use vstd::prelude::*;
use crate::text::{
    owned, push_all, push_char, push_u64, u64_to_string, chars_of, dec, texts_of, trim_end, trim_end_of, join_with,
    lemma_dec_digits,
};
use crate::inventory::{
    BinaryRecord, BinStatus, Ecosystem, Inventory, RecordV, Section, StatusV, all_records, filter_status,
    distinct_count, owned_packages, refs_view, records_view, eco_label, status_code, status_detail,
};
use crate::util::{age_text, count_text, count, format_age};
use crate::text::str_eq;
use crate::json::{escape, parse_doc, ws_end, JsonV};
use crate::layout::{
    Layout, literal, layout_text, layout_value, well_laid, lemma_read_layout, lemma_well_list_all,
    record_prefix, list_prefix, lemma_record_step, lemma_record_whole, lemma_list_step, lemma_list_whole,
};
use crate::shadow::Shadow;

verus! {

/// Report options shared by the human and JSON renderers.
#[derive(Debug, Clone, Default)]
pub struct ReportOpts {
    /// Flag binaries whose mtime is older than this many seconds.
    pub stale_secs: Option<u64>,
    /// The age in whole seconds of each record's file, in the order
    /// `Inventory::records` lists the records, all measured at one
    /// instant: `None` where the file is unreadable or its mtime lies in
    /// the future (clock skew must never manufacture staleness). A record
    /// past the end of the list has no known age.
    pub ages: Vec<Option<u64>>,
}

/// Aggregate counts for the summary line, the JSON summary object and the
/// `--strict` exit decision.
#[derive(Debug, Default, PartialEq, Eq)]
pub struct Summary {
    pub binaries: usize,
    pub packages: usize,
    pub orphans: usize,
    pub missing: usize,
    pub shadowed: usize,
    pub stale: usize,
}

/// The age shown for the record at position `i` of the inventory: none
/// for a missing record, which has no file.
pub open spec fn age_of(opts: ReportOpts, i: int, r: RecordV) -> Option<u64> {
    if r.status is Missing {
        None
    } else if 0 <= i < opts.ages@.len() {
        opts.ages@[i]
    } else {
        None
    }
}

/// A record is stale when it has an age and a threshold and the age is past it.
pub open spec fn is_stale(age: Option<u64>, stale_secs: Option<u64>) -> bool {
    match (age, stale_secs) {
        (Some(a), Some(s)) => a > s,
        _ => false,
    }
}

/// Number of records that are on disk (not missing).
pub open spec fn on_disk_count(rs: Seq<RecordV>) -> nat
    decreases rs.len(),
{
    if rs.len() == 0 {
        0
    } else {
        on_disk_count(rs.drop_last()) + if rs.last().status is Missing { 0nat } else { 1nat }
    }
}

/// Number of stale records, each judged by its position in the inventory.
pub open spec fn stale_count(rs: Seq<RecordV>, opts: ReportOpts) -> nat
    decreases rs.len(),
{
    if rs.len() == 0 {
        0
    } else {
        stale_count(rs.drop_last(), opts)
            + if is_stale(age_of(opts, rs.len() - 1, rs.last()), opts.stale_secs) { 1nat } else { 0nat }
    }
}

/// The age of the record at position `i`.
fn age_at(opts: &ReportOpts, i: usize, r: &BinaryRecord) -> (a: Option<u64>)
    ensures
        a == age_of(*opts, i as int, r@),
{
    if r.status.is_missing() {
        None
    } else if i < opts.ages.len() {
        opts.ages[i]
    } else {
        None
    }
}

/// Whether an age is past the threshold.
fn stale(age: Option<u64>, stale_secs: Option<u64>) -> (r: bool)
    ensures
        r == is_stale(age, stale_secs),
{
    match (age, stale_secs) {
        (Some(a), Some(s)) => a > s,
        _ => false,
    }
}

/// Compute the summary counts for an inventory and a shadow set.
pub fn summarize(inv: &Inventory, shadows: &[Shadow], opts: &ReportOpts) -> (s: Summary)
    ensures
        s.binaries == on_disk_count(all_records(inv.sections@)),
        s.packages == distinct_count(owned_packages(all_records(inv.sections@))),
        s.orphans == filter_status(all_records(inv.sections@), true).len(),
        s.missing == filter_status(all_records(inv.sections@), false).len(),
        s.shadowed == shadows@.len(),
        s.stale == stale_count(all_records(inv.sections@), *opts),
{
    let all = inv.records();
    let ghost av = refs_view(all@);
    let mut s = Summary {
        binaries: 0,
        packages: inv.package_count(),
        orphans: 0,
        missing: 0,
        shadowed: shadows.len(),
        stale: 0,
    };
    let mut i: usize = 0;
    assert(av.take(0) =~= Seq::<RecordV>::empty());
    while i < all.len()
        invariant
            i <= all@.len(),
            av == refs_view(all@),
            av == all_records(inv.sections@),
            s.packages == distinct_count(owned_packages(av)),
            s.shadowed == shadows@.len(),
            s.binaries == on_disk_count(av.take(i as int)),
            s.orphans == filter_status(av.take(i as int), true).len(),
            s.missing == filter_status(av.take(i as int), false).len(),
            s.stale == stale_count(av.take(i as int), *opts),
            s.binaries <= i,
            s.orphans <= i,
            s.missing <= i,
            s.stale <= i,
        decreases all@.len() - i,
    {
        let r = all[i];
        let ghost t = av.take(i + 1);
        assert(t.drop_last() =~= av.take(i as int));
        assert(t.last() == r@);
        match r.status {
            BinStatus::Healthy => {
                s.binaries += 1;
            },
            BinStatus::Orphan(_) => {
                s.binaries += 1;
                s.orphans += 1;
            },
            BinStatus::Missing(_) => {
                s.missing += 1;
            },
        }
        if stale(age_at(opts, i, r), opts.stale_secs) {
            s.stale += 1;
        }
        i += 1;
    }
    assert(av.take(all@.len() as int) =~= av);
    s
}

/// The summary buckets partition the records: every record is on disk or
/// missing, never both; orphans and stale records are on disk.
pub proof fn lemma_summary_buckets(rs: Seq<RecordV>, opts: ReportOpts)
    ensures
        on_disk_count(rs) + filter_status(rs, false).len() == rs.len(),
        filter_status(rs, true).len() <= on_disk_count(rs),
        stale_count(rs, opts) <= on_disk_count(rs),
    decreases rs.len(),
{
    if rs.len() > 0 {
        lemma_summary_buckets(rs.drop_last(), opts);
    }
}

// ------------------------------------------------------------------
// Tables

/// `n` spaces.
pub open spec fn spaces(n: nat) -> Seq<char> {
    Seq::new(n, |_i: int| ' ')
}

/// The width of column `i`: its widest cell, in characters.
pub open spec fn col_width(rows: Seq<Seq<Seq<char>>>, i: int) -> nat
    decreases rows.len(),
{
    if rows.len() == 0 {
        0
    } else {
        let w = col_width(rows.drop_last(), i);
        let r = rows.last();
        if 0 <= i < r.len() && r[i].len() > w {
            r[i].len()
        } else {
            w
        }
    }
}

/// One cell of a table line: a space before the first cell (which
/// completes the two-space indent) or the two-space gutter before any
/// other, the cell, and padding to the column's width unless it is the
/// row's last cell.
pub open spec fn cell_text(row: Seq<Seq<char>>, rows: Seq<Seq<Seq<char>>>, i: int) -> Seq<char> {
    (if i == 0 { " "@ } else { "  "@ }) + row[i] + if i + 1 < row.len() {
        spaces((col_width(rows, i) - row[i].len()) as nat)
    } else {
        Seq::empty()
    }
}

/// The first `k` cells of a table line.
pub open spec fn cells_upto(row: Seq<Seq<char>>, rows: Seq<Seq<Seq<char>>>, k: int) -> Seq<char>
    decreases k,
{
    if k <= 0 {
        Seq::empty()
    } else {
        cells_upto(row, rows, k - 1) + cell_text(row, rows, k - 1)
    }
}

/// One line of a table, trailing whitespace trimmed.
pub open spec fn row_line(row: Seq<Seq<char>>, rows: Seq<Seq<Seq<char>>>) -> Seq<char> {
    trim_end(" "@ + cells_upto(row, rows, row.len() as int)) + "\n"@
}

/// The lines of the first `k` rows of a table.
pub open spec fn table_upto(rows: Seq<Seq<Seq<char>>>, k: int) -> Seq<char>
    decreases k,
{
    if k <= 0 {
        Seq::empty()
    } else {
        table_upto(rows, k - 1) + row_line(rows[k - 1], rows)
    }
}

/// Rows rendered as an aligned table with a two-space gutter.
pub open spec fn table_text(rows: Seq<Seq<Seq<char>>>) -> Seq<char> {
    table_upto(rows, rows.len() as int)
}

/// The texts of a list of rows.
pub open spec fn rows_view(rows: Seq<Vec<String>>) -> Seq<Seq<Seq<char>>> {
    rows.map_values(|r: Vec<String>| texts_of(r@))
}

/// The widths of the columns `0..n`.
fn col_widths(rows: &Vec<Vec<String>>, n: usize) -> (w: Vec<usize>)
    ensures
        w@.len() == n,
        forall|i: int| 0 <= i < n ==> w@[i] == col_width(rows_view(rows@), i),
{
    let ghost rv = rows_view(rows@);
    let mut w: Vec<usize> = Vec::new();
    while w.len() < n
        invariant
            w@.len() <= n,
            forall|i: int| 0 <= i < w@.len() ==> w@[i] == 0,
        decreases n - w@.len(),
    {
        w.push(0);
    }
    let mut q: usize = 0;
    assert(forall|i: int| col_width(rv.take(0), i) == 0);
    while q < rows.len()
        invariant
            q <= rows@.len(),
            rv == rows_view(rows@),
            w@.len() == n,
            forall|i: int| 0 <= i < n ==> w@[i] == col_width(rv.take(q as int), i),
        decreases rows@.len() - q,
    {
        let row = &rows[q];
        assert(rv.take(q + 1).drop_last() =~= rv.take(q as int));
        assert(rv.take(q + 1).last() == texts_of(row@));
        let mut j: usize = 0;
        while j < n
            invariant
                q < rows@.len(),
                row == &rows@[q as int],
                rv == rows_view(rows@),
                j <= n,
                w@.len() == n,
                forall|i: int| 0 <= i < j ==> w@[i] == col_width(rv.take(q + 1), i),
                forall|i: int| j <= i < n ==> w@[i] == col_width(rv.take(q as int), i),
                rv.take(q + 1).drop_last() == rv.take(q as int),
                rv.take(q + 1).last() == texts_of(row@),
            decreases n - j,
        {
            let ghost t = rv.take(q + 1);
            if j < row.len() {
                let c = chars_of(row[j].as_str()).len();
                assert(texts_of(row@)[j as int] == row@[j as int]@);
                if c > w[j] {
                    w.set(j, c);
                }
                assert(col_width(t, j as int) == w@[j as int]);
            } else {
                assert(col_width(t, j as int) == w@[j as int]);
            }
            j += 1;
        }
        q += 1;
    }
    assert(rv.take(rows@.len() as int) =~= rv);
    w
}

/// Render rows as an aligned table with a two-space gutter.
fn table(rows: &Vec<Vec<String>>) -> (out: String)
    ensures
        out@ == table_text(rows_view(rows@)),
{
    let ghost rv = rows_view(rows@);
    let mut cols: usize = 0;
    let mut q: usize = 0;
    while q < rows.len()
        invariant
            q <= rows@.len(),
            forall|k: int| 0 <= k < q ==> rows@[k]@.len() <= cols,
        decreases rows@.len() - q,
    {
        if rows[q].len() > cols {
            cols = rows[q].len();
        }
        q += 1;
    }
    let widths = col_widths(rows, cols);
    let mut out = String::new();
    let mut k: usize = 0;
    while k < rows.len()
        invariant
            k <= rows@.len(),
            rv == rows_view(rows@),
            forall|m: int| 0 <= m < rows@.len() ==> rows@[m]@.len() <= cols,
            widths@.len() == cols,
            forall|i: int| 0 <= i < cols ==> widths@[i] == col_width(rv, i),
            out@ == table_upto(rv, k as int),
        decreases rows@.len() - k,
    {
        let row = &rows[k];
        let ghost rt = texts_of(row@);
        assert(rv[k as int] == rt);
        let mut line = owned(" ");
        let mut i: usize = 0;
        while i < row.len()
            invariant
                k < rows@.len(),
                row == &rows@[k as int],
                rt == texts_of(row@),
                rv.len() == rows@.len(),
                rv[k as int] == rt,
                i <= row@.len() <= cols,
                widths@.len() == cols,
                forall|c: int| 0 <= c < cols ==> widths@[c] == col_width(rv, c),
                line@ == " "@ + cells_upto(rt, rv, i as int),
            decreases row@.len() - i,
        {
            let ghost before = line@;
            push_char(&mut line, ' ');
            if i > 0 {
                push_char(&mut line, ' ');
            }
            push_all(&mut line, row[i].as_str());
            assert(rt[i as int] == row@[i as int]@);
            proof {
                reveal_strlit(" ");
                reveal_strlit("  ");
            }
            assert(line@ =~= before + (if i == 0 { " "@ } else { "  "@ }) + rt[i as int]);
            if i + 1 < row.len() {
                let c = chars_of(row[i].as_str()).len();
                proof {
                    lemma_col_width_bound(rv, k as int, i as int);
                }
                let mut p = c;
                let ghost mid = line@;
                while p < widths[i]
                    invariant
                        c <= p <= widths@[i as int],
                        i < widths@.len(),
                        line@ == mid + spaces((p - c) as nat),
                    decreases widths@[i as int] - p,
                {
                    push_char(&mut line, ' ');
                    p += 1;
                    assert(line@ =~= mid + spaces((p - c) as nat));
                }
                assert(line@ == mid + spaces((col_width(rv, i as int) - rt[i as int].len()) as nat));
            }
            assert(line@ =~= before + cell_text(rt, rv, i as int));
            i += 1;
        }
        let trimmed = trim_end_of(line.as_str());
        push_all(&mut out, trimmed.as_str());
        push_all(&mut out, "\n");
        proof {
            reveal_strlit("\n");
        }
        assert(out@ =~= table_upto(rv, k + 1));
        k += 1;
    }
    out
}

/// A cell is never wider than its column.
proof fn lemma_col_width_bound(rows: Seq<Seq<Seq<char>>>, k: int, i: int)
    requires
        0 <= k < rows.len(),
        0 <= i < rows[k].len(),
    ensures
        rows[k][i].len() <= col_width(rows, i),
    decreases rows.len(),
{
    if k < rows.len() - 1 {
        lemma_col_width_bound(rows.drop_last(), k, i);
    }
}

// ------------------------------------------------------------------
// The human report

/// An ecosystem label left-aligned in five columns (`{:5}`).
pub open spec fn label5(e: Ecosystem) -> Seq<char> {
    eco_label(e) + spaces((5 - eco_label(e).len()) as nat)
}

pub fn label_padded(e: Ecosystem) -> (r: &'static str)
    ensures
        r@ == label5(e),
{
    proof {
        reveal_strlit("cargo");
        reveal_strlit("go");
        reveal_strlit("pipx");
        reveal_strlit("npm");
    }
    match e {
        Ecosystem::Cargo => {
            proof { reveal_strlit("cargo"); }
            assert("cargo"@ =~= label5(e));
            "cargo"
        },
        Ecosystem::Go => {
            proof { reveal_strlit("go   "); }
            assert("go   "@ =~= label5(e));
            "go   "
        },
        Ecosystem::Pipx => {
            proof { reveal_strlit("pipx "); }
            assert("pipx "@ =~= label5(e));
            "pipx "
        },
        Ecosystem::Npm => {
            proof { reveal_strlit("npm  "); }
            assert("npm  "@ =~= label5(e));
            "npm  "
        },
    }
}

/// The packages of the records that are not orphans, in order.
pub open spec fn section_packages(rs: Seq<RecordV>) -> Seq<Seq<char>>
    decreases rs.len(),
{
    if rs.len() == 0 {
        Seq::empty()
    } else {
        let p = section_packages(rs.drop_last());
        if rs.last().status is Orphan {
            p
        } else {
            p.push(rs.last().package)
        }
    }
}

/// Number of distinct packages among the records that are not orphans.
fn section_package_count(records: &Vec<BinaryRecord>) -> (n: usize)
    ensures
        n == distinct_count(section_packages(records_view(records@))),
{
    let ghost rv = records_view(records@);
    let mut seen: Vec<&str> = Vec::new();
    let mut n: usize = 0;
    let mut i: usize = 0;
    assert(rv.take(0) =~= Seq::<RecordV>::empty());
    while i < records.len()
        invariant
            i <= records@.len(),
            rv == records_view(records@),
            seen@.map_values(|p: &str| p@) == section_packages(rv.take(i as int)),
            n == distinct_count(section_packages(rv.take(i as int))),
            n <= i,
        decreases records@.len() - i,
    {
        let r = &records[i];
        assert(rv.take(i + 1).drop_last() =~= rv.take(i as int));
        assert(rv.take(i + 1).last() == r@);
        if !r.status.is_orphan() {
            let ghost sv = seen@.map_values(|p: &str| p@);
            let mut found = false;
            let mut k: usize = 0;
            while k < seen.len()
                invariant
                    k <= seen@.len(),
                    sv == seen@.map_values(|p: &str| p@),
                    found == exists|j: int| 0 <= j < k && sv[j] == r.package@,
                decreases seen@.len() - k,
            {
                if str_eq(seen[k], r.package.as_str()) {
                    found = true;
                }
                assert(sv[k as int] == seen@[k as int]@);
                k += 1;
            }
            proof {
                if found {
                    let j = choose|j: int| 0 <= j < seen@.len() && sv[j] == r.package@;
                    assert(sv.contains(r.package@));
                } else {
                    assert(!sv.contains(r.package@));
                }
            }
            if !found {
                n += 1;
            }
            let ghost before = seen@;
            seen.push(r.package.as_str());
            assert(seen@.map_values(|p: &str| p@) =~= before.map_values(|p: &str| p@).push(r.package@));
            assert(section_packages(rv.take(i + 1)).drop_last() =~= section_packages(rv.take(i as int)));
        }
        i += 1;
    }
    assert(rv.take(records@.len() as int) =~= rv);
    n
}

/// The header line of one ecosystem's table.
pub open spec fn section_header(s: Section) -> Seq<char> {
    eco_label(s.ecosystem) + " · "@ + s.bin_dir@ + " — "@
        + count_text(s.records@.len(), "binary"@, "binaries"@) + ", "@
        + count_text(distinct_count(section_packages(records_view(s.records@))), "package"@, "packages"@)
        + "\n"@
}

fn section_header_text(s: &Section) -> (r: String)
    ensures
        r@ == section_header(*s),
{
    let mut out = owned(s.ecosystem.label());
    push_all(&mut out, " · ");
    push_all(&mut out, s.bin_dir.as_str());
    push_all(&mut out, " — ");
    let b = count(s.records.len(), "binary", "binaries");
    push_all(&mut out, b.as_str());
    push_all(&mut out, ", ");
    let p = count(section_package_count(&s.records), "package", "packages");
    push_all(&mut out, p.as_str());
    push_all(&mut out, "\n");
    out
}

/// The AGE cell: the formatted age, or `-` when unknown.
pub open spec fn age_cell(a: Option<u64>) -> Seq<char> {
    match a {
        Some(x) => age_text(x as nat),
        None => "-"@,
    }
}

/// The STATUS cell: the status code, marked when stale.
pub open spec fn status_cell(s: StatusV, stale: bool) -> Seq<char> {
    if stale {
        status_code(s) + ", stale"@
    } else {
        status_code(s)
    }
}

/// The table row of the record at position `g` of the inventory.
pub open spec fn record_row(opts: ReportOpts, g: int, r: RecordV) -> Seq<Seq<char>> {
    let a = age_of(opts, g, r);
    seq![r.name, r.package, r.version, r.origin, age_cell(a), status_cell(r.status, is_stale(a, opts.stale_secs))]
}

/// The column titles.
pub open spec fn header_row() -> Seq<Seq<char>> {
    seq!["NAME"@, "PACKAGE"@, "VERSION"@, "ORIGIN"@, "AGE"@, "STATUS"@]
}

/// The rows of one section's table, whose records start at position `off`.
pub open spec fn section_rows(opts: ReportOpts, off: int, rs: Seq<RecordV>) -> Seq<Seq<Seq<char>>> {
    seq![header_row()] + Seq::new(rs.len(), |j: int| record_row(opts, off + j, rs[j]))
}

/// One section of the report: header line, table, blank line.
pub open spec fn section_block(secs: Seq<Section>, k: int, opts: ReportOpts) -> Seq<char> {
    section_header(secs[k])
        + table_text(section_rows(opts, all_records(secs.take(k)).len() as int, records_view(secs[k].records@)))
        + "\n"@
}

/// The first `n` sections of the report.
pub open spec fn sections_upto(secs: Seq<Section>, n: int, opts: ReportOpts) -> Seq<char>
    decreases n,
{
    if n <= 0 {
        Seq::empty()
    } else {
        sections_upto(secs, n - 1, opts) + section_block(secs, n - 1, opts)
    }
}

/// A row of strings from six texts.
fn row6(a: String, b: String, c: String, d: String, e: String, f: String) -> (r: Vec<String>)
    ensures
        texts_of(r@) == seq![a@, b@, c@, d@, e@, f@],
{
    let mut r: Vec<String> = Vec::new();
    r.push(a);
    r.push(b);
    r.push(c);
    r.push(d);
    r.push(e);
    r.push(f);
    assert(texts_of(r@) =~= seq![a@, b@, c@, d@, e@, f@]);
    r
}

/// The table row of one record at position `g`.
fn record_row_of(opts: &ReportOpts, g: usize, r: &BinaryRecord) -> (row: Vec<String>)
    ensures
        texts_of(row@) == record_row(*opts, g as int, r@),
{
    let age = age_at(opts, g, r);
    let age_text = match age {
        Some(a) => format_age(a),
        None => owned("-"),
    };
    let mut status = owned(r.status.code());
    if stale(age, opts.stale_secs) {
        push_all(&mut status, ", stale");
    }
    row6(r.name.clone(), r.package.clone(), r.version.clone(), r.origin.clone(), age_text, status)
}

/// A section of records all of whose positions fit in `usize`.
fn section_text(s: &Section, off: usize, opts: &ReportOpts, Ghost(secs): Ghost<Seq<Section>>, Ghost(k): Ghost<int>) -> (r: String)
    requires
        0 <= k < secs.len(),
        secs[k] == *s,
        off == all_records(secs.take(k)).len(),
        off + s.records@.len() <= usize::MAX,
    ensures
        r@ == section_block(secs, k, *opts),
{
    let ghost rs = records_view(s.records@);
    let mut rows: Vec<Vec<String>> = Vec::new();
    rows.push(row6(owned("NAME"), owned("PACKAGE"), owned("VERSION"), owned("ORIGIN"), owned("AGE"), owned("STATUS")));
    let ghost want = section_rows(*opts, off as int, rs);
    proof {
        reveal_strlit("NAME");
        reveal_strlit("PACKAGE");
        reveal_strlit("VERSION");
        reveal_strlit("ORIGIN");
        reveal_strlit("AGE");
        reveal_strlit("STATUS");
    }
    assert(rows_view(rows@) =~= want.take(1));
    let mut j: usize = 0;
    while j < s.records.len()
        invariant
            j <= s.records@.len(),
            off + s.records@.len() <= usize::MAX,
            rs == records_view(s.records@),
            want == section_rows(*opts, off as int, rs),
            rows_view(rows@) == want.take(j + 1),
        decreases s.records@.len() - j,
    {
        let row = record_row_of(opts, off + j, &s.records[j]);
        let ghost before = rows@;
        rows.push(row);
        assert(rows_view(rows@) =~= rows_view(before).push(want[j + 1]));
        assert(want.take(j + 2) =~= want.take(j + 1).push(want[j + 1]));
        j += 1;
    }
    assert(want.take(s.records@.len() as int + 1) =~= want);
    let mut out = section_header_text(s);
    let t = table(&rows);
    push_all(&mut out, t.as_str());
    push_all(&mut out, "\n");
    out
}

/// The records of a prefix of the sections come first among all records.
proof fn lemma_records_prefix(secs: Seq<Section>, k: int)
    requires
        0 <= k < secs.len(),
    ensures
        all_records(secs.take(k + 1)) == all_records(secs.take(k)) + records_view(secs[k].records@),
        all_records(secs.take(k + 1)).len() <= all_records(secs).len(),
    decreases secs.len(),
{
    assert(secs.take(k + 1).drop_last() =~= secs.take(k));
    if k + 1 < secs.len() {
        lemma_records_prefix(secs.drop_last(), k);
        assert(secs.drop_last().take(k + 1) =~= secs.take(k + 1));
    } else {
        assert(secs.take(k + 1) =~= secs);
    }
}

/// One line per record, in order.
pub open spec fn lines_of(rs: Seq<RecordV>, f: spec_fn(RecordV) -> Seq<char>) -> Seq<char>
    decreases rs.len(),
{
    if rs.len() == 0 {
        Seq::empty()
    } else {
        lines_of(rs.drop_last(), f) + f(rs.last())
    }
}

/// An orphan's line: ecosystem, path, reason.
pub open spec fn orphan_line(r: RecordV) -> Seq<char> {
    "  "@ + label5(r.ecosystem) + " "@ + r.path + " — "@ + status_detail(r.status) + "\n"@
}

/// A missing record's line: ecosystem, name, reason.
pub open spec fn missing_line(r: RecordV) -> Seq<char> {
    "  "@ + label5(r.ecosystem) + " "@ + r.name + " — "@ + status_detail(r.status) + "\n"@
}

/// A titled list of records, or nothing when there are none.
pub open spec fn listing_block(title: Seq<char>, rs: Seq<RecordV>, f: spec_fn(RecordV) -> Seq<char>) -> Seq<char> {
    if rs.len() == 0 {
        Seq::empty()
    } else {
        title + " ("@ + dec(rs.len()) + ")\n"@ + lines_of(rs, f) + "\n"@
    }
}

/// The orphan or missing section of the human report.
fn listing_text(title: &str, rs: &Vec<&BinaryRecord>, by_path: bool) -> (r: String)
    ensures
        r@ == listing_block(title@, refs_view(rs@), if by_path { |r: RecordV| orphan_line(r) } else { |r: RecordV| missing_line(r) }),
{
    let ghost f = if by_path { |r: RecordV| orphan_line(r) } else { |r: RecordV| missing_line(r) };
    let ghost rv = refs_view(rs@);
    let mut out = String::new();
    if rs.len() == 0 {
        return out;
    }
    push_all(&mut out, title);
    push_all(&mut out, " (");
    push_u64(&mut out, rs.len() as u64);
    push_all(&mut out, ")\n");
    let ghost head = out@;
    let mut i: usize = 0;
    assert(rv.take(0) =~= Seq::<RecordV>::empty());
    assert(out@ =~= head + lines_of(rv.take(0), f));
    while i < rs.len()
        invariant
            i <= rs@.len(),
            rv == refs_view(rs@),
            f == (if by_path { |r: RecordV| orphan_line(r) } else { |r: RecordV| missing_line(r) }),
            out@ == head + lines_of(rv.take(i as int), f),
        decreases rs@.len() - i,
    {
        let r = rs[i];
        assert(rv.take(i + 1).drop_last() =~= rv.take(i as int));
        assert(rv.take(i + 1).last() == r@);
        let ghost before = out@;
        push_all(&mut out, "  ");
        push_all(&mut out, label_padded(r.ecosystem));
        push_all(&mut out, " ");
        if by_path {
            push_all(&mut out, r.path.as_str());
        } else {
            push_all(&mut out, r.name.as_str());
        }
        push_all(&mut out, " — ");
        push_all(&mut out, r.status.detail());
        push_all(&mut out, "\n");
        assert(out@ =~= before + f(r@));
        i += 1;
    }
    assert(rv.take(rs@.len() as int) =~= rv);
    push_all(&mut out, "\n");
    out
}

/// A shadow's line: name, winner, the shadowed paths.
pub open spec fn shadow_line(s: Shadow) -> Seq<char> {
    "  "@ + s.name@ + ": "@ + s.entries@[0]@ + " wins; shadowed: "@
        + join_with(texts_of(s.entries@).skip(1), ", "@) + "\n"@
}

/// The lines of the first `n` shadows.
pub open spec fn shadow_lines(shs: Seq<Shadow>, n: int) -> Seq<char>
    decreases n,
{
    if n <= 0 {
        Seq::empty()
    } else {
        shadow_lines(shs, n - 1) + shadow_line(shs[n - 1])
    }
}

/// The shadow section of the human report, or nothing when there are none.
pub open spec fn shadows_block(shs: Seq<Shadow>) -> Seq<char> {
    if shs.len() == 0 {
        Seq::empty()
    } else {
        "shadows ("@ + dec(shs.len()) + ")\n"@ + shadow_lines(shs, shs.len() as int) + "\n"@
    }
}

/// Every shadow names at least a winner.
pub open spec fn shadows_nonempty(shs: Seq<Shadow>) -> bool {
    forall|i: int| 0 <= i < shs.len() ==> (#[trigger] shs[i]).entries@.len() >= 1
}

/// `parts[from..]` joined with `sep`, appended to `out`.
fn push_joined(out: &mut String, parts: &Vec<String>, from: usize, sep: &str)
    requires
        from <= parts@.len(),
    ensures
        final(out)@ == old(out)@ + join_with(texts_of(parts@).skip(from as int), sep@),
{
    let ghost tv = texts_of(parts@).skip(from as int);
    let ghost start = out@;
    let mut i: usize = from;
    assert(tv.take(0) =~= Seq::<Seq<char>>::empty());
    while i < parts.len()
        invariant
            from <= i <= parts@.len(),
            tv == texts_of(parts@).skip(from as int),
            out@ == start + join_with(tv.take(i - from), sep@),
        decreases parts@.len() - i,
    {
        let ghost t = tv.take(i - from + 1);
        assert(t.drop_last() =~= tv.take(i - from));
        assert(t.last() == parts@[i as int]@);
        if i > from {
            push_all(out, sep);
        } else {
            assert(t =~= seq![parts@[i as int]@]);
        }
        push_all(out, parts[i].as_str());
        i += 1;
    }
    assert(tv.take(parts@.len() - from) =~= tv);
}

/// The shadow section of the human report.
fn shadows_text(shs: &[Shadow]) -> (r: String)
    requires
        shadows_nonempty(shs@),
    ensures
        r@ == shadows_block(shs@),
{
    let mut out = String::new();
    if shs.len() == 0 {
        return out;
    }
    push_all(&mut out, "shadows (");
    push_u64(&mut out, shs.len() as u64);
    push_all(&mut out, ")\n");
    let ghost head = out@;
    let mut i: usize = 0;
    while i < shs.len()
        invariant
            i <= shs@.len(),
            shadows_nonempty(shs@),
            out@ == head + shadow_lines(shs@, i as int),
        decreases shs@.len() - i,
    {
        let sh = &shs[i];
        assert(sh.entries@.len() >= 1);
        let ghost before = out@;
        push_all(&mut out, "  ");
        push_all(&mut out, sh.name.as_str());
        push_all(&mut out, ": ");
        push_all(&mut out, sh.winner().as_str());
        push_all(&mut out, " wins; shadowed: ");
        push_joined(&mut out, &sh.entries, 1, ", ");
        push_all(&mut out, "\n");
        assert(out@ =~= before + shadow_line(*sh));
        i += 1;
    }
    push_all(&mut out, "\n");
    out
}

/// The summary line of the human report.
pub open spec fn summary_line(s: Summary) -> Seq<char> {
    "summary: "@ + count_text(s.binaries as nat, "binary"@, "binaries"@)
        + " · "@ + count_text(s.packages as nat, "package"@, "packages"@)
        + " · "@ + count_text(s.orphans as nat, "orphan"@, "orphans"@)
        + " · "@ + dec(s.missing as nat) + " missing · "@
        + count_text(s.shadowed as nat, "shadowed name"@, "shadowed names"@)
        + " · "@ + dec(s.stale as nat) + " stale\n"@
}

fn summary_text(s: &Summary) -> (r: String)
    ensures
        r@ == summary_line(*s),
{
    let mut out = owned("summary: ");
    push_all(&mut out, count(s.binaries, "binary", "binaries").as_str());
    push_all(&mut out, " · ");
    push_all(&mut out, count(s.packages, "package", "packages").as_str());
    push_all(&mut out, " · ");
    push_all(&mut out, count(s.orphans, "orphan", "orphans").as_str());
    push_all(&mut out, " · ");
    push_u64(&mut out, s.missing as u64);
    push_all(&mut out, " missing · ");
    push_all(&mut out, count(s.shadowed, "shadowed name", "shadowed names").as_str());
    push_all(&mut out, " · ");
    push_u64(&mut out, s.stale as u64);
    push_all(&mut out, " stale\n");
    out
}

/// The summary of an inventory and shadow set, as the counts it holds.
pub open spec fn summary_of(secs: Seq<Section>, n_shadows: nat, opts: ReportOpts) -> Summary {
    let rs = all_records(secs);
    Summary {
        binaries: on_disk_count(rs) as usize,
        packages: distinct_count(owned_packages(rs)) as usize,
        orphans: filter_status(rs, true).len() as usize,
        missing: filter_status(rs, false).len() as usize,
        shadowed: n_shadows as usize,
        stale: stale_count(rs, opts) as usize,
    }
}

/// The text printed when no install root was found.
pub open spec fn nothing_to_scan() -> Seq<char> {
    "nothing to scan: no cargo, go, pipx or npm install roots found\n"@
}

/// The whole human report.
pub open spec fn human_text(secs: Seq<Section>, shs: Seq<Shadow>, opts: ReportOpts) -> Seq<char> {
    let rs = all_records(secs);
    (if secs.len() == 0 { nothing_to_scan() } else { Seq::empty() })
        + sections_upto(secs, secs.len() as int, opts)
        + listing_block("orphans"@, filter_status(rs, true), |r: RecordV| orphan_line(r))
        + listing_block("missing"@, filter_status(rs, false), |r: RecordV| missing_line(r))
        + shadows_block(shs)
        + summary_line(summary_of(secs, shs.len(), opts))
}

/// The full human report: one table per ecosystem, then orphan, missing
/// and shadow sections, then the summary line.
pub fn render_human(inv: &Inventory, shadows: &[Shadow], opts: &ReportOpts) -> (r: String)
    requires
        shadows_nonempty(shadows@),
    ensures
        r@ == human_text(inv.sections@, shadows@, *opts),
{
    let all = inv.records();
    let ghost secs = inv.sections@;
    let mut out = String::new();
    if inv.sections.len() == 0 {
        push_all(&mut out, "nothing to scan: no cargo, go, pipx or npm install roots found\n");
    }
    let ghost head = out@;
    let total = all.len();
    let mut g: usize = 0;
    let mut k: usize = 0;
    assert(secs.take(0) =~= Seq::<Section>::empty());
    while k < inv.sections.len()
        invariant
            k <= secs.len(),
            secs == inv.sections@,
            refs_view(all@) == all_records(secs),
            g == all_records(secs.take(k as int)).len(),
            g <= all@.len(),
            total == all@.len(),
            out@ == head + sections_upto(secs, k as int, *opts),
        decreases secs.len() - k,
    {
        proof {
            lemma_records_prefix(secs, k as int);
            assert(refs_view(all@).len() == all@.len());
            assert(records_view(secs[k as int].records@).len() == secs[k as int].records@.len());
            assert(g + secs[k as int].records@.len() == all_records(secs.take(k + 1)).len());
        }
        let block = section_text(&inv.sections[k], g, opts, Ghost(secs), Ghost(k as int));
        push_all(&mut out, block.as_str());
        g = g + inv.sections[k].records.len();
        k += 1;
    }
    let orphans = inv.orphans();
    let missing = inv.missing();
    let o = listing_text("orphans", &orphans, true);
    push_all(&mut out, o.as_str());
    let m = listing_text("missing", &missing, false);
    push_all(&mut out, m.as_str());
    let sh = shadows_text(shadows);
    push_all(&mut out, sh.as_str());
    let s = summarize(inv, shadows, opts);
    let line = summary_text(&s);
    push_all(&mut out, line.as_str());
    proof {
        reveal_strlit("nothing to scan: no cargo, go, pipx or npm install roots found\n");
    }
    assert(out@ =~= human_text(secs, shadows@, *opts));
    out
}

// ------------------------------------------------------------------
// The JSON report

/// The version of binsweep that writes the reports.
pub const VERSION: &'static str = "0.1.0";

/// The `age_days` value: whole days, or `null` when the age is unknown.
pub open spec fn age_layout(a: Option<u64>) -> Layout {
    match a {
        Some(x) => Layout::Digits(dec((x / 86_400) as nat)),
        None => Layout::Null,
    }
}

/// The keys of a record's object, in the order they are written.
pub open spec fn binary_keys() -> Seq<Seq<char>> {
    seq!["name"@, "path"@, "ecosystem"@, "package"@, "version"@, "origin"@, "status"@, "detail"@, "age_days"@, "stale"@]
}

/// The values of the object of the record at position `g`.
pub open spec fn binary_vals(opts: ReportOpts, g: int, r: RecordV) -> Seq<Layout> {
    let a = age_of(opts, g, r);
    seq![
        Layout::Text(r.name),
        Layout::Text(r.path),
        Layout::Text(eco_label(r.ecosystem)),
        Layout::Text(r.package),
        Layout::Text(r.version),
        Layout::Text(r.origin),
        Layout::Text(status_code(r.status)),
        Layout::Text(status_detail(r.status)),
        age_layout(a),
        Layout::Bool(is_stale(a, opts.stale_secs)),
    ]
}

/// The object of the record at position `g`: its members on one line.
pub open spec fn binary_layout(opts: ReportOpts, g: int, r: RecordV) -> Layout {
    Layout::Record(binary_keys(), binary_vals(opts, g, r), Seq::empty(), seq![' '], Seq::empty())
}

/// The keys of a shadow's object.
pub open spec fn shadow_keys() -> Seq<Seq<char>> {
    seq!["name"@, "winner"@, "shadowed"@]
}

/// The shadowed paths of a shadow, on one line.
pub open spec fn losers_layout(s: Shadow) -> Layout {
    let ps = texts_of(s.entries@).skip(1);
    Layout::List(Seq::new(ps.len(), |i: int| Layout::Text(ps[i])), Seq::empty(), seq![' '], Seq::empty())
}

/// The object of a shadow: name, winner, shadowed paths.
pub open spec fn shadow_layout(s: Shadow) -> Layout {
    Layout::Record(
        shadow_keys(),
        seq![Layout::Text(s.name@), Layout::Text(s.entries@[0]@), losers_layout(s)],
        Seq::empty(),
        seq![' '],
        Seq::empty(),
    )
}

/// The keys of the summary object.
pub open spec fn summary_keys() -> Seq<Seq<char>> {
    seq!["binaries"@, "packages"@, "orphans"@, "missing"@, "shadowed"@, "stale"@]
}

/// The summary object.
pub open spec fn summary_layout(s: Summary) -> Layout {
    Layout::Record(
        summary_keys(),
        seq![
            Layout::Digits(dec(s.binaries as nat)),
            Layout::Digits(dec(s.packages as nat)),
            Layout::Digits(dec(s.orphans as nat)),
            Layout::Digits(dec(s.missing as nat)),
            Layout::Digits(dec(s.shadowed as nat)),
            Layout::Digits(dec(s.stale as nat)),
        ],
        Seq::empty(),
        seq![' '],
        Seq::empty(),
    )
}

/// The whitespace before each element of the report's arrays.
pub open spec fn item_ws() -> Seq<char> {
    seq!['\n', ' ', ' ', ' ', ' ']
}

/// The whitespace before each member of the report, and before the
/// closing bracket of its arrays.
pub open spec fn member_ws() -> Seq<char> {
    seq!['\n', ' ', ' ']
}

/// The array of record objects, one per line.
pub open spec fn binaries_layout(rs: Seq<RecordV>, opts: ReportOpts) -> Layout {
    Layout::List(Seq::new(rs.len(), |g: int| binary_layout(opts, g, rs[g])), item_ws(), item_ws(), member_ws())
}

/// The array of shadow objects, one per line.
pub open spec fn shadows_layout(shs: Seq<Shadow>) -> Layout {
    Layout::List(Seq::new(shs.len(), |i: int| shadow_layout(shs[i])), item_ws(), item_ws(), member_ws())
}

/// The keys of the report object.
pub open spec fn report_keys() -> Seq<Seq<char>> {
    seq!["binsweep"@, "binaries"@, "shadows"@, "summary"@]
}

/// The values of the report object.
pub open spec fn report_vals(secs: Seq<Section>, shs: Seq<Shadow>, opts: ReportOpts) -> Seq<Layout> {
    seq![
        Layout::Text(VERSION@),
        binaries_layout(all_records(secs), opts),
        shadows_layout(shs),
        summary_layout(summary_of(secs, shs.len(), opts)),
    ]
}

/// The report object, one member per line.
pub open spec fn report_layout(secs: Seq<Section>, shs: Seq<Shadow>, opts: ReportOpts) -> Layout {
    Layout::Record(report_keys(), report_vals(secs, shs, opts), member_ws(), member_ws(), seq!['\n'])
}

/// The whole JSON report: the report object and a final newline.
pub open spec fn json_text(secs: Seq<Section>, shs: Seq<Shadow>, opts: ReportOpts) -> Seq<char> {
    layout_text(report_layout(secs, shs, opts)) + seq!['\n']
}

/// `t` as a JSON string literal.
fn quoted_string(t: &str) -> (r: String)
    ensures
        r@ == literal(t@),
        r@ == layout_text(Layout::Text(t@)),
{
    let mut out = owned("\"");
    let e = escape(t);
    push_all(&mut out, e.as_str());
    push_all(&mut out, "\"");
    proof {
        reveal_strlit("\"");
    }
    assert(out@ =~= literal(t@));
    out
}

/// Appends member `k` of a record: the separator `pre`, the key, and the
/// value already written as `v`.
fn push_member(
    out: &mut String,
    pre: &str,
    key: &str,
    v: &str,
    Ghost(head): Ghost<Seq<char>>,
    Ghost(keys): Ghost<Seq<Seq<char>>>,
    Ghost(vals): Ghost<Seq<Layout>>,
    Ghost(o): Ghost<Seq<char>>,
    Ghost(sp): Ghost<Seq<char>>,
    Ghost(k): Ghost<int>,
)
    requires
        0 <= k < vals.len(),
        keys[k] == key@,
        layout_text(vals[k]) == v@,
        pre@ == (if k == 0 { o } else { seq![','] + sp }),
        old(out)@ == head + record_prefix(keys, vals, o, sp, k),
    ensures
        final(out)@ == head + record_prefix(keys, vals, o, sp, k + 1),
{
    push_all(out, pre);
    let q = quoted_string(key);
    push_all(out, q.as_str());
    push_all(out, ": ");
    push_all(out, v);
    proof {
        reveal_strlit(": ");
        lemma_record_step(keys, vals, o, sp, k);
    }
    assert(final(out)@ =~= head + record_prefix(keys, vals, o, sp, k + 1));
}

/// The rendering of `age_days`.
fn age_text_of(a: Option<u64>) -> (r: String)
    ensures
        r@ == layout_text(age_layout(a)),
{
    match a {
        Some(x) => u64_to_string(x / 86_400),
        None => {
            proof {
                reveal_strlit("null");
            }
            let r = owned("null");
            assert(r@ =~= layout_text(age_layout(a)));
            r
        },
    }
}

/// The rendering of a boolean.
fn bool_text_of(b: bool) -> (r: &'static str)
    ensures
        r@ == layout_text(Layout::Bool(b)),
{
    proof {
        reveal_strlit("true");
        reveal_strlit("false");
    }
    if b {
        assert("true"@ =~= layout_text(Layout::Bool(b)));
        "true"
    } else {
        assert("false"@ =~= layout_text(Layout::Bool(b)));
        "false"
    }
}

/// Appends the object of the record at position `g`.
fn push_binary(out: &mut String, opts: &ReportOpts, g: usize, r: &BinaryRecord)
    ensures
        final(out)@ == old(out)@ + layout_text(binary_layout(*opts, g as int, r@)),
{
    let ghost keys = binary_keys();
    let ghost vals = binary_vals(*opts, g as int, r@);
    let ghost o = Seq::<char>::empty();
    let ghost sp = seq![' '];
    proof {
        reveal_strlit("");
        reveal_strlit(", ");
        reveal_strlit("{");
        reveal_strlit("}");
    }
    assert(""@ =~= o);
    assert(", "@ =~= seq![','] + sp);
    let ghost start = out@;
    push_all(out, "{");
    let ghost head = start + seq!['{'];
    assert(out@ =~= head + record_prefix(keys, vals, o, sp, 0));
    let age = age_at(opts, g, r);
    push_member(out, "", "name", quoted_string(r.name.as_str()).as_str(), Ghost(head), Ghost(keys), Ghost(vals), Ghost(o), Ghost(sp), Ghost(0));
    push_member(out, ", ", "path", quoted_string(r.path.as_str()).as_str(), Ghost(head), Ghost(keys), Ghost(vals), Ghost(o), Ghost(sp), Ghost(1));
    push_member(out, ", ", "ecosystem", quoted_string(r.ecosystem.label()).as_str(), Ghost(head), Ghost(keys), Ghost(vals), Ghost(o), Ghost(sp), Ghost(2));
    push_member(out, ", ", "package", quoted_string(r.package.as_str()).as_str(), Ghost(head), Ghost(keys), Ghost(vals), Ghost(o), Ghost(sp), Ghost(3));
    push_member(out, ", ", "version", quoted_string(r.version.as_str()).as_str(), Ghost(head), Ghost(keys), Ghost(vals), Ghost(o), Ghost(sp), Ghost(4));
    push_member(out, ", ", "origin", quoted_string(r.origin.as_str()).as_str(), Ghost(head), Ghost(keys), Ghost(vals), Ghost(o), Ghost(sp), Ghost(5));
    push_member(out, ", ", "status", quoted_string(r.status.code()).as_str(), Ghost(head), Ghost(keys), Ghost(vals), Ghost(o), Ghost(sp), Ghost(6));
    push_member(out, ", ", "detail", quoted_string(r.status.detail()).as_str(), Ghost(head), Ghost(keys), Ghost(vals), Ghost(o), Ghost(sp), Ghost(7));
    push_member(out, ", ", "age_days", age_text_of(age).as_str(), Ghost(head), Ghost(keys), Ghost(vals), Ghost(o), Ghost(sp), Ghost(8));
    push_member(out, ", ", "stale", bool_text_of(stale(age, opts.stale_secs)), Ghost(head), Ghost(keys), Ghost(vals), Ghost(o), Ghost(sp), Ghost(9));
    push_all(out, "}");
    proof {
        lemma_record_whole(keys, vals, o, sp, Seq::empty());
    }
    assert(final(out)@ =~= start + layout_text(binary_layout(*opts, g as int, r@)));
}

/// The array of record objects.
fn binaries_text(all: &Vec<&BinaryRecord>, opts: &ReportOpts) -> (r: String)
    ensures
        r@ == layout_text(binaries_layout(refs_view(all@), *opts)),
{
    let ghost rs = refs_view(all@);
    let ghost items = Seq::new(rs.len(), |g: int| binary_layout(*opts, g, rs[g]));
    let ghost w = item_ws();
    proof {
        reveal_strlit("\n    ");
        reveal_strlit(",\n    ");
        reveal_strlit("\n  ");
        reveal_strlit("[");
        reveal_strlit("]");
    }
    assert("\n    "@ =~= w);
    assert(",\n    "@ =~= seq![','] + w);
    let mut out = owned("[");
    let mut i: usize = 0;
    assert(out@ =~= seq!['['] + list_prefix(items, w, w, 0));
    while i < all.len()
        invariant
            i <= all@.len(),
            rs == refs_view(all@),
            items == Seq::new(rs.len(), |g: int| binary_layout(*opts, g, rs[g])),
            w == item_ws(),
            "\n    "@ == w,
            ",\n    "@ == seq![','] + w,
            out@ == seq!['['] + list_prefix(items, w, w, i as int),
        decreases all@.len() - i,
    {
        if i == 0 {
            push_all(&mut out, "\n    ");
        } else {
            push_all(&mut out, ",\n    ");
        }
        assert(rs[i as int] == all@[i as int]@);
        push_binary(&mut out, opts, i, all[i]);
        proof {
            lemma_list_step(items, w, w, i as int);
        }
        assert(out@ =~= seq!['['] + list_prefix(items, w, w, i + 1));
        i += 1;
    }
    if all.len() > 0 {
        push_all(&mut out, "\n  ");
    }
    push_all(&mut out, "]");
    proof {
        lemma_list_whole(items, w, w, member_ws());
    }
    assert(out@ =~= layout_text(binaries_layout(rs, *opts)));
    out
}

/// Appends the object of one shadow.
fn push_shadow(out: &mut String, sh: &Shadow)
    requires
        sh.entries@.len() >= 1,
    ensures
        final(out)@ == old(out)@ + layout_text(shadow_layout(*sh)),
{
    let ghost keys = shadow_keys();
    let ghost vals = seq![Layout::Text(sh.name@), Layout::Text(sh.entries@[0]@), losers_layout(*sh)];
    let ghost o = Seq::<char>::empty();
    let ghost sp = seq![' '];
    proof {
        reveal_strlit("");
        reveal_strlit(", ");
        reveal_strlit("{");
        reveal_strlit("}");
        reveal_strlit("[");
        reveal_strlit("]");
    }
    assert(""@ =~= o);
    assert(", "@ =~= seq![','] + sp);
    // the shadowed paths
    let ghost ps = texts_of(sh.entries@).skip(1);
    let ghost items = Seq::new(ps.len(), |i: int| Layout::Text(ps[i]));
    let mut losers = owned("[");
    let mut i: usize = 1;
    assert(losers@ =~= seq!['['] + list_prefix(items, o, sp, 0));
    while i < sh.entries.len()
        invariant
            1 <= i <= sh.entries@.len(),
            ps == texts_of(sh.entries@).skip(1),
            items == Seq::new(ps.len(), |k: int| Layout::Text(ps[k])),
            o == Seq::<char>::empty(),
            sp == seq![' '],
            ", "@ == seq![','] + sp,
            losers@ == seq!['['] + list_prefix(items, o, sp, i - 1),
        decreases sh.entries@.len() - i,
    {
        if i > 1 {
            push_all(&mut losers, ", ");
        }
        let q = quoted_string(sh.entries[i].as_str());
        push_all(&mut losers, q.as_str());
        assert(items[i - 1] == Layout::Text(sh.entries@[i as int]@));
        proof {
            lemma_list_step(items, o, sp, i - 1);
        }
        assert(losers@ =~= seq!['['] + list_prefix(items, o, sp, i as int));
        i += 1;
    }
    push_all(&mut losers, "]");
    proof {
        lemma_list_whole(items, o, sp, o);
        if ps.len() > 0 {
            assert(losers@ =~= layout_text(losers_layout(*sh)));
        } else {
            assert(losers@ =~= layout_text(losers_layout(*sh)));
        }
    }
    let ghost start = out@;
    push_all(out, "{");
    let ghost head = start + seq!['{'];
    assert(out@ =~= head + record_prefix(keys, vals, o, sp, 0));
    push_member(out, "", "name", quoted_string(sh.name.as_str()).as_str(), Ghost(head), Ghost(keys), Ghost(vals), Ghost(o), Ghost(sp), Ghost(0));
    push_member(out, ", ", "winner", quoted_string(sh.winner().as_str()).as_str(), Ghost(head), Ghost(keys), Ghost(vals), Ghost(o), Ghost(sp), Ghost(1));
    push_member(out, ", ", "shadowed", losers.as_str(), Ghost(head), Ghost(keys), Ghost(vals), Ghost(o), Ghost(sp), Ghost(2));
    push_all(out, "}");
    proof {
        lemma_record_whole(keys, vals, o, sp, Seq::empty());
    }
    assert(final(out)@ =~= start + layout_text(shadow_layout(*sh)));
}

/// The array of shadow objects.
fn shadows_array(shadows: &[Shadow]) -> (r: String)
    requires
        shadows_nonempty(shadows@),
    ensures
        r@ == layout_text(shadows_layout(shadows@)),
{
    let ghost items = Seq::new(shadows@.len(), |i: int| shadow_layout(shadows@[i]));
    let ghost w = item_ws();
    proof {
        reveal_strlit("\n    ");
        reveal_strlit(",\n    ");
        reveal_strlit("\n  ");
        reveal_strlit("[");
        reveal_strlit("]");
    }
    assert("\n    "@ =~= w);
    assert(",\n    "@ =~= seq![','] + w);
    let mut out = owned("[");
    let mut k: usize = 0;
    assert(out@ =~= seq!['['] + list_prefix(items, w, w, 0));
    while k < shadows.len()
        invariant
            k <= shadows@.len(),
            shadows_nonempty(shadows@),
            items == Seq::new(shadows@.len(), |i: int| shadow_layout(shadows@[i])),
            w == item_ws(),
            "\n    "@ == w,
            ",\n    "@ == seq![','] + w,
            out@ == seq!['['] + list_prefix(items, w, w, k as int),
        decreases shadows@.len() - k,
    {
        if k == 0 {
            push_all(&mut out, "\n    ");
        } else {
            push_all(&mut out, ",\n    ");
        }
        assert(shadows@[k as int].entries@.len() >= 1);
        push_shadow(&mut out, &shadows[k]);
        proof {
            lemma_list_step(items, w, w, k as int);
        }
        assert(out@ =~= seq!['['] + list_prefix(items, w, w, k + 1));
        k += 1;
    }
    if shadows.len() > 0 {
        push_all(&mut out, "\n  ");
    }
    push_all(&mut out, "]");
    proof {
        lemma_list_whole(items, w, w, member_ws());
    }
    assert(out@ =~= layout_text(shadows_layout(shadows@)));
    out
}

/// The summary object.
fn summary_object(s: &Summary) -> (r: String)
    ensures
        r@ == layout_text(summary_layout(*s)),
{
    let ghost keys = summary_keys();
    let ghost vals = seq![
        Layout::Digits(dec(s.binaries as nat)),
        Layout::Digits(dec(s.packages as nat)),
        Layout::Digits(dec(s.orphans as nat)),
        Layout::Digits(dec(s.missing as nat)),
        Layout::Digits(dec(s.shadowed as nat)),
        Layout::Digits(dec(s.stale as nat)),
    ];
    let ghost o = Seq::<char>::empty();
    let ghost sp = seq![' '];
    proof {
        reveal_strlit("");
        reveal_strlit(", ");
        reveal_strlit("{");
        reveal_strlit("}");
    }
    assert(""@ =~= o);
    assert(", "@ =~= seq![','] + sp);
    let mut out = owned("{");
    let ghost head = seq!['{'];
    assert(out@ =~= head + record_prefix(keys, vals, o, sp, 0));
    push_member(&mut out, "", "binaries", u64_to_string(s.binaries as u64).as_str(), Ghost(head), Ghost(keys), Ghost(vals), Ghost(o), Ghost(sp), Ghost(0));
    push_member(&mut out, ", ", "packages", u64_to_string(s.packages as u64).as_str(), Ghost(head), Ghost(keys), Ghost(vals), Ghost(o), Ghost(sp), Ghost(1));
    push_member(&mut out, ", ", "orphans", u64_to_string(s.orphans as u64).as_str(), Ghost(head), Ghost(keys), Ghost(vals), Ghost(o), Ghost(sp), Ghost(2));
    push_member(&mut out, ", ", "missing", u64_to_string(s.missing as u64).as_str(), Ghost(head), Ghost(keys), Ghost(vals), Ghost(o), Ghost(sp), Ghost(3));
    push_member(&mut out, ", ", "shadowed", u64_to_string(s.shadowed as u64).as_str(), Ghost(head), Ghost(keys), Ghost(vals), Ghost(o), Ghost(sp), Ghost(4));
    push_member(&mut out, ", ", "stale", u64_to_string(s.stale as u64).as_str(), Ghost(head), Ghost(keys), Ghost(vals), Ghost(o), Ghost(sp), Ghost(5));
    push_all(&mut out, "}");
    proof {
        lemma_record_whole(keys, vals, o, sp, Seq::empty());
    }
    assert(out@ =~= layout_text(summary_layout(*s)));
    out
}

/// The JSON report, hand-rendered with the same escaping rules the parser
/// accepts.
pub fn render_json(inv: &Inventory, shadows: &[Shadow], opts: &ReportOpts) -> (r: String)
    requires
        shadows_nonempty(shadows@),
    ensures
        r@ == json_text(inv.sections@, shadows@, *opts),
{
    let all = inv.records();
    let ghost secs = inv.sections@;
    let ghost keys = report_keys();
    let ghost vals = report_vals(secs, shadows@, *opts);
    let ghost w = member_ws();
    proof {
        reveal_strlit("\n  ");
        reveal_strlit(",\n  ");
        reveal_strlit("{");
        reveal_strlit("}\n");
    }
    assert("\n  "@ =~= w);
    assert(",\n  "@ =~= seq![','] + w);
    let mut out = owned("{");
    let ghost head = seq!['{'];
    assert(out@ =~= head + record_prefix(keys, vals, w, w, 0));
    push_member(&mut out, "\n  ", "binsweep", quoted_string(VERSION).as_str(), Ghost(head), Ghost(keys), Ghost(vals), Ghost(w), Ghost(w), Ghost(0));
    let bins = binaries_text(&all, opts);
    push_member(&mut out, ",\n  ", "binaries", bins.as_str(), Ghost(head), Ghost(keys), Ghost(vals), Ghost(w), Ghost(w), Ghost(1));
    let sh = shadows_array(shadows);
    push_member(&mut out, ",\n  ", "shadows", sh.as_str(), Ghost(head), Ghost(keys), Ghost(vals), Ghost(w), Ghost(w), Ghost(2));
    let s = summarize(inv, shadows, opts);
    assert(s == summary_of(secs, shadows@.len(), *opts));
    let sum = summary_object(&s);
    push_member(&mut out, ",\n  ", "summary", sum.as_str(), Ghost(head), Ghost(keys), Ghost(vals), Ghost(w), Ghost(w), Ghost(3));
    push_all(&mut out, "\n}\n");
    proof {
        reveal_strlit("\n}\n");
        lemma_record_whole(keys, vals, w, w, seq!['\n']);
    }
    assert(out@ =~= json_text(secs, shadows@, *opts));
    out
}

// ------------------------------------------------------------------
// The JSON report reads back

proof fn lemma_binary_well_laid(opts: ReportOpts, g: int, r: RecordV)
    ensures
        well_laid(binary_layout(opts, g, r)),
{
    let vals = binary_vals(opts, g, r);
    let a = age_of(opts, g, r);
    assert(well_laid(age_layout(a))) by {
        if let Some(x) = a {
            lemma_dec_digits((x / 86_400) as nat);
        }
    }
    assert forall|i: int| 0 <= i < 10 implies well_laid(#[trigger] vals[i]) by {
        if i < 8 {
            assert(vals[i] is Text);
        }
    }
    lemma_well_list_all(vals, 10);
    assert(crate::layout::all_ws(seq![' ']));
    assert(crate::layout::all_ws(Seq::<char>::empty()));
}

proof fn lemma_shadow_well_laid(s: Shadow)
    ensures
        well_laid(shadow_layout(s)),
{
    let ps = texts_of(s.entries@).skip(1);
    let items = Seq::new(ps.len(), |i: int| Layout::Text(ps[i]));
    assert forall|i: int| 0 <= i < items.len() implies well_laid(#[trigger] items[i]) by {}
    lemma_well_list_all(items, items.len() as int);
    assert(crate::layout::all_ws(seq![' ']));
    assert(crate::layout::all_ws(Seq::<char>::empty()));
    assert(well_laid(losers_layout(s)));
    let vals = seq![Layout::Text(s.name@), Layout::Text(s.entries@[0]@), losers_layout(s)];
    assert forall|i: int| 0 <= i < 3 implies well_laid(#[trigger] vals[i]) by {}
    lemma_well_list_all(vals, 3);
}

proof fn lemma_summary_well_laid(s: Summary)
    ensures
        well_laid(summary_layout(s)),
{
    lemma_dec_digits(s.binaries as nat);
    lemma_dec_digits(s.packages as nat);
    lemma_dec_digits(s.orphans as nat);
    lemma_dec_digits(s.missing as nat);
    lemma_dec_digits(s.shadowed as nat);
    lemma_dec_digits(s.stale as nat);
    let vals = seq![
        Layout::Digits(dec(s.binaries as nat)),
        Layout::Digits(dec(s.packages as nat)),
        Layout::Digits(dec(s.orphans as nat)),
        Layout::Digits(dec(s.missing as nat)),
        Layout::Digits(dec(s.shadowed as nat)),
        Layout::Digits(dec(s.stale as nat)),
    ];
    assert forall|i: int| 0 <= i < 6 implies well_laid(#[trigger] vals[i]) by {}
    lemma_well_list_all(vals, 6);
    assert(crate::layout::all_ws(seq![' ']));
    assert(crate::layout::all_ws(Seq::<char>::empty()));
}

proof fn lemma_report_well_laid(secs: Seq<Section>, shs: Seq<Shadow>, opts: ReportOpts)
    ensures
        well_laid(report_layout(secs, shs, opts)),
{
    let rs = all_records(secs);
    let bins = Seq::new(rs.len(), |g: int| binary_layout(opts, g, rs[g]));
    assert forall|g: int| 0 <= g < bins.len() implies well_laid(#[trigger] bins[g]) by {
        lemma_binary_well_laid(opts, g, rs[g]);
    }
    lemma_well_list_all(bins, bins.len() as int);
    let items = Seq::new(shs.len(), |i: int| shadow_layout(shs[i]));
    assert forall|i: int| 0 <= i < items.len() implies well_laid(#[trigger] items[i]) by {
        lemma_shadow_well_laid(shs[i]);
    }
    lemma_well_list_all(items, items.len() as int);
    assert(crate::layout::all_ws(item_ws()));
    assert(crate::layout::all_ws(member_ws()));
    assert(crate::layout::all_ws(seq!['\n']));
    lemma_summary_well_laid(summary_of(secs, shs.len(), opts));
    let vals = report_vals(secs, shs, opts);
    assert forall|i: int| 0 <= i < 4 implies well_laid(#[trigger] vals[i]) by {}
    lemma_well_list_all(vals, 4);
}

/// Law: the JSON report is a valid JSON document that the library's own
/// reader reads back to exactly the report object: the version, one
/// object per record with its ten fields, one object per shadow, and the
/// summary counts.
pub proof fn lemma_json_report_reads_back(secs: Seq<Section>, shs: Seq<Shadow>, opts: ReportOpts)
    ensures
        parse_doc(json_text(secs, shs, opts)) == Some(layout_value(report_layout(secs, shs, opts))),
{
    let l = report_layout(secs, shs, opts);
    let t = layout_text(l);
    let s = json_text(secs, shs, opts);
    let n = t.len() as int;
    lemma_report_well_laid(secs, shs, opts);
    assert(s.subrange(0, n) =~= t);
    assert(s[n] == '\n');
    lemma_read_layout(s, 0, l);
    assert(ws_end(s, n + 1) == n + 1);
    assert(ws_end(s, n) == n + 1);
}


/// Law: the JSON report's `summary` object carries each count under its
/// own key: `binaries` the records on disk, `packages` the distinct
/// packages, `orphans` and `missing` the records with that status,
/// `shadowed` the shadowed names and `stale` the stale records.
pub proof fn lemma_json_report_summary(secs: Seq<Section>, shs: Seq<Shadow>, opts: ReportOpts)
    requires
        all_records(secs).len() <= usize::MAX,
        shs.len() <= usize::MAX,
    ensures
        ({
            let rs = all_records(secs);
            parse_doc(json_text(secs, shs, opts)) matches Some(doc)
            && crate::json::member_of(doc, "summary"@) matches Some(sm)
            && crate::json::member_of(sm, "binaries"@) == Some(JsonV::Number(dec(on_disk_count(rs))))
            && crate::json::member_of(sm, "packages"@) == Some(JsonV::Number(dec(distinct_count(owned_packages(rs)))))
            && crate::json::member_of(sm, "orphans"@) == Some(JsonV::Number(dec(filter_status(rs, true).len())))
            && crate::json::member_of(sm, "missing"@) == Some(JsonV::Number(dec(filter_status(rs, false).len())))
            && crate::json::member_of(sm, "shadowed"@) == Some(JsonV::Number(dec(shs.len())))
            && crate::json::member_of(sm, "stale"@) == Some(JsonV::Number(dec(stale_count(rs, opts))))
        }),
{
    let rs = all_records(secs);
    lemma_json_report_reads_back(secs, shs, opts);
    lemma_summary_buckets(rs, opts);
    crate::inventory::lemma_distinct_count_le(owned_packages(rs));
    crate::inventory::lemma_owned_packages_le(rs);
    reveal_strlit("binsweep");
    reveal_strlit("binaries");
    reveal_strlit("shadows");
    reveal_strlit("summary");
    reveal_strlit("packages");
    reveal_strlit("orphans");
    reveal_strlit("missing");
    reveal_strlit("shadowed");
    reveal_strlit("stale");
    let ks = report_keys();
    let vs = report_vals(secs, shs, opts);
    crate::layout::lemma_record_lookup(ks, vs, 4, 3);
    let s = summary_of(secs, shs.len(), opts);
    let sk = summary_keys();
    let sl = summary_layout(s);
    let sv = match sl { Layout::Record(_, v, _, _, _) => v, _ => Seq::empty() };
    assert forall|i: int, j: int| 0 <= i < j < 6 implies sk[j] != sk[i] by {
        assert(sk[i].len() != sk[j].len() || sk[i][0] != sk[j][0] || sk[i][1] != sk[j][1]);
    }
    crate::layout::lemma_record_lookup(sk, sv, 6, 0);
    crate::layout::lemma_record_lookup(sk, sv, 6, 1);
    crate::layout::lemma_record_lookup(sk, sv, 6, 2);
    crate::layout::lemma_record_lookup(sk, sv, 6, 3);
    crate::layout::lemma_record_lookup(sk, sv, 6, 4);
    crate::layout::lemma_record_lookup(sk, sv, 6, 5);
}


/// Law: the JSON report's `binaries` array holds one object per record,
/// in inventory order, and the object of record `g` carries that record's
/// name, path, ecosystem, package, version, origin, status and reason.
pub proof fn lemma_json_report_binaries(secs: Seq<Section>, shs: Seq<Shadow>, opts: ReportOpts, g: int)
    requires
        0 <= g < all_records(secs).len(),
    ensures
        ({
            let r = all_records(secs)[g];
            parse_doc(json_text(secs, shs, opts)) matches Some(doc)
            && crate::json::member_of(doc, "binaries"@) matches Some(JsonV::Array(items))
            && items.len() == all_records(secs).len()
            && crate::json::member_of(items[g], "name"@) == Some(JsonV::Str(r.name))
            && crate::json::member_of(items[g], "path"@) == Some(JsonV::Str(r.path))
            && crate::json::member_of(items[g], "ecosystem"@) == Some(JsonV::Str(eco_label(r.ecosystem)))
            && crate::json::member_of(items[g], "package"@) == Some(JsonV::Str(r.package))
            && crate::json::member_of(items[g], "version"@) == Some(JsonV::Str(r.version))
            && crate::json::member_of(items[g], "origin"@) == Some(JsonV::Str(r.origin))
            && crate::json::member_of(items[g], "status"@) == Some(JsonV::Str(status_code(r.status)))
            && crate::json::member_of(items[g], "detail"@) == Some(JsonV::Str(status_detail(r.status)))
        }),
{
    let rs = all_records(secs);
    lemma_json_report_reads_back(secs, shs, opts);
    reveal_strlit("binsweep");
    reveal_strlit("binaries");
    reveal_strlit("shadows");
    reveal_strlit("summary");
    reveal_strlit("name");
    reveal_strlit("path");
    reveal_strlit("ecosystem");
    reveal_strlit("package");
    reveal_strlit("version");
    reveal_strlit("origin");
    reveal_strlit("status");
    reveal_strlit("detail");
    reveal_strlit("age_days");
    reveal_strlit("stale");
    let ks = report_keys();
    let vs = report_vals(secs, shs, opts);
    assert forall|j: int| 1 < j < 4 implies #[trigger] ks[j] != ks[1] by {
        assert(ks[j][1] != ks[1][1] || ks[j].len() != ks[1].len());
    }
    crate::layout::lemma_record_lookup(ks, vs, 4, 1);
    let bl = Seq::new(rs.len(), |k: int| binary_layout(opts, k, rs[k]));
    crate::layout::lemma_list_values(bl, rs.len() as int, g);
    let bk = binary_keys();
    let bv = binary_vals(opts, g, rs[g]);
    assert forall|i: int, j: int| 0 <= i < j < 10 implies bk[j] != bk[i] by {
        assert(bk[i].len() != bk[j].len() || bk[i][0] != bk[j][0] || bk[i][1] != bk[j][1]);
    }
    assert forall|i: int| 0 <= i < 8 implies crate::json::find_key(
        crate::layout::record_members(bk, bv, 10),
        #[trigger] bk[i],
    ) == Some(layout_value(bv[i])) by {
        crate::layout::lemma_record_lookup(bk, bv, 10, i);
    }
    assert(bk[0] == "name"@ && bk[1] == "path"@ && bk[2] == "ecosystem"@ && bk[3] == "package"@);
    assert(bk[4] == "version"@ && bk[5] == "origin"@ && bk[6] == "status"@ && bk[7] == "detail"@);
}

} // verus!
