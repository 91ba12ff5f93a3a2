//! Go provenance: Go embeds a build-information blob into every binary it
//! links (`debug/buildinfo` in the Go stdlib, `go version -m` on the CLI).
//! It is read directly from the executable bytes, so `~/go/bin` entries
//! get a module path and version, and anything without the blob is an
//! orphan.

use vstd::prelude::*;
use vstd::utf8::{valid_utf8, decode_utf8, encode_utf8};
use crate::text::{
    chars_of, owned, string_from, str_eq, utf8_text, split_char, split_in, text_lines, lines_in,
    push_all, strip_cr, lemma_split_cons, lemma_lines_append,
};
use crate::util::{find_subslice, find_bytes};
use crate::inventory::{BinaryRecord, BinStatus, Ecosystem, RecordV, StatusV};

verus! {

/// The 14-byte magic that opens the build-info header (`\xff Go buildinf:`).
pub const MAGIC: [u8; 14] = [
    0xff, 0x20, 0x47, 0x6f, 0x20, 0x62, 0x75, 0x69, 0x6c, 0x64, 0x69, 0x6e, 0x66, 0x3a,
];

/// Set in the header flags byte when the version/modinfo strings are
/// inlined right after the header (Go >= 1.18) instead of referenced
/// through pointers into the data segment.
pub const FLAG_INLINE_STRINGS: u8 = 0x2;

/// The 16-byte sentinel `go mod` wraps around the module-info string.
pub const MOD_SENTINEL: [u8; 16] = [
    0x30, 0x77, 0xaf, 0x0c, 0x92, 0x74, 0x08, 0x02, 0x41, 0xe1, 0xc1, 0x07, 0xe6, 0xd6, 0x18, 0xe6,
];

/// Provenance recovered from one Go executable.
#[derive(Debug, Clone, PartialEq)]
pub struct GoBuildInfo {
    /// Toolchain version, e.g. `go1.22.4`; `?` when unreadable.
    pub go_version: String,
    /// Main module path, e.g. `example.test/tool`; `?` when unreadable.
    pub mod_path: String,
    /// Main module version, e.g. `v1.6.0` or `(devel)`.
    pub module_version: String,
}

/// The mathematical content of a `GoBuildInfo`.
pub struct GoInfoV {
    pub go_version: Seq<char>,
    pub mod_path: Seq<char>,
    pub module_version: Seq<char>,
}

impl View for GoBuildInfo {
    type V = GoInfoV;

    open spec fn view(&self) -> GoInfoV {
        GoInfoV {
            go_version: self.go_version@,
            mod_path: self.mod_path@,
            module_version: self.module_version@,
        }
    }
}

/// Provenance with nothing known.
pub open spec fn unknown_info() -> GoInfoV {
    GoInfoV { go_version: "?"@, mod_path: "?"@, module_version: "?"@ }
}

impl GoBuildInfo {
    /// Provenance with nothing known: every field `?`.
    pub fn unknown() -> (r: Self)
        ensures
            r@ == unknown_info(),
    {
        GoBuildInfo { go_version: owned("?"), mod_path: owned("?"), module_version: owned("?") }
    }
}

// ------------------------------------------------------------------
// Varints

/// The low seven bits of a varint byte, in place `i`.
pub open spec fn varint_part(b: u8, i: nat) -> u64 {
    ((b & 0x7f) as u64) << ((7 * i) as u64)
}

/// The value of the first `n` bytes of a varint (bits beyond 64 dropped).
pub open spec fn uvarint_acc(data: Seq<u8>, n: nat) -> u64
    decreases n,
{
    if n == 0 {
        0
    } else {
        uvarint_acc(data, (n - 1) as nat) | varint_part(data[n - 1], (n - 1) as nat)
    }
}

/// The length of the varint that starts the data, looking at no more than
/// ten bytes: up to the first byte without the continuation bit.
pub open spec fn uvarint_len(data: Seq<u8>, i: nat) -> Option<nat>
    decreases 10 - i,
{
    if i >= 10 || i >= data.len() {
        None
    } else if data[i as int] & 0x80 == 0 {
        Some(i + 1)
    } else {
        uvarint_len(data, i + 1)
    }
}

/// An unsigned LEB128 varint at the start of `data`: its value and length.
pub open spec fn uvarint(data: Seq<u8>) -> Option<(u64, nat)> {
    match uvarint_len(data, 0) {
        Some(n) => Some((uvarint_acc(data, n), n)),
        None => None,
    }
}

/// Decode an unsigned LEB128 varint; returns `(value, bytes consumed)`.
pub fn read_uvarint(data: &[u8]) -> (r: Option<(u64, usize)>)
    ensures
        uvarint(data@) is Some <==> r is Some,
        r matches Some((v, n)) ==> uvarint(data@) == Some((v, n as nat)),
{
    let mut value: u64 = 0;
    let mut i: usize = 0;
    while i < 10 && i < data.len()
        invariant
            i <= 10,
            value == uvarint_acc(data@, i as nat),
            uvarint_len(data@, 0) == uvarint_len(data@, i as nat),
        decreases 10 - i,
    {
        let byte = data[i];
        let part = ((byte & 0x7f) as u64) << (7 * i as u64);
        value = value | part;
        if byte & 0x80 == 0 {
            return Some((value, i + 1));
        }
        i += 1;
    }
    None
}

/// A varint-length-prefixed byte string at the start of `data`, with the
/// bytes used.
pub open spec fn var_bytes(data: Seq<u8>) -> Option<(Seq<u8>, nat)> {
    match uvarint(data) {
        None => None,
        Some((len, head)) => if head + len <= data.len() {
            Some((data.subrange(head as int, head + len), (head + len) as nat))
        } else {
            None
        },
    }
}

/// Read one varint-length-prefixed byte string.
fn read_var_bytes(data: &[u8]) -> (r: Option<(&[u8], usize)>)
    ensures
        var_bytes(data@) is Some <==> r is Some,
        r matches Some((b, n)) ==> var_bytes(data@) == Some((b@, n as nat)),
{
    let (len, head) = match read_uvarint(data) {
        Some(x) => x,
        None => return None,
    };
    if head > data.len() || len > (data.len() - head) as u64 {
        return None;
    }
    let end = head + len as usize;
    Some((&data[head..end], end))
}

// ------------------------------------------------------------------
// Module info

/// The module-info bytes without the sentinel wrapper `go` places around
/// them, when the wrapper is there.
pub open spec fn strip_sentinel(raw: Seq<u8>) -> Seq<u8> {
    let n = raw.len() as int;
    if n >= 33 && raw[n - 17] == 10 && raw.take(16) == MOD_SENTINEL@ && raw.skip(n - 16)
        == MOD_SENTINEL@ {
        raw.subrange(16, n - 16)
    } else {
        raw
    }
}

fn sentinel_at(raw: &[u8], at: usize) -> (r: bool)
    requires
        at + 16 <= raw@.len(),
    ensures
        r == (raw@.subrange(at as int, at + 16) == MOD_SENTINEL@),
{
    let mut k: usize = 0;
    let n = raw.len();
    while k < 16
        invariant
            k <= 16,
            n == raw@.len(),
            at + 16 <= raw@.len(),
            forall|m: int| 0 <= m < k ==> raw@[at + m] == MOD_SENTINEL@[m],
        decreases 16 - k,
    {
        if raw[at + k] != MOD_SENTINEL[k] {
            assert(raw@.subrange(at as int, at + 16)[k as int] != MOD_SENTINEL@[k as int]);
            return false;
        }
        k += 1;
    }
    assert(raw@.subrange(at as int, at + 16) =~= MOD_SENTINEL@);
    true
}

/// Strip the sentinel wrapper around the module-info string, mirroring
/// the check the Go stdlib performs.
fn strip_mod_sentinel(raw: &[u8]) -> (r: &[u8])
    ensures
        r@ == strip_sentinel(raw@),
{
    let n = raw.len();
    if n >= 33 && raw[n - 17] == 10 && sentinel_at(raw, 0) && sentinel_at(raw, n - 16) {
        assert(raw@.subrange(0, 16) =~= raw@.take(16));
        assert(raw@.subrange(n - 16, n as int) =~= raw@.skip(n - 16));
        &raw[16..n - 16]
    } else {
        proof {
            if n >= 33 {
                assert(raw@.subrange(0, 16) =~= raw@.take(16));
                assert(raw@.subrange(n - 16, n as int) =~= raw@.skip(n - 16));
            }
        }
        raw
    }
}

/// Field `i` of a tab-split line, if there is one.
pub open spec fn field(f: Seq<Seq<char>>, i: int) -> Option<Seq<char>> {
    if 0 <= i < f.len() {
        Some(f[i])
    } else {
        None
    }
}

/// One module-info line applied to `(path, version)`: a `mod` line sets
/// both from its next two fields; a `path` line sets the path only while
/// none is known.
pub open spec fn modinfo_step(
    st: (Option<Seq<char>>, Option<Seq<char>>),
    line: Seq<char>,
) -> (Option<Seq<char>>, Option<Seq<char>>) {
    let f = split_char(line, '\t');
    if f[0] == "mod"@ {
        (field(f, 1), field(f, 2))
    } else if f[0] == "path"@ {
        if st.0 is None {
            (field(f, 1), st.1)
        } else {
            st
        }
    } else {
        st
    }
}

/// `(path, version)` after applying the lines in order.
pub open spec fn modinfo_lines(lines: Seq<Seq<char>>) -> (Option<Seq<char>>, Option<Seq<char>>)
    decreases lines.len(),
{
    if lines.len() == 0 {
        (None, None)
    } else {
        modinfo_step(modinfo_lines(lines.drop_last()), lines.last())
    }
}

/// The module path and version a module-info text names.
pub open spec fn modinfo(text: Seq<char>) -> (Option<Seq<char>>, Option<Seq<char>>) {
    modinfo_lines(text_lines(text))
}

/// The fields of a line `w \t rest`, `\r` ending dropped: `w` first,
/// then the fields of the rest.
proof fn lemma_line_fields(w: Seq<char>, rest: Seq<char>)
    requires
        !w.contains('\t'),
    ensures
        strip_cr(w + seq!['\t'] + rest) == w + seq!['\t'] + strip_cr(rest),
        split_char(strip_cr(w + seq!['\t'] + rest), '\t') == seq![w] + split_char(strip_cr(rest), '\t'),
{
    let l = w + seq!['\t'] + rest;
    if rest.len() > 0 {
        assert(l.last() == rest.last());
        if rest.last() == '\r' {
            assert(l.drop_last() =~= w + seq!['\t'] + rest.drop_last());
        }
    } else {
        assert(l.last() == '\t');
        assert(strip_cr(rest) =~= rest);
    }
    lemma_split_cons(w, strip_cr(rest), '\t');
}

/// A text with no `c` in it.
proof fn lemma_no_char_concat(a: Seq<char>, b: Seq<char>, c: char)
    requires
        !a.contains(c),
        !b.contains(c),
    ensures
        !(a + b).contains(c),
{
    if (a + b).contains(c) {
        let j = choose|j: int| 0 <= j < (a + b).len() && (a + b)[j] == c;
        if j < a.len() {
            assert(a[j] == c);
        } else {
            assert(b[j - a.len()] == c);
        }
    }
}

/// Law: a line whose first field is neither `mod` nor `path` (a `dep`
/// line, say) appended to a module-info text changes nothing that is read
/// from it.
pub proof fn lemma_modinfo_other_line(x: Seq<char>, w: Seq<char>, rest: Seq<char>)
    requires
        !w.contains('\t'),
        !w.contains('\n'),
        !rest.contains('\n'),
        w != "mod"@,
        w != "path"@,
    ensures
        modinfo(x + seq!['\n'] + (w + seq!['\t'] + rest) + seq!['\n']) == modinfo(x + seq!['\n']),
{
    let l = w + seq!['\t'] + rest;
    lemma_no_char_concat(w, seq!['\t'], '\n');
    lemma_no_char_concat(w + seq!['\t'], rest, '\n');
    lemma_lines_append(x, l);
    lemma_line_fields(w, rest);
    let ls = text_lines(x + seq!['\n']);
    assert(text_lines(x + seq!['\n'] + l + seq!['\n']).drop_last() =~= ls);
}

/// Law: a `mod` line appended to a module-info text decides both the
/// module path and the module version, whatever came before it.
pub proof fn lemma_modinfo_mod_line(x: Seq<char>, path: Seq<char>, version: Seq<char>, sum: Seq<char>)
    requires
        !path.contains('\t'),
        !path.contains('\n'),
        !version.contains('\t'),
        !version.contains('\n'),
        !sum.contains('\n'),
    ensures
        modinfo(x + seq!['\n'] + ("mod"@ + seq!['\t'] + path + seq!['\t'] + version + seq!['\t'] + sum) + seq!['\n'])
            == (Some(path), Some(version)),
{
    reveal_strlit("mod");
    let m = "mod"@;
    assert(m =~= seq!['m', 'o', 'd']);
    let tail = path + seq!['\t'] + version + seq!['\t'] + sum;
    let l = m + seq!['\t'] + tail;
    assert(l =~= "mod"@ + seq!['\t'] + path + seq!['\t'] + version + seq!['\t'] + sum);
    assert(!m.contains('\t') && !m.contains('\n'));
    lemma_no_char_concat(m, seq!['\t'], '\n');
    lemma_no_char_concat(path, seq!['\t'], '\n');
    lemma_no_char_concat(version, seq!['\t'], '\n');
    lemma_no_char_concat(path + seq!['\t'], version + seq!['\t'], '\n');
    assert(path + seq!['\t'] + (version + seq!['\t']) =~= path + seq!['\t'] + version + seq!['\t']);
    lemma_no_char_concat(path + seq!['\t'] + version + seq!['\t'], sum, '\n');
    lemma_no_char_concat(m + seq!['\t'], tail, '\n');
    assert(m + seq!['\t'] + tail =~= l);
    lemma_lines_append(x, l);
    lemma_line_fields(m, tail);
    let vt = version + seq!['\t'] + sum;
    assert(tail =~= path + seq!['\t'] + vt);
    lemma_line_fields(path, vt);
    lemma_line_fields(version, sum);
    crate::text::lemma_split_nonempty(strip_cr(sum), '\t');
    let f = split_char(strip_cr(l), '\t');
    assert(f =~= seq![m] + (seq![path] + (seq![version] + split_char(strip_cr(sum), '\t'))));
    assert(f[1] == path && f[2] == version);
    let ls = text_lines(x + seq!['\n']);
    assert(text_lines(x + seq!['\n'] + l + seq!['\n']).drop_last() =~= ls);
}

/// Law: a `path` line appended to a module-info text sets the module path
/// only when no earlier line has set it, and never touches the version.
pub proof fn lemma_modinfo_path_line(x: Seq<char>, path: Seq<char>)
    requires
        !path.contains('\t'),
        !path.contains('\n'),
        path.len() == 0 || path.last() != '\r',
    ensures
        modinfo(x + seq!['\n'] + ("path"@ + seq!['\t'] + path) + seq!['\n']) == (
            if modinfo(x + seq!['\n']).0 is None { Some(path) } else { modinfo(x + seq!['\n']).0 },
            modinfo(x + seq!['\n']).1,
        ),
{
    reveal_strlit("path");
    reveal_strlit("mod");
    let p = "path"@;
    assert(p =~= seq!['p', 'a', 't', 'h']);
    assert(!p.contains('\t') && !p.contains('\n'));
    let l = p + seq!['\t'] + path;
    lemma_no_char_concat(p, seq!['\t'], '\n');
    lemma_no_char_concat(p + seq!['\t'], path, '\n');
    lemma_lines_append(x, l);
    lemma_line_fields(p, path);
    assert(strip_cr(path) == path);
    crate::text::lemma_split_none(path, '\t');
    let f = split_char(strip_cr(l), '\t');
    assert(f =~= seq![p, path]);
    assert(p != "mod"@) by {
        assert(p.len() != "mod"@.len());
    }
    let ls = text_lines(x + seq!['\n']);
    assert(text_lines(x + seq!['\n'] + l + seq!['\n']).drop_last() =~= ls);
}

fn field_of(f: &Vec<Vec<char>>, i: usize) -> (r: Option<String>)
    ensures
        r is Some <==> i < f@.len(),
        r matches Some(s) ==> s@ == f@[i as int]@,
{
    if i < f.len() {
        Some(string_from(&f[i]))
    } else {
        None
    }
}

/// Pull the `path` and `mod` lines out of the module-info text:
///
/// ```text
/// path    example.test/tool/cmd/tool
/// mod     example.test/tool    v1.6.0    h1:abcd...=
/// ```
pub fn parse_modinfo(text: &str) -> (r: (Option<String>, Option<String>))
    ensures
        r.0 is Some <==> modinfo(text@).0 is Some,
        r.1 is Some <==> modinfo(text@).1 is Some,
        r.0 matches Some(p) ==> modinfo(text@).0 == Some(p@),
        r.1 matches Some(v) ==> modinfo(text@).1 == Some(v@),
{
    let v = chars_of(text);
    let lines = lines_in(&v);
    let ghost tl = text_lines(text@);
    let mut mod_path: Option<String> = None;
    let mut module_version: Option<String> = None;
    let mut i: usize = 0;
    assert(tl.take(0) =~= Seq::<Seq<char>>::empty());
    while i < lines.len()
        invariant
            i <= lines@.len(),
            v@ == text@,
            tl == text_lines(text@),
            lines@.len() == tl.len(),
            forall|j: int| 0 <= j < lines@.len() ==> #[trigger] lines@[j]@ == tl[j],
            ({
                let st = modinfo_lines(tl.take(i as int));
                &&& (mod_path is Some <==> st.0 is Some)
                &&& (module_version is Some <==> st.1 is Some)
                &&& (mod_path matches Some(p) ==> st.0 == Some(p@))
                &&& (module_version matches Some(q) ==> st.1 == Some(q@))
            }),
        decreases lines@.len() - i,
    {
        assert(tl.take(i + 1).drop_last() =~= tl.take(i as int));
        assert(tl.take(i + 1).last() == lines@[i as int]@);
        let fields = split_in(&lines[i], '\t');
        proof { crate::text::lemma_split_nonempty(lines@[i as int]@, '\t'); }
        let first = string_from(&fields[0]);
        if str_eq(first.as_str(), "mod") {
            mod_path = field_of(&fields, 1);
            module_version = field_of(&fields, 2);
        } else if str_eq(first.as_str(), "path") {
            if mod_path.is_none() {
                mod_path = field_of(&fields, 1);
            }
        }
        i += 1;
    }
    assert(tl.take(lines@.len() as int) =~= tl);
    (mod_path, module_version)
}

// ------------------------------------------------------------------
// The blob

/// The provenance a file's bytes carry: `None` when the magic never
/// occurs or its 32-byte header is cut short; `?` fields for the old
/// pointer-based encoding or a version string that cannot be read.
pub open spec fn build_info(data: Seq<u8>) -> Option<GoInfoV> {
    match find_bytes(data, MAGIC@) {
        None => None,
        Some(at) => if at + 32 > data.len() {
            None
        } else if data[at + 15] & FLAG_INLINE_STRINGS == 0 {
            Some(unknown_info())
        } else {
            let tail = data.skip(at + 32);
            match var_bytes(tail) {
                None => Some(unknown_info()),
                Some((vb, used)) => if !valid_utf8(vb) {
                    Some(unknown_info())
                } else {
                    let gv = decode_utf8(vb);
                    let go_version = if gv.len() == 0 { "?"@ } else { gv };
                    let raw = match var_bytes(tail.skip(used as int)) {
                        Some((b, _)) => b,
                        None => Seq::empty(),
                    };
                    let s = strip_sentinel(raw);
                    if valid_utf8(s) {
                        let (p, v) = modinfo(decode_utf8(s));
                        GoInfoV {
                            go_version,
                            mod_path: match p { Some(x) => x, None => "?"@ },
                            module_version: match v { Some(x) => x, None => "?"@ },
                        }
                    } else {
                        GoInfoV { go_version, mod_path: "?"@, module_version: "?"@ }
                    }.into_option()
                },
            }
        },
    }
}

impl GoInfoV {
    pub open spec fn into_option(self) -> Option<GoInfoV> {
        Some(self)
    }
}

/// Extract build info from raw executable bytes. `None` means "not a Go
/// binary" (no magic anywhere); `Some` with `?` fields means "Go binary,
/// but the details are in the old pointer-based encoding".
pub fn extract_build_info(data: &[u8]) -> (r: Option<GoBuildInfo>)
    ensures
        build_info(data@) is Some <==> r is Some,
        r matches Some(i) ==> build_info(data@) == Some(i@),
{
    let at = match find_subslice(data, &MAGIC) {
        Some(a) => a,
        None => return None,
    };
    proof {
        assert(MAGIC@.len() == 14);
        crate::util::lemma_find_bytes_bounds(data@, MAGIC@);
    }
    if at > data.len() || data.len() - at < 32 {
        return None;
    }
    let flags = data[at + 15];
    if flags & FLAG_INLINE_STRINGS == 0 {
        return Some(GoBuildInfo::unknown());
    }
    let tail = &data[at + 32..data.len()];
    assert(tail@ =~= data@.skip(at + 32));
    let (vb, used) = match read_var_bytes(tail) {
        Some(x) => x,
        None => return Some(GoBuildInfo::unknown()),
    };
    let go_version = match utf8_text(vb) {
        Some(t) => t,
        None => return Some(GoBuildInfo::unknown()),
    };
    let gv = if go_version.is_empty() { owned("?") } else { owned(go_version) };
    let rest = &tail[used..tail.len()];
    assert(rest@ =~= tail@.skip(used as int));
    let raw: &[u8] = match read_var_bytes(rest) {
        Some((b, _)) => b,
        None => &[],
    };
    let stripped = strip_mod_sentinel(raw);
    let mut info = GoBuildInfo { go_version: gv, mod_path: owned("?"), module_version: owned("?") };
    match utf8_text(stripped) {
        Some(modinfo_text) => {
            let (path, version) = parse_modinfo(modinfo_text);
            match path {
                Some(p) => info.mod_path = p,
                None => {},
            }
            match version {
                Some(v) => info.module_version = v,
                None => {},
            }
        },
        None => {},
    }
    Some(info)
}

// ------------------------------------------------------------------
// Records

/// The record of one executable of the Go bin dir, from its bytes (empty
/// when unreadable).
pub open spec fn go_record(name: Seq<char>, path: Seq<char>, data: Seq<u8>) -> RecordV {
    match build_info(data) {
        Some(info) => RecordV {
            name,
            path,
            ecosystem: Ecosystem::Go,
            package: info.mod_path,
            version: info.module_version,
            origin: "go module ("@ + info.go_version + ")"@,
            status: StatusV::Healthy,
        },
        None => RecordV {
            name,
            path,
            ecosystem: Ecosystem::Go,
            package: "?"@,
            version: "?"@,
            origin: "?"@,
            status: StatusV::Orphan("no Go build info \u{2014} not built by 'go install'"@),
        },
    }
}

/// One executable of the Go bin dir: its name, its full path and its
/// content (empty when it cannot be read).
pub struct GoFile {
    pub name: String,
    pub path: String,
    pub data: Vec<u8>,
}

/// Classify every executable of the Go bin dir, in listing order.
pub fn scan(files: Vec<GoFile>) -> (r: Vec<BinaryRecord>)
    ensures
        r@.len() == files@.len(),
        forall|i: int| 0 <= i < files@.len()
            ==> (#[trigger] r@[i])@ == go_record(files@[i].name@, files@[i].path@, files@[i].data@),
{
    let ghost orig = files@;
    let mut rest = files;
    let mut out: Vec<BinaryRecord> = Vec::new();
    while rest.len() > 0
        invariant
            out@.len() + rest@.len() == orig.len(),
            rest@ == orig.skip(out@.len() as int),
            forall|i: int| 0 <= i < out@.len()
                ==> (#[trigger] out@[i])@ == go_record(orig[i].name@, orig[i].path@, orig[i].data@),
        decreases rest@.len(),
    {
        let f = rest.remove(0);
        assert(f == orig[out@.len() as int]);
        assert(rest@ =~= orig.skip(out@.len() as int + 1));
        let rec = record_for(f.name, f.path, f.data.as_slice());
        out.push(rec);
    }
    out
}

/// Classify one executable of a Go bin directory: a Go build with whatever
/// provenance its blob yields, or an orphan. `data` is the file's content
/// (empty when it cannot be read).
pub fn record_for(name: String, path: String, data: &[u8]) -> (r: BinaryRecord)
    ensures
        r@ == go_record(name@, path@, data@),
{
    match extract_build_info(data) {
        Some(info) => {
            let mut origin = owned("go module (");
            push_all(&mut origin, info.go_version.as_str());
            push_all(&mut origin, ")");
            BinaryRecord {
                name,
                path,
                ecosystem: Ecosystem::Go,
                package: info.mod_path,
                version: info.module_version,
                origin,
                status: BinStatus::Healthy,
            }
        },
        None => BinaryRecord {
            name,
            path,
            ecosystem: Ecosystem::Go,
            package: owned("?"),
            version: owned("?"),
            origin: owned("?"),
            status: BinStatus::Orphan(owned("no Go build info \u{2014} not built by 'go install'")),
        },
    }
}


// ------------------------------------------------------------------
// Writing a blob

/// The unsigned LEB128 encoding of `n`: seven bits per byte, low bits
/// first, the high bit set on every byte but the last.
pub open spec fn leb128(n: u64) -> Seq<u8>
    decreases n,
{
    if n < 128 {
        seq![n as u8]
    } else {
        proof {
            assert(n >= 128 ==> n >> 7u64 < n) by (bit_vector);
        }
        seq![((n & 0x7f) | 0x80) as u8] + leb128(n >> 7u64)
    }
}

/// Append `body` to `out` behind its LEB128 length.
pub fn push_var_string(out: &mut Vec<u8>, body: &[u8])
    ensures
        final(out)@ == old(out)@ + leb128(body@.len() as u64) + body@,
{
    let mut len = body.len() as u64;
    let ghost orig = len;
    let ghost start = out@;
    let ghost mut emitted: Seq<u8> = Seq::empty();
    loop
        invariant_except_break
            out@ == start + emitted,
            emitted + leb128(len) == leb128(orig),
        ensures
            out@ == start + leb128(orig),
        decreases len,
    {
        let byte = (len & 0x7f) as u8;
        let next = len >> 7;
        if next == 0 {
            proof {
                assert(len >> 7u64 == 0 ==> len < 128 && (len & 0x7f) as u8 == len as u8) by (bit_vector);
            }
            out.push(byte);
            proof {
                let old_emitted = emitted;
                emitted = emitted.push(byte);
                assert(leb128(len) == seq![len as u8]);
                assert(emitted =~= old_emitted + leb128(len));
                assert(out@ =~= start + leb128(orig));
            }
            break;
        }
        proof {
            assert(len >> 7u64 != 0 ==> len >= 128 && (byte | 0x80) == ((len & 0x7f) | 0x80) as u8
                && len >> 7u64 < len) by (bit_vector)
                requires
                    byte == (len & 0x7f) as u8,
            ;
        }
        out.push(byte | 0x80);
        proof {
            assert(leb128(len) == seq![((len & 0x7f) | 0x80) as u8] + leb128(next));
            emitted = emitted.push(byte | 0x80);
            assert(out@ =~= start + emitted);
            assert(emitted + leb128(next) =~= emitted.drop_last() + leb128(len));
        }
        len = next;
    }
    let ghost mid = out@;
    out.extend_from_slice(body);
    assert(out@ =~= start + leb128(orig) + body@);
}

/// The module-info text of a synthesized binary.
pub open spec fn synth_modinfo(mod_path: Seq<char>, module_version: Seq<char>) -> Seq<char> {
    "path\t"@ + mod_path + "/cmd/x\nmod\t"@ + mod_path + "\t"@ + module_version
        + "\th1:0000000000000000000000000000000000000000000=\n"@
}

/// The bytes of a synthesized binary.
pub open spec fn synthesized(go_version: Seq<char>, mod_path: Seq<char>, module_version: Seq<char>) -> Seq<u8> {
    let wrapped = MOD_SENTINEL@ + encode_utf8(synth_modinfo(mod_path, module_version)) + MOD_SENTINEL@;
    let g = encode_utf8(go_version);
    encode_utf8("\x7fELF-ish junk before the blob "@) + MAGIC@ + seq![8u8, FLAG_INLINE_STRINGS]
        + Seq::new(16, |i: int| 0u8) + leb128(g.len() as u64) + g + leb128(wrapped.len() as u64)
        + wrapped + encode_utf8(" trailing junk"@)
}

/// Build a minimal fake Go binary for tests and fixtures: junk prefix,
/// then a valid inline-strings build-info blob.
pub fn synthesize_binary(go_version: &str, mod_path: &str, module_version: &str) -> (r: Vec<u8>)
    ensures
        r@ == synthesized(go_version@, mod_path@, module_version@),
{
    let mut modinfo = owned("path\t");
    push_all(&mut modinfo, mod_path);
    push_all(&mut modinfo, "/cmd/x\nmod\t");
    push_all(&mut modinfo, mod_path);
    push_all(&mut modinfo, "\t");
    push_all(&mut modinfo, module_version);
    push_all(&mut modinfo, "\th1:0000000000000000000000000000000000000000000=\n");
    let mut out: Vec<u8> = Vec::new();
    out.extend_from_slice("\x7fELF-ish junk before the blob ".as_bytes());
    out.extend_from_slice(&MAGIC);
    out.push(8);
    out.push(FLAG_INLINE_STRINGS);
    let zeros: [u8; 16] = [0u8; 16];
    out.extend_from_slice(&zeros);
    push_var_string(&mut out, go_version.as_bytes());
    let mut wrapped: Vec<u8> = Vec::new();
    wrapped.extend_from_slice(&MOD_SENTINEL);
    wrapped.extend_from_slice(modinfo.as_str().as_bytes());
    wrapped.extend_from_slice(&MOD_SENTINEL);
    push_var_string(&mut out, wrapped.as_slice());
    out.extend_from_slice(" trailing junk".as_bytes());
    assert(zeros@ =~= Seq::new(16, |i: int| 0u8));
    assert(out@ =~= synthesized(go_version@, mod_path@, module_version@));
    out
}

// ------------------------------------------------------------------
// Reading back what was written

/// The largest value with at most `k` seven-bit groups, plus one.
spec fn leb_bound(k: nat) -> int {
    if k == 1 {
        0x80
    } else if k == 2 {
        0x4000
    } else if k == 3 {
        0x20_0000
    } else if k == 4 {
        0x1000_0000
    } else if k == 5 {
        0x8_0000_0000
    } else if k == 6 {
        0x400_0000_0000
    } else if k == 7 {
        0x2_0000_0000_0000
    } else if k == 8 {
        0x100_0000_0000_0000
    } else if k == 9 {
        0x8000_0000_0000_0000
    } else {
        0x10_0000_0000_0000_0000
    }
}

/// A value below the bound for `k` groups has at most `k` bytes.
proof fn lemma_leb128_len(n: u64, k: nat)
    requires
        1 <= k <= 10,
        (n as int) < leb_bound(k),
    ensures
        leb128(n).len() <= k,
    decreases k,
{
    if n >= 128 {
        let m = n >> 7u64;
        if k == 2 {
            assert(n < 0x4000 ==> n >> 7u64 < 0x80) by (bit_vector);
        } else if k == 3 {
            assert(n < 0x20_0000 ==> n >> 7u64 < 0x4000) by (bit_vector);
        } else if k == 4 {
            assert(n < 0x1000_0000 ==> n >> 7u64 < 0x20_0000) by (bit_vector);
        } else if k == 5 {
            assert(n < 0x8_0000_0000 ==> n >> 7u64 < 0x1000_0000) by (bit_vector);
        } else if k == 6 {
            assert(n < 0x400_0000_0000 ==> n >> 7u64 < 0x8_0000_0000) by (bit_vector);
        } else if k == 7 {
            assert(n < 0x2_0000_0000_0000 ==> n >> 7u64 < 0x400_0000_0000) by (bit_vector);
        } else if k == 8 {
            assert(n < 0x100_0000_0000_0000 ==> n >> 7u64 < 0x2_0000_0000_0000) by (bit_vector);
        } else if k == 9 {
            assert(n < 0x8000_0000_0000_0000 ==> n >> 7u64 < 0x100_0000_0000_0000) by (bit_vector);
        } else if k == 10 {
            assert(n >> 7u64 < 0x8000_0000_0000_0000) by (bit_vector);
        }
        assert(n >= 128 ==> n >> 7u64 < n) by (bit_vector);
        lemma_leb128_len(m, (k - 1) as nat);
    }
}

/// Every byte of `leb128(n)` but the last carries the continuation bit;
/// the last does not; there are one to ten of them.
proof fn lemma_leb128_shape(n: u64)
    ensures
        1 <= leb128(n).len() <= 10,
        forall|j: int| 0 <= j < leb128(n).len() - 1 ==> #[trigger] leb128(n)[j] & 0x80 != 0,
        leb128(n)[leb128(n).len() - 1] & 0x80 == 0,
    decreases n,
{
    lemma_leb128_len(n, 10);
    if n < 128 {
        assert(n < 128 ==> (n as u8) & 0x80 == 0) by (bit_vector);
    } else {
        let m = n >> 7u64;
        assert(n >= 128 ==> n >> 7u64 < n) by (bit_vector);
        lemma_leb128_shape(m);
        let b = ((n & 0x7f) | 0x80) as u8;
        assert(((n & 0x7f) | 0x80) as u8 & 0x80 != 0) by (bit_vector);
        let l = leb128(n);
        assert(l == seq![b] + leb128(m));
        assert forall|j: int| 0 <= j < l.len() - 1 implies #[trigger] l[j] & 0x80 != 0 by {
            if j > 0 {
                assert(l[j] == leb128(m)[j - 1]);
            }
        }
        assert(l[l.len() - 1] == leb128(m)[leb128(m).len() - 1]);
    }
}

/// A run of continuation bytes ended by one without the bit, within ten bytes.
proof fn lemma_uvarint_len_run(data: Seq<u8>, len: nat, i: nat)
    requires
        i < len <= 10,
        len <= data.len(),
        forall|j: int| i <= j < len - 1 ==> #[trigger] data[j] & 0x80 != 0,
        data[len - 1] & 0x80 == 0,
    ensures
        uvarint_len(data, i) == Some(len),
    decreases len - i,
{
    if i + 1 < len {
        assert(data[i as int] & 0x80 != 0);
        lemma_uvarint_len_run(data, len, i + 1);
    }
}

/// Reading one more leading byte shifts what follows up by seven bits.
proof fn lemma_acc_cons(b: u8, d: Seq<u8>, k: nat)
    requires
        k <= 9,
        k <= d.len(),
    ensures
        uvarint_acc(seq![b] + d, k + 1) == ((b & 0x7f) as u64) | (uvarint_acc(d, k) << 7u64),
    decreases k,
{
    let s = seq![b] + d;
    if k == 0 {
        assert(s[0] == b);
        assert((7 * 0nat) as u64 == 0u64);
        assert(varint_part(b, 0) == ((b & 0x7f) as u64) << 0u64);
        assert(uvarint_acc(s, 0) == 0u64);
        assert(uvarint_acc(s, 1) == 0u64 | varint_part(b, 0));
        assert(0u64 | (((b & 0x7f) as u64) << 0u64) == ((b & 0x7f) as u64) | (0u64 << 7u64)) by (bit_vector);
    } else {
        lemma_acc_cons(b, d, (k - 1) as nat);
        let x = uvarint_acc(d, (k - 1) as nat);
        let y = (d[k - 1] & 0x7f) as u64;
        let a = (b & 0x7f) as u64;
        let sh = (7 * (k - 1)) as u64;
        assert(s[k as int] == d[k - 1]);
        assert((7 * k) as u64 == sh + 7);
        assert(varint_part(d[k - 1], (k - 1) as nat) == y << sh);
        assert(varint_part(s[k as int], k) == y << (sh + 7));
        assert(sh <= 56 ==> (a | (x << 7u64)) | (y << (sh + 7)) == a | ((x | (y << sh)) << 7u64)) by (bit_vector);
    }
}

/// Law: a LEB128 varint reads back as the value that was written, and
/// consumes exactly its own bytes, whatever follows it.
pub proof fn lemma_uvarint_leb128(n: u64, rest: Seq<u8>)
    ensures
        uvarint(leb128(n) + rest) == Some((n, leb128(n).len())),
    decreases n,
{
    let l = leb128(n);
    let data = l + rest;
    lemma_leb128_shape(n);
    let len = l.len();
    assert forall|j: int| 0 <= j < len - 1 implies #[trigger] data[j] & 0x80 != 0 by {
        assert(data[j] == l[j]);
    }
    assert(data[len - 1] == l[len - 1]);
    lemma_uvarint_len_run(data, len, 0);
    if n < 128 {
        assert(data[0] == n as u8);
        assert((7 * 0nat) as u64 == 0u64);
        assert(uvarint_acc(data, 0) == 0u64);
        assert(uvarint_acc(data, 1) == 0u64 | ((((n as u8) & 0x7f) as u64) << 0u64));
        assert(n < 128 ==> 0u64 | ((((n as u8) & 0x7f) as u64) << 0u64) == n) by (bit_vector);
    } else {
        let m = n >> 7u64;
        assert(n >= 128 ==> n >> 7u64 < n) by (bit_vector);
        lemma_uvarint_leb128(m, rest);
        let b = ((n & 0x7f) | 0x80) as u8;
        let d = leb128(m) + rest;
        assert(data =~= seq![b] + d);
        lemma_leb128_shape(m);
        lemma_acc_cons(b, d, (len - 1) as nat);
        assert(uvarint_acc(d, (len - 1) as nat) == m);
        assert(((((n & 0x7f) | 0x80) as u8 & 0x7f) as u64) | ((n >> 7u64) << 7u64) == n) by (bit_vector);
    }
}

/// Law: a length-prefixed byte string, as `push_var_string` writes it,
/// reads back as the same bytes and consumes exactly what was written,
/// whatever follows it.
pub proof fn lemma_var_bytes_round_trip(body: Seq<u8>, tail: Seq<u8>)
    requires
        body.len() <= u64::MAX,
    ensures
        var_bytes(leb128(body.len() as u64) + body + tail)
            == Some((body, leb128(body.len() as u64).len() + body.len())),
{
    let l = leb128(body.len() as u64);
    let data = l + body + tail;
    lemma_uvarint_leb128(body.len() as u64, body + tail);
    assert(data =~= l + (body + tail));
    assert(data.subrange(l.len() as int, (l.len() + body.len()) as int) =~= body);
}

/// `c` occurs in a concatenation exactly when it occurs in a part.
proof fn lemma_contains_concat(a: Seq<char>, b: Seq<char>, c: char)
    ensures
        (a + b).contains(c) <==> (a.contains(c) || b.contains(c)),
{
    if (a + b).contains(c) {
        let i = choose|i: int| 0 <= i < (a + b).len() && (a + b)[i] == c;
        if i < a.len() {
            assert(a[i] == c);
        } else {
            assert(b[i - a.len()] == c);
        }
    }
    if a.contains(c) {
        let i = choose|i: int| 0 <= i < a.len() && a[i] == c;
        assert((a + b)[i] == c);
    }
    if b.contains(c) {
        let i = choose|i: int| 0 <= i < b.len() && b[i] == c;
        assert((a + b)[a.len() + i] == c);
    }
}

/// The module-info text a synthesized binary carries names the module
/// and version it was made with.
proof fn lemma_synth_modinfo(m: Seq<char>, v: Seq<char>)
    requires
        !m.contains('\n'),
        !m.contains('\t'),
        !v.contains('\n'),
        !v.contains('\t'),
    ensures
        modinfo(synth_modinfo(m, v)) == (Some(m), Some(v)),
{
    reveal_strlit("path\t");
    reveal_strlit("/cmd/x\nmod\t");
    reveal_strlit("\t");
    reveal_strlit("\th1:0000000000000000000000000000000000000000000=\n");
    reveal_strlit("path");
    reveal_strlit("mod");
    let hash = "\th1:0000000000000000000000000000000000000000000=\n"@;
    let h = hash.subrange(1, hash.len() - 1);
    let path_w = seq!['p', 'a', 't', 'h'];
    let mod_w = seq!['m', 'o', 'd'];
    let cmdx = seq!['/', 'c', 'm', 'd', '/', 'x'];
    let nl = seq!['\n'];
    let tab = seq!['\t'];
    assert("path\t"@ =~= path_w + tab);
    assert("/cmd/x\nmod\t"@ =~= cmdx + nl + mod_w + tab);
    assert(hash =~= tab + h + nl);
    assert(!h.contains('\n'));
    assert(!h.contains('\t'));
    assert(!path_w.contains('\n'));
    assert(!path_w.contains('\t'));
    assert(!mod_w.contains('\n'));
    assert(!mod_w.contains('\t'));
    assert(!cmdx.contains('\n'));
    assert(!cmdx.contains('\t'));
    assert(!tab.contains('\n'));
    let l1 = path_w + tab + (m + cmdx);
    let l2 = mod_w + tab + (m + tab + (v + tab + h));
    let text = synth_modinfo(m, v);
    assert(text =~= l1 + nl + (l2 + nl + Seq::empty()));
    // no newline inside either line
    lemma_contains_concat(m, cmdx, '\n');
    lemma_contains_concat(path_w, tab, '\n');
    lemma_contains_concat(path_w + tab, m + cmdx, '\n');
    lemma_contains_concat(v, tab + h, '\n');
    lemma_contains_concat(tab, h, '\n');
    lemma_contains_concat(m, tab + (v + tab + h), '\n');
    lemma_contains_concat(tab, v + tab + h, '\n');
    lemma_contains_concat(v + tab, h, '\n');
    lemma_contains_concat(v, tab, '\n');
    lemma_contains_concat(m + tab, v + tab + h, '\n');
    lemma_contains_concat(m, tab, '\n');
    lemma_contains_concat(mod_w, tab, '\n');
    lemma_contains_concat(mod_w + tab, m + tab + (v + tab + h), '\n');
    assert(m + tab + (v + tab + h) =~= m + (tab + (v + tab + h)));
    assert(v + tab + h =~= v + (tab + h));
    assert(!l1.contains('\n'));
    assert(!l2.contains('\n'));
    crate::text::lemma_split_cons(l1, l2 + nl + Seq::empty(), '\n');
    crate::text::lemma_split_cons(l2, Seq::empty(), '\n');
    crate::text::lemma_split_none(Seq::empty(), '\n');
    let ps = split_char(text, '\n');
    assert(ps =~= seq![l1, l2, Seq::<char>::empty()]);
    assert(l1.last() == 'x');
    assert(l2.last() == h.last());
    assert(h.last() == '=');
    assert(crate::text::text_lines(text) =~= seq![l1, l2]);
    // the fields of each line
    lemma_contains_concat(m, cmdx, '\t');
    crate::text::lemma_split_cons(path_w, m + cmdx, '\t');
    crate::text::lemma_split_none(m + cmdx, '\t');
    let f1 = split_char(l1, '\t');
    assert(f1 =~= seq![path_w, m + cmdx]);
    lemma_contains_concat(tab, h, '\t');
    crate::text::lemma_split_cons(mod_w, m + tab + (v + tab + h), '\t');
    assert(m + tab + (v + tab + h) =~= m + seq!['\t'] + (v + tab + h));
    crate::text::lemma_split_cons(m, v + tab + h, '\t');
    assert(v + tab + h =~= v + seq!['\t'] + h);
    crate::text::lemma_split_cons(v, h, '\t');
    crate::text::lemma_split_none(h, '\t');
    let f2 = split_char(l2, '\t');
    assert(f2 =~= seq![mod_w, m, v, h]);
    assert("mod"@ =~= mod_w);
    assert("path"@ =~= path_w);
    assert(f1[0] != "mod"@);
    let st1 = modinfo_step((None, None), l1);
    assert(st1 == (Some(m + cmdx), None::<Seq<char>>));
    assert(modinfo_step(st1, l2) == (Some(m), Some(v)));
    assert(seq![l1, l2].drop_last() =~= seq![l1]);
    assert(seq![l1].drop_last() =~= Seq::<Seq<char>>::empty());
}

/// UTF-8 encoding distributes over concatenation.
proof fn lemma_encode_concat(a: Seq<char>, b: Seq<char>)
    ensures
        encode_utf8(a + b) == encode_utf8(a) + encode_utf8(b),
    decreases a.len(),
{
    if a.len() == 0 {
        assert(a + b =~= b);
        assert(encode_utf8(a) =~= Seq::<u8>::empty());
        assert(encode_utf8(a) + encode_utf8(b) =~= encode_utf8(b));
    } else {
        lemma_encode_concat(a.drop_first(), b);
        assert((a + b).drop_first() =~= a.drop_first() + b);
        assert((a + b)[0] == a[0]);
        assert(encode_utf8(a + b) =~= encode_utf8(a) + encode_utf8(b));
    }
}

/// `n` occurs in `h` at `j`.
spec fn bytes_at(h: Seq<u8>, n: Seq<u8>, j: int) -> bool {
    h.subrange(j, j + n.len()) == n
}

/// The first occurrence, when nothing matches before it.
proof fn lemma_find_first(h: Seq<u8>, n: Seq<u8>, i: int, k: int)
    requires
        0 <= i <= k,
        k + n.len() <= h.len(),
        h.subrange(k, k + n.len()) == n,
        forall|j: int| i <= j < k ==> !#[trigger] bytes_at(h, n, j),
    ensures
        crate::util::find_bytes_from(h, n, i) == Some(k),
    decreases k - i,
{
    if i < k {
        assert(!bytes_at(h, n, i));
        lemma_find_first(h, n, i + 1, k);
    }
}

/// The junk a synthesized binary starts with.
spec fn synth_junk() -> Seq<u8> {
    encode_utf8("\x7fELF-ish junk before the blob "@)
}

/// The blob of a synthesized binary after its header.
spec fn synth_tail(go_version: Seq<char>, mod_path: Seq<char>, module_version: Seq<char>) -> Seq<u8> {
    let wrapped = MOD_SENTINEL@ + encode_utf8(synth_modinfo(mod_path, module_version)) + MOD_SENTINEL@;
    let g = encode_utf8(go_version);
    leb128(g.len() as u64) + (g + (leb128(wrapped.len() as u64) + (wrapped + encode_utf8(" trailing junk"@))))
}

/// Where the header of a synthesized binary is and what follows it.
proof fn lemma_synth_header(go_version: Seq<char>, mod_path: Seq<char>, module_version: Seq<char>)
    ensures
        crate::util::find_bytes(synthesized(go_version, mod_path, module_version), MAGIC@) == Some(30int),
        synthesized(go_version, mod_path, module_version).len() >= 62,
        synthesized(go_version, mod_path, module_version)[45] == FLAG_INLINE_STRINGS,
        synthesized(go_version, mod_path, module_version).skip(62) == synth_tail(go_version, mod_path, module_version),
{
    reveal_strlit("\x7fELF-ish junk before the blob ");
    let junk_chars = "\x7fELF-ish junk before the blob "@;
    let junk = synth_junk();
    assert(vstd::utf8::is_ascii_chars(junk_chars));
    vstd::utf8::is_ascii_chars_encode_utf8(junk_chars);
    assert(junk.len() == 30);
    let data = synthesized(go_version, mod_path, module_version);
    let zeros = Seq::new(16, |i: int| 0u8);
    let rest = data.skip(62);
    assert(data =~= junk + MAGIC@ + seq![8u8, FLAG_INLINE_STRINGS] + zeros + synth_tail(go_version, mod_path, module_version));
    assert(MAGIC@.len() == 14);
    assert(MAGIC@[0] == 0xffu8);
    assert(data.subrange(30, 44) =~= MAGIC@);
    assert forall|j: int| 0 <= j < 30 implies !#[trigger] bytes_at(data, MAGIC@, j) by {
        assert(data.subrange(j, j + 14)[0] == data[j]);
        assert(data[j] == junk[j]);
        assert(junk[j] == junk_chars[j] as u8);
    }
    lemma_find_first(data, MAGIC@, 0, 30);
    assert(data[45] == FLAG_INLINE_STRINGS);
    assert(data.skip(62) =~= synth_tail(go_version, mod_path, module_version));
}

/// The sentinels around a synthesized module-info text come off.
proof fn lemma_synth_sentinel(mod_path: Seq<char>, module_version: Seq<char>)
    ensures
        strip_sentinel(MOD_SENTINEL@ + encode_utf8(synth_modinfo(mod_path, module_version)) + MOD_SENTINEL@)
            == encode_utf8(synth_modinfo(mod_path, module_version)),
{
    let text = synth_modinfo(mod_path, module_version);
    let enc_t = encode_utf8(text);
    let wrapped = MOD_SENTINEL@ + enc_t + MOD_SENTINEL@;
    reveal_strlit("\th1:0000000000000000000000000000000000000000000=\n");
    let front = text.subrange(0, text.len() - 1);
    assert(text.last() == '\n');
    assert(text =~= front + seq!['\n']);
    lemma_encode_concat(front, seq!['\n']);
    assert(encode_utf8(seq!['\n']) =~= seq![10u8]) by {
        assert(seq!['\n'].drop_first() =~= Seq::<char>::empty());
        assert(encode_utf8(Seq::<char>::empty()) =~= Seq::<u8>::empty());
        assert(('\n' as u32) == 10u32);
        assert((10u32 & 0x7fu32) as u8 == 10u8) by (bit_vector);
        assert(vstd::utf8::encode_scalar(10u32) =~= seq![10u8]);
    }
    let n = wrapped.len() as int;
    assert(enc_t.len() >= 1);
    assert(enc_t[enc_t.len() - 1] == 10u8);
    assert(wrapped[n - 17] == enc_t[enc_t.len() - 1]);
    assert(MOD_SENTINEL@.len() == 16);
    assert(wrapped.take(16) =~= MOD_SENTINEL@);
    assert(wrapped.skip(n - 16) =~= MOD_SENTINEL@);
    assert(wrapped.subrange(16, n - 16) =~= enc_t);
}

/// The two length-prefixed strings after the header of a synthesized binary.
proof fn lemma_synth_strings(go_version: Seq<char>, mod_path: Seq<char>, module_version: Seq<char>)
    requires
        encode_utf8(go_version).len() <= u64::MAX,
        encode_utf8(synth_modinfo(mod_path, module_version)).len() + 32 <= u64::MAX,
    ensures
        ({
            let wrapped = MOD_SENTINEL@ + encode_utf8(synth_modinfo(mod_path, module_version)) + MOD_SENTINEL@;
            let g = encode_utf8(go_version);
            let used = leb128(g.len() as u64).len() + g.len();
            let tail = synth_tail(go_version, mod_path, module_version);
            &&& var_bytes(tail) == Some((g, used as nat))
            &&& var_bytes(tail.skip(used as int)) matches Some((b, _)) && b == wrapped
        }),
{
    let text = synth_modinfo(mod_path, module_version);
    let enc_t = encode_utf8(text);
    let wrapped = MOD_SENTINEL@ + enc_t + MOD_SENTINEL@;
    let g = encode_utf8(go_version);
    let lg = leb128(g.len() as u64);
    let lw = leb128(wrapped.len() as u64);
    let trailing = encode_utf8(" trailing junk"@);
    let tail = synth_tail(go_version, mod_path, module_version);
    let after_g = lw + (wrapped + trailing);
    assert(tail == lg + (g + after_g));
    lemma_uvarint_leb128(g.len() as u64, g + after_g);
    let used = lg.len() + g.len();
    assert(tail.subrange(lg.len() as int, used as int) =~= g);
    let rest = tail.skip(used as int);
    assert(rest =~= lw + (wrapped + trailing));
    lemma_uvarint_leb128(wrapped.len() as u64, wrapped + trailing);
    assert(rest.subrange(lw.len() as int, (lw.len() + wrapped.len()) as int) =~= wrapped);
}

/// Law: the provenance written into a synthesized binary reads back
/// exactly: the toolchain version (`?` when empty), the module path and
/// the module version, for any module path and version that hold no tab
/// or newline (the separators of the module-info text).
#[verifier::rlimit(80)]
#[verifier::spinoff_prover]
pub proof fn lemma_synthesized_reads_back(go_version: Seq<char>, mod_path: Seq<char>, module_version: Seq<char>)
    requires
        !mod_path.contains('\n'),
        !mod_path.contains('\t'),
        !module_version.contains('\n'),
        !module_version.contains('\t'),
        encode_utf8(go_version).len() <= u64::MAX,
        encode_utf8(synth_modinfo(mod_path, module_version)).len() + 32 <= u64::MAX,
    ensures
        build_info(synthesized(go_version, mod_path, module_version)) == Some(GoInfoV {
            go_version: if go_version.len() == 0 { "?"@ } else { go_version },
            mod_path,
            module_version,
        }),
{
    let text = synth_modinfo(mod_path, module_version);
    let enc_t = encode_utf8(text);
    let wrapped = MOD_SENTINEL@ + enc_t + MOD_SENTINEL@;
    let g = encode_utf8(go_version);
    let lg = leb128(g.len() as u64);
    let lw = leb128(wrapped.len() as u64);
    lemma_synth_header(go_version, mod_path, module_version);
    let tail = synth_tail(go_version, mod_path, module_version);
    lemma_synth_strings(go_version, mod_path, module_version);
    let used = lg.len() + g.len();
    lemma_synth_sentinel(mod_path, module_version);
    lemma_synth_modinfo(mod_path, module_version);
    vstd::utf8::encode_utf8_valid_utf8(go_version);
    vstd::utf8::encode_utf8_decode_utf8(go_version);
    vstd::utf8::encode_utf8_valid_utf8(text);
    vstd::utf8::encode_utf8_decode_utf8(text);
    assert(FLAG_INLINE_STRINGS & FLAG_INLINE_STRINGS != 0) by (bit_vector);
    let data = synthesized(go_version, mod_path, module_version);
    assert(data.skip(62int) == tail);
    assert(data[45int] & FLAG_INLINE_STRINGS != 0);
    assert(var_bytes(tail) == Some((g, used as nat)));
    assert(var_bytes(tail.skip(used as int)) matches Some((b, _)) && b == wrapped);
    assert(strip_sentinel(wrapped) == enc_t);
    assert(valid_utf8(g) && decode_utf8(g) == go_version);
    assert(valid_utf8(enc_t) && decode_utf8(enc_t) == text);
    assert(modinfo(text) == (Some(mod_path), Some(module_version)));
}

} // verus!
