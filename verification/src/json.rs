//! Minimal recursive-descent JSON reader, just enough for the manifests the
//! library reads: cargo's `.crates2.json`, pipx's `pipx_metadata.json` and
//! npm's `package.json`; plus the string escaping the JSON report uses.
//!
//! A number is kept as its source text (checked against the grammar that
//! `f64`'s `FromStr` accepts); objects keep their members sorted by key
//! with the last duplicate winning, so iteration order never depends on
//! the input's key order.

use vstd::prelude::*;
use crate::text::{
    digits_len, chars_of, string_of, push_char, push_all, push_u64, lex_lt, owned, str_lt, str_eq, lemma_lex_transitive,
    lemma_lex_total, lemma_lex_asymmetric, dec,
};

verus! {

/// A parsed JSON value.
#[derive(Debug, PartialEq)]
pub enum Json {
    Null,
    Bool(bool),
    /// The number's text as written in the document.
    Number(String),
    String(String),
    Array(Vec<Json>),
    /// Members sorted by key, keys distinct.
    Object(Vec<(String, Json)>),
}

/// The mathematical value of a JSON document.
pub enum JsonV {
    Null,
    Bool(bool),
    Number(Seq<char>),
    Str(Seq<char>),
    Array(Seq<JsonV>),
    Object(Seq<(Seq<char>, JsonV)>),
}

impl Json {
    /// The value this tree stands for.
    pub open spec fn jv(self) -> JsonV
        decreases self,
    {
        match self {
            Json::Null => JsonV::Null,
            Json::Bool(b) => JsonV::Bool(b),
            Json::Number(t) => JsonV::Number(t@),
            Json::String(t) => JsonV::Str(t@),
            Json::Array(items) => JsonV::Array(items_view(items@)),
            Json::Object(m) => JsonV::Object(members_view(m@)),
        }
    }
}

pub open spec fn items_view(items: Seq<Json>) -> Seq<JsonV>
    decreases items,
{
    if items.len() == 0 {
        Seq::empty()
    } else {
        items_view(items.drop_last()).push(items.last().jv())
    }
}

pub open spec fn members_view(m: Seq<(String, Json)>) -> Seq<(Seq<char>, JsonV)>
    decreases m,
{
    if m.len() == 0 {
        Seq::empty()
    } else {
        members_view(m.drop_last()).push((m.last().0@, m.last().1.jv()))
    }
}


// ------------------------------------------------------------------
// The grammar, as a function from characters to values

/// Insignificant whitespace between JSON tokens.
pub open spec fn is_json_ws(c: char) -> bool {
    c == ' ' || c == '\t' || c == '\n' || c == '\r'
}

/// The first position at or after `p` that is not whitespace.
pub open spec fn ws_end(s: Seq<char>, p: int) -> int
    decreases s.len() - p,
{
    if 0 <= p < s.len() && is_json_ws(s[p]) {
        ws_end(s, p + 1)
    } else {
        p
    }
}

pub open spec fn is_hex(c: char) -> bool {
    ('0' <= c <= '9') || ('a' <= c <= 'f') || ('A' <= c <= 'F')
}

pub open spec fn hex_val(c: char) -> u32 {
    if '0' <= c <= '9' {
        ((c as u32) - 48) as u32
    } else if 'a' <= c <= 'f' {
        ((c as u32) - 87) as u32
    } else {
        ((c as u32) - 55) as u32
    }
}

/// `u32::from_str_radix(text, 16)` on the four characters at `at`: an
/// optional `+` followed by hex digits.
pub open spec fn hex4(s: Seq<char>, at: int) -> Option<u32> {
    if 0 <= at && at + 4 <= s.len() {
        if s[at] == '+' {
            if is_hex(s[at + 1]) && is_hex(s[at + 2]) && is_hex(s[at + 3]) {
                Some((hex_val(s[at + 1]) * 256 + hex_val(s[at + 2]) * 16 + hex_val(s[at + 3])) as u32)
            } else {
                None
            }
        } else if is_hex(s[at]) && is_hex(s[at + 1]) && is_hex(s[at + 2]) && is_hex(s[at + 3]) {
            Some((hex_val(s[at]) * 4096 + hex_val(s[at + 1]) * 256 + hex_val(s[at + 2]) * 16
                + hex_val(s[at + 3])) as u32)
        } else {
            None
        }
    } else {
        None
    }
}

/// The character a one-letter escape `\e` stands for.
pub open spec fn simple_escape(e: char) -> Option<char> {
    if e == '"' {
        Some('"')
    } else if e == '\\' {
        Some('\\')
    } else if e == '/' {
        Some('/')
    } else if e == 'b' {
        Some('\x08')
    } else if e == 'f' {
        Some('\x0c')
    } else if e == 'n' {
        Some('\n')
    } else if e == 'r' {
        Some('\r')
    } else if e == 't' {
        Some('\t')
    } else {
        None
    }
}

/// The rest of a string literal starting at `p` (after the opening quote),
/// decoded and appended to `acc`; with the position after the closing quote.
pub open spec fn str_body(s: Seq<char>, p: int, acc: Seq<char>) -> Option<(Seq<char>, int)>
    decreases s.len() - p,
{
    if p < 0 || p >= s.len() {
        None
    } else if s[p] == '"' {
        Some((acc, p + 1))
    } else if s[p] == '\\' {
        if p + 1 >= s.len() {
            None
        } else if s[p + 1] == 'u' {
            match hex4(s, p + 2) {
                None => None,
                Some(cp) => if 0xD800 <= cp < 0xDC00 {
                    if s.len() - p <= 7 || s[p + 6] != '\\' || s[p + 7] != 'u' {
                        None
                    } else {
                        match hex4(s, p + 8) {
                            None => None,
                            Some(low) => if 0xDC00 <= low < 0xE000 {
                                let combined = 0x10000 + (cp - 0xD800) * 1024 + (low - 0xDC00);
                                str_body(s, p + 12, acc.push((combined as u32) as char))
                            } else {
                                None
                            },
                        }
                    }
                } else if 0xDC00 <= cp < 0xE000 {
                    None
                } else {
                    str_body(s, p + 6, acc.push(cp as char))
                },
            }
        } else {
            match simple_escape(s[p + 1]) {
                Some(c) => str_body(s, p + 2, acc.push(c)),
                None => None,
            }
        }
    } else {
        str_body(s, p + 1, acc.push(s[p]))
    }
}

/// Characters that can occur in the text of a number.
pub open spec fn is_num_char(c: char) -> bool {
    c == '-' || c == '+' || c == '.' || c == 'e' || c == 'E' || ('0' <= c <= '9')
}

/// The end of the run of number characters starting at `p`.
pub open spec fn num_end(s: Seq<char>, p: int) -> int
    decreases s.len() - p,
{
    if 0 <= p < s.len() && is_num_char(s[p]) {
        num_end(s, p + 1)
    } else {
        p
    }
}

/// An exponent: `e` or `E`, an optional sign, at least one digit, nothing else.
pub open spec fn valid_exponent(t: Seq<char>) -> bool {
    &&& t.len() >= 2
    &&& (t[0] == 'e' || t[0] == 'E')
    &&& {
        let u = if t[1] == '+' || t[1] == '-' { t.skip(2) } else { t.skip(1) };
        u.len() > 0 && digits_len(u) == u.len()
    }
}

/// A mantissa (`1`, `1.`, `1.5`, `.5`) optionally followed by an exponent.
pub open spec fn valid_unsigned_float(t: Seq<char>) -> bool {
    let a = digits_len(t);
    let r = t.skip(a as int);
    if r.len() > 0 && r[0] == '.' {
        let b = digits_len(r.drop_first());
        let r2 = r.drop_first().skip(b as int);
        (a + b > 0) && (r2.len() == 0 || valid_exponent(r2))
    } else {
        a > 0 && (r.len() == 0 || valid_exponent(r))
    }
}

/// What `str::parse::<f64>` accepts, for text made of number characters:
/// an optional sign, then a decimal mantissa and exponent.
pub open spec fn valid_float(t: Seq<char>) -> bool {
    if t.len() > 0 && (t[0] == '+' || t[0] == '-') {
        valid_unsigned_float(t.drop_first())
    } else {
        valid_unsigned_float(t)
    }
}

/// `lit` occurs at position `p` of `s`.
pub open spec fn lit_at(s: Seq<char>, p: int, lit: Seq<char>) -> bool {
    0 <= p && p + lit.len() <= s.len() && s.subrange(p, p + lit.len()) == lit
}

/// Insert `(k, v)` into members sorted by key, replacing an equal key.
pub open spec fn obj_insert(m: Seq<(Seq<char>, JsonV)>, k: Seq<char>, v: JsonV) -> Seq<
    (Seq<char>, JsonV),
>
    decreases m.len(),
{
    if m.len() == 0 {
        seq![(k, v)]
    } else if m[0].0 == k {
        seq![(k, v)] + m.drop_first()
    } else if lex_lt(k, m[0].0) {
        seq![(k, v)] + m
    } else {
        seq![m[0]] + obj_insert(m.drop_first(), k, v)
    }
}

/// A value starting at `p` (after optional whitespace), with the position after it.
pub open spec fn value_at(s: Seq<char>, p: int) -> Option<(JsonV, int)>
    decreases s.len() - p, 0int,
{
    let q = ws_end(s, p);
    if q < 0 || q >= s.len() || q < p {
        None
    } else if s[q] == '{' {
        let r = ws_end(s, q + 1);
        if r < s.len() && s[r] == '}' {
            Some((JsonV::Object(Seq::empty()), r + 1))
        } else {
            members_at(s, q + 1, Seq::empty())
        }
    } else if s[q] == '[' {
        let r = ws_end(s, q + 1);
        if r < s.len() && s[r] == ']' {
            Some((JsonV::Array(Seq::empty()), r + 1))
        } else {
            items_at(s, q + 1, Seq::empty())
        }
    } else if s[q] == '"' {
        match str_body(s, q + 1, Seq::empty()) {
            Some((t, e)) => Some((JsonV::Str(t), e)),
            None => None,
        }
    } else if s[q] == 't' {
        if lit_at(s, q, seq!['t', 'r', 'u', 'e']) { Some((JsonV::Bool(true), q + 4)) } else { None }
    } else if s[q] == 'f' {
        if lit_at(s, q, seq!['f', 'a', 'l', 's', 'e']) {
            Some((JsonV::Bool(false), q + 5))
        } else {
            None
        }
    } else if s[q] == 'n' {
        if lit_at(s, q, seq!['n', 'u', 'l', 'l']) { Some((JsonV::Null, q + 4)) } else { None }
    } else {
        let e = num_end(s, q);
        let t = s.subrange(q, e);
        if valid_float(t) { Some((JsonV::Number(t), e)) } else { None }
    }
}

/// Array elements from `p` on, appended to `acc`, through the closing `]`.
pub open spec fn items_at(s: Seq<char>, p: int, acc: Seq<JsonV>) -> Option<(JsonV, int)>
    decreases s.len() - p, 1int,
{
    match value_at(s, p) {
        None => None,
        Some((v, q)) => {
            let r = ws_end(s, q);
            if r < p || r >= s.len() {
                None
            } else if s[r] == ',' {
                items_at(s, r + 1, acc.push(v))
            } else if s[r] == ']' {
                Some((JsonV::Array(acc.push(v)), r + 1))
            } else {
                None
            }
        },
    }
}

/// Object members from `p` on, inserted into `acc`, through the closing `}`.
pub open spec fn members_at(s: Seq<char>, p: int, acc: Seq<(Seq<char>, JsonV)>) -> Option<
    (JsonV, int),
>
    decreases s.len() - p, 1int,
{
    let q = ws_end(s, p);
    if q < p || q >= s.len() || s[q] != '"' {
        None
    } else {
        match str_body(s, q + 1, Seq::empty()) {
            None => None,
            Some((k, e)) => {
                let c = ws_end(s, e);
                if c < p || c >= s.len() || s[c] != ':' {
                    None
                } else {
                    match value_at(s, c + 1) {
                        None => None,
                        Some((v, f)) => {
                            let r = ws_end(s, f);
                            if r < p || r >= s.len() {
                                None
                            } else if s[r] == ',' {
                                members_at(s, r + 1, obj_insert(acc, k, v))
                            } else if s[r] == '}' {
                                Some((JsonV::Object(obj_insert(acc, k, v)), r + 1))
                            } else {
                                None
                            }
                        },
                    }
                }
            },
        }
    }
}

/// The value of a complete document: one value, then only whitespace.
pub open spec fn parse_doc(s: Seq<char>) -> Option<JsonV> {
    match value_at(s, 0) {
        Some((v, q)) => if ws_end(s, q) == s.len() { Some(v) } else { None },
        None => None,
    }
}

// ------------------------------------------------------------------
// Laws of the reader

/// The whitespace JSON allows between tokens (RFC 8259): space, tab,
/// newline and carriage return, and nothing else.
pub open spec fn rfc_ws(c: char) -> bool {
    c == ' ' || c == '\t' || c == '\n' || c == '\r'
}

/// Skipping whitespace never moves backwards nor past the end.
pub proof fn lemma_ws_end_bounds(s: Seq<char>, p: int)
    requires
        0 <= p <= s.len(),
    ensures
        p <= ws_end(s, p) <= s.len(),
    decreases s.len() - p,
{
    if p < s.len() && is_json_ws(s[p]) {
        lemma_ws_end_bounds(s, p + 1);
    }
}

/// The end of a run of number characters lies within the text.
proof fn lemma_num_end_bounds(s: Seq<char>, p: int)
    requires
        0 <= p <= s.len(),
    ensures
        p <= num_end(s, p) <= s.len(),
    decreases s.len() - p,
{
    if p < s.len() && is_num_char(s[p]) {
        lemma_num_end_bounds(s, p + 1);
    }
}

/// A string body that reads ends after where it starts, within the text.
proof fn lemma_str_body_end(s: Seq<char>, p: int, acc: Seq<char>)
    ensures
        str_body(s, p, acc) matches Some((_, e)) ==> p < e <= s.len(),
    decreases s.len() - p,
{
    if 0 <= p < s.len() && s[p] != '"' {
        if s[p] == '\\' {
            if p + 1 < s.len() {
                if s[p + 1] == 'u' {
                    if let Some(cp) = hex4(s, p + 2) {
                        if 0xD800 <= cp < 0xDC00 {
                            if !(s.len() - p <= 7 || s[p + 6] != '\\' || s[p + 7] != 'u') {
                                if let Some(low) = hex4(s, p + 8) {
                                    if 0xDC00 <= low < 0xE000 {
                                        let combined = 0x10000 + (cp - 0xD800) * 1024 + (low - 0xDC00);
                                        lemma_str_body_end(s, p + 12, acc.push((combined as u32) as char));
                                    }
                                }
                            }
                        } else if !(0xDC00 <= cp < 0xE000) {
                            lemma_str_body_end(s, p + 6, acc.push(cp as char));
                        }
                    }
                } else if let Some(c) = simple_escape(s[p + 1]) {
                    lemma_str_body_end(s, p + 2, acc.push(c));
                }
            }
        } else {
            lemma_str_body_end(s, p + 1, acc.push(s[p]));
        }
    }
}

/// A value that reads ends after where it starts, within the text.
pub proof fn lemma_value_end(s: Seq<char>, p: int)
    requires
        0 <= p <= s.len(),
    ensures
        value_at(s, p) matches Some((_, e)) ==> p < e <= s.len(),
    decreases s.len() - p, 0int,
{
    lemma_ws_end_bounds(s, p);
    let q = ws_end(s, p);
    if q < s.len() {
        if s[q] == '{' {
            lemma_ws_end_bounds(s, q + 1);
            lemma_members_end(s, q + 1, Seq::empty());
        } else if s[q] == '[' {
            lemma_ws_end_bounds(s, q + 1);
            lemma_items_end(s, q + 1, Seq::empty());
        } else if s[q] == '"' {
            lemma_str_body_end(s, q + 1, Seq::empty());
        } else if s[q] != 't' && s[q] != 'f' && s[q] != 'n' {
            lemma_num_end_bounds(s, q);
            let e = num_end(s, q);
            if e == q {
                assert(s.subrange(q, e) =~= Seq::<char>::empty());
            }
        }
    }
}

/// Array elements that read end after where they start, within the text.
pub proof fn lemma_items_end(s: Seq<char>, p: int, acc: Seq<JsonV>)
    requires
        0 <= p <= s.len(),
    ensures
        items_at(s, p, acc) matches Some((_, e)) ==> p < e <= s.len(),
    decreases s.len() - p, 1int,
{
    lemma_value_end(s, p);
    if let Some((v, q)) = value_at(s, p) {
        lemma_ws_end_bounds(s, q);
        let r = ws_end(s, q);
        if r < s.len() && s[r] == ',' {
            lemma_items_end(s, r + 1, acc.push(v));
        }
    }
}

/// Object members that read end after where they start, within the text.
pub proof fn lemma_members_end(s: Seq<char>, p: int, acc: Seq<(Seq<char>, JsonV)>)
    requires
        0 <= p <= s.len(),
    ensures
        members_at(s, p, acc) matches Some((_, e)) ==> p < e <= s.len(),
    decreases s.len() - p, 1int,
{
    lemma_ws_end_bounds(s, p);
    let q = ws_end(s, p);
    if q < s.len() && s[q] == '"' {
        lemma_str_body_end(s, q + 1, Seq::empty());
        if let Some((k, e)) = str_body(s, q + 1, Seq::empty()) {
            lemma_ws_end_bounds(s, e);
            let c = ws_end(s, e);
            if c < s.len() && s[c] == ':' {
                lemma_value_end(s, c + 1);
                if let Some((v, f)) = value_at(s, c + 1) {
                    lemma_ws_end_bounds(s, f);
                    let r = ws_end(s, f);
                    if r < s.len() && s[r] == ',' {
                        lemma_members_end(s, r + 1, obj_insert(acc, k, v));
                    }
                }
            }
        }
    }
}

/// Law: whitespace between tokens is exactly space, tab, newline and
/// carriage return. One such character where the reader expects a value,
/// array elements or object members is skipped without changing what is
/// read; any other character stops the skipping.
pub proof fn lemma_json_whitespace(
    s: Seq<char>,
    p: int,
    items: Seq<JsonV>,
    members: Seq<(Seq<char>, JsonV)>,
)
    requires
        0 <= p < s.len(),
    ensures
        rfc_ws(s[p]) ==> ws_end(s, p) == ws_end(s, p + 1),
        rfc_ws(s[p]) ==> value_at(s, p) == value_at(s, p + 1),
        rfc_ws(s[p]) ==> items_at(s, p, items) == items_at(s, p + 1, items),
        rfc_ws(s[p]) ==> members_at(s, p, members) == members_at(s, p + 1, members),
        !rfc_ws(s[p]) ==> ws_end(s, p) == p,
{
    if rfc_ws(s[p]) {
        assert(is_json_ws(s[p]));
        lemma_ws_end_bounds(s, p + 1);
        lemma_value_end(s, p + 1);
        if let Some((v, q)) = value_at(s, p + 1) {
            lemma_ws_end_bounds(s, q);
        }
        let q = ws_end(s, p + 1);
        if q < s.len() && s[q] == '"' {
            lemma_str_body_end(s, q + 1, Seq::empty());
            if let Some((k, e)) = str_body(s, q + 1, Seq::empty()) {
                lemma_ws_end_bounds(s, e);
                let c = ws_end(s, e);
                if c < s.len() && s[c] == ':' {
                    lemma_value_end(s, c + 1);
                    if let Some((v, f)) = value_at(s, c + 1) {
                        lemma_ws_end_bounds(s, f);
                    }
                }
            }
        }
    }
}

/// Law: looking a key up in an object after inserting a member finds the
/// inserted value for that key and what was there before for any other.
pub proof fn lemma_find_key_insert(m: Seq<(Seq<char>, JsonV)>, k: Seq<char>, v: JsonV, k2: Seq<char>)
    ensures
        find_key(obj_insert(m, k, v), k2) == (if k2 == k { Some(v) } else { find_key(m, k2) }),
    decreases m.len(),
{
    let r = obj_insert(m, k, v);
    if m.len() == 0 {
        assert(r.drop_first() =~= Seq::<(Seq<char>, JsonV)>::empty());
    } else if m[0].0 == k {
        assert(r.drop_first() =~= m.drop_first());
    } else if lex_lt(k, m[0].0) {
        assert(r.drop_first() =~= m);
    } else {
        lemma_find_key_insert(m.drop_first(), k, v, k2);
        assert(r.drop_first() =~= obj_insert(m.drop_first(), k, v));
    }
}

// ------------------------------------------------------------------
// What the reader says when it refuses a text

/// `msg`, then ` at byte ` and the byte offset of position `i`.
pub open spec fn err_at(msg: Seq<char>, s: Seq<char>, i: int) -> Seq<char> {
    msg + " at byte "@ + dec(byte_offset_at(s, i) as nat)
}

/// Why the string literal body starting at `p` does not read, when it
/// does not.
pub open spec fn str_err(s: Seq<char>, p: int) -> Seq<char>
    decreases s.len() - p,
{
    if p < 0 || p >= s.len() {
        "unterminated string"@
    } else if s[p] == '"' {
        Seq::empty()
    } else if s[p] == '\\' {
        if p + 1 >= s.len() {
            "unterminated escape"@
        } else if s[p + 1] == 'u' {
            match hex4(s, p + 2) {
                None => hex_err(s, p + 2),
                Some(cp) => if 0xD800 <= cp < 0xDC00 {
                    if s.len() - p <= 7 || s[p + 6] != '\\' || s[p + 7] != 'u' {
                        "lone high surrogate"@
                    } else {
                        match hex4(s, p + 8) {
                            None => hex_err(s, p + 8),
                            Some(low) => if 0xDC00 <= low < 0xE000 {
                                str_err(s, p + 12)
                            } else {
                                "invalid low surrogate"@
                            },
                        }
                    }
                } else if 0xDC00 <= cp < 0xE000 {
                    "lone low surrogate"@
                } else {
                    str_err(s, p + 6)
                },
            }
        } else {
            match simple_escape(s[p + 1]) {
                Some(_) => str_err(s, p + 2),
                None => "invalid escape '\\"@ + seq![s[p + 1]] + "'"@,
            }
        }
    } else {
        str_err(s, p + 1)
    }
}

/// Why the value starting at `p` does not read, when it does not.
pub open spec fn value_err(s: Seq<char>, p: int) -> Seq<char>
    decreases s.len() - p, 0int,
{
    let q = ws_end(s, p);
    if q < p {
        Seq::empty()
    } else if q < 0 || q >= s.len() {
        "unexpected end of input"@
    } else if s[q] == '{' {
        let r = ws_end(s, q + 1);
        if r < s.len() && s[r] == '}' {
            Seq::empty()
        } else {
            members_err(s, q + 1)
        }
    } else if s[q] == '[' {
        let r = ws_end(s, q + 1);
        if r < s.len() && s[r] == ']' {
            Seq::empty()
        } else {
            items_err(s, q + 1)
        }
    } else if s[q] == '"' {
        str_err(s, q + 1)
    } else if s[q] == 't' || s[q] == 'f' || s[q] == 'n' {
        err_at("invalid literal"@, s, q)
    } else {
        err_at("invalid number '"@ + s.subrange(q, num_end(s, q)) + "'"@, s, q)
    }
}

/// Why the array elements from `p` on do not read, when they do not.
pub open spec fn items_err(s: Seq<char>, p: int) -> Seq<char>
    decreases s.len() - p, 1int,
{
    match value_at(s, p) {
        None => value_err(s, p),
        Some((_, q)) => {
            let r = ws_end(s, q);
            if r < p {
                Seq::empty()
            } else if r >= s.len() {
                err_at("expected ',' or ']'"@, s, r)
            } else if s[r] == ',' {
                items_err(s, r + 1)
            } else if s[r] == ']' {
                Seq::empty()
            } else {
                err_at("expected ',' or ']'"@, s, r)
            }
        },
    }
}

/// Why the object members from `p` on do not read, when they do not.
pub open spec fn members_err(s: Seq<char>, p: int) -> Seq<char>
    decreases s.len() - p, 1int,
{
    let q = ws_end(s, p);
    if q < p {
        Seq::empty()
    } else if q >= s.len() || s[q] != '"' {
        err_at("expected object key"@, s, q)
    } else {
        match str_body(s, q + 1, Seq::empty()) {
            None => str_err(s, q + 1),
            Some((_, e)) => {
                let c = ws_end(s, e);
                if c < p {
                    Seq::empty()
                } else if c >= s.len() || s[c] != ':' {
                    err_at("expected ':'"@, s, c)
                } else {
                    match value_at(s, c + 1) {
                        None => value_err(s, c + 1),
                        Some((_, f)) => {
                            let r = ws_end(s, f);
                            if r < p {
                                Seq::empty()
                            } else if r >= s.len() {
                                err_at("expected ',' or '}'"@, s, r)
                            } else if s[r] == ',' {
                                members_err(s, r + 1)
                            } else if s[r] == '}' {
                                Seq::empty()
                            } else {
                                err_at("expected ',' or '}'"@, s, r)
                            }
                        },
                    }
                }
            },
        }
    }
}

/// Why a text is not a JSON document, when it is not: the complaint
/// about its value, or the trailing characters after it.
pub open spec fn doc_err(s: Seq<char>) -> Seq<char> {
    match value_at(s, 0) {
        None => value_err(s, 0),
        Some((_, q)) => err_at("trailing characters"@, s, ws_end(s, q)),
    }
}


// ------------------------------------------------------------------
// The reader

/// `char::from_u32`: the character whose scalar value is `v`, when `v` is
/// a Unicode scalar value (not a surrogate, at most `0x10FFFF`).
#[verifier::external_body]
fn char_from_u32(v: u32) -> (r: Option<char>)
    ensures
        r is Some <==> (v < 0xD800 || (0xE000 <= v && v <= 0x10FFFF)),
        r matches Some(c) ==> c as u32 == v,
{
    char::from_u32(v)
}

fn is_ws_char(c: char) -> (r: bool)
    ensures
        r == is_json_ws(c),
{
    c == ' ' || c == '\t' || c == '\n' || c == '\r'
}

/// The number of bytes UTF-8 spends on one character.
pub open spec fn utf8_width(c: char) -> nat {
    if (c as u32) < 0x80 {
        1
    } else if (c as u32) < 0x800 {
        2
    } else if (c as u32) < 0x10000 {
        3
    } else {
        4
    }
}

/// The number of bytes UTF-8 spends on a character sequence.
pub open spec fn utf8_len(s: Seq<char>) -> nat
    decreases s.len(),
{
    if s.len() == 0 {
        0
    } else {
        utf8_len(s.drop_last()) + utf8_width(s.last())
    }
}

/// The byte offset of position `i`, held at `u64::MAX` when larger.
pub open spec fn byte_offset_at(s: Seq<char>, i: int) -> u64 {
    let n = utf8_len(s.take(i));
    if n <= u64::MAX {
        n as u64
    } else {
        u64::MAX
    }
}

/// The number of bytes UTF-8 spends on the characters before `i`: the
/// byte offset that error messages report.
fn byte_offset(s: &Vec<char>, i: usize) -> (r: u64)
    requires
        i <= s@.len(),
    ensures
        r == byte_offset_at(s@, i as int),
{
    let mut n: u64 = 0;
    let mut k: usize = 0;
    assert(s@.take(0) =~= Seq::<char>::empty());
    while k < i
        invariant
            k <= i <= s@.len(),
            n == byte_offset_at(s@, k as int),
        decreases i - k,
    {
        let c = s[k] as u32;
        let w: u64 = if c < 0x80 { 1 } else if c < 0x800 { 2 } else if c < 0x10000 { 3 } else { 4 };
        assert(s@.take(k + 1).drop_last() =~= s@.take(k as int));
        assert(s@.take(k + 1).last() == s@[k as int]);
        assert(w == utf8_width(s@[k as int]));
        n = if n <= u64::MAX - w { n + w } else { u64::MAX };
        k += 1;
    }
    n
}

/// `msg` followed by ` at byte ` and the byte offset of position `i`.
fn error_at(msg: String, s: &Vec<char>, i: usize) -> (r: String)
    requires
        i <= s@.len(),
    ensures
        r@ == msg@ + " at byte "@ + dec(byte_offset_at(s@, i as int) as nat),
{
    let mut m = msg;
    push_all(&mut m, " at byte ");
    push_u64(&mut m, byte_offset(s, i));
    m
}

/// Skips whitespace from `pos` on.
fn skip_ws(s: &Vec<char>, pos: usize) -> (r: usize)
    requires
        pos <= s@.len(),
    ensures
        r as int == ws_end(s@, pos as int),
        pos <= r <= s@.len(),
{
    let mut p = pos;
    while p < s.len() && is_ws_char(s[p])
        invariant
            pos <= p <= s@.len(),
            ws_end(s@, pos as int) == ws_end(s@, p as int),
        decreases s@.len() - p,
    {
        p += 1;
    }
    p
}

fn hex_digit(c: char) -> (r: Option<u32>)
    ensures
        r is Some <==> is_hex(c),
        r matches Some(v) ==> v == hex_val(c) && v < 16,
{
    if '0' <= c && c <= '9' {
        Some(c as u32 - 48)
    } else if 'a' <= c && c <= 'f' {
        Some(c as u32 - 87)
    } else if 'A' <= c && c <= 'F' {
        Some(c as u32 - 55)
    } else {
        None
    }
}

/// Reads the four-character hex code of a `\u` escape.
fn parse_hex4(s: &Vec<char>, at: usize) -> (r: Option<u32>)
    ensures
        r == hex4(s@, at as int),
{
    if at > s.len() || s.len() - at < 4 {
        return None;
    }
    if s[at] == '+' {
        match (hex_digit(s[at + 1]), hex_digit(s[at + 2]), hex_digit(s[at + 3])) {
            (Some(a), Some(b), Some(c)) => Some(a * 256 + b * 16 + c),
            _ => None,
        }
    } else {
        match (hex_digit(s[at]), hex_digit(s[at + 1]), hex_digit(s[at + 2]), hex_digit(s[at + 3])) {
            (Some(a), Some(b), Some(c), Some(d)) => Some(a * 4096 + b * 256 + c * 16 + d),
            _ => None,
        }
    }
}

fn simple_escape_of(e: char) -> (r: Option<char>)
    ensures
        r == simple_escape(e),
{
    if e == '"' {
        Some('"')
    } else if e == '\\' {
        Some('\\')
    } else if e == '/' {
        Some('/')
    } else if e == 'b' {
        Some('\x08')
    } else if e == 'f' {
        Some('\x0c')
    } else if e == 'n' {
        Some('\n')
    } else if e == 'r' {
        Some('\r')
    } else if e == 't' {
        Some('\t')
    } else {
        None
    }
}

/// The four bytes of a `\\u` escape's code, counted in UTF-8 from
/// position `i` with `need` bytes still wanted: `None` when the text ends
/// first, `Some(Some(e))` when the bytes end exactly before position `e`,
/// `Some(None)` when a character straddles the fourth byte.
pub open spec fn hex_window(s: Seq<char>, i: int, need: int) -> Option<Option<int>>
    decreases s.len() - i,
{
    if need <= 0 {
        Some(Some(i))
    } else if i < 0 || i >= s.len() {
        None
    } else if utf8_width(s[i]) > need {
        Some(None)
    } else {
        hex_window(s, i + 1, need - utf8_width(s[i]))
    }
}

/// The complaint about a `\\u` escape whose four bytes at `at` are not a
/// hex code: too few bytes left, bytes that split a character, or the
/// text they spell.
pub open spec fn hex_err(s: Seq<char>, at: int) -> Seq<char> {
    match hex_window(s, at, 4) {
        None => "truncated \\u escape"@,
        Some(None) => "bad \\u escape"@,
        Some(Some(e)) => "bad \\u escape '"@ + s.subrange(at, e) + "'"@,
    }
}

/// Why the four bytes of a `\\u` escape at `at` are not a hex code.
fn hex_error(s: &Vec<char>, at: usize) -> (r: String)
    ensures
        r@ == hex_err(s@, at as int),
{
    let mut i = at;
    let mut need: usize = 4;
    loop
        invariant
            at <= i,
            i <= s@.len() || i == at,
            need <= 4,
            need > 0,
            hex_window(s@, at as int, 4) == hex_window(s@, i as int, need as int),
            i > at ==> i <= s@.len(),
        decreases s@.len() + 1 - i,
    {
        if i >= s.len() {
            return owned("truncated \\u escape");
        }
        let c = s[i] as u32;
        let w: usize = if c < 0x80 { 1 } else if c < 0x800 { 2 } else if c < 0x10000 { 3 } else { 4 };
        assert(w == utf8_width(s@[i as int]));
        if w > need {
            return owned("bad \\u escape");
        }
        need = need - w;
        i = i + 1;
        if need == 0 {
            let mut m = owned("bad \\u escape '");
            let t = string_of(s, at, i);
            push_all(&mut m, t.as_str());
            push_all(&mut m, "'");
            return m;
        }
    }
}

/// Reads the body of a string literal starting at `pos` (just after the
/// opening quote).
fn parse_string(s: &Vec<char>, pos: usize) -> (r: Result<(String, usize), String>)
    requires
        pos <= s@.len(),
    ensures
        str_body(s@, pos as int, Seq::empty()) is Some <==> r is Ok,
        r matches Ok((t, e)) ==> str_body(s@, pos as int, Seq::empty()) == Some((t@, e as int)) && pos
            < e <= s@.len(),
        r matches Err(m) ==> m@ == str_err(s@, pos as int),
{
    let mut out = String::new();
    let mut p = pos;
    loop
        invariant
            pos <= p <= s@.len(),
            str_body(s@, pos as int, Seq::empty()) == str_body(s@, p as int, out@),
            str_err(s@, pos as int) == str_err(s@, p as int),
        decreases s@.len() - p,
    {
        if p >= s.len() {
            return Err(owned("unterminated string"));
        }
        let c = s[p];
        if c == '"' {
            return Ok((out, p + 1));
        } else if c == '\\' {
            if p + 1 >= s.len() {
                return Err(owned("unterminated escape"));
            }
            let e = s[p + 1];
            if e == 'u' {
                let cp = match parse_hex4(s, p + 2) {
                    Some(v) => v,
                    None => return Err(hex_error(s, p + 2)),
                };
                if 0xD800 <= cp && cp < 0xDC00 {
                    if s.len() - p <= 7 || s[p + 6] != '\\' || s[p + 7] != 'u' {
                        return Err(owned("lone high surrogate"));
                    }
                    let low = match parse_hex4(s, p + 8) {
                        Some(v) => v,
                        None => return Err(hex_error(s, p + 8)),
                    };
                    if !(0xDC00 <= low && low < 0xE000) {
                        return Err(owned("invalid low surrogate"));
                    }
                    let combined = 0x10000 + (cp - 0xD800) * 1024 + (low - 0xDC00);
                    match char_from_u32(combined) {
                        Some(ch) => {
                            proof { vstd::utf8::char_u32_cast(ch, combined); }
                            push_char(&mut out, ch);
                        }
                        None => return Err(owned("invalid surrogate pair")),
                    }
                    p = p + 12;
                } else if 0xDC00 <= cp && cp < 0xE000 {
                    return Err(owned("lone low surrogate"));
                } else {
                    match char_from_u32(cp) {
                        Some(ch) => {
                            proof { vstd::utf8::char_u32_cast(ch, cp); }
                            push_char(&mut out, ch);
                        }
                        None => return Err(owned("invalid \\u escape")),
                    }
                    p = p + 6;
                }
            } else {
                match simple_escape_of(e) {
                    Some(ch) => push_char(&mut out, ch),
                    None => {
                        let mut m = owned("invalid escape '\\");
                        push_char(&mut m, e);
                        push_all(&mut m, "'");
                        return Err(m);
                    },
                }
                p = p + 2;
            }
        } else {
            push_char(&mut out, c);
            p = p + 1;
        }
    }
}


fn digits_from(s: &Vec<char>, i: usize, to: usize) -> (n: usize)
    requires
        i <= to <= s@.len(),
    ensures
        n == digits_len(s@.subrange(i as int, to as int)),
        i + n <= to,
{
    let mut j = i;
    while j < to && '0' <= s[j] && s[j] <= '9'
        invariant
            i <= j <= to <= s@.len(),
            digits_len(s@.subrange(i as int, to as int)) == (j - i) + digits_len(
                s@.subrange(j as int, to as int),
            ),
        decreases to - j,
    {
        assert(s@.subrange(j as int, to as int).drop_first() =~= s@.subrange(j + 1, to as int));
        j += 1;
    }
    j - i
}

fn check_exponent(s: &Vec<char>, from: usize, to: usize) -> (r: bool)
    requires
        from <= to <= s@.len(),
    ensures
        r == valid_exponent(s@.subrange(from as int, to as int)),
{
    let ghost t = s@.subrange(from as int, to as int);
    if to - from < 2 {
        return false;
    }
    if s[from] != 'e' && s[from] != 'E' {
        return false;
    }
    let start = if s[from + 1] == '+' || s[from + 1] == '-' { from + 2 } else { from + 1 };
    assert(t.skip(start - from) =~= s@.subrange(start as int, to as int));
    if start >= to {
        return false;
    }
    let n = digits_from(s, start, to);
    n == to - start
}

fn check_unsigned_float(s: &Vec<char>, from: usize, to: usize) -> (r: bool)
    requires
        from <= to <= s@.len(),
    ensures
        r == valid_unsigned_float(s@.subrange(from as int, to as int)),
{
    let ghost t = s@.subrange(from as int, to as int);
    let a = digits_from(s, from, to);
    let m = from + a;
    assert(t.skip(a as int) =~= s@.subrange(m as int, to as int));
    if m < to && s[m] == '.' {
        assert(t.skip(a as int).drop_first() =~= s@.subrange(m + 1, to as int));
        let b = digits_from(s, m + 1, to);
        let m2 = m + 1 + b;
        assert(t.skip(a as int).drop_first().skip(b as int) =~= s@.subrange(m2 as int, to as int));
        (a + b > 0) && (m2 == to || check_exponent(s, m2, to))
    } else {
        a > 0 && (m == to || check_exponent(s, m, to))
    }
}

/// Whether `s[from..to]` is text that `str::parse::<f64>` accepts.
fn check_float(s: &Vec<char>, from: usize, to: usize) -> (r: bool)
    requires
        from <= to <= s@.len(),
    ensures
        r == valid_float(s@.subrange(from as int, to as int)),
{
    let ghost t = s@.subrange(from as int, to as int);
    if from < to && (s[from] == '+' || s[from] == '-') {
        assert(t.drop_first() =~= s@.subrange(from + 1, to as int));
        check_unsigned_float(s, from + 1, to)
    } else {
        check_unsigned_float(s, from, to)
    }
}

fn is_num_char_exec(c: char) -> (r: bool)
    ensures
        r == is_num_char(c),
{
    c == '-' || c == '+' || c == '.' || c == 'e' || c == 'E' || ('0' <= c && c <= '9')
}

/// Whether the characters of `lit` occur at `pos`.
fn lit_at_exec(s: &Vec<char>, pos: usize, lit: &str) -> (r: bool)
    ensures
        r == lit_at(s@, pos as int, lit@),
{
    let l = chars_of(lit);
    if pos > s.len() || s.len() - pos < l.len() {
        return false;
    }
    let mut i: usize = 0;
    while i < l.len()
        invariant
            i <= l@.len(),
            l@ == lit@,
            pos + l@.len() <= s@.len() <= usize::MAX,
            forall|j: int| 0 <= j < i ==> s@[pos + j] == l@[j],
        decreases l@.len() - i,
    {
        if s[pos + i] != l[i] {
            assert(s@.subrange(pos as int, pos + l@.len())[i as int] != l@[i as int]);
            return false;
        }
        i += 1;
    }
    assert(s@.subrange(pos as int, pos + l@.len()) =~= l@);
    true
}


// ------------------------------------------------------------------
// Views of element and member sequences, pointwise

pub proof fn lemma_items_view(items: Seq<Json>)
    ensures
        items_view(items).len() == items.len(),
        forall|i: int| 0 <= i < items.len() ==> #[trigger] items_view(items)[i] == items[i].jv(),
    decreases items.len(),
{
    if items.len() > 0 {
        lemma_items_view(items.drop_last());
    }
}

pub proof fn lemma_members_view(m: Seq<(String, Json)>)
    ensures
        members_view(m).len() == m.len(),
        forall|i: int|
            0 <= i < m.len() ==> #[trigger] members_view(m)[i] == (m[i].0@, m[i].1.jv()),
    decreases m.len(),
{
    if m.len() > 0 {
        lemma_members_view(m.drop_last());
    }
}

/// Keys strictly increasing.
pub open spec fn keys_sorted(m: Seq<(Seq<char>, JsonV)>) -> bool {
    forall|i: int, j: int| 0 <= i < j < m.len() ==> lex_lt(#[trigger] m[i].0, #[trigger] m[j].0)
}

/// Every object in a value, however deep, has strictly increasing keys.
pub open spec fn well_keyed(v: JsonV) -> bool
    decreases v,
{
    match v {
        JsonV::Array(items) => forall|i: int| 0 <= i < items.len() ==> well_keyed(#[trigger] items[i]),
        JsonV::Object(m) => keys_sorted(m) && forall|i: int| 0 <= i < m.len() ==> well_keyed(#[trigger] m[i].1),
        _ => true,
    }
}

/// Every member after an insertion is the inserted one or an earlier one.
proof fn lemma_obj_insert_members(m: Seq<(Seq<char>, JsonV)>, k: Seq<char>, v: JsonV)
    ensures
        forall|i: int| 0 <= i < obj_insert(m, k, v).len() ==> #[trigger] obj_insert(m, k, v)[i] == (k, v)
            || m.contains(obj_insert(m, k, v)[i]),
    decreases m.len(),
{
    let r = obj_insert(m, k, v);
    if m.len() == 0 {
    } else if m[0].0 == k {
        assert forall|i: int| 0 <= i < r.len() implies #[trigger] r[i] == (k, v) || m.contains(r[i]) by {
            if i > 0 {
                assert(r[i] == m[i]);
            }
        }
    } else if lex_lt(k, m[0].0) {
        assert forall|i: int| 0 <= i < r.len() implies #[trigger] r[i] == (k, v) || m.contains(r[i]) by {
            if i > 0 {
                assert(r[i] == m[i - 1]);
            }
        }
    } else {
        let t = m.drop_first();
        lemma_obj_insert_members(t, k, v);
        assert forall|i: int| 0 <= i < r.len() implies #[trigger] r[i] == (k, v) || m.contains(r[i]) by {
            if i == 0 {
                assert(r[0] == m[0]);
            } else {
                let x = obj_insert(t, k, v)[i - 1];
                assert(r[i] == x);
                if t.contains(x) {
                    let j = choose|j: int| 0 <= j < t.len() && t[j] == x;
                    assert(m[j + 1] == x);
                }
            }
        }
    }
}

/// Inserting at the first position whose key is not below `k`.
proof fn lemma_obj_insert_at(m: Seq<(Seq<char>, JsonV)>, k: Seq<char>, v: JsonV, idx: int)
    requires
        keys_sorted(m),
        0 <= idx <= m.len(),
        forall|j: int| 0 <= j < idx ==> lex_lt(#[trigger] m[j].0, k),
        idx < m.len() ==> !lex_lt(m[idx].0, k),
    ensures
        idx < m.len() && m[idx].0 == k ==> obj_insert(m, k, v) == m.update(idx, (k, v)),
        !(idx < m.len() && m[idx].0 == k) ==> obj_insert(m, k, v) == m.insert(idx, (k, v)),
        keys_sorted(obj_insert(m, k, v)),
    decreases m.len(),
{
    if m.len() == 0 {
        assert(obj_insert(m, k, v) =~= m.insert(idx, (k, v)));
    } else if idx == 0 {
        if m[0].0 == k {
            assert(obj_insert(m, k, v) =~= m.update(0, (k, v)));
        } else {
            lemma_lex_total(k, m[0].0);
            assert(obj_insert(m, k, v) =~= m.insert(0, (k, v)));
            let r = m.insert(0, (k, v));
            assert forall|i: int, j: int| 0 <= i < j < r.len() implies lex_lt(
                #[trigger] r[i].0,
                #[trigger] r[j].0,
            ) by {
                if i == 0 && j > 1 {
                    assert(lex_lt(m[0].0, m[j - 1].0));
                    lemma_lex_transitive(k, m[0].0, m[j - 1].0);
                }
            }
        }
    } else {
        lemma_lex_asymmetric(m[0].0, k);
        let t = m.drop_first();
        assert forall|j: int| 0 <= j < idx - 1 implies lex_lt(#[trigger] t[j].0, k) by {
            assert(t[j] == m[j + 1]);
        }
        lemma_obj_insert_at(t, k, v, idx - 1);
        if idx < m.len() && m[idx].0 == k {
            assert(obj_insert(m, k, v) =~= m.update(idx, (k, v)));
        } else {
            assert(obj_insert(m, k, v) =~= m.insert(idx, (k, v)));
        }
        let r = obj_insert(m, k, v);
        let rt = obj_insert(t, k, v);
        assert(r == seq![m[0]] + rt);
        assert forall|i: int, j: int| 0 <= i < j < r.len() implies lex_lt(
            #[trigger] r[i].0,
            #[trigger] r[j].0,
        ) by {
            if i == 0 {
                assert(r[j] == rt[j - 1]);
                // every key of rt is either k or a key of t
                if idx < m.len() && m[idx].0 == k {
                    assert(rt == t.update(idx - 1, (k, v)));
                    if j - 1 == idx - 1 {
                    } else {
                        assert(lex_lt(m[0].0, m[j].0));
                    }
                } else {
                    assert(rt == t.insert(idx - 1, (k, v)));
                    if j - 1 < idx - 1 {
                        assert(lex_lt(m[0].0, m[j].0));
                    } else if j - 1 == idx - 1 {
                    } else {
                        assert(rt[j - 1] == t[j - 2]);
                        assert(lex_lt(m[0].0, m[j - 1].0));
                    }
                }
            } else {
                assert(r[i] == rt[i - 1]);
                assert(r[j] == rt[j - 1]);
            }
        }
    }
}

/// Insert `(k, v)` into members sorted by key; an equal key is replaced.
fn obj_put(m: &mut Vec<(String, Json)>, k: String, v: Json)
    requires
        keys_sorted(members_view(old(m)@)),
    ensures
        members_view(final(m)@) == obj_insert(members_view(old(m)@), k@, v.jv()),
        keys_sorted(members_view(final(m)@)),
{
    proof { lemma_members_view(m@); }
    let ghost mv = members_view(m@);
    let mut i: usize = 0;
    while i < m.len() && str_lt(m[i].0.as_str(), k.as_str())
        invariant
            i <= m@.len(),
            m@ == old(m)@,
            mv == members_view(m@),
            mv.len() == m@.len(),
            forall|j: int| 0 <= j < m@.len() ==> #[trigger] mv[j] == (m@[j].0@, m@[j].1.jv()),
            forall|j: int| 0 <= j < i ==> lex_lt(#[trigger] mv[j].0, k@),
        decreases m@.len() - i,
    {
        assert(mv[i as int].0 == m@[i as int].0@);
        i += 1;
    }
    proof {
        if i < m@.len() {
            assert(mv[i as int].0 == m@[i as int].0@);
        }
        lemma_obj_insert_at(mv, k@, v.jv(), i as int);
    }
    let ghost kv = k@;
    let ghost vv = v.jv();
    if i < m.len() && str_eq(m[i].0.as_str(), k.as_str()) {
        assert(mv[i as int].0 == m@[i as int].0@);
        m.set(i, (k, v));
        proof {
            lemma_members_view(m@);
            assert(members_view(m@) =~= mv.update(i as int, (kv, vv)));
        }
    } else {
        proof {
            if i < m@.len() {
                assert(mv[i as int].0 == m@[i as int].0@);
            }
        }
        m.insert(i, (k, v));
        proof {
            lemma_members_view(m@);
            assert(members_view(m@) =~= mv.insert(i as int, (kv, vv)));
        }
    }
}


/// Reads one value starting at `pos` (leading whitespace allowed).
fn parse_value(s: &Vec<char>, pos: usize) -> (r: Result<(Json, usize), String>)
    requires
        pos <= s@.len(),
    ensures
        value_at(s@, pos as int) is Some <==> r is Ok,
        r matches Ok((j, e)) ==> value_at(s@, pos as int) == Some((j.jv(), e as int)) && pos < e
            <= s@.len(),
        r matches Ok((j, _)) ==> well_keyed(j.jv()),
        r matches Err(m) ==> m@ == value_err(s@, pos as int),
    decreases s@.len() - pos, 0int,
{
    let q = skip_ws(s, pos);
    if q >= s.len() {
        return Err(owned("unexpected end of input"));
    }
    let c = s[q];
    if c == '{' {
        let r = skip_ws(s, q + 1);
        if r < s.len() && s[r] == '}' {
            proof { lemma_members_view(Seq::<(String, Json)>::empty()); }
            let m: Vec<(String, Json)> = Vec::new();
            assert(members_view(m@) =~= Seq::empty());
            Ok((Json::Object(m), r + 1))
        } else {
            parse_members(s, q + 1)
        }
    } else if c == '[' {
        let r = skip_ws(s, q + 1);
        if r < s.len() && s[r] == ']' {
            let items: Vec<Json> = Vec::new();
            assert(items_view(items@) =~= Seq::empty());
            Ok((Json::Array(items), r + 1))
        } else {
            parse_items(s, q + 1)
        }
    } else if c == '"' {
        let (t, e) = parse_string(s, q + 1)?;
        Ok((Json::String(t), e))
    } else if c == 't' {
        proof {
            reveal_strlit("true");
            assert("true"@ =~= seq!['t', 'r', 'u', 'e']);
        }
        if lit_at_exec(s, q, "true") {
            Ok((Json::Bool(true), q + 4))
        } else {
            Err(error_at(owned("invalid literal"), s, q))
        }
    } else if c == 'f' {
        proof {
            reveal_strlit("false");
            assert("false"@ =~= seq!['f', 'a', 'l', 's', 'e']);
        }
        if lit_at_exec(s, q, "false") {
            Ok((Json::Bool(false), q + 5))
        } else {
            Err(error_at(owned("invalid literal"), s, q))
        }
    } else if c == 'n' {
        proof {
            reveal_strlit("null");
            assert("null"@ =~= seq!['n', 'u', 'l', 'l']);
        }
        if lit_at_exec(s, q, "null") {
            Ok((Json::Null, q + 4))
        } else {
            Err(error_at(owned("invalid literal"), s, q))
        }
    } else {
        let mut e = q;
        while e < s.len() && is_num_char_exec(s[e])
            invariant
                q <= e <= s@.len(),
                num_end(s@, q as int) == num_end(s@, e as int),
            decreases s@.len() - e,
        {
            e += 1;
        }
        assert(num_end(s@, e as int) == e);
        if check_float(s, q, e) {
            assert(e > q) by {
                if e == q {
                    assert(s@.subrange(q as int, e as int).len() == 0);
                }
            }
            let t = string_of(s, q, e);
            Ok((Json::Number(t), e))
        } else {
            let mut m = owned("invalid number '");
            let t = string_of(s, q, e);
            push_all(&mut m, t.as_str());
            push_all(&mut m, "'");
            Err(error_at(m, s, q))
        }
    }
}

/// Reads array elements from `pos` (just after `[`) through the closing `]`.
fn parse_items(s: &Vec<char>, pos: usize) -> (r: Result<(Json, usize), String>)
    requires
        pos <= s@.len(),
    ensures
        items_at(s@, pos as int, Seq::empty()) is Some <==> r is Ok,
        r matches Ok((j, e)) ==> items_at(s@, pos as int, Seq::empty()) == Some((j.jv(), e as int))
            && pos < e <= s@.len(),
        r matches Ok((j, _)) ==> well_keyed(j.jv()),
        r matches Err(m) ==> m@ == items_err(s@, pos as int),
    decreases s@.len() - pos, 1int,
{
    let mut items: Vec<Json> = Vec::new();
    let mut cur = pos;
    assert(items_view(items@) =~= Seq::empty());
    loop
        invariant
            pos <= cur <= s@.len(),
            items_at(s@, pos as int, Seq::empty()) == items_at(s@, cur as int, items_view(items@)),
            items_err(s@, pos as int) == items_err(s@, cur as int),
            forall|i: int| 0 <= i < items_view(items@).len() ==> well_keyed(#[trigger] items_view(items@)[i]),
        decreases s@.len() - cur,
    {
        let (v, q) = parse_value(s, cur)?;
        let r = skip_ws(s, q);
        if r >= s.len() {
            return Err(error_at(owned("expected ',' or ']'"), s, r));
        }
        let ghost before = items@;
        let ghost vj = v.jv();
        items.push(v);
        assert(items@.drop_last() =~= before);
        assert(items_view(items@) == items_view(before).push(vj));
        assert(forall|i: int| 0 <= i < items_view(before).len() ==> items_view(items@)[i] == items_view(before)[i]);
        if s[r] == ',' {
            cur = r + 1;
        } else if s[r] == ']' {
            return Ok((Json::Array(items), r + 1));
        } else {
            return Err(error_at(owned("expected ',' or ']'"), s, r));
        }
    }
}

/// Reads object members from `pos` (just after `{`) through the closing `}`.
fn parse_members(s: &Vec<char>, pos: usize) -> (r: Result<(Json, usize), String>)
    requires
        pos <= s@.len(),
    ensures
        members_at(s@, pos as int, Seq::empty()) is Some <==> r is Ok,
        r matches Ok((j, e)) ==> members_at(s@, pos as int, Seq::empty()) == Some(
            (j.jv(), e as int),
        ) && pos < e <= s@.len(),
        r matches Ok((j, _)) ==> well_keyed(j.jv()),
        r matches Err(m) ==> m@ == members_err(s@, pos as int),
    decreases s@.len() - pos, 1int,
{
    let mut m: Vec<(String, Json)> = Vec::new();
    let mut cur = pos;
    assert(members_view(m@) =~= Seq::empty());
    loop
        invariant
            pos <= cur <= s@.len(),
            members_at(s@, pos as int, Seq::empty()) == members_at(
                s@,
                cur as int,
                members_view(m@),
            ),
            keys_sorted(members_view(m@)),
            members_err(s@, pos as int) == members_err(s@, cur as int),
            forall|i: int| 0 <= i < members_view(m@).len() ==> well_keyed(#[trigger] members_view(m@)[i].1),
        decreases s@.len() - cur,
    {
        let q = skip_ws(s, cur);
        if q >= s.len() || s[q] != '"' {
            return Err(error_at(owned("expected object key"), s, q));
        }
        let (k, e) = parse_string(s, q + 1)?;
        let c = skip_ws(s, e);
        if c >= s.len() || s[c] != ':' {
            return Err(error_at(owned("expected ':'"), s, c));
        }
        let (v, f) = parse_value(s, c + 1)?;
        let r = skip_ws(s, f);
        if r >= s.len() {
            return Err(error_at(owned("expected ',' or '}'"), s, r));
        }
        let ghost old_m = members_view(m@);
        let ghost kv = k@;
        let ghost vv = v.jv();
        obj_put(&mut m, k, v);
        proof {
            lemma_obj_insert_members(old_m, kv, vv);
            assert forall|i: int| 0 <= i < members_view(m@).len() implies well_keyed(#[trigger] members_view(m@)[i].1) by {
                let x = members_view(m@)[i];
                if old_m.contains(x) {
                    let j = choose|j: int| 0 <= j < old_m.len() && old_m[j] == x;
                    assert(well_keyed(old_m[j].1));
                }
            }
        }
        if s[r] == ',' {
            cur = r + 1;
        } else if s[r] == '}' {
            return Ok((Json::Object(m), r + 1));
        } else {
            return Err(error_at(owned("expected ',' or '}'"), s, r));
        }
    }
}

/// Parse a complete JSON document. Trailing garbage is an error: a
/// truncated or concatenated manifest never half-parses silently.
pub fn parse(text: &str) -> (r: Result<Json, String>)
    ensures
        parse_doc(text@) is Some <==> r is Ok,
        r matches Ok(j) ==> parse_doc(text@) == Some(j.jv()),
        r matches Ok(j) ==> well_keyed(j.jv()),
        r matches Err(m) ==> m@ == doc_err(text@),
{
    let s = chars_of(text);
    let (value, pos) = parse_value(&s, 0)?;
    let end = skip_ws(&s, pos);
    if end != s.len() {
        return Err(error_at(owned("trailing characters"), &s, end));
    }
    Ok(value)
}


// ------------------------------------------------------------------
// Reading values

/// The value of key `k` among members (keys distinct, so the first match).
pub open spec fn find_key(m: Seq<(Seq<char>, JsonV)>, k: Seq<char>) -> Option<JsonV>
    decreases m.len(),
{
    if m.len() == 0 {
        None
    } else if m[0].0 == k {
        Some(m[0].1)
    } else {
        find_key(m.drop_first(), k)
    }
}

/// Member `k` of an object; nothing for other kinds of value.
pub open spec fn member_of(v: JsonV, k: Seq<char>) -> Option<JsonV> {
    match v {
        JsonV::Object(m) => find_key(m, k),
        _ => None,
    }
}

impl Json {
    /// Member lookup on an object; `None` for other value kinds.
    pub fn get(&self, key: &str) -> (r: Option<&Json>)
        ensures
            member_of(self.jv(), key@) is Some <==> r is Some,
            r matches Some(j) ==> member_of(self.jv(), key@) == Some(j.jv()),
    {
        match self {
            Json::Object(m) => {
                proof { lemma_members_view(m@); }
                let ghost mv = members_view(m@);
                assert(self.jv() == JsonV::Object(mv));
                let mut i: usize = 0;
                assert(mv.skip(0) =~= mv);
                while i < m.len()
                    invariant
                        i <= m@.len(),
                        self.jv() == JsonV::Object(mv),
                        mv.len() == m@.len(),
                        forall|j: int| 0 <= j < m@.len() ==> #[trigger] mv[j] == (m@[j].0@, m@[j].1.jv()),
                        find_key(mv, key@) == find_key(mv.skip(i as int), key@),
                    decreases m@.len() - i,
                {
                    assert(mv.skip(i as int)[0] == mv[i as int]);
                    if str_eq(m[i].0.as_str(), key) {
                        assert(find_key(mv.skip(i as int), key@) == Some(mv[i as int].1));
                        return Some(&m[i].1);
                    }
                    assert(mv.skip(i as int).drop_first() =~= mv.skip(i + 1));
                    i += 1;
                }
                None
            },
            _ => None,
        }
    }

    /// The text of a string value.
    pub fn as_str(&self) -> (r: Option<&str>)
        ensures
            self.jv() is Str <==> r is Some,
            r matches Some(t) ==> self.jv() == JsonV::Str(t@),
    {
        match self {
            Json::String(s) => Some(s.as_str()),
            _ => None,
        }
    }

    /// The elements of an array value.
    pub fn as_array(&self) -> (r: Option<&[Json]>)
        ensures
            self.jv() is Array <==> r is Some,
            r matches Some(a) ==> self.jv() == JsonV::Array(items_view(a@)),
    {
        match self {
            Json::Array(items) => Some(items.as_slice()),
            _ => None,
        }
    }

    /// The members of an object value, sorted by key.
    pub fn as_object(&self) -> (r: Option<&Vec<(String, Json)>>)
        ensures
            self.jv() is Object <==> r is Some,
            r matches Some(m) ==> self.jv() == JsonV::Object(members_view(m@)),
    {
        match self {
            Json::Object(m) => Some(m),
            _ => None,
        }
    }
}

// ------------------------------------------------------------------
// Escaping

/// A lower-case hex digit.
pub open spec fn hex_lower(d: nat) -> char {
    if d < 10 {
        ((d + 48) as u32) as char
    } else {
        ((d + 87) as u32) as char
    }
}

/// How one character is written inside a JSON string literal.
pub open spec fn escape_char(c: char) -> Seq<char> {
    if c == '"' {
        seq!['\\', '"']
    } else if c == '\\' {
        seq!['\\', '\\']
    } else if c == '\n' {
        seq!['\\', 'n']
    } else if c == '\r' {
        seq!['\\', 'r']
    } else if c == '\t' {
        seq!['\\', 't']
    } else if (c as u32) < 0x20 {
        seq!['\\', 'u', '0', '0', hex_lower((c as u32) as nat / 16), hex_lower((c as u32) as nat % 16)]
    } else {
        seq![c]
    }
}

/// No character `escape_char` writes is a control character.
proof fn lemma_escape_char_printable(c: char)
    ensures
        forall|i: int| 0 <= i < escape_char(c).len() ==> (#[trigger] escape_char(c)[i]) as u32 >= 0x20,
{
    if !(c == '"' || c == '\\' || c == '\n' || c == '\r' || c == '\t') && (c as u32) < 0x20 {
        let hi = (c as u32) as nat / 16;
        let lo = (c as u32) as nat % 16;
        assert(hi < 2);
        assert(lo < 16);
        assert(((hi + 48) as u32) as char as u32 == hi + 48);
        assert(((lo + 48) as u32) as char as u32 == lo + 48);
        assert(((lo + 87) as u32) as char as u32 == lo + 87);
    }
}

/// Law: `escape` writes no control character (nothing below U+0020), so
/// its output fits on one line of a JSON document.
pub proof fn lemma_escape_printable(t: Seq<char>)
    ensures
        forall|i: int| 0 <= i < escape_spec(t).len() ==> (#[trigger] escape_spec(t)[i]) as u32 >= 0x20,
    decreases t.len(),
{
    if t.len() > 0 {
        lemma_escape_char_printable(t[0]);
        lemma_escape_printable(t.drop_first());
        let a = escape_char(t[0]);
        let b = escape_spec(t.drop_first());
        assert(escape_spec(t) == a + b);
        assert forall|i: int| 0 <= i < escape_spec(t).len() implies (#[trigger] escape_spec(t)[i]) as u32 >= 0x20 by {
            if i < a.len() {
                assert(escape_spec(t)[i] == a[i]);
            } else {
                assert(escape_spec(t)[i] == b[i - a.len()]);
            }
        }
    }
}

/// A whole string written inside a JSON string literal.
pub open spec fn escape_spec(s: Seq<char>) -> Seq<char>
    decreases s.len(),
{
    if s.len() == 0 {
        Seq::empty()
    } else {
        escape_char(s[0]) + escape_spec(s.drop_first())
    }
}

pub proof fn lemma_escape_push(s: Seq<char>, c: char)
    ensures
        escape_spec(s.push(c)) == escape_spec(s) + escape_char(c),
    decreases s.len(),
{
    if s.len() == 0 {
        assert(s.push(c).drop_first() =~= Seq::<char>::empty());
        assert(escape_spec(Seq::<char>::empty()) =~= Seq::empty());
        assert(escape_spec(s) =~= Seq::empty());
        assert(escape_spec(s.push(c)) =~= escape_char(c));
    } else {
        lemma_escape_push(s.drop_first(), c);
        assert(s.push(c).drop_first() =~= s.drop_first().push(c));
        assert(escape_spec(s.push(c)) =~= escape_spec(s) + escape_char(c));
    }
}

fn hex_lower_of(d: u32) -> (c: char)
    requires
        d < 16,
    ensures
        c == hex_lower(d as nat),
{
    if d == 0 { '0' } else if d == 1 { '1' } else if d == 2 { '2' } else if d == 3 { '3' }
    else if d == 4 { '4' } else if d == 5 { '5' } else if d == 6 { '6' } else if d == 7 { '7' }
    else if d == 8 { '8' } else if d == 9 { '9' } else if d == 10 { 'a' } else if d == 11 { 'b' }
    else if d == 12 { 'c' } else if d == 13 { 'd' } else if d == 14 { 'e' } else { 'f' }
}

/// Escape a string for inclusion in JSON output.
pub fn escape(s: &str) -> (r: String)
    ensures
        r@ == escape_spec(s@),
{
    let v = chars_of(s);
    let mut out = String::new();
    let mut i: usize = 0;
    assert(v@.take(0) =~= Seq::<char>::empty());
    while i < v.len()
        invariant
            i <= v@.len(),
            v@ == s@,
            out@ == escape_spec(v@.take(i as int)),
        decreases v@.len() - i,
    {
        let c = v[i];
        proof {
            lemma_escape_push(v@.take(i as int), c);
            assert(v@.take(i + 1) =~= v@.take(i as int).push(c));
        }
        let ghost before = out@;
        if c == '"' {
            push_char(&mut out, '\\');
            push_char(&mut out, '"');
        } else if c == '\\' {
            push_char(&mut out, '\\');
            push_char(&mut out, '\\');
        } else if c == '\n' {
            push_char(&mut out, '\\');
            push_char(&mut out, 'n');
        } else if c == '\r' {
            push_char(&mut out, '\\');
            push_char(&mut out, 'r');
        } else if c == '\t' {
            push_char(&mut out, '\\');
            push_char(&mut out, 't');
        } else if (c as u32) < 0x20 {
            push_char(&mut out, '\\');
            push_char(&mut out, 'u');
            push_char(&mut out, '0');
            push_char(&mut out, '0');
            push_char(&mut out, hex_lower_of(c as u32 / 16));
            push_char(&mut out, hex_lower_of(c as u32 % 16));
        } else {
            push_char(&mut out, c);
        }
        assert(out@ =~= before + escape_char(c));
        i += 1;
    }
    assert(v@.take(v@.len() as int) =~= v@);
    out
}


proof fn lemma_hex_lower(d: nat)
    requires
        d < 16,
    ensures
        is_hex(hex_lower(d)),
        hex_val(hex_lower(d)) == d,
{
}

/// A string literal body written by `escape_spec` reads back as the text,
/// whatever precedes and follows it.
pub proof fn lemma_str_body_escaped(s: Seq<char>, p: int, acc: Seq<char>, t: Seq<char>)
    requires
        0 <= p,
        p + escape_spec(t).len() < s.len(),
        s.subrange(p, p + escape_spec(t).len()) == escape_spec(t),
        s[p + escape_spec(t).len()] == '"',
    ensures
        str_body(s, p, acc) == Some((acc + t, p + escape_spec(t).len() + 1)),
    decreases t.len(),
{
    if t.len() == 0 {
        assert(acc + t =~= acc);
    } else {
        let c = t[0];
        let e = escape_char(c);
        let rest = t.drop_first();
        let el = e.len() as int;
        let rl = escape_spec(rest).len() as int;
        assert(escape_spec(t) == e + escape_spec(rest));
        assert forall|i: int| 0 <= i < el implies s[p + i] == e[i] by {
            assert(s.subrange(p, p + escape_spec(t).len())[i] == s[p + i]);
        }
        assert(s.subrange(p + el, p + el + rl) =~= escape_spec(rest)) by {
            assert forall|i: int| 0 <= i < rl implies s.subrange(p + el, p + el + rl)[i]
                == escape_spec(rest)[i] by {
                assert(s.subrange(p, p + escape_spec(t).len())[el + i] == s[p + el + i]);
            }
        }
        lemma_str_body_escaped(s, p + el, acc.push(c), rest);
        assert(acc.push(c) + rest =~= acc + t);
        if c == '"' || c == '\\' || c == '\n' || c == '\r' || c == '\t' {
            assert(s[p] == '\\');
            assert(s[p + 1] == e[1]);
        } else if (c as u32) < 0x20 {
            let u = (c as u32) as nat;
            lemma_hex_lower(u / 16);
            lemma_hex_lower(u % 16);
            assert(s[p] == '\\');
            assert(s[p + 1] == 'u');
            assert(s[p + 2] == '0');
            assert(s[p + 3] == '0');
            assert(s[p + 4] == hex_lower(u / 16));
            assert(s[p + 5] == hex_lower(u % 16));
            assert(hex4(s, p + 2) == Some(c as u32));
            vstd::utf8::char_u32_cast(c, c as u32);
        } else {
            assert(e == seq![c]);
            assert(s[p + 0] == e[0]);
        }
    }
}

/// Law: the string literal that `escape` writes parses back, as a whole
/// JSON document, to exactly the text that was escaped.
pub proof fn lemma_escape_round_trip(t: Seq<char>)
    ensures
        parse_doc(seq!['"'] + escape_spec(t) + seq!['"']) == Some(JsonV::Str(t)),
{
    let d = seq!['"'] + escape_spec(t) + seq!['"'];
    let n = escape_spec(t).len() as int;
    assert(d.subrange(1, 1 + n) =~= escape_spec(t));
    assert(d[1 + n] == '"');
    lemma_str_body_escaped(d, 1, Seq::empty(), t);
    assert(Seq::<char>::empty() + t =~= t);
    assert(ws_end(d, 0) == 0);
    assert(ws_end(d, n + 2) == n + 2);
}

} // verus!
