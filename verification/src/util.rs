//! Small pure helpers shared across modules: duration parsing for the
//! `--stale` flag, human age formatting, pluralized counts and byte-string
//! search.

use vstd::prelude::*;
use crate::text::{
    chars_of, string_of, owned, push_all, push_u64, trim, trim_bounds, digits_len, dec_value,
    dec, is_digit,
};

verus! {

// ------------------------------------------------------------------
// Durations

/// Seconds per unit of a `--stale` duration: `h`, `d`, `w`, `mo`, `y`.
pub open spec fn unit_secs(u: Seq<char>) -> Option<nat> {
    if u == seq!['h'] {
        Some(3_600)
    } else if u == seq!['d'] {
        Some(86_400)
    } else if u == seq!['w'] {
        Some(7 * 86_400)
    } else if u == seq!['m', 'o'] {
        Some(30 * 86_400)
    } else if u == seq!['y'] {
        Some(365 * 86_400)
    } else {
        None
    }
}

/// The number of seconds a duration text stands for, when it is valid:
/// after trimming, a run of digits then a known unit, with a product that
/// fits in `u64`.
pub open spec fn duration_secs(s: Seq<char>) -> Option<nat> {
    let t = trim(s);
    let k = digits_len(t);
    if k == t.len() || k == 0 {
        None
    } else {
        let n = dec_value(t.take(k as int));
        match unit_secs(t.skip(k as int)) {
            Some(per) => if n <= u64::MAX && n * per <= u64::MAX { Some(n * per) } else { None },
            None => None,
        }
    }
}

/// The message `parse_duration` gives for a text it refuses.
pub open spec fn duration_error(s: Seq<char>) -> Seq<char> {
    let t = trim(s);
    let k = digits_len(t);
    if k == t.len() {
        "duration '"@ + t + "' needs a unit (h, d, w, mo, y)"@
    } else if k == 0 {
        "duration '"@ + t + "' must start with a number"@
    } else if dec_value(t.take(k as int)) > u64::MAX {
        "invalid duration number in '"@ + t + "'"@
    } else if unit_secs(t.skip(k as int)) is None {
        "unknown duration unit '"@ + t.skip(k as int) + "' (use h, d, w, mo, y)"@
    } else {
        "duration '"@ + t + "' overflows"@
    }
}

proof fn lemma_dec_value_grows(t: Seq<char>, i: int, j: int)
    requires
        0 <= i <= j <= t.len(),
    ensures
        dec_value(t.take(i)) <= dec_value(t.take(j)),
    decreases j - i,
{
    if i < j {
        lemma_dec_value_grows(t, i, j - 1);
        assert(t.take(j).drop_last() =~= t.take(j - 1));
    }
}

/// The value of the digits `v[from..to]`, when it fits in `u64`.
fn parse_digits(v: &Vec<char>, from: usize, to: usize) -> (r: Option<u64>)
    requires
        from <= to <= v@.len(),
        forall|i: int| from <= i < to ==> is_digit(#[trigger] v@[i]),
    ensures
        dec_value(v@.subrange(from as int, to as int)) <= u64::MAX ==> r == Some(
            dec_value(v@.subrange(from as int, to as int)) as u64,
        ),
        dec_value(v@.subrange(from as int, to as int)) > u64::MAX ==> r is None,
{
    let ghost t = v@.subrange(from as int, to as int);
    let mut acc: u64 = 0;
    let mut i = from;
    assert(t.take(0) =~= Seq::<char>::empty());
    while i < to
        invariant
            from <= i <= to <= v@.len(),
            t == v@.subrange(from as int, to as int),
            forall|j: int| from <= j < to ==> is_digit(#[trigger] v@[j]),
            acc == dec_value(t.take(i - from)),
        decreases to - i,
    {
        let d = (v[i] as u32 - 48) as u64;
        assert(t.take(i + 1 - from).drop_last() =~= t.take(i - from));
        assert(t.take(i + 1 - from).last() == v@[i as int]);
        if acc > (u64::MAX - d) / 10 {
            proof {
                assert(dec_value(t.take(i + 1 - from)) > u64::MAX) by (nonlinear_arith)
                    requires
                        dec_value(t.take(i + 1 - from)) == acc * 10 + d,
                        acc > (u64::MAX - d) / 10,
                        d <= 9,
                ;
                lemma_dec_value_grows(t, i + 1 - from, t.len() as int);
                assert(t.take(t.len() as int) =~= t);
            }
            return None;
        }
        proof {
            assert(acc * 10 + d <= u64::MAX) by (nonlinear_arith)
                requires
                    acc <= (u64::MAX - d) / 10,
                    d <= 9,
            ;
        }
        acc = acc * 10 + d;
        i += 1;
    }
    assert(t.take(to - from) =~= t);
    Some(acc)
}

/// Parse a human staleness duration such as `12h`, `30d`, `6w`, `3mo`, `1y`
/// into seconds. A unit is required: a bare number would be ambiguous.
pub fn parse_duration(s: &str) -> (r: Result<u64, String>)
    ensures
        duration_secs(s@) is Some <==> r is Ok,
        r matches Ok(n) ==> n == duration_secs(s@)->0,
        r matches Err(m) ==> m@ == duration_error(s@),
{
    let v = chars_of(s);
    let (a, b) = trim_bounds(&v, 0, v.len());
    assert(v@.subrange(0, v@.len() as int) =~= s@);
    let ghost t = trim(s@);
    let trimmed = string_of(&v, a, b);
    // first non-digit
    let mut k = a;
    while k < b && '0' <= v[k] && v[k] <= '9'
        invariant
            a <= k <= b <= v@.len(),
            v@.subrange(a as int, b as int) == t,
            forall|i: int| a <= i < k ==> is_digit(#[trigger] v@[i]),
            digits_len(t) == (k - a) + digits_len(v@.subrange(k as int, b as int)),
        decreases b - k,
    {
        assert(v@.subrange(k as int, b as int).drop_first() =~= v@.subrange(k + 1, b as int));
        k += 1;
    }
    assert(digits_len(t) == k - a);
    if k == b {
        let mut m = owned("duration '");
        push_all(&mut m, trimmed.as_str());
        push_all(&mut m, "' needs a unit (h, d, w, mo, y)");
        return Err(m);
    }
    if k == a {
        let mut m = owned("duration '");
        push_all(&mut m, trimmed.as_str());
        push_all(&mut m, "' must start with a number");
        return Err(m);
    }
    assert(t.take(k - a) =~= v@.subrange(a as int, k as int));
    assert(t.skip(k - a) =~= v@.subrange(k as int, b as int));
    let n = match parse_digits(&v, a, k) {
        Some(n) => n,
        None => {
            let mut m = owned("invalid duration number in '");
            push_all(&mut m, trimmed.as_str());
            push_all(&mut m, "'");
            return Err(m);
        },
    };
    let unit = string_of(&v, k, b);
    let per: u64 = if string_eq_lit(&unit, "h") {
        3_600
    } else if string_eq_lit(&unit, "d") {
        86_400
    } else if string_eq_lit(&unit, "w") {
        7 * 86_400
    } else if string_eq_lit(&unit, "mo") {
        30 * 86_400
    } else if string_eq_lit(&unit, "y") {
        365 * 86_400
    } else {
        let mut m = owned("unknown duration unit '");
        push_all(&mut m, unit.as_str());
        push_all(&mut m, "' (use h, d, w, mo, y)");
        proof { reveal_unit_literals(); }
        return Err(m);
    };
    proof { reveal_unit_literals(); }
    match n.checked_mul(per) {
        Some(x) => Ok(x),
        None => {
            let mut m = owned("duration '");
            push_all(&mut m, trimmed.as_str());
            push_all(&mut m, "' overflows");
            Err(m)
        },
    }
}

proof fn reveal_unit_literals()
    ensures
        "h"@ == seq!['h'],
        "d"@ == seq!['d'],
        "w"@ == seq!['w'],
        "mo"@ == seq!['m', 'o'],
        "y"@ == seq!['y'],
{
    reveal_strlit("h");
    reveal_strlit("d");
    reveal_strlit("w");
    reveal_strlit("mo");
    reveal_strlit("y");
    assert("h"@ =~= seq!['h']);
    assert("d"@ =~= seq!['d']);
    assert("w"@ =~= seq!['w']);
    assert("mo"@ =~= seq!['m', 'o']);
    assert("y"@ =~= seq!['y']);
}

/// Whether a string equals a literal.
fn string_eq_lit(s: &String, lit: &str) -> (r: bool)
    ensures
        r == (s@ == lit@),
{
    crate::text::str_eq(s.as_str(), lit)
}

// ------------------------------------------------------------------
// Ages and counts

/// How an age in seconds reads in the AGE column: the two most
/// significant units, largest first (`1y 45d`, `230d`, `5h`).
pub open spec fn age_text(secs: nat) -> Seq<char> {
    if secs < 60 {
        "now"@
    } else if secs < 3_600 {
        dec(secs / 60) + "m"@
    } else if secs < 86_400 {
        dec(secs / 3_600) + "h"@
    } else if secs / 86_400 < 365 {
        dec(secs / 86_400) + "d"@
    } else if (secs / 86_400) % 365 == 0 {
        dec((secs / 86_400) / 365) + "y"@
    } else {
        dec((secs / 86_400) / 365) + "y "@ + dec((secs / 86_400) % 365) + "d"@
    }
}

/// Format an age in seconds the way it is printed in the AGE column.
pub fn format_age(secs: u64) -> (r: String)
    ensures
        r@ == age_text(secs as nat),
{
    if secs < 60 {
        return owned("now");
    }
    let mut out = String::new();
    if secs < 3_600 {
        push_u64(&mut out, secs / 60);
        push_all(&mut out, "m");
        return out;
    }
    if secs < 86_400 {
        push_u64(&mut out, secs / 3_600);
        push_all(&mut out, "h");
        return out;
    }
    let days = secs / 86_400;
    if days < 365 {
        push_u64(&mut out, days);
        push_all(&mut out, "d");
        return out;
    }
    let years = days / 365;
    let rest = days % 365;
    push_u64(&mut out, years);
    if rest == 0 {
        push_all(&mut out, "y");
    } else {
        push_all(&mut out, "y ");
        push_u64(&mut out, rest);
        push_all(&mut out, "d");
    }
    out
}

/// A count with its pluralized noun: `1 package`, `3 packages`.
pub open spec fn count_text(n: nat, singular: Seq<char>, plural: Seq<char>) -> Seq<char> {
    dec(n) + " "@ + if n == 1 { singular } else { plural }
}

/// A count with its correctly pluralized noun. The plural form is spelled
/// out by the caller because English does not pluralize with a bare `s`.
pub fn count(n: usize, singular: &str, plural: &str) -> (r: String)
    ensures
        r@ == count_text(n as nat, singular@, plural@),
{
    let mut out = String::new();
    push_u64(&mut out, n as u64);
    push_all(&mut out, " ");
    if n == 1 {
        push_all(&mut out, singular);
    } else {
        push_all(&mut out, plural);
    }
    out
}

// ------------------------------------------------------------------
// Byte search

/// `needle` occurs in `haystack` at `i`.
pub open spec fn occurs_at(haystack: Seq<u8>, needle: Seq<u8>, i: int) -> bool {
    0 <= i && i + needle.len() <= haystack.len() && haystack.subrange(i, i + needle.len())
        == needle
}

/// The first occurrence of `n` in `h` at or after `i`.
pub open spec fn find_bytes_from(h: Seq<u8>, n: Seq<u8>, i: int) -> Option<int>
    decreases h.len() + 1 - i,
{
    if i < 0 || i + n.len() > h.len() {
        None
    } else if h.subrange(i, i + n.len()) == n {
        Some(i)
    } else {
        find_bytes_from(h, n, i + 1)
    }
}

/// The first occurrence of a non-empty `n` in `h`.
pub open spec fn find_bytes(h: Seq<u8>, n: Seq<u8>) -> Option<int> {
    if n.len() == 0 {
        None
    } else {
        find_bytes_from(h, n, 0)
    }
}

pub proof fn lemma_find_bytes_bounds(h: Seq<u8>, n: Seq<u8>)
    ensures
        find_bytes(h, n) matches Some(i) ==> 0 <= i && i + n.len() <= h.len() && h.subrange(i, i + n.len()) == n,
{
    if n.len() > 0 {
        lemma_find_bytes_from_bounds(h, n, 0);
    }
}

proof fn lemma_find_bytes_from_bounds(h: Seq<u8>, n: Seq<u8>, i: int)
    ensures
        find_bytes_from(h, n, i) matches Some(j) ==> 0 <= j && j + n.len() <= h.len() && h.subrange(j, j + n.len()) == n,
    decreases h.len() + 1 - i,
{
    if !(i < 0 || i + n.len() > h.len()) && h.subrange(i, i + n.len()) != n {
        lemma_find_bytes_from_bounds(h, n, i + 1);
    }
}

/// First index of a non-empty `needle` inside `haystack`, byte-wise.
pub fn find_subslice(haystack: &[u8], needle: &[u8]) -> (r: Option<usize>)
    ensures
        r matches Some(i) ==> find_bytes(haystack@, needle@) == Some(i as int),
        r is None ==> find_bytes(haystack@, needle@) is None,
        r is None <==> (needle@.len() == 0 || forall|i: int| !occurs_at(haystack@, needle@, i)),
        r matches Some(i) ==> needle@.len() > 0 && occurs_at(haystack@, needle@, i as int)
            && forall|j: int| 0 <= j < i ==> !occurs_at(haystack@, needle@, j),
{
    let n = needle.len();
    if n == 0 || haystack.len() < n {
        return None;
    }
    let hl = haystack.len();
    let last = hl - n;
    let mut i: usize = 0;
    while i <= last
        invariant
            n == needle@.len() > 0,
            hl == haystack@.len(),
            last + n == haystack@.len(),
            forall|j: int| 0 <= j < i ==> !occurs_at(haystack@, needle@, j),
            find_bytes(haystack@, needle@) == find_bytes_from(haystack@, needle@, i as int),
        decreases last + 1 - i,
    {
        let mut k: usize = 0;
        while k < n && haystack[i + k] == needle[k]
            invariant
                i <= last,
                n == needle@.len(),
                last + n == haystack@.len(),
                k <= n,
                hl == haystack@.len(),
                forall|m: int| 0 <= m < k ==> haystack@[i + m] == needle@[m],
            decreases n - k,
        {
            k += 1;
        }
        if k == n {
            assert(haystack@.subrange(i as int, i + n) =~= needle@);
            assert(occurs_at(haystack@, needle@, i as int));
            return Some(i);
        }
        assert(haystack@.subrange(i as int, i + n)[k as int] != needle@[k as int]);
        i += 1;
    }
    None
}

} // verus!
