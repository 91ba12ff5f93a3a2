//! Character-level helpers shared by every parser and renderer: decoding
//! a `str` into its characters, building strings back, the lexicographic
//! order that `String`'s `Ord` uses, decimal rendering, and the
//! whitespace classes of `str::trim` and of JSON.

use vstd::prelude::*;

verus! {

/// The characters of `s`, in order.
pub fn chars_of(s: &str) -> (v: Vec<char>)
    ensures
        v@ == s@,
{
    let mut v: Vec<char> = Vec::new();
    for c in it: s.chars()
        invariant
            v@ == it.seq().take(it.index() as int),
            it.seq() == s@,
    {
        v.push(c);
    }
    v
}

/// Appends one character to a string (`String::push`).
#[verifier::external_body]
pub(crate) fn push_char(s: &mut String, c: char)
    ensures
        final(s)@ == old(s)@.push(c),
{
    s.push(c);
}

/// The string made of `v[from..to]`.
pub fn string_of(v: &Vec<char>, from: usize, to: usize) -> (s: String)
    requires
        from <= to <= v@.len(),
    ensures
        s@ == v@.subrange(from as int, to as int),
{
    let mut s = String::new();
    let mut i = from;
    while i < to
        invariant
            from <= i <= to <= v@.len(),
            s@ == v@.subrange(from as int, i as int),
        decreases to - i,
    {
        push_char(&mut s, v[i]);
        i += 1;
        assert(s@ =~= v@.subrange(from as int, i as int));
    }
    s
}

/// The string made of all of `v`.
pub fn string_from(v: &Vec<char>) -> (s: String)
    ensures
        s@ == v@,
{
    let s = string_of(v, 0, v.len());
    assert(v@.subrange(0, v@.len() as int) =~= v@);
    s
}

/// A copy of a string literal or slice as an owned string.
pub fn owned(s: &str) -> (r: String)
    ensures
        r@ == s@,
{
    let v = chars_of(s);
    string_from(&v)
}

/// Appends all of `t` to `s`.
pub fn push_all(s: &mut String, t: &str)
    ensures
        final(s)@ == old(s)@ + t@,
{
    let v = chars_of(t);
    let mut i: usize = 0;
    while i < v.len()
        invariant
            i <= v@.len(),
            v@ == t@,
            s@ == old(s)@ + v@.take(i as int),
        decreases v@.len() - i,
    {
        push_char(s, v[i]);
        i += 1;
        assert(s@ =~= old(s)@ + v@.take(i as int));
    }
    assert(v@.take(v@.len() as int) =~= v@);
}

/// Concatenation of two strings as a new string.
pub fn concat(a: &str, b: &str) -> (r: String)
    ensures
        r@ == a@ + b@,
{
    let mut r = owned(a);
    push_all(&mut r, b);
    r
}

// ------------------------------------------------------------------
// Ordering

/// `a` sorts strictly before `b` in the order of `String`'s `Ord`
/// (lexicographic by Unicode scalar value, which is UTF-8 byte order).
pub open spec fn lex_lt(a: Seq<char>, b: Seq<char>) -> bool
    decreases a.len(),
{
    if a.len() == 0 {
        b.len() > 0
    } else if b.len() == 0 {
        false
    } else if a[0] != b[0] {
        (a[0] as u32) < (b[0] as u32)
    } else {
        lex_lt(a.drop_first(), b.drop_first())
    }
}

pub proof fn lemma_lex_irreflexive(a: Seq<char>)
    ensures
        !lex_lt(a, a),
    decreases a.len(),
{
    if a.len() > 0 {
        lemma_lex_irreflexive(a.drop_first());
    }
}

pub proof fn lemma_lex_transitive(a: Seq<char>, b: Seq<char>, c: Seq<char>)
    requires
        lex_lt(a, b),
        lex_lt(b, c),
    ensures
        lex_lt(a, c),
    decreases a.len(),
{
    if a.len() > 0 && b.len() > 0 && c.len() > 0 {
        if a[0] == b[0] && b[0] == c[0] {
            lemma_lex_transitive(a.drop_first(), b.drop_first(), c.drop_first());
        }
    }
}

pub proof fn lemma_lex_total(a: Seq<char>, b: Seq<char>)
    ensures
        a == b || lex_lt(a, b) || lex_lt(b, a),
    decreases a.len(),
{
    if a.len() > 0 && b.len() > 0 {
        if a[0] == b[0] {
            lemma_lex_total(a.drop_first(), b.drop_first());
            if a.drop_first() == b.drop_first() {
                assert(a =~= seq![a[0]] + a.drop_first());
                assert(b =~= seq![b[0]] + b.drop_first());
            }
        } else {
            if (a[0] as u32) == (b[0] as u32) {
                vstd::utf8::char_u32_cast(a[0], a[0] as u32);
                vstd::utf8::char_u32_cast(b[0], b[0] as u32);
            }
        }
    } else if a.len() == 0 && b.len() == 0 {
        assert(a =~= b);
    }
}

pub proof fn lemma_lex_asymmetric(a: Seq<char>, b: Seq<char>)
    requires
        lex_lt(a, b),
    ensures
        !lex_lt(b, a),
        a != b,
{
    lemma_lex_irreflexive(a);
    if lex_lt(b, a) {
        lemma_lex_transitive(a, b, a);
    }
}

/// `a` sorts strictly before `b`, decided over their characters.
pub fn chars_lt(a: &Vec<char>, b: &Vec<char>) -> (r: bool)
    ensures
        r == lex_lt(a@, b@),
{
    let mut i: usize = 0;
    assert(a@.skip(0) =~= a@);
    assert(b@.skip(0) =~= b@);
    while i < a.len() && i < b.len() && a[i] == b[i]
        invariant
            i <= a@.len(),
            i <= b@.len(),
            lex_lt(a@, b@) == lex_lt(a@.skip(i as int), b@.skip(i as int)),
        decreases a@.len() - i,
    {
        assert(a@.skip(i as int).drop_first() =~= a@.skip(i + 1));
        assert(b@.skip(i as int).drop_first() =~= b@.skip(i + 1));
        i += 1;
    }
    if i == a.len() {
        assert(a@.skip(i as int).len() == 0);
        i < b.len()
    } else if i == b.len() {
        false
    } else {
        (a[i] as u32) < (b[i] as u32)
    }
}

/// `a` sorts strictly before `b` in `String` order.
pub fn str_lt(a: &str, b: &str) -> (r: bool)
    ensures
        r == lex_lt(a@, b@),
{
    let va = chars_of(a);
    let vb = chars_of(b);
    chars_lt(&va, &vb)
}

/// Equality of two string slices by content.
pub fn str_eq(a: &str, b: &str) -> (r: bool)
    ensures
        r == (a@ == b@),
{
    let va = chars_of(a);
    let vb = chars_of(b);
    if va.len() != vb.len() {
        return false;
    }
    let mut i: usize = 0;
    while i < va.len()
        invariant
            va@.len() == vb@.len(),
            i <= va@.len(),
            va@ == a@,
            vb@ == b@,
            va@.take(i as int) == vb@.take(i as int),
        decreases va@.len() - i,
    {
        if va[i] != vb[i] {
            return false;
        }
        assert(va@.take(i + 1) =~= va@.take(i as int).push(va@[i as int]));
        assert(vb@.take(i + 1) =~= vb@.take(i as int).push(vb@[i as int]));
        i += 1;
    }
    assert(va@.take(va@.len() as int) =~= va@);
    assert(vb@.take(vb@.len() as int) =~= vb@);
    true
}

// ------------------------------------------------------------------
// Decimal rendering

/// The ASCII digit for `d < 10`.
pub open spec fn digit_char(d: nat) -> char {
    ((d + 48) as u32) as char
}

/// Decimal rendering of a natural number, without leading zeros.
pub open spec fn dec(n: nat) -> Seq<char>
    decreases n,
{
    if n < 10 {
        seq![digit_char(n)]
    } else {
        dec(n / 10).push(digit_char(n % 10))
    }
}

fn digit_of(d: u64) -> (c: char)
    requires
        d < 10,
    ensures
        c == digit_char(d as nat),
{
    if d == 0 { '0' } else if d == 1 { '1' } else if d == 2 { '2' } else if d == 3 { '3' }
    else if d == 4 { '4' } else if d == 5 { '5' } else if d == 6 { '6' } else if d == 7 { '7' }
    else if d == 8 { '8' } else { '9' }
}

/// Decimal rendering of `n` (`n.to_string()`).
pub fn u64_to_string(n: u64) -> (s: String)
    ensures
        s@ == dec(n as nat),
    decreases n,
{
    if n < 10 {
        let mut s = String::new();
        push_char(&mut s, digit_of(n));
        assert(s@ =~= dec(n as nat));
        s
    } else {
        let mut s = u64_to_string(n / 10);
        push_char(&mut s, digit_of(n % 10));
        s
    }
}

/// Appends the decimal rendering of `n` to `s`.
pub fn push_u64(s: &mut String, n: u64)
    ensures
        final(s)@ == old(s)@ + dec(n as nat),
{
    let d = u64_to_string(n);
    push_all(s, d.as_str());
}

// ------------------------------------------------------------------
// Character classes

/// `char::is_whitespace`: the Unicode `White_Space` property.
pub open spec fn is_unicode_ws(c: char) -> bool {
    let u = c as u32;
    ||| 0x09 <= u <= 0x0d
    ||| u == 0x20
    ||| u == 0x85
    ||| u == 0xa0
    ||| u == 0x1680
    ||| 0x2000 <= u <= 0x200a
    ||| u == 0x2028
    ||| u == 0x2029
    ||| u == 0x202f
    ||| u == 0x205f
    ||| u == 0x3000
}

pub fn is_unicode_whitespace(c: char) -> (r: bool)
    ensures
        r == is_unicode_ws(c),
{
    let u = c as u32;
    (0x09 <= u && u <= 0x0d) || u == 0x20 || u == 0x85 || u == 0xa0 || u == 0x1680 || (0x2000
        <= u && u <= 0x200a) || u == 0x2028 || u == 0x2029 || u == 0x202f || u == 0x205f || u
        == 0x3000
}

/// `char::is_ascii_digit`.
pub open spec fn is_digit(c: char) -> bool {
    '0' <= c <= '9'
}

/// Length of the run of ASCII digits at the start of `t`.
pub open spec fn digits_len(t: Seq<char>) -> nat
    decreases t.len(),
{
    if t.len() > 0 && '0' <= t[0] <= '9' {
        1 + digits_len(t.drop_first())
    } else {
        0
    }
}

/// The number written by a run of decimal digits.
pub open spec fn dec_value(t: Seq<char>) -> nat
    decreases t.len(),
{
    if t.len() == 0 {
        0
    } else {
        dec_value(t.drop_last()) * 10 + digit_value(t.last())
    }
}

/// `str::trim_start`: drop leading `White_Space` characters.
pub open spec fn trim_start(s: Seq<char>) -> Seq<char>
    decreases s.len(),
{
    if s.len() > 0 && is_unicode_ws(s[0]) {
        trim_start(s.drop_first())
    } else {
        s
    }
}

/// `str::trim_end`: drop trailing `White_Space` characters.
pub open spec fn trim_end(s: Seq<char>) -> Seq<char>
    decreases s.len(),
{
    if s.len() > 0 && is_unicode_ws(s.last()) {
        trim_end(s.drop_last())
    } else {
        s
    }
}

/// `str::trim`.
pub open spec fn trim(s: Seq<char>) -> Seq<char> {
    trim_end(trim_start(s))
}

/// The bounds `[a, b)` of `trim(v[from..to])` inside `v`.
pub fn trim_bounds(v: &Vec<char>, from: usize, to: usize) -> (r: (usize, usize))
    requires
        from <= to <= v@.len(),
    ensures
        from <= r.0 <= r.1 <= to,
        v@.subrange(r.0 as int, r.1 as int) == trim(v@.subrange(from as int, to as int)),
{
    let mut a = from;
    while a < to && is_unicode_whitespace(v[a])
        invariant
            from <= a <= to <= v@.len(),
            trim_start(v@.subrange(from as int, to as int)) == trim_start(
                v@.subrange(a as int, to as int),
            ),
        decreases to - a,
    {
        assert(v@.subrange(a as int, to as int).drop_first() =~= v@.subrange(a + 1, to as int));
        a += 1;
    }
    let mut b = to;
    while b > a && is_unicode_whitespace(v[b - 1])
        invariant
            from <= a <= b <= to <= v@.len(),
            trim_end(v@.subrange(a as int, to as int)) == trim_end(v@.subrange(a as int, b as int)),
        decreases b - a,
    {
        assert(v@.subrange(a as int, b as int).drop_last() =~= v@.subrange(a as int, b - 1));
        b -= 1;
    }
    (a, b)
}

/// Value of an ASCII digit.
pub open spec fn digit_value(c: char) -> nat {
    ((c as u32) - 48) as nat
}


// ------------------------------------------------------------------
// Searching and splitting

/// The characters `v[a..b]` as a new vector.
pub fn slice_of(v: &Vec<char>, a: usize, b: usize) -> (r: Vec<char>)
    requires
        a <= b <= v@.len(),
    ensures
        r@ == v@.subrange(a as int, b as int),
{
    let mut r: Vec<char> = Vec::new();
    let mut i = a;
    while i < b
        invariant
            a <= i <= b <= v@.len(),
            r@ == v@.subrange(a as int, i as int),
        decreases b - i,
    {
        r.push(v[i]);
        i += 1;
        assert(r@ =~= v@.subrange(a as int, i as int));
    }
    r
}

/// First index at or after `i` where `pat` occurs in `s`.
pub open spec fn find_from(s: Seq<char>, pat: Seq<char>, i: int) -> Option<int>
    decreases s.len() + 1 - i,
{
    if i < 0 || i + pat.len() > s.len() {
        None
    } else if s.subrange(i, i + pat.len()) == pat {
        Some(i)
    } else {
        find_from(s, pat, i + 1)
    }
}

/// `str::find` with a string pattern: the first occurrence of `pat`.
pub open spec fn find_seq(s: Seq<char>, pat: Seq<char>) -> Option<int> {
    find_from(s, pat, 0)
}

pub proof fn lemma_find_from_bounds(s: Seq<char>, pat: Seq<char>, i: int)
    ensures
        find_from(s, pat, i) matches Some(j) ==> i <= j && 0 <= j && j + pat.len() <= s.len()
            && s.subrange(j, j + pat.len()) == pat,
    decreases s.len() + 1 - i,
{
    if !(i < 0 || i + pat.len() > s.len()) && s.subrange(i, i + pat.len()) != pat {
        lemma_find_from_bounds(s, pat, i + 1);
    }
}

pub proof fn lemma_find_seq_bounds(s: Seq<char>, pat: Seq<char>)
    ensures
        find_seq(s, pat) matches Some(j) ==> 0 <= j && j + pat.len() <= s.len() && s.subrange(
            j,
            j + pat.len(),
        ) == pat,
{
    lemma_find_from_bounds(s, pat, 0);
}

pub proof fn lemma_rfind_bounds(s: Seq<char>, c: char)
    ensures
        rfind_char(s, c) matches Some(j) ==> 0 <= j < s.len() && s[j] == c,
    decreases s.len(),
{
    if s.len() > 0 && s.last() != c {
        lemma_rfind_bounds(s.drop_last(), c);
    }
}

/// `str::contains`.
pub open spec fn contains_seq(s: Seq<char>, pat: Seq<char>) -> bool {
    find_seq(s, pat) is Some
}

/// `str::starts_with`.
pub open spec fn has_prefix(s: Seq<char>, p: Seq<char>) -> bool {
    p.len() <= s.len() && s.take(p.len() as int) == p
}

/// `str::rfind` with a character: the last occurrence of `c`.
pub open spec fn rfind_char(s: Seq<char>, c: char) -> Option<int>
    decreases s.len(),
{
    if s.len() == 0 {
        None
    } else if s.last() == c {
        Some(s.len() - 1)
    } else {
        rfind_char(s.drop_last(), c)
    }
}

/// The first occurrence of `pat` in `v`.
pub fn find_in(v: &Vec<char>, pat: &str) -> (r: Option<usize>)
    ensures
        r matches Some(i) ==> find_seq(v@, pat@) == Some(i as int),
        r is None ==> find_seq(v@, pat@) is None,
{
    let p = chars_of(pat);
    let n = v.len();
    let m = p.len();
    let mut i: usize = 0;
    while i <= n && m <= n - i
        invariant
            n == v@.len(),
            m == p@.len(),
            p@ == pat@,
            find_seq(v@, pat@) == find_from(v@, pat@, i as int),
        decreases n + 1 - i,
    {
        let mut k: usize = 0;
        while k < m && v[i + k] == p[k]
            invariant
                k <= m,
                i + m <= n,
                n == v@.len(),
                m == p@.len(),
                forall|j: int| 0 <= j < k ==> v@[i + j] == p@[j],
            decreases m - k,
        {
            k += 1;
        }
        if k == m {
            assert(v@.subrange(i as int, i + m) =~= p@);
            return Some(i);
        }
        assert(v@.subrange(i as int, i + m)[k as int] != p@[k as int]);
        i += 1;
    }
    None
}

/// Whether `v` contains `pat`.
pub fn contains_in(v: &Vec<char>, pat: &str) -> (r: bool)
    ensures
        r == contains_seq(v@, pat@),
{
    find_in(v, pat).is_some()
}

/// Whether `v` starts with `pat`.
pub fn starts_with_in(v: &Vec<char>, pat: &str) -> (r: bool)
    ensures
        r == has_prefix(v@, pat@),
{
    let p = chars_of(pat);
    if p.len() > v.len() {
        return false;
    }
    let mut k: usize = 0;
    while k < p.len()
        invariant
            k <= p@.len() <= v@.len(),
            p@ == pat@,
            forall|j: int| 0 <= j < k ==> v@[j] == p@[j],
        decreases p@.len() - k,
    {
        if v[k] != p[k] {
            assert(v@.take(p@.len() as int)[k as int] != p@[k as int]);
            return false;
        }
        k += 1;
    }
    assert(v@.take(p@.len() as int) =~= p@);
    true
}

/// The last occurrence of `c` in `v`.
pub fn rfind_in(v: &Vec<char>, c: char) -> (r: Option<usize>)
    ensures
        r matches Some(i) ==> rfind_char(v@, c) == Some(i as int),
        r is None ==> rfind_char(v@, c) is None,
{
    let mut i = v.len();
    assert(v@.take(i as int) =~= v@);
    while i > 0 && v[i - 1] != c
        invariant
            i <= v@.len(),
            rfind_char(v@, c) == rfind_char(v@.take(i as int), c),
        decreases i,
    {
        assert(v@.take(i as int).drop_last() =~= v@.take(i - 1));
        i -= 1;
    }
    if i == 0 {
        None
    } else {
        Some(i - 1)
    }
}

/// ASCII lower-casing of one character (`char::to_ascii_lowercase`).
pub open spec fn lower_char(c: char) -> char {
    if 'A' <= c <= 'Z' {
        ((c as u32) + 32) as char
    } else {
        c
    }
}

/// `str::to_ascii_lowercase`.
pub open spec fn ascii_lower(s: Seq<char>) -> Seq<char> {
    Seq::new(s.len(), |i: int| lower_char(s[i]))
}

pub fn ascii_lower_of(v: &Vec<char>) -> (r: Vec<char>)
    ensures
        r@ == ascii_lower(v@),
{
    let mut r: Vec<char> = Vec::new();
    let mut i: usize = 0;
    while i < v.len()
        invariant
            i <= v@.len(),
            r@ == ascii_lower(v@).take(i as int),
        decreases v@.len() - i,
    {
        let c = v[i];
        let l = if 'A' <= c && c <= 'Z' {
            match char_from_ascii(c as u32 + 32) {
                Some(x) => x,
                None => c,
            }
        } else {
            c
        };
        r.push(l);
        i += 1;
        assert(r@ =~= ascii_lower(v@).take(i as int));
    }
    assert(ascii_lower(v@).take(v@.len() as int) =~= ascii_lower(v@));
    r
}

/// The ASCII character with code `u < 128`.
fn char_from_ascii(u: u32) -> (r: Option<char>)
    ensures
        u < 128 ==> r == Some(u as char),
{
    if u < 128 {
        let b = u as u8;
        let c = b as char;
        Some(c)
    } else {
        None
    }
}

/// `str::split(c)`: the pieces between occurrences of `c` (always at least one).
pub open spec fn split_char(s: Seq<char>, c: char) -> Seq<Seq<char>>
    decreases s.len(),
{
    match find_seq(s, seq![c]) {
        None => seq![s],
        Some(i) => if 0 <= i < s.len() {
            seq![s.take(i)] + split_char(s.skip(i + 1), c)
        } else {
            seq![s]
        },
    }
}

/// The end of the run of characters other than `c` from `p` on.
pub open spec fn run_end(s: Seq<char>, c: char, p: int) -> int
    decreases s.len() - p,
{
    if 0 <= p < s.len() && s[p] != c {
        run_end(s, c, p + 1)
    } else {
        p
    }
}

pub proof fn lemma_find_single(s: Seq<char>, c: char, i: int)
    requires
        0 <= i <= s.len(),
        forall|j: int| 0 <= j < i ==> s[j] != c,
    ensures
        find_seq(s, seq![c]) == find_from(s, seq![c], i),
    decreases i,
{
    if i > 0 {
        lemma_find_single(s, c, i - 1);
        assert(s.subrange(i - 1, i)[0] == s[i - 1]);
        assert(s.subrange(i - 1, i) != seq![c]);
    }
}

/// `str::split(c)` over characters.
pub fn split_in(v: &Vec<char>, c: char) -> (r: Vec<Vec<char>>)
    ensures
        r@.len() == split_char(v@, c).len(),
        forall|i: int| 0 <= i < r@.len() ==> #[trigger] r@[i]@ == split_char(v@, c)[i],
    decreases v@.len(),
{
    let mut i: usize = 0;
    while i < v.len() && v[i] != c
        invariant
            i <= v@.len(),
            forall|j: int| 0 <= j < i ==> v@[j] != c,
        decreases v@.len() - i,
    {
        i += 1;
    }
    proof {
        lemma_find_single(v@, c, i as int);
        if i < v@.len() {
            assert(v@.subrange(i as int, i + 1) =~= seq![c]);
        } else {
            assert(find_from(v@, seq![c], i as int) is None);
        }
    }
    let head = slice_of(v, 0, i);
    assert(head@ =~= v@.take(i as int));
    if i == v.len() {
        assert(head@ =~= v@);
        let mut r: Vec<Vec<char>> = Vec::new();
        r.push(head);
        return r;
    }
    let tail = slice_of(v, i + 1, v.len());
    assert(tail@ =~= v@.skip(i + 1));
    let rest = split_in(&tail, c);
    let mut r: Vec<Vec<char>> = Vec::new();
    r.push(head);
    let mut k: usize = 0;
    let ghost sp = split_char(v@, c);
    assert(sp == seq![v@.take(i as int)] + split_char(tail@, c));
    while k < rest.len()
        invariant
            k <= rest@.len(),
            r@.len() == k + 1,
            rest@.len() == split_char(tail@, c).len(),
            forall|j: int| 0 <= j < rest@.len() ==> #[trigger] rest@[j]@ == split_char(tail@, c)[j],
            sp == seq![v@.take(i as int)] + split_char(tail@, c),
            forall|j: int| 0 <= j < r@.len() ==> #[trigger] r@[j]@ == sp[j],
        decreases rest@.len() - k,
    {
        let piece = slice_of(&rest[k], 0, rest[k].len());
        assert(piece@ =~= rest@[k as int]@);
        r.push(piece);
        k += 1;
    }
    r
}


/// The first position at or after `p` that is not `White_Space`.
pub open spec fn uws_skip(s: Seq<char>, p: int) -> int
    decreases s.len() - p,
{
    if 0 <= p < s.len() && is_unicode_ws(s[p]) {
        uws_skip(s, p + 1)
    } else {
        p
    }
}

/// The first position at or after `p` that is `White_Space` (or the end).
pub open spec fn word_end(s: Seq<char>, p: int) -> int
    decreases s.len() - p,
{
    if 0 <= p < s.len() && !is_unicode_ws(s[p]) {
        word_end(s, p + 1)
    } else {
        p
    }
}

/// `str::split_whitespace` from position `p` on.
pub open spec fn words_from(s: Seq<char>, p: int) -> Seq<Seq<char>>
    decreases s.len() - p,
{
    let a = uws_skip(s, p);
    if a < p || a >= s.len() {
        Seq::empty()
    } else {
        let b = word_end(s, a);
        if b <= a || b > s.len() {
            Seq::empty()
        } else {
            seq![s.subrange(a, b)] + words_from(s, b)
        }
    }
}

/// `str::split_whitespace`: the maximal runs of non-`White_Space` characters.
pub open spec fn words(s: Seq<char>) -> Seq<Seq<char>> {
    words_from(s, 0)
}

/// A run of non-`White_Space` characters from `p` to `q` ends the word there.
pub proof fn lemma_word_end_run(s: Seq<char>, p: int, q: int)
    requires
        0 <= p <= q <= s.len(),
        forall|i: int| p <= i < q ==> !is_unicode_ws(#[trigger] s[i]),
        q == s.len() || is_unicode_ws(s[q]),
    ensures
        word_end(s, p) == q,
    decreases q - p,
{
    if p < q {
        lemma_word_end_run(s, p + 1, q);
    }
}

/// Two words separated by one `White_Space` character split into those
/// two words.
pub proof fn lemma_words_two(a: Seq<char>, sep: char, b: Seq<char>)
    requires
        a.len() > 0,
        b.len() > 0,
        is_unicode_ws(sep),
        forall|i: int| 0 <= i < a.len() ==> !is_unicode_ws(#[trigger] a[i]),
        forall|i: int| 0 <= i < b.len() ==> !is_unicode_ws(#[trigger] b[i]),
    ensures
        words(a + seq![sep] + b) == seq![a, b],
{
    let h = a + seq![sep] + b;
    let n = a.len() as int;
    let l = h.len() as int;
    assert(h[0] == a[0]);
    assert(uws_skip(h, 0) == 0);
    assert forall|i: int| 0 <= i < n implies !is_unicode_ws(#[trigger] h[i]) by {
        assert(h[i] == a[i]);
    }
    assert(h[n] == sep);
    lemma_word_end_run(h, 0, n);
    assert(h.subrange(0, n) =~= a);
    assert(h[n + 1] == b[0]);
    assert(uws_skip(h, n + 1) == n + 1);
    assert(uws_skip(h, n) == n + 1);
    assert forall|i: int| n + 1 <= i < l implies !is_unicode_ws(#[trigger] h[i]) by {
        assert(h[i] == b[i - n - 1]);
    }
    lemma_word_end_run(h, n + 1, l);
    assert(h.subrange(n + 1, l) =~= b);
    assert(words_from(h, l) =~= Seq::empty());
    assert(words_from(h, n) =~= seq![b]);
    assert(words_from(h, 0) =~= seq![a, b]);
}

/// `pat` occurs at position `k` of `s`.
pub open spec fn occurs_here(s: Seq<char>, pat: Seq<char>, k: int) -> bool {
    s.subrange(k, k + pat.len()) == pat
}

/// No occurrence of `pat` between `i` and `j` leaves the search to `j`.
pub proof fn lemma_find_from_skip(s: Seq<char>, pat: Seq<char>, i: int, j: int)
    requires
        0 <= i <= j,
        j + pat.len() <= s.len(),
        forall|k: int| i <= k < j ==> !#[trigger] occurs_here(s, pat, k),
    ensures
        find_from(s, pat, i) == find_from(s, pat, j),
    decreases j - i,
{
    if i < j {
        assert(!occurs_here(s, pat, i));
        lemma_find_from_skip(s, pat, i + 1, j);
    }
}

/// `str::split_whitespace` over characters.
pub fn words_in(v: &Vec<char>) -> (r: Vec<Vec<char>>)
    ensures
        r@.len() == words(v@).len(),
        forall|i: int| 0 <= i < r@.len() ==> #[trigger] r@[i]@ == words(v@)[i],
{
    let mut r: Vec<Vec<char>> = Vec::new();
    let mut p: usize = 0;
    let ghost w = words(v@);
    loop
        invariant
            p <= v@.len(),
            w == words(v@),
            r@.len() <= w.len(),
            forall|i: int| 0 <= i < r@.len() ==> #[trigger] r@[i]@ == w[i],
            w.skip(r@.len() as int) == words_from(v@, p as int),
        decreases v@.len() - p,
    {
        let mut a = p;
        while a < v.len() && is_unicode_whitespace(v[a])
            invariant
                p <= a <= v@.len(),
                uws_skip(v@, p as int) == uws_skip(v@, a as int),
            decreases v@.len() - a,
        {
            a += 1;
        }
        if a >= v.len() {
            assert(words_from(v@, p as int).len() == 0);
            assert(w.skip(r@.len() as int).len() == 0);
            return r;
        }
        let mut b = a;
        while b < v.len() && !is_unicode_whitespace(v[b])
            invariant
                a <= b <= v@.len(),
                word_end(v@, a as int) == word_end(v@, b as int),
            decreases v@.len() - b,
        {
            b += 1;
        }
        assert(uws_skip(v@, a as int) == a);
        assert(word_end(v@, b as int) == b);
        assert(b > a);
        assert(words_from(v@, p as int) == seq![v@.subrange(a as int, b as int)] + words_from(
            v@,
            b as int,
        ));
        let piece = slice_of(v, a, b);
        let ghost k = r@.len() as int;
        assert(w.skip(k)[0] == w[k]);
        assert(w.skip(k).drop_first() =~= w.skip(k + 1));
        r.push(piece);
        p = b;
    }
}

// ------------------------------------------------------------------
// Stable sorting by a text key

/// Where `x` goes in `s` so that equal keys keep their arrival order: before
/// the first element whose key sorts strictly after `x`'s.
pub open spec fn insert_pos<T>(s: Seq<T>, x: T, key: spec_fn(T) -> Seq<char>) -> int
    decreases s.len(),
{
    if s.len() == 0 {
        0
    } else if lex_lt(key(x), key(s[0])) {
        0
    } else {
        1 + insert_pos(s.drop_first(), x, key)
    }
}

/// The stable sort of `s` by `key` (what `sort_by` with a key comparison
/// produces): elements inserted one by one after every element whose key
/// is not greater.
pub open spec fn sort_by_key<T>(s: Seq<T>, key: spec_fn(T) -> Seq<char>) -> Seq<T>
    decreases s.len(),
{
    if s.len() == 0 {
        s
    } else {
        let r = sort_by_key(s.drop_last(), key);
        r.insert(insert_pos(r, s.last(), key), s.last())
    }
}

/// Keys never decrease along `s`.
pub open spec fn sorted_by_key<T>(s: Seq<T>, key: spec_fn(T) -> Seq<char>) -> bool {
    forall|i: int, j: int| 0 <= i < j < s.len() ==> !lex_lt(key(#[trigger] s[j]), key(#[trigger] s[i]))
}

pub proof fn lemma_insert_pos_bounds<T>(s: Seq<T>, x: T, key: spec_fn(T) -> Seq<char>)
    ensures
        0 <= insert_pos(s, x, key) <= s.len(),
        forall|j: int| 0 <= j < insert_pos(s, x, key) ==> !lex_lt(key(x), key(#[trigger] s[j])),
        insert_pos(s, x, key) < s.len() ==> lex_lt(key(x), key(s[insert_pos(s, x, key)])),
    decreases s.len(),
{
    if s.len() > 0 && !lex_lt(key(x), key(s[0])) {
        lemma_insert_pos_bounds(s.drop_first(), x, key);
        assert forall|j: int| 0 <= j < insert_pos(s, x, key) implies !lex_lt(
            key(x),
            key(#[trigger] s[j]),
        ) by {
            if j > 0 {
                assert(s[j] == s.drop_first()[j - 1]);
            }
        }
    }
}

/// Law: a stable sort by key leaves the keys in non-decreasing order and
/// keeps every element (the same multiset).
pub proof fn lemma_sort_by_key_sorted<T>(s: Seq<T>, key: spec_fn(T) -> Seq<char>)
    ensures
        sorted_by_key(sort_by_key(s, key), key),
        sort_by_key(s, key).to_multiset() == s.to_multiset(),
        sort_by_key(s, key).len() == s.len(),
    decreases s.len(),
{
    broadcast use vstd::seq_lib::group_to_multiset_ensures;
    if s.len() > 0 {
        let r = sort_by_key(s.drop_last(), key);
        let x = s.last();
        lemma_sort_by_key_sorted(s.drop_last(), key);
        lemma_insert_pos_bounds(r, x, key);
        let p = insert_pos(r, x, key);
        let out = r.insert(p, x);
        assert forall|i: int, j: int| 0 <= i < j < out.len() implies !lex_lt(
            key(#[trigger] out[j]),
            key(#[trigger] out[i]),
        ) by {
            if i < p && j == p {
            } else if i == p && j > p {
                assert(out[j] == r[j - 1]);
                assert(lex_lt(key(x), key(r[p])));
                if j - 1 > p {
                    assert(!lex_lt(key(r[j - 1]), key(r[p])));
                    lemma_lex_total(key(r[j - 1]), key(r[p]));
                    if lex_lt(key(r[j - 1]), key(x)) {
                        lemma_lex_transitive(key(r[j - 1]), key(x), key(r[p]));
                    }
                } else {
                    lemma_lex_asymmetric(key(x), key(r[p]));
                }
            } else if i < p && j > p {
                assert(out[j] == r[j - 1]);
                assert(out[i] == r[i]);
            } else if j < p {
                assert(out[j] == r[j]);
                assert(out[i] == r[i]);
            } else {
                assert(out[j] == r[j - 1]);
                assert(out[i] == r[i - 1]);
            }
        }
        vstd::seq_lib::to_multiset_insert(r, p, x);
        vstd::seq_lib::to_multiset_build(s.drop_last(), x);
        assert(s =~= s.drop_last().push(x));
    }
}


/// Values that carry a name to sort by.
pub trait Named {
    spec fn spec_name(&self) -> Seq<char>;

    fn name_str(&self) -> (r: &str)
        ensures
            r@ == self.spec_name(),
    ;
}

/// The sort key of a named value.
pub open spec fn name_key<T: Named>() -> spec_fn(T) -> Seq<char> {
    |t: T| t.spec_name()
}

pub proof fn lemma_insert_pos_skip<T>(s: Seq<T>, x: T, key: spec_fn(T) -> Seq<char>, j: int)
    requires
        0 <= j <= s.len(),
        forall|k: int| 0 <= k < j ==> !lex_lt(key(x), key(#[trigger] s[k])),
    ensures
        insert_pos(s, x, key) == j + insert_pos(s.skip(j), x, key),
    decreases j,
{
    if j > 0 {
        assert(!lex_lt(key(x), key(s[0])));
        let t = s.drop_first();
        assert forall|k: int| 0 <= k < j - 1 implies !lex_lt(key(x), key(#[trigger] t[k])) by {
            assert(t[k] == s[k + 1]);
        }
        lemma_insert_pos_skip(t, x, key, j - 1);
        assert(t.skip(j - 1) =~= s.skip(j));
    } else {
        assert(s.skip(0) =~= s);
    }
}

/// Stable sort by name (`sort_by(|a, b| a.name.cmp(&b.name))`).
pub fn sort_by_name<T: Named>(v: Vec<T>) -> (r: Vec<T>)
    ensures
        r@ == sort_by_key(v@, name_key::<T>()),
{
    let ghost orig = v@;
    let n = v.len();
    let mut input = v;
    let mut out: Vec<T> = Vec::new();
    let mut i: usize = 0;
    assert(orig.take(0) =~= Seq::<T>::empty());
    while input.len() > 0
        invariant
            i + input@.len() == orig.len(),
            orig.len() == n,
            input@ == orig.skip(i as int),
            out@ == sort_by_key(orig.take(i as int), name_key::<T>()),
        decreases input@.len(),
    {
        let x = input.remove(0);
        let ghost key = name_key::<T>();
        let mut j: usize = 0;
        while j < out.len() && !str_lt(x.name_str(), out[j].name_str())
            invariant
                j <= out@.len(),
                key == name_key::<T>(),
                forall|k: int| 0 <= k < j ==> !lex_lt(key(x), key(#[trigger] out@[k])),
            decreases out@.len() - j,
        {
            j += 1;
        }
        proof {
            lemma_insert_pos_skip(out@, x, key, j as int);
            if j < out@.len() {
                assert(lex_lt(key(x), key(out@.skip(j as int)[0])));
            }
            assert(insert_pos(out@.skip(j as int), x, key) == 0);
            assert(orig.take(i + 1).drop_last() =~= orig.take(i as int));
            assert(orig.take(i + 1).last() == x);
            assert(input@ =~= orig.skip(i + 1));
        }
        out.insert(j, x);
        i += 1;
    }
    assert(orig.take(i as int) =~= orig);
    out
}

/// Mapping each element commutes with a stable sort when the key survives
/// the mapping.
pub proof fn lemma_sort_map<A, B>(
    s: Seq<A>,
    ka: spec_fn(A) -> Seq<char>,
    f: spec_fn(A) -> B,
    kb: spec_fn(B) -> Seq<char>,
)
    requires
        forall|a: A| #[trigger] kb(f(a)) == ka(a),
    ensures
        sort_by_key(s, ka).map_values(f) == sort_by_key(s.map_values(f), kb),
    decreases s.len(),
{
    if s.len() > 0 {
        let r = sort_by_key(s.drop_last(), ka);
        let x = s.last();
        lemma_sort_map(s.drop_last(), ka, f, kb);
        assert(s.map_values(f).drop_last() =~= s.drop_last().map_values(f));
        lemma_insert_pos_map(r, x, ka, f, kb);
        lemma_insert_pos_bounds(r, x, ka);
        assert(r.insert(insert_pos(r, x, ka), x).map_values(f) =~= r.map_values(f).insert(
            insert_pos(r, x, ka),
            f(x),
        ));
    }
}

proof fn lemma_insert_pos_map<A, B>(
    s: Seq<A>,
    x: A,
    ka: spec_fn(A) -> Seq<char>,
    f: spec_fn(A) -> B,
    kb: spec_fn(B) -> Seq<char>,
)
    requires
        forall|a: A| #[trigger] kb(f(a)) == ka(a),
    ensures
        insert_pos(s, x, ka) == insert_pos(s.map_values(f), f(x), kb),
    decreases s.len(),
{
    if s.len() > 0 {
        assert(kb(f(s[0])) == ka(s[0]));
        assert(kb(f(x)) == ka(x));
        lemma_insert_pos_map(s.drop_first(), x, ka, f, kb);
        assert(s.map_values(f).drop_first() =~= s.drop_first().map_values(f));
    }
}


// ------------------------------------------------------------------
// UTF-8 and lines

/// `std::str::from_utf8`: the text the bytes encode, when they are valid
/// UTF-8.
#[verifier::external_body]
pub(crate) fn utf8_text(bytes: &[u8]) -> (r: Option<&str>)
    ensures
        r is Some <==> vstd::utf8::valid_utf8(bytes@),
        r matches Some(s) ==> s@ == vstd::utf8::decode_utf8(bytes@),
{
    std::str::from_utf8(bytes).ok()
}

pub proof fn lemma_split_nonempty(s: Seq<char>, c: char)
    ensures
        split_char(s, c).len() >= 1,
    decreases s.len(),
{
    match find_seq(s, seq![c]) {
        None => {},
        Some(i) => if 0 <= i < s.len() {
            lemma_split_nonempty(s.skip(i + 1), c);
        },
    }
}

/// A line without the `\r` of a `\r\n` ending.
pub open spec fn strip_cr(l: Seq<char>) -> Seq<char> {
    if l.len() > 0 && l.last() == '\r' {
        l.drop_last()
    } else {
        l
    }
}

/// `str::lines`: the text split at `\n`, each terminated line without a
/// `\r` before its `\n`, and no empty last line after a final `\n`.
pub open spec fn text_lines(s: Seq<char>) -> Seq<Seq<char>> {
    let ps = split_char(s, '\n');
    let n = ps.len() as int;
    let init = Seq::new((n - 1) as nat, |i: int| strip_cr(ps[i]));
    if ps[n - 1].len() == 0 {
        init
    } else {
        init.push(ps[n - 1])
    }
}

/// The run of characters other than `c` from `p` stops at the end or at a `c`.
proof fn lemma_run_end(s: Seq<char>, c: char, p: int)
    requires
        0 <= p <= s.len(),
    ensures
        p <= run_end(s, c, p) <= s.len(),
        forall|j: int| p <= j < run_end(s, c, p) ==> s[j] != c,
        run_end(s, c, p) < s.len() ==> s[run_end(s, c, p)] == c,
    decreases s.len() - p,
{
    if p < s.len() && s[p] != c {
        lemma_run_end(s, c, p + 1);
    }
}

/// Splitting at `c` around one `c` splits each side on its own.
pub proof fn lemma_split_concat(x: Seq<char>, b: Seq<char>, c: char)
    ensures
        split_char(x + seq![c] + b, c) == split_char(x, c) + split_char(b, c),
    decreases x.len(),
{
    lemma_run_end(x, c, 0);
    let i = run_end(x, c, 0);
    if i == x.len() {
        assert(!x.contains(c)) by {
            if x.contains(c) {
                let j = choose|j: int| 0 <= j < x.len() && x[j] == c;
            }
        }
        lemma_split_cons(x, b, c);
        lemma_split_none(x, c);
    } else {
        let a = x.take(i);
        let y = x.skip(i + 1);
        assert(!a.contains(c)) by {
            if a.contains(c) {
                let j = choose|j: int| 0 <= j < a.len() && a[j] == c;
                assert(x[j] == c);
            }
        }
        assert(x =~= a + seq![c] + y);
        lemma_split_cons(a, y, c);
        assert(x + seq![c] + b =~= a + seq![c] + (y + seq![c] + b));
        lemma_split_cons(a, y + seq![c] + b, c);
        lemma_split_concat(y, b, c);
        assert(split_char(x + seq![c] + b, c) =~= split_char(x, c) + split_char(b, c));
    }
}

/// Law: appending a line (and its newline) to a text that ends in a
/// newline appends that line, without a `\r` ending, to its lines.
pub proof fn lemma_lines_append(x: Seq<char>, l: Seq<char>)
    requires
        !l.contains('\n'),
    ensures
        text_lines(x + seq!['\n'] + l + seq!['\n']) == text_lines(x + seq!['\n']).push(strip_cr(l)),
{
    let e = Seq::<char>::empty();
    lemma_split_none(e, '\n');
    lemma_split_cons(l, e, '\n');
    assert(l + seq!['\n'] + e =~= l + seq!['\n']);
    lemma_split_concat(x, l + seq!['\n'], '\n');
    assert(x + seq!['\n'] + l + seq!['\n'] =~= x + seq!['\n'] + (l + seq!['\n']));
    lemma_split_concat(x, e, '\n');
    assert(x + seq!['\n'] + e =~= x + seq!['\n']);
    let px = split_char(x, '\n');
    let ps = split_char(x + seq!['\n'] + l + seq!['\n'], '\n');
    let p2 = split_char(x + seq!['\n'], '\n');
    assert(ps == px + seq![l, e]);
    assert(p2 == px + seq![e]);
    assert(text_lines(x + seq!['\n'] + l + seq!['\n']) =~= text_lines(x + seq!['\n']).push(strip_cr(l)));
}

/// `str::lines` over characters.
pub fn lines_in(v: &Vec<char>) -> (r: Vec<Vec<char>>)
    ensures
        r@.len() == text_lines(v@).len(),
        forall|i: int| 0 <= i < r@.len() ==> #[trigger] r@[i]@ == text_lines(v@)[i],
{
    let pieces = split_in(v, '\n');
    let ghost ps = split_char(v@, '\n');
    proof { lemma_split_nonempty(v@, '\n'); }
    let n = pieces.len();
    let ghost tl = text_lines(v@);
    let mut out: Vec<Vec<char>> = Vec::new();
    let mut i: usize = 0;
    while i + 1 < n
        invariant
            n == pieces@.len() == ps.len() >= 1,
            ps == split_char(v@, '\n'),
            tl == text_lines(v@),
            forall|j: int| 0 <= j < pieces@.len() ==> #[trigger] pieces@[j]@ == ps[j],
            i < n,
            out@.len() == i,
            forall|j: int| 0 <= j < i ==> #[trigger] out@[j]@ == tl[j],
        decreases n - i,
    {
        let p = &pieces[i];
        let l = if p.len() > 0 && p[p.len() - 1] == '\r' { p.len() - 1 } else { p.len() };
        let line = slice_of(p, 0, l);
        assert(line@ =~= strip_cr(ps[i as int]));
        out.push(line);
        i += 1;
    }
    let last = &pieces[n - 1];
    if last.len() > 0 {
        let line = slice_of(last, 0, last.len());
        assert(line@ =~= ps[n - 1]);
        out.push(line);
    }
    out
}


impl Named for String {
    open spec fn spec_name(&self) -> Seq<char> {
        self@
    }

    fn name_str(&self) -> (r: &str) {
        self.as_str()
    }
}

/// The texts of a list of strings.
pub open spec fn texts_of(v: Seq<String>) -> Seq<Seq<char>> {
    v.map_values(|s: String| s@)
}

/// The identity key on texts.
pub open spec fn text_key() -> spec_fn(Seq<char>) -> Seq<char> {
    |t: Seq<char>| t
}

/// The view of a string, as a function.
pub open spec fn string_view_fn() -> spec_fn(String) -> Seq<char> {
    |s: String| s@
}

/// `Vec::dedup`: runs of equal neighbours collapsed to one.
pub open spec fn dedup(s: Seq<Seq<char>>) -> Seq<Seq<char>>
    decreases s.len(),
{
    if s.len() <= 1 {
        s
    } else {
        let r = dedup(s.drop_last());
        if s.last() == s[s.len() - 2] {
            r
        } else {
            r.push(s.last())
        }
    }
}

/// Each text sorts strictly before the next.
pub open spec fn strictly_increasing(s: Seq<Seq<char>>) -> bool {
    forall|i: int, j: int| 0 <= i < j < s.len() ==> lex_lt(#[trigger] s[i], #[trigger] s[j])
}

/// Deduplicating a sorted list leaves it strictly increasing, with only
/// texts of the list.
pub proof fn lemma_dedup_sorted(s: Seq<Seq<char>>)
    requires
        sorted_by_key(s, text_key()),
    ensures
        strictly_increasing(dedup(s)),
        forall|i: int| 0 <= i < dedup(s).len() ==> s.contains(#[trigger] dedup(s)[i]),
    decreases s.len(),
{
    if s.len() > 1 {
        let t = s.drop_last();
        assert(sorted_by_key(t, text_key())) by {
            assert forall|i: int, j: int| 0 <= i < j < t.len() implies !lex_lt(
                (text_key())(#[trigger] t[j]),
                (text_key())(#[trigger] t[i]),
            ) by {
                assert(t[i] == s[i] && t[j] == s[j]);
            }
        }
        lemma_dedup_sorted(t);
        let d = dedup(t);
        let x = s.last();
        let y = s[s.len() - 2];
        assert forall|i: int| 0 <= i < d.len() implies s.contains(#[trigger] d[i]) by {
            let k = choose|k: int| 0 <= k < t.len() && t[k] == d[i];
            assert(s[k] == d[i]);
        }
        if x != y {
            assert forall|i: int| 0 <= i < d.len() implies lex_lt(#[trigger] d[i], x) by {
                let k = choose|k: int| 0 <= k < t.len() && t[k] == d[i];
                assert(s[k] == t[k]);
                assert(!lex_lt((text_key())(s[s.len() - 1]), (text_key())(s[k])));
                lemma_lex_total(d[i], x);
                if d[i] == x {
                    if k < s.len() - 2 {
                        assert(!lex_lt((text_key())(s[s.len() - 2]), (text_key())(s[k])));
                    }
                    assert(!lex_lt((text_key())(s[s.len() - 1]), (text_key())(s[s.len() - 2])));
                    lemma_lex_total(x, y);
                }
            }
            let r = d.push(x);
            assert(dedup(s) == r);
            assert forall|i: int, j: int| 0 <= i < j < r.len() implies lex_lt(#[trigger] r[i], #[trigger] r[j]) by {
                if j == d.len() {
                    assert(r[i] == d[i]);
                } else {
                    assert(r[i] == d[i] && r[j] == d[j]);
                }
            }
            assert(r[d.len() as int] == s[s.len() - 1]);
        }
    } else if s.len() == 1 {
        assert(s.contains(s[0]));
    }
}

/// `sort()` then `dedup()` of a list of strings.
pub fn sort_dedup(v: Vec<String>) -> (r: Vec<String>)
    ensures
        texts_of(r@) == dedup(sort_by_key(texts_of(v@), text_key())),
{
    let sorted = sort_by_name(v);
    proof {
        lemma_sort_map(v@, name_key::<String>(), string_view_fn(), text_key());
        assert(texts_of(v@) =~= v@.map_values(string_view_fn()));
        assert(texts_of(sorted@) =~= sorted@.map_values(string_view_fn()));
    }
    let ghost sv = texts_of(sorted@);
    let mut out: Vec<String> = Vec::new();
    let mut i: usize = 0;
    assert(sv.take(0) =~= Seq::<Seq<char>>::empty());
    assert(texts_of(out@) =~= Seq::empty());
    while i < sorted.len()
        invariant
            i <= sorted@.len(),
            sv == texts_of(sorted@),
            texts_of(out@) == dedup(sv.take(i as int)),
            i > 0 ==> out@.len() > 0 && out@.last()@ == sv[i - 1],
        decreases sorted@.len() - i,
    {
        assert(sv.take(i + 1).drop_last() =~= sv.take(i as int));
        assert(sv.take(i + 1).last() == sv[i as int]);
        if i > 0 {
            assert(sv.take(i + 1)[i - 1] == sv[i - 1]);
        }
        let same = i > 0 && str_eq(out[out.len() - 1].as_str(), sorted[i].as_str());
        if !same {
            let ghost before = out@;
            out.push(sorted[i].clone());
            assert(texts_of(out@) =~= texts_of(before).push(sv[i as int]));
        }
        i += 1;
    }
    assert(sv.take(sorted@.len() as int) =~= sv);
    out
}

/// `str::trim_end` as a new string.
pub fn trim_end_of(s: &str) -> (r: String)
    ensures
        r@ == trim_end(s@),
{
    let v = chars_of(s);
    let mut b = v.len();
    assert(v@.subrange(0, b as int) =~= v@);
    while b > 0 && is_unicode_whitespace(v[b - 1])
        invariant
            b <= v@.len(),
            v@ == s@,
            trim_end(s@) == trim_end(v@.subrange(0, b as int)),
        decreases b,
    {
        assert(v@.subrange(0, b as int).drop_last() =~= v@.subrange(0, b - 1));
        b -= 1;
    }
    string_of(&v, 0, b)
}

/// Texts joined with a separator.
pub open spec fn join_with(parts: Seq<Seq<char>>, sep: Seq<char>) -> Seq<char>
    decreases parts.len(),
{
    if parts.len() == 0 {
        Seq::empty()
    } else if parts.len() == 1 {
        parts[0]
    } else {
        join_with(parts.drop_last(), sep) + sep + parts.last()
    }
}

/// A run of digits is all digits.
pub proof fn lemma_digits_len_all(t: Seq<char>)
    requires
        forall|i: int| 0 <= i < t.len() ==> is_digit(#[trigger] t[i]),
    ensures
        digits_len(t) == t.len(),
    decreases t.len(),
{
    if t.len() > 0 {
        let r = t.drop_first();
        assert forall|i: int| 0 <= i < r.len() implies is_digit(#[trigger] r[i]) by {
            assert(r[i] == t[i + 1]);
        }
        lemma_digits_len_all(r);
        assert(is_digit(t[0]));
    }
}

/// Every character of a decimal rendering is a digit.
pub proof fn lemma_dec_chars(n: nat)
    ensures
        dec(n).len() > 0,
        forall|i: int| 0 <= i < dec(n).len() ==> is_digit(#[trigger] dec(n)[i]),
    decreases n,
{
    if n >= 10 {
        lemma_dec_chars(n / 10);
        let d = n % 10;
        assert(is_digit(digit_char(d)));
        assert forall|i: int| 0 <= i < dec(n).len() implies is_digit(#[trigger] dec(n)[i]) by {
            if i < dec(n / 10).len() {
                assert(dec(n)[i] == dec(n / 10)[i]);
            }
        }
    } else {
        assert(is_digit(digit_char(n)));
    }
}

/// A decimal rendering is a non-empty run of digits.
pub proof fn lemma_dec_digits(n: nat)
    ensures
        dec(n).len() > 0,
        digits_len(dec(n)) == dec(n).len(),
{
    lemma_dec_chars(n);
    lemma_digits_len_all(dec(n));
}

/// Splitting text that holds no separator gives the text itself.
pub proof fn lemma_split_none(a: Seq<char>, c: char)
    requires
        !a.contains(c),
    ensures
        split_char(a, c) == seq![a],
{
    assert forall|j: int| 0 <= j < a.len() implies a[j] != c by {
        if a[j] == c {
            assert(a.contains(c));
        }
    }
    lemma_find_single(a, c, a.len() as int);
    assert(find_from(a, seq![c], a.len() as int) is None);
}

/// Splitting at the first separator.
pub proof fn lemma_split_cons(a: Seq<char>, b: Seq<char>, c: char)
    requires
        !a.contains(c),
    ensures
        split_char(a + seq![c] + b, c) == seq![a] + split_char(b, c),
{
    let s = a + seq![c] + b;
    assert forall|j: int| 0 <= j < a.len() implies s[j] != c by {
        assert(s[j] == a[j]);
        if a[j] == c {
            assert(a.contains(c));
        }
    }
    lemma_find_single(s, c, a.len() as int);
    assert(s.subrange(a.len() as int, a.len() as int + 1) =~= seq![c]);
    assert(find_seq(s, seq![c]) == Some(a.len() as int));
    assert(s.take(a.len() as int) =~= a);
    assert(s.skip(a.len() as int + 1) =~= b);
}

} // verus!
