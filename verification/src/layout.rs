//! JSON as it is written: a value together with the whitespace its
//! containers are laid out with, the text that layout stands for, and the
//! law that the reader reads that text back to the value.

use vstd::prelude::*;
use crate::text::{join_with, is_digit, digits_len};
use crate::json::{
    JsonV, is_json_ws, ws_end, value_at, items_at, members_at, obj_insert, escape_spec,
    is_num_char, num_end, valid_float, valid_unsigned_float, lit_at, lemma_str_body_escaped,
};

verus! {

/// A JSON value with the layout it is written in. Lists and records carry
/// the whitespace written after the opening bracket, after each comma and
/// before the closing bracket.
pub enum Layout {
    Null,
    Bool(bool),
    /// A number written as decimal digits.
    Digits(Seq<char>),
    Text(Seq<char>),
    List(Seq<Layout>, Seq<char>, Seq<char>, Seq<char>),
    /// Keys, values, then the whitespace.
    Record(Seq<Seq<char>>, Seq<Layout>, Seq<char>, Seq<char>, Seq<char>),
}

/// Every character is JSON whitespace.
pub open spec fn all_ws(w: Seq<char>) -> bool {
    forall|i: int| 0 <= i < w.len() ==> is_json_ws(#[trigger] w[i])
}

/// A string literal holding `t`.
pub open spec fn literal(t: Seq<char>) -> Seq<char> {
    seq!['"'] + escape_spec(t) + seq!['"']
}

/// The text of a laid-out value.
pub open spec fn layout_text(l: Layout) -> Seq<char>
    decreases l, 0int,
{
    match l {
        Layout::Null => seq!['n', 'u', 'l', 'l'],
        Layout::Bool(b) => if b { seq!['t', 'r', 'u', 'e'] } else { seq!['f', 'a', 'l', 's', 'e'] },
        Layout::Digits(d) => d,
        Layout::Text(t) => literal(t),
        Layout::List(items, o, sp, c) => seq!['['] + (if items.len() == 0 {
            Seq::empty()
        } else {
            o + join_with(list_texts(items, items.len() as int), seq![','] + sp) + c
        }) + seq![']'],
        Layout::Record(keys, vals, o, sp, c) => seq!['{'] + (if vals.len() == 0 {
            Seq::empty()
        } else {
            o + join_with(record_texts(keys, vals, vals.len() as int), seq![','] + sp) + c
        }) + seq!['}'],
    }
}

/// The texts of the first `n` items of a list.
pub open spec fn list_texts(items: Seq<Layout>, n: int) -> Seq<Seq<char>>
    decreases items, n,
{
    if n <= 0 || n > items.len() {
        Seq::empty()
    } else {
        list_texts(items, n - 1).push(layout_text(items[n - 1]))
    }
}

/// The text of member `k` of a record: key, colon, space, value.
pub open spec fn member_text(keys: Seq<Seq<char>>, vals: Seq<Layout>, k: int) -> Seq<char>
    decreases vals, 0int,
{
    if 0 <= k < vals.len() {
        literal(keys[k]) + seq![':', ' '] + layout_text(vals[k])
    } else {
        Seq::empty()
    }
}

/// The texts of the first `n` members of a record.
pub open spec fn record_texts(keys: Seq<Seq<char>>, vals: Seq<Layout>, n: int) -> Seq<Seq<char>>
    decreases vals, n,
{
    if n <= 0 || n > vals.len() {
        Seq::empty()
    } else {
        record_texts(keys, vals, n - 1).push(member_text(keys, vals, n - 1))
    }
}

/// The value a laid-out value stands for.
pub open spec fn layout_value(l: Layout) -> JsonV
    decreases l, 0int,
{
    match l {
        Layout::Null => JsonV::Null,
        Layout::Bool(b) => JsonV::Bool(b),
        Layout::Digits(d) => JsonV::Number(d),
        Layout::Text(t) => JsonV::Str(t),
        Layout::List(items, _, _, _) => JsonV::Array(list_values(items, items.len() as int)),
        Layout::Record(keys, vals, _, _, _) => JsonV::Object(record_members(keys, vals, vals.len() as int)),
    }
}

/// The values of the first `n` items of a list.
pub open spec fn list_values(items: Seq<Layout>, n: int) -> Seq<JsonV>
    decreases items, n,
{
    if n <= 0 || n > items.len() {
        Seq::empty()
    } else {
        list_values(items, n - 1).push(layout_value(items[n - 1]))
    }
}

/// The members of the first `n` key/value pairs, each inserted in turn
/// (a later key replaces an equal earlier one).
pub open spec fn record_members(keys: Seq<Seq<char>>, vals: Seq<Layout>, n: int) -> Seq<(Seq<char>, JsonV)>
    decreases vals, n,
{
    if n <= 0 || n > vals.len() {
        Seq::empty()
    } else {
        obj_insert(record_members(keys, vals, n - 1), keys[n - 1], layout_value(vals[n - 1]))
    }
}

/// A layout that writes valid JSON: numbers are non-empty runs of digits,
/// container whitespace is whitespace, and a record has a key per value.
pub open spec fn well_laid(l: Layout) -> bool
    decreases l, 0int,
{
    match l {
        Layout::Digits(d) => d.len() > 0 && digits_len(d) == d.len(),
        Layout::List(items, o, sp, c) => all_ws(o) && all_ws(sp) && all_ws(c) && well_list(items, items.len() as int),
        Layout::Record(keys, vals, o, sp, c) => keys.len() == vals.len() && all_ws(o) && all_ws(sp) && all_ws(c)
            && well_list(vals, vals.len() as int),
        _ => true,
    }
}

/// The first `n` items are well laid.
pub open spec fn well_list(items: Seq<Layout>, n: int) -> bool
    decreases items, n,
{
    if n <= 0 || n > items.len() {
        true
    } else {
        well_list(items, n - 1) && well_laid(items[n - 1])
    }
}

// ------------------------------------------------------------------
// Reading laid-out text back

/// The items from `k` on, each behind the separator.
pub open spec fn tail_text(xs: Seq<Seq<char>>, sep: Seq<char>, k: int) -> Seq<char>
    decreases xs.len() - k,
{
    if k < 0 || k >= xs.len() {
        Seq::empty()
    } else {
        sep + xs[k] + tail_text(xs, sep, k + 1)
    }
}

proof fn lemma_tail_drop_last(xs: Seq<Seq<char>>, sep: Seq<char>, k: int)
    requires
        1 <= k < xs.len(),
    ensures
        tail_text(xs, sep, k) == tail_text(xs.drop_last(), sep, k) + sep + xs.last(),
    decreases xs.len() - k,
{
    if k + 1 < xs.len() {
        lemma_tail_drop_last(xs, sep, k + 1);
        assert(xs.drop_last()[k] == xs[k]);
        assert(tail_text(xs, sep, k) =~= tail_text(xs.drop_last(), sep, k) + sep + xs.last());
    } else {
        assert(tail_text(xs.drop_last(), sep, k) =~= Seq::<char>::empty());
        assert(tail_text(xs, sep, k + 1) =~= Seq::<char>::empty());
        assert(tail_text(xs, sep, k) =~= tail_text(xs.drop_last(), sep, k) + sep + xs.last());
    }
}

/// A joined list is its first text followed by the rest, each behind the separator.
proof fn lemma_join_front(xs: Seq<Seq<char>>, sep: Seq<char>)
    requires
        xs.len() >= 1,
    ensures
        join_with(xs, sep) == xs[0] + tail_text(xs, sep, 1),
    decreases xs.len(),
{
    if xs.len() == 1 {
        assert(tail_text(xs, sep, 1) =~= Seq::<char>::empty());
        assert(xs[0] + tail_text(xs, sep, 1) =~= xs[0]);
    } else {
        lemma_join_front(xs.drop_last(), sep);
        lemma_tail_drop_last(xs, sep, 1);
        assert(xs.drop_last()[0] == xs[0]);
        assert(join_with(xs, sep) =~= xs[0] + tail_text(xs, sep, 1));
    }
}

/// Skipping whitespace that is there.
proof fn lemma_ws_skip(s: Seq<char>, p: int, w: Seq<char>)
    requires
        all_ws(w),
        0 <= p,
        p + w.len() <= s.len(),
        s.subrange(p, p + w.len()) == w,
    ensures
        ws_end(s, p) == ws_end(s, p + w.len()),
    decreases w.len(),
{
    if w.len() > 0 {
        assert(s[p] == s.subrange(p, p + w.len())[0]);
        let w2 = w.drop_first();
        assert(s.subrange(p + 1, p + 1 + w2.len()) =~= w2) by {
            assert forall|i: int| 0 <= i < w2.len() implies s.subrange(p + 1, p + 1 + w2.len())[i] == w2[i] by {
                assert(s.subrange(p, p + w.len())[i + 1] == s[p + 1 + i]);
            }
        }
        assert(all_ws(w2)) by {
            assert forall|i: int| 0 <= i < w2.len() implies is_json_ws(#[trigger] w2[i]) by {
                assert(w2[i] == w[i + 1]);
            }
        }
        lemma_ws_skip(s, p + 1, w2);
    }
}

/// A piece at offset `a` of a text that sits at `p` sits at `p + a`.
proof fn lemma_piece(s: Seq<char>, p: int, body: Seq<char>, a: int, piece: Seq<char>)
    requires
        0 <= p,
        p + body.len() <= s.len(),
        s.subrange(p, p + body.len()) == body,
        0 <= a,
        a + piece.len() <= body.len(),
        body.subrange(a, a + piece.len()) == piece,
    ensures
        s.subrange(p + a, p + a + piece.len()) == piece,
{
    assert(s.subrange(p + a, p + a + piece.len()) =~= piece) by {
        assert forall|i: int| 0 <= i < piece.len() implies s.subrange(p + a, p + a + piece.len())[i] == piece[i] by {
            assert(body.subrange(a, a + piece.len())[i] == body[a + i]);
            assert(s.subrange(p, p + body.len())[a + i] == s[p + a + i]);
        }
    }
}

/// Where a number's digits end.
proof fn lemma_num_end(s: Seq<char>, p: int, n: int)
    requires
        0 <= p,
        0 <= n,
        p + n <= s.len(),
        forall|i: int| p <= i < p + n ==> is_digit(#[trigger] s[i]),
        p + n < s.len() ==> !is_num_char(s[p + n]),
    ensures
        num_end(s, p) == p + n,
    decreases n,
{
    if n > 0 {
        assert(is_digit(s[p]));
        lemma_num_end(s, p + 1, n - 1);
    }
}

proof fn lemma_digits_all(d: Seq<char>, i: int)
    requires
        digits_len(d) == d.len(),
        0 <= i < d.len(),
    ensures
        is_digit(d[i]),
    decreases i,
{
    if i > 0 {
        lemma_digits_all(d.drop_first(), i - 1);
    }
}

proof fn lemma_list_texts(items: Seq<Layout>, n: int, k: int)
    requires
        0 <= k < n <= items.len(),
    ensures
        list_texts(items, n).len() == n,
        list_texts(items, n)[k] == layout_text(items[k]),
    decreases n,
{
    lemma_list_texts_len(items, n - 1);
    if k < n - 1 {
        lemma_list_texts(items, n - 1, k);
    }
}

proof fn lemma_list_texts_len(items: Seq<Layout>, n: int)
    requires
        0 <= n <= items.len(),
    ensures
        list_texts(items, n).len() == n,
    decreases n,
{
    if n > 0 {
        lemma_list_texts_len(items, n - 1);
    }
}

proof fn lemma_record_texts(keys: Seq<Seq<char>>, vals: Seq<Layout>, n: int, k: int)
    requires
        0 <= k < n <= vals.len(),
    ensures
        record_texts(keys, vals, n).len() == n,
        record_texts(keys, vals, n)[k] == member_text(keys, vals, k),
    decreases n,
{
    lemma_record_texts_len(keys, vals, n - 1);
    if k < n - 1 {
        lemma_record_texts(keys, vals, n - 1, k);
    }
}

proof fn lemma_record_texts_len(keys: Seq<Seq<char>>, vals: Seq<Layout>, n: int)
    requires
        0 <= n <= vals.len(),
    ensures
        record_texts(keys, vals, n).len() == n,
    decreases n,
{
    if n > 0 {
        lemma_record_texts_len(keys, vals, n - 1);
    }
}

proof fn lemma_well_list(items: Seq<Layout>, n: int, k: int)
    requires
        0 <= k < n <= items.len(),
        well_list(items, n),
    ensures
        well_laid(items[k]),
    decreases n,
{
    if k < n - 1 {
        lemma_well_list(items, n - 1, k);
    }
}

/// Laid-out text starts with a character that opens a value.
proof fn lemma_first_char(l: Layout)
    requires
        well_laid(l),
    ensures
        layout_text(l).len() > 0,
        !is_json_ws(layout_text(l)[0]),
        layout_text(l)[0] != ']',
        layout_text(l)[0] != '}',
        layout_text(l)[0] != ',',
{
    match l {
        Layout::Digits(d) => {
            lemma_digits_all(d, 0);
        },
        _ => {},
    }
}

/// Whitespace in front of a value does not change what is read there.
proof fn lemma_value_at_from(s: Seq<char>, p: int, q: int)
    requires
        0 <= p <= q,
        ws_end(s, p) == q,
        ws_end(s, q) == q,
    ensures
        value_at(s, p) == value_at(s, q),
{
}

/// The text of a list from item `k` on: the whitespace before it, the
/// item, the later items behind their commas, the closing whitespace and
/// bracket.
pub open spec fn items_body(items: Seq<Layout>, pre: Seq<char>, sp: Seq<char>, c: Seq<char>, k: int) -> Seq<char> {
    let xs = list_texts(items, items.len() as int);
    pre + xs[k] + tail_text(xs, seq![','] + sp, k + 1) + c + seq![']']
}

/// The text of a record from member `k` on.
pub open spec fn members_body(keys: Seq<Seq<char>>, vals: Seq<Layout>, pre: Seq<char>, sp: Seq<char>, c: Seq<char>, k: int) -> Seq<char> {
    let xs = record_texts(keys, vals, vals.len() as int);
    pre + xs[k] + tail_text(xs, seq![','] + sp, k + 1) + c + seq!['}']
}

/// Law: laid-out text reads back as the value it lays out, whatever
/// precedes it and whatever follows it (unless more number characters
/// follow).
pub proof fn lemma_read_layout(s: Seq<char>, p: int, l: Layout)
    requires
        well_laid(l),
        0 <= p,
        p + layout_text(l).len() <= s.len(),
        s.subrange(p, p + layout_text(l).len()) == layout_text(l),
        p + layout_text(l).len() < s.len() ==> !is_num_char(s[p + layout_text(l).len()]),
    ensures
        value_at(s, p) == Some((layout_value(l), p + layout_text(l).len())),
    decreases l, 0int,
{
    let t = layout_text(l);
    let n = t.len() as int;
    lemma_first_char(l);
    assert(s[p] == t[0]) by {
        assert(s.subrange(p, p + n)[0] == s[p]);
    }
    assert(ws_end(s, p) == p);
    match l {
        Layout::Null => {
            assert(lit_at(s, p, seq!['n', 'u', 'l', 'l']));
        },
        Layout::Bool(b) => {
            if b {
                assert(lit_at(s, p, seq!['t', 'r', 'u', 'e']));
            } else {
                assert(lit_at(s, p, seq!['f', 'a', 'l', 's', 'e']));
            }
        },
        Layout::Digits(d) => {
            assert forall|i: int| p <= i < p + n implies is_digit(#[trigger] s[i]) by {
                lemma_digits_all(d, i - p);
                assert(s.subrange(p, p + n)[i - p] == s[i]);
            }
            lemma_num_end(s, p, n);
            lemma_digits_all(d, 0);
            assert(d.skip(d.len() as int) =~= Seq::<char>::empty());
            assert(valid_unsigned_float(d));
            assert(valid_float(d));
        },
        Layout::Text(x) => {
            let e = escape_spec(x);
            let el = e.len() as int;
            assert(t.subrange(1, 1 + el) =~= e);
            lemma_piece(s, p, t, 1, e);
            assert(s[p + 1 + el] == t[1 + el]) by {
                assert(s.subrange(p, p + n)[1 + el] == s[p + 1 + el]);
            }
            lemma_str_body_escaped(s, p + 1, Seq::empty(), x);
            assert(Seq::<char>::empty() + x =~= x);
        },
        Layout::List(items, o, sp, c) => {
            if items.len() == 0 {
                assert(s[p + 1] == t[1]) by {
                    assert(s.subrange(p, p + n)[1] == s[p + 1]);
                }
                assert(ws_end(s, p + 1) == p + 1);
            } else {
                lemma_read_list(s, p, items, o, sp, c);
            }
        },
        Layout::Record(keys, vals, o, sp, c) => {
            if vals.len() == 0 {
                assert(s[p + 1] == t[1]) by {
                    assert(s.subrange(p, p + n)[1] == s[p + 1]);
                }
                assert(ws_end(s, p + 1) == p + 1);
            } else {
                lemma_read_record(s, p, keys, vals, o, sp, c);
            }
        },
    }
}

#[verifier::rlimit(40)]
#[verifier::spinoff_prover]
proof fn lemma_read_list(s: Seq<char>, p: int, items: Seq<Layout>, o: Seq<char>, sp: Seq<char>, c: Seq<char>)
    requires
        items.len() > 0,
        well_laid(Layout::List(items, o, sp, c)),
        0 <= p,
        p + layout_text(Layout::List(items, o, sp, c)).len() <= s.len(),
        s.subrange(p, p + layout_text(Layout::List(items, o, sp, c)).len()) == layout_text(Layout::List(items, o, sp, c)),
    ensures
        value_at(s, p) == Some((
            layout_value(Layout::List(items, o, sp, c)),
            p + layout_text(Layout::List(items, o, sp, c)).len(),
        )),
    decreases items, items.len() + 1,
{
    let l = Layout::List(items, o, sp, c);
    let t = layout_text(l);
    let n = t.len() as int;
    let xs = list_texts(items, items.len() as int);
    let sep = seq![','] + sp;
    lemma_list_texts(items, items.len() as int, 0);
    lemma_join_front(xs, sep);
    let body = items_body(items, o, sp, c, 0);
    assert(t =~= seq!['['] + body);
    assert(t.subrange(1, n) =~= body);
    lemma_piece(s, p, t, 1, body);
    assert(s[p] == '[') by {
        assert(s.subrange(p, p + n)[0] == s[p]);
    }
    lemma_well_list(items, items.len() as int, 0);
    lemma_first_char(items[0]);
    assert(body.subrange(0, o.len() as int) =~= o);
    lemma_piece(s, p + 1, body, 0, o);
    lemma_ws_skip(s, p + 1, o);
    assert(s[p + 1 + o.len()] == xs[0][0]) by {
        assert(s.subrange(p + 1, p + 1 + body.len())[o.len() as int] == s[p + 1 + o.len()]);
    }
    assert(ws_end(s, p + 1 + o.len()) == p + 1 + o.len());
    assert(list_values(items, 0) =~= Seq::<JsonV>::empty());
    lemma_read_items(s, p + 1, items, o, sp, c, 0);
}

proof fn lemma_read_items(s: Seq<char>, p: int, items: Seq<Layout>, pre: Seq<char>, sp: Seq<char>, c: Seq<char>, k: int)
    requires
        0 <= k < items.len(),
        well_list(items, items.len() as int),
        all_ws(pre),
        all_ws(sp),
        all_ws(c),
        0 <= p,
        p + items_body(items, pre, sp, c, k).len() <= s.len(),
        s.subrange(p, p + items_body(items, pre, sp, c, k).len()) == items_body(items, pre, sp, c, k),
    ensures
        items_at(s, p, list_values(items, k)) == Some((
            JsonV::Array(list_values(items, items.len() as int)),
            p + items_body(items, pre, sp, c, k).len(),
        )),
    decreases items, items.len() - k,
{
    let len = items.len() as int;
    let xs = list_texts(items, len);
    let sep = seq![','] + sp;
    let body = items_body(items, pre, sp, c, k);
    let x = xs[k];
    let a = pre.len() as int;
    lemma_list_texts(items, len, k);
    lemma_well_list(items, len, k);
    lemma_first_char(items[k]);
    assert(body.subrange(0, a) =~= pre);
    lemma_piece(s, p, body, 0, pre);
    lemma_ws_skip(s, p, pre);
    assert(s[p + a] == x[0]) by {
        assert(s.subrange(p, p + body.len())[a] == s[p + a]);
    }
    assert(ws_end(s, p + a) == p + a);
    lemma_value_at_from(s, p, p + a);
    assert(body.subrange(a, a + x.len()) =~= x);
    lemma_piece(s, p, body, a, x);
    let q = p + a + x.len();
    let rest = tail_text(xs, sep, k + 1) + c + seq![']'];
    assert(body =~= pre + x + rest);
    assert(s[q] == rest[0]) by {
        assert(s.subrange(p, p + body.len())[a + x.len()] == s[q]);
    }
    if k + 1 < len {
        assert(rest[0] == ',');
    } else {
        assert(tail_text(xs, sep, k + 1) =~= Seq::<char>::empty());
        if c.len() > 0 {
            assert(rest[0] == c[0]);
        } else {
            assert(rest[0] == ']');
        }
    }
    lemma_read_layout(s, p + a, items[k]);
    let v = layout_value(items[k]);
    assert(list_values(items, k + 1) == list_values(items, k).push(v));
    if k + 1 < len {
        assert(ws_end(s, q) == q);
        let body2 = items_body(items, sp, sp, c, k + 1);
        assert(rest =~= seq![','] + body2);
        assert(body.subrange(a + x.len() + 1, body.len() as int) =~= body2);
        lemma_piece(s, p, body, a + x.len() + 1, body2);
        lemma_read_items(s, q + 1, items, sp, sp, c, k + 1);
    } else {
        assert(rest =~= c + seq![']']);
        assert(body.subrange(a + x.len(), a + x.len() + c.len()) =~= c);
        lemma_piece(s, p, body, a + x.len(), c);
        lemma_ws_skip(s, q, c);
        assert(s[q + c.len()] == ']') by {
            assert(s.subrange(p, p + body.len())[a + x.len() + c.len()] == s[q + c.len()]);
        }
        assert(ws_end(s, q + c.len()) == q + c.len());
    }
}

#[verifier::rlimit(40)]
#[verifier::spinoff_prover]
proof fn lemma_read_record(
    s: Seq<char>,
    p: int,
    keys: Seq<Seq<char>>,
    vals: Seq<Layout>,
    o: Seq<char>,
    sp: Seq<char>,
    c: Seq<char>,
)
    requires
        vals.len() > 0,
        well_laid(Layout::Record(keys, vals, o, sp, c)),
        0 <= p,
        p + layout_text(Layout::Record(keys, vals, o, sp, c)).len() <= s.len(),
        s.subrange(p, p + layout_text(Layout::Record(keys, vals, o, sp, c)).len())
            == layout_text(Layout::Record(keys, vals, o, sp, c)),
    ensures
        value_at(s, p) == Some((
            layout_value(Layout::Record(keys, vals, o, sp, c)),
            p + layout_text(Layout::Record(keys, vals, o, sp, c)).len(),
        )),
    decreases vals, vals.len() + 1,
{
    let l = Layout::Record(keys, vals, o, sp, c);
    let t = layout_text(l);
    let n = t.len() as int;
    let xs = record_texts(keys, vals, vals.len() as int);
    let sep = seq![','] + sp;
    lemma_record_texts(keys, vals, vals.len() as int, 0);
    lemma_join_front(xs, sep);
    let body = members_body(keys, vals, o, sp, c, 0);
    assert(t =~= seq!['{'] + body);
    assert(t.subrange(1, n) =~= body);
    lemma_piece(s, p, t, 1, body);
    assert(s[p] == '{') by {
        assert(s.subrange(p, p + n)[0] == s[p]);
    }
    assert(body.subrange(0, o.len() as int) =~= o);
    lemma_piece(s, p + 1, body, 0, o);
    lemma_ws_skip(s, p + 1, o);
    assert(s[p + 1 + o.len()] == '"') by {
        assert(s.subrange(p + 1, p + 1 + body.len())[o.len() as int] == s[p + 1 + o.len()]);
    }
    assert(ws_end(s, p + 1 + o.len()) == p + 1 + o.len());
    assert(record_members(keys, vals, 0) =~= Seq::<(Seq<char>, JsonV)>::empty());
    lemma_read_members(s, p + 1, keys, vals, o, sp, c, 0);
}

#[verifier::rlimit(80)]
#[verifier::spinoff_prover]
proof fn lemma_read_members(
    s: Seq<char>,
    p: int,
    keys: Seq<Seq<char>>,
    vals: Seq<Layout>,
    pre: Seq<char>,
    sp: Seq<char>,
    c: Seq<char>,
    k: int,
)
    requires
        0 <= k < vals.len(),
        keys.len() == vals.len(),
        well_list(vals, vals.len() as int),
        all_ws(pre),
        all_ws(sp),
        all_ws(c),
        0 <= p,
        p + members_body(keys, vals, pre, sp, c, k).len() <= s.len(),
        s.subrange(p, p + members_body(keys, vals, pre, sp, c, k).len()) == members_body(keys, vals, pre, sp, c, k),
    ensures
        members_at(s, p, record_members(keys, vals, k)) == Some((
            JsonV::Object(record_members(keys, vals, vals.len() as int)),
            p + members_body(keys, vals, pre, sp, c, k).len(),
        )),
    decreases vals, vals.len() - k,
{
    let len = vals.len() as int;
    let xs = record_texts(keys, vals, len);
    let sep = seq![','] + sp;
    let body = members_body(keys, vals, pre, sp, c, k);
    let lit = literal(keys[k]);
    let e = escape_spec(keys[k]);
    let el = e.len() as int;
    let vt = layout_text(vals[k]);
    let x = xs[k];
    let a = pre.len() as int;
    lemma_record_texts(keys, vals, len, k);
    lemma_well_list(vals, len, k);
    lemma_first_char(vals[k]);
    assert(x =~= seq!['"'] + e + seq!['"', ':', ' '] + vt);
    assert(body.subrange(0, a) =~= pre);
    lemma_piece(s, p, body, 0, pre);
    lemma_ws_skip(s, p, pre);
    let rest = tail_text(xs, sep, k + 1) + c + seq!['}'];
    assert(body =~= pre + x + rest);
    let q = p + a;
    assert forall|i: int| 0 <= i < x.len() implies s[q + i] == x[i] by {
        assert(s.subrange(p, p + body.len())[a + i] == s[q + i]);
    }
    assert(x[0] == '"');
    assert(s[q] == x[0]);
    assert(ws_end(s, q) == q);
    // the key
    assert(body.subrange(a + 1, a + 1 + el) =~= e);
    lemma_piece(s, p, body, a + 1, e);
    assert(s[q + 1 + el] == x[1 + el]);
    lemma_str_body_escaped(s, q + 1, Seq::empty(), keys[k]);
    assert(Seq::<char>::empty() + keys[k] =~= keys[k]);
    let ek = q + 2 + el;
    assert(s[ek] == x[2 + el]);
    assert(ws_end(s, ek) == ek);
    assert(s[ek + 1] == x[3 + el]);
    assert(ws_end(s, ek + 1) == ws_end(s, ek + 2));
    // the value
    let vp = ek + 2;
    assert(s[vp] == x[4 + el]);
    assert(ws_end(s, vp) == vp);
    lemma_value_at_from(s, ek + 1, vp);
    assert(body.subrange(a + 4 + el, a + x.len()) =~= vt);
    lemma_piece(s, p, body, a + 4 + el, vt);
    let f = q + x.len();
    assert(s[f] == rest[0]) by {
        assert(s.subrange(p, p + body.len())[a + x.len()] == s[f]);
    }
    if k + 1 < len {
        assert(rest[0] == ',');
    } else {
        assert(tail_text(xs, sep, k + 1) =~= Seq::<char>::empty());
        if c.len() > 0 {
            assert(rest[0] == c[0]);
        } else {
            assert(rest[0] == '}');
        }
    }
    lemma_read_layout(s, vp, vals[k]);
    let v = layout_value(vals[k]);
    assert(record_members(keys, vals, k + 1) == obj_insert(record_members(keys, vals, k), keys[k], v));
    if k + 1 < len {
        assert(ws_end(s, f) == f);
        let body2 = members_body(keys, vals, sp, sp, c, k + 1);
        assert(rest =~= seq![','] + body2);
        assert(body.subrange(a + x.len() + 1, body.len() as int) =~= body2);
        lemma_piece(s, p, body, a + x.len() + 1, body2);
        lemma_read_members(s, f + 1, keys, vals, sp, sp, c, k + 1);
    } else {
        assert(rest =~= c + seq!['}']);
        assert(body.subrange(a + x.len(), a + x.len() + c.len()) =~= c);
        lemma_piece(s, p, body, a + x.len(), c);
        lemma_ws_skip(s, f, c);
        assert(s[f + c.len()] == '}') by {
            assert(s.subrange(p, p + body.len())[a + x.len() + c.len()] == s[f + c.len()]);
        }
        assert(ws_end(s, f + c.len()) == f + c.len());
    }
}

/// A character that a JSON string literal holds as itself.
pub open spec fn plain_char(c: char) -> bool {
    c != '"' && c != '\\' && (c as u32) >= 0x20
}

/// Text made of plain characters is written as itself.
pub proof fn lemma_escape_plain(t: Seq<char>)
    requires
        forall|i: int| 0 <= i < t.len() ==> plain_char(#[trigger] t[i]),
    ensures
        escape_spec(t) == t,
    decreases t.len(),
{
    if t.len() > 0 {
        let r = t.drop_first();
        assert forall|i: int| 0 <= i < r.len() implies plain_char(#[trigger] r[i]) by {
            assert(r[i] == t[i + 1]);
        }
        lemma_escape_plain(r);
        assert(plain_char(t[0]));
        assert(escape_spec(t) =~= t);
    }
}

/// Every item is well laid, so the list is.
pub proof fn lemma_well_list_all(items: Seq<Layout>, n: int)
    requires
        0 <= n <= items.len(),
        forall|i: int| 0 <= i < n ==> well_laid(#[trigger] items[i]),
    ensures
        well_list(items, n),
    decreases n,
{
    if n > 0 {
        lemma_well_list_all(items, n - 1);
    }
}

/// The members of a record written one more at a time.
pub proof fn lemma_record_join(keys: Seq<Seq<char>>, vals: Seq<Layout>, n: int, sep: Seq<char>)
    requires
        1 <= n <= vals.len(),
    ensures
        n == 1 ==> join_with(record_texts(keys, vals, n), sep) == member_text(keys, vals, 0),
        n > 1 ==> join_with(record_texts(keys, vals, n), sep)
            == join_with(record_texts(keys, vals, n - 1), sep) + sep + member_text(keys, vals, n - 1),
{
    lemma_record_texts_len(keys, vals, n - 1);
    let xs = record_texts(keys, vals, n - 1);
    assert(record_texts(keys, vals, n) == xs.push(member_text(keys, vals, n - 1)));
    assert(xs.push(member_text(keys, vals, n - 1)).drop_last() =~= xs);
    if n == 1 {
        assert(xs.push(member_text(keys, vals, 0)) =~= seq![member_text(keys, vals, 0)]);
    }
}

// ------------------------------------------------------------------
// Writing laid-out text piece by piece

/// A record's text after its opening brace, through its first `k` members.
pub open spec fn record_prefix(keys: Seq<Seq<char>>, vals: Seq<Layout>, o: Seq<char>, sp: Seq<char>, k: int) -> Seq<char> {
    if k <= 0 {
        Seq::empty()
    } else {
        o + join_with(record_texts(keys, vals, k), seq![','] + sp)
    }
}

/// One more member of a record.
pub proof fn lemma_record_step(keys: Seq<Seq<char>>, vals: Seq<Layout>, o: Seq<char>, sp: Seq<char>, k: int)
    requires
        0 <= k < vals.len(),
    ensures
        record_prefix(keys, vals, o, sp, k + 1) == record_prefix(keys, vals, o, sp, k)
            + (if k == 0 { o } else { seq![','] + sp }) + member_text(keys, vals, k),
{
    lemma_record_join(keys, vals, k + 1, seq![','] + sp);
    if k == 0 {
        assert(record_prefix(keys, vals, o, sp, 0) =~= Seq::<char>::empty());
        assert(record_prefix(keys, vals, o, sp, 1) =~= record_prefix(keys, vals, o, sp, 0) + o + member_text(keys, vals, 0));
    } else {
        assert(record_prefix(keys, vals, o, sp, k + 1) =~= record_prefix(keys, vals, o, sp, k) + (seq![','] + sp)
            + member_text(keys, vals, k));
    }
}

/// A whole record.
pub proof fn lemma_record_whole(keys: Seq<Seq<char>>, vals: Seq<Layout>, o: Seq<char>, sp: Seq<char>, c: Seq<char>)
    requires
        vals.len() > 0,
    ensures
        layout_text(Layout::Record(keys, vals, o, sp, c)) == seq!['{'] + record_prefix(keys, vals, o, sp, vals.len() as int) + c
            + seq!['}'],
{
    assert(layout_text(Layout::Record(keys, vals, o, sp, c)) =~= seq!['{'] + record_prefix(keys, vals, o, sp, vals.len() as int)
        + c + seq!['}']);
}

/// A list's text after its opening bracket, through its first `k` items.
pub open spec fn list_prefix(items: Seq<Layout>, o: Seq<char>, sp: Seq<char>, k: int) -> Seq<char> {
    if k <= 0 {
        Seq::empty()
    } else {
        o + join_with(list_texts(items, k), seq![','] + sp)
    }
}

/// One more item of a list.
pub proof fn lemma_list_step(items: Seq<Layout>, o: Seq<char>, sp: Seq<char>, k: int)
    requires
        0 <= k < items.len(),
    ensures
        list_prefix(items, o, sp, k + 1) == list_prefix(items, o, sp, k) + (if k == 0 { o } else { seq![','] + sp })
            + layout_text(items[k]),
{
    lemma_list_texts_len(items, k);
    let xs = list_texts(items, k);
    let x = layout_text(items[k]);
    assert(list_texts(items, k + 1) == xs.push(x));
    assert(xs.push(x).drop_last() =~= xs);
    if k == 0 {
        assert(xs.push(x) =~= seq![x]);
        assert(list_prefix(items, o, sp, 1) =~= list_prefix(items, o, sp, 0) + o + x);
    } else {
        assert(list_prefix(items, o, sp, k + 1) =~= list_prefix(items, o, sp, k) + (seq![','] + sp) + x);
    }
}

/// A whole list.
pub proof fn lemma_list_whole(items: Seq<Layout>, o: Seq<char>, sp: Seq<char>, c: Seq<char>)
    ensures
        items.len() > 0 ==> layout_text(Layout::List(items, o, sp, c)) == seq!['['] + list_prefix(items, o, sp, items.len() as int)
            + c + seq![']'],
        items.len() == 0 ==> layout_text(Layout::List(items, o, sp, c)) == seq!['[', ']'],
{
    if items.len() > 0 {
        assert(layout_text(Layout::List(items, o, sp, c)) =~= seq!['['] + list_prefix(items, o, sp, items.len() as int) + c
            + seq![']']);
    } else {
        assert(layout_text(Layout::List(items, o, sp, c)) =~= seq!['[', ']']);
    }
}


/// Law: in the value a record lays out, the key at `i` holds the value of
/// `vals[i]`, unless a later key repeats it.
pub proof fn lemma_record_lookup(keys: Seq<Seq<char>>, vals: Seq<Layout>, n: int, i: int)
    requires
        0 <= i < n <= vals.len(),
        forall|j: int| i < j < n ==> keys[j] != keys[i],
    ensures
        crate::json::find_key(record_members(keys, vals, n), keys[i]) == Some(layout_value(vals[i])),
    decreases n,
{
    crate::json::lemma_find_key_insert(record_members(keys, vals, n - 1), keys[n - 1], layout_value(vals[n - 1]), keys[i]);
    if i < n - 1 {
        lemma_record_lookup(keys, vals, n - 1, i);
    }
}


/// The values of a list are those of its items, one for one.
pub proof fn lemma_list_values(items: Seq<Layout>, n: int, i: int)
    requires
        0 <= i < n <= items.len(),
    ensures
        list_values(items, n).len() == n,
        list_values(items, n)[i] == layout_value(items[i]),
    decreases n,
{
    let prev = list_values(items, n - 1);
    assert(list_values(items, n) == prev.push(layout_value(items[n - 1])));
    if n == 1 {
        assert(prev == Seq::<JsonV>::empty());
    } else if i < n - 1 {
        lemma_list_values(items, n - 1, i);
    } else {
        lemma_list_values(items, n - 1, 0);
    }
}

} // verus!
