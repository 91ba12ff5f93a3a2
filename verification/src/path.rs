//! Unix path text: joining a relative name onto a directory the way
//! `PathBuf::push` does, and splitting a path into its components.

use vstd::prelude::*;
use crate::text::{owned, push_all, push_char, chars_of, split_char, split_in, str_eq};

verus! {

/// `PathBuf::push` on Unix: an absolute `child` replaces `base`; otherwise
/// a `/` separates them unless `base` is empty or already ends in one.
pub open spec fn join_path(base: Seq<char>, child: Seq<char>) -> Seq<char> {
    if child.len() > 0 && child[0] == '/' {
        child
    } else if base.len() == 0 || base.last() == '/' {
        base + child
    } else {
        base + seq!['/'] + child
    }
}

/// `Path::join` on Unix paths.
pub fn join(base: &str, child: &str) -> (r: String)
    ensures
        r@ == join_path(base@, child@),
{
    let c = crate::text::chars_of(child);
    if c.len() > 0 && c[0] == '/' {
        return owned(child);
    }
    let b = crate::text::chars_of(base);
    let mut out = owned(base);
    if b.len() > 0 && b[b.len() - 1] != '/' {
        push_char(&mut out, '/');
    }
    push_all(&mut out, child);
    out
}


/// The pieces of a path between separators that name something: not
/// empty and not `.`.
pub open spec fn normal_pieces(pieces: Seq<Seq<char>>) -> Seq<Seq<char>>
    decreases pieces.len(),
{
    if pieces.len() == 0 {
        Seq::empty()
    } else {
        let rest = normal_pieces(pieces.drop_last());
        let p = pieces.last();
        if p.len() == 0 || p == seq!['.'] {
            rest
        } else {
            rest.push(p)
        }
    }
}

/// `Path::components` on Unix, each component as text: `/` for the root,
/// `.` for a leading current-directory marker, then the named pieces
/// (repeated separators and inner `.` pieces vanish).
pub open spec fn components(p: Seq<char>) -> Seq<Seq<char>> {
    let pieces = split_char(p, '/');
    let abs = p.len() > 0 && p[0] == '/';
    let lead = if abs {
        seq![seq!['/']]
    } else if pieces[0] == seq!['.'] {
        seq![seq!['.']]
    } else {
        Seq::empty()
    };
    lead + normal_pieces(pieces)
}

/// `Path::file_name`: the last component when it is a name other than `..`.
pub open spec fn file_name(p: Seq<char>) -> Option<Seq<char>> {
    let n = normal_pieces(split_char(p, '/'));
    if n.len() == 0 || n.last() == seq!['.', '.'] {
        None
    } else {
        Some(n.last())
    }
}

/// `Path::starts_with`: the components of `base` begin the components of `p`.
pub open spec fn path_starts_with(p: Seq<char>, base: Seq<char>) -> bool {
    let a = components(p);
    let b = components(base);
    b.len() <= a.len() && a.take(b.len() as int) == b
}

/// The named pieces of a path, as character vectors.
fn normal_pieces_of(p: &Vec<char>) -> (r: Vec<Vec<char>>)
    ensures
        r@.len() == normal_pieces(split_char(p@, '/')).len(),
        forall|i: int| 0 <= i < r@.len() ==> #[trigger] r@[i]@ == normal_pieces(split_char(p@, '/'))[i],
{
    let pieces = split_in(p, '/');
    let ghost ps = split_char(p@, '/');
    let mut out: Vec<Vec<char>> = Vec::new();
    let mut i: usize = 0;
    assert(ps.take(0) =~= Seq::<Seq<char>>::empty());
    while i < pieces.len()
        invariant
            i <= pieces@.len(),
            pieces@.len() == ps.len(),
            forall|j: int| 0 <= j < pieces@.len() ==> #[trigger] pieces@[j]@ == ps[j],
            out@.len() == normal_pieces(ps.take(i as int)).len(),
            forall|j: int| 0 <= j < out@.len() ==> #[trigger] out@[j]@ == normal_pieces(ps.take(i as int))[j],
        decreases pieces@.len() - i,
    {
        assert(ps.take(i + 1).drop_last() =~= ps.take(i as int));
        assert(ps.take(i + 1).last() == pieces@[i as int]@);
        let piece = &pieces[i];
        let is_dot = piece.len() == 1 && piece[0] == '.';
        assert(is_dot == (piece@ == seq!['.'])) by {
            if piece@.len() == 1 && piece@[0] == '.' {
                assert(piece@ =~= seq!['.']);
            }
        }
        if piece.len() != 0 && !is_dot {
            let copy = crate::text::slice_of(piece, 0, piece.len());
            assert(copy@ =~= piece@);
            out.push(copy);
        }
        i += 1;
    }
    assert(ps.take(ps.len() as int) =~= ps);
    out
}

/// Whether `p` names a file `rustup` (`file_name() == Some("rustup")`).
pub fn file_name_is(p: &str, name: &str) -> (r: bool)
    ensures
        r == (file_name(p@) == Some(name@)),
{
    let v = chars_of(p);
    let n = normal_pieces_of(&v);
    if n.len() == 0 {
        return false;
    }
    let last = crate::text::string_from(&n[n.len() - 1]);
    let is_up = str_eq(last.as_str(), "..");
    proof {
        reveal_strlit("..");
        assert(".."@ =~= seq!['.', '.']);
    }
    if is_up {
        return false;
    }
    str_eq(last.as_str(), name)
}

/// Whether any component of `p` is exactly `name`.
pub fn has_component(p: &str, name: &str) -> (r: bool)
    ensures
        r == normal_pieces(split_char(p@, '/')).contains(name@),
{
    let v = chars_of(p);
    let n = normal_pieces_of(&v);
    let ghost np = normal_pieces(split_char(p@, '/'));
    let mut i: usize = 0;
    while i < n.len()
        invariant
            i <= n@.len(),
            np == normal_pieces(split_char(p@, '/')),
            n@.len() == np.len(),
            forall|j: int| 0 <= j < n@.len() ==> #[trigger] n@[j]@ == np[j],
            forall|j: int| 0 <= j < i ==> np[j] != name@,
        decreases n@.len() - i,
    {
        let piece = crate::text::string_from(&n[i]);
        if str_eq(piece.as_str(), name) {
            assert(np[i as int] == name@);
            assert(np.contains(name@));
            return true;
        }
        i += 1;
    }
    false
}


/// The components of a path, as character vectors.
fn components_of(p: &Vec<char>) -> (r: Vec<Vec<char>>)
    ensures
        r@.len() == components(p@).len(),
        forall|i: int| 0 <= i < r@.len() ==> #[trigger] r@[i]@ == components(p@)[i],
{
    let normal = normal_pieces_of(p);
    let pieces = split_in(p, '/');
    proof { crate::text::lemma_split_nonempty(p@, '/'); }
    let ghost ps = split_char(p@, '/');
    let ghost np = normal_pieces(ps);
    let mut out: Vec<Vec<char>> = Vec::new();
    let ghost lead: Seq<Seq<char>>;
    if p.len() > 0 && p[0] == '/' {
        let mut root: Vec<char> = Vec::new();
        root.push('/');
        assert(root@ =~= seq!['/']);
        out.push(root);
        proof { lead = seq![seq!['/']]; }
    } else if pieces[0].len() == 1 && pieces[0][0] == '.' {
        let mut cur: Vec<char> = Vec::new();
        cur.push('.');
        assert(cur@ =~= seq!['.']);
        assert(pieces@[0]@ =~= seq!['.']);
        out.push(cur);
        proof { lead = seq![seq!['.']]; }
    } else {
        proof {
            lead = Seq::empty();
            if pieces@[0]@ == seq!['.'] {
                assert(pieces@[0]@.len() == 1);
            }
        }
    }
    assert(components(p@) == lead + np);
    let base = out.len();
    let mut i: usize = 0;
    while i < normal.len()
        invariant
            i <= normal@.len(),
            np == normal_pieces(split_char(p@, '/')),
            normal@.len() == np.len(),
            forall|j: int| 0 <= j < normal@.len() ==> #[trigger] normal@[j]@ == np[j],
            base == lead.len(),
            out@.len() == base + i,
            forall|j: int| 0 <= j < out@.len() ==> #[trigger] out@[j]@ == (lead + np)[j],
        decreases normal@.len() - i,
    {
        let c = crate::text::slice_of(&normal[i], 0, normal[i].len());
        assert(c@ =~= normal@[i as int]@);
        out.push(c);
        i += 1;
    }
    out
}

/// `Path::starts_with`, component-wise.
pub fn starts_with_path(p: &str, base: &str) -> (r: bool)
    ensures
        r == path_starts_with(p@, base@),
{
    let a = components_of(&chars_of(p));
    let b = components_of(&chars_of(base));
    if b.len() > a.len() {
        return false;
    }
    let ghost av = components(p@);
    let ghost bv = components(base@);
    let mut i: usize = 0;
    while i < b.len()
        invariant
            i <= b@.len() <= a@.len(),
            a@.len() == av.len(),
            b@.len() == bv.len(),
            av == components(p@),
            bv == components(base@),
            forall|j: int| 0 <= j < a@.len() ==> #[trigger] a@[j]@ == av[j],
            forall|j: int| 0 <= j < b@.len() ==> #[trigger] b@[j]@ == bv[j],
            forall|j: int| 0 <= j < i ==> av[j] == bv[j],
        decreases b@.len() - i,
    {
        let x = crate::text::string_from(&a[i]);
        let y = crate::text::string_from(&b[i]);
        if !str_eq(x.as_str(), y.as_str()) {
            assert(av.take(bv.len() as int)[i as int] != bv[i as int]);
            return false;
        }
        i += 1;
    }
    assert(av.take(bv.len() as int) =~= bv);
    true
}

/// Path equality as `PathBuf`'s `==` decides it: the same components, so
/// `/a//b/` and `/a/./b` are the same path as `/a/b`.
pub open spec fn same_path(a: Seq<char>, b: Seq<char>) -> bool {
    components(a) == components(b)
}

/// Whether two paths are equal component by component.
pub fn same_path_of(a: &str, b: &str) -> (r: bool)
    ensures
        r == same_path(a@, b@),
{
    let x = components_of(&chars_of(a));
    let y = components_of(&chars_of(b));
    let ghost xv = components(a@);
    let ghost yv = components(b@);
    if x.len() != y.len() {
        assert(xv.len() != yv.len());
        return false;
    }
    let mut i: usize = 0;
    while i < x.len()
        invariant
            i <= x@.len(),
            x@.len() == y@.len(),
            x@.len() == xv.len(),
            y@.len() == yv.len(),
            xv == components(a@),
            yv == components(b@),
            forall|j: int| 0 <= j < x@.len() ==> #[trigger] x@[j]@ == xv[j],
            forall|j: int| 0 <= j < y@.len() ==> #[trigger] y@[j]@ == yv[j],
            forall|j: int| 0 <= j < i ==> xv[j] == yv[j],
        decreases x@.len() - i,
    {
        let p = crate::text::string_from(&x[i]);
        let q = crate::text::string_from(&y[i]);
        if !str_eq(p.as_str(), q.as_str()) {
            assert(xv[i as int] != yv[i as int]);
            return false;
        }
        i += 1;
    }
    assert(xv =~= yv);
    true
}

} // verus!
