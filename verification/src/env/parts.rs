//! The components of Unix paths: a leading `/` or `.`, and the names between slashes other than
//! `.`. A backslash is a character like any other.

use crate::text::{
    begins_with, copy_text, has_prefix, join, last_index, law_indices, lemma_split_concat,
    lemma_split_join,
    lemma_split_plain, push_text,
    same_text, split, split_text, texts,
};
use crate::wutil::path::{dot, dotdot};
use vstd::prelude::*;
use vstd::slice::slice_subrange;

verus! {

/// The component that a path begins with on account of its first character: the root, or
/// the current directory.
pub open spec fn lead(p: Seq<char>) -> Seq<Seq<char>> {
    if p.len() > 0 && p[0] == '/' {
        seq![seq!['/']]
    } else if p == dot() || has_prefix(p, seq!['.', '/']) {
        seq![dot()]
    } else {
        Seq::empty()
    }
}

/// Whether what stands between two slashes counts as a component.
pub open spec fn is_name(piece: Seq<char>) -> bool {
    piece.len() > 0 && piece != dot()
}

/// The pieces that count as components.
pub open spec fn names(pieces: Seq<Seq<char>>) -> Seq<Seq<char>>
    decreases pieces.len(),
{
    if pieces.len() == 0 {
        Seq::empty()
    } else if is_name(pieces.last()) {
        names(pieces.drop_last()).push(pieces.last())
    } else {
        names(pieces.drop_last())
    }
}

/// The components of a path.
pub open spec fn components(p: Seq<char>) -> Seq<Seq<char>> {
    lead(p) + names(split(p, '/'))
}

/// Whether a path is absolute.
pub open spec fn is_absolute(p: Seq<char>) -> bool {
    p.len() > 0 && p[0] == '/'
}

/// Where the last piece of a path begins, past its first `b` characters.
pub open spec fn last_piece_start(p: Seq<char>, b: int) -> int {
    b + last_index(p.skip(b), '/') + 1
}

/// Where the path without its last piece ends.
pub open spec fn cut_before_last(p: Seq<char>, b: int) -> int {
    if last_index(p.skip(b), '/') < 0 {
        b
    } else {
        b + last_index(p.skip(b), '/')
    }
}

/// The last `c` stands before the end, and nothing equal to it stands behind it.
pub proof fn lemma_last_index(s: Seq<char>, c: char)
    ensures
        -1 <= last_index(s, c) < s.len(),
        last_index(s, c) >= 0 ==> s[last_index(s, c)] == c,
        !s.skip(last_index(s, c) + 1).contains(c),
    decreases s.len(),
{
    if s.len() > 0 && s.last() != c {
        let front = s.drop_last();
        lemma_last_index(front, c);
        let tail = s.skip(last_index(s, c) + 1);
        assert forall|k: int| 0 <= k < tail.len() implies tail[k] != c by {
            if k < tail.len() - 1 {
                assert(tail[k] == front.skip(last_index(s, c) + 1)[k]);
            }
        }
    }
}

/// A path without the pieces at its end that are no components; its first `b` characters
/// stay.
pub open spec fn without_idle_tail(p: Seq<char>, b: int) -> Seq<char>
    decreases p.len(),
{
    if b < 0 || p.len() <= b {
        p
    } else if is_name(p.skip(last_piece_start(p, b))) {
        p
    } else {
        proof {
            lemma_last_index(p.skip(b), '/');
        }
        without_idle_tail(p.take(cut_before_last(p, b)), b)
    }
}

/// A path without its last component. The root has no parent, and neither has the empty
/// path.
pub open spec fn parent(p: Seq<char>) -> Option<Seq<char>> {
    let b = lead(p).len() as int;
    let body = without_idle_tail(p, b);
    if body.len() > b {
        Some(without_idle_tail(body.take(cut_before_last(body, b)), b))
    } else if b > 0 && p[0] == '.' {
        Some(Seq::empty())
    } else {
        None
    }
}

/// The last component of a path, if it is a name other than `..`.
pub open spec fn file_name(p: Seq<char>) -> Option<Seq<char>> {
    let c = components(p);
    if c.len() > 0 && c.last() != seq!['/'] && c.last() != dot() && c.last() != dotdot() {
        Some(c.last())
    } else {
        None
    }
}

/// Whether the components of `base` come first among those of `p`.
pub open spec fn starts_with(p: Seq<char>, base: Seq<char>) -> bool {
    components(base).is_prefix_of(components(p))
}

/// Whether a name is the last component of a path.
pub open spec fn ends_in(p: Seq<char>, name: Seq<char>) -> bool {
    components(p).len() > 0 && components(p).last() == name
}

/// `rel` as seen from `base`: an absolute path stays as it is.
pub open spec fn joined(base: Seq<char>, rel: Seq<char>) -> Seq<char> {
    if is_absolute(rel) {
        rel
    } else if base.len() > 0 && base.last() != '/' {
        base + seq!['/'] + rel
    } else {
        base + rel
    }
}

/// Whether a piece is a component.
fn counts(piece: &[char]) -> (r: bool)
    ensures
        r == is_name(piece@),
{
    if piece.len() == 1 && piece[0] == '.' {
        assert(piece@ =~= dot());
        return false;
    }
    assert(piece@ != dot()) by {
        if piece@ == dot() {
            assert(piece@.len() == 1 && piece@[0] == '.');
        }
    }
    piece.len() > 0
}

/// The length of the leading component.
fn lead_len(p: &[char]) -> (r: usize)
    ensures
        r == lead(p@).len(),
        r <= p@.len(),
        r <= 1,
{
    let start: &[char] = &['.', '/'];
    assert(start@ =~= seq!['.', '/']);
    if p.len() == 0 {
        return 0;
    }
    if p[0] == '/' {
        return 1;
    }
    if (p.len() == 1 && p[0] == '.') || begins_with(p, start) {
        assert(p@.len() == 1 ==> p@ =~= dot());
        return 1;
    }
    assert(p@ != dot()) by {
        if p@ == dot() {
            assert(p@.len() == 1 && p@[0] == '.');
        }
    }
    0
}

/// The components of a path.
pub fn path_components(p: &[char]) -> (r: Vec<Vec<char>>)
    ensures
        texts(r@) == components(p@),
{
    let mut out: Vec<Vec<char>> = Vec::new();
    let n: usize = lead_len(p);
    if n > 0 {
        out.push(copy_text(slice_subrange(p, 0, 1)));
        assert(p@.subrange(0, 1) =~= lead(p@)[0]);
    }
    assert(texts(out@) =~= lead(p@));
    let pieces = split_text(p, '/');
    let ghost all = split(p@, '/');
    let mut i: usize = 0;
    assert(lead(p@) + names(all.take(0)) =~= lead(p@));
    while i < pieces.len()
        invariant
            i <= pieces@.len(),
            all == texts(pieces@),
            texts(out@) == lead(p@) + names(all.take(i as int)),
        decreases pieces@.len() - i,
    {
        let ghost before = texts(out@);
        let ghost next = all.take(i as int + 1);
        assert(next.drop_last() =~= all.take(i as int));
        assert(next.last() == pieces@[i as int]@);
        if counts(pieces[i].as_slice()) {
            out.push(copy_text(pieces[i].as_slice()));
            assert(texts(out@) =~= before.push(next.last()));
            assert(before.push(next.last()) =~= lead(p@) + names(next));
        }
        i += 1;
    }
    assert(all.take(i as int) =~= all);
    out
}

/// Whether two lists of components are equal up to length `n`.
fn agree(a: &Vec<Vec<char>>, b: &Vec<Vec<char>>, n: usize) -> (r: bool)
    requires
        n <= a@.len(),
        n <= b@.len(),
    ensures
        r == (texts(a@).take(n as int) == texts(b@).take(n as int)),
{
    let mut i: usize = 0;
    while i < n
        invariant
            i <= n,
            n <= a@.len(),
            n <= b@.len(),
            forall|j: int| 0 <= j < i ==> a@[j]@ == b@[j]@,
        decreases n - i,
    {
        if !same_text(a[i].as_slice(), b[i].as_slice()) {
            assert(texts(a@).take(n as int)[i as int] != texts(b@).take(n as int)[i as int]);
            return false;
        }
        i += 1;
    }
    assert(texts(a@).take(n as int) =~= texts(b@).take(n as int));
    true
}

/// Whether two paths have the same components.
pub fn same_path(a: &[char], b: &[char]) -> (r: bool)
    ensures
        r == (components(a@) == components(b@)),
{
    let x = path_components(a);
    let y = path_components(b);
    if x.len() != y.len() {
        return false;
    }
    assert(texts(x@).take(x@.len() as int) =~= texts(x@));
    assert(texts(y@).take(y@.len() as int) =~= texts(y@));
    agree(&x, &y, x.len())
}

/// Whether the components of `base` come first among those of `p`.
pub fn path_starts_with(p: &[char], base: &[char]) -> (r: bool)
    ensures
        r == starts_with(p@, base@),
{
    let x = path_components(p);
    let y = path_components(base);
    if y.len() > x.len() {
        return false;
    }
    let r: bool = agree(&x, &y, y.len());
    assert(texts(y@).take(y@.len() as int) =~= texts(y@));
    assert(texts(x@).take(y@.len() as int) =~= texts(x@).subrange(0, y@.len() as int));
    r
}

/// Whether a name is the last component of a path.
pub fn path_ends_in(p: &[char], name: &[char]) -> (r: bool)
    ensures
        r == ends_in(p@, name@),
{
    let x = path_components(p);
    if x.len() == 0 {
        return false;
    }
    same_text(x[x.len() - 1].as_slice(), name)
}

/// The last component of a path, if it is a name other than `..`.
pub fn path_file_name(p: &[char]) -> (r: Option<Vec<char>>)
    ensures
        file_name(p@) == (match r {
            Some(n) => Some(n@),
            None => None,
        }),
{
    let mut x = path_components(p);
    let ghost all = texts(x@);
    match x.pop() {
        Some(last) => {
            assert(last@ == all.last());
            let root: &[char] = &['/'];
            let here: &[char] = &['.'];
            let up: &[char] = &['.', '.'];
            assert(root@ =~= seq!['/']);
            assert(here@ =~= dot());
            assert(up@ =~= dotdot());
            if same_text(last.as_slice(), root) || same_text(last.as_slice(), here) || same_text(
                last.as_slice(),
                up,
            ) {
                None
            } else {
                Some(last)
            }
        },
        None => None,
    }
}

/// `rel` as seen from `base`.
pub fn path_join(base: &[char], rel: &[char]) -> (r: Vec<char>)
    ensures
        r@ == joined(base@, rel@),
{
    if rel.len() > 0 && rel[0] == '/' {
        return copy_text(rel);
    }
    let mut out = copy_text(base);
    if base.len() > 0 && base[base.len() - 1] != '/' {
        out.push('/');
    }
    push_text(&mut out, rel);
    assert(out@ =~= joined(base@, rel@));
    out
}

/// Removes the last piece of a path, with the slash before it.
fn drop_piece(p: &[char], b: usize) -> (r: (usize, usize))
    requires
        b < p@.len(),
    ensures
        r.0 == cut_before_last(p@, b as int),
        r.1 == last_piece_start(p@, b as int),
        b <= r.0 <= r.1 <= p@.len(),
        r.0 < p@.len(),
{
    proof {
        lemma_last_index(p@.skip(b as int), '/');
    }
    assert(p@.subrange(b as int, p@.len() as int) =~= p@.skip(b as int));
    let past: usize = crate::text::find_last_end(slice_subrange(p, b, p.len()), '/');
    if past == 0 {
        (b, b)
    } else {
        (b + past - 1, b + past)
    }
}

/// Removes the pieces at the end of a path that are no components.
fn drop_idle_tail(p: &[char], b: usize) -> (r: &[char])
    requires
        b <= p@.len(),
    ensures
        r@ == without_idle_tail(p@, b as int),
        b <= r@.len() <= p@.len(),
    decreases p@.len(),
{
    if p.len() <= b {
        return p;
    }
    let (cut, start) = drop_piece(p, b);
    assert(p@.subrange(start as int, p@.len() as int) =~= p@.skip(start as int));
    if counts(slice_subrange(p, start, p.len())) {
        return p;
    }
    assert(p@.subrange(0, cut as int) =~= p@.take(cut as int));
    drop_idle_tail(slice_subrange(p, 0, cut), b)
}

/// A path without its last component.
pub fn path_parent(p: &[char]) -> (r: Option<Vec<char>>)
    ensures
        parent(p@) == (match r {
            Some(q) => Some(q@),
            None => None,
        }),
{
    let b: usize = lead_len(p);
    let body = drop_idle_tail(p, b);
    if body.len() > b {
        let (cut, _) = drop_piece(body, b);
        assert(body@.subrange(0, cut as int) =~= body@.take(cut as int));
        Some(copy_text(drop_idle_tail(slice_subrange(body, 0, cut), b)))
    } else if b > 0 && p[0] == '.' {
        let none: Vec<char> = Vec::new();
        assert(none@ =~= Seq::<char>::empty());
        Some(none)
    } else {
        None
    }
}

proof fn lemma_names_concat(a: Seq<Seq<char>>, b: Seq<Seq<char>>)
    ensures
        names(a + b) == names(a) + names(b),
    decreases b.len(),
{
    if b.len() == 0 {
        assert(a + b =~= a);
        assert(names(a) + names(b) =~= names(a));
    } else {
        lemma_names_concat(a, b.drop_last());
        assert((a + b).drop_last() =~= a + b.drop_last());
        assert(names(a + b) =~= names(a) + names(b));
    }
}

proof fn lemma_names_one(piece: Seq<char>)
    ensures
        names(seq![piece]) == if is_name(piece) {
            seq![piece]
        } else {
            Seq::empty()
        },
{
    assert(seq![piece].drop_last() =~= Seq::<Seq<char>>::empty());
    assert(names(Seq::<Seq<char>>::empty()) =~= Seq::<Seq<char>>::empty());
    assert(names(seq![piece]) =~= if is_name(piece) {
        seq![piece]
    } else {
        Seq::empty()
    });
}

/// Cutting a path before its last piece takes the last component away if the piece is one,
/// and leaves the components as they are otherwise.
proof fn lemma_cut(p: Seq<char>)
    requires
        lead(p).len() < p.len(),
    ensures
        ({
            let b = lead(p).len() as int;
            let q = p.take(cut_before_last(p, b));
            let piece = p.skip(last_piece_start(p, b));
            &&& b <= cut_before_last(p, b) < p.len()
            &&& lead(q) == lead(p)
            &&& components(p) == if is_name(piece) {
                components(q).push(piece)
            } else {
                components(q)
            }
        }),
{
    let b = lead(p).len() as int;
    let i = last_index(p.skip(b), '/');
    let q = p.take(cut_before_last(p, b));
    let piece = p.skip(last_piece_start(p, b));
    lemma_last_index(p.skip(b), '/');
    assert(piece =~= p.skip(b).skip(i + 1));
    lemma_split_plain(piece, '/');
    lemma_names_one(piece);
    if i >= 0 {
        assert(p[b + i] == '/');
        assert(p =~= q + seq!['/'] + piece);
        lemma_split_concat(q, '/', piece);
        lemma_names_concat(split(q, '/'), seq![piece]);
        if b == 0 {
            assert(p[0] != '/');
            assert(i > 0);
            assert(q[0] == p[0]);
            assert(q != dot()) by {
                if q == dot() {
                    assert(q.len() == 1 && q[0] == '.');
                    assert(p.take(2) =~= seq!['.', '/']);
                }
            }
            assert(!has_prefix(q, seq!['.', '/'])) by {
                if has_prefix(q, seq!['.', '/']) {
                    assert(q.take(2) =~= p.take(2));
                }
            }
        } else {
            assert(q[0] == p[0]);
            if p[0] != '/' {
                assert(p[0] == '.') by {
                    if p != dot() {
                        assert(p.take(2)[0] == '.');
                    }
                }
                if q.len() == 1 {
                    assert(q =~= dot());
                } else {
                    assert(p.take(2)[1] == '/');
                    assert(q.take(2) =~= seq!['.', '/']);
                }
            }
        }
    } else if b == 0 {
        assert(piece =~= p);
        assert(q =~= Seq::<char>::empty());
        assert(names(split(q, '/')) =~= Seq::<Seq<char>>::empty()) by {
            lemma_names_one(Seq::<char>::empty());
        }
    } else {
        if p[0] != '/' {
            assert(p.take(2)[1] == '/');
            assert(p.skip(b)[0] == '/');
            assert(p.skip(b).skip(i + 1)[0] == '/');
            assert(false);
        }
        let none = Seq::<char>::empty();
        assert(p =~= none + seq!['/'] + piece);
        lemma_split_concat(none, '/', piece);
        lemma_names_concat(split(none, '/'), seq![piece]);
        assert(split(none, '/') =~= seq![none]);
        lemma_names_one(none);
        assert(q =~= none + seq!['/'] + none);
        lemma_split_concat(none, '/', none);
        lemma_names_concat(split(none, '/'), split(none, '/'));
    }
    assert(components(p) =~= if is_name(piece) {
        components(q).push(piece)
    } else {
        components(q)
    });
}

/// Idle pieces at the end are no components.
proof fn lemma_idle_tail(p: Seq<char>)
    ensures
        ({
            let b = lead(p).len() as int;
            let q = without_idle_tail(p, b);
            &&& b <= q.len() <= p.len()
            &&& q == p.take(q.len() as int)
            &&& lead(q) == lead(p)
            &&& components(q) == components(p)
            &&& q.len() > b ==> is_name(q.skip(last_piece_start(q, b)))
        }),
    decreases p.len(),
{
    let b = lead(p).len() as int;
    if p.len() <= b {
        assert(p.len() == b);
        assert(p.take(b) =~= p);
    } else if is_name(p.skip(last_piece_start(p, b))) {
        assert(p.take(p.len() as int) =~= p);
    } else {
        lemma_cut(p);
        let shorter = p.take(cut_before_last(p, b));
        lemma_idle_tail(shorter);
        let q = without_idle_tail(shorter, b);
        assert(shorter.take(q.len() as int) =~= p.take(q.len() as int));
    }
}

/// The parent of a path is an initial part of it with all its components but the last; only
/// the root and a path without components have none.
pub proof fn law_parent_drops_last_component(p: Seq<char>)
    ensures
        parent(p) is None <==> components(p).len() == 0 || components(p) == seq![seq!['/']],
        parent(p) matches Some(q) ==> components(q) == components(p).drop_last() && q.len() < p.len()
            && q == p.take(q.len() as int),
{
    let b = lead(p).len() as int;
    let body = without_idle_tail(p, b);
    lemma_idle_tail(p);
    if body.len() > b {
        lemma_cut(body);
        let cut = body.take(cut_before_last(body, b));
        let piece = body.skip(last_piece_start(body, b));
        lemma_idle_tail(cut);
        let q = without_idle_tail(cut, b);
        assert(cut.take(q.len() as int) =~= body.take(q.len() as int));
        assert(body.take(q.len() as int) =~= p.take(q.len() as int));
        assert(components(p).drop_last() =~= components(q));
        assert(components(p).last() == piece);
        assert(components(p) != seq![seq!['/']]) by {
            lemma_last_index(body.skip(b), '/');
            assert(piece =~= body.skip(b).skip(last_index(body.skip(b), '/') + 1));
            if piece == seq!['/'] {
                assert(piece[0] == '/');
                assert(piece.contains('/'));
            }
        }
    } else {
        lemma_bare(body);
        if b > 0 {
            assert(lead(p)[0].len() == 1);
            assert(components(p).len() == 1);
            assert(components(p) =~= lead(p));
            assert(components(p).drop_last() =~= Seq::<Seq<char>>::empty());
            let none = Seq::<char>::empty();
            assert(components(none) =~= Seq::<Seq<char>>::empty()) by {
                assert(split(none, '/') =~= seq![none]);
                lemma_names_one(none);
            }
            assert(none =~= p.take(0));
            if p[0] == '.' {
                assert(dot()[0] == '.');
                assert(seq!['/'][0] == '/');
                assert(components(p)[0] != seq!['/']);
            } else {
                assert(p[0] == '/') by {
                    if p[0] != '/' && p != dot() {
                        assert(p.take(2)[0] == '.');
                    }
                }
                assert(components(p) =~= seq![seq!['/']]);
            }
        } else {
            assert(components(p).len() == 0);
        }
    }
}

/// A path of nothing but its leading component has no names.
proof fn lemma_bare(p: Seq<char>)
    requires
        p.len() == lead(p).len(),
    ensures
        components(p) == lead(p),
{
    let none = Seq::<char>::empty();
    assert(split(none, '/') =~= seq![none]);
    lemma_names_one(none);
    if p.len() == 0 {
        assert(p =~= none);
    } else if p[0] == '/' {
        assert(p =~= none + seq!['/'] + none);
        lemma_split_concat(none, '/', none);
        lemma_names_concat(split(none, '/'), split(none, '/'));
    } else {
        assert(p == dot());
        lemma_split_plain(p, '/');
        lemma_names_one(p);
    }
    assert(components(p) =~= lead(p));
}

/// Joining a path without a leading `/` or `.` component appends its components.
pub proof fn law_join_appends_components(base: Seq<char>, rel: Seq<char>)
    requires
        lead(rel).len() == 0,
    ensures
        components(joined(base, rel)) == components(base) + components(rel),
{
    let whole = joined(base, rel);
    if base.len() == 0 {
        assert(whole =~= rel);
        assert(base =~= Seq::<char>::empty());
        assert(split(base, '/') =~= seq![base]);
        lemma_names_one(base);
        assert(components(whole) =~= components(base) + components(rel));
    } else {
        let stem = if base.last() == '/' {
            base.drop_last()
        } else {
            base
        };
        assert(whole =~= stem + seq!['/'] + rel);
        lemma_split_concat(stem, '/', rel);
        lemma_names_concat(split(stem, '/'), split(rel, '/'));
        if base.last() == '/' {
            let none = Seq::<char>::empty();
            assert(base =~= stem + seq!['/'] + none);
            lemma_split_concat(stem, '/', none);
            lemma_names_concat(split(stem, '/'), split(none, '/'));
            assert(split(none, '/') =~= seq![none]);
            lemma_names_one(none);
        }
        assert(whole[0] == base[0]);
        assert(lead(whole) == lead(base)) by {
            if base == dot() {
                assert(whole.take(2) =~= seq!['.', '/']);
            } else {
                assert(whole != dot()) by {
                    if whole == dot() {
                        assert(whole.len() == 1);
                        assert(base =~= whole);
                    }
                }
                if base.len() >= 2 {
                    assert(whole.take(2) =~= base.take(2));
                } else if whole.len() >= 2 && base[0] != '/' {
                    assert(base[0] != '.') by {
                        if base[0] == '.' {
                            assert(base =~= dot());
                        }
                    }
                    assert(whole.take(2)[0] == base[0]);
                }
            }
        }
        assert(components(whole) =~= components(base) + components(rel));
    }
}

proof fn lemma_names_all(pieces: Seq<Seq<char>>)
    requires
        forall|i: int| 0 <= i < pieces.len() ==> is_name(#[trigger] pieces[i]),
    ensures
        names(pieces) == pieces,
    decreases pieces.len(),
{
    if pieces.len() > 0 {
        let front = pieces.drop_last();
        assert forall|i: int| 0 <= i < front.len() implies is_name(#[trigger] front[i]) by {
            assert(is_name(pieces[i]));
        }
        lemma_names_all(front);
        assert(is_name(pieces[pieces.len() - 1]));
        assert(front.push(pieces.last()) =~= pieces);
    } else {
        assert(pieces =~= Seq::<Seq<char>>::empty());
    }
}

/// The components of a path are the names that are joined in it, behind the root if it begins
/// with a slash.
pub proof fn law_components_of_names(comps: Seq<Seq<char>>)
    requires
        comps.len() > 0,
        forall|i: int|
            0 <= i < comps.len() ==> (#[trigger] comps[i]).len() > 0 && comps[i] != seq!['.']
                && !comps[i].contains('/'),
    ensures
        components(join(comps, seq!['/'])) == comps,
        components(seq!['/'] + join(comps, seq!['/'])) == seq![seq!['/']] + comps,
{
    let body = join(comps, seq!['/']);
    let none = Seq::<char>::empty();
    assert(dot() =~= seq!['.']);
    assert forall|i: int| 0 <= i < comps.len() implies is_name(#[trigger] comps[i]) by {
        assert(comps[i].len() > 0);
    }
    lemma_names_all(comps);
    lemma_split_join(comps, '/');
    assert(comps[0].len() > 0);
    lemma_join_front(comps);
    assert(comps[0].contains(comps[0][0]));
    assert(body[0] == comps[0][0]);
    assert(lead(body).len() == 0) by {
        if body == dot() || has_prefix(body, seq!['.', '/']) {
            assert(body[0] == '.');
            if comps[0].len() == 1 {
                assert(comps[0] =~= seq!['.']);
            } else {
                assert(body[1] == comps[0][1]);
                assert(comps[0].contains(comps[0][1]));
                if body != dot() {
                    assert(body.take(2)[1] == '/');
                }
            }
        }
    }
    assert(components(body) =~= comps);
    let rooted = seq!['/'] + body;
    assert(rooted =~= none + seq!['/'] + body);
    lemma_split_concat(none, '/', body);
    lemma_split_plain(none, '/');
    lemma_names_concat(seq![none], comps);
    lemma_names_one(none);
    assert(names(split(rooted, '/')) =~= comps);
}

/// A joined text begins with its first piece.
proof fn lemma_join_front(comps: Seq<Seq<char>>)
    requires
        comps.len() > 0,
    ensures
        join(comps, seq!['/']).len() >= comps[0].len(),
        forall|i: int|
            0 <= i < comps[0].len() ==> join(comps, seq!['/'])[i] == #[trigger] comps[0][i],
    decreases comps.len(),
{
    if comps.len() > 1 {
        lemma_join_front(comps.drop_last());
        assert(comps.drop_last()[0] == comps[0]);
    }
}

/// A slash, or a slash and a dot, behind a path adds nothing to its components.
pub proof fn law_idle_ends(p: Seq<char>)
    requires
        p.len() > 0,
    ensures
        components(p + seq!['/']) == components(p),
        components(p + seq!['/', '.']) == components(p),
{
    let none = Seq::<char>::empty();
    let here = seq!['.'];
    let a = p + seq!['/'];
    let b = p + seq!['/', '.'];
    assert(dot() =~= here);
    assert(a =~= p + seq!['/'] + none);
    assert(b =~= p + seq!['/'] + here);
    assert(!here.contains('/')) by {
        assert(here[0] == '.');
    }
    lemma_split_concat(p, '/', none);
    lemma_split_concat(p, '/', here);
    lemma_split_plain(none, '/');
    lemma_split_plain(here, '/');
    lemma_names_concat(split(p, '/'), seq![none]);
    lemma_names_concat(split(p, '/'), seq![here]);
    lemma_names_one(none);
    lemma_names_one(here);
    assert(names(split(a, '/')) =~= names(split(p, '/')));
    assert(names(split(b, '/')) =~= names(split(p, '/')));
    let mark = seq!['.', '/'];
    assert(mark[0] == '.' && mark[1] == '/');
    if p.len() == 1 {
        assert(a.take(2) =~= seq![p[0], '/']);
        assert(b.take(2) =~= seq![p[0], '/']);
        if p[0] == '.' {
            assert(p =~= dot());
            assert(a.take(2) =~= mark);
            assert(b.take(2) =~= mark);
        } else {
            assert(a.take(2)[0] == p[0]);
            assert(b.take(2)[0] == p[0]);
            assert(p[0] == p[0] && dot()[0] == '.');
        }
    } else {
        assert(a.take(2) =~= p.take(2));
        assert(b.take(2) =~= p.take(2));
    }
    assert(a[0] == p[0] && b[0] == p[0]);
    assert(lead(a) == lead(p));
    assert(lead(b) == lead(p));
}

/// A name behind a path and a slash is one more component.
pub proof fn law_components_push(dir: Seq<char>, name: Seq<char>)
    requires
        dir.len() > 0,
        name.len() > 0,
        !name.contains('/'),
        name != seq!['.'],
    ensures
        components(dir + seq!['/'] + name) == components(dir).push(name),
{
    let p = dir + seq!['/'] + name;
    assert(dot() =~= seq!['.']);
    lemma_split_concat(dir, '/', name);
    lemma_split_plain(name, '/');
    lemma_names_concat(split(dir, '/'), seq![name]);
    lemma_names_one(name);
    let mark = seq!['.', '/'];
    assert(mark[0] == '.' && mark[1] == '/');
    if dir.len() == 1 {
        assert(p.take(2) =~= seq![dir[0], '/']);
        if dir[0] == '.' {
            assert(dir =~= dot());
            assert(p.take(2) =~= mark);
        } else {
            assert(p.take(2)[0] == dir[0]);
            assert(dot()[0] == '.');
        }
    } else {
        assert(p.take(2) =~= dir.take(2));
    }
    assert(p[0] == dir[0]);
    assert(lead(p) == lead(dir));
    assert(components(p) =~= components(dir).push(name));
}

/// The file name is the name behind the last slash; `..` is none.
pub proof fn law_file_name(dir: Seq<char>, name: Seq<char>)
    requires
        name.len() > 0,
        !name.contains('/'),
        name != seq!['.'],
    ensures
        file_name(dir + seq!['/'] + name) == if name == seq!['.', '.'] {
            None
        } else {
            Some(name)
        },
{
    let p = dir + seq!['/'] + name;
    assert(dot() =~= seq!['.']);
    assert(dotdot() =~= seq!['.', '.']);
    lemma_split_concat(dir, '/', name);
    lemma_split_plain(name, '/');
    lemma_names_concat(split(dir, '/'), seq![name]);
    lemma_names_one(name);
    assert(components(p).last() == name);
    assert(name != seq!['/']) by {
        if name == seq!['/'] {
            assert(name[0] == '/');
            assert(name.contains(name[0]));
        }
    }
}

/// Joining puts one slash between two paths where the first has none at its end; an absolute
/// path, and one behind an empty one, stays as it is.
pub proof fn law_join_texts(base: Seq<char>, rel: Seq<char>)
    ensures
        rel.len() > 0 && rel[0] == '/' ==> joined(base, rel) == rel,
        joined(Seq::empty(), rel) == rel,
        !(rel.len() > 0 && rel[0] == '/') && base.len() > 0 && base.last() == '/' ==> joined(
            base,
            rel,
        ) == base + rel,
        !(rel.len() > 0 && rel[0] == '/') && base.len() > 0 && base.last() != '/' ==> joined(
            base,
            rel,
        ) == base.push('/') + rel,
{
    assert(Seq::<char>::empty() + rel =~= rel);
    assert(base + seq!['/'] + rel =~= base.push('/') + rel);
}

/// The parent of a path from the root is the text before the slash in front of its last name.
pub proof fn law_parent_text(front: Seq<char>, last: Seq<char>, name: Seq<char>)
    requires
        front.len() == 0 || front.last() == '/',
        last.len() > 0,
        last != seq!['.'],
        !last.contains('/'),
        name.len() > 0,
        name != seq!['.'],
        !name.contains('/'),
    ensures
        ({
            let dir = seq!['/'] + front + last;
            parent(dir + seq!['/'] + name) == Some(dir)
        }),
{
    assert(dot() =~= seq!['.']);
    let dir = seq!['/'] + front + last;
    let p = dir + seq!['/'] + name;
    assert(p[0] == '/' && dir[0] == '/');
    let body = front + last;
    assert(p.skip(1) =~= body + seq!['/'] + name);
    law_indices(body, '/', name);
    assert(p.skip(last_piece_start(p, 1)) =~= name);
    assert(without_idle_tail(p, 1) == p);
    assert(cut_before_last(p, 1) == dir.len());
    assert(p.take(dir.len() as int) =~= dir);
    assert(dir.skip(1) =~= body);
    if front.len() > 0 {
        let before = front.drop_last();
        assert(body =~= before + seq!['/'] + last);
        law_indices(before, '/', last);
        assert(last_index(body, '/') == front.len() - 1);
    } else {
        assert(body =~= last);
        law_indices(last, '/', last);
    }
    assert(dir.skip(last_piece_start(dir, 1)) =~= last);
    assert(without_idle_tail(dir, 1) == dir);
}

} // verus!
