//! `realpath`, whose last path component does not need to be valid.
//!
//! Canonical forms come from the file system. Here stand the paths that it is asked for and
//! what is made of its answers.

use crate::text::{begins_with, chars_of, copy_text, has_prefix, is_text, push_text, same_text};
use vstd::prelude::*;
use vstd::slice::{slice_subrange, slice_to_vec};

verus! {

/// The byte for `/`.
pub const SLASH: u8 = 0x2f;

/// The byte for `.`.
pub const DOT: u8 = 0x2e;

/// A path without its trailing slashes; the first byte stays.
pub open spec fn trimmed_path(p: Seq<u8>) -> Seq<u8>
    decreases p.len(),
{
    if p.len() > 1 && p.last() == SLASH {
        trimmed_path(p.drop_last())
    } else {
        p
    }
}

/// Whether a path begins with `/../`.
pub open spec fn climbs(p: Seq<u8>) -> bool {
    p.len() >= 4 && p[0] == SLASH && p[1] == DOT && p[2] == DOT && p[3] == SLASH
}

/// A path without the `..` components that try to leave the root.
pub open spec fn collapsed(p: Seq<u8>) -> Seq<u8>
    decreases p.len(),
{
    if climbs(p) {
        collapsed(p.skip(3))
    } else if p == seq![SLASH, DOT, DOT] {
        seq![SLASH]
    } else {
        p
    }
}

/// The path whose canonical form is asked for. Where the root is virtual, it is its own
/// canonical form, and `..` at the root never escapes it.
pub open spec fn lookup_path(p: Seq<u8>, virtual_root: bool) -> Seq<u8> {
    if virtual_root {
        collapsed(trimmed_path(p))
    } else {
        trimmed_path(p)
    }
}

/// The index of the last slash, or -1 if there is none.
pub open spec fn last_slash(p: Seq<u8>) -> int
    decreases p.len(),
{
    if p.len() == 0 {
        -1
    } else if p.last() == SLASH {
        p.len() - 1
    } else {
        last_slash(p.drop_last())
    }
}

/// What to ask the file system for.
pub enum Lookup {
    /// Nothing: the path is empty.
    Empty,
    /// Nothing: the path is the virtual root.
    Root,
    /// The canonical form of this path.
    Canonical(Vec<u8>),
}

/// What to ask the file system for when a path has no canonical form.
pub enum Fallback {
    /// Nothing: the path is absolute with a single component and doesn't need conversion.
    Keep,
    /// The canonical form of the portion up to the last component.
    Parent(Vec<u8>),
}

/// Why a path cannot be resolved.
#[derive(Clone, Copy, Debug, PartialEq, Eq, Structural)]
pub enum RealpathError {
    /// The path is empty; `errno` is cleared.
    Empty,
    /// There is no such file or directory: `errno` is ENOENT.
    NoEntry,
}

/// The directory that holds the last component.
pub open spec fn holder(p: Seq<u8>) -> Seq<u8> {
    if last_slash(p) < 0 {
        seq![DOT]
    } else {
        p.take(last_slash(p))
    }
}

/// The resolved path. `whole` is the canonical form of the path, if it has one; otherwise
/// `parent` is that of the directory that holds its last component, if it has one.
pub open spec fn resolved(
    p: Seq<u8>,
    virtual_root: bool,
    whole: Option<Seq<u8>>,
    parent: Option<Seq<u8>>,
) -> Result<Seq<u8>, RealpathError> {
    let path = lookup_path(p, virtual_root);
    if p.len() == 0 {
        Err(RealpathError::Empty)
    } else if virtual_root && path == seq![SLASH] {
        Ok(path)
    } else if whole is Some {
        Ok(whole->0)
    } else if last_slash(path) == 0 {
        Ok(path)
    } else if parent is None {
        Err(RealpathError::NoEntry)
    } else if parent->0.len() > 1 {
        Ok(parent->0 + seq![SLASH] + path.skip(last_slash(path) + 1))
    } else {
        // This is to deal with cases such as /../../x => //x.
        Ok(parent->0 + path.skip(last_slash(path) + 1))
    }
}

proof fn lemma_last_slash(p: Seq<u8>)
    ensures
        -1 <= last_slash(p) < p.len(),
        last_slash(p) >= 0 ==> p[last_slash(p)] == SLASH,
        forall|i: int| last_slash(p) < i < p.len() ==> p[i] != SLASH,
    decreases p.len(),
{
    if p.len() > 0 && p.last() != SLASH {
        lemma_last_slash(p.drop_last());
        assert forall|i: int| last_slash(p) < i < p.len() implies p[i] != SLASH by {
            if i < p.len() - 1 {
                assert(p.drop_last()[i] == p[i]);
            }
        }
    }
}

/// The index just past the last slash, or 0 if there is none.
fn last_slash_end(p: &[u8]) -> (r: usize)
    ensures
        r == last_slash(p@) + 1,
        r <= p@.len(),
{
    let mut i: usize = p.len();
    assert(p@.take(i as int) =~= p@);
    while i > 0
        invariant
            i <= p@.len(),
            last_slash(p@) == last_slash(p@.take(i as int)),
        decreases i,
    {
        if p[i - 1] == SLASH {
            return i;
        }
        assert(p@.take(i as int).drop_last() =~= p@.take(i as int - 1));
        i -= 1;
    }
    0
}

/// Removes trailing slashes. This treats "/a//" as equivalent to "/a" if /a is a
/// non-directory.
fn strip_trailing(p: &[u8]) -> (r: &[u8])
    ensures
        r@ == trimmed_path(p@),
{
    let mut end: usize = p.len();
    assert(p@.take(end as int) =~= p@);
    while end > 1 && p[end - 1] == SLASH
        invariant
            end <= p@.len(),
            trimmed_path(p@) == trimmed_path(p@.take(end as int)),
        decreases end,
    {
        assert(p@.take(end as int).drop_last() =~= p@.take(end as int - 1));
        end -= 1;
    }
    assert(p@.take(end as int) =~= p@.subrange(0, end as int));
    slice_subrange(p, 0, end)
}

/// Removes the `..` components that try to leave the root.
fn collapse(p: &[u8]) -> (r: &[u8])
    ensures
        r@ == collapsed(p@),
{
    let mut from: usize = 0;
    assert(p@.skip(0) =~= p@);
    while p.len() - from >= 4 && p[from] == SLASH && p[from + 1] == DOT && p[from + 2] == DOT
        && p[from + 3] == SLASH
        invariant
            from <= p@.len(),
            collapsed(p@) == collapsed(p@.skip(from as int)),
        decreases p@.len() - from,
    {
        assert(p@.skip(from as int).skip(3) =~= p@.skip(from as int + 3));
        assert(climbs(p@.skip(from as int)));
        from += 3;
    }
    let ghost rest = p@.skip(from as int);
    assert(p@.subrange(from as int, p@.len() as int) =~= rest);
    assert(!climbs(rest));
    let r = slice_subrange(p, from, p.len());
    if r.len() == 3 && r[0] == SLASH && r[1] == DOT && r[2] == DOT {
        assert(rest =~= seq![SLASH, DOT, DOT]);
        assert(r@.subrange(0, 1) =~= seq![SLASH]);
        return slice_subrange(r, 0, 1);
    }
    assert(rest != seq![SLASH, DOT, DOT]) by {
        if rest == seq![SLASH, DOT, DOT] {
            assert(rest.len() == 3 && rest[0] == SLASH && rest[1] == DOT && rest[2] == DOT);
        }
    }
    r
}

/// The path whose canonical form is asked for.
fn prepare(p: &[u8], virtual_root: bool) -> (r: &[u8])
    ensures
        r@ == lookup_path(p@, virtual_root),
{
    let t = strip_trailing(p);
    if virtual_root {
        collapse(t)
    } else {
        t
    }
}

/// Whether a path is `/`.
fn is_root(p: &[u8]) -> (r: bool)
    ensures
        r == (p@ == seq![SLASH]),
{
    if p.len() == 1 && p[0] == SLASH {
        assert(p@ =~= seq![SLASH]);
        true
    } else {
        assert(p@ != seq![SLASH]) by {
            if p@ == seq![SLASH] {
                assert(p@.len() == 1 && p@[0] == SLASH);
            }
        }
        false
    }
}

/// What to ask the file system for first.
pub fn realpath_lookup(p: &[u8], virtual_root: bool) -> (r: Lookup)
    ensures
        match r {
            Lookup::Empty => p@.len() == 0,
            Lookup::Root => p@.len() > 0 && virtual_root && lookup_path(p@, virtual_root)
                == seq![SLASH],
            Lookup::Canonical(q) => p@.len() > 0 && !(virtual_root && lookup_path(p@, virtual_root)
                == seq![SLASH]) && q@ == lookup_path(p@, virtual_root),
        },
{
    if p.len() == 0 {
        return Lookup::Empty;
    }
    let path = prepare(p, virtual_root);
    if virtual_root && is_root(path) {
        return Lookup::Root;
    }
    Lookup::Canonical(slice_to_vec(path))
}

/// What to ask the file system for when the path itself has no canonical form.
pub fn realpath_fallback(p: &[u8], virtual_root: bool) -> (r: Fallback)
    ensures
        match r {
            Fallback::Keep => last_slash(lookup_path(p@, virtual_root)) == 0,
            Fallback::Parent(q) => last_slash(lookup_path(p@, virtual_root)) != 0 && q@ == holder(
                lookup_path(p@, virtual_root),
            ),
        },
{
    let path = prepare(p, virtual_root);
    let past: usize = last_slash_end(path);
    if past == 1 {
        return Fallback::Keep;
    }
    if past == 0 {
        let mut here: Vec<u8> = Vec::new();
        here.push(DOT);
        assert(here@ =~= seq![DOT]);
        return Fallback::Parent(here);
    }
    assert(path@.subrange(0, past as int - 1) =~= path@.take(past as int - 1));
    Fallback::Parent(slice_to_vec(slice_subrange(path, 0, past - 1)))
}

/// Wide character realpath. The last path component does not need to be valid. `whole` is the
/// canonical form that [`realpath_lookup`] asks for, `parent` the one that
/// [`realpath_fallback`] asks for.
pub fn wrealpath(
    p: &[u8],
    virtual_root: bool,
    whole: Option<Vec<u8>>,
    parent: Option<Vec<u8>>,
) -> (r: Result<Vec<u8>, RealpathError>)
    ensures
        resolved(
            p@,
            virtual_root,
            match whole {
                Some(w) => Some(w@),
                None => None,
            },
            match parent {
                Some(q) => Some(q@),
                None => None,
            },
        ) == (match r {
            Ok(q) => Ok(q@),
            Err(e) => Err(e),
        }),
{
    if p.len() == 0 {
        return Err(RealpathError::Empty);
    }
    let path = prepare(p, virtual_root);
    if virtual_root && is_root(path) {
        return Ok(slice_to_vec(path));
    }
    if let Some(w) = whole {
        return Ok(w);
    }
    let past: usize = last_slash_end(path);
    if past == 1 {
        return Ok(slice_to_vec(path));
    }
    let mut out = match parent {
        Some(q) => q,
        None => {
            return Err(RealpathError::NoEntry);
        },
    };
    let ghost dir = out@;
    if out.len() > 1 {
        out.push(SLASH);
    }
    let ghost start = out@;
    let mut i: usize = past;
    assert(path@.subrange(past as int, i as int) =~= Seq::<u8>::empty());
    assert(start + path@.subrange(past as int, i as int) =~= start);
    while i < path.len()
        invariant
            past <= i <= path@.len(),
            out@ == start + path@.subrange(past as int, i as int),
        decreases path@.len() - i,
    {
        out.push(path[i]);
        i += 1;
        assert(out@ =~= start + path@.subrange(past as int, i as int));
    }
    assert(path@.subrange(past as int, i as int) =~= path@.skip(past as int));
    assert(dir.len() > 1 ==> start =~= dir + seq![SLASH]);
    Ok(out)
}

/// What is left of a path below a directory.
pub open spec fn below(p: Seq<char>, dir: Seq<char>) -> Option<Seq<char>> {
    if has_prefix(p, dir + seq!['/']) {
        Some(p.skip(dir.len() as int + 1))
    } else {
        None
    }
}

/// The canonical form to show for a path below `/tmp`: if it lies in the directory that `/tmp`
/// stands for, it is shown below `/tmp` again.
pub open spec fn shown_canonical(input: Seq<char>, canonical: Seq<char>, tmp: Seq<char>) -> Seq<char> {
    if input == "/tmp"@ || has_prefix(input, "/tmp/"@) {
        if canonical == tmp {
            "/tmp"@
        } else {
            match below(canonical, tmp) {
                Some(rest) => "/tmp/"@ + rest,
                None => canonical,
            }
        }
    } else {
        canonical
    }
}

/// The canonical form of `input` in the POSIX path domain, given that `canonical` is the one
/// that the file system gives and `tmp` the directory that `/tmp` stands for, both in POSIX
/// form.
pub fn realpath_canonicalize(input: &[char], canonical: Vec<char>, tmp: &[char]) -> (r: Vec<char>)
    ensures
        r@ == shown_canonical(input@, canonical@, tmp@),
{
    let tmp_slash = chars_of("/tmp/");
    if !is_text(input, "/tmp") && !begins_with(input, tmp_slash.as_slice()) {
        return canonical;
    }
    if same_text(canonical.as_slice(), tmp) {
        return chars_of("/tmp");
    }
    let mut dir = copy_text(tmp);
    dir.push('/');
    assert(dir@ =~= tmp@ + seq!['/']);
    if begins_with(canonical.as_slice(), dir.as_slice()) {
        let n: usize = dir.len();
        let mut out = chars_of("/tmp/");
        assert(canonical@.subrange(n as int, canonical@.len() as int) =~= canonical@.skip(n as int));
        push_text(&mut out, slice_subrange(canonical.as_slice(), n, canonical.len()));
        return out;
    }
    canonical
}

/// A slash at the end of a path makes no difference.
pub proof fn law_trailing_slash_is_idle(
    p: Seq<u8>,
    virtual_root: bool,
    whole: Option<Seq<u8>>,
    parent: Option<Seq<u8>>,
)
    requires
        p.len() > 0,
    ensures
        resolved(p.push(SLASH), virtual_root, whole, parent) == resolved(
            p,
            virtual_root,
            whole,
            parent,
        ),
{
    assert(p.push(SLASH).drop_last() =~= p);
}

/// No path that is asked for climbs out of the virtual root.
pub proof fn law_virtual_root_is_not_escaped(p: Seq<u8>)
    ensures
        !climbs(lookup_path(p, true)),
        lookup_path(p, true) != seq![SLASH, DOT, DOT],
{
    lemma_collapsed(trimmed_path(p));
}

proof fn lemma_collapsed(p: Seq<u8>)
    ensures
        !climbs(collapsed(p)),
        collapsed(p) != seq![SLASH, DOT, DOT],
    decreases p.len(),
{
    if climbs(p) {
        lemma_collapsed(p.skip(3));
    } else if p == seq![SLASH, DOT, DOT] {
        assert(collapsed(p).len() == 1);
        assert(seq![SLASH, DOT, DOT].len() == 3);
    }
}

/// Nothing resolves to nothing.
pub proof fn law_empty_path_is_refused(
    virtual_root: bool,
    whole: Option<Seq<u8>>,
    parent: Option<Seq<u8>>,
)
    ensures
        resolved(Seq::empty(), virtual_root, whole, parent) == Err::<Seq<u8>, RealpathError>(
            RealpathError::Empty,
        ),
{
}

/// What is asked for is the path as it is written, if it does not end in a slash and does not try
/// to leave a virtual root.
pub proof fn law_plain_path_is_asked_for(p: Seq<u8>, virtual_root: bool)
    requires
        p.len() == 1 || (p.len() > 1 && p.last() != 0x2f),
        virtual_root ==> !(p.len() >= 3 && p[0] == 0x2f && p[1] == 0x2e && p[2] == 0x2e && (p.len()
            == 3 || p[3] == 0x2f)),
    ensures
        lookup_path(p, virtual_root) == p,
{
    if p == seq![SLASH, DOT, DOT] {
        assert(p.len() == 3 && p[0] == 0x2f && p[1] == 0x2e && p[2] == 0x2e);
    }
}

/// A slash at the end of a path is not asked for.
pub proof fn law_trailing_slash_is_not_asked_for(p: Seq<u8>, virtual_root: bool)
    requires
        p.len() > 0,
    ensures
        lookup_path(p.push(0x2f), virtual_root) == lookup_path(p, virtual_root),
{
    assert(p.push(0x2f).drop_last() =~= p);
}

/// A `/..` at the virtual root is not asked for: what follows it starts at the root.
pub proof fn law_virtual_root_is_its_own_parent(q: Seq<u8>)
    requires
        q.len() > 0,
        q[0] == 0x2f,
    ensures
        lookup_path(seq![0x2fu8, 0x2e, 0x2e] + q, true) == lookup_path(q, true),
        lookup_path(seq![0x2fu8, 0x2e, 0x2e], true) == seq![0x2fu8],
{
    let up = seq![0x2fu8, 0x2e, 0x2e];
    assert(up =~= seq![SLASH, DOT, DOT]);
    assert(up.last() == DOT);
    assert(seq![SLASH] =~= seq![0x2fu8]);
    lemma_trimmed_behind(up, q);
    let t = trimmed_path(q);
    lemma_trimmed_front(q);
    if q.len() == 1 || t.len() == 1 {
        assert(t =~= seq![SLASH]);
    }
    if trimmed_path(up + q) == up + t {
        assert((up + t).skip(3) =~= t);
        assert(climbs(up + t));
        assert(collapsed(up + t) == collapsed(t));
    }
}

proof fn lemma_trimmed_front(q: Seq<u8>)
    requires
        q.len() > 0,
    ensures
        trimmed_path(q).len() > 0,
        trimmed_path(q)[0] == q[0],
    decreases q.len(),
{
    if q.len() > 1 && q.last() == SLASH {
        lemma_trimmed_front(q.drop_last());
    }
}

/// Trimming a path trims what it ends with; slashes alone behind it vanish.
proof fn lemma_trimmed_behind(front: Seq<u8>, q: Seq<u8>)
    requires
        front.len() > 1,
        front.last() != SLASH,
        q.len() > 0,
    ensures
        trimmed_path(front + q) == if trimmed_path(q) == seq![SLASH] {
            front
        } else {
            front + trimmed_path(q)
        },
    decreases q.len(),
{
    let whole = front + q;
    assert(whole.last() == q.last());
    if q.last() == SLASH {
        assert(whole.drop_last() =~= front + q.drop_last());
        if q.len() == 1 {
            assert(whole.drop_last() =~= front);
            assert(trimmed_path(front) == front);
            assert(q =~= seq![SLASH]);
            assert(trimmed_path(q) == q);
        } else {
            lemma_trimmed_behind(front, q.drop_last());
        }
    } else {
        assert(trimmed_path(q) == q);
        assert(q != seq![SLASH]) by {
            if q == seq![SLASH] {
                assert(q.last() == SLASH);
            }
        }
    }
}

/// The virtual root is its own canonical form.
pub proof fn law_virtual_root_stays(
    p: Seq<u8>,
    whole: Option<Seq<u8>>,
    parent: Option<Seq<u8>>,
)
    requires
        p.len() > 0,
        lookup_path(p, true) == seq![0x2fu8],
    ensures
        resolved(p, true, whole, parent) == Ok::<Seq<u8>, RealpathError>(seq![0x2fu8]),
{
    assert(seq![SLASH] =~= seq![0x2fu8]);
}

/// A path that exists resolves to its canonical form, whatever it looks like, unless it is the
/// virtual root.
pub proof fn law_existing_path(
    p: Seq<u8>,
    virtual_root: bool,
    canonical: Seq<u8>,
    parent: Option<Seq<u8>>,
)
    requires
        p.len() > 0,
        virtual_root ==> lookup_path(p, virtual_root) != seq![0x2fu8],
    ensures
        resolved(p, virtual_root, Some(canonical), parent) == Ok::<Seq<u8>, RealpathError>(
            canonical,
        ),
{
    assert(seq![SLASH] =~= seq![0x2fu8]);
}

/// Where only the last component does not exist, the resolved path is the canonical directory
/// followed by that component; without the directory there is no such path. The directory is
/// what stands before the last slash, and the current one if there is no slash.
pub proof fn law_missing_last_component(
    p: Seq<u8>,
    virtual_root: bool,
    dir: Option<Seq<u8>>,
    last: Seq<u8>,
    found: Option<Seq<u8>>,
)
    requires
        p.len() > 0,
        forall|i: int| 0 <= i < last.len() ==> last[i] != 0x2f,
        match dir {
            Some(d) => d.len() > 0 && lookup_path(p, virtual_root) == d + seq![0x2fu8] + last,
            None => lookup_path(p, virtual_root) == last,
        },
    ensures
        holder(lookup_path(p, virtual_root)) == (match dir {
            Some(d) => d,
            None => seq![0x2eu8],
        }),
        resolved(p, virtual_root, None, found) == (match found {
            Some(f) => Ok::<Seq<u8>, RealpathError>(
                if f.len() > 1 {
                    f + seq![0x2fu8] + last
                } else {
                    f + last
                },
            ),
            None => Err(RealpathError::NoEntry),
        }),
{
    let path = lookup_path(p, virtual_root);
    lemma_last_slash(path);
    let cut = last_slash(path);
    assert(seq![SLASH] =~= seq![0x2fu8]);
    assert(seq![DOT] =~= seq![0x2eu8]);
    match dir {
        Some(d) => {
            let n = d.len() as int;
            assert(path[n] == 0x2f);
            assert forall|i: int| n < i < path.len() implies path[i] != SLASH by {
                assert(path[i] == last[i - n - 1]);
            }
            assert(cut == n);
            assert(path.take(n) =~= d);
            assert(path.skip(n + 1) =~= last);
            assert(path != seq![SLASH]) by {
                assert(path.len() > 1);
            }
        },
        None => {
            assert(cut == -1) by {
                if cut >= 0 {
                    assert(last[cut] != 0x2f);
                }
            }
            assert(path.skip(0) =~= last);
            assert(path != seq![SLASH]) by {
                if path == seq![SLASH] {
                    assert(last[0] == 0x2f);
                }
            }
        },
    }
}

/// A single component below the root needs no directory: it stays as it is.
pub proof fn law_missing_below_root(
    p: Seq<u8>,
    virtual_root: bool,
    last: Seq<u8>,
    found: Option<Seq<u8>>,
)
    requires
        p.len() > 0,
        forall|i: int| 0 <= i < last.len() ==> last[i] != 0x2f,
        lookup_path(p, virtual_root) == seq![0x2fu8] + last,
    ensures
        resolved(p, virtual_root, None, found) == Ok::<Seq<u8>, RealpathError>(
            seq![0x2fu8] + last,
        ),
{
    let path = lookup_path(p, virtual_root);
    lemma_last_slash(path);
    assert forall|i: int| 0 < i < path.len() implies path[i] != SLASH by {
        assert(path[i] == last[i - 1]);
    }
    assert(path[0] == SLASH);
}

/// Paths that do not begin with `/tmp` are shown as they are; a path below the directory that
/// `/tmp` stands for is shown below `/tmp`, and any other as it is.
pub proof fn law_shown_below_tmp(input: Seq<char>, rest: Seq<char>, other: Seq<char>, tmp: Seq<char>)
    requires
        input == seq!['/', 't', 'm', 'p'] || (input.len() >= 5 && input.take(5) == seq![
            '/',
            't',
            'm',
            'p',
            '/',
        ]),
        other != tmp,
        other.len() > tmp.len() ==> !(other.take(tmp.len() as int) == tmp && other[tmp.len() as int]
            == '/'),
    ensures
        shown_canonical(input, tmp, tmp) == seq!['/', 't', 'm', 'p'],
        shown_canonical(input, tmp + seq!['/'] + rest, tmp) == seq!['/', 't', 'm', 'p', '/'] + rest,
        shown_canonical(input, other, tmp) == other,
{
    reveal_strlit("/tmp");
    reveal_strlit("/tmp/");
    assert("/tmp"@ =~= seq!['/', 't', 'm', 'p']);
    assert("/tmp/"@ =~= seq!['/', 't', 'm', 'p', '/']);
    let longer = tmp + seq!['/'] + rest;
    let dir = tmp + seq!['/'];
    assert(longer.take(dir.len() as int) =~= dir);
    assert(longer.skip(tmp.len() as int + 1) =~= rest);
    assert(longer.len() > tmp.len());
    if has_prefix(other, dir) {
        assert(other.take(dir.len() as int)[tmp.len() as int] == '/');
        assert(other.take(tmp.len() as int) =~= other.take(dir.len() as int).take(tmp.len() as int));
        assert(dir.take(tmp.len() as int) =~= tmp);
    }
}

/// A path that was not asked for below `/tmp` is shown as the file system gives it.
pub proof fn law_shown_elsewhere(input: Seq<char>, canonical: Seq<char>, tmp: Seq<char>)
    requires
        input != seq!['/', 't', 'm', 'p'],
        input.len() >= 5 ==> input.take(5) != seq!['/', 't', 'm', 'p', '/'],
    ensures
        shown_canonical(input, canonical, tmp) == canonical,
{
    reveal_strlit("/tmp");
    reveal_strlit("/tmp/");
    assert("/tmp"@ =~= seq!['/', 't', 'm', 'p']);
    assert("/tmp/"@ =~= seq!['/', 't', 'm', 'p', '/']);
}

} // verus!
