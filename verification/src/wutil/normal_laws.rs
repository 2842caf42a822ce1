//! What each kind of component does to a path, and what `dirname` and `basename` make of one.

use super::path::{
    basename, dirname, dot, dotdot, leading_slashes, normalized, only_slashes, resolve, slashes,
    without_trailing_slashes,
};
use super::path_laws::{
    lemma_join_first, lemma_last_index, lemma_leading_slashes, lemma_resolve_fixed,
    lemma_resolve_same_front, lemma_resolve_slashes, tidy,
};
use crate::text::{
    join, last_index, lemma_split_concat, lemma_split_join, lemma_split_plain, split,
};
use vstd::prelude::*;

verus! {

/// A `..` removes exactly the component before it.
pub proof fn law_dotdot_removes_one(
    a: Seq<Seq<char>>,
    c: Seq<char>,
    b: Seq<Seq<char>>,
    absolute: bool,
)
    requires
        c.len() > 0,
        c != seq!['.'],
        c != seq!['.', '.'],
    ensures
        resolve(a + seq![c, seq!['.', '.']] + b, absolute) == resolve(a + b, absolute),
{
    let up = seq!['.', '.'];
    let both = a + seq![c, up];
    assert(both.drop_last() =~= a.push(c));
    assert(a.push(c).drop_last() =~= a);
    assert(up.len() == 2);
    assert(resolve(a.push(c), absolute) == resolve(a, absolute).push(c));
    assert(resolve(a, absolute).push(c).drop_last() =~= resolve(a, absolute));
    assert(resolve(both, absolute) == resolve(a, absolute));
    lemma_resolve_same_front(both, a, b, absolute);
}

/// Empty components and `.` count for nothing.
pub proof fn law_idle_components(
    a: Seq<Seq<char>>,
    c: Seq<char>,
    b: Seq<Seq<char>>,
    absolute: bool,
)
    requires
        c.len() == 0 || c == seq!['.'],
    ensures
        resolve(a + seq![c] + b, absolute) == resolve(a + b, absolute),
{
    assert((a + seq![c]).drop_last() =~= a);
    lemma_resolve_same_front(a + seq![c], a, b, absolute);
}

/// Nothing is above the root.
pub proof fn law_root_has_no_parent(b: Seq<Seq<char>>)
    ensures
        resolve(seq![seq!['.', '.']] + b, true) == resolve(b, true),
{
    let up = seq![seq!['.', '.']];
    let none = Seq::<Seq<char>>::empty();
    assert(up.drop_last() =~= none);
    assert(up.last().len() == 2);
    assert(up.last() != dot()) by {
        assert(dot().len() == 1);
    }
    assert(resolve(none, true) =~= none);
    assert(resolve(up, true) == resolve(none, true));
    lemma_resolve_same_front(up, none, b, true);
    assert(none + b =~= b);
}

/// The slashes before a component are those of what stands before it.
proof fn lemma_leading_before(x: Seq<char>, z: Seq<char>)
    requires
        z.len() == 0 || z[0] != '/',
    ensures
        leading_slashes(x + seq!['/'] + z) == leading_slashes(x + seq!['/']),
    decreases x.len(),
{
    let long = x + seq!['/'] + z;
    let short = x + seq!['/'];
    if x.len() == 0 {
        assert(long.drop_first() =~= z);
        assert(short.drop_first() =~= Seq::<char>::empty());
        assert(long[0] == '/' && short[0] == '/');
        assert(leading_slashes(z) == 0);
        assert(leading_slashes(Seq::<char>::empty()) == 0);
    } else {
        lemma_leading_before(x.drop_first(), z);
        assert(long.drop_first() =~= x.drop_first() + seq!['/'] + z);
        assert(short.drop_first() =~= x.drop_first() + seq!['/']);
        assert(long[0] == x[0] && short[0] == x[0]);
    }
}

/// A name and the `..` behind it can be left out of a path.
pub proof fn law_normalize_goes_up(x: Seq<char>, c: Seq<char>, y: Seq<char>, allow: bool)
    requires
        c.len() > 0,
        !c.contains('/'),
        c != seq!['.'],
        c != seq!['.', '.'],
        y.len() == 0 || y[0] != '/',
    ensures
        normalized(x + seq!['/'] + c + seq!['/', '.', '.', '/'] + y, allow) == normalized(
            x + seq!['/'] + y,
            allow,
        ),
{
    let up = seq!['.', '.'];
    let whole = x + seq!['/'] + c + seq!['/', '.', '.', '/'] + y;
    let short = x + seq!['/'] + y;
    let tail = up + seq!['/'] + y;
    let rest = c + seq!['/'] + tail;
    assert(whole =~= x + seq!['/'] + rest);
    assert(!up.contains('/')) by {
        assert(up[0] == '.' && up[1] == '.');
    }
    lemma_split_concat(x, '/', rest);
    lemma_split_concat(c, '/', tail);
    lemma_split_concat(up, '/', y);
    lemma_split_plain(c, '/');
    lemma_split_plain(up, '/');
    lemma_split_concat(x, '/', y);
    assert(c.contains(c[0]));
    lemma_leading_before(x, rest);
    lemma_leading_before(x, y);
    let absolute = leading_slashes(short) > 0;
    assert(split(whole, '/') =~= split(x, '/') + seq![c, up] + split(y, '/'));
    law_dotdot_removes_one(split(x, '/'), c, split(y, '/'), absolute);
}

/// A `.` between two slashes can be left out of a path.
pub proof fn law_normalize_skips_dot(x: Seq<char>, y: Seq<char>, allow: bool)
    requires
        y.len() == 0 || y[0] != '/',
    ensures
        normalized(x + seq!['/', '.', '/'] + y, allow) == normalized(x + seq!['/'] + y, allow),
{
    let here = seq!['.'];
    let whole = x + seq!['/', '.', '/'] + y;
    let short = x + seq!['/'] + y;
    let rest = here + seq!['/'] + y;
    assert(whole =~= x + seq!['/'] + rest);
    assert(!here.contains('/')) by {
        assert(here[0] == '.');
    }
    lemma_split_concat(x, '/', rest);
    lemma_split_concat(here, '/', y);
    lemma_split_plain(here, '/');
    lemma_split_concat(x, '/', y);
    lemma_leading_before(x, rest);
    lemma_leading_before(x, y);
    assert(split(whole, '/') =~= split(x, '/') + seq![here] + split(y, '/'));
    law_idle_components(split(x, '/'), here, split(y, '/'), leading_slashes(short) > 0);
}

/// A slash behind a slash can be left out of a path, except at its beginning.
pub proof fn law_normalize_collapses_slashes(x: Seq<char>, y: Seq<char>, allow: bool)
    requires
        x.len() > 0,
        x.last() != '/',
    ensures
        normalized(x + seq!['/', '/'] + y, allow) == normalized(x + seq!['/'] + y, allow),
{
    let none = Seq::<char>::empty();
    let whole = x + seq!['/', '/'] + y;
    let short = x + seq!['/'] + y;
    let rest = none + seq!['/'] + y;
    assert(whole =~= x + seq!['/'] + rest);
    lemma_split_concat(x, '/', rest);
    lemma_split_concat(none, '/', y);
    lemma_split_plain(none, '/');
    lemma_split_concat(x, '/', y);
    lemma_leading_within(x, seq!['/', '/'] + y);
    lemma_leading_within(x, seq!['/'] + y);
    assert(whole =~= x + (seq!['/', '/'] + y));
    assert(short =~= x + (seq!['/'] + y));
    assert(split(whole, '/') =~= split(x, '/') + seq![none] + split(y, '/'));
    law_idle_components(split(x, '/'), none, split(y, '/'), leading_slashes(short) > 0);
}

/// What follows a character other than a slash has no say in how a path begins.
proof fn lemma_leading_within(x: Seq<char>, z: Seq<char>)
    requires
        x.len() > 0,
        x.last() != '/',
    ensures
        leading_slashes(x + z) == leading_slashes(x),
    decreases x.len(),
{
    assert((x + z)[0] == x[0]);
    if x[0] == '/' {
        assert(x.drop_first().len() > 0);
        assert(x.drop_first().last() == x.last());
        lemma_leading_within(x.drop_first(), z);
        assert((x + z).drop_first() =~= x.drop_first() + z);
    }
}

/// A path without anything to leave out is its own normal form, but for the number of slashes in
/// front: three or more count as one, and two do unless they are allowed.
pub proof fn law_normal_paths_stay(comps: Seq<Seq<char>>, n: nat, allow: bool)
    requires
        comps.len() > 0,
        forall|i: int|
            0 <= i < comps.len() ==> (#[trigger] comps[i]).len() > 0 && comps[i] != seq!['.']
                && !comps[i].contains('/'),
        forall|i: int| 0 <= i < comps.len() && n > 0 ==> #[trigger] comps[i] != seq!['.', '.'],
        forall|i: int, j: int|
            0 <= i < j < comps.len() && #[trigger] comps[j] == seq!['.', '.']
                ==> #[trigger] comps[i] == seq!['.', '.'],
    ensures
        normalized(Seq::new(n, |i: int| '/') + join(comps, seq!['/']), allow) == (if n == 0 {
            Seq::<char>::empty()
        } else if n == 2 && allow {
            seq!['/', '/']
        } else {
            seq!['/']
        }) + join(comps, seq!['/']),
{
    let body = join(comps, seq!['/']);
    let path = slashes(n) + body;
    assert(Seq::new(n, |i: int| '/') =~= slashes(n));
    assert(dot() =~= seq!['.']);
    assert(dotdot() =~= seq!['.', '.']);
    assert(tidy(comps, n > 0));
    assert(comps[0].len() > 0);
    lemma_join_first(comps);
    assert(comps[0].contains(comps[0][0]));
    lemma_leading_slashes(n, body);
    lemma_resolve_slashes(n, body, n > 0);
    lemma_split_join(comps, '/');
    lemma_resolve_fixed(comps, n > 0);
    let front = if n == 0 {
        Seq::<char>::empty()
    } else if n == 2 && allow {
        seq!['/', '/']
    } else {
        seq!['/']
    };
    assert(normalized(path, allow) =~= front + body);
}

/// A path of slashes alone, or of nothing, has the root or `.` as its normal form.
pub proof fn law_normalize_bare(n: nat, allow: bool)
    ensures
        normalized(Seq::new(n, |i: int| '/'), allow) == if n == 0 {
            seq!['.']
        } else if n == 2 && allow {
            seq!['/', '/']
        } else {
            seq!['/']
        },
{
    let none = Seq::<char>::empty();
    let empty = Seq::<Seq<char>>::empty();
    assert(Seq::new(n, |i: int| '/') =~= slashes(n) + none);
    lemma_leading_slashes(n, none);
    lemma_resolve_slashes(n, none, n > 0);
    lemma_split_plain(none, '/');
    assert(seq![none].drop_last() =~= empty);
    assert(resolve(empty, n > 0) =~= empty);
    assert(resolve(seq![none], n > 0) =~= empty);
    assert(join(empty, seq!['/']) =~= none);
    let p = Seq::new(n, |i: int| '/');
    assert(normalized(p, allow) =~= if n == 0 {
        seq!['.']
    } else if n == 2 && allow {
        seq!['/', '/']
    } else {
        seq!['/']
    });
}

/// A name with a directory before it, slashes between them and slashes behind it, is the last
/// component; the directory is the directory part, `/` if it is empty, and `.` if there is
/// nothing before the name.
pub proof fn law_dirname_and_basename(dir: Seq<char>, between: nat, base: Seq<char>, after: nat)
    requires
        base.len() > 0,
        !base.contains('/'),
        dir.len() == 0 || dir.last() != '/',
        between == 0 ==> dir.len() == 0,
    ensures
        ({
            let path = dir + Seq::new(between, |i: int| '/') + base + Seq::new(after, |i: int| '/');
            &&& basename(path) == base
            &&& dirname(path) == if between == 0 {
                seq!['.']
            } else if dir.len() == 0 {
                seq!['/']
            } else {
                dir
            }
        }),
{
    let mid = Seq::new(between, |i: int| '/');
    let path = dir + mid + base + Seq::new(after, |i: int| '/');
    let body = dir + mid + base;
    assert(path =~= body + slashes(after));
    assert(base.contains(base[base.len() - 1]));
    assert(body.last() == base.last());
    lemma_strip(body, after);
    assert(path[dir.len() as int + between] == base[0]);
    assert(base.contains(base[0]));
    assert(!only_slashes(path));
    assert(path != slashes(2)) by {
        if path == slashes(2) {
            assert(only_slashes(path));
        }
    }
    lemma_last_index(body, '/');
    let cut = last_index(body, '/');
    let start = (dir.len() + between) as int;
    assert forall|i: int| start <= i < body.len() implies body[i] != '/' by {
        assert(body[i] == base[i - start]);
        assert(base.contains(base[i - start]));
    }
    if between == 0 {
        assert(cut < 0);
        assert(body.skip(cut + 1) =~= base);
    } else {
        assert(body[start - 1] == '/');
        assert(cut == start - 1);
        assert(body.skip(cut + 1) =~= base);
        let front = body.take(cut);
        assert(front =~= dir + slashes((between - 1) as nat));
        lemma_strip(dir, (between - 1) as nat);
        assert(slashes(1) =~= seq!['/']);
    }
}

/// Slashes behind a path that does not end in one are what is stripped.
proof fn lemma_strip(s: Seq<char>, n: nat)
    requires
        s.len() == 0 || s.last() != '/',
    ensures
        without_trailing_slashes(s + slashes(n)) == s,
    decreases n,
{
    if n == 0 {
        assert(s + slashes(0) =~= s);
    } else {
        lemma_strip(s, (n - 1) as nat);
        assert((s + slashes(n)).drop_last() =~= s + slashes((n - 1) as nat));
    }
}

/// Of slashes alone two stay two, any other number is the root, and their last component is `/`;
/// nothing at all is `.`.
pub proof fn law_dirname_and_basename_bare(n: nat)
    ensures
        ({
            let path = Seq::new(n, |i: int| '/');
            &&& dirname(path) == if n == 0 {
                seq!['.']
            } else if n == 2 {
                seq!['/', '/']
            } else {
                seq!['/']
            }
            &&& basename(path) == if n == 0 {
                seq!['.']
            } else {
                seq!['/']
            }
        }),
{
    let path = Seq::new(n, |i: int| '/');
    assert(path =~= slashes(n));
    assert(slashes(1) =~= seq!['/']);
    assert(slashes(2) =~= seq!['/', '/']);
    assert(slashes(2).len() == 2);
    assert(only_slashes(path));
    assert(dot() =~= seq!['.']);
    if n == 0 {
        assert(path =~= Seq::<char>::empty());
        assert(without_trailing_slashes(path) == path);
        assert(last_index(path, '/') == -1);
    }
}

} // verus!
