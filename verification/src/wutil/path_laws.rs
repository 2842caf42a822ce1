//! What holds of path normalization, `cd` targets, `dirname` and `basename`.

use super::path::{
    basename, cd_target, climb, dirname, dot, dotdot, leading_slashes, normalized,
    normalized_slashes, only_slashes, resolve, rooted, slashes, solid, without_trailing_slashes,
};
use crate::text::{
    join, last_index, lemma_split_concat, lemma_split_join, lemma_split_pieces, lemma_split_plain,
    split,
};
use vstd::prelude::*;

verus! {

/// Components as they stand in a normal form: none is empty or `.`, an absolute path has
/// no `..`, and in a relative path only `..` stands before a `..`.
pub open spec fn tidy(comps: Seq<Seq<char>>, absolute: bool) -> bool {
    &&& forall|i: int|
        0 <= i < comps.len() ==> (#[trigger] comps[i]).len() > 0 && comps[i] != dot()
            && !comps[i].contains('/')
    &&& forall|i: int| 0 <= i < comps.len() && absolute ==> #[trigger] comps[i] != dotdot()
    &&& forall|i: int, j: int|
        0 <= i < j < comps.len() && #[trigger] comps[j] == dotdot() ==> #[trigger] comps[i]
            == dotdot()
}

proof fn lemma_resolve_tidy(comps: Seq<Seq<char>>, absolute: bool)
    requires
        forall|i: int| 0 <= i < comps.len() ==> !(#[trigger] comps[i]).contains('/'),
    ensures
        tidy(resolve(comps, absolute), absolute),
    decreases comps.len(),
{
    if comps.len() > 0 {
        lemma_resolve_tidy(comps.drop_last(), absolute);
        let before = resolve(comps.drop_last(), absolute);
        let after = resolve(comps, absolute);
        assert(!comps.last().contains('/'));
        if comps.last() == dotdot() && !absolute && !(before.len() > 0 && before.last()
            != dotdot()) {
            assert forall|i: int| 0 <= i < before.len() implies #[trigger] before[i]
                == dotdot() by {
                if i < before.len() - 1 {
                    assert(before[before.len() - 1] == dotdot());
                }
            }
        }
    }
}

pub proof fn lemma_resolve_fixed(comps: Seq<Seq<char>>, absolute: bool)
    requires
        tidy(comps, absolute),
    ensures
        resolve(comps, absolute) == comps,
    decreases comps.len(),
{
    if comps.len() > 0 {
        let front = comps.drop_last();
        assert(tidy(front, absolute));
        lemma_resolve_fixed(front, absolute);
        assert(comps[comps.len() - 1] != dot());
        if comps.last() == dotdot() && front.len() > 0 {
            assert(comps[front.len() - 1] == dotdot());
        }
        assert(front.push(comps.last()) =~= comps);
    } else {
        assert(comps =~= Seq::<Seq<char>>::empty());
    }
}

proof fn lemma_resolve_skips_front(comps: Seq<Seq<char>>, absolute: bool)
    ensures
        resolve(seq![Seq::<char>::empty()] + comps, absolute) == resolve(comps, absolute),
    decreases comps.len(),
{
    let all = seq![Seq::<char>::empty()] + comps;
    if comps.len() == 0 {
        assert(all.drop_last() =~= Seq::<Seq<char>>::empty());
        assert(comps =~= Seq::<Seq<char>>::empty());
    } else {
        lemma_resolve_skips_front(comps.drop_last(), absolute);
        assert(all.drop_last() =~= seq![Seq::<char>::empty()] + comps.drop_last());
    }
}

pub proof fn lemma_resolve_slashes(n: nat, body: Seq<char>, absolute: bool)
    ensures
        resolve(split(slashes(n) + body, '/'), absolute) == resolve(split(body, '/'), absolute),
    decreases n,
{
    if n == 0 {
        assert(slashes(0) + body =~= body);
    } else {
        let rest = slashes((n - 1) as nat) + body;
        lemma_resolve_slashes((n - 1) as nat, body, absolute);
        assert(slashes(n) + body =~= Seq::<char>::empty() + seq!['/'] + rest);
        lemma_split_concat(Seq::<char>::empty(), '/', rest);
        lemma_resolve_skips_front(split(rest, '/'), absolute);
    }
}

pub proof fn lemma_leading_slashes(n: nat, body: Seq<char>)
    requires
        body.len() == 0 || body[0] != '/',
    ensures
        leading_slashes(slashes(n) + body) == n,
    decreases n,
{
    if n == 0 {
        assert(slashes(0) + body =~= body);
    } else {
        assert((slashes(n) + body).drop_first() =~= slashes((n - 1) as nat) + body);
        lemma_leading_slashes((n - 1) as nat, body);
    }
}

pub proof fn lemma_join_first(comps: Seq<Seq<char>>)
    requires
        comps.len() > 0,
        comps[0].len() > 0,
    ensures
        join(comps, seq!['/']).len() > 0,
        join(comps, seq!['/'])[0] == comps[0][0],
    decreases comps.len(),
{
    if comps.len() > 1 {
        lemma_join_first(comps.drop_last());
    }
}

/// The components of a normal form are tidy.
pub proof fn law_normalized_is_tidy(path: Seq<char>)
    ensures
        tidy(resolve(split(path, '/'), leading_slashes(path) > 0), leading_slashes(path) > 0),
{
    lemma_split_pieces(path, '/');
    lemma_resolve_tidy(split(path, '/'), leading_slashes(path) > 0);
}

/// Normalizing a normal form changes nothing.
pub proof fn law_normalize_idempotent(path: Seq<char>, allow_leading_double_slashes: bool)
    ensures
        normalized(
            normalized(path, allow_leading_double_slashes),
            allow_leading_double_slashes,
        ) == normalized(path, allow_leading_double_slashes),
{
    let a = allow_leading_double_slashes;
    let absolute = leading_slashes(path) > 0;
    let comps = resolve(split(path, '/'), absolute);
    let n = normalized_slashes(path, a);
    let body = join(comps, seq!['/']);
    let once = normalized(path, a);
    law_normalized_is_tidy(path);
    if n == 0 && comps.len() == 0 {
        assert(body =~= Seq::<char>::empty());
        assert(once == dot());
        lemma_split_plain(dot(), '/');
        assert(seq![dot()].drop_last() =~= Seq::<Seq<char>>::empty());
        assert(resolve(Seq::<Seq<char>>::empty(), false) =~= Seq::<Seq<char>>::empty());
        assert(resolve(seq![dot()], false) =~= Seq::<Seq<char>>::empty());
        assert(leading_slashes(dot()) == 0);
        assert(slashes(0) + Seq::<char>::empty() =~= Seq::<char>::empty());
    } else {
        if comps.len() > 0 {
            assert(comps[0].len() > 0);
            lemma_join_first(comps);
            assert(comps[0].contains(comps[0][0]));
        }
        lemma_leading_slashes(n, body);
        assert(once == slashes(n) + body);
        lemma_resolve_slashes(n, body, absolute);
        if comps.len() > 0 {
            lemma_split_join(comps, '/');
        } else {
            assert(split(body, '/') =~= seq![Seq::<char>::empty()]);
            assert(split(body, '/').drop_last() =~= Seq::<Seq<char>>::empty());
            assert(resolve(Seq::<Seq<char>>::empty(), absolute) =~= comps);
        }
        lemma_resolve_fixed(comps, absolute);
        assert(resolve(split(once, '/'), absolute) == comps);
        assert(leading_slashes(once) > 0 <==> absolute);
    }
}

/// A normal form is absolute exactly if the path was, and is never empty.
pub proof fn law_normalized_keeps_root(path: Seq<char>, allow_leading_double_slashes: bool)
    ensures
        normalized(path, allow_leading_double_slashes).len() > 0,
        normalized(path, allow_leading_double_slashes)[0] == '/' <==> path.len() > 0 && path[0]
            == '/',
{
    let absolute = leading_slashes(path) > 0;
    let comps = resolve(split(path, '/'), absolute);
    law_normalized_is_tidy(path);
    if !absolute && comps.len() > 0 {
        assert(comps[0].len() > 0);
        lemma_join_first(comps);
        assert(comps[0].contains(comps[0][0]));
    }
}

proof fn lemma_rooted_front(comps: Seq<Seq<char>>)
    requires
        comps.len() > 0,
    ensures
        rooted(comps).len() > 0,
        rooted(comps)[0] == '/',
    decreases comps.len(),
{
    if comps.len() > 1 {
        lemma_rooted_front(comps.drop_last());
    } else {
        assert(comps.drop_last() =~= Seq::<Seq<char>>::empty());
        assert(rooted(Seq::<Seq<char>>::empty()) =~= Seq::<char>::empty());
    }
}

/// From an absolute working directory `cd` always leads to an absolute path.
pub proof fn law_cd_target_is_absolute(wd: Seq<char>, path: Seq<char>)
    requires
        wd.len() > 0,
        wd[0] == '/',
        wd.last() == '/',
    ensures
        cd_target(wd, path).len() > 0,
        cd_target(wd, path)[0] == '/',
{
    let (up, rest) = climb(solid(split(wd, '/')), split(path, '/'));
    if (up + rest).len() > 0 {
        lemma_rooted_front(up + rest);
    }
}

/// `cd ..` drops the last component of the working directory; at the root it stays as
/// written.
pub proof fn law_cd_parent(wd: Seq<char>)
    requires
        wd.len() > 0,
        wd[0] == '/',
        wd.last() == '/',
    ensures
        ({
            let comps = solid(split(wd, '/'));
            cd_target(wd, dotdot()) == if comps.len() == 0 {
                seq!['/', '.', '.']
            } else if comps.len() == 1 {
                seq!['/']
            } else {
                rooted(comps.drop_last())
            }
        }),
{
    let comps = solid(split(wd, '/'));
    lemma_split_plain(dotdot(), '/');
    let path = seq![dotdot()];
    if comps.len() == 0 {
        assert(climb(comps, path) == (comps, path));
        assert(comps + path =~= path);
        assert(path.drop_last() =~= Seq::<Seq<char>>::empty());
        assert(rooted(Seq::<Seq<char>>::empty()) =~= Seq::<char>::empty());
        assert(rooted(path) =~= seq!['/', '.', '.']);
    } else {
        assert(path.drop_first() =~= Seq::<Seq<char>>::empty());
        assert(climb(comps, path) == climb(comps.drop_last(), path.drop_first()));
        assert(comps.drop_last() + Seq::<Seq<char>>::empty() =~= comps.drop_last());
    }
}

/// A component that is neither empty nor made of dots alone ends the climbing: from there
/// on the path is kept as it was written, dots included.
pub proof fn law_cd_keeps_rest(wd: Seq<Seq<char>>, path: Seq<Seq<char>>, k: int)
    requires
        0 <= k < path.len(),
        path[k].len() > 0,
        path[k] != dot(),
        path[k] != dotdot(),
    ensures
        climb(wd, path).1.len() >= path.len() - k,
        climb(wd, path).1.skip(climb(wd, path).1.len() - (path.len() - k)) == path.skip(k),
    decreases path.len(),
{
    let skip_first = path[0].len() == 0 || path[0] == dot();
    if k > 0 && (skip_first || (path[0] == dotdot() && wd.len() > 0)) {
        let next = if skip_first {
            wd
        } else {
            wd.drop_last()
        };
        law_cd_keeps_rest(next, path.drop_first(), k - 1);
        assert(path.drop_first().skip(k - 1) =~= path.skip(k));
    }
}

proof fn lemma_trailing(s: Seq<char>)
    ensures
        without_trailing_slashes(s).len() <= s.len(),
        without_trailing_slashes(s).len() == 0 || without_trailing_slashes(s).last() != '/',
        s == without_trailing_slashes(s) + slashes(
            (s.len() - without_trailing_slashes(s).len()) as nat,
        ),
    decreases s.len(),
{
    if s.len() > 0 && s.last() == '/' {
        lemma_trailing(s.drop_last());
        assert(s =~= s.drop_last().push('/'));
        assert(s =~= without_trailing_slashes(s) + slashes(
            (s.len() - without_trailing_slashes(s).len()) as nat,
        ));
    } else {
        assert(s =~= s + slashes(0));
    }
}

pub proof fn lemma_last_index(s: Seq<char>, c: char)
    ensures
        -1 <= last_index(s, c) < s.len(),
        last_index(s, c) >= 0 ==> s[last_index(s, c)] == c,
        forall|i: int| last_index(s, c) < i < s.len() ==> s[i] != c,
    decreases s.len(),
{
    if s.len() > 0 && s.last() != c {
        lemma_last_index(s.drop_last(), c);
        assert forall|i: int| last_index(s, c) < i < s.len() implies s[i] != c by {
            if i < s.len() - 1 {
                assert(s[i] == s.drop_last()[i]);
            }
        }
    }
}

/// The last component of a path holds no slash and is not empty, unless the path is made
/// of slashes alone.
pub proof fn law_basename_is_one_component(path: Seq<char>)
    requires
        !only_slashes(path),
    ensures
        basename(path).len() > 0,
        !basename(path).contains('/'),
{
    lemma_trailing(path);
    let body = without_trailing_slashes(path);
    lemma_last_index(body, '/');
    let cut = last_index(body, '/');
    if body.len() == 0 {
        assert(only_slashes(path)) by {
            assert forall|i: int| 0 <= i < path.len() implies path[i] == '/' by {
                assert(path[i] == (body + slashes(path.len()))[i]);
            }
        }
    }
    assert(body.last() == body[body.len() - 1]);
    assert(cut < body.len() - 1);
    let base = body.skip(cut + 1);
    if base.contains('/') {
        let k = choose|k: int| 0 <= k < base.len() && base[k] == '/';
        assert(body[cut + 1 + k] == '/');
    }
}

/// A directory part ends in a slash only if it is `/` or `//`.
pub proof fn law_dirname_has_no_trailing_slash(path: Seq<char>)
    ensures
        dirname(path).len() > 0,
        dirname(path).last() == '/' ==> dirname(path) == slashes(1) || dirname(path) == slashes(2),
{
    let body = without_trailing_slashes(path);
    let cut = last_index(body, '/');
    if cut >= 0 {
        lemma_trailing(body.take(cut));
    }
}

/// Directory part and last component together make up the path: what stands between them,
/// and behind the last component, is slashes. A path of one component has the directory
/// part `.`.
pub proof fn law_dirname_basename_partition(path: Seq<char>)
    requires
        !only_slashes(path),
    ensures
        ({
            let base = basename(path);
            ||| dirname(path) == dot() && exists|after: nat| path == base + #[trigger] slashes(after)
            ||| exists|dir: Seq<char>, between: nat, after: nat|
                between > 0 && path == #[trigger] (dir + slashes(between) + base + slashes(after))
                    && dirname(path) == if dir.len() == 0 {
                    slashes(1)
                } else {
                    dir
                }
        }),
{
    lemma_trailing(path);
    let body = without_trailing_slashes(path);
    let after = (path.len() - body.len()) as nat;
    lemma_last_index(body, '/');
    let cut = last_index(body, '/');
    let base = basename(path);
    assert(path != slashes(2)) by {
        if path == slashes(2) {
            assert(only_slashes(path));
        }
    }
    if cut < 0 {
        assert(base =~= body);
        assert(path == base + slashes(after));
    } else {
        let front = body.take(cut);
        lemma_trailing(front);
        let dir = without_trailing_slashes(front);
        let between = (cut - dir.len() + 1) as nat;
        assert(body =~= front + seq!['/'] + base);
        assert(front + seq!['/'] =~= dir + slashes(between));
        assert(path =~= dir + slashes(between) + base + slashes(after));
    }
}

/// The last component is never empty. It holds a slash exactly if the path is made of one or more
/// slashes alone, and then it is `/`.
pub proof fn law_basename_is_root_only_for_slashes(path: Seq<char>)
    ensures
        basename(path).len() > 0,
        basename(path).contains('/') <==> path.len() > 0 && only_slashes(path),
        basename(path) == slashes(1) <==> path.len() > 0 && only_slashes(path),
{
    if path.len() == 0 {
        assert(dot()[0] == '.');
        assert(slashes(1)[0] == '/');
    } else if only_slashes(path) {
        assert(slashes(1)[0] == '/');
    } else {
        law_basename_is_one_component(path);
        assert(slashes(1)[0] == '/');
    }
}

/// Equal resolutions stay equal when the same components follow.
pub proof fn lemma_resolve_same_front(
    a: Seq<Seq<char>>,
    b: Seq<Seq<char>>,
    more: Seq<Seq<char>>,
    absolute: bool,
)
    requires
        resolve(a, absolute) == resolve(b, absolute),
    ensures
        resolve(a + more, absolute) == resolve(b + more, absolute),
    decreases more.len(),
{
    if more.len() == 0 {
        assert(a + more =~= a);
        assert(b + more =~= b);
    } else {
        lemma_resolve_same_front(a, b, more.drop_last(), absolute);
        assert((a + more).drop_last() =~= a + more.drop_last());
        assert((b + more).drop_last() =~= b + more.drop_last());
    }
}

/// Trailing slashes do not change what a path resolves to.
proof fn lemma_resolve_trailing(s: Seq<char>, absolute: bool)
    ensures
        resolve(split(s, '/'), absolute) == resolve(
            split(without_trailing_slashes(s), '/'),
            absolute,
        ),
    decreases s.len(),
{
    if s.len() > 0 && s.last() == '/' {
        lemma_resolve_trailing(s.drop_last(), absolute);
        let before = split(s.drop_last(), '/');
        assert(split(s, '/').drop_last() =~= before);
    }
}

/// A path whose first character is no slash does not begin with one; otherwise it does.
proof fn lemma_leading(s: Seq<char>)
    ensures
        leading_slashes(s) > 0 <==> s.len() > 0 && s[0] == '/',
{
}

/// Directory part, slash and last component name the same path again.
pub proof fn law_dirname_basename_normalize(path: Seq<char>)
    ensures
        normalized(dirname(path) + seq!['/'] + basename(path), false) == normalized(path, false),
{
    let dir = dirname(path);
    let base = basename(path);
    let whole = dir + seq!['/'] + base;
    let absolute = leading_slashes(path) > 0;
    let none = Seq::<char>::empty();
    lemma_leading(path);
    lemma_leading(whole);
    lemma_split_concat(dir, '/', base);
    if path.len() == 0 {
        assert(path =~= none);
        assert(without_trailing_slashes(path) == path);
        assert(last_index(path, '/') == -1);
        assert(slashes(2).len() == 2);
        assert(dir == dot() && base == dot());
        assert(!dot().contains('/')) by {
            if dot().contains('/') {
                assert(dot()[0] == '/');
            }
        }
        lemma_split_plain(dot(), '/');
        assert(split(whole, '/') =~= seq![dot(), dot()]);
        assert(seq![dot(), dot()].drop_last() =~= seq![dot()]);
        assert(seq![dot()].drop_last() =~= Seq::<Seq<char>>::empty());
        assert(resolve(Seq::<Seq<char>>::empty(), absolute) =~= Seq::<Seq<char>>::empty());
        assert(resolve(seq![dot()], absolute) =~= Seq::<Seq<char>>::empty());
        assert(resolve(split(whole, '/'), absolute) =~= Seq::<Seq<char>>::empty());
        assert(split(path, '/') =~= seq![none]);
        assert(seq![none].drop_last() =~= Seq::<Seq<char>>::empty());
        assert(resolve(split(path, '/'), absolute) =~= Seq::<Seq<char>>::empty());
        assert(whole[0] == '.');
    } else if only_slashes(path) {
        let n = path.len();
        assert(path =~= slashes(n) + none);
        lemma_resolve_slashes(n, none, absolute);
        assert(slashes(2).len() == 2);
        let m = whole.len();
        assert(whole =~= slashes(m) + none);
        lemma_resolve_slashes(m, none, absolute);
        assert(path[0] == '/');
        assert(whole[0] == '/');
    } else {
        law_basename_is_one_component(path);
        lemma_trailing(path);
        lemma_resolve_trailing(path, absolute);
        let body = without_trailing_slashes(path);
        assert(body.len() > 0);
        assert(path[0] == body[0]);
        lemma_last_index(body, '/');
        let cut = last_index(body, '/');
        assert(path != slashes(2)) by {
            if path == slashes(2) {
                assert(only_slashes(path));
            }
        }
        lemma_split_plain(base, '/');
        if cut < 0 {
            assert(base =~= body);
            assert(dir == dot());
            assert(!dot().contains('/')) by {
                if dot().contains('/') {
                    assert(dot()[0] == '/');
                }
            }
            lemma_split_plain(dot(), '/');
            let empty = Seq::<Seq<char>>::empty();
            assert(seq![dot()].drop_last() =~= empty);
            assert(resolve(seq![dot()], absolute) == resolve(empty, absolute));
            lemma_resolve_same_front(seq![dot()], empty, seq![base], absolute);
            assert(empty + seq![base] =~= seq![base]);
            assert(whole[0] == '.');
        } else {
            let front = body.take(cut);
            lemma_trailing(front);
            lemma_resolve_trailing(front, absolute);
            assert(body =~= front + seq!['/'] + base);
            lemma_split_concat(front, '/', base);
            let stem = without_trailing_slashes(front);
            if stem.len() == 0 {
                assert(stem =~= none);
                assert(dir =~= slashes(1) + none);
                lemma_resolve_slashes(1, none, absolute);
                assert(whole[0] == '/');
                assert(body[0] == '/') by {
                    if cut > 0 {
                        assert(front[0] == (stem + slashes(cut as nat))[0]);
                    }
                }
            } else {
                assert(whole[0] == stem[0]);
                assert(front[0] == stem[0]);
            }
            lemma_resolve_same_front(split(front, '/'), split(dir, '/'), seq![base], absolute);
        }
    }
}

} // verus!
