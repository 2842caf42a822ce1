//! Lexical path operations on `/`-separated paths.

use crate::text::{
    copy_text, find_last_end, join, join_texts, last_index, push_text, split, split_text, texts,
};
use vstd::prelude::*;
use vstd::slice::slice_subrange;

verus! {

/// The component that stands for the current directory.
pub open spec fn dot() -> Seq<char> {
    seq!['.']
}

/// The component that stands for the parent directory.
pub open spec fn dotdot() -> Seq<char> {
    seq!['.', '.']
}

/// `n` slashes.
pub open spec fn slashes(n: nat) -> Seq<char> {
    Seq::new(n, |i: int| '/')
}

/// The number of slashes at the front of a path.
pub open spec fn leading_slashes(s: Seq<char>) -> nat
    decreases s.len(),
{
    if s.len() > 0 && s[0] == '/' {
        1 + leading_slashes(s.drop_first())
    } else {
        0
    }
}

/// Whether a path consists of slashes only (the empty path does).
pub open spec fn only_slashes(s: Seq<char>) -> bool {
    forall|i: int| 0 <= i < s.len() ==> s[i] == '/'
}

/// A path without its trailing slashes.
pub open spec fn without_trailing_slashes(s: Seq<char>) -> Seq<char>
    decreases s.len(),
{
    if s.len() > 0 && s.last() == '/' {
        without_trailing_slashes(s.drop_last())
    } else {
        s
    }
}

/// The components that remain when empty and `.` components are dropped and each `..`
/// removes the component before it. A `..` with nothing to remove is kept in a relative
/// path and dropped in an absolute one.
pub open spec fn resolve(comps: Seq<Seq<char>>, absolute: bool) -> Seq<Seq<char>>
    decreases comps.len(),
{
    if comps.len() == 0 {
        Seq::empty()
    } else {
        let before = resolve(comps.drop_last(), absolute);
        let comp = comps.last();
        if comp.len() == 0 || comp == dot() {
            before
        } else if comp != dotdot() {
            before.push(comp)
        } else if before.len() > 0 && before.last() != dotdot() {
            before.drop_last()
        } else if !absolute {
            before.push(dotdot())
        } else {
            before
        }
    }
}

/// The number of slashes that a normalized path begins with.
pub open spec fn normalized_slashes(s: Seq<char>, allow_leading_double_slashes: bool) -> nat {
    if leading_slashes(s) == 0 {
        0
    } else if allow_leading_double_slashes && leading_slashes(s) == 2 {
        2
    } else {
        1
    }
}

/// The normal form of a path.
pub open spec fn normalized(s: Seq<char>, allow_leading_double_slashes: bool) -> Seq<char> {
    let front = slashes(normalized_slashes(s, allow_leading_double_slashes));
    let body = join(resolve(split(s, '/'), leading_slashes(s) > 0), seq!['/']);
    if (front + body).len() == 0 {
        dot()
    } else {
        front + body
    }
}

/// Counts the slashes at the front of a path.
fn count_leading_slashes(path: &[char]) -> (n: usize)
    ensures
        n == leading_slashes(path@),
        n <= path@.len(),
{
    let mut n: usize = 0;
    assert(path@.skip(0) =~= path@);
    while n < path.len() && path[n] == '/'
        invariant
            n <= path@.len(),
            leading_slashes(path@) == n + leading_slashes(path@.skip(n as int)),
        decreases path@.len() - n,
    {
        assert(path@.skip(n as int).drop_first() =~= path@.skip(n as int + 1));
        n += 1;
    }
    n
}

/// Given an input path, "normalize" it:
/// 1. Collapse multiple /s into a single /, except maybe at the beginning.
/// 2. .. goes up a level.
/// 3. Remove /./ in the middle.
pub fn normalize_path(path: &[char], allow_leading_double_slashes: bool) -> (r: Vec<char>)
    ensures
        r@ == normalized(path@, allow_leading_double_slashes),
{
    let leading: usize = count_leading_slashes(path);
    let comps = split_text(path, '/');
    let ghost all = split(path@, '/');
    let absolute: bool = leading > 0;
    let mut kept: Vec<Vec<char>> = Vec::new();
    let mut i: usize = 0;
    assert(texts(kept@) =~= resolve(all.take(0), absolute));
    while i < comps.len()
        invariant
            i <= comps@.len(),
            all == texts(comps@),
            texts(kept@) == resolve(all.take(i as int), absolute),
        decreases comps@.len() - i,
    {
        let comp = comps[i].as_slice();
        let ghost before = texts(kept@);
        let ghost next = all.take(i as int + 1);
        assert(next.drop_last() =~= all.take(i as int));
        assert(next.last() == comp@);
        if comp.len() == 0 || (comp.len() == 1 && comp[0] == '.') {
            assert(comp@.len() == 1 ==> comp@ =~= dot());
            assert(resolve(next, absolute) == before);
        } else {
            assert(comp@ != dot()) by {
                if comp@ == dot() {
                    assert(comp@.len() == 1 && comp@[0] == '.');
                }
            }
            let is_parent: bool = comp.len() == 2 && comp[0] == '.' && comp[1] == '.';
            assert(is_parent == (comp@ == dotdot())) by {
                if is_parent {
                    assert(comp@ =~= dotdot());
                }
            }
            if !is_parent {
                kept.push(copy_text(comp));
                assert(texts(kept@) =~= before.push(comp@));
            } else {
                let mut goes_up: bool = false;
                if kept.len() > 0 {
                    let last = kept[kept.len() - 1].as_slice();
                    assert(before.last() == last@);
                    goes_up = !(last.len() == 2 && last[0] == '.' && last[1] == '.');
                    assert(goes_up == (last@ != dotdot())) by {
                        if !goes_up {
                            assert(last@ =~= dotdot());
                        }
                    }
                }
                if goes_up {
                    let _ = kept.pop();
                    assert(texts(kept@) =~= before.drop_last());
                } else if !absolute {
                    kept.push(copy_text(comp));
                    assert(texts(kept@) =~= before.push(dotdot()));
                }
            }
        }
        i += 1;
    }
    assert(all.take(i as int) =~= all);
    let mut sep: Vec<char> = Vec::new();
    sep.push('/');
    assert(sep@ =~= seq!['/']);
    let body = join_texts(kept.as_slice(), sep.as_slice());
    let mut result: Vec<char> = Vec::new();
    if leading > 0 {
        result.push('/');
    }
    if allow_leading_double_slashes && leading == 2 {
        result.push('/');
    }
    assert(result@ =~= slashes(normalized_slashes(path@, allow_leading_double_slashes)));
    push_text(&mut result, body.as_slice());
    // Ensure ./ normalizes to . and not empty.
    if result.len() == 0 {
        result.push('.');
        assert(result@ =~= dot());
    }
    result
}

/// What is left of a working directory and of a relative path once the leading empty,
/// `.` and `..` components of the path are used up: each `..` removes the last component
/// of the directory, and a `..` that finds none ends the process.
pub open spec fn climb(wd: Seq<Seq<char>>, path: Seq<Seq<char>>) -> (Seq<Seq<char>>, Seq<Seq<char>>)
    decreases path.len(),
{
    if path.len() == 0 {
        (wd, path)
    } else if path[0].len() == 0 || path[0] == dot() {
        climb(wd, path.drop_first())
    } else if path[0] == dotdot() && wd.len() > 0 {
        climb(wd.drop_last(), path.drop_first())
    } else {
        (wd, path)
    }
}

/// The non-empty components of a path.
pub open spec fn solid(comps: Seq<Seq<char>>) -> Seq<Seq<char>> {
    comps.filter(|c: Seq<char>| c.len() > 0)
}

/// Each component with a slash before it.
pub open spec fn rooted(comps: Seq<Seq<char>>) -> Seq<char>
    decreases comps.len(),
{
    if comps.len() == 0 {
        Seq::empty()
    } else {
        rooted(comps.drop_last()) + seq!['/'] + comps.last()
    }
}

/// Where `cd path` leads from the working directory `wd`.
pub open spec fn cd_target(wd: Seq<char>, path: Seq<char>) -> Seq<char> {
    if path.len() == 0 {
        wd
    } else if path[0] == '/' {
        path
    } else if path[0] != '.' {
        wd + path
    } else {
        let (up, rest) = climb(solid(split(wd, '/')), split(path, '/'));
        if (up + rest).len() == 0 {
            seq!['/']
        } else {
            rooted(up + rest)
        }
    }
}

/// Given an input path `path` and a working directory `wd`, do a "normalizing join" in a way
/// appropriate for cd. That is, return effectively wd + path while resolving leading ../s from
/// path. The intent here is to allow 'cd' out of a directory which may no longer exist, without
/// allowing 'cd' into a directory that may not exist.
pub fn path_normalize_for_cd(wd: &[char], path: &[char]) -> (r: Vec<char>)
    requires
        wd@.len() > 0,
        wd@[0] == '/',
        wd@.last() == '/',
    ensures
        r@ == cd_target(wd@, path@),
{
    // Fast paths.
    if path.len() == 0 {
        return copy_text(wd);
    }
    if path[0] == '/' {
        return copy_text(path);
    }
    if path[0] != '.' {
        let mut joined = copy_text(wd);
        push_text(&mut joined, path);
        return joined;
    }
    let wd_all = split_text(wd, '/');
    let ghost wd_split = split(wd@, '/');
    // Remove empty segments, especially the leading and trailing ones.
    let mut comps: Vec<Vec<char>> = Vec::new();
    let mut i: usize = 0;
    assert(texts(comps@) =~= solid(wd_split.take(0))) by {
        reveal(Seq::filter);
    }
    while i < wd_all.len()
        invariant
            i <= wd_all@.len(),
            wd_split == texts(wd_all@),
            texts(comps@) == solid(wd_split.take(i as int)),
        decreases wd_all@.len() - i,
    {
        let ghost before = texts(comps@);
        let ghost next = wd_split.take(i as int + 1);
        assert(next.drop_last() =~= wd_split.take(i as int));
        assert(next.last() == wd_all@[i as int]@);
        reveal(Seq::filter);
        if wd_all[i].len() > 0 {
            comps.push(copy_text(wd_all[i].as_slice()));
            assert(texts(comps@) =~= before.push(next.last()));
        }
        i += 1;
    }
    assert(wd_split.take(i as int) =~= wd_split);
    let path_comps = split_text(path, '/');
    let ghost path_split = split(path@, '/');
    let ghost target = climb(solid(wd_split), path_split);
    // Erase leading . and .. components, popping from the directory as we go.
    let mut from: usize = 0;
    assert(path_split.skip(0) =~= path_split);
    let mut climbing: bool = true;
    while climbing && from < path_comps.len()
        invariant
            from <= path_comps@.len(),
            path_split == texts(path_comps@),
            target == climb(texts(comps@), path_split.skip(from as int)),
            !climbing ==> target == (texts(comps@), path_split.skip(from as int)),
        decreases path_comps@.len() - from, if climbing { 1int } else { 0int },
    {
        let comp = path_comps[from].as_slice();
        let ghost before = texts(comps@);
        let ghost rest = path_split.skip(from as int);
        assert(rest[0] == comp@);
        assert(rest.drop_first() =~= path_split.skip(from as int + 1));
        let skips: bool = comp.len() == 0 || (comp.len() == 1 && comp[0] == '.');
        assert(skips == (comp@.len() == 0 || comp@ == dot())) by {
            if comp@.len() == 1 && comp@[0] == '.' {
                assert(comp@ =~= dot());
            }
        }
        let is_parent: bool = comp.len() == 2 && comp[0] == '.' && comp[1] == '.';
        assert(is_parent == (comp@ == dotdot())) by {
            if is_parent {
                assert(comp@ =~= dotdot());
            }
        }
        if skips {
            from += 1;
        } else if is_parent && comps.len() > 0 {
            let _ = comps.pop();
            assert(texts(comps@) =~= before.drop_last());
            from += 1;
        } else {
            climbing = false;
        }
    }
    assert(target == (texts(comps@), path_split.skip(from as int)));
    let ghost up = texts(comps@);
    let ghost rest = path_split.skip(from as int);
    // Append un-erased elements and join them, prepending with a leading /.
    let mut k: usize = from;
    assert(rest.take(0) =~= Seq::<Seq<char>>::empty());
    assert(up + rest.take(0) =~= up);
    while k < path_comps.len()
        invariant
            from <= k <= path_comps@.len(),
            path_split == texts(path_comps@),
            rest == path_split.skip(from as int),
            texts(comps@) == up + rest.take(k - from),
        decreases path_comps@.len() - k,
    {
        let ghost before = texts(comps@);
        comps.push(copy_text(path_comps[k].as_slice()));
        assert(texts(comps@) =~= before.push(path_split[k as int]));
        assert(rest[k - from] == path_split[k as int]);
        k += 1;
        assert(texts(comps@) =~= up + rest.take(k - from));
    }
    assert(rest.take(k - from) =~= rest);
    let ghost all = up + rest;
    let mut result: Vec<char> = Vec::new();
    let mut n: usize = 0;
    while n < comps.len()
        invariant
            n <= comps@.len(),
            all == texts(comps@),
            result@ == rooted(all.take(n as int)),
            result@.len() >= n,
        decreases comps@.len() - n,
    {
        let ghost next = all.take(n as int + 1);
        assert(next.drop_last() =~= all.take(n as int));
        assert(next.last() == comps@[n as int]@);
        result.push('/');
        push_text(&mut result, comps[n].as_slice());
        n += 1;
        assert(result@ =~= rooted(all.take(n as int)));
    }
    assert(all.take(n as int) =~= all);
    if result.len() == 0 {
        result.push('/');
        assert(result@ =~= seq!['/']);
    }
    result
}

/// The directory part of a path.
pub open spec fn dirname(s: Seq<char>) -> Seq<char> {
    if s == slashes(2) {
        s
    } else if s.len() > 0 && only_slashes(s) {
        slashes(1)
    } else {
        let body = without_trailing_slashes(s);
        let cut = last_index(body, '/');
        if cut < 0 {
            dot()
        } else {
            let dir = without_trailing_slashes(body.take(cut));
            if dir.len() == 0 {
                slashes(1)
            } else {
                dir
            }
        }
    }
}

/// The last component of a path.
pub open spec fn basename(s: Seq<char>) -> Seq<char> {
    if s.len() == 0 {
        dot()
    } else if only_slashes(s) {
        slashes(1)
    } else {
        let body = without_trailing_slashes(s);
        body.skip(last_index(body, '/') + 1)
    }
}

/// Whether a path consists of slashes only.
fn has_only_slashes(path: &[char]) -> (r: bool)
    ensures
        r == only_slashes(path@),
{
    let mut i: usize = 0;
    while i < path.len()
        invariant
            i <= path@.len(),
            forall|j: int| 0 <= j < i ==> path@[j] == '/',
        decreases path@.len() - i,
    {
        if path[i] != '/' {
            return false;
        }
        i += 1;
    }
    true
}

/// Removes the trailing slashes of a path.
fn trim_trailing_slashes(path: &[char]) -> (r: &[char])
    ensures
        r@ == without_trailing_slashes(path@),
{
    let mut end: usize = path.len();
    assert(path@.take(end as int) =~= path@);
    while end > 0 && path[end - 1] == '/'
        invariant
            end <= path@.len(),
            without_trailing_slashes(path@) == without_trailing_slashes(path@.take(end as int)),
        decreases end,
    {
        assert(path@.take(end as int).drop_last() =~= path@.take(end as int - 1));
        end -= 1;
    }
    assert(path@.take(end as int) =~= path@.subrange(0, end as int));
    slice_subrange(path, 0, end)
}

/// Wide character version of dirname(). This follows the OpenGroup dirname recipe.
pub fn wdirname(path: &[char]) -> (r: &[char])
    ensures
        r@ == dirname(path@),
{
    // 1: Double-slash stays.
    if path.len() == 2 && path[0] == '/' && path[1] == '/' {
        assert(path@ =~= slashes(2));
        return path;
    }
    assert(path@ != slashes(2)) by {
        if path@ == slashes(2) {
            assert(path@[0] == '/' && path@[1] == '/');
        }
    }
    // 2: All slashes => return slash.
    if path.len() > 0 && has_only_slashes(path) {
        assert(path@.subrange(0, 1) =~= slashes(1));
        return slice_subrange(path, 0, 1);
    }
    // 3: Trim trailing slashes.
    let body = trim_trailing_slashes(path);
    // 4: No slashes left => return period.
    let cut: usize = find_last_end(body, '/');
    if cut == 0 {
        let r: &'static [char] = &['.'];
        assert(r@ =~= dot());
        return r;
    }
    // 5: Remove trailing non-slashes.
    // 7: Remove trailing slashes again.
    assert(body@.subrange(0, cut as int - 1) =~= body@.take(cut as int - 1));
    let dir = trim_trailing_slashes(slice_subrange(body, 0, cut - 1));
    // 8: Empty => return slash.
    if dir.len() == 0 {
        let r: &'static [char] = &['/'];
        assert(r@ =~= slashes(1));
        return r;
    }
    dir
}

/// Wide character version of basename(). This follows the OpenGroup basename recipe.
pub fn wbasename(path: &[char]) -> (r: &[char])
    ensures
        r@ == basename(path@),
{
    // 1: Empty => allowed to return ".".
    if path.len() == 0 {
        let r: &'static [char] = &['.'];
        assert(r@ =~= dot());
        return r;
    }
    // 3: All slashes => return slash.
    if has_only_slashes(path) {
        assert(path@.subrange(0, 1) =~= slashes(1));
        return slice_subrange(path, 0, 1);
    }
    // 4: Remove trailing slashes.
    let body = trim_trailing_slashes(path);
    // 5: Remove up to and including last slash.
    let cut: usize = find_last_end(body, '/');
    assert(body@.subrange(cut as int, body@.len() as int) =~= body@.skip(cut as int));
    slice_subrange(body, cut, body.len())
}

} // verus!
