//! Where `cd` leads, step by step.

use super::path::{cd_target, climb, dot, dotdot, rooted, solid};
use crate::text::{
    join, lemma_join_split, lemma_split_concat, lemma_split_nonempty, lemma_split_plain, split,
};
use vstd::prelude::*;

verus! {

/// The working directory with some names on its way: each with a slash before it, and a slash
/// at the end.
pub open spec fn directory(names: Seq<Seq<char>>) -> Seq<char>
    decreases names.len(),
{
    if names.len() == 0 {
        seq!['/']
    } else {
        directory(names.drop_last()) + names.last() + seq!['/']
    }
}

/// Whether all are names: not empty, and without slashes.
pub open spec fn all_names(names: Seq<Seq<char>>) -> bool {
    forall|i: int|
        0 <= i < names.len() ==> (#[trigger] names[i]).len() > 0 && !names[i].contains('/')
}

proof fn lemma_directory_rooted(names: Seq<Seq<char>>)
    ensures
        directory(names) == rooted(names) + seq!['/'],
    decreases names.len(),
{
    if names.len() == 0 {
        assert(rooted(names) + seq!['/'] =~= seq!['/']);
    } else {
        lemma_directory_rooted(names.drop_last());
        assert(directory(names) =~= rooted(names) + seq!['/']);
    }
}

proof fn lemma_solid_push(s: Seq<Seq<char>>, c: Seq<char>)
    ensures
        solid(s.push(c)) == if c.len() > 0 {
            solid(s).push(c)
        } else {
            solid(s)
        },
{
    reveal(Seq::filter);
    assert(s.push(c).drop_last() =~= s);
}

proof fn lemma_split_rooted(names: Seq<Seq<char>>)
    requires
        all_names(names),
    ensures
        solid(split(rooted(names), '/')) == names,
    decreases names.len(),
{
    let none = Seq::<char>::empty();
    if names.len() == 0 {
        assert(rooted(names) =~= none);
        lemma_split_plain(none, '/');
        assert(seq![none] =~= Seq::<Seq<char>>::empty().push(none));
        lemma_solid_push(Seq::empty(), none);
        reveal(Seq::filter);
        assert(solid(Seq::<Seq<char>>::empty()) =~= Seq::<Seq<char>>::empty());
        assert(names =~= Seq::<Seq<char>>::empty());
    } else {
        let front = names.drop_last();
        assert(all_names(front)) by {
            assert forall|i: int| 0 <= i < front.len() implies (#[trigger] front[i]).len() > 0
                && !front[i].contains('/') by {
                assert(names[i].len() > 0);
            }
        }
        lemma_split_rooted(front);
        let c = names.last();
        assert(names[names.len() - 1].len() > 0);
        lemma_split_concat(rooted(front), '/', c);
        lemma_split_plain(c, '/');
        assert(split(rooted(names), '/') =~= split(rooted(front), '/').push(c));
        lemma_solid_push(split(rooted(front), '/'), c);
        assert(front.push(c) =~= names);
    }
}

proof fn lemma_split_directory(names: Seq<Seq<char>>)
    requires
        all_names(names),
    ensures
        solid(split(directory(names), '/')) == names,
{
    let none = Seq::<char>::empty();
    lemma_directory_rooted(names);
    lemma_split_rooted(names);
    assert(directory(names) =~= rooted(names) + seq!['/'] + none);
    lemma_split_concat(rooted(names), '/', none);
    lemma_split_plain(none, '/');
    assert(split(directory(names), '/') =~= split(rooted(names), '/').push(none));
    lemma_solid_push(split(rooted(names), '/'), none);
}

proof fn lemma_rooted_concat(a: Seq<Seq<char>>, b: Seq<Seq<char>>)
    ensures
        rooted(a + b) == rooted(a) + rooted(b),
    decreases b.len(),
{
    if b.len() == 0 {
        assert(a + b =~= a);
        assert(rooted(a) + rooted(b) =~= rooted(a));
    } else {
        lemma_rooted_concat(a, b.drop_last());
        assert((a + b).drop_last() =~= a + b.drop_last());
        assert(rooted(a + b) =~= rooted(a) + rooted(b));
    }
}

proof fn lemma_rooted_join(pieces: Seq<Seq<char>>)
    requires
        pieces.len() > 0,
    ensures
        rooted(pieces) == seq!['/'] + join(pieces, seq!['/']),
    decreases pieces.len(),
{
    if pieces.len() == 1 {
        assert(pieces.drop_last() =~= Seq::<Seq<char>>::empty());
        assert(rooted(Seq::<Seq<char>>::empty()) =~= Seq::<char>::empty());
        assert(rooted(pieces) =~= seq!['/'] + join(pieces, seq!['/']));
    } else {
        lemma_rooted_join(pieces.drop_last());
        assert(rooted(pieces) =~= seq!['/'] + join(pieces, seq!['/']));
    }
}

/// The pieces of a path, each with a slash before it, are the path behind a slash.
proof fn lemma_rooted_split(q: Seq<char>)
    ensures
        rooted(split(q, '/')) == seq!['/'] + q,
{
    lemma_split_nonempty(q, '/');
    lemma_rooted_join(split(q, '/'));
    lemma_join_split(q, '/');
}

/// The first piece of a path that does not begin with a slash begins as the path does.
proof fn lemma_first_piece(q: Seq<char>)
    requires
        q.len() > 0,
        q[0] != '/',
    ensures
        split(q, '/').len() > 0,
        split(q, '/')[0].len() > 0,
        split(q, '/')[0][0] == q[0],
    decreases q.len(),
{
    lemma_split_nonempty(q, '/');
    if q.len() == 1 {
        assert(q.drop_last() =~= Seq::<char>::empty());
        lemma_split_plain(Seq::<char>::empty(), '/');
        assert(q.last() != '/');
        assert(split(q, '/') =~= seq![seq![q[0]]]);
    } else {
        lemma_first_piece(q.drop_last());
        let before = split(q.drop_last(), '/');
        if q.last() != '/' && before.len() == 1 {
            assert(split(q, '/')[0] == before[0].push(q.last()));
        } else {
            assert(split(q, '/')[0] == before[0]);
        }
    }
}

/// A first piece that is a name ends the climbing at once.
proof fn lemma_no_climb(names: Seq<Seq<char>>, q: Seq<char>)
    requires
        q.len() > 0,
        q[0] != '/',
        split(q, '/')[0] != dot(),
        split(q, '/')[0] != dotdot(),
    ensures
        climb(names, split(q, '/')) == (names, split(q, '/')),
        rooted(names + split(q, '/')) == directory(names) + q,
{
    lemma_first_piece(q);
    lemma_rooted_concat(names, split(q, '/'));
    lemma_rooted_split(q);
    lemma_directory_rooted(names);
    assert(rooted(names) + (seq!['/'] + q) =~= rooted(names) + seq!['/'] + q);
}

/// Nothing to go to is the working directory itself; an absolute path is where it leads.
pub proof fn law_cd_whole_paths(wd: Seq<char>, path: Seq<char>)
    requires
        path.len() > 0 ==> path[0] == '/',
    ensures
        cd_target(wd, path) == if path.len() == 0 {
            wd
        } else {
            path
        },
{
}

/// A path that begins with neither a slash nor a dot is appended to the working directory as it
/// is written, to its last character.
pub proof fn law_cd_appends(wd: Seq<char>, path: Seq<char>)
    requires
        path.len() > 0,
        path[0] != '/',
        path[0] != '.',
    ensures
        cd_target(wd, path).len() == wd.len() + path.len(),
        forall|i: int| 0 <= i < wd.len() ==> cd_target(wd, path)[i] == wd[i],
        forall|i: int| 0 <= i < path.len() ==> cd_target(wd, path)[wd.len() + i] == path[i],
{
}

/// A path that begins with a name, dots in front of it or not, is appended to the working
/// directory as it is written.
pub proof fn law_cd_appends_names(names: Seq<Seq<char>>, name: Seq<char>, rest: Seq<char>)
    requires
        all_names(names),
        name.len() > 0,
        !name.contains('/'),
        name != seq!['.'],
        name != seq!['.', '.'],
        rest.len() > 0 ==> rest[0] == '/',
    ensures
        cd_target(directory(names), name + rest) == directory(names) + (name + rest),
{
    let q = name + rest;
    assert(q[0] == name[0]);
    assert(name.contains(name[0]));
    if name[0] == '.' {
        lemma_split_directory(names);
        lemma_split_plain(name, '/');
        if rest.len() > 0 {
            assert(q =~= name + seq!['/'] + rest.skip(1));
            lemma_split_concat(name, '/', rest.skip(1));
            assert(split(q, '/')[0] == name);
        } else {
            assert(q =~= name);
        }
        assert(dot() =~= seq!['.']);
        assert(dotdot() =~= seq!['.', '.']);
        lemma_no_climb(names, q);
        lemma_split_nonempty(q, '/');
    }
}

/// A `./` in front of a relative path makes no difference.
pub proof fn law_cd_skips_dot(names: Seq<Seq<char>>, q: Seq<char>)
    requires
        all_names(names),
        q.len() > 0,
        q[0] != '/',
    ensures
        cd_target(directory(names), seq!['.', '/'] + q) == cd_target(directory(names), q),
{
    let path = seq!['.', '/'] + q;
    lemma_split_directory(names);
    lemma_here(q);
    lemma_step_here(names, q);
    lemma_first_piece(q);
    if q[0] != '.' {
        assert(dot()[0] == '.' && dotdot()[0] == '.');
        lemma_no_climb(names, q);
        assert(directory(names) + q =~= cd_target(directory(names), q));
    }
}

proof fn lemma_here(q: Seq<char>)
    ensures
        split(seq!['.', '/'] + q, '/') == seq![seq!['.']] + split(q, '/'),
        split(seq!['.', '.', '/'] + q, '/') == seq![seq!['.', '.']] + split(q, '/'),
{
    let here = seq!['.'];
    let up = seq!['.', '.'];
    assert(!here.contains('/')) by {
        assert(here[0] == '.');
    }
    assert(!up.contains('/')) by {
        assert(up[0] == '.' && up[1] == '.');
    }
    lemma_split_plain(here, '/');
    lemma_split_plain(up, '/');
    lemma_split_concat(here, '/', q);
    lemma_split_concat(up, '/', q);
    assert(seq!['.', '/'] + q =~= here + seq!['/'] + q);
    assert(seq!['.', '.', '/'] + q =~= up + seq!['/'] + q);
}

proof fn lemma_step_here(names: Seq<Seq<char>>, q: Seq<char>)
    ensures
        climb(names, seq![seq!['.']] + split(q, '/')) == climb(names, split(q, '/')),
{
    let all = seq![seq!['.']] + split(q, '/');
    assert(all[0] == seq!['.']);
    assert(all.drop_first() =~= split(q, '/'));
}

proof fn lemma_step_up(names: Seq<Seq<char>>, q: Seq<char>)
    requires
        names.len() > 0,
    ensures
        climb(names, seq![seq!['.', '.']] + split(q, '/')) == climb(
            names.drop_last(),
            split(q, '/'),
        ),
{
    let all = seq![seq!['.', '.']] + split(q, '/');
    assert(all[0] == seq!['.', '.']);
    assert(all[0].len() == 2);
    assert(all[0] != dot()) by {
        assert(dot().len() == 1);
    }
    assert(all.drop_first() =~= split(q, '/'));
}

/// A `../` in front of a relative path starts it from the directory above.
pub proof fn law_cd_goes_up(names: Seq<Seq<char>>, last: Seq<char>, q: Seq<char>)
    requires
        all_names(names),
        last.len() > 0,
        !last.contains('/'),
        q.len() > 0,
        q[0] != '/',
    ensures
        cd_target(directory(names.push(last)), seq!['.', '.', '/'] + q) == cd_target(
            directory(names),
            q,
        ),
{
    let longer = names.push(last);
    assert(all_names(longer));
    lemma_split_directory(longer);
    lemma_split_directory(names);
    lemma_here(q);
    assert(longer.drop_last() =~= names);
    lemma_step_up(longer, q);
    lemma_first_piece(q);
    if q[0] != '.' {
        assert(dot()[0] == '.' && dotdot()[0] == '.');
        lemma_no_climb(names, q);
        assert(directory(names) + q =~= cd_target(directory(names), q));
    }
}

/// Slashes behind a `.` or `..` in front of a relative path count as one.
pub proof fn law_cd_collapses_slashes(names: Seq<Seq<char>>, q: Seq<char>)
    requires
        all_names(names),
    ensures
        cd_target(directory(names), seq!['.', '/', '/'] + q) == cd_target(
            directory(names),
            seq!['.', '/'] + q,
        ),
        names.len() > 0 ==> cd_target(directory(names), seq!['.', '.', '/', '/'] + q) == cd_target(
            directory(names),
            seq!['.', '.', '/'] + q,
        ),
{
    let none = Seq::<char>::empty();
    let slashed = seq!['/'] + q;
    lemma_split_directory(names);
    lemma_here(q);
    lemma_here(slashed);
    assert(seq!['.', '/', '/'] + q =~= seq!['.', '/'] + slashed);
    assert(seq!['.', '.', '/', '/'] + q =~= seq!['.', '.', '/'] + slashed);
    assert(slashed =~= none + seq!['/'] + q);
    lemma_split_concat(none, '/', q);
    lemma_split_plain(none, '/');
    let pieces = split(slashed, '/');
    assert(pieces.drop_first() =~= split(q, '/'));
    assert(pieces[0].len() == 0);
    lemma_step_here(names, slashed);
    lemma_step_here(names, q);
    if names.len() > 0 {
        lemma_step_up(names, slashed);
        lemma_step_up(names, q);
    }
}

/// The directory that some names lead to, without the slash at the end unless it is the root.
pub open spec fn destination(names: Seq<Seq<char>>) -> Seq<char> {
    if names.len() == 0 {
        seq!['/']
    } else {
        directory(names).drop_last()
    }
}

/// `.` leads to the working directory, and `..` to the one above it, without a slash at the end;
/// at the root `..` stays as written.
pub proof fn law_cd_dots(names: Seq<Seq<char>>)
    requires
        all_names(names),
    ensures
        cd_target(directory(names), seq!['.']) == destination(names),
        cd_target(directory(names), seq!['.', '/']) == destination(names),
        names.len() > 0 ==> cd_target(directory(names), seq!['.', '.']) == destination(
            names.drop_last(),
        ),
        names.len() == 0 ==> cd_target(directory(names), seq!['.', '.']) == seq!['/', '.', '.'],
{
    let none = Seq::<char>::empty();
    let empty = Seq::<Seq<char>>::empty();
    let here = seq!['.'];
    let up = seq!['.', '.'];
    lemma_split_directory(names);
    assert(!here.contains('/')) by {
        assert(here[0] == '.');
    }
    assert(!up.contains('/')) by {
        assert(up[0] == '.' && up[1] == '.');
    }
    lemma_split_plain(here, '/');
    lemma_split_plain(up, '/');
    lemma_split_plain(none, '/');
    lemma_here(none);
    assert(seq!['.', '/'] + none =~= seq!['.', '/']);
    lemma_step_here(names, none);
    assert(seq![here].drop_first() =~= empty);
    assert(seq![none].drop_first() =~= empty);
    assert(climb(names, empty) == (names, empty));
    assert(climb(names, seq![none]) == (names, empty));
    assert(climb(names, seq![here]) == (names, empty));
    assert(names + empty =~= names);
    lemma_directory_rooted(names);
    assert(directory(names).drop_last() =~= rooted(names));
    assert(rooted(empty) =~= none);
    assert(up.len() == 2 && dot().len() == 1);
    assert(seq![up].drop_first() =~= empty);
    if names.len() > 0 {
        let front = names.drop_last();
        assert(climb(names, seq![up]) == climb(front, empty));
        assert(front + empty =~= front);
        lemma_directory_rooted(front);
        assert(directory(front).drop_last() =~= rooted(front));
    } else {
        assert(climb(names, seq![up]) == (names, seq![up]));
        assert(names + seq![up] =~= seq![up]);
        assert(seq![up].drop_last() =~= empty);
        assert(rooted(seq![up]) =~= seq!['/', '.', '.']);
    }
}

/// At the root a `../` stays, with all that follows it as it is written.
pub proof fn law_cd_above_root(q: Seq<char>)
    ensures
        cd_target(seq!['/'], seq!['.', '.', '/'] + q) == seq!['/', '.', '.', '/'] + q,
{
    let empty = Seq::<Seq<char>>::empty();
    let up = seq!['.', '.'];
    let path = up + seq!['/'] + q;
    assert(seq!['.', '.', '/'] + q =~= path);
    lemma_split_directory(empty);
    assert(directory(empty) =~= seq!['/']);
    lemma_here(q);
    let pieces = split(path, '/');
    assert(pieces[0] == up);
    assert(up.len() == 2 && dot().len() == 1);
    assert(climb(empty, pieces) == (empty, pieces));
    assert(empty + pieces =~= pieces);
    lemma_rooted_split(path);
    assert(seq!['/'] + path =~= seq!['/', '.', '.', '/'] + q);
}

} // verus!
