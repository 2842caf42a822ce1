//! The numeric locale: how numbers are written.

use vstd::prelude::*;

verus! {

/// How numbers are written.
#[derive(Clone, Copy, Debug)]
pub struct Locale {
    /// The decimal point. Only single-char decimal points are supported.
    pub decimal_point: char,
    /// The thousands separator, or None if none.
    pub thousands_sep: Option<char>,
    /// The grouping of digits.
    pub grouping: [u8; 4],
    /// If true, the last group is repeated; if false, there are no groups after the last.
    pub group_repeat: bool,
}

/// The only character of a C string, if it is a single ASCII character.
pub open spec fn single_char(s: Option<Seq<u8>>) -> Option<char> {
    match s {
        Some(b) => if b.len() == 1 && 0 < b[0] <= 127 {
            Some(b[0] as char)
        } else {
            None
        },
        None => None,
    }
}

/// The contents of a C string that may be absent.
pub open spec fn c_text(s: Option<Vec<u8>>) -> Option<Seq<u8>> {
    match s {
        Some(b) => Some(b@),
        None => None,
    }
}

/// Return the first character of a C string, or None if null, empty, has a length more than 1, or
/// negative.
pub fn first_char(s: &Option<Vec<u8>>) -> (r: Option<char>)
    ensures
        r == single_char(c_text(*s)),
{
    match s {
        Some(b) => {
            if b.len() == 1 && 0 < b[0] && b[0] <= 127 {
                Some(b[0] as char)
            } else {
                None
            }
        },
        None => None,
    }
}

/// The number of groups that are given: those before a 0, `char_max` or the end.
pub open spec fn group_count(groups: Seq<u8>, char_max: u8) -> nat
    decreases groups.len(),
{
    if groups.len() == 0 || groups[0] == 0 || groups[0] == char_max {
        0
    } else {
        1 + group_count(groups.drop_first(), char_max)
    }
}

/// Whether the groups end with `char_max`: then there are none after the last.
pub open spec fn groups_stop(groups: Seq<u8>, char_max: u8) -> bool {
    let n = group_count(groups, char_max);
    n < groups.len() && groups[n as int] != 0
}

/// The size of a group: behind the given groups the last one repeats, unless they stop there.
pub open spec fn group_at(groups: Seq<u8>, char_max: u8, i: int) -> u8 {
    let n = group_count(groups, char_max);
    if i < n {
        groups[i]
    } else if groups_stop(groups, char_max) || n == 0 {
        0
    } else {
        groups[n - 1]
    }
}

proof fn lemma_group_count(groups: Seq<u8>, char_max: u8)
    ensures
        group_count(groups, char_max) <= groups.len(),
        forall|i: int|
            0 <= i < group_count(groups, char_max) ==> groups[i] != 0 && groups[i] != char_max,
        group_count(groups, char_max) < groups.len() ==> {
            let end = groups[group_count(groups, char_max) as int];
            end == 0 || end == char_max
        },
    decreases groups.len(),
{
    if groups.len() > 0 && groups[0] != 0 && groups[0] != char_max {
        let rest = groups.drop_first();
        lemma_group_count(rest, char_max);
        assert forall|i: int| 0 <= i < group_count(groups, char_max) implies groups[i] != 0
            && groups[i] != char_max by {
            if i > 0 {
                assert(groups[i] == rest[i - 1]);
            }
        }
    }
}

/// Convert what the C library tells of a locale to a Locale. `grouping` holds the sizes of the
/// groups; it is terminated by a 0, by `char_max` or by its end.
pub fn lconv_to_locale(
    decimal_point: &Option<Vec<u8>>,
    thousands_sep: &Option<Vec<u8>>,
    grouping: &[u8],
    char_max: u8,
) -> (r: Locale)
    ensures
        r.decimal_point == (match single_char(c_text(*decimal_point)) {
            Some(c) => c,
            None => '.',
        }),
        r.thousands_sep == single_char(c_text(*thousands_sep)),
        forall|i: int|
            0 <= i < 4 ==> (#[trigger] r.grouping@[i]) == group_at(grouping@, char_max, i),
        r.group_repeat == (group_count(grouping@, char_max) < 4 && !groups_stop(
            grouping@,
            char_max,
        )),
{
    let point: char = match first_char(decimal_point) {
        Some(c) => c,
        None => '.',
    };
    let mut groups: [u8; 4] = [0, 0, 0, 0];
    let mut cursor: usize = 0;
    let mut last_group: u8 = 0;
    let mut repeat: bool = false;
    let ghost n = group_count(grouping@, char_max);
    proof {
        lemma_group_count(grouping@, char_max);
    }
    let mut i: usize = 0;
    while i < 4
        invariant
            i <= 4,
            n == group_count(grouping@, char_max),
            n <= grouping@.len(),
            forall|k: int| 0 <= k < n ==> grouping@[k] != 0 && grouping@[k] != char_max,
            n < grouping@.len() ==> grouping@[n as int] == 0 || grouping@[n as int] == char_max,
            cursor == if i <= n {
                i as int
            } else {
                n as int
            },
            i <= n ==> last_group == if i == 0 {
                0
            } else {
                grouping@[i - 1]
            },
            i > n ==> last_group == group_at(grouping@, char_max, n as int),
            repeat == (i > n && !groups_stop(grouping@, char_max)),
            forall|k: int| 0 <= k < i ==> groups@[k] == group_at(grouping@, char_max, k),
        decreases 4 - i,
    {
        let gc: u8 = if cursor < grouping.len() {
            grouping[cursor]
        } else {
            0
        };
        if gc == 0 {
            // Preserve last_group, do not advance cursor.
            repeat = true;
        } else if gc == char_max {
            // Remaining groups are 0, do not advance cursor.
            last_group = 0;
            repeat = false;
        } else {
            // Record last group, advance cursor.
            last_group = gc;
            cursor += 1;
        }
        groups[i] = last_group;
        i += 1;
    }
    Locale {
        decimal_point: point,
        thousands_sep: first_char(thousands_sep),
        grouping: groups,
        group_repeat: repeat,
    }
}

/// The numeric locale that is in effect: the one that is kept, else the one that was read, else
/// the C locale.
pub open spec fn in_effect(kept: Option<Locale>, read: Option<Locale>, c_locale: Locale) -> Locale {
    match kept {
        Some(l) => l,
        None => match read {
            Some(l) => l,
            None => c_locale,
        },
    }
}

/// The numeric locale, which is kept once it was read. `read` is what reading it gives.
pub fn get_numeric_locale(kept: &mut Option<Locale>, read: Option<Locale>, c_locale: Locale) -> (r:
    Locale)
    ensures
        r == in_effect(*old(kept), read, c_locale),
        *final(kept) == Some(r),
{
    match *kept {
        Some(l) => l,
        None => {
            let fresh: Locale = match read {
                Some(l) => l,
                None => c_locale,
            };
            *kept = Some(fresh);
            fresh
        },
    }
}

/// Invalidate the cached numeric locale.
pub fn invalidate_numeric_locale(kept: &mut Option<Locale>)
    ensures
        *final(kept) == None::<Locale>,
{
    *kept = None;
}

/// What was read stays in effect until it is invalidated; then what is read next is.
pub proof fn law_locale_is_kept(first: Locale, next: Option<Locale>, c_locale: Locale)
    ensures
        in_effect(Some(in_effect(None, Some(first), c_locale)), next, c_locale) == first,
        in_effect(None, next, c_locale) == (match next {
            Some(l) => l,
            None => c_locale,
        }),
{
}

/// Once the groups have ended, every further group has the same size.
pub proof fn law_groups_settle(groups: Seq<u8>, char_max: u8, i: int, j: int)
    requires
        i >= group_count(groups, char_max),
        j >= group_count(groups, char_max),
    ensures
        group_at(groups, char_max, i) == group_at(groups, char_max, j),
{
}

proof fn lemma_group_count_of(groups: Seq<u8>, rest: Seq<u8>, char_max: u8)
    requires
        forall|i: int|
            0 <= i < groups.len() ==> #[trigger] groups[i] != 0 && groups[i] != char_max,
        rest.len() > 0 ==> rest[0] == 0 || rest[0] == char_max,
    ensures
        group_count(groups + rest, char_max) == groups.len(),
    decreases groups.len(),
{
    let all = groups + rest;
    if groups.len() > 0 {
        assert(all[0] == groups[0]);
        let later = groups.drop_first();
        assert forall|i: int| 0 <= i < later.len() implies #[trigger] later[i] != 0 && later[i]
            != char_max by {
            assert(later[i] == groups[i + 1]);
        }
        lemma_group_count_of(later, rest, char_max);
        assert(all.drop_first() =~= later + rest);
    } else {
        assert(all =~= rest);
    }
}

/// The groups are those that are given, up to the end of the list, a zero or the largest value;
/// behind them the last group is repeated, unless the largest value says that there is none.
pub proof fn law_groups(groups: Seq<u8>, rest: Seq<u8>, char_max: u8, i: int)
    requires
        forall|k: int|
            0 <= k < groups.len() ==> #[trigger] groups[k] != 0 && groups[k] != char_max,
        rest.len() > 0 ==> rest[0] == 0 || rest[0] == char_max,
        char_max != 0,
        groups.len() > 0,
        0 <= i,
    ensures
        i < groups.len() ==> group_at(groups + rest, char_max, i) == groups[i],
        i >= groups.len() ==> group_at(groups + rest, char_max, i) == (if rest.len() > 0 && rest[0]
            == char_max {
            0u8
        } else {
            groups.last()
        }),
{
    lemma_group_count_of(groups, rest, char_max);
    let all = groups + rest;
    let n = groups.len() as int;
    assert(all[n - 1] == groups[n - 1]);
    assert(rest.len() > 0 ==> all[n] == rest[0]);
    assert(i < n ==> all[i] == groups[i]);
}

/// Only a single ASCII character other than NUL is taken from a text.
pub proof fn law_single_char(b: Seq<u8>)
    ensures
        single_char(None) is None,
        b.len() != 1 ==> single_char(Some(b)) is None,
        b.len() == 1 ==> (single_char(Some(b)) is Some <==> 1 <= b[0] <= 127),
        single_char(Some(b)) matches Some(c) ==> c as int == b[0],
{
}

/// The last group is repeated where fewer than four are given and nothing forbids it; without a
/// decimal point of one character there is still one.
pub proof fn law_locale_read(
    decimal_point: &Option<Vec<u8>>,
    thousands_sep: &Option<Vec<u8>>,
    grouping: &[u8],
    groups: Seq<u8>,
    rest: Seq<u8>,
    char_max: u8,
    r: Locale,
)
    requires
        call_ensures(lconv_to_locale, (decimal_point, thousands_sep, grouping, char_max), r),
        grouping@ == groups + rest,
        forall|k: int|
            0 <= k < groups.len() ==> #[trigger] groups[k] != 0 && groups[k] != char_max,
        rest.len() > 0 ==> rest[0] == 0 || rest[0] == char_max,
        char_max != 0,
    ensures
        r.group_repeat <==> groups.len() < 4 && !(rest.len() > 0 && rest[0] == char_max),
        single_char(c_text(*decimal_point)) is None ==> r.decimal_point == '.',
        single_char(c_text(*decimal_point)) matches Some(c) ==> r.decimal_point == c,
        r.thousands_sep == single_char(c_text(*thousands_sep)),
        forall|k: int| 0 <= k < 4 && k < groups.len() ==> r.grouping@[k] == #[trigger] groups[k],
{
    lemma_group_count_of(groups, rest, char_max);
    let n = groups.len() as int;
    assert(rest.len() > 0 ==> grouping@[n] == rest[0]);
    assert forall|k: int| 0 <= k < 4 && k < groups.len() implies r.grouping@[k]
        == #[trigger] groups[k] by {
        assert(grouping@[k] == groups[k]);
        assert(r.grouping@[k] == group_at(grouping@, char_max, k));
    }
}

} // verus!
