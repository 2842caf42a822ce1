//! The locale names to try for a category.
//!
//! Where the C library honours the POSIX environment, the empty name is enough. The Windows
//! runtime does not: there the POSIX precedence is emulated, and a list of candidate spellings
//! is tried, most specific first.

use crate::locale::names::{country_name, language_name, windows_country, windows_language};
use crate::text::{
    begins_with, chars_of, copy_text, has_prefix, holds, is_text, lower_text, maybe,
    push_text, same_text,
    texts, to_lower_text, to_upper_text, upper_text,
};
use vstd::prelude::*;
use vstd::slice::slice_subrange;

verus! {

/// The contents of a variable, if it is set to something.
pub open spec fn set_value(v: Option<Seq<char>>) -> Option<Seq<char>> {
    match v {
        Some(s) => if s.len() > 0 {
            Some(s)
        } else {
            None
        },
        None => None,
    }
}

/// The value that decides: that of `LC_ALL`, of the category, or of `LANG`.
pub open spec fn deciding(
    lc_all: Option<Seq<char>>,
    category: Option<Seq<char>>,
    lang: Option<Seq<char>>,
) -> Option<Seq<char>> {
    match set_value(lc_all) {
        Some(v) => Some(v),
        None => match set_value(category) {
            Some(v) => Some(v),
            None => set_value(lang),
        },
    }
}

/// Whether a value asks for the C locale.
pub open spec fn is_c_locale(v: Seq<char>) -> bool {
    v == "C"@ || v == "POSIX"@ || has_prefix(v, "C."@) || has_prefix(v, "POSIX."@)
}

/// The part of a text before the first of two characters.
pub open spec fn before_either(s: Seq<char>, a: char, b: char) -> Seq<char>
    decreases s.len(),
{
    if s.len() == 0 || s[0] == a || s[0] == b {
        Seq::empty()
    } else {
        seq![s[0]] + before_either(s.drop_first(), a, b)
    }
}

/// A locale's name without codeset and modifier.
pub open spec fn base_of(value: Seq<char>) -> Seq<char> {
    before_either(value, '.', '@')
}

/// The language code of a locale.
pub open spec fn language_of(base: Seq<char>) -> Seq<char> {
    lower_text(before_either(base, '_', '-'))
}

/// The country code of a locale.
pub open spec fn country_of(base: Seq<char>) -> Seq<char> {
    let first = before_either(base, '_', '-');
    if first.len() < base.len() {
        upper_text(before_either(base.skip(first.len() as int + 1), '_', '-'))
    } else {
        Seq::empty()
    }
}

/// A list of candidates with another one at the end, unless it is empty or already there.
pub open spec fn with_candidate(list: Seq<Seq<char>>, s: Seq<char>) -> Seq<Seq<char>> {
    if s.len() == 0 || list.contains(s) {
        list
    } else {
        list.push(s)
    }
}

/// A text with each underscore replaced by a hyphen.
pub open spec fn hyphenated(s: Seq<char>) -> Seq<char> {
    s.map_values(
        |c: char|
            if c == '_' {
                '-'
            } else {
                c
            },
    )
}

/// The Windows spellings: "Language_Country", and the language alone (the runtime picks that
/// language's default country).
pub open spec fn windows_spellings(language: Seq<char>, country: Seq<char>) -> Seq<Seq<char>> {
    match language_name(language) {
        None => Seq::empty(),
        Some(l) => match country_name(country) {
            Some(c) => with_candidate(with_candidate(Seq::empty(), l + seq!['_'] + c), l),
            None => with_candidate(Seq::empty(), l),
        },
    }
}

/// All spellings of a value, most specific first.
pub open spec fn spellings(value: Seq<char>) -> Seq<Seq<char>> {
    let base = base_of(value);
    let language = language_of(base);
    let country = country_of(base);
    let windows = windows_spellings(language, country);
    let tagged = if country.len() > 0 {
        with_candidate(windows, language + seq!['-'] + country)
    } else {
        windows
    };
    with_candidate(
        with_candidate(with_candidate(with_candidate(tagged, language), hyphenated(base)), base),
        value,
    )
}

/// The texts that can be handed to the C library: those without a NUL.
pub open spec fn without_nul(list: Seq<Seq<char>>) -> Seq<Seq<char>>
    decreases list.len(),
{
    if list.len() == 0 {
        Seq::empty()
    } else if list.last().contains('\0') {
        without_nul(list.drop_last())
    } else {
        without_nul(list.drop_last()).push(list.last())
    }
}

/// The locale names to try, given the values of the variables.
pub open spec fn candidates_for(
    posix: bool,
    lc_all: Option<Seq<char>>,
    category: Option<Seq<char>>,
    lang: Option<Seq<char>>,
) -> Seq<Seq<char>> {
    if posix {
        // setlocale(cat, "") already honours the POSIX environment.
        seq![Seq::<char>::empty()]
    } else {
        match deciding(lc_all, category, lang) {
            None => seq!["C"@],
            Some(v) => if is_c_locale(v) {
                seq!["C"@]
            } else {
                without_nul(spellings(v))
            },
        }
    }
}

/// The index of the first of two characters, or the length.
fn find_either(s: &[char], a: char, b: char) -> (r: usize)
    ensures
        r <= s@.len(),
        s@.take(r as int) == before_either(s@, a, b),
{
    let mut i: usize = 0;
    assert(s@.skip(0) =~= s@);
    assert(s@.take(0) + before_either(s@, a, b) =~= before_either(s@, a, b));
    while i < s.len() && s[i] != a && s[i] != b
        invariant
            i <= s@.len(),
            before_either(s@, a, b) == s@.take(i as int) + before_either(s@.skip(i as int), a, b),
        decreases s@.len() - i,
    {
        let ghost rest = s@.skip(i as int);
        assert(rest.drop_first() =~= s@.skip(i as int + 1));
        assert(s@.take(i as int) + (seq![rest[0]] + before_either(rest.drop_first(), a, b))
            =~= s@.take(i as int + 1) + before_either(s@.skip(i as int + 1), a, b));
        i += 1;
    }
    assert(before_either(s@.skip(i as int), a, b) =~= Seq::<char>::empty());
    assert(s@.take(i as int) + Seq::<char>::empty() =~= s@.take(i as int));
    i
}

/// Whether a list holds a text.
fn list_holds(list: &Vec<Vec<char>>, s: &[char]) -> (r: bool)
    ensures
        r == texts(list@).contains(s@),
{
    let mut i: usize = 0;
    while i < list.len()
        invariant
            i <= list@.len(),
            forall|j: int| 0 <= j < i ==> texts(list@)[j] != s@,
        decreases list@.len() - i,
    {
        if same_text(list[i].as_slice(), s) {
            assert(texts(list@)[i as int] == s@);
            return true;
        }
        i += 1;
    }
    false
}

/// Adds a candidate, unless it is empty or already there.
fn push_candidate(list: &mut Vec<Vec<char>>, s: Vec<char>)
    ensures
        texts(final(list)@) == with_candidate(texts(old(list)@), s@),
{
    let ghost before = texts(list@);
    if s.len() > 0 && !list_holds(list, s.as_slice()) {
        list.push(s);
        assert(texts(list@) =~= before.push(s@));
    }
}

/// Two texts with a character between them.
fn linked(a: &[char], link: char, b: &[char]) -> (r: Vec<char>)
    ensures
        r@ == a@ + seq![link] + b@,
{
    let mut v = copy_text(a);
    v.push(link);
    assert(v@ =~= a@ + seq![link]);
    push_text(&mut v, b);
    v
}

/// A text with each underscore replaced by a hyphen.
fn hyphenate(s: &[char]) -> (r: Vec<char>)
    ensures
        r@ == hyphenated(s@),
{
    let mut out: Vec<char> = Vec::new();
    let mut i: usize = 0;
    assert(out@ =~= hyphenated(s@.take(0)));
    while i < s.len()
        invariant
            i <= s@.len(),
            out@ == hyphenated(s@.take(i as int)),
        decreases s@.len() - i,
    {
        if s[i] == '_' {
            out.push('-');
        } else {
            out.push(s[i]);
        }
        i += 1;
        assert(out@ =~= hyphenated(s@.take(i as int)));
    }
    assert(s@.take(i as int) =~= s@);
    out
}

/// The spellings of a value.
fn spell(value: &[char]) -> (r: Vec<Vec<char>>)
    ensures
        texts(r@) == spellings(value@),
{
    // Strip any ".codeset" / "@modifier" suffix, e.g. "de_DE.UTF-8" -> "de_DE".
    let cut: usize = find_either(value, '.', '@');
    let base = slice_subrange(value, 0, cut);
    assert(base@ =~= base_of(value@));
    let first: usize = find_either(base, '_', '-');
    assert(base@.subrange(0, first as int) =~= base@.take(first as int));
    let language = to_lower_text(slice_subrange(base, 0, first));
    let mut country: Vec<char> = Vec::new();
    assert(country@ =~= Seq::<char>::empty());
    if first < base.len() {
        let rest = slice_subrange(base, first + 1, base.len());
        assert(rest@ =~= base@.skip(first as int + 1));
        let second: usize = find_either(rest, '_', '-');
        assert(rest@.subrange(0, second as int) =~= rest@.take(second as int));
        country = to_upper_text(slice_subrange(rest, 0, second));
    }
    assert(language@ == language_of(base@));
    assert(country@ == country_of(base@));
    let mut list: Vec<Vec<char>> = Vec::new();
    assert(texts(list@) =~= Seq::<Seq<char>>::empty());
    if let Some(l) = windows_language(language.as_slice()) {
        let name = chars_of(l);
        if let Some(c) = windows_country(country.as_slice()) {
            let land = chars_of(c);
            push_candidate(&mut list, linked(name.as_slice(), '_', land.as_slice()));
        }
        push_candidate(&mut list, name);
    }
    assert(texts(list@) == windows_spellings(language@, country@));
    // BCP-47 "ll-CC" / "ll" - accepted by the Universal CRT toolchains.
    if country.len() > 0 {
        push_candidate(&mut list, linked(language.as_slice(), '-', country.as_slice()));
    }
    push_candidate(&mut list, language);
    // Finally the raw POSIX base and the value as it was given, just in case.
    push_candidate(&mut list, hyphenate(base));
    push_candidate(&mut list, copy_text(base));
    push_candidate(&mut list, copy_text(value));
    list
}

/// Removes the texts that hold a NUL.
fn drop_nul(list: Vec<Vec<char>>) -> (r: Vec<Vec<char>>)
    ensures
        texts(r@) == without_nul(texts(list@)),
{
    let ghost all = texts(list@);
    let mut out: Vec<Vec<char>> = Vec::new();
    let mut i: usize = 0;
    assert(texts(out@) =~= without_nul(all.take(0)));
    while i < list.len()
        invariant
            i <= list@.len(),
            all == texts(list@),
            texts(out@) == without_nul(all.take(i as int)),
        decreases list@.len() - i,
    {
        let ghost before = texts(out@);
        let ghost next = all.take(i as int + 1);
        assert(next.drop_last() =~= all.take(i as int));
        assert(next.last() == list@[i as int]@);
        if !holds(list[i].as_slice(), '\0') {
            out.push(copy_text(list[i].as_slice()));
            assert(texts(out@) =~= before.push(next.last()));
        }
        i += 1;
    }
    assert(all.take(i as int) =~= all);
    out
}

/// A list of one text.
fn only(s: Vec<char>) -> (r: Vec<Vec<char>>)
    ensures
        texts(r@) == seq![s@],
{
    let mut list: Vec<Vec<char>> = Vec::new();
    list.push(s);
    assert(texts(list@) =~= seq![s@]);
    list
}

/// The value that decides.
fn decide<'a>(
    lc_all: &'a Option<Vec<char>>,
    category: &'a Option<Vec<char>>,
    lang: &'a Option<Vec<char>>,
) -> (r: Option<&'a Vec<char>>)
    ensures
        deciding(maybe(*lc_all), maybe(*category), maybe(*lang)) == (match r {
            Some(v) => Some(v@),
            None => None,
        }),
{
    if let Some(v) = lc_all {
        if v.len() > 0 {
            return Some(v);
        }
    }
    if let Some(v) = category {
        if v.len() > 0 {
            return Some(v);
        }
    }
    if let Some(v) = lang {
        if v.len() > 0 {
            return Some(v);
        }
    }
    None
}

/// Resolve the ordered list of locale strings to try with libc `setlocale`, given the values of
/// `LC_ALL`, of the category's variable and of `LANG`. `posix` tells whether the C library
/// consults these variables itself.
pub fn locale_candidates(
    posix: bool,
    lc_all: &Option<Vec<char>>,
    category: &Option<Vec<char>>,
    lang: &Option<Vec<char>>,
) -> (r: Vec<Vec<char>>)
    ensures
        texts(r@) == candidates_for(posix, maybe(*lc_all), maybe(*category), maybe(*lang)),
{
    if posix {
        let none: Vec<char> = Vec::new();
        assert(none@ =~= Seq::<char>::empty());
        return only(none);
    }
    let value = match decide(lc_all, category, lang) {
        // No POSIX locale variables set: use the "C" locale, which guarantees '.' as the
        // decimal separator.
        None => {
            return only(chars_of("C"));
        },
        Some(v) => v.as_slice(),
    };
    let c_dot = chars_of("C.");
    let posix_dot = chars_of("POSIX.");
    if is_text(value, "C") || is_text(value, "POSIX") || begins_with(value, c_dot.as_slice())
        || begins_with(value, posix_dot.as_slice()) {
        return only(chars_of("C"));
    }
    drop_nul(spell(value))
}

/// The index of the first candidate that the C library accepted.
pub open spec fn first_true(answers: Seq<bool>) -> Option<int>
    decreases answers.len(),
{
    if answers.len() == 0 {
        None
    } else if answers[0] {
        Some(0)
    } else {
        match first_true(answers.drop_first()) {
            Some(i) => Some(i + 1),
            None => None,
        }
    }
}

/// The first candidate that the C library accepted wins.
pub fn first_accepted(answers: &[bool]) -> (r: Option<usize>)
    ensures
        first_true(answers@) == (match r {
            Some(i) => Some(i as int),
            None => None,
        }),
{
    let mut i: usize = 0;
    assert(answers@.skip(0) =~= answers@);
    while i < answers.len()
        invariant
            i <= answers@.len(),
            first_true(answers@) == (match first_true(answers@.skip(i as int)) {
                Some(k) => Some(k + i),
                None => None,
            }),
        decreases answers@.len() - i,
    {
        if answers[i] {
            return Some(i);
        }
        assert(answers@.skip(i as int).drop_first() =~= answers@.skip(i as int + 1));
        i += 1;
    }
    None
}

/// Whether the locales of all categories (messages, numbers, times) were set, given which of
/// each one's candidates the C library accepted.
pub fn set_libc_locales(messages: &[bool], numeric: &[bool], time: &[bool]) -> (r: bool)
    ensures
        r == (first_true(messages@) is Some && first_true(numeric@) is Some && first_true(
            time@,
        ) is Some),
{
    let m: bool = first_accepted(messages).is_some();
    let n: bool = first_accepted(numeric).is_some();
    let t: bool = first_accepted(time).is_some();
    m && n && t
}

/// The candidate that wins was accepted, and none before it was.
pub proof fn law_first_accepted_wins(answers: Seq<bool>)
    ensures
        match first_true(answers) {
            Some(i) => 0 <= i < answers.len() && answers[i] && forall|k: int|
                0 <= k < i ==> !answers[k],
            None => forall|k: int| 0 <= k < answers.len() ==> !answers[k],
        },
    decreases answers.len(),
{
    if answers.len() > 0 && !answers[0] {
        let rest = answers.drop_first();
        law_first_accepted_wins(rest);
        assert forall|k: int| 0 < k < answers.len() implies answers[k] == #[trigger] rest[k - 1] by {
        }
        match first_true(rest) {
            Some(i) => {
                assert(answers[i + 1] == rest[i]);
                assert forall|k: int| 0 <= k < i + 1 implies !answers[k] by {
                    if k > 0 {
                        assert(!rest[k - 1]);
                    }
                }
            },
            None => {
                assert forall|k: int| 0 <= k < answers.len() implies !answers[k] by {
                    if k > 0 {
                        assert(!rest[k - 1]);
                    }
                }
            },
        }
    }
}

/// `LC_ALL` wins over the category, and the category over `LANG`; a variable that is empty counts
/// as not set.
pub proof fn law_precedence(
    value: Seq<char>,
    lc_all: Option<Seq<char>>,
    category: Option<Seq<char>>,
    lang: Option<Seq<char>>,
)
    requires
        value.len() > 0,
    ensures
        deciding(Some(value), category, lang) == Some(value),
        set_value(lc_all) is None ==> deciding(lc_all, Some(value), lang) == Some(value),
        set_value(lc_all) is None && set_value(category) is None ==> deciding(
            lc_all,
            category,
            Some(value),
        ) == Some(value),
{
}

/// Whether a list holds neither an empty text nor any text twice.
pub open spec fn is_proper(list: Seq<Seq<char>>) -> bool {
    &&& list.no_duplicates()
    &&& forall|i: int| 0 <= i < list.len() ==> (#[trigger] list[i]).len() > 0
}

proof fn lemma_with_candidate(list: Seq<Seq<char>>, s: Seq<char>)
    requires
        is_proper(list),
    ensures
        is_proper(with_candidate(list, s)),
        s.len() > 0 ==> with_candidate(list, s).contains(s),
{
    let longer = with_candidate(list, s);
    if s.len() > 0 && !list.contains(s) {
        assert(longer[list.len() as int] == s);
        assert forall|i: int, j: int|
            0 <= i < longer.len() && 0 <= j < longer.len() && i != j implies longer[i]
            != longer[j] by {
            if i == list.len() {
                assert(list.contains(list[j]));
            } else if j == list.len() {
                assert(list.contains(list[i]));
            }
        }
    }
}

proof fn lemma_push_contains(list: Seq<Seq<char>>, last: Seq<char>, s: Seq<char>)
    ensures
        list.push(last).contains(s) <==> list.contains(s) || s == last,
{
    let longer = list.push(last);
    if list.contains(s) {
        let k = choose|k: int| 0 <= k < list.len() && list[k] == s;
        assert(longer[k] == s);
    }
    assert(longer[list.len() as int] == last);
    if longer.contains(s) && s != last {
        let k = choose|k: int| 0 <= k < longer.len() && longer[k] == s;
        assert(list[k] == s);
    }
}

proof fn lemma_without_nul(list: Seq<Seq<char>>)
    requires
        is_proper(list),
    ensures
        is_proper(without_nul(list)),
        forall|s: Seq<char>|
            #[trigger] without_nul(list).contains(s) <==> list.contains(s) && !s.contains('\0'),
    decreases list.len(),
{
    if list.len() > 0 {
        let front = list.drop_last();
        let kept = without_nul(front);
        let last = list.last();
        assert(is_proper(front)) by {
            assert forall|i: int, j: int|
                0 <= i < front.len() && 0 <= j < front.len() && i != j implies front[i]
                != front[j] by {
                assert(list[i] != list[j]);
            }
        }
        lemma_without_nul(front);
        assert(!front.contains(last)) by {
            if front.contains(last) {
                let k = choose|k: int| 0 <= k < front.len() && front[k] == last;
                assert(list[k] == list[list.len() - 1]);
            }
        }
        let out = without_nul(list);
        assert forall|s: Seq<char>| #[trigger]
            out.contains(s) <==> list.contains(s) && !s.contains('\0') by {
            lemma_push_contains(front, last, s);
            lemma_push_contains(kept, last, s);
            assert(front.push(last) =~= list);
            assert(kept.contains(s) <==> front.contains(s) && !s.contains('\0'));
        }
        if !last.contains('\0') {
            assert(!kept.contains(last));
            assert forall|i: int, j: int|
                0 <= i < out.len() && 0 <= j < out.len() && i != j implies out[i] != out[j] by {
                if i == kept.len() {
                    assert(kept.contains(kept[j]));
                } else if j == kept.len() {
                    assert(kept.contains(kept[i]));
                }
            }
            assert(list[list.len() - 1].len() > 0);
        }
    }
}

/// The candidates for a value are distinct and not empty, and the value itself is among them
/// (unless it holds a NUL).
pub proof fn law_candidates_are_proper(value: Seq<char>)
    requires
        value.len() > 0,
    ensures
        is_proper(without_nul(spellings(value))),
        !value.contains('\0') ==> without_nul(spellings(value)).contains(value),
{
    let base = base_of(value);
    let language = language_of(base);
    let country = country_of(base);
    let none = Seq::<Seq<char>>::empty();
    assert(is_proper(none));
    if let Some(l) = language_name(language) {
        if let Some(c) = country_name(country) {
            lemma_with_candidate(none, l + seq!['_'] + c);
            lemma_with_candidate(with_candidate(none, l + seq!['_'] + c), l);
        }
        lemma_with_candidate(none, l);
    }
    let windows = windows_spellings(language, country);
    lemma_with_candidate(windows, language + seq!['-'] + country);
    let tagged = if country.len() > 0 {
        with_candidate(windows, language + seq!['-'] + country)
    } else {
        windows
    };
    lemma_with_candidate(tagged, language);
    let a = with_candidate(tagged, language);
    lemma_with_candidate(a, hyphenated(base));
    let b = with_candidate(a, hyphenated(base));
    lemma_with_candidate(b, base);
    lemma_with_candidate(with_candidate(b, base), value);
    lemma_without_nul(spellings(value));
}

/// Without a value, or with one that asks for it, the C locale is the only candidate.
pub proof fn law_c_locale_is_the_default(
    lc_all: Option<Seq<char>>,
    category: Option<Seq<char>>,
    lang: Option<Seq<char>>,
)
    requires
        deciding(lc_all, category, lang) matches Some(value) ==> is_c_locale(value),
    ensures
        candidates_for(false, lc_all, category, lang) == seq!["C"@],
{
}

proof fn lemma_before_either(front: Seq<char>, rest: Seq<char>, a: char, b: char)
    requires
        !front.contains(a),
        !front.contains(b),
        rest.len() > 0 ==> rest[0] == a || rest[0] == b,
    ensures
        before_either(front + rest, a, b) == front,
    decreases front.len(),
{
    let s = front + rest;
    if front.len() > 0 {
        let later = front.drop_first();
        assert(front.contains(front[0]));
        assert(s[0] == front[0]);
        assert(forall|i: int| 0 <= i < later.len() ==> front.contains(#[trigger] later[i])) by {
            assert forall|i: int| 0 <= i < later.len() implies front.contains(
                #[trigger] later[i],
            ) by {
                assert(front[i + 1] == later[i]);
            }
        }
        lemma_before_either(later, rest, a, b);
        assert(s.drop_first() =~= later + rest);
        assert(seq![front[0]] + later =~= front);
    } else {
        assert(s =~= rest);
    }
}

/// Whether a text holds none of the characters that divide the name of a locale.
pub open spec fn is_undivided(s: Seq<char>) -> bool {
    !s.contains('_') && !s.contains('-') && !s.contains('.') && !s.contains('@')
}

/// The parts of the name of a locale: the language, the country behind `_` or `-`, and what
/// follows `.` or `@`, which is no part of its base.
pub proof fn law_parts_of_locale(
    language: Seq<char>,
    link: char,
    country: Seq<char>,
    rest: Seq<char>,
)
    requires
        is_undivided(language),
        is_undivided(country),
        link == '_' || link == '-',
        rest.len() > 0 ==> rest[0] == '.' || rest[0] == '@',
    ensures
        base_of(language + seq![link] + country + rest) == language + seq![link] + country,
        language_of(language + seq![link] + country) == lower_text(language),
        country_of(language + seq![link] + country) == upper_text(country),
        base_of(language + rest) == language,
        language_of(language) == lower_text(language),
        country_of(language) == Seq::<char>::empty(),
{
    let base = language + seq![link] + country;
    let none = Seq::<char>::empty();
    assert forall|i: int| 0 <= i < base.len() implies base[i] != '.' && base[i] != '@' by {
        if i < language.len() {
            assert(language.contains(language[i]));
            assert(base[i] == language[i]);
        } else if i > language.len() {
            assert(country.contains(country[i - language.len() - 1]));
            assert(base[i] == country[i - language.len() - 1]);
        } else {
            assert(base[i] == link);
        }
    }
    lemma_before_either(base, rest, '.', '@');
    let tail = seq![link] + country;
    assert(base =~= language + tail);
    assert(tail[0] == link);
    lemma_before_either(language, tail, '_', '-');
    assert(base.skip(language.len() as int + 1) =~= country + none);
    lemma_before_either(country, none, '_', '-');
    lemma_before_either(language, rest, '.', '@');
    lemma_before_either(language, none, '_', '-');
    assert(language + none =~= language);
}

proof fn lemma_candidate(list: Seq<Seq<char>>, s: Seq<char>)
    ensures
        s.len() > 0 ==> with_candidate(list, s).contains(s),
        forall|t: Seq<char>|
            #[trigger] with_candidate(list, s).contains(t) ==> list.contains(t) || t == s,
        forall|t: Seq<char>| list.contains(t) ==> #[trigger] with_candidate(list, s).contains(t),
{
    assert(s.len() > 0 && !list.contains(s) ==> list.push(s).last() == s);
    assert(list.push(s)[list.len() as int] == s);
    assert forall|t: Seq<char>| #[trigger] with_candidate(list, s).contains(t) implies list.contains(
        t,
    ) || t == s by {
        lemma_push_contains(list, s, t);
    }
    assert forall|t: Seq<char>| list.contains(t) implies #[trigger] with_candidate(
        list,
        s,
    ).contains(t) by {
        lemma_push_contains(list, s, t);
    }
}

/// What is tried for a locale with a language and a country: the language and country with a
/// hyphen, the language, the base as it is written and with hyphens, and the whole value; besides
/// those only the full names of the language and the country.
pub proof fn law_spellings(language: Seq<char>, country: Seq<char>, rest: Seq<char>)
    requires
        is_undivided(language),
        is_undivided(country),
        language.len() > 0,
        country.len() > 0,
        rest.len() > 0 ==> rest[0] == '.' || rest[0] == '@',
    ensures
        ({
            let base = language + seq!['_'] + country;
            let value = base + rest;
            let all = spellings(value);
            let l = lower_text(language);
            let c = upper_text(country);
            &&& all.contains(l + seq!['-'] + c)
            &&& all.contains(l)
            &&& all.contains(language + seq!['-'] + country)
            &&& all.contains(base)
            &&& all.contains(value)
            &&& language_name(l) matches Some(name) ==> all.contains(name) && (country_name(c)
                matches Some(place) ==> all.contains(name + seq!['_'] + place))
            &&& forall|t: Seq<char>| #[trigger]
                all.contains(t) ==> t == l + seq!['-'] + c || t == l || t == language + seq!['-']
                    + country || t == base || t == value || language_name(l) == Some(t) || (
                language_name(l) is Some && country_name(c) is Some && t == language_name(l)->0
                    + seq!['_'] + country_name(c)->0)
        }),
{
    law_parts_of_locale(language, '_', country, rest);
    let base = language + seq!['_'] + country;
    let value = base + rest;
    let l = lower_text(language);
    let c = upper_text(country);
    let none = Seq::<Seq<char>>::empty();
    let plain = language + seq!['-'] + country;
    assert(hyphenated(base) =~= plain) by {
        assert forall|i: int| 0 <= i < base.len() implies hyphenated(base)[i] == plain[i] by {
            if i < language.len() {
                assert(language.contains(language[i]));
            } else if i > language.len() {
                assert(country.contains(country[i - language.len() - 1]));
            }
        }
    }
    let windows = windows_spellings(l, c);
    match language_name(l) {
        Some(name) => {
            lemma_names_are_long(l, c);
            lemma_candidate(none, name);
            match country_name(c) {
                Some(place) => {
                    lemma_candidate(none, name + seq!['_'] + place);
                    lemma_candidate(with_candidate(none, name + seq!['_'] + place), name);
                },
                None => {},
            }
        },
        None => {},
    }
    let tag = l + seq!['-'] + c;
    let a = with_candidate(windows, tag);
    let b = with_candidate(a, l);
    let d = with_candidate(b, plain);
    let e = with_candidate(d, base);
    lemma_candidate(windows, tag);
    lemma_candidate(a, l);
    lemma_candidate(b, plain);
    lemma_candidate(d, base);
    lemma_candidate(e, value);
    assert(spellings(value) == with_candidate(e, value));
}

/// The posix environment is left to the system; an unset or C locale is the C locale.
pub proof fn law_candidates_follow_the_value(
    posix: bool,
    value: Seq<char>,
    lc_all: Option<Seq<char>>,
    category: Option<Seq<char>>,
    lang: Option<Seq<char>>,
)
    requires
        deciding(lc_all, category, lang) == Some(value),
        !is_c_locale(value),
        !value.contains('\0'),
        value.len() > 0,
    ensures
        candidates_for(true, lc_all, category, lang) == seq![Seq::<char>::empty()],
        candidates_for(false, lc_all, category, lang).contains(value),
        forall|t: Seq<char>| #[trigger]
            candidates_for(false, lc_all, category, lang).contains(t) <==> spellings(
                value,
            ).contains(t) && !t.contains('\0'),
{
    law_candidates_are_proper(value);
    lemma_only_without_nul(spellings(value));
}

proof fn lemma_only_without_nul(list: Seq<Seq<char>>)
    ensures
        forall|s: Seq<char>|
            #[trigger] without_nul(list).contains(s) <==> list.contains(s) && !s.contains('\0'),
    decreases list.len(),
{
    if list.len() > 0 {
        let front = list.drop_last();
        lemma_only_without_nul(front);
        assert forall|s: Seq<char>| #[trigger] without_nul(list).contains(s) <==> list.contains(s)
            && !s.contains('\0') by {
            lemma_push_contains(front, list.last(), s);
            assert(front.push(list.last()) =~= list);
            lemma_push_contains(without_nul(front), list.last(), s);
        }
    }
}

/// No full name of a language is empty.
proof fn lemma_names_are_long(l: Seq<char>, c: Seq<char>)
    ensures
        language_name(l) matches Some(name) ==> name.len() > 0,
{
    reveal_strlit("Afrikaans");
    reveal_strlit("Albanian");
    reveal_strlit("Arabic");
    reveal_strlit("Armenian");
    reveal_strlit("Basque");
    reveal_strlit("Belarusian");
    reveal_strlit("Bulgarian");
    reveal_strlit("Catalan");
    reveal_strlit("Chinese");
    reveal_strlit("Croatian");
    reveal_strlit("Czech");
    reveal_strlit("Danish");
    reveal_strlit("Dutch");
    reveal_strlit("English");
    reveal_strlit("Estonian");
    reveal_strlit("Faroese");
    reveal_strlit("Finnish");
    reveal_strlit("French");
    reveal_strlit("Galician");
    reveal_strlit("Georgian");
    reveal_strlit("German");
    reveal_strlit("Greek");
    reveal_strlit("Hebrew");
    reveal_strlit("Hindi");
    reveal_strlit("Hungarian");
    reveal_strlit("Icelandic");
    reveal_strlit("Indonesian");
    reveal_strlit("Italian");
    reveal_strlit("Japanese");
    reveal_strlit("Kazakh");
    reveal_strlit("Korean");
    reveal_strlit("Latvian");
    reveal_strlit("Lithuanian");
    reveal_strlit("Macedonian");
    reveal_strlit("Malay");
    reveal_strlit("Maltese");
    reveal_strlit("Norwegian");
    reveal_strlit("Persian");
    reveal_strlit("Polish");
    reveal_strlit("Portuguese");
    reveal_strlit("Romanian");
    reveal_strlit("Russian");
    reveal_strlit("Serbian");
    reveal_strlit("Slovak");
    reveal_strlit("Slovenian");
    reveal_strlit("Spanish");
    reveal_strlit("Swedish");
    reveal_strlit("Thai");
    reveal_strlit("Turkish");
    reveal_strlit("Ukrainian");
    reveal_strlit("Vietnamese");
}

/// A list without empty texts, each text where it stands first.
pub open spec fn firsts(list: Seq<Seq<char>>) -> Seq<Seq<char>>
    decreases list.len(),
{
    if list.len() == 0 {
        Seq::empty()
    } else {
        let before = firsts(list.drop_last());
        if list.last().len() == 0 || before.contains(list.last()) {
            before
        } else {
            before.push(list.last())
        }
    }
}

/// The order in which the spellings of a language and a country are tried, from the full names
/// to the value as it is written.
pub proof fn law_order_of_spellings(language: Seq<char>, country: Seq<char>, rest: Seq<char>)
    requires
        is_undivided(language),
        is_undivided(country),
        language.len() > 0,
        country.len() > 0,
        rest.len() > 0 ==> rest[0] == '.' || rest[0] == '@',
    ensures
        ({
            let base = language + seq!['_'] + country;
            let l = lower_text(language);
            let c = upper_text(country);
            let own = seq![l + seq!['-'] + c, l, language + seq!['-'] + country, base, base + rest];
            spellings(base + rest) == firsts(
                (match (language_name(l), country_name(c)) {
                    (Some(name), Some(place)) => seq![name + seq!['_'] + place, name],
                    (Some(name), None) => seq![name],
                    (None, _) => Seq::<Seq<char>>::empty(),
                }) + own,
            )
        }),
{
    law_parts_of_locale(language, '_', country, rest);
    let base = language + seq!['_'] + country;
    let value = base + rest;
    let l = lower_text(language);
    let c = upper_text(country);
    let plain = language + seq!['-'] + country;
    let tag = l + seq!['-'] + c;
    assert(hyphenated(base) =~= plain) by {
        assert forall|i: int| 0 <= i < base.len() implies hyphenated(base)[i] == plain[i] by {
            if i < language.len() {
                assert(language.contains(language[i]));
            } else if i > language.len() {
                assert(country.contains(country[i - language.len() - 1]));
            }
        }
    }
    let none = Seq::<Seq<char>>::empty();
    let named = match (language_name(l), country_name(c)) {
        (Some(name), Some(place)) => seq![name + seq!['_'] + place, name],
        (Some(name), None) => seq![name],
        (None, _) => none,
    };
    assert(firsts(none) == none);
    match (language_name(l), country_name(c)) {
        (Some(name), Some(place)) => {
            let full = name + seq!['_'] + place;
            lemma_firsts_push(none, full);
            assert(none.push(full) =~= seq![full]);
            lemma_firsts_push(seq![full], name);
            assert(seq![full].push(name) =~= named);
        },
        (Some(name), None) => {
            lemma_firsts_push(none, name);
            assert(none.push(name) =~= named);
        },
        (None, _) => {},
    }
    assert(firsts(named) == windows_spellings(l, c));
    let own = seq![tag, l, plain, base, value];
    let a = named.push(tag);
    let b = a.push(l);
    let d = b.push(plain);
    let e = d.push(base);
    lemma_firsts_push(named, tag);
    lemma_firsts_push(a, l);
    lemma_firsts_push(b, plain);
    lemma_firsts_push(d, base);
    lemma_firsts_push(e, value);
    assert(e.push(value) =~= named + own);
}

proof fn lemma_firsts_push(list: Seq<Seq<char>>, s: Seq<char>)
    ensures
        firsts(list.push(s)) == with_candidate(firsts(list), s),
{
    assert(list.push(s).drop_last() =~= list);
}

/// The C locale is named `C` or `POSIX`, with or without an encoding behind a point.
pub proof fn law_c_locales(v: Seq<char>, rest: Seq<char>)
    ensures
        is_c_locale("C"@),
        is_c_locale("POSIX"@),
        is_c_locale("C."@ + rest),
        is_c_locale("POSIX."@ + rest),
        is_c_locale(v) ==> v == "C"@ || v == "POSIX"@ || (v.len() >= 2 && v.take(2) == "C."@) || (
        v.len() >= 6 && v.take(6) == "POSIX."@),
{
    reveal_strlit("C.");
    reveal_strlit("POSIX.");
    let a = "C."@ + rest;
    let b = "POSIX."@ + rest;
    assert("C."@.len() == 2 && "POSIX."@.len() == 6);
    assert(a.take(2) =~= "C."@);
    assert(b.take(6) =~= "POSIX."@);
}

/// A variable that is set to nothing counts as one that is not set.
pub proof fn law_empty_is_unset(
    lc_all: Option<Seq<char>>,
    category: Option<Seq<char>>,
    lang: Option<Seq<char>>,
)
    ensures
        ({
            let empty = Some(Seq::<char>::empty());
            &&& deciding(empty, category, lang) == deciding(None, category, lang)
            &&& deciding(lc_all, empty, lang) == deciding(lc_all, None, lang)
            &&& deciding(lc_all, category, empty) == deciding(lc_all, category, None)
            &&& deciding(empty, empty, empty) is None
            &&& deciding(None, None, None) is None
        }),
{
}

} // verus!
