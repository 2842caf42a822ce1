//! Text as sequences of characters: comparison, splitting, joining, trimming and
//! ASCII case mapping.

use vstd::prelude::*;

verus! {

/// The contents of a list of texts.
pub open spec fn texts(v: Seq<Vec<char>>) -> Seq<Seq<char>> {
    Seq::new(v.len(), |i: int| v[i]@)
}

/// The contents of a text that may be absent.
pub open spec fn maybe(v: Option<Vec<char>>) -> Option<Seq<char>> {
    match v {
        Some(s) => Some(s@),
        None => None,
    }
}

/// The pieces of `s` between occurrences of `sep`; there is always at least one piece.
pub open spec fn split(s: Seq<char>, sep: char) -> Seq<Seq<char>>
    decreases s.len(),
{
    if s.len() == 0 {
        seq![Seq::<char>::empty()]
    } else {
        let before = split(s.drop_last(), sep);
        if s.last() == sep {
            before.push(Seq::<char>::empty())
        } else {
            before.drop_last().push(before.last().push(s.last()))
        }
    }
}

/// The stretches of `s` without white space.
pub open spec fn words(s: Seq<char>) -> Seq<Seq<char>>
    decreases s.len(),
{
    if s.len() == 0 {
        Seq::empty()
    } else {
        let before = words(s.drop_last());
        if is_white_space(s.last()) {
            before
        } else if s.len() == 1 || is_white_space(s[s.len() - 2]) {
            before.push(seq![s.last()])
        } else {
            before.drop_last().push(before.last().push(s.last()))
        }
    }
}

/// The pieces written one after the other with `sep` between neighbours.
pub open spec fn join(pieces: Seq<Seq<char>>, sep: Seq<char>) -> Seq<char>
    decreases pieces.len(),
{
    if pieces.len() == 0 {
        Seq::empty()
    } else if pieces.len() == 1 {
        pieces[0]
    } else {
        join(pieces.drop_last(), sep) + sep + pieces.last()
    }
}

/// The index of the first `c` in `s`, or the length of `s` if there is none.
pub open spec fn first_index(s: Seq<char>, c: char) -> int
    decreases s.len(),
{
    if s.len() == 0 || s[0] == c {
        0
    } else {
        1 + first_index(s.drop_first(), c)
    }
}

/// The index of the last `c` in `s`, or -1 if there is none.
pub open spec fn last_index(s: Seq<char>, c: char) -> int
    decreases s.len(),
{
    if s.len() == 0 {
        -1
    } else if s.last() == c {
        s.len() - 1
    } else {
        last_index(s.drop_last(), c)
    }
}

/// Whether `s` begins with `prefix`.
pub open spec fn has_prefix(s: Seq<char>, prefix: Seq<char>) -> bool {
    s.len() >= prefix.len() && s.take(prefix.len() as int) == prefix
}

/// Whether `s` ends with `suffix`.
pub open spec fn has_suffix(s: Seq<char>, suffix: Seq<char>) -> bool {
    s.len() >= suffix.len() && s.skip(s.len() - suffix.len()) == suffix
}

/// The Unicode `White_Space` property.
pub open spec fn is_white_space(c: char) -> bool {
    let n = c as int;
    ||| 0x09 <= n <= 0x0d
    ||| n == 0x20
    ||| n == 0x85
    ||| n == 0xa0
    ||| n == 0x1680
    ||| 0x2000 <= n <= 0x200a
    ||| n == 0x2028
    ||| n == 0x2029
    ||| n == 0x202f
    ||| n == 0x205f
    ||| n == 0x3000
}

/// `s` without its leading white space.
pub open spec fn trim_start(s: Seq<char>) -> Seq<char>
    decreases s.len(),
{
    if s.len() > 0 && is_white_space(s[0]) {
        trim_start(s.drop_first())
    } else {
        s
    }
}

/// `s` without its trailing white space.
pub open spec fn trim_end(s: Seq<char>) -> Seq<char>
    decreases s.len(),
{
    if s.len() > 0 && is_white_space(s.last()) {
        trim_end(s.drop_last())
    } else {
        s
    }
}

/// `s` without white space at either end.
pub open spec fn trimmed(s: Seq<char>) -> Seq<char> {
    trim_end(trim_start(s))
}

/// An ASCII lower case letter becomes its upper case letter; any other character stays.
pub open spec fn ascii_upper(c: char) -> char {
    if 'a' <= c <= 'z' {
        ((c as int - 32) as u8) as char
    } else {
        c
    }
}

/// An ASCII upper case letter becomes its lower case letter; any other character stays.
pub open spec fn ascii_lower(c: char) -> char {
    if 'A' <= c <= 'Z' {
        ((c as int + 32) as u8) as char
    } else {
        c
    }
}

/// `s` with every ASCII lower case letter in upper case.
pub open spec fn upper_text(s: Seq<char>) -> Seq<char> {
    s.map_values(|c: char| ascii_upper(c))
}

/// `s` with every ASCII upper case letter in lower case.
pub open spec fn lower_text(s: Seq<char>) -> Seq<char> {
    s.map_values(|c: char| ascii_lower(c))
}

/// Whether two texts agree up to the case of ASCII letters.
pub open spec fn same_ignoring_case(a: Seq<char>, b: Seq<char>) -> bool {
    lower_text(a) == lower_text(b)
}

/// The bytes that a character takes in UTF-8.
pub open spec fn char_width(c: char) -> nat {
    let n = c as int;
    if n < 0x80 {
        1
    } else if n < 0x800 {
        2
    } else if n < 0x10000 {
        3
    } else {
        4
    }
}

/// The bytes that a text takes in UTF-8.
pub open spec fn byte_len(s: Seq<char>) -> nat
    decreases s.len(),
{
    if s.len() == 0 {
        0
    } else {
        byte_len(s.drop_last()) + char_width(s.last())
    }
}

/// `n` copies of `c`.
pub open spec fn repeated(c: char, n: nat) -> Seq<char> {
    Seq::new(n, |i: int| c)
}

/// The characters of a string.
pub fn chars_of(s: &str) -> (r: Vec<char>)
    ensures
        r@ == s@,
{
    let mut out: Vec<char> = Vec::new();
    for c in it: s.chars()
        invariant
            out@ == it.seq().take(it.index() as int),
            it.seq() == s@,
    {
        out.push(c);
    }
    out
}

/// Whether two texts are equal.
pub fn same_text(a: &[char], b: &[char]) -> (r: bool)
    ensures
        r == (a@ == b@),
{
    if a.len() != b.len() {
        return false;
    }
    let mut i: usize = 0;
    while i < a.len()
        invariant
            a@.len() == b@.len(),
            i <= a@.len(),
            forall|j: int| 0 <= j < i ==> a@[j] == b@[j],
        decreases a@.len() - i,
    {
        if a[i] != b[i] {
            return false;
        }
        i += 1;
    }
    assert(a@ =~= b@);
    true
}

/// Whether a text is the given string.
pub fn is_text(a: &[char], b: &str) -> (r: bool)
    ensures
        r == (a@ == b@),
{
    let v = chars_of(b);
    same_text(a, v.as_slice())
}

/// A copy of a text.
pub fn copy_text(s: &[char]) -> (r: Vec<char>)
    ensures
        r@ == s@,
{
    vstd::slice::slice_to_vec(s)
}

/// Appends `more` to `out`.
pub fn push_text(out: &mut Vec<char>, more: &[char])
    ensures
        final(out)@ == old(out)@ + more@,
{
    let ghost before = out@;
    let mut i: usize = 0;
    while i < more.len()
        invariant
            i <= more@.len(),
            out@ == before + more@.take(i as int),
        decreases more@.len() - i,
    {
        out.push(more[i]);
        i += 1;
        assert(out@ =~= before + more@.take(i as int));
    }
    assert(more@.take(i as int) =~= more@);
}

/// Appends the characters of `more` to `out`.
pub fn push_str(out: &mut Vec<char>, more: &str)
    ensures
        final(out)@ == old(out)@ + more@,
{
    let v = chars_of(more);
    push_text(out, v.as_slice());
}

/// Splits a text at each `sep`.
pub fn split_text(s: &[char], sep: char) -> (r: Vec<Vec<char>>)
    ensures
        texts(r@) == split(s@, sep),
{
    let mut done: Vec<Vec<char>> = Vec::new();
    let mut current: Vec<char> = Vec::new();
    let mut i: usize = 0;
    assert(s@.take(0) =~= Seq::<char>::empty());
    assert(texts(done@).push(current@) =~= split(s@.take(0), sep));
    while i < s.len()
        invariant
            i <= s@.len(),
            texts(done@).push(current@) == split(s@.take(i as int), sep),
        decreases s@.len() - i,
    {
        let ghost earlier = s@.take(i as int);
        let ghost whole = s@.take(i as int + 1);
        assert(whole.drop_last() =~= earlier);
        assert(whole.last() == s@[i as int]);
        let ghost done_before = texts(done@);
        let ghost current_before = current@;
        assert(split(earlier, sep).drop_last() =~= done_before);
        assert(split(earlier, sep).last() == current_before);
        if s[i] == sep {
            done.push(current);
            current = Vec::new();
            assert(texts(done@) =~= done_before.push(current_before));
            assert(current@ =~= Seq::<char>::empty());
        } else {
            current.push(s[i]);
        }
        i += 1;
    }
    assert(s@.take(i as int) =~= s@);
    let ghost done_before = texts(done@);
    let ghost current_before = current@;
    done.push(current);
    assert(texts(done@) =~= done_before.push(current_before));
    done
}

/// Splits a text into words.
pub fn split_words(s: &[char]) -> (r: Vec<Vec<char>>)
    ensures
        texts(r@) == words(s@),
{
    let mut done: Vec<Vec<char>> = Vec::new();
    let mut current: Vec<char> = Vec::new();
    let mut i: usize = 0;
    assert(texts(done@) =~= words(s@.take(0)));
    while i < s.len()
        invariant
            i <= s@.len(),
            current@.len() > 0 <==> i > 0 && !is_white_space(s@[i - 1]),
            words(s@.take(i as int)) == if current@.len() > 0 {
                texts(done@).push(current@)
            } else {
                texts(done@)
            },
        decreases s@.len() - i,
    {
        let ghost whole = s@.take(i as int + 1);
        assert(whole.drop_last() =~= s@.take(i as int));
        assert(whole.last() == s@[i as int]);
        assert(i > 0 ==> whole[whole.len() - 2] == s@[i - 1]);
        let ghost done_before = texts(done@);
        let ghost current_before = current@;
        if char_is_white_space(s[i]) {
            if current.len() > 0 {
                done.push(current);
                current = Vec::new();
                assert(texts(done@) =~= done_before.push(current_before));
            }
            assert(current@.len() == 0);
        } else {
            current.push(s[i]);
            assert(done_before.push(current_before).drop_last() =~= done_before);
            assert(current_before.len() == 0 ==> current@ =~= seq![s@[i as int]]);
        }
        i += 1;
    }
    assert(s@.take(i as int) =~= s@);
    let ghost done_before = texts(done@);
    let ghost current_before = current@;
    if current.len() > 0 {
        done.push(current);
        assert(texts(done@) =~= done_before.push(current_before));
    }
    done
}

/// Joins pieces with `sep` between neighbours.
pub fn join_texts(pieces: &[Vec<char>], sep: &[char]) -> (r: Vec<char>)
    ensures
        r@ == join(texts(pieces@), sep@),
{
    let mut out: Vec<char> = Vec::new();
    let ghost all = texts(pieces@);
    let mut i: usize = 0;
    while i < pieces.len()
        invariant
            i <= pieces@.len(),
            all == texts(pieces@),
            out@ == join(all.take(i as int), sep@),
        decreases pieces@.len() - i,
    {
        let ghost next = all.take(i as int + 1);
        assert(next.drop_last() =~= all.take(i as int));
        assert(next.last() == pieces@[i as int]@);
        if i > 0 {
            push_text(&mut out, sep);
        }
        push_text(&mut out, pieces[i].as_slice());
        i += 1;
        assert(out@ =~= join(all.take(i as int), sep@));
    }
    assert(all.take(i as int) =~= all);
    out
}

/// The index of the first `c`, or the length if there is none.
pub fn find_first(s: &[char], c: char) -> (r: usize)
    ensures
        r == first_index(s@, c),
        r <= s@.len(),
{
    let mut i: usize = 0;
    assert(s@.skip(0) =~= s@);
    while i < s.len()
        invariant
            i <= s@.len(),
            first_index(s@, c) == i + first_index(s@.skip(i as int), c),
        decreases s@.len() - i,
    {
        if s[i] == c {
            return i;
        }
        assert(s@.skip(i as int).drop_first() =~= s@.skip(i as int + 1));
        i += 1;
    }
    i
}

/// The index just past the last `c`, or 0 if there is none.
pub fn find_last_end(s: &[char], c: char) -> (r: usize)
    ensures
        r == last_index(s@, c) + 1,
        r <= s@.len(),
{
    let mut i: usize = s.len();
    assert(s@.take(i as int) =~= s@);
    while i > 0
        invariant
            i <= s@.len(),
            last_index(s@, c) == last_index(s@.take(i as int), c),
        decreases i,
    {
        if s[i - 1] == c {
            return i;
        }
        assert(s@.take(i as int).drop_last() =~= s@.take(i as int - 1));
        i -= 1;
    }
    0
}

/// Whether a text holds a character.
pub fn holds(s: &[char], c: char) -> (r: bool)
    ensures
        r == s@.contains(c),
{
    let mut i: usize = 0;
    while i < s.len()
        invariant
            i <= s@.len(),
            forall|j: int| 0 <= j < i ==> s@[j] != c,
        decreases s@.len() - i,
    {
        if s[i] == c {
            return true;
        }
        i += 1;
    }
    false
}

/// Whether a text begins with `prefix`.
pub fn begins_with(s: &[char], prefix: &[char]) -> (r: bool)
    ensures
        r == has_prefix(s@, prefix@),
{
    if s.len() < prefix.len() {
        return false;
    }
    same_text(vstd::slice::slice_subrange(s, 0, prefix.len()), prefix)
}

/// Whether a text ends with `suffix`.
pub fn ends_with(s: &[char], suffix: &[char]) -> (r: bool)
    ensures
        r == has_suffix(s@, suffix@),
{
    if s.len() < suffix.len() {
        return false;
    }
    let from: usize = s.len() - suffix.len();
    same_text(vstd::slice::slice_subrange(s, from, s.len()), suffix)
}

/// Whether a character is white space.
pub fn char_is_white_space(c: char) -> (r: bool)
    ensures
        r == is_white_space(c),
{
    let n: u32 = c as u32;
    (0x09 <= n && n <= 0x0d) || n == 0x20 || n == 0x85 || n == 0xa0 || n == 0x1680 || (0x2000
        <= n && n <= 0x200a) || n == 0x2028 || n == 0x2029 || n == 0x202f || n == 0x205f || n
        == 0x3000
}

/// A text without white space at either end.
pub fn trim(s: &[char]) -> (r: &[char])
    ensures
        r@ == trimmed(s@),
{
    let mut start: usize = 0;
    assert(s@.skip(0) =~= s@);
    while start < s.len() && char_is_white_space(s[start])
        invariant
            start <= s@.len(),
            trim_start(s@) == trim_start(s@.skip(start as int)),
        decreases s@.len() - start,
    {
        assert(s@.skip(start as int).drop_first() =~= s@.skip(start as int + 1));
        start += 1;
    }
    let ghost front = trim_start(s@);
    assert(front =~= s@.skip(start as int));
    let mut end: usize = s.len();
    assert(s@.subrange(start as int, end as int) =~= front);
    while end > start && char_is_white_space(s[end - 1])
        invariant
            start <= end <= s@.len(),
            trim_end(front) == trim_end(s@.subrange(start as int, end as int)),
        decreases end,
    {
        assert(s@.subrange(start as int, end as int).drop_last() =~= s@.subrange(
            start as int,
            end as int - 1,
        ));
        end -= 1;
    }
    vstd::slice::slice_subrange(s, start, end)
}

/// The upper case of an ASCII letter; any other character unchanged.
pub fn to_upper(c: char) -> (r: char)
    ensures
        r == ascii_upper(c),
{
    if 'a' <= c && c <= 'z' {
        (c as u8 - 32) as char
    } else {
        c
    }
}

/// The lower case of an ASCII letter; any other character unchanged.
pub fn to_lower(c: char) -> (r: char)
    ensures
        r == ascii_lower(c),
{
    if 'A' <= c && c <= 'Z' {
        (c as u8 + 32) as char
    } else {
        c
    }
}

/// A text with its ASCII letters in upper case.
pub fn to_upper_text(s: &[char]) -> (r: Vec<char>)
    ensures
        r@ == upper_text(s@),
{
    let mut out: Vec<char> = Vec::new();
    let mut i: usize = 0;
    while i < s.len()
        invariant
            i <= s@.len(),
            out@ == upper_text(s@.take(i as int)),
        decreases s@.len() - i,
    {
        out.push(to_upper(s[i]));
        i += 1;
        assert(out@ =~= upper_text(s@.take(i as int)));
    }
    assert(s@.take(i as int) =~= s@);
    out
}

/// A text with its ASCII letters in lower case.
pub fn to_lower_text(s: &[char]) -> (r: Vec<char>)
    ensures
        r@ == lower_text(s@),
{
    let mut out: Vec<char> = Vec::new();
    let mut i: usize = 0;
    while i < s.len()
        invariant
            i <= s@.len(),
            out@ == lower_text(s@.take(i as int)),
        decreases s@.len() - i,
    {
        out.push(to_lower(s[i]));
        i += 1;
        assert(out@ =~= lower_text(s@.take(i as int)));
    }
    assert(s@.take(i as int) =~= s@);
    out
}

/// Whether two texts agree up to the case of ASCII letters.
pub fn equals_ignoring_case(a: &[char], b: &[char]) -> (r: bool)
    ensures
        r == same_ignoring_case(a@, b@),
{
    let x = to_lower_text(a);
    let y = to_lower_text(b);
    same_text(x.as_slice(), y.as_slice())
}

/// Splitting around a separator splits each side.
pub proof fn lemma_split_concat(a: Seq<char>, sep: char, b: Seq<char>)
    ensures
        split(a + seq![sep] + b, sep) == split(a, sep) + split(b, sep),
    decreases b.len(),
{
    let whole = a + seq![sep] + b;
    if b.len() == 0 {
        assert(whole.drop_last() =~= a);
        assert(split(whole, sep) =~= split(a, sep) + split(b, sep));
    } else {
        lemma_split_concat(a, sep, b.drop_last());
        lemma_split_nonempty(b.drop_last(), sep);
        let shorter = a + seq![sep] + b.drop_last();
        assert(whole.drop_last() =~= shorter);
        assert(whole.last() == b.last());
        let left = split(a, sep);
        let right = split(b.drop_last(), sep);
        assert((left + right).last() == right.last());
        assert((left + right).drop_last() =~= left + right.drop_last());
        assert(split(whole, sep) =~= left + split(b, sep));
    }
}

/// A split has at least one piece.
pub proof fn lemma_split_nonempty(s: Seq<char>, sep: char)
    ensures
        split(s, sep).len() > 0,
    decreases s.len(),
{
    if s.len() > 0 {
        lemma_split_nonempty(s.drop_last(), sep);
    }
}

/// No piece of a split holds the separator.
pub proof fn lemma_split_pieces(s: Seq<char>, sep: char)
    ensures
        forall|i: int| 0 <= i < split(s, sep).len() ==> !(#[trigger] split(s, sep)[i]).contains(sep),
    decreases s.len(),
{
    if s.len() > 0 {
        let before = split(s.drop_last(), sep);
        lemma_split_nonempty(s.drop_last(), sep);
        lemma_split_pieces(s.drop_last(), sep);
        if s.last() != sep {
            assert(!before.last().contains(sep));
            let grown = before.last().push(s.last());
            assert(!grown.contains(sep)) by {
                if grown.contains(sep) {
                    let k = choose|k: int| 0 <= k < grown.len() && grown[k] == sep;
                    assert(before.last()[k] == sep);
                }
            }
        }
    }
}

/// A text without the separator is its own only piece.
pub proof fn lemma_split_plain(s: Seq<char>, sep: char)
    requires
        !s.contains(sep),
    ensures
        split(s, sep) == seq![s],
    decreases s.len(),
{
    if s.len() > 0 {
        let front = s.drop_last();
        assert(s.last() != sep) by {
            assert(s.contains(s.last()));
        }
        assert(!front.contains(sep)) by {
            if front.contains(sep) {
                let k = choose|k: int| 0 <= k < front.len() && front[k] == sep;
                assert(s[k] == sep);
            }
        }
        lemma_split_plain(front, sep);
        assert(front.push(s.last()) =~= s);
        assert(split(s, sep) =~= seq![s]);
    } else {
        assert(s =~= Seq::<char>::empty());
    }
}

/// Splitting what was joined gives the pieces back.
pub proof fn lemma_split_join(pieces: Seq<Seq<char>>, sep: char)
    requires
        pieces.len() > 0,
        forall|i: int| 0 <= i < pieces.len() ==> !(#[trigger] pieces[i]).contains(sep),
    ensures
        split(join(pieces, seq![sep]), sep) == pieces,
    decreases pieces.len(),
{
    if pieces.len() == 1 {
        lemma_split_plain(pieces[0], sep);
        assert(seq![pieces[0]] =~= pieces);
    } else {
        let front = pieces.drop_last();
        lemma_split_join(front, sep);
        lemma_split_plain(pieces.last(), sep);
        lemma_split_concat(join(front, seq![sep]), sep, pieces.last());
        assert(front + seq![pieces.last()] =~= pieces);
    }
}

/// Joining what was split gives the text back.
pub proof fn lemma_join_split(s: Seq<char>, sep: char)
    ensures
        join(split(s, sep), seq![sep]) == s,
    decreases s.len(),
{
    if s.len() > 0 {
        let before = split(s.drop_last(), sep);
        lemma_split_nonempty(s.drop_last(), sep);
        lemma_join_split(s.drop_last(), sep);
        let after = split(s, sep);
        if s.last() == sep {
            assert(after.drop_last() =~= before);
            assert(join(after, seq![sep]) =~= s);
        } else {
            assert(after.drop_last() =~= before.drop_last());
            assert(after.last() =~= before.last().push(s.last()));
            if before.len() > 1 {
                let front = join(before.drop_last(), seq![sep]);
                assert(s.drop_last() == front + seq![sep] + before.last());
                assert(join(after, seq![sep]) == front + seq![sep] + after.last());
            }
            assert(join(after, seq![sep]) =~= s.drop_last().push(s.last()));
            assert(s.drop_last().push(s.last()) =~= s);
        }
    }
}

proof fn lemma_trim_start_front(before: Seq<char>, rest: Seq<char>)
    requires
        forall|i: int| 0 <= i < before.len() ==> is_white_space(#[trigger] before[i]),
    ensures
        trim_start(before + rest) == trim_start(rest),
    decreases before.len(),
{
    let all = before + rest;
    if before.len() > 0 {
        let later = before.drop_first();
        assert(is_white_space(before[0]));
        assert(all[0] == before[0]);
        assert forall|i: int| 0 <= i < later.len() implies is_white_space(#[trigger] later[i]) by {
            assert(later[i] == before[i + 1]);
        }
        lemma_trim_start_front(later, rest);
        assert(all.drop_first() =~= later + rest);
    } else {
        assert(all =~= rest);
    }
}

proof fn lemma_trim_end_back(front: Seq<char>, after: Seq<char>)
    requires
        forall|i: int| 0 <= i < after.len() ==> is_white_space(#[trigger] after[i]),
    ensures
        trim_end(front + after) == trim_end(front),
    decreases after.len(),
{
    let all = front + after;
    if after.len() > 0 {
        let fewer = after.drop_last();
        assert(is_white_space(after[after.len() - 1]));
        assert(all.last() == after.last());
        assert forall|i: int| 0 <= i < fewer.len() implies is_white_space(#[trigger] fewer[i]) by {
            assert(fewer[i] == after[i]);
        }
        lemma_trim_end_back(front, fewer);
        assert(all.drop_last() =~= front + fewer);
    } else {
        assert(all =~= front);
    }
}

/// Exactly the white space at either end is trimmed.
pub proof fn law_trimmed(before: Seq<char>, s: Seq<char>, after: Seq<char>)
    requires
        s.len() > 0,
        !is_white_space(s[0]),
        !is_white_space(s.last()),
        forall|i: int| 0 <= i < before.len() ==> is_white_space(#[trigger] before[i]),
        forall|i: int| 0 <= i < after.len() ==> is_white_space(#[trigger] after[i]),
    ensures
        trimmed(before + s + after) == s,
        trimmed(before) == Seq::<char>::empty(),
{
    let none = Seq::<char>::empty();
    assert(before + s + after =~= before + (s + after));
    lemma_trim_start_front(before, s + after);
    assert((s + after)[0] == s[0]);
    lemma_trim_end_back(s, after);
    assert(before + none =~= before);
    lemma_trim_start_front(before, none);
}

proof fn lemma_word_behind(front: Seq<char>, word: Seq<char>)
    requires
        front.len() == 0 || is_white_space(front.last()),
        word.len() > 0,
        forall|i: int| 0 <= i < word.len() ==> !is_white_space(#[trigger] word[i]),
    ensures
        words(front + word) == words(front).push(word),
    decreases word.len(),
{
    let s = front + word;
    let c = word.last();
    assert(s.last() == c);
    assert(!is_white_space(word[word.len() - 1]));
    assert(s.drop_last() =~= front + word.drop_last());
    if word.len() == 1 {
        assert(s.drop_last() =~= front);
        assert(word =~= seq![c]);
        if front.len() > 0 {
            assert(s[s.len() - 2] == front.last());
        }
    } else {
        let fewer = word.drop_last();
        assert forall|i: int| 0 <= i < fewer.len() implies !is_white_space(#[trigger] fewer[i]) by {
            assert(!is_white_space(word[i]));
        }
        lemma_word_behind(front, fewer);
        assert(s[s.len() - 2] == word[word.len() - 2]);
        assert(!is_white_space(word[word.len() - 2]));
        let before = words(s.drop_last());
        assert(before.drop_last() =~= words(front));
        assert(before.last() == fewer);
        assert(fewer.push(c) =~= word);
    }
}

/// Words that are joined by a space are found again, one by one.
pub proof fn law_words_of_joined(list: Seq<Seq<char>>)
    requires
        forall|i: int|
            0 <= i < list.len() ==> (#[trigger] list[i]).len() > 0 && forall|k: int|
                0 <= k < list[i].len() ==> !is_white_space(#[trigger] list[i][k]),
    ensures
        words(join(list, seq![' '])) == list,
    decreases list.len(),
{
    let none = Seq::<char>::empty();
    if list.len() == 0 {
        assert(list =~= Seq::<Seq<char>>::empty());
        assert(join(list, seq![' ']) =~= none);
    } else {
        let front = list.drop_last();
        let word = list.last();
        assert(list[list.len() - 1].len() > 0);
        assert forall|i: int| 0 <= i < front.len() implies (#[trigger] front[i]).len() > 0
            && forall|k: int| 0 <= k < front[i].len() ==> !is_white_space(#[trigger] front[i][k]) by {
            assert(front[i] == list[i]);
        }
        law_words_of_joined(front);
        assert(front.push(word) =~= list);
        if list.len() == 1 {
            assert(none + word =~= word);
            lemma_word_behind(none, word);
            assert(words(none) =~= front);
        } else {
            let before = join(front, seq![' ']);
            let spaced = before + seq![' '];
            assert(spaced.drop_last() =~= before);
            assert(is_white_space(spaced.last()));
            assert(words(spaced) == words(before));
            lemma_word_behind(spaced, word);
        }
    }
}

/// The first of a character is found where nothing before it is the same, the last where nothing
/// behind it is.
pub proof fn law_indices(a: Seq<char>, c: char, b: Seq<char>)
    ensures
        !a.contains(c) ==> first_index(a + seq![c] + b, c) == a.len(),
        !b.contains(c) ==> last_index(a + seq![c] + b, c) == a.len(),
        !a.contains(c) ==> first_index(a, c) == a.len() && last_index(a, c) == -1,
{
    lemma_first_index_at(a, c, seq![c] + b);
    assert(a + seq![c] + b =~= a + (seq![c] + b));
    if !a.contains(c) {
        lemma_first_index_at(a, c, Seq::empty());
        assert(a + Seq::<char>::empty() =~= a);
        lemma_last_index_at(Seq::empty(), c, a);
        assert(Seq::<char>::empty() + a =~= a);
        assert(last_index(Seq::<char>::empty(), c) == -1);
    }
    if !b.contains(c) {
        lemma_last_index_at(a + seq![c], c, b);
        assert((a + seq![c]).last() == c);
    }
}

proof fn lemma_first_index_at(a: Seq<char>, c: char, rest: Seq<char>)
    requires
        rest.len() > 0 ==> rest[0] == c,
    ensures
        !a.contains(c) ==> first_index(a + rest, c) == a.len(),
    decreases a.len(),
{
    let s = a + rest;
    if !a.contains(c) {
        if a.len() > 0 {
            let later = a.drop_first();
            assert(a.contains(a[0]));
            assert(s[0] == a[0]);
            assert forall|i: int| 0 <= i < later.len() implies later[i] != c by {
                assert(a.contains(a[i + 1]));
            }
            lemma_first_index_at(later, c, rest);
            assert(s.drop_first() =~= later + rest);
        } else {
            assert(s =~= rest);
        }
    }
}

proof fn lemma_last_index_at(front: Seq<char>, c: char, b: Seq<char>)
    requires
        !b.contains(c),
    ensures
        last_index(front + b, c) == last_index(front, c),
    decreases b.len(),
{
    let s = front + b;
    if b.len() > 0 {
        let fewer = b.drop_last();
        assert(b.contains(b[b.len() - 1]));
        assert(s.last() == b.last());
        assert forall|i: int| 0 <= i < fewer.len() implies fewer[i] != c by {
            assert(b.contains(b[i]));
        }
        lemma_last_index_at(front, c, fewer);
        assert(s.drop_last() =~= front + fewer);
    } else {
        assert(s =~= front);
    }
}

/// A text begins with its front and ends with its back; and a text begins or ends with another
/// only if their characters agree there.
pub proof fn law_affixes(a: Seq<char>, b: Seq<char>, s: Seq<char>, t: Seq<char>)
    ensures
        has_prefix(a + b, a),
        has_suffix(a + b, b),
        has_prefix(s, t) ==> t.len() <= s.len() && forall|i: int|
            0 <= i < t.len() ==> s[i] == #[trigger] t[i],
        has_suffix(s, t) ==> t.len() <= s.len() && forall|i: int|
            0 <= i < t.len() ==> s[s.len() - t.len() + i] == #[trigger] t[i],
{
    assert((a + b).take(a.len() as int) =~= a);
    assert((a + b).skip(a.len() as int) =~= b);
    if has_prefix(s, t) {
        assert forall|i: int| 0 <= i < t.len() implies s[i] == #[trigger] t[i] by {
            assert(s.take(t.len() as int)[i] == s[i]);
        }
    }
    if has_suffix(s, t) {
        assert forall|i: int| 0 <= i < t.len() implies s[s.len() - t.len() + i] == #[trigger] t[i] by {
            assert(s.skip(s.len() - t.len())[i] == s[s.len() - t.len() + i]);
        }
    }
}

/// Changing the case moves an ASCII letter by 32 and leaves everything else.
pub proof fn law_case(c: char)
    ensures
        0x61 <= c as int <= 0x7a ==> ascii_upper(c) as int == c as int - 32,
        !(0x61 <= c as int <= 0x7a) ==> ascii_upper(c) == c,
        0x41 <= c as int <= 0x5a ==> ascii_lower(c) as int == c as int + 32,
        !(0x41 <= c as int <= 0x5a) ==> ascii_lower(c) == c,
{
}

/// Two texts are the same but for case if their characters are, one by one.
pub proof fn law_same_ignoring_case(a: Seq<char>, b: Seq<char>)
    ensures
        same_ignoring_case(a, b) <==> a.len() == b.len() && forall|i: int|
            0 <= i < a.len() ==> ascii_lower(#[trigger] a[i]) == ascii_lower(b[i]),
        upper_text(a).len() == a.len(),
        forall|i: int| 0 <= i < a.len() ==> #[trigger] upper_text(a)[i] == ascii_upper(a[i]),
        lower_text(a).len() == a.len(),
        forall|i: int| 0 <= i < a.len() ==> #[trigger] lower_text(a)[i] == ascii_lower(a[i]),
{
    let x = lower_text(a);
    let y = lower_text(b);
    assert(x.len() == a.len() && y.len() == b.len());
    assert(forall|i: int| 0 <= i < a.len() ==> #[trigger] x[i] == ascii_lower(a[i]));
    assert(forall|i: int| 0 <= i < b.len() ==> #[trigger] y[i] == ascii_lower(b[i]));
    if same_ignoring_case(a, b) {
        assert forall|i: int| 0 <= i < a.len() implies ascii_lower(#[trigger] a[i]) == ascii_lower(
            b[i],
        ) by {
            assert(x[i] == y[i]);
        }
    }
    if a.len() == b.len() && (forall|i: int|
        0 <= i < a.len() ==> ascii_lower(#[trigger] a[i]) == ascii_lower(b[i])) {
        assert(x =~= y) by {
            assert forall|i: int| 0 <= i < x.len() implies x[i] == y[i] by {
                assert(ascii_lower(a[i]) == ascii_lower(b[i]));
            }
        }
    }
}

} // verus!
