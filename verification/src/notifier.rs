//! Universal-variable change notification from directory change records.
//!
//! A watcher blocks until the directory that holds the variables file changes; the system then
//! fills a buffer with one record for each change. A record is made of 32-bit words: the offset
//! in bytes of the next record (0 in the last one), the kind of change, the length of the file
//! name in bytes, and the name in UTF-16, two units in a word, the lower half first.

use crate::text::copy_text;
use crate::wutil::path::{basename, dirname, wbasename, wdirname};
use vstd::prelude::*;

verus! {

/// The code point that stands for what cannot be decoded.
pub const REPLACEMENT: u32 = 0xfffd;

/// Whether a UTF-16 unit is the first of a surrogate pair.
pub open spec fn is_high(u: u16) -> bool {
    0xd800 <= u < 0xdc00
}

/// Whether a UTF-16 unit is the second of a surrogate pair.
pub open spec fn is_low(u: u16) -> bool {
    0xdc00 <= u < 0xe000
}

/// The code points of a UTF-16 text; a surrogate without its partner becomes the replacement
/// character.
pub open spec fn decoded(units: Seq<u16>) -> Seq<u32>
    decreases units.len(),
{
    if units.len() == 0 {
        Seq::empty()
    } else if units.len() >= 2 && is_high(units[0]) && is_low(units[1]) {
        seq![(0x10000 + (units[0] - 0xd800) * 0x400 + (units[1] - 0xdc00)) as u32] + decoded(
            units.skip(2),
        )
    } else if is_high(units[0]) || is_low(units[0]) {
        seq![REPLACEMENT] + decoded(units.skip(1))
    } else {
        seq![units[0] as u32] + decoded(units.skip(1))
    }
}

/// The lower case of an ASCII letter; any other code point stays.
pub open spec fn lower_code(n: u32) -> u32 {
    if 0x41 <= n <= 0x5a {
        (n + 0x20) as u32
    } else {
        n
    }
}

/// Whether a UTF-16 name is a given one, up to the case of ASCII letters.
pub open spec fn names_file(units: Seq<u16>, name: Seq<char>) -> bool {
    let codes = decoded(units);
    codes.len() == name.len() && forall|i: int|
        0 <= i < name.len() ==> lower_code(#[trigger] codes[i]) == lower_code(name[i] as u32)
}

/// The unit at an index of a name that begins at a word of the buffer.
pub open spec fn unit_at(buffer: Seq<u32>, word: int, i: int) -> u16 {
    if i % 2 == 0 {
        (buffer[word + i / 2] % 0x10000) as u16
    } else {
        (buffer[word + i / 2] / 0x10000) as u16
    }
}

/// The name in the record at a word of the buffer.
pub open spec fn record_name(buffer: Seq<u32>, at: int) -> Seq<u16> {
    Seq::new((buffer[at + 2] / 2) as nat, |i: int| unit_at(buffer, at + 3, i))
}

/// Whether the record at a word of the buffer, and all that follow it, lie within the buffer and
/// begin at words.
pub open spec fn records_fit(buffer: Seq<u32>, at: int) -> bool
    decreases buffer.len() - at,
{
    &&& 0 <= at
    &&& at + 3 <= buffer.len()
    &&& at + 3 + (buffer[at + 2] / 2 + 1) / 2 <= buffer.len()
    &&& buffer[at] % 4 == 0
    &&& buffer[at] > 0 ==> at + buffer[at] / 4 <= buffer.len() && records_fit(
        buffer,
        at + buffer[at] / 4,
    )
}

/// Whether the record at a word of the buffer, or one that follows it, names a file.
pub open spec fn some_record_names(buffer: Seq<u32>, at: int, name: Seq<char>) -> bool
    decreases buffer.len() - at,
{
    if at < 0 || at >= buffer.len() {
        false
    } else {
        names_file(record_name(buffer, at), name) || (buffer[at] >= 4 && at + buffer[at] / 4
            < buffer.len() && some_record_names(buffer, at + buffer[at] / 4, name))
    }
}

/// Whether all records lie within the buffer.
pub fn has_whole_records(buffer: &[u32]) -> (r: bool)
    ensures
        r == records_fit(buffer@, 0),
{
    let mut at: usize = 0;
    loop
        invariant
            at <= buffer@.len(),
            records_fit(buffer@, 0) == records_fit(buffer@, at as int),
        decreases buffer@.len() - at,
    {
        if buffer.len() - at < 3 {
            return false;
        }
        let units: usize = (buffer[at + 2] / 2) as usize;
        let words: usize = units / 2 + units % 2;
        assert(words == (buffer@[at + 2] / 2 + 1) / 2);
        if buffer.len() - at - 3 < words || buffer[at] % 4 != 0 {
            return false;
        }
        let next: usize = (buffer[at] / 4) as usize;
        if buffer[at] == 0 {
            return true;
        }
        if next > buffer.len() - at {
            assert(!records_fit(buffer@, at + next));
            return false;
        }
        at += next;
    }
}

/// The lower case of an ASCII letter's code point.
fn to_lower_code(n: u32) -> (r: u32)
    ensures
        r == lower_code(n),
{
    if 0x41 <= n && n <= 0x5a {
        n + 0x20
    } else {
        n
    }
}

/// The units of the name in a record.
fn read_name(buffer: &[u32], at: usize) -> (r: Vec<u16>)
    requires
        records_fit(buffer@, at as int),
    ensures
        r@ == record_name(buffer@, at as int),
{
    let size: usize = buffer.len();
    let count: usize = (buffer[at + 2] / 2) as usize;
    let mut out: Vec<u16> = Vec::new();
    let mut i: usize = 0;
    while i < count
        invariant
            i <= count,
            count == buffer@[at + 2] / 2,
            size == buffer@.len(),
            records_fit(buffer@, at as int),
            out@.len() == i,
            forall|k: int| 0 <= k < i ==> out@[k] == unit_at(buffer@, at + 3, k),
        decreases count - i,
    {
        let word: u32 = buffer[at + 3 + i / 2];
        if i % 2 == 0 {
            out.push((word % 0x10000) as u16);
        } else {
            out.push((word / 0x10000) as u16);
        }
        i += 1;
    }
    assert(out@ =~= record_name(buffer@, at as int));
    out
}

/// Decodes UTF-16.
fn decode(units: &[u16]) -> (r: Vec<u32>)
    ensures
        r@ == decoded(units@),
{
    let mut out: Vec<u32> = Vec::new();
    let mut i: usize = 0;
    assert(units@.skip(0) =~= units@);
    assert(out@ + decoded(units@) =~= decoded(units@));
    while i < units.len()
        invariant
            i <= units@.len(),
            decoded(units@) == out@ + decoded(units@.skip(i as int)),
        decreases units@.len() - i,
    {
        let ghost rest = units@.skip(i as int);
        let ghost before = out@;
        assert(rest.skip(1) =~= units@.skip(i as int + 1));
        let u: u16 = units[i];
        let high: bool = 0xd800 <= u && u < 0xdc00;
        let low: bool = 0xdc00 <= u && u < 0xe000;
        if high && i + 1 < units.len() && 0xdc00 <= units[i + 1] && units[i + 1] < 0xe000 {
            assert(rest.skip(2) =~= units@.skip(i as int + 2));
            let v: u16 = units[i + 1];
            out.push(0x10000 + (u as u32 - 0xd800) * 0x400 + (v as u32 - 0xdc00));
            i += 2;
        } else if high || low {
            out.push(REPLACEMENT);
            i += 1;
        } else {
            out.push(u as u32);
            i += 1;
        }
        assert(out@ + decoded(units@.skip(i as int)) =~= before + decoded(rest));
    }
    assert(decoded(units@.skip(i as int)) =~= Seq::<u32>::empty());
    assert(out@ =~= decoded(units@));
    out
}

/// Whether a UTF-16 name is a given one.
fn is_name(units: &[u16], name: &[char]) -> (r: bool)
    ensures
        r == names_file(units@, name@),
{
    let codes = decode(units);
    if codes.len() != name.len() {
        return false;
    }
    let mut i: usize = 0;
    while i < name.len()
        invariant
            i <= name@.len(),
            codes@ == decoded(units@),
            codes@.len() == name@.len(),
            forall|k: int|
                0 <= k < i ==> lower_code(#[trigger] codes@[k]) == lower_code(name@[k] as u32),
        decreases name@.len() - i,
    {
        if to_lower_code(codes[i]) != to_lower_code(name[i] as u32) {
            assert(lower_code(codes@[i as int]) != lower_code(name@[i as int] as u32));
            return false;
        }
        i += 1;
    }
    true
}

/// Scan a buffer of change records for one naming `basename`.
pub fn file_changed(buffer: &[u32], basename: &[char]) -> (r: bool)
    requires
        records_fit(buffer@, 0),
    ensures
        r == some_record_names(buffer@, 0, basename@),
{
    let mut at: usize = 0;
    loop
        invariant
            records_fit(buffer@, at as int),
            some_record_names(buffer@, 0, basename@) == some_record_names(
                buffer@,
                at as int,
                basename@,
            ),
        decreases buffer@.len() - at,
    {
        let name = read_name(buffer, at);
        if is_name(name.as_slice(), basename) {
            return true;
        }
        if buffer[at] == 0 {
            return false;
        }
        let next: usize = (buffer[at] / 4) as usize;
        assert(records_fit(buffer@, at + next));
        at += next;
    }
}

/// What the watcher does after the system has answered.
#[derive(Clone, Copy, Debug, PartialEq, Eq, Structural)]
pub enum WatchStep {
    /// Stop watching.
    Stop,
    /// Wait for the next change.
    Wait,
    /// Make the notification descriptor readable, and wait for the next change.
    Notify,
}

/// What the watcher does after the system has answered. `stop` tells whether it was asked to
/// stop, `ok` whether the system reported changes, and `count` how many bytes of records: none
/// means that there were too many changes to enumerate, which conservatively counts as a change
/// of the file.
pub fn watch_loop(stop: bool, ok: bool, count: u32, buffer: &[u32], basename: &[char]) -> (r:
    WatchStep)
    requires
        !stop && ok && count > 0 ==> records_fit(buffer@, 0),
    ensures
        r == if stop || !ok {
            WatchStep::Stop
        } else if count == 0 || some_record_names(buffer@, 0, basename@) {
            WatchStep::Notify
        } else {
            WatchStep::Wait
        },
{
    if stop || !ok {
        return WatchStep::Stop;
    }
    if count == 0 || file_changed(buffer, basename) {
        WatchStep::Notify
    } else {
        WatchStep::Wait
    }
}

/// The directory to watch and the name to look for, for changes of the file at a path. The
/// directory is watched rather than the file itself because variables are atomically swapped
/// into place (the file is replaced, not modified).
pub fn watch_target(path: &[char]) -> (r: (Vec<char>, Vec<char>))
    ensures
        r.0@ == dirname(path@),
        r.1@ == basename(path@),
{
    (copy_text(wdirname(path)), copy_text(wbasename(path)))
}

/// Whether a notification is considered to have been posted, given how many bytes were read from
/// the notification descriptor (nothing, if that failed).
pub fn notification_fd_became_readable(read: Option<usize>) -> (r: bool)
    ensures
        r == (read matches Some(n) && n > 0),
{
    match read {
        Some(n) => n > 0,
        None => false,
    }
}

/// Decoding yields no surrogates and nothing beyond the last code point.
pub proof fn law_decoded_are_scalars(units: Seq<u16>)
    ensures
        forall|i: int|
            0 <= i < decoded(units).len() ==> {
                let n = #[trigger] decoded(units)[i];
                n < 0xd800 || 0xe000 <= n <= 0x10ffff
            },
        decoded(units).len() <= units.len(),
    decreases units.len(),
{
    if units.len() > 0 {
        let pair = units.len() >= 2 && is_high(units[0]) && is_low(units[1]);
        let rest = if pair {
            units.skip(2)
        } else {
            units.skip(1)
        };
        law_decoded_are_scalars(rest);
        assert forall|i: int| 0 <= i < decoded(units).len() implies {
            let n = #[trigger] decoded(units)[i];
            n < 0xd800 || 0xe000 <= n <= 0x10ffff
        } by {
            if i > 0 {
                assert(decoded(units)[i] == decoded(rest)[i - 1]);
            }
        }
    }
}

/// A name without surrogates is decoded unit by unit.
pub proof fn law_plain_names_decode(units: Seq<u16>)
    requires
        forall|i: int|
            0 <= i < units.len() ==> !is_high(#[trigger] units[i]) && !is_low(units[i]),
    ensures
        decoded(units) == Seq::new(units.len(), |i: int| units[i] as u32),
    decreases units.len(),
{
    if units.len() > 0 {
        let rest = units.skip(1);
        assert forall|i: int| 0 <= i < rest.len() implies !is_high(#[trigger] rest[i]) && !is_low(
            rest[i],
        ) by {
            assert(rest[i] == units[i + 1]);
        }
        law_plain_names_decode(rest);
    }
    assert(decoded(units) =~= Seq::new(units.len(), |i: int| units[i] as u32));
}

/// A surrogate pair is the one code point that it writes, and a unit of a pair that stands alone
/// is what cannot be decoded; the rest decodes as it does without them.
pub proof fn law_pairs_decode(n: u32, alone: u16, rest: Seq<u16>)
    requires
        0x10000 <= n <= 0x10ffff,
        0xd800 <= alone <= 0xdfff,
        0xd800 <= alone <= 0xdbff && rest.len() > 0 ==> !(0xdc00 <= rest[0] <= 0xdfff),
    ensures
        decoded(
            seq![
                (0xd800 + (n - 0x10000) / 0x400) as u16,
                (0xdc00 + (n - 0x10000) % 0x400) as u16,
            ] + rest,
        ) == seq![n] + decoded(rest),
        decoded(seq![alone] + rest) == seq![0xfffdu32] + decoded(rest),
{
    let high = (0xd800 + (n - 0x10000) / 0x400) as u16;
    let low = (0xdc00 + (n - 0x10000) % 0x400) as u16;
    assert(0xd800 <= high < 0xdc00);
    assert(0xdc00 <= low < 0xe000);
    let a = seq![high, low] + rest;
    assert(a[0] == high && a[1] == low);
    assert(a.skip(2) =~= rest);
    assert(0x10000 + (high - 0xd800) * 0x400 + (low - 0xdc00) == n);
    let b = seq![alone] + rest;
    assert(b[0] == alone);
    assert(rest.len() > 0 ==> b[1] == rest[0]);
    assert(b.skip(1) =~= rest);
}

/// A character's code fits into 32 bits.
proof fn lemma_code(c: char)
    ensures
        c as u32 == c as int,
{
}

/// A name in a record is found by the same name, whatever the case of its ASCII letters, and by
/// no other.
pub proof fn law_names_ignore_case(units: Seq<u16>, name: Seq<char>)
    requires
        forall|i: int|
            0 <= i < units.len() ==> !is_high(#[trigger] units[i]) && !is_low(units[i]),
    ensures
        names_file(units, name) <==> units.len() == name.len() && forall|i: int|
            0 <= i < units.len() ==> {
                let a = #[trigger] units[i] as int;
                let b = name[i] as int;
                a == b || (0x41 <= a <= 0x5a && b == a + 0x20) || (0x41 <= b <= 0x5a && a == b
                    + 0x20)
            },
{
    law_plain_names_decode(units);
    let codes = decoded(units);
    assert(codes.len() == units.len());
    if units.len() == name.len() {
        assert forall|i: int| 0 <= i < units.len() implies ({
            let a = #[trigger] units[i] as int;
            let b = name[i] as int;
            lower_code(codes[i]) == lower_code(name[i] as u32) <==> (a == b || (0x41 <= a <= 0x5a
                && b == a + 0x20) || (0x41 <= b <= 0x5a && a == b + 0x20))
        }) by {
            assert(codes[i] == units[i] as u32);
            lemma_code(name[i]);
        }
        if names_file(units, name) {
            assert forall|i: int| 0 <= i < units.len() implies ({
                let a = #[trigger] units[i] as int;
                let b = name[i] as int;
                a == b || (0x41 <= a <= 0x5a && b == a + 0x20) || (0x41 <= b <= 0x5a && a == b
                    + 0x20)
            }) by {
                assert(lower_code(codes[i]) == lower_code(name[i] as u32));
            }
        } else {
            let i = choose|i: int|
                0 <= i < name.len() && lower_code(#[trigger] codes[i]) != lower_code(
                    name[i] as u32,
                );
            assert(units[i] == units[i]);
        }
    }
}

/// Two units stand in a word, the first of them in its lower half; an odd one stands in the lower
/// half of the last word.
pub proof fn law_record_holds_units(buffer: Seq<u32>, at: int, units: Seq<u16>)
    requires
        0 <= at,
        at + 3 + (units.len() + 1) / 2 <= buffer.len(),
        buffer[at + 2] == 2 * units.len(),
        forall|k: int|
            0 <= k && 2 * k + 1 < units.len() ==> #[trigger] buffer[at + 3 + k] == units[2 * k]
                + 0x10000 * units[2 * k + 1],
        units.len() % 2 == 1 ==> buffer[at + 3 + units.len() / 2] % 0x10000 == units.last(),
    ensures
        record_name(buffer, at) == units,
{
    let read = record_name(buffer, at);
    assert forall|i: int| 0 <= i < units.len() implies read[i] == units[i] by {
        let k = i / 2;
        if i % 2 == 0 && i == units.len() - 1 {
            assert(k == units.len() / 2);
        } else {
            assert(2 * k + 1 < units.len());
            let word = buffer[at + 3 + k];
            assert(word == units[2 * k] + 0x10000 * units[2 * k + 1]);
        }
    }
    assert(read =~= units);
}

proof fn lemma_records_behind(front: Seq<u32>, rest: Seq<u32>, at: int, name: Seq<char>)
    requires
        records_fit(rest, at),
    ensures
        some_record_names(front + rest, front.len() + at, name) == some_record_names(
            rest,
            at,
            name,
        ),
    decreases rest.len() - at,
{
    let all = front + rest;
    let n = front.len() as int;
    assert(forall|k: int| 0 <= k < rest.len() ==> #[trigger] all[n + k] == rest[k]);
    assert(all[n + at] == rest[at]);
    assert(all[n + at + 2] == rest[at + 2]);
    let a = record_name(all, n + at);
    let b = record_name(rest, at);
    assert forall|i: int| 0 <= i < b.len() implies a[i] == b[i] by {
        assert(all[n + (at + 3 + i / 2)] == rest[at + 3 + i / 2]);
        assert(n + (at + 3 + i / 2) == n + at + 3 + i / 2);
    }
    assert(a =~= b);
    if rest[at] >= 4 && at + rest[at] / 4 < rest.len() {
        lemma_records_behind(front, rest, at + rest[at] / 4, name);
        assert(n + at + rest[at] / 4 == n + (at + rest[at] / 4));
    }
}

/// A change is seen if the first record names the file or one of the records behind it does; a
/// record without a successor is the last.
pub proof fn law_every_record_counts(first: Seq<u32>, rest: Seq<u32>, name: Seq<char>)
    requires
        first.len() >= 3,
        first.len() <= 0x3fff_ffff,
        3 + (first[2] / 2 + 1) / 2 <= first.len(),
        first[0] == 4 * first.len(),
        records_fit(rest, 0),
    ensures
        some_record_names(first + rest, 0, name) == (names_file(record_name(first, 0), name)
            || some_record_names(rest, 0, name)),
        some_record_names(first.update(0, 0), 0, name) == names_file(record_name(first, 0), name),
{
    let all = first + rest;
    lemma_records_behind(first, rest, 0, name);
    assert(all[0] == first[0]);
    let a = record_name(all, 0);
    let b = record_name(first, 0);
    assert forall|i: int| 0 <= i < b.len() implies a[i] == b[i] by {
        assert(all[0 + 3 + i / 2] == first[0 + 3 + i / 2]);
    }
    assert(a =~= b);
    let alone = first.update(0, 0);
    let c = record_name(alone, 0);
    assert forall|i: int| 0 <= i < b.len() implies c[i] == b[i] by {
        assert(alone[0 + 3 + i / 2] == first[0 + 3 + i / 2]);
    }
    assert(c =~= b);
}

/// The watch ends when it is told to or cannot go on; a notice without records says that too much
/// has changed to tell, and counts as a change.
pub proof fn law_watch_steps(
    stop: bool,
    ok: bool,
    count: u32,
    buffer: &[u32],
    basename: &[char],
    r: WatchStep,
)
    requires
        !stop && ok && count > 0 ==> records_fit(buffer@, 0),
        call_ensures(watch_loop, (stop, ok, count, buffer, basename), r),
    ensures
        r == WatchStep::Stop <==> stop || !ok,
        !stop && ok && count == 0 ==> r == WatchStep::Notify,
        !stop && ok && count > 0 ==> (r == WatchStep::Notify <==> some_record_names(
            buffer@,
            0,
            basename@,
        )),
{
}

proof fn lemma_fit_behind(front: Seq<u32>, rest: Seq<u32>, at: int)
    requires
        0 <= at,
    ensures
        records_fit(front + rest, front.len() + at) == records_fit(rest, at),
    decreases rest.len() - at,
{
    let all = front + rest;
    let n = front.len() as int;
    if at + 3 <= rest.len() {
        assert(all[n + at] == rest[at]);
        assert(all[n + at + 2] == rest[at + 2]);
        if rest[at] % 4 == 0 && rest[at] > 0 && at + rest[at] / 4 <= rest.len() {
            lemma_fit_behind(front, rest, at + rest[at] / 4);
            assert(n + at + rest[at] / 4 == n + (at + rest[at] / 4));
        }
    }
}

/// Records are whole if each of them is: it has its three words and room for its name, and the
/// next one begins at a word.
pub proof fn law_whole_records(first: Seq<u32>, rest: Seq<u32>)
    requires
        first.len() >= 3,
        first.len() <= 0x3fff_ffff,
        first[0] == 4 * first.len(),
    ensures
        records_fit(first + rest, 0) <==> 3 + (first[2] / 2 + 1) / 2 <= first.len() + rest.len()
            && records_fit(rest, 0),
        records_fit(first.update(0, 0), 0) <==> 3 + (first[2] / 2 + 1) / 2 <= first.len(),
        rest.len() < 3 ==> !records_fit(rest, 0),
        rest.len() > 0 && rest[0] % 4 != 0 ==> !records_fit(rest, 0),
{
    lemma_fit_behind(first, rest, 0);
    let all = first + rest;
    assert(all[0] == first[0] && all[2] == first[2]);
    let alone = first.update(0, 0);
    assert(alone[0] == 0 && alone[2] == first[2]);
}

} // verus!
