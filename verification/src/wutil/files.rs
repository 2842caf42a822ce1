//! File kinds, native paths, characters, and error lines.

use crate::text::{copy_text, push_str};
use vstd::prelude::*;

verus! {

/// File classification returned by [`wfast_stat`].
#[derive(Clone, Copy, Debug, PartialEq, Eq, Structural)]
pub enum FileKind {
    Dir,
    Regular,
    Other,
}

/// Lightweight metadata for hot type/existence checks that must not pay for
/// file identity (highlighting, `test -f/-d/-e/-s`). See [`wfast_stat`].
#[derive(Clone, Copy, Debug, PartialEq, Eq, Structural)]
pub struct FastMeta {
    pub kind: FileKind,
    pub size: u64,
}

impl FastMeta {
    /// Whether the path is a directory.
    pub fn is_dir(&self) -> (r: bool)
        ensures
            r == (self.kind == FileKind::Dir),
    {
        self.kind == FileKind::Dir
    }

    /// Whether the path is a regular file.
    pub fn is_regular(&self) -> (r: bool)
        ensures
            r == (self.kind == FileKind::Regular),
    {
        self.kind == FileKind::Regular
    }

    /// Size in bytes.
    pub fn len(&self) -> (r: u64)
        ensures
            r == self.size,
    {
        self.size
    }
}

/// The metadata of a file whose type and size are known.
pub open spec fn meta_of(is_dir: bool, is_file: bool, size: u64) -> FastMeta {
    FastMeta {
        kind: if is_dir {
            FileKind::Dir
        } else if is_file {
            FileKind::Regular
        } else {
            FileKind::Other
        },
        size,
    }
}

/// The metadata of a file whose type and size are known.
pub fn fastmeta_from_metadata(is_dir: bool, is_file: bool, size: u64) -> (r: FastMeta)
    ensures
        r == meta_of(is_dir, is_file, size),
{
    let kind = if is_dir {
        FileKind::Dir
    } else if is_file {
        FileKind::Regular
    } else {
        FileKind::Other
    };
    FastMeta { kind, size }
}

/// What a single query for a file's attributes tells.
#[derive(Clone, Copy, Debug, PartialEq, Eq, Structural)]
pub struct Attributes {
    /// Whether the file is a symlink or a junction.
    pub is_reparse: bool,
    /// The file's mode, as `stat` would report it.
    pub mode: u32,
    /// Its size in bytes.
    pub size: u64,
}

/// Whether a mode is that of a directory.
pub open spec fn is_dir_mode(mode: u32) -> bool {
    mode & 0o170000 == 0o040000
}

/// What the attributes of a file tell of its kind and size, if they suffice.
pub open spec fn quick_answer(attributes: Option<Attributes>) -> Option<FastMeta> {
    match attributes {
        Some(a) => if a.is_reparse {
            None
        } else {
            Some(meta_of(is_dir_mode(a.mode), true, a.size))
        },
        None => None,
    }
}

/// Fast `stat`-like probe: the file's kind and size, if the attributes suffice. Reparse points
/// and errors (no attributes) do not: then the exact `stat` decides.
pub fn wfast_stat(attributes: Option<Attributes>) -> (r: Option<FastMeta>)
    ensures
        r == quick_answer(attributes),
{
    match attributes {
        Some(a) => {
            if a.is_reparse {
                None
            } else {
                // Only directories and regular files are no reparse points.
                Some(fastmeta_from_metadata(a.mode & 0o170000 == 0o040000, true, a.size))
            }
        },
        None => None,
    }
}

/// A kind is one of the three: a file is not both a directory and regular.
pub proof fn law_kinds_are_exclusive(is_dir: bool, is_file: bool, size: u64)
    ensures
        ({
            let m = meta_of(is_dir, is_file, size);
            &&& m.kind == FileKind::Dir <==> is_dir
            &&& m.kind == FileKind::Regular <==> is_file && !is_dir
            &&& m.kind == FileKind::Other <==> !is_file && !is_dir
            &&& m.size == size
        }),
{
}

/// Whether attributes tell of a file what the exact `stat` tells: the file is there, it is a
/// directory or a regular file, and type and size agree.
pub open spec fn attributes_agree(a: Attributes, is_dir: bool, is_file: bool, size: u64) -> bool {
    is_dir_mode(a.mode) == is_dir && (is_dir || is_file) && a.size == size
}

/// Where the fast probe answers, it answers as the exact `stat` does.
pub proof fn law_fast_stat_agrees(a: Attributes, is_dir: bool, is_file: bool, size: u64)
    requires
        !a.is_reparse,
        attributes_agree(a, is_dir, is_file, size),
    ensures
        quick_answer(Some(a)) == Some(meta_of(is_dir, is_file, size)),
{
}

/// The fast probe, with the exact `stat` where it does not answer, gives what the exact `stat`
/// gives, errors included. The exact `stat` succeeds on a file whose attributes are known and
/// which is no reparse point, and agrees with them.
pub proof fn law_fast_stat_is_stat<E>(attributes: Option<Attributes>, exact: Result<FastMeta, E>)
    requires
        attributes matches Some(a) ==> a.is_reparse || exists|is_dir: bool, is_file: bool|
            #[trigger] attributes_agree(a, is_dir, is_file, a.size) && exact == Ok::<FastMeta, E>(
                meta_of(is_dir, is_file, a.size),
            ),
    ensures
        (match quick_answer(attributes) {
            Some(meta) => Ok(meta),
            None => exact,
        }) == exact,
{
}

/// Whether a path is written as Windows writes absolute paths: with a drive or a server.
pub open spec fn is_native(p: Seq<char>) -> bool {
    ||| p.len() >= 3 && p[1] == ':' && ('a' <= p[0] <= 'z' || 'A' <= p[0] <= 'Z') && (p[2] == '/'
        || p[2] == '\\')
    ||| p.len() >= 2 && p[0] == '\\' && p[1] == '\\'
}

/// Whether a path is written as Windows writes absolute paths.
pub fn is_native_input(p: &[char]) -> (r: bool)
    ensures
        r == is_native(p@),
{
    if p.len() < 2 {
        return false;
    }
    if p[0] == '\\' && p[1] == '\\' {
        return true;
    }
    let letter: bool = ('a' <= p[0] && p[0] <= 'z') || ('A' <= p[0] && p[0] <= 'Z');
    p.len() >= 3 && p[1] == ':' && letter && (p[2] == '/' || p[2] == '\\')
}

/// Translate a *native* Windows path that a user typed (`C:/foo`, `C:\foo`, `\\server\share`)
/// into fish's POSIX view (`/c/foo`, `/unc/server/share`), which is given. Already-POSIX and
/// relative inputs are returned unchanged.
pub fn native_input_to_posix(p: &[char], translated: Vec<char>) -> (r: Vec<char>)
    ensures
        r@ == if is_native(p@) {
            translated@
        } else {
            p@
        },
{
    if is_native_input(p) {
        translated
    } else {
        copy_text(p)
    }
}

/// A path that begins with a slash is already in POSIX form.
pub proof fn law_posix_paths_are_not_native(p: Seq<char>)
    requires
        p.len() > 0,
        p[0] == '/',
    ensures
        !is_native(p),
{
}

/// Whether a code point is in a Unicode private use area.
pub open spec fn in_pua(c: char) -> bool {
    ||| '\u{E000}' <= c <= '\u{F8FF}'
    ||| '\u{F0000}' <= c <= '\u{FFFFD}'
    ||| '\u{100000}' <= c <= '\u{10FFFD}'
}

/// Whether a code point is in a Unicode private use area.
pub fn fish_is_pua(c: char) -> (r: bool)
    ensures
        r == in_pua(c),
{
    ('\u{E000}' <= c && c <= '\u{F8FF}') || ('\u{F0000}' <= c && c <= '\u{FFFFD}') || (
    '\u{100000}' <= c && c <= '\u{10FFFD}')
}

/// What `char::is_alphanumeric` returns.
pub uninterp spec fn alphanumeric(c: char) -> bool;

/// `char::is_alphanumeric`: whether a character is alphabetic or numeric in Unicode. Only that
/// the answer depends on the character alone is stated, not what it is.
#[verifier::external_body]
fn char_is_alphanumeric(c: char) -> (r: bool)
    ensures
        r == alphanumeric(c),
{
    c.is_alphanumeric()
}

/// Whether a character that is `alnum` counts as such: neither reserved nor private code points
/// do.
pub fn counts_as_alnum(c: char, reserved: bool, alnum: bool) -> (r: bool)
    ensures
        r == (!reserved && !in_pua(c) && alnum),
{
    !reserved && !fish_is_pua(c) && alnum
}

/// We need this because there are too many implementations that don't return the proper answer
/// for some code points. `reserved` tells whether the code point is reserved for internal use.
pub fn fish_iswalnum(c: char, reserved: bool) -> (r: bool)
    ensures
        r == (!reserved && !in_pua(c) && alphanumeric(c)),
{
    counts_as_alnum(c, reserved, char_is_alphanumeric(c))
}

/// A stretch of a text: the indices of its first character and of the one past its last.
#[derive(Clone, Copy, Debug, PartialEq, Eq, Structural)]
pub struct Span {
    pub start: usize,
    pub end: usize,
}

/// Whether a stretch lies within another.
pub open spec fn lies_in(cursor: Span, base: Span) -> bool {
    base.start <= cursor.start <= cursor.end <= base.end
}

/// The offset of a stretch in another.
pub open spec fn offset_in(cursor: Span, base: Span) -> int {
    cursor.start - base.start
}

/// Given that `cursor` is a stretch of `base`, return the offset in characters.
/// This emulates C pointer arithmetic:
///    `wstr_offset_in(cursor, base)` is equivalent to C++ `cursor - base`.
pub fn wstr_offset_in(cursor: Span, base: Span) -> (r: usize)
    requires
        // cursor may be a zero-length stretch at the end of base
        lies_in(cursor, base),
    ensures
        r == offset_in(cursor, base),
        r <= base.end - base.start,
{
    cursor.start - base.start
}

/// Stepping into a stretch of a stretch adds the offsets.
pub proof fn law_offsets_add(a: Span, b: Span, c: Span)
    requires
        lies_in(b, a),
        lies_in(c, b),
    ensures
        lies_in(c, a),
        offset_in(c, a) == offset_in(c, b) + offset_in(b, a),
{
}

/// `nix::errno::Errno`: an error of the system. Nothing is stated of its values.
#[verifier::external_type_specification]
#[verifier::external_body]
pub struct ExErrno(nix::errno::Errno);

/// `nix::errno::Errno::desc`: the description of an error. Its wording is not stated.
#[verifier::external_body]
pub fn errno_description(e: nix::errno::Errno) -> (r: &'static str) {
    e.desc()
}

/// The line that reports an error.
pub open spec fn error_line(s: Seq<char>, description: Seq<char>) -> Seq<char> {
    s + ": "@ + description + "\n"@
}

/// The line that reports an error with a description.
pub fn perror_line(s: &str, description: &str) -> (r: Vec<char>)
    ensures
        r@ == error_line(s@, description@),
{
    let mut line: Vec<char> = Vec::new();
    push_str(&mut line, s);
    assert(line@ =~= s@);
    push_str(&mut line, ": ");
    push_str(&mut line, description);
    push_str(&mut line, "\n");
    line
}

/// The line that reports an error of the system: with the description that
/// `errno_description` gives for it.
pub fn perror_nix(s: &str, e: nix::errno::Errno) -> (r: Vec<char>)
    ensures
        exists|d: &'static str| #[trigger]
            call_ensures(errno_description, (e,), d) && r@ == error_line(s@, d@),
{
    let d: &'static str = errno_description(e);
    assert(call_ensures(errno_description, (e,), d));
    perror_line(s, d)
}

/// A path with a drive, or from a share, is in the system's own form, whatever follows; a path
/// that begins otherwise is not.
pub proof fn law_native_paths(letter: char, slash: char, rest: Seq<char>, other: char)
    requires
        'a' <= letter <= 'z' || 'A' <= letter <= 'Z',
        slash == '/' || slash == '\\',
        !('a' <= other <= 'z' || 'A' <= other <= 'Z' || other == '\\'),
    ensures
        is_native(seq![letter, ':', slash] + rest),
        is_native(seq!['\\', '\\'] + rest),
        !is_native(seq![other] + rest),
        !is_native(seq![letter, ':']),
        rest.len() == 0 || rest[0] != ':' ==> !is_native(seq![letter] + rest),
        rest.len() > 0 && rest[0] != '/' && rest[0] != '\\' ==> !is_native(
            seq![letter, ':'] + rest,
        ),
        rest.len() == 0 || rest[0] != '\\' ==> !is_native(seq!['\\'] + rest),
{
    let a = seq![letter, ':', slash] + rest;
    assert(a[0] == letter && a[1] == ':' && a[2] == slash);
    let b = seq!['\\', '\\'] + rest;
    assert(b[0] == '\\' && b[1] == '\\');
    let c = seq![other] + rest;
    assert(c[0] == other);
    let d = seq![letter] + rest;
    assert(d[0] == letter);
    assert(rest.len() > 0 ==> d[1] == rest[0]);
    let e = seq![letter, ':'] + rest;
    assert(e[0] == letter);
    assert(rest.len() > 0 ==> e[2] == rest[0]);
    let f = seq!['\\'] + rest;
    assert(f[0] == '\\');
    assert(rest.len() > 0 ==> f[1] == rest[0]);
}

/// The private use areas, by code point.
pub proof fn law_private_use(c: char)
    ensures
        in_pua(c) <==> 0xe000 <= c as int <= 0xf8ff || 0xf0000 <= c as int <= 0xffffd || 0x100000
            <= c as int <= 0x10fffd,
{
}

/// Whether a mode is that of a directory is told by the bits of its kind; the permissions have no
/// say.
pub proof fn law_directory_modes(mode: u32, permissions: u32)
    requires
        permissions < 0o10000,
        mode & 0o7777 == 0,
        mode < 0o200000,
    ensures
        is_dir_mode(mode | permissions) <==> mode == 0o040000,
{
    assert((mode | permissions) & 0o170000 == 0o040000 <==> mode == 0o040000) by (bit_vector)
        requires
            permissions < 0o10000,
            mode & 0o7777 == 0,
            mode < 0o200000,
    ;
}

/// A quick answer is the file's own: its size, and a directory or a file by its mode. There is
/// none for what leads elsewhere, and none without attributes.
pub proof fn law_quick_answer(a: Attributes)
    ensures
        quick_answer(None) is None,
        a.is_reparse <==> quick_answer(Some(a)) is None,
        quick_answer(Some(a)) matches Some(m) ==> m.size == a.size && (m.kind == FileKind::Dir
            <==> is_dir_mode(a.mode)) && (m.kind == FileKind::Regular <==> !is_dir_mode(a.mode)),
{
}

} // verus!
