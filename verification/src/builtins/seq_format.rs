//! The format of `seq -f`: text around one directive for a floating-point number, such as
//! `%03g`. `%%` stands for a percent sign.

use crate::text::{copy_text, push_text};
use vstd::prelude::*;
use vstd::slice::slice_subrange;

verus! {

/// Why a format is refused.
#[derive(Clone, Copy, Debug, PartialEq, Eq, Structural)]
pub enum FormatError {
    /// It has no directive.
    NoDirective,
    /// It has more than one directive.
    TooManyDirectives,
    /// Its directive has an unknown conversion.
    UnknownDirective(char),
    /// It ends within a directive.
    EndsInDirective,
}

/// A format in its parts.
pub struct Format {
    /// What stands before the number.
    pub prefix: Vec<char>,
    /// How the number is written: `%`, flags, width, precision and conversion.
    pub directive: Vec<char>,
    /// What stands behind the number.
    pub suffix: Vec<char>,
}

/// The contents of [`Format`].
#[verifier::ext_equal]
pub struct FormatView {
    pub prefix: Seq<char>,
    pub directive: Seq<char>,
    pub suffix: Seq<char>,
}

impl View for Format {
    type V = FormatView;

    open spec fn view(&self) -> FormatView {
        FormatView {
            prefix: self.prefix@,
            directive: self.directive@,
            suffix: self.suffix@,
        }
    }
}

/// The text before the first directive.
pub open spec fn literal(s: Seq<char>) -> Seq<char>
    decreases s.len(),
{
    if s.len() == 0 {
        Seq::empty()
    } else if s[0] != '%' {
        seq![s[0]] + literal(s.skip(1))
    } else if s.len() >= 2 && s[1] == '%' {
        seq!['%'] + literal(s.skip(2))
    } else {
        Seq::empty()
    }
}

/// The first directive and what follows it.
pub open spec fn from_directive(s: Seq<char>) -> Seq<char>
    decreases s.len(),
{
    if s.len() == 0 {
        s
    } else if s[0] != '%' {
        from_directive(s.skip(1))
    } else if s.len() >= 2 && s[1] == '%' {
        from_directive(s.skip(2))
    } else {
        s
    }
}

/// Whether a character is a flag of a directive.
pub open spec fn is_flag(c: char) -> bool {
    c == '-' || c == '+' || c == '#' || c == '0' || c == ' ' || c == '\''
}

/// Whether a character converts a floating-point number.
pub open spec fn is_conversion(c: char) -> bool {
    c == 'e' || c == 'f' || c == 'g' || c == 'a' || c == 'E' || c == 'F' || c == 'G' || c == 'A'
}

/// Where the flags from index `i` on end.
pub open spec fn flags_end(s: Seq<char>, i: int) -> int
    decreases s.len() - i,
{
    if 0 <= i < s.len() && is_flag(s[i]) {
        flags_end(s, i + 1)
    } else {
        i
    }
}

/// Where the digits from index `i` on end.
pub open spec fn digits_end(s: Seq<char>, i: int) -> int
    decreases s.len() - i,
{
    if 0 <= i < s.len() && '0' <= s[i] <= '9' {
        digits_end(s, i + 1)
    } else {
        i
    }
}

/// Where flags, width and precision of the directive at the beginning of `s` end.
pub open spec fn layout_end(s: Seq<char>) -> int {
    let width_end = digits_end(s, flags_end(s, 1));
    if width_end < s.len() && s[width_end] == '.' {
        digits_end(s, width_end + 1)
    } else {
        width_end
    }
}

/// Where the conversion of the directive at the beginning of `s` is; a size may stand before it.
pub open spec fn conversion_at(s: Seq<char>) -> int {
    let i = layout_end(s);
    if i < s.len() && s[i] == 'L' {
        i + 1
    } else {
        i
    }
}

/// The parts of a format.
pub open spec fn format_of(s: Seq<char>) -> Result<FormatView, FormatError> {
    let d = from_directive(s);
    let c = conversion_at(d);
    if d.len() == 0 {
        Err(FormatError::NoDirective)
    } else if c >= d.len() {
        Err(FormatError::EndsInDirective)
    } else if !is_conversion(d[c]) {
        Err(FormatError::UnknownDirective(d[c]))
    } else if from_directive(d.skip(c + 1)).len() > 0 {
        Err(FormatError::TooManyDirectives)
    } else {
        Ok(
            FormatView {
                prefix: literal(s),
                directive: d.take(layout_end(d)).push(d[c]),
                suffix: literal(d.skip(c + 1)),
            },
        )
    }
}

/// Splits a format before its first directive.
fn split_literal(s: &[char]) -> (r: (Vec<char>, &[char]))
    ensures
        r.0@ == literal(s@),
        r.1@ == from_directive(s@),
{
    let mut text: Vec<char> = Vec::new();
    let mut i: usize = 0;
    assert(s@.skip(0) =~= s@);
    assert(text@ + literal(s@) =~= literal(s@));
    while i < s.len() && !(s[i] == '%' && (i + 1 == s.len() || s[i + 1] != '%'))
        invariant
            i <= s@.len(),
            text@ + literal(s@.skip(i as int)) == literal(s@),
            from_directive(s@.skip(i as int)) == from_directive(s@),
        decreases s@.len() - i,
    {
        let ghost rest = s@.skip(i as int);
        let ghost before = text@;
        assert(rest.skip(1) =~= s@.skip(i as int + 1));
        text.push(s[i]);
        if s[i] == '%' {
            assert(rest.skip(2) =~= s@.skip(i as int + 2));
            i += 2;
        } else {
            i += 1;
        }
        assert(text@ + literal(s@.skip(i as int)) =~= before + literal(rest));
    }
    assert(literal(s@.skip(i as int)) =~= Seq::<char>::empty());
    assert(text@ =~= literal(s@));
    assert(s@.subrange(i as int, s@.len() as int) =~= s@.skip(i as int));
    (text, slice_subrange(s, i, s.len()))
}

/// Skips flags.
fn skip_flags(s: &[char], from: usize) -> (r: usize)
    requires
        from <= s@.len(),
    ensures
        r == flags_end(s@, from as int),
        from <= r <= s@.len(),
{
    let mut i: usize = from;
    while i < s.len() && (s[i] == '-' || s[i] == '+' || s[i] == '#' || s[i] == '0' || s[i] == ' '
        || s[i] == '\'')
        invariant
            from <= i <= s@.len(),
            flags_end(s@, from as int) == flags_end(s@, i as int),
        decreases s@.len() - i,
    {
        i += 1;
    }
    i
}

/// Skips digits.
fn skip_digits(s: &[char], from: usize) -> (r: usize)
    requires
        from <= s@.len(),
    ensures
        r == digits_end(s@, from as int),
        from <= r <= s@.len(),
{
    let mut i: usize = from;
    while i < s.len() && '0' <= s[i] && s[i] <= '9'
        invariant
            from <= i <= s@.len(),
            digits_end(s@, from as int) == digits_end(s@, i as int),
        decreases s@.len() - i,
    {
        i += 1;
    }
    i
}

/// Takes a format apart.
pub fn parse_format(s: &[char]) -> (r: Result<Format, FormatError>)
    ensures
        format_of(s@) == (match r {
            Ok(f) => Ok(f@),
            Err(e) => Err(e),
        }),
{
    let (prefix, d) = split_literal(s);
    if d.len() == 0 {
        return Err(FormatError::NoDirective);
    }
    let mut end: usize = skip_digits(d, skip_flags(d, 1));
    if end < d.len() && d[end] == '.' {
        end = skip_digits(d, end + 1);
    }
    let mut at: usize = end;
    if at < d.len() && d[at] == 'L' {
        at += 1;
    }
    if at >= d.len() {
        return Err(FormatError::EndsInDirective);
    }
    let c: char = d[at];
    if !(c == 'e' || c == 'f' || c == 'g' || c == 'a' || c == 'E' || c == 'F' || c == 'G' || c
        == 'A') {
        return Err(FormatError::UnknownDirective(c));
    }
    assert(d@.subrange(at as int + 1, d@.len() as int) =~= d@.skip(at as int + 1));
    let (suffix, more) = split_literal(slice_subrange(d, at + 1, d.len()));
    if more.len() > 0 {
        return Err(FormatError::TooManyDirectives);
    }
    assert(d@.subrange(0, end as int) =~= d@.take(end as int));
    let mut directive = copy_text(slice_subrange(d, 0, end));
    directive.push(c);
    Ok(Format { prefix, directive, suffix })
}

/// A number in the text that a format puts around it.
pub fn dress(format: &Format, number: &[char]) -> (r: Vec<char>)
    ensures
        r@ == format@.prefix + number@ + format@.suffix,
{
    let mut out = copy_text(format.prefix.as_slice());
    push_text(&mut out, number);
    push_text(&mut out, format.suffix.as_slice());
    out
}

/// Text without a percent sign stands for itself.
proof fn lemma_plain_literal(p: Seq<char>, rest: Seq<char>)
    requires
        !p.contains('%'),
    ensures
        literal(p + rest) == p + literal(rest),
        from_directive(p + rest) == from_directive(rest),
    decreases p.len(),
{
    if p.len() == 0 {
        assert(p + rest =~= rest);
        assert(p + literal(rest) =~= literal(rest));
    } else {
        let tail = p.skip(1);
        assert(p.contains(p[0]));
        assert(!tail.contains('%')) by {
            if tail.contains('%') {
                let k = choose|k: int| 0 <= k < tail.len() && tail[k] == '%';
                assert(p[k + 1] == '%');
            }
        }
        lemma_plain_literal(tail, rest);
        assert((p + rest).skip(1) =~= tail + rest);
        assert(seq![p[0]] + (tail + literal(rest)) =~= p + literal(rest));
    }
}

/// Text around a bare directive is printed around the number.
pub proof fn law_text_around_directive(prefix: Seq<char>, conversion: char, suffix: Seq<char>)
    requires
        !prefix.contains('%'),
        !suffix.contains('%'),
        is_conversion(conversion),
    ensures
        format_of(prefix + seq!['%', conversion] + suffix) == Ok::<FormatView, FormatError>(
            FormatView { prefix, directive: seq!['%', conversion], suffix },
        ),
{
    let d = seq!['%', conversion] + suffix;
    let s = prefix + seq!['%', conversion] + suffix;
    assert(s =~= prefix + d);
    lemma_plain_literal(prefix, d);
    assert(d[0] == '%' && d[1] == conversion);
    assert(from_directive(d) == d);
    assert(literal(d) =~= Seq::<char>::empty());
    assert(prefix + literal(d) =~= prefix);
    assert(flags_end(d, 1) == 1);
    assert(digits_end(d, 1) == 1);
    assert(layout_end(d) == 1 && conversion_at(d) == 1);
    let none = Seq::<char>::empty();
    assert(d.skip(2) =~= suffix + none);
    lemma_plain_literal(suffix, none);
    assert(suffix + literal(none) =~= suffix);
    assert(d.take(1).push(conversion) =~= seq!['%', conversion]);
}

/// A format without a percent sign has no directive.
pub proof fn law_format_needs_directive(s: Seq<char>)
    requires
        !s.contains('%'),
    ensures
        format_of(s) == Err::<FormatView, FormatError>(FormatError::NoDirective),
{
    let none = Seq::<char>::empty();
    assert(s =~= s + none);
    lemma_plain_literal(s, none);
}

proof fn lemma_flags_end(s: Seq<char>, i: int, j: int)
    requires
        0 <= i <= j < s.len(),
        forall|k: int| i <= k < j ==> is_flag(#[trigger] s[k]),
        !is_flag(s[j]),
    ensures
        flags_end(s, i) == j,
    decreases j - i,
{
    if i < j {
        assert(is_flag(s[i]));
        lemma_flags_end(s, i + 1, j);
    }
}

proof fn lemma_digits_end(s: Seq<char>, i: int, j: int)
    requires
        0 <= i <= j < s.len(),
        forall|k: int| i <= k < j ==> '0' <= #[trigger] s[k] <= '9',
        !('0' <= s[j] <= '9'),
    ensures
        digits_end(s, i) == j,
    decreases j - i,
{
    if i < j {
        assert('0' <= s[i] <= '9');
        lemma_digits_end(s, i + 1, j);
    }
}

/// A directive keeps its flags, width and precision as they are written; a length modifier is
/// left out of it.
pub proof fn law_directive_is_kept(
    prefix: Seq<char>,
    flags: Seq<char>,
    width: Seq<char>,
    precision: Seq<char>,
    long: bool,
    conversion: char,
    suffix: Seq<char>,
)
    requires
        !prefix.contains('%'),
        !suffix.contains('%'),
        is_conversion(conversion),
        forall|k: int| 0 <= k < flags.len() ==> is_flag(#[trigger] flags[k]),
        forall|k: int| 0 <= k < width.len() ==> '0' <= #[trigger] width[k] <= '9',
        width.len() > 0 ==> width[0] != '0',
        precision.len() > 0 ==> precision[0] == '.',
        forall|k: int| 1 <= k < precision.len() ==> '0' <= #[trigger] precision[k] <= '9',
    ensures
        ({
            let layout = seq!['%'] + flags + width + precision;
            let end = if long {
                seq!['L', conversion]
            } else {
                seq![conversion]
            };
            format_of(prefix + (layout + end + suffix)) == Ok::<FormatView, FormatError>(
                FormatView { prefix, directive: layout.push(conversion), suffix },
            )
        }),
{
    let layout = seq!['%'] + flags + width + precision;
    let end = if long {
        seq!['L', conversion]
    } else {
        seq![conversion]
    };
    let d = layout + end + suffix;
    let none = Seq::<char>::empty();
    let a = 1 + flags.len() as int;
    let b = a + width.len() as int;
    let c = b + precision.len() as int;
    assert(forall|k: int| 1 <= k < a ==> #[trigger] d[k] == flags[k - 1]);
    assert(forall|k: int| a <= k < b ==> #[trigger] d[k] == width[k - a]);
    assert(forall|k: int| b <= k < c ==> #[trigger] d[k] == precision[k - b]);
    assert(d[c] == end[0]);
    assert(!is_flag(d[a])) by {
        if a < b {
            assert(d[a] == width[0]);
        } else if b < c {
            assert(d[a] == precision[0]);
        }
    }
    lemma_flags_end(d, 1, a);
    assert(!('0' <= d[b] <= '9')) by {
        if b < c {
            assert(d[b] == precision[0]);
        }
    }
    lemma_digits_end(d, a, b);
    if b < c {
        assert(d[b] == '.');
        lemma_digits_end(d, b + 1, c);
    }
    assert(layout_end(d) == c);
    let at = if long {
        c + 1
    } else {
        c
    };
    assert(d[at] == conversion);
    assert(conversion_at(d) == at);
    assert(d[0] == '%');
    assert(d[1] != '%') by {
        if a > 1 {
            assert(is_flag(flags[0]));
            assert(d[1] == flags[0]);
        } else if b > a {
            assert(d[1] == width[0]);
        } else if c > b {
            assert(d[1] == precision[0]);
        }
    }
    assert(from_directive(d) == d);
    assert(literal(d) =~= none);
    lemma_plain_literal(prefix, d);
    assert(prefix + none =~= prefix);
    assert(d.skip(at + 1) =~= suffix + none);
    lemma_plain_literal(suffix, none);
    assert(suffix + literal(none) =~= suffix);
    assert(d.take(c) =~= layout);
}

/// A character in front of a format is put in front of what it prints, and `%%` puts one percent
/// sign there; neither changes why a format is refused.
pub proof fn law_literal_in_front(c: char, s: Seq<char>)
    requires
        c != '%',
    ensures
        format_of(seq![c] + s) == (match format_of(s) {
            Ok(f) => Ok::<FormatView, FormatError>(
                FormatView {
                    prefix: seq![c] + f.prefix,
                    directive: f.directive,
                    suffix: f.suffix,
                },
            ),
            Err(e) => Err(e),
        }),
        format_of(seq!['%', '%'] + s) == (match format_of(s) {
            Ok(f) => Ok::<FormatView, FormatError>(
                FormatView {
                    prefix: seq!['%'] + f.prefix,
                    directive: f.directive,
                    suffix: f.suffix,
                },
            ),
            Err(e) => Err(e),
        }),
{
    let a = seq![c] + s;
    let b = seq!['%', '%'] + s;
    assert(a[0] == c);
    assert(a.skip(1) =~= s);
    assert(b[0] == '%' && b[1] == '%');
    assert(b.skip(2) =~= s);
}

/// A format with a second directive, an unknown one, or none behind its `%` is refused.
pub proof fn law_refused_formats(
    prefix: Seq<char>,
    conversion: char,
    between: Seq<char>,
    second: Seq<char>,
    odd: char,
    rest: Seq<char>,
)
    requires
        !prefix.contains('%'),
        !between.contains('%'),
        is_conversion(conversion),
        second.len() > 0,
        second[0] != '%',
        !is_conversion(odd),
        !is_flag(odd),
        !('0' <= odd <= '9'),
        odd != '.' && odd != 'L' && odd != '%',
    ensures
        format_of(prefix + (seq!['%', conversion] + (between + (seq!['%'] + second)))) == Err::<
            FormatView,
            FormatError,
        >(FormatError::TooManyDirectives),
        format_of(prefix + (seq!['%', odd] + rest)) == Err::<FormatView, FormatError>(
            FormatError::UnknownDirective(odd),
        ),
        format_of(prefix + seq!['%']) == Err::<FormatView, FormatError>(
            FormatError::EndsInDirective,
        ),
{
    let tail = between + (seq!['%'] + second);
    let d = seq!['%', conversion] + tail;
    lemma_plain_literal(prefix, d);
    assert(d[0] == '%' && d[1] == conversion);
    assert(flags_end(d, 1) == 1 && digits_end(d, 1) == 1);
    assert(conversion_at(d) == 1);
    assert(d.skip(2) =~= tail);
    let more = seq!['%'] + second;
    lemma_plain_literal(between, more);
    assert(more[0] == '%' && more[1] == second[0]);
    assert(from_directive(more) == more);
    let u = seq!['%', odd] + rest;
    lemma_plain_literal(prefix, u);
    assert(u[0] == '%' && u[1] == odd);
    assert(flags_end(u, 1) == 1 && digits_end(u, 1) == 1);
    assert(conversion_at(u) == 1);
    let e = seq!['%'];
    lemma_plain_literal(prefix, e);
    assert(flags_end(e, 1) == 1 && digits_end(e, 1) == 1);
    assert(conversion_at(e) == 1);
}

/// A `%%` behind the directive puts one percent sign into what is printed there.
pub proof fn law_percent_behind(
    prefix: Seq<char>,
    conversion: char,
    before: Seq<char>,
    after: Seq<char>,
)
    requires
        !prefix.contains('%'),
        !before.contains('%'),
        !after.contains('%'),
        is_conversion(conversion),
    ensures
        format_of(prefix + (seq!['%', conversion] + (before + (seq!['%', '%'] + after)))) == Ok::<
            FormatView,
            FormatError,
        >(
            FormatView {
                prefix,
                directive: seq!['%', conversion],
                suffix: before + seq!['%'] + after,
            },
        ),
{
    let none = Seq::<char>::empty();
    let more = seq!['%', '%'] + after;
    let tail = before + more;
    let d = seq!['%', conversion] + tail;
    lemma_plain_literal(prefix, d);
    assert(d[0] == '%' && d[1] == conversion);
    assert(from_directive(d) == d);
    assert(literal(d) =~= none);
    assert(prefix + none =~= prefix);
    assert(flags_end(d, 1) == 1 && digits_end(d, 1) == 1);
    assert(layout_end(d) == 1 && conversion_at(d) == 1);
    assert(d.skip(2) =~= tail);
    lemma_plain_literal(before, more);
    assert(more[0] == '%' && more[1] == '%');
    assert(more.skip(2) =~= after + none);
    lemma_plain_literal(after, none);
    assert(after + literal(none) =~= after);
    assert(before + (seq!['%'] + after) =~= before + seq!['%'] + after);
    assert(d.take(1).push(conversion) =~= seq!['%', conversion]);
}

} // verus!
