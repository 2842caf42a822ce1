//! `seq`: print a sequence of numbers.
//!
//!   * `seq LAST`, `seq FIRST LAST`, `seq FIRST STEP LAST`
//!   * negative FIRST/STEP/LAST (descending when STEP < 0), `--`
//!   * integer sequences print as integers; otherwise the output precision is
//!     the largest number of fractional digits among the operands
//!   * `-s SEP` / `--separator`, `-w` / `--equal-width`, `-f FMT` / `--format`
//!
//! Integer sequences are computed here from the arguments to the printed text. For the
//! others the terms come from floating-point arithmetic outside, and are laid out here.

use crate::builtins::seq_format::{format_of, parse_format, Format, FormatError, FormatView};
use crate::builtins::{about, arg_at, Status};
use crate::number::{
    count_fraction, decimal, digits, exponent_index, float_text_ok, fraction_len, int_operand,
    int_text, is_digit, is_float_text, is_int_text, is_mantissa, law_small_ints_are_exact,
    lemma_int_text_has_value, read_int_operand, round_through_double, through_double,
    without_sign, write_digits, write_int, written_as_int,
};
use crate::text::{
    byte_len, char_width, chars_of, copy_text, find_first, first_index, is_text, join,
    join_texts, maybe, push_text, repeated, texts, trim, trimmed,
};
use vstd::prelude::*;
use vstd::slice::slice_subrange;

verus! {

/// Why `seq` refuses its arguments. An argument is named by its index.
#[derive(Clone, Copy, Debug, PartialEq, Eq, Structural)]
pub enum SeqError {
    /// `--separator` is the last argument.
    SeparatorNeedsArgument,
    /// `--format` is the last argument.
    FormatNeedsArgument,
    /// `-s` or `-f` is the last argument.
    FlagNeedsArgument(char),
    /// A long option that is not known.
    UnsupportedOption(usize),
    /// A short option that is not known.
    UnsupportedFlag(char),
    /// Not one, two or three operands.
    OperandCount(usize),
    /// A format that cannot be used.
    InvalidFormat(FormatError),
    /// Both a format and equal width.
    FormatWithEqualWidth,
    /// An operand that is not a number.
    InvalidNumber(usize),
    /// The step is zero.
    ZeroIncrement,
}

/// The options of `seq`.
pub struct SeqOptions {
    /// What stands between two terms; a line break if nothing was given.
    pub separator: Option<Vec<char>>,
    /// Whether all terms are padded to the same width.
    pub equal_width: bool,
    /// How terms are written, if that was given.
    pub format: Option<Vec<char>>,
}

/// The contents of [`SeqOptions`].
#[verifier::ext_equal]
pub struct SeqOptionsView {
    pub separator: Option<Seq<char>>,
    pub equal_width: bool,
    pub format: Option<Seq<char>>,
}

impl View for SeqOptions {
    type V = SeqOptionsView;

    open spec fn view(&self) -> SeqOptionsView {
        SeqOptionsView {
            separator: maybe(self.separator),
            equal_width: self.equal_width,
            format: maybe(self.format),
        }
    }
}

/// Whether an argument is an option: a leading `-` not followed by a digit or `.`, which
/// would make it a negative number.
pub open spec fn looks_like_option(arg: Seq<char>) -> bool {
    arg.len() >= 2 && arg[0] == '-' && !(is_digit(arg[1]) || arg[1] == '.')
}

/// The options after the short options `flags[j..]`, and whether they took `next`, the
/// argument behind them.
pub open spec fn short_options(
    flags: Seq<char>,
    j: int,
    opts: SeqOptionsView,
    next: Option<Seq<char>>,
) -> Result<(SeqOptionsView, bool), SeqError>
    decreases flags.len() - j,
{
    if j >= flags.len() {
        Ok((opts, false))
    } else if flags[j] == 'w' {
        short_options(flags, j + 1, SeqOptionsView { equal_width: true, ..opts }, next)
    } else if flags[j] == 's' {
        if j + 1 < flags.len() {
            Ok((SeqOptionsView { separator: Some(flags.skip(j + 1)), ..opts }, false))
        } else {
            match next {
                Some(sep) => Ok((SeqOptionsView { separator: Some(sep), ..opts }, true)),
                None => Err(SeqError::FlagNeedsArgument('s')),
            }
        }
    } else if flags[j] == 'f' {
        if j + 1 < flags.len() {
            Ok((SeqOptionsView { format: Some(flags.skip(j + 1)), ..opts }, false))
        } else {
            match next {
                Some(f) => Ok((SeqOptionsView { format: Some(f), ..opts }, true)),
                None => Err(SeqError::FlagNeedsArgument('f')),
            }
        }
    } else {
        Err(SeqError::UnsupportedFlag(flags[j]))
    }
}

/// The options after the long option `--body`, which is argument `i`, and whether it took
/// `next`, the argument behind it.
pub open spec fn long_option(
    body: Seq<char>,
    i: int,
    opts: SeqOptionsView,
    next: Option<Seq<char>>,
) -> Result<(SeqOptionsView, bool), SeqError> {
    let cut = first_index(body, '=');
    let name = body.take(cut);
    if name == "equal-width"@ {
        Ok((SeqOptionsView { equal_width: true, ..opts }, false))
    } else if name == "separator"@ {
        if cut < body.len() {
            Ok((SeqOptionsView { separator: Some(body.skip(cut + 1)), ..opts }, false))
        } else {
            match next {
                Some(sep) => Ok((SeqOptionsView { separator: Some(sep), ..opts }, true)),
                None => Err(SeqError::SeparatorNeedsArgument),
            }
        }
    } else if name == "format"@ {
        if cut < body.len() {
            Ok((SeqOptionsView { format: Some(body.skip(cut + 1)), ..opts }, false))
        } else {
            match next {
                Some(f) => Ok((SeqOptionsView { format: Some(f), ..opts }, true)),
                None => Err(SeqError::FormatNeedsArgument),
            }
        }
    } else {
        Err(SeqError::UnsupportedOption(i as usize))
    }
}

/// The options after the option argument `args[i]`, and whether it took the one behind it.
pub open spec fn one_option(args: Seq<Seq<char>>, i: int, opts: SeqOptionsView) -> Result<
    (SeqOptionsView, bool),
    SeqError,
> {
    let next = if i + 1 < args.len() {
        Some(args[i + 1])
    } else {
        None
    };
    if args[i][1] == '-' {
        long_option(args[i].skip(2), i, opts, next)
    } else {
        short_options(args[i].skip(1), 0, opts, next)
    }
}

/// The options in `args[i..]` on top of `opts`, and the index of the first operand.
pub open spec fn options_from(args: Seq<Seq<char>>, i: int, opts: SeqOptionsView) -> Result<
    (SeqOptionsView, int),
    SeqError,
>
    decreases args.len() - i,
{
    if i >= args.len() {
        Ok((opts, i))
    } else if args[i] == seq!['-', '-'] {
        Ok((opts, i + 1))
    } else if !looks_like_option(args[i]) {
        Ok((opts, i))
    } else {
        proof {
            lemma_one_option_used(args, i, opts);
        }
        match one_option(args, i, opts) {
            Err(e) => Err(e),
            Ok((o, used)) => options_from(
                args,
                if used {
                    i + 2
                } else {
                    i + 1
                },
                o,
            ),
        }
    }
}

proof fn lemma_short_options_used(
    flags: Seq<char>,
    j: int,
    opts: SeqOptionsView,
    next: Option<Seq<char>>,
)
    ensures
        short_options(flags, j, opts, next) matches Ok((o, true)) ==> next is Some,
    decreases flags.len() - j,
{
    if j < flags.len() && flags[j] == 'w' {
        lemma_short_options_used(flags, j + 1, SeqOptionsView { equal_width: true, ..opts }, next);
    }
}

/// An option takes the argument behind it only if there is one.
pub proof fn lemma_one_option_used(args: Seq<Seq<char>>, i: int, opts: SeqOptionsView)
    ensures
        one_option(args, i, opts) matches Ok((o, true)) ==> i + 1 < args.len(),
{
    let next = if i + 1 < args.len() {
        Some(args[i + 1])
    } else {
        None
    };
    lemma_short_options_used(args[i].skip(1), 0, opts, next);
}

/// No options.
pub open spec fn no_options() -> SeqOptionsView {
    SeqOptionsView { separator: None, equal_width: false, format: None }
}

/// Whether `arg` is an option.
pub fn is_option(arg: &[char]) -> (r: bool)
    ensures
        r == looks_like_option(arg@),
{
    arg.len() >= 2 && arg[0] == '-' && !(('0' <= arg[1] && arg[1] <= '9') || arg[1] == '.')
}

#[verifier::loop_isolation(false)]
fn parse_short(
    flags: &[char],
    opts: SeqOptions,
    next: Option<&[char]>,
) -> (r: Result<(SeqOptions, bool), SeqError>)
    ensures
        short_options(
            flags@,
            0,
            opts@,
            match next {
                Some(n) => Some(n@),
                None => None,
            },
        ) == (match r {
            Ok((o, used)) => Ok((o@, used)),
            Err(e) => Err(e),
        }),
{
    let ghost after = match next {
        Some(n) => Some(n@),
        None => None,
    };
    let mut opts = opts;
    let ghost all = short_options(flags@, 0, opts@, after);
    let mut j: usize = 0;
    while j < flags.len()
        invariant
            j <= flags@.len(),
            after == (match next {
                Some(n) => Some(n@),
                None => None,
            }),
            all == short_options(flags@, j as int, opts@, after),
        decreases flags@.len() - j,
    {
        if flags[j] == 'w' {
            let ghost before = opts@;
            opts.equal_width = true;
            assert(opts@ == SeqOptionsView { equal_width: true, ..before });
            j += 1;
        } else if flags[j] == 's' {
            if j + 1 < flags.len() {
                let rest = slice_subrange(flags, j + 1, flags.len());
                assert(rest@ =~= flags@.skip(j as int + 1));
                opts.separator = Some(copy_text(rest));
                return Ok((opts, false));
            }
            return match next {
                Some(sep) => {
                    opts.separator = Some(copy_text(sep));
                    Ok((opts, true))
                },
                None => Err(SeqError::FlagNeedsArgument('s')),
            };
        } else if flags[j] == 'f' {
            if j + 1 < flags.len() {
                let rest = slice_subrange(flags, j + 1, flags.len());
                assert(rest@ =~= flags@.skip(j as int + 1));
                opts.format = Some(copy_text(rest));
                return Ok((opts, false));
            }
            return match next {
                Some(f) => {
                    opts.format = Some(copy_text(f));
                    Ok((opts, true))
                },
                None => Err(SeqError::FlagNeedsArgument('f')),
            };
        } else {
            return Err(SeqError::UnsupportedFlag(flags[j]));
        }
    }
    Ok((opts, false))
}

fn parse_long(
    body: &[char],
    i: usize,
    opts: SeqOptions,
    next: Option<&[char]>,
) -> (r: Result<(SeqOptions, bool), SeqError>)
    ensures
        long_option(
            body@,
            i as int,
            opts@,
            match next {
                Some(n) => Some(n@),
                None => None,
            },
        ) == (match r {
            Ok((o, used)) => Ok((o@, used)),
            Err(e) => Err(e),
        }),
{
    let mut opts = opts;
    let cut: usize = find_first(body, '=');
    let name = slice_subrange(body, 0, cut);
    assert(name@ =~= body@.take(cut as int));
    if is_text(name, "equal-width") {
        opts.equal_width = true;
        return Ok((opts, false));
    }
    if is_text(name, "separator") {
        if cut < body.len() {
            let rest = slice_subrange(body, cut + 1, body.len());
            assert(rest@ =~= body@.skip(cut as int + 1));
            opts.separator = Some(copy_text(rest));
            return Ok((opts, false));
        }
        return match next {
            Some(sep) => {
                opts.separator = Some(copy_text(sep));
                Ok((opts, true))
            },
            None => Err(SeqError::SeparatorNeedsArgument),
        };
    }
    if is_text(name, "format") {
        if cut < body.len() {
            let rest = slice_subrange(body, cut + 1, body.len());
            assert(rest@ =~= body@.skip(cut as int + 1));
            opts.format = Some(copy_text(rest));
            return Ok((opts, false));
        }
        return match next {
            Some(f) => {
                opts.format = Some(copy_text(f));
                Ok((opts, true))
            },
            None => Err(SeqError::FormatNeedsArgument),
        };
    }
    Err(SeqError::UnsupportedOption(i))
}

/// Parse leading options; returns the options and the index of the first operand.
#[verifier::loop_isolation(false)]
pub fn parse_options(args: &[Vec<char>]) -> (r: Result<(SeqOptions, usize), SeqError>)
    requires
        args@.len() > 0,
    ensures
        options_from(texts(args@), 1, no_options()) == (match r {
            Ok((o, first)) => Ok((o@, first as int)),
            Err(e) => Err(e),
        }),
        r matches Ok((o, first)) ==> 1 <= first <= args@.len(),
{
    let mut opts = SeqOptions { separator: None, equal_width: false, format: None };
    let ghost all = options_from(texts(args@), 1, no_options());
    let mut i: usize = 1;
    while i < args.len()
        invariant
            1 <= i <= args@.len(),
            all == options_from(texts(args@), i as int, opts@),
        decreases args@.len() - i,
    {
        let arg = args[i].as_slice();
        assert(texts(args@)[i as int] == arg@);
        if arg.len() == 2 && arg[0] == '-' && arg[1] == '-' {
            assert(arg@ =~= seq!['-', '-']);
            return Ok((opts, i + 1));
        }
        assert(arg@ != seq!['-', '-']) by {
            if arg@ == seq!['-', '-'] {
                assert(arg@.len() == 2 && arg@[0] == '-' && arg@[1] == '-');
            }
        }
        if !is_option(arg) {
            return Ok((opts, i));
        }
        let next: Option<&[char]> = if i + 1 < args.len() {
            Some(args[i + 1].as_slice())
        } else {
            None
        };
        proof {
            lemma_one_option_used(texts(args@), i as int, opts@);
        }
        let parsed = if arg[1] == '-' {
            let body = slice_subrange(arg, 2, arg.len());
            assert(body@ =~= arg@.skip(2));
            parse_long(body, i, opts, next)
        } else {
            let flags = slice_subrange(arg, 1, arg.len());
            assert(flags@ =~= arg@.skip(1));
            parse_short(flags, opts, next)
        };
        match parsed {
            Ok((o, used)) => {
                opts = o;
                if used {
                    i += 2;
                } else {
                    i += 1;
                }
            },
            Err(e) => {
                return Err(e);
            },
        }
    }
    Ok((opts, i))
}

/// A text padded on the left with zeros to `width` bytes, a leading sign staying in front.
pub open spec fn padded(s: Seq<char>, width: nat) -> Seq<char> {
    if byte_len(s) >= width {
        s
    } else {
        let zeros = repeated('0', (width - byte_len(s)) as nat);
        if s.len() > 0 && s[0] == '-' {
            seq!['-'] + zeros + s.skip(1)
        } else {
            zeros + s
        }
    }
}

proof fn lemma_byte_len_grows(s: Seq<char>, i: int)
    requires
        0 <= i <= s.len(),
    ensures
        byte_len(s.take(i)) <= byte_len(s),
    decreases s.len(),
{
    if i == s.len() {
        assert(s.take(i) =~= s);
    } else {
        lemma_byte_len_grows(s.drop_last(), i);
        assert(s.drop_last().take(i) =~= s.take(i));
    }
}

/// The UTF-8 width of a character.
fn width_of(c: char) -> (r: usize)
    ensures
        r == char_width(c),
        1 <= r <= 4,
{
    let n: u32 = c as u32;
    if n < 0x80 {
        1
    } else if n < 0x800 {
        2
    } else if n < 0x10000 {
        3
    } else {
        4
    }
}

/// How many bytes a text is short of `width`; 0 if it is not.
fn missing_bytes(s: &[char], width: usize) -> (r: usize)
    ensures
        r == if byte_len(s@) >= width {
            0
        } else {
            width - byte_len(s@)
        },
{
    let mut left: usize = width;
    let mut i: usize = 0;
    while i < s.len()
        invariant
            i <= s@.len(),
            left <= width,
            left + byte_len(s@.take(i as int)) == width,
        decreases s@.len() - i,
    {
        let w: usize = width_of(s[i]);
        assert(s@.take(i as int + 1).drop_last() =~= s@.take(i as int));
        if w >= left {
            proof {
                lemma_byte_len_grows(s@, i as int + 1);
            }
            return 0;
        }
        left = left - w;
        i += 1;
    }
    assert(s@.take(i as int) =~= s@);
    left
}

/// Left-pad with zeros to `width`, keeping any leading sign first (for `-w`).
pub fn zero_pad(s: &[char], width: usize) -> (r: Vec<char>)
    ensures
        r@ == padded(s@, width as nat),
{
    let pad: usize = missing_bytes(s, width);
    if pad == 0 {
        return copy_text(s);
    }
    let mut out: Vec<char> = Vec::new();
    let signed: bool = s.len() > 0 && s[0] == '-';
    if signed {
        out.push('-');
    }
    let ghost front = out@;
    let mut i: usize = 0;
    while i < pad
        invariant
            i <= pad,
            out@ == front + repeated('0', i as nat),
        decreases pad - i,
    {
        out.push('0');
        i += 1;
        assert(out@ =~= front + repeated('0', i as nat));
    }
    if signed {
        assert(s@.subrange(1, s@.len() as int) =~= s@.skip(1));
        push_text(&mut out, slice_subrange(s, 1, s.len()));
        assert(front =~= seq!['-']);
        assert(out@ =~= padded(s@, width as nat));
    } else {
        push_text(&mut out, s);
        assert(out@ =~= padded(s@, width as nat));
    }
    out
}

/// The terms as they are shown: padded to the width, if one is given.
pub open spec fn shown_terms(terms: Seq<Seq<char>>, width: Option<nat>) -> Seq<Seq<char>> {
    Seq::new(
        terms.len(),
        |i: int|
            match width {
                Some(w) => padded(terms[i], w),
                None => terms[i],
            },
    )
}

/// The terms as they are printed: padded if a width is given, the separator between
/// neighbours, and a line break behind the last. No terms print nothing.
pub open spec fn laid_out(terms: Seq<Seq<char>>, sep: Seq<char>, width: Option<nat>) -> Seq<char> {
    if terms.len() == 0 {
        Seq::empty()
    } else {
        join(shown_terms(terms, width), sep).push('\n')
    }
}

/// The separator that the options ask for.
pub open spec fn separator_of(opts: SeqOptionsView) -> Seq<char> {
    match opts.separator {
        Some(s) => s,
        None => seq!['\n'],
    }
}

/// Lays out the terms of a sequence.
pub fn lay_out(terms: &[Vec<char>], opts: &SeqOptions, width: usize) -> (r: Vec<char>)
    ensures
        r@ == laid_out(
            texts(terms@),
            separator_of(opts@),
            if opts.equal_width {
                Some(width as nat)
            } else {
                None
            },
        ),
{
    let ghost w = if opts.equal_width {
        Some(width as nat)
    } else {
        None
    };
    let ghost shown = Seq::new(
        terms@.len(),
        |i: int|
            match w {
                Some(n) => padded(terms@[i]@, n),
                None => terms@[i]@,
            },
    );
    let mut out: Vec<Vec<char>> = Vec::new();
    let mut i: usize = 0;
    while i < terms.len()
        invariant
            i <= terms@.len(),
            w == (if opts.equal_width {
                Some(width as nat)
            } else {
                None
            }),
            shown == Seq::new(
                terms@.len(),
                |i: int|
                    match w {
                        Some(n) => padded(terms@[i]@, n),
                        None => terms@[i]@,
                    },
            ),
            texts(out@) == shown.take(i as int),
        decreases terms@.len() - i,
    {
        let ghost before = texts(out@);
        if opts.equal_width {
            out.push(zero_pad(terms[i].as_slice(), width));
        } else {
            out.push(copy_text(terms[i].as_slice()));
        }
        assert(texts(out@) =~= before.push(shown[i as int]));
        i += 1;
        assert(texts(out@) =~= shown.take(i as int));
    }
    assert(shown.take(i as int) =~= shown);
    if terms.len() == 0 {
        return Vec::new();
    }
    let newline: &[char] = &['\n'];
    assert(newline@ =~= seq!['\n']);
    let sep: &[char] = match &opts.separator {
        Some(s) => s.as_slice(),
        None => newline,
    };
    let mut r = join_texts(out.as_slice(), sep);
    r.push('\n');
    let ghost t = texts(terms@);
    assert(shown =~= Seq::new(
        t.len(),
        |i: int|
            match w {
                Some(n) => padded(t[i], n),
                None => t[i],
            },
    ));
    r
}

/// The number of terms from `first` by `step` up (or down) to `last`.
pub open spec fn term_count(first: int, step: int, last: int) -> nat {
    if step > 0 && first <= last {
        ((last - first) / step + 1) as nat
    } else if step < 0 && first >= last {
        ((first - last) / -step + 1) as nat
    } else {
        0
    }
}

/// The terms from `first` by `step` up (or down) to `last`.
pub open spec fn int_terms(first: int, step: int, last: int) -> Seq<int> {
    Seq::new(term_count(first, step, last), |k: int| first + k * step)
}

/// Whether the first value past the end still fits in 64 bits.
pub open spec fn steps_fit(first: int, step: int, last: int) -> bool {
    i64::MIN <= first + term_count(first, step, last) * step <= i64::MAX
}

/// The text of each term, as it comes out of double precision.
pub open spec fn term_texts(terms: Seq<int>) -> Seq<Seq<char>> {
    Seq::new(terms.len(), |k: int| int_text(through_double(terms[k])))
}

/// What an integer sequence prints.
pub open spec fn int_output(first: int, step: int, last: int, opts: SeqOptionsView) -> Seq<char> {
    let terms = int_terms(first, step, last);
    let a = int_text(first).len();
    let b = int_text(last).len();
    laid_out(
        term_texts(terms),
        separator_of(opts),
        if opts.equal_width {
            Some(
                if a >= b {
                    a
                } else {
                    b
                },
            )
        } else {
            None
        },
    )
}

proof fn lemma_term_count(first: int, step: int, last: int, k: int)
    requires
        step != 0,
        0 <= k,
    ensures
        step > 0 ==> (first + k * step <= last <==> k < term_count(first, step, last)),
        step < 0 ==> (first + k * step >= last <==> k < term_count(first, step, last)),
{
    if step > 0 {
        if first <= last {
            let q = (last - first) / step;
            vstd::arithmetic::div_mod::lemma_fundamental_div_mod(last - first, step);
            vstd::arithmetic::div_mod::lemma_mod_bound(last - first, step);
            let r = (last - first) % step;
            assert(q >= 0) by (nonlinear_arith)
                requires
                    q == (last - first) / step,
                    last >= first,
                    step > 0,
            ;
            assert(k * step <= step * q + r <==> k <= q) by (nonlinear_arith)
                requires
                    0 <= r < step,
            ;
        } else {
            assert(k * step >= 0) by (nonlinear_arith)
                requires
                    k >= 0,
                    step > 0,
            ;
        }
    } else {
        let d = -step;
        assert(k * step == -(k * d)) by (nonlinear_arith)
            requires
                d == -step,
        ;
        if first >= last {
            let q = (first - last) / d;
            vstd::arithmetic::div_mod::lemma_fundamental_div_mod(first - last, d);
            vstd::arithmetic::div_mod::lemma_mod_bound(first - last, d);
            let r = (first - last) % d;
            assert(q >= 0) by (nonlinear_arith)
                requires
                    q == (first - last) / d,
                    first >= last,
                    d > 0,
            ;
            assert(k * d <= d * q + r <==> k <= q) by (nonlinear_arith)
                requires
                    0 <= r < d,
            ;
        } else {
            assert(k * d >= 0) by (nonlinear_arith)
                requires
                    k >= 0,
                    d > 0,
            ;
        }
    }
}

/// Prints an integer sequence.
#[verifier::loop_isolation(false)]
fn print_ints(first: i64, step: i64, last: i64, opts: &SeqOptions) -> (r: Vec<char>)
    requires
        step != 0,
        steps_fit(first as int, step as int, last as int),
    ensures
        r@ == int_output(first as int, step as int, last as int, opts@),
{
    let ghost n = term_count(first as int, step as int, last as int);
    let ghost terms = int_terms(first as int, step as int, last as int);
    let ghost shown = Seq::new(terms.len(), |k: int| int_text(through_double(terms[k])));
    let mut out: Vec<Vec<char>> = Vec::new();
    let mut x: i64 = first;
    let ghost mut k: int = 0;
    proof {
        lemma_term_count(first as int, step as int, last as int, 0);
    }
    assert(texts(out@) =~= shown.take(0));
    while (step > 0 && x <= last) || (step < 0 && x >= last)
        invariant
            0 <= k <= n,
            x == first + k * step,
            texts(out@) == shown.take(k),
            (step > 0 && x <= last) || (step < 0 && x >= last) <==> k < n,
        decreases n - k,
    {
        let ghost before = texts(out@);
        out.push(write_int(round_through_double(x)));
        assert(terms[k] == x);
        assert(texts(out@) =~= before.push(shown[k]));
        assert(texts(out@) =~= shown.take(k + 1));
        proof {
            let s = step as int;
            let f = first as int;
            assert(f + (k + 1) * s == x + s) by (nonlinear_arith)
                requires
                    x == f + k * s,
            ;
            // The next value lies between this one and the one past the end.
            assert(s > 0 ==> f + (k + 1) * s <= f + n * s) by (nonlinear_arith)
                requires
                    k + 1 <= n,
            ;
            assert(s < 0 ==> f + (k + 1) * s >= f + n * s) by (nonlinear_arith)
                requires
                    k + 1 <= n,
            ;
            lemma_term_count(f, s, last as int, k + 1);
            k = k + 1;
        }
        x = x + step;
    }
    assert(shown.take(k) =~= shown);
    let a: usize = write_int(first).len();
    let b: usize = write_int(last).len();
    let width: usize = if a >= b {
        a
    } else {
        b
    };
    lay_out(out.as_slice(), opts, width)
}

/// A sequence whose terms are floating-point numbers. Its operands are named by their
/// index among the arguments.
pub struct FloatSeq {
    /// The first term, if it is not 1.
    pub first: Option<usize>,
    /// The step, if it is not 1.
    pub step: Option<usize>,
    /// The bound.
    pub last: usize,
    /// The number of fractional digits to print, where no format is given.
    pub precision: usize,
    /// How the terms are written, if that was given.
    pub format: Option<Format>,
    /// How to lay the terms out.
    pub options: SeqOptions,
}

/// The contents of [`FloatSeq`].
#[verifier::ext_equal]
pub struct FloatSeqView {
    pub first: Option<usize>,
    pub step: Option<usize>,
    pub last: usize,
    pub precision: usize,
    pub format: Option<FormatView>,
    pub options: SeqOptionsView,
}

impl View for FloatSeq {
    type V = FloatSeqView;

    open spec fn view(&self) -> FloatSeqView {
        FloatSeqView {
            first: self.first,
            step: self.step,
            last: self.last,
            precision: self.precision,
            format: match self.format {
                Some(f) => Some(f@),
                None => None,
            },
            options: self.options@,
        }
    }
}

/// What the arguments of `seq` ask for.
pub enum SeqPlan {
    /// An integer sequence.
    Integer { first: i64, step: i64, last: i64, options: SeqOptions },
    /// Any other sequence.
    Floating(FloatSeq),
}

/// The contents of [`SeqPlan`].
#[verifier::ext_equal]
pub enum SeqPlanView {
    Integer { first: int, step: int, last: int, options: SeqOptionsView },
    Floating(FloatSeqView),
}

impl View for SeqPlan {
    type V = SeqPlanView;

    open spec fn view(&self) -> SeqPlanView {
        match *self {
            SeqPlan::Integer { first, step, last, options } => SeqPlanView::Integer {
                first: first as int,
                step: step as int,
                last: last as int,
                options: options@,
            },
            SeqPlan::Floating(f) => SeqPlanView::Floating(f@),
        }
    }
}

/// What `seq` does.
pub enum SeqOutcome {
    /// Print this text.
    Print(Vec<char>),
    /// Compute the terms in floating point, then lay them out with [`finish_float`].
    Compute(FloatSeq),
}

/// The contents of [`SeqOutcome`].
#[verifier::ext_equal]
pub enum SeqOutcomeView {
    Print(Seq<char>),
    Compute(FloatSeqView),
}

impl View for SeqOutcome {
    type V = SeqOutcomeView;

    open spec fn view(&self) -> SeqOutcomeView {
        match *self {
            SeqOutcome::Print(text) => SeqOutcomeView::Print(text@),
            SeqOutcome::Compute(f) => SeqOutcomeView::Compute(f@),
        }
    }
}

/// The index of the first argument from `i` on that is not a number, or the number of
/// arguments.
pub open spec fn first_invalid(args: Seq<Seq<char>>, i: int) -> int
    decreases args.len() - i,
{
    if i >= args.len() || !is_float_text(trimmed(args[i])) {
        i
    } else {
        first_invalid(args, i + 1)
    }
}

/// Whether all arguments from `i` on are written as integers.
pub open spec fn all_ints(args: Seq<Seq<char>>, i: int) -> bool {
    forall|k: int| i <= k < args.len() ==> is_int_text(trimmed(#[trigger] args[k]))
}

/// The largest number of fractional digits among the arguments from `i` on.
pub open spec fn most_decimals(args: Seq<Seq<char>>, i: int) -> int
    decreases args.len() - i,
{
    if i >= args.len() {
        0
    } else {
        let rest = most_decimals(args, i + 1);
        let here = fraction_len(trimmed(args[i]));
        if here > rest {
            here
        } else {
            rest
        }
    }
}

/// The parts of the format that the options give, if they give one. All terms have one width
/// only where no format is given.
pub open spec fn format_in(options: SeqOptionsView) -> Result<Option<FormatView>, SeqError> {
    match options.format {
        None => Ok(None),
        Some(s) => match format_of(s) {
            Err(e) => Err(SeqError::InvalidFormat(e)),
            Ok(f) => if options.equal_width {
                Err(SeqError::FormatWithEqualWidth)
            } else {
                Ok(Some(f))
            },
        },
    }
}

/// What the arguments of `seq` ask for. The operands are LAST, FIRST LAST or FIRST STEP
/// LAST; FIRST and STEP are 1 if they are not given.
pub open spec fn plan_of(args: Seq<Seq<char>>) -> Result<SeqPlanView, SeqError> {
    match options_from(args, 1, no_options()) {
        Err(e) => Err(e),
        Ok((options, from)) => {
            let count = args.len() - from;
            if count == 0 || count > 3 {
                Err(SeqError::OperandCount(count as usize))
            } else if format_in(options) is Err {
                Err(format_in(options)->Err_0)
            } else if first_invalid(args, from) < args.len() {
                Err(SeqError::InvalidNumber(first_invalid(args, from) as usize))
            } else if all_ints(args, from) && options.format is None {
                let first = if count >= 2 {
                    int_operand(trimmed(args[from]))
                } else {
                    1
                };
                let step = if count == 3 {
                    int_operand(trimmed(args[from + 1]))
                } else {
                    1
                };
                let last = int_operand(trimmed(args[args.len() - 1]));
                if step == 0 {
                    Err(SeqError::ZeroIncrement)
                } else {
                    Ok(SeqPlanView::Integer { first, step, last, options })
                }
            } else {
                Ok(
                    SeqPlanView::Floating(
                        FloatSeqView {
                            first: if count >= 2 {
                                Some(from as usize)
                            } else {
                                None
                            },
                            step: if count == 3 {
                                Some((from + 1) as usize)
                            } else {
                                None
                            },
                            last: (args.len() - 1) as usize,
                            precision: most_decimals(args, from) as usize,
                            format: format_in(options)->Ok_0,
                            options,
                        },
                    ),
                )
            }
        },
    }
}

/// Whether the arguments keep an integer sequence within 64 bits, the first value past its
/// end included.
pub open spec fn in_range(args: Seq<Seq<char>>) -> bool {
    plan_of(args) matches Ok(SeqPlanView::Integer { first, step, last, options }) ==> steps_fit(
        first,
        step,
        last,
    )
}

/// What `seq` does with its arguments.
pub open spec fn seq_of(args: Seq<Seq<char>>) -> Result<SeqOutcomeView, SeqError> {
    match plan_of(args) {
        Err(e) => Err(e),
        Ok(SeqPlanView::Integer { first, step, last, options }) => Ok(
            SeqOutcomeView::Print(int_output(first, step, last, options)),
        ),
        Ok(SeqPlanView::Floating(f)) => Ok(SeqOutcomeView::Compute(f)),
    }
}

proof fn lemma_first_invalid(args: Seq<Seq<char>>, i: int)
    requires
        0 <= i <= args.len(),
    ensures
        i <= first_invalid(args, i) <= args.len(),
        forall|k: int|
            i <= k < first_invalid(args, i) ==> is_float_text(trimmed(#[trigger] args[k])),
    decreases args.len() - i,
{
    if i < args.len() && is_float_text(trimmed(args[i])) {
        lemma_first_invalid(args, i + 1);
    }
}

/// The value of an integer operand.
fn operand_value(arg: &Vec<char>) -> (r: i64)
    requires
        is_float_text(trimmed(arg@)),
        is_int_text(trimmed(arg@)),
    ensures
        r == int_operand(trimmed(arg@)),
{
    proof {
        lemma_int_text_has_value(trimmed(arg@));
    }
    read_int_operand(trim(arg.as_slice()))
}

/// Finds out what the arguments of `seq` ask for.
#[verifier::loop_isolation(false)]
pub fn plan(args: &[Vec<char>]) -> (r: Result<SeqPlan, SeqError>)
    requires
        args@.len() > 0,
    ensures
        plan_of(texts(args@)) == (match r {
            Ok(p) => Ok(p@),
            Err(e) => Err(e),
        }),
{
    let ghost all = texts(args@);
    let (options, from) = match parse_options(args) {
        Ok(v) => v,
        Err(e) => {
            return Err(e);
        },
    };
    let count: usize = args.len() - from;
    if count == 0 || count > 3 {
        return Err(SeqError::OperandCount(count));
    }
    let format = match &options.format {
        Some(s) => match parse_format(s.as_slice()) {
            Ok(f) => {
                if options.equal_width {
                    return Err(SeqError::FormatWithEqualWidth);
                }
                Some(f)
            },
            Err(e) => {
                return Err(SeqError::InvalidFormat(e));
            },
        },
        None => None,
    };
    let mut i: usize = from;
    let mut ints: bool = true;
    while i < args.len()
        invariant
            from <= i <= args@.len(),
            first_invalid(all, from as int) == first_invalid(all, i as int),
            ints == (forall|k: int| from <= k < i ==> is_int_text(trimmed(#[trigger] all[k]))),
        decreases args@.len() - i,
    {
        let t = trim(args[i].as_slice());
        assert(all[i as int] == args@[i as int]@);
        if !float_text_ok(t) {
            return Err(SeqError::InvalidNumber(i));
        }
        if !written_as_int(t) {
            ints = false;
        }
        i += 1;
    }
    proof {
        lemma_first_invalid(all, from as int);
    }
    assert(ints == all_ints(all, from as int));
    if ints && format.is_none() {
        assert(is_int_text(trimmed(all[from as int])));
        assert(is_int_text(trimmed(all[args@.len() - 1])));
        let first: i64 = if count >= 2 {
            operand_value(&args[from])
        } else {
            1
        };
        let step: i64 = if count == 3 {
            assert(is_int_text(trimmed(all[from as int + 1])));
            operand_value(&args[from + 1])
        } else {
            1
        };
        let last: i64 = operand_value(&args[args.len() - 1]);
        if step == 0 {
            return Err(SeqError::ZeroIncrement);
        }
        return Ok(SeqPlan::Integer { first, step, last, options });
    }
    let mut precision: usize = 0;
    let mut k: usize = args.len();
    while k > from
        invariant
            from <= k <= args@.len(),
            precision == most_decimals(all, k as int),
        decreases k,
    {
        k -= 1;
        let here: usize = count_fraction(trim(args[k].as_slice()));
        if here > precision {
            precision = here;
        }
    }
    Ok(
        SeqPlan::Floating(
            FloatSeq {
                first: if count >= 2 {
                    Some(from)
                } else {
                    None
                },
                step: if count == 3 {
                    Some(from + 1)
                } else {
                    None
                },
                last: args.len() - 1,
                precision,
                format,
                options,
            },
        ),
    )
}

/// Whether the first value past the end of an integer sequence still fits in 64 bits.
fn steps_are_ok(first: i64, step: i64, last: i64) -> (r: bool)
    requires
        step != 0,
    ensures
        r == steps_fit(first as int, step as int, last as int),
{
    let ghost n = term_count(first as int, step as int, last as int);
    let f: i128 = first as i128;
    let s: i128 = step as i128;
    let l: i128 = last as i128;
    if s > 0 {
        if f > l {
            return true;
        }
        let q: i128 = (l - f) / s;
        proof {
            vstd::arithmetic::div_mod::lemma_fundamental_div_mod(l - f, s as int);
            vstd::arithmetic::div_mod::lemma_mod_bound(l - f, s as int);
            assert(f + (q + 1) * s == l - (l - f) % (s as int) + s) by (nonlinear_arith)
                requires
                    l - f == s * q + (l - f) % (s as int),
            ;
        }
        let past: i128 = l - (l - f) % s + s;
        past <= i64::MAX as i128
    } else {
        if f < l {
            return true;
        }
        let d: i128 = -s;
        proof {
            let q = (f - l) / (d as int);
            vstd::arithmetic::div_mod::lemma_fundamental_div_mod(f - l, d as int);
            vstd::arithmetic::div_mod::lemma_mod_bound(f - l, d as int);
            assert(f + (q + 1) * s == l + (f - l) % (d as int) - d) by (nonlinear_arith)
                requires
                    f - l == d * q + (f - l) % (d as int),
                    d == -s,
            ;
        }
        let past: i128 = l + (f - l) % d - d;
        past >= i64::MIN as i128
    }
}

/// Whether `seq` can count through its sequence within 64 bits.
pub fn seq_in_range(args: &[Vec<char>]) -> (r: bool)
    requires
        args@.len() > 0,
    ensures
        r == in_range(texts(args@)),
{
    match plan(args) {
        Ok(SeqPlan::Integer { first, step, last, options }) => steps_are_ok(first, step, last),
        Ok(SeqPlan::Floating(f)) => true,
        Err(e) => true,
    }
}

/// What `seq` does with its arguments, the first of which is its own name.
pub fn seq(args: &[Vec<char>]) -> (r: Result<SeqOutcome, SeqError>)
    requires
        args@.len() > 0,
        in_range(texts(args@)),
    ensures
        seq_of(texts(args@)) == (match r {
            Ok(o) => Ok(o@),
            Err(e) => Err(e),
        }),
{
    match plan(args) {
        Ok(SeqPlan::Integer { first, step, last, options }) => {
            Ok(SeqOutcome::Print(print_ints(first, step, last, &options)))
        },
        Ok(SeqPlan::Floating(f)) => Ok(SeqOutcome::Compute(f)),
        Err(e) => Err(e),
    }
}

/// The larger of two lengths.
pub open spec fn larger(a: nat, b: nat) -> nat {
    if a >= b {
        a
    } else {
        b
    }
}

/// Counts the bytes of a text.
fn count_bytes(s: &[char]) -> (r: usize)
    requires
        byte_len(s@) <= usize::MAX,
    ensures
        r == byte_len(s@),
{
    let mut n: usize = 0;
    let mut i: usize = 0;
    while i < s.len()
        invariant
            i <= s@.len(),
            byte_len(s@) <= usize::MAX,
            n == byte_len(s@.take(i as int)),
        decreases s@.len() - i,
    {
        assert(s@.take(i as int + 1).drop_last() =~= s@.take(i as int));
        proof {
            lemma_byte_len_grows(s@, i as int + 1);
        }
        n = n + width_of(s[i]);
        i += 1;
    }
    assert(s@.take(i as int) =~= s@);
    n
}

/// Lays out the terms of a floating-point sequence. `first` and `last` are FIRST and LAST
/// as they would be printed: they determine the width of the terms.
pub fn finish_float(
    plan: &FloatSeq,
    terms: &[Vec<char>],
    first: &[char],
    last: &[char],
) -> (r: Vec<char>)
    requires
        byte_len(first@) <= usize::MAX,
        byte_len(last@) <= usize::MAX,
    ensures
        r@ == laid_out(
            texts(terms@),
            separator_of(plan.options@),
            if plan.options.equal_width {
                Some(larger(byte_len(first@), byte_len(last@)))
            } else {
                None
            },
        ),
{
    let a: usize = count_bytes(first);
    let b: usize = count_bytes(last);
    let width: usize = if a >= b {
        a
    } else {
        b
    };
    lay_out(terms, &plan.options, width)
}

/// The status that an error leads to.
pub open spec fn status_of(e: SeqError) -> Status {
    match e {
        SeqError::InvalidNumber(_) | SeqError::ZeroIncrement => Status::CmdError,
        _ => Status::InvalidArgs,
    }
}

/// The text that reports an error.
pub open spec fn message_of(e: SeqError, args: Seq<Seq<char>>) -> Seq<char> {
    match e {
        SeqError::SeparatorNeedsArgument => "option '--separator' requires an argument"@,
        SeqError::FormatNeedsArgument => "option '--format' requires an argument"@,
        SeqError::FlagNeedsArgument(c) => "option requires an argument -- '"@ + seq![c] + seq!['\''],
        SeqError::UnsupportedOption(i) => "unsupported option: "@ + arg_at(args, i as int),
        SeqError::UnsupportedFlag(c) => "unsupported option: -"@ + seq![c],
        SeqError::OperandCount(n) => "expected 1, 2 or 3 operands, got "@ + digits(n as nat),
        SeqError::InvalidFormat(FormatError::NoDirective) => "format has no % directive"@,
        SeqError::InvalidFormat(FormatError::TooManyDirectives) => {
            "format has too many % directives"@
        },
        SeqError::InvalidFormat(FormatError::UnknownDirective(c)) => {
            "format has unknown directive: %"@ + seq![c]
        },
        SeqError::InvalidFormat(FormatError::EndsInDirective) => "format ends in %"@,
        SeqError::FormatWithEqualWidth => {
            "format string may not be specified when printing equal width strings"@
        },
        SeqError::InvalidNumber(i) => "invalid floating point argument: "@ + arg_at(args, i as int),
        SeqError::ZeroIncrement => "zero increment value is not allowed"@,
    }
}

impl SeqError {
    /// The status to return.
    pub fn status(self) -> (r: Status)
        ensures
            r == status_of(self),
    {
        match self {
            SeqError::InvalidNumber(_) | SeqError::ZeroIncrement => Status::CmdError,
            _ => Status::InvalidArgs,
        }
    }

    /// The text to report.
    pub fn message(self, args: &[Vec<char>]) -> (r: Vec<char>)
        ensures
            r@ == message_of(self, texts(args@)),
    {
        match self {
            SeqError::SeparatorNeedsArgument => chars_of(
                "option '--separator' requires an argument",
            ),
            SeqError::FormatNeedsArgument => chars_of("option '--format' requires an argument"),
            SeqError::FlagNeedsArgument(c) => {
                let mut m = chars_of("option requires an argument -- '");
                m.push(c);
                m.push('\'');
                assert(m@ =~= message_of(self, texts(args@)));
                m
            },
            SeqError::InvalidFormat(FormatError::NoDirective) => chars_of(
                "format has no % directive",
            ),
            SeqError::InvalidFormat(FormatError::TooManyDirectives) => chars_of(
                "format has too many % directives",
            ),
            SeqError::InvalidFormat(FormatError::UnknownDirective(c)) => {
                let mut m = chars_of("format has unknown directive: %");
                m.push(c);
                assert(m@ =~= message_of(self, texts(args@)));
                m
            },
            SeqError::InvalidFormat(FormatError::EndsInDirective) => chars_of("format ends in %"),
            SeqError::FormatWithEqualWidth => chars_of(
                "format string may not be specified when printing equal width strings",
            ),
            SeqError::UnsupportedOption(i) => about("unsupported option: ", args, i),
            SeqError::UnsupportedFlag(c) => {
                let mut m = chars_of("unsupported option: -");
                m.push(c);
                assert(m@ =~= message_of(self, texts(args@)));
                m
            },
            SeqError::OperandCount(n) => {
                let mut m = chars_of("expected 1, 2 or 3 operands, got ");
                let d = write_digits(n as u64);
                push_text(&mut m, d.as_slice());
                m
            },
            SeqError::InvalidNumber(i) => about("invalid floating point argument: ", args, i),
            SeqError::ZeroIncrement => chars_of("zero increment value is not allowed"),
        }
    }
}

/// Every term lies between the first one and the bound, neighbours are one step apart, and
/// the value after the last term is past the bound.
pub proof fn law_int_terms(first: int, step: int, last: int)
    requires
        step != 0,
    ensures
        ({
            let terms = int_terms(first, step, last);
            &&& terms.len() > 0 ==> terms[0] == first
            &&& forall|k: int|
                0 <= k < terms.len() ==> if step > 0 {
                    first <= #[trigger] terms[k] <= last
                } else {
                    last <= terms[k] <= first
                }
            &&& forall|k: int|
                0 <= k < terms.len() - 1 ==> terms[k + 1] == #[trigger] terms[k] + step
            &&& ({
                let next = if terms.len() == 0 {
                    first
                } else {
                    terms.last() + step
                };
                if step > 0 {
                    next > last
                } else {
                    next < last
                }
            })
        }),
{
    let terms = int_terms(first, step, last);
    let n = terms.len() as int;
    assert(first + 0 * step == first);
    assert forall|k: int| 0 <= k < n implies if step > 0 {
        first <= #[trigger] terms[k] <= last
    } else {
        last <= terms[k] <= first
    } by {
        lemma_term_count(first, step, last, k);
        assert(step > 0 ==> k * step >= 0) by (nonlinear_arith)
            requires
                k >= 0,
        ;
        assert(step < 0 ==> k * step <= 0) by (nonlinear_arith)
            requires
                k >= 0,
        ;
    }
    assert forall|k: int| 0 <= k < n - 1 implies terms[k + 1] == #[trigger] terms[k] + step by {
        assert((k + 1) * step == k * step + step) by (nonlinear_arith);
    }
    lemma_term_count(first, step, last, n);
    if n > 0 {
        assert((n - 1) * step + step == n * step) by (nonlinear_arith);
    }
}

proof fn lemma_one()
    ensures
        trimmed(seq!['1']) == seq!['1'],
        is_float_text(seq!['1']),
        is_int_text(seq!['1']),
        int_operand(seq!['1']) == 1,
{
    let one = seq!['1'];
    let none = Seq::<char>::empty();
    assert(one.drop_first() =~= none);
    assert(one.drop_last() =~= none);
    assert(first_index(none, '.') == 0);
    assert(first_index(one, '.') == 1);
    assert(exponent_index(none) == 0);
    assert(exponent_index(one) == 1);
    assert(without_sign(one) == one);
    assert(is_mantissa(one));
    assert(decimal(none) == 0);
    assert(decimal(one) == 1);
    law_small_ints_are_exact(1);
}

/// FIRST and STEP are 1 if they are not given.
pub proof fn law_first_and_step_default_to_one(cmd: Seq<char>, last: Seq<char>)
    requires
        last != seq!['-', '-'],
        !looks_like_option(last),
        is_float_text(trimmed(last)),
        is_int_text(trimmed(last)),
    ensures
        seq_of(seq![cmd, last]) == seq_of(seq![cmd, seq!['1'], last]),
        seq_of(seq![cmd, last]) == seq_of(seq![cmd, seq!['1'], seq!['1'], last]),
{
    let one = seq!['1'];
    lemma_one();
    let a = seq![cmd, last];
    let b = seq![cmd, one, last];
    let c = seq![cmd, one, one, last];
    assert(one.len() == 1);
    assert(one != seq!['-', '-']);
    assert(options_from(a, 1, no_options()) == Ok::<(SeqOptionsView, int), SeqError>(
        (no_options(), 1),
    ));
    assert(options_from(b, 1, no_options()) == Ok::<(SeqOptionsView, int), SeqError>(
        (no_options(), 1),
    ));
    assert(options_from(c, 1, no_options()) == Ok::<(SeqOptionsView, int), SeqError>(
        (no_options(), 1),
    ));
    reveal_with_fuel(first_invalid, 5);
    assert(first_invalid(a, 1) == 2);
    assert(first_invalid(b, 1) == 3);
    assert(first_invalid(c, 1) == 4);
    assert(all_ints(a, 1) && all_ints(b, 1) && all_ints(c, 1));
}

proof fn lemma_byte_len_add(a: Seq<char>, b: Seq<char>)
    ensures
        byte_len(a + b) == byte_len(a) + byte_len(b),
    decreases b.len(),
{
    if b.len() == 0 {
        assert(a + b =~= a);
    } else {
        lemma_byte_len_add(a, b.drop_last());
        assert((a + b).drop_last() =~= a + b.drop_last());
    }
}

proof fn lemma_byte_len_zeros(n: nat)
    ensures
        byte_len(repeated('0', n)) == n,
    decreases n,
{
    if n > 0 {
        lemma_byte_len_zeros((n - 1) as nat);
        assert(repeated('0', n).drop_last() =~= repeated('0', (n - 1) as nat));
    }
}

/// A padded text is exactly as wide as asked for, or as wide as it was if that is more.
pub proof fn law_padded_width(s: Seq<char>, width: nat)
    ensures
        byte_len(padded(s, width)) == larger(byte_len(s), width),
{
    if byte_len(s) < width {
        let zeros = repeated('0', (width - byte_len(s)) as nat);
        lemma_byte_len_zeros((width - byte_len(s)) as nat);
        if s.len() > 0 && s[0] == '-' {
            assert(s =~= seq!['-'] + s.skip(1));
            lemma_byte_len_add(seq!['-'], s.skip(1));
            lemma_byte_len_add(seq!['-'], zeros);
            lemma_byte_len_add(seq!['-'] + zeros, s.skip(1));
        } else {
            lemma_byte_len_add(zeros, s);
        }
    }
}

} // verus!
