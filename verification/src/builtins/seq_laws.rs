//! What `seq` prints for integers, and what its options change.

use crate::builtins::seq::{
    all_ints, first_invalid, int_output, int_terms, law_int_terms, 
    looks_like_option, most_decimals, no_options, one_option, options_from, padded,
    separator_of, seq_of, short_options, shown_terms, term_texts, SeqError, SeqOptionsView, SeqOutcomeView,
};
use crate::number::{
    all_digits, decimal, digits, exponent_index, fraction_len, int_operand, int_text,
    is_digit, is_float_text, is_int_text, is_number_text, law_digits_read_back,
    law_int_text_reads_back, law_small_ints_are_exact, lemma_exponent_index, lemma_first_index,
    signed_value, through_double, without_sign,
};
use crate::text::{
    byte_len, char_width, first_index, is_white_space, join, lemma_split_join, repeated, split,
    trimmed,
};
use vstd::prelude::*;

verus! {

/// Digits alone are a number without point and exponent.
proof fn lemma_digits_are_a_number(body: Seq<char>)
    requires
        body.len() > 0,
        all_digits(body),
    ensures
        is_number_text(body),
        is_int_text(body),
{
    lemma_first_index(body, '.');
    lemma_exponent_index(body);
    if first_index(body, '.') < body.len() {
        assert(is_digit(body[first_index(body, '.')]));
    }
    if exponent_index(body) < body.len() {
        assert(is_digit(body[exponent_index(body)]));
    }
    assert forall|i: int| 0 <= i < body.len() implies {
        let c = #[trigger] body[i];
        c != '.' && c != 'e' && c != 'E' && c != 'n' && c != 'N'
    } by {
        assert(is_digit(body[i]));
    }
}

/// What a text that writes an integer is to the reading of operands.
pub proof fn lemma_written_int(s: Seq<char>, i: int)
    requires
        signed_value(s) == Some(i),
    ensures
        trimmed(s) == s,
        is_float_text(s),
        is_int_text(s),
        int_operand(s) == through_double(i),
        !looks_like_option(s),
        s != seq!['-', '-'],
        s.len() > 0,
{
    let body = without_sign(s);
    assert(body.len() > 0 && all_digits(body));
    lemma_digits_are_a_number(body);
    assert(is_digit(body[0]));
    assert(is_digit(body[body.len() - 1]));
    assert(s.last() == body.last());
    if s[0] == '-' {
        assert(s[1] == body[0]);
    }
    assert(!is_white_space(s[0]));
    assert(!is_white_space(s.last()));
    assert forall|k: int| 0 <= k < s.len() implies {
        let c = #[trigger] s[k];
        c != '.' && c != 'e' && c != 'E' && c != 'n' && c != 'N'
    } by {
        if body.len() == s.len() {
            assert(s[k] == body[k]);
        } else if k > 0 {
            assert(s[k] == body[k - 1]);
        }
    }
    if s == seq!['-', '-'] {
        assert(s[1] == '-');
    }
}

/// The lines of an integer sequence: each the text of its term.
pub open spec fn is_lines(lines: Seq<Seq<char>>, f: int, s: int, l: int) -> bool {
    &&& forall|k: int| 0 <= k < lines.len() ==> #[trigger] lines[k] == int_text(f + k * s)
    &&& forall|k: int|
        0 <= k < lines.len() ==> signed_value(#[trigger] lines[k]) == Some(f + k * s)
    &&& forall|k: int|
        0 <= k < lines.len() ==> if s > 0 {
            f + #[trigger] (k * s) <= l
        } else {
            f + k * s >= l
        }
    &&& if s > 0 {
        f + lines.len() * s > l
    } else {
        f + lines.len() * s < l
    }
}

/// The lines that are printed for an integer sequence.
spec fn int_lines(f: int, s: int, l: int) -> Seq<Seq<char>> {
    Seq::new(int_terms(f, s, l).len(), |k: int| int_text(f + k * s))
}

proof fn lemma_int_lines(f: int, s: int, l: int)
    requires
        -0x20_0000_0000_0000 <= f <= 0x20_0000_0000_0000,
        -0x20_0000_0000_0000 <= l <= 0x20_0000_0000_0000,
        s != 0,
    ensures
        is_lines(int_lines(f, s, l), f, s, l),
        forall|k: int|
            0 <= k < int_terms(f, s, l).len() ==> int_text(
                through_double(#[trigger] int_terms(f, s, l)[k]),
            ) == int_lines(f, s, l)[k],
        forall|k: int|
            0 <= k < int_lines(f, s, l).len() ==> !(#[trigger] int_lines(f, s, l)[k]).contains(
                '\n',
            ),
{
    law_int_terms(f, s, l);
    let terms = int_terms(f, s, l);
    let lines = int_lines(f, s, l);
    assert forall|k: int| 0 <= k < lines.len() implies signed_value(#[trigger] lines[k]) == Some(
        f + k * s,
    ) by {
        law_int_text_reads_back(f + k * s);
    }
    assert forall|k: int| 0 <= k < lines.len() implies (if s > 0 {
        f + #[trigger] (k * s) <= l
    } else {
        f + k * s >= l
    }) by {
        assert(terms[k] == f + k * s);
    }
    let n = lines.len() as int;
    if n > 0 {
        assert(terms.last() == f + (n - 1) * s);
        assert((n - 1) * s + s == n * s) by (nonlinear_arith);
    } else {
        assert(n * s == 0) by (nonlinear_arith)
            requires
                n == 0,
        ;
    }
    assert forall|k: int| 0 <= k < terms.len() implies int_text(
        through_double(#[trigger] terms[k]),
    ) == lines[k] by {
        law_small_ints_are_exact(terms[k]);
    }
    assert forall|k: int| 0 <= k < lines.len() implies !(#[trigger] lines[k]).contains('\n') by {
        lemma_plain_int_text(f + k * s);
    }
}

proof fn lemma_plain_int_text(i: int)
    ensures
        !int_text(i).contains('\n'),
{
    let t = int_text(i);
    law_digits_read_back(i as nat);
    law_digits_read_back((-i) as nat);
    assert forall|k: int| 0 <= k < t.len() implies t[k] != '\n' by {
        if i < 0 {
            if k > 0 {
                assert(is_digit(digits((-i) as nat)[k - 1]));
            }
        } else {
            assert(is_digit(digits(i as nat)[k]));
        }
    }
}

/// With three integers as operands, whatever the options before them were.
proof fn lemma_three_operands(
    args: Seq<Seq<char>>,
    opts: SeqOptionsView,
    from: int,
    f: int,
    s: int,
    l: int,
)
    requires
        options_from(args, 1, no_options()) == Ok::<(SeqOptionsView, int), SeqError>((opts, from)),
        1 <= from,
        from + 3 == args.len(),
        opts.format is None,
        signed_value(args[from]) == Some(f),
        signed_value(args[from + 1]) == Some(s),
        signed_value(args[from + 2]) == Some(l),
        -0x20_0000_0000_0000 <= f <= 0x20_0000_0000_0000,
        -0x20_0000_0000_0000 <= s <= 0x20_0000_0000_0000,
        -0x20_0000_0000_0000 <= l <= 0x20_0000_0000_0000,
        s != 0,
    ensures
        seq_of(args) == Ok::<SeqOutcomeView, SeqError>(
            SeqOutcomeView::Print(int_output(f, s, l, opts)),
        ),
{
    lemma_written_int(args[from], f);
    lemma_written_int(args[from + 1], s);
    lemma_written_int(args[from + 2], l);
    law_small_ints_are_exact(f);
    law_small_ints_are_exact(s);
    law_small_ints_are_exact(l);
    assert(first_invalid(args, from + 3) == from + 3);
    assert(first_invalid(args, from + 2) == from + 3);
    assert(first_invalid(args, from + 1) == from + 3);
    assert(first_invalid(args, from) == from + 3);
    assert(all_ints(args, from)) by {
        assert forall|k: int| from <= k < args.len() implies is_int_text(
            trimmed(#[trigger] args[k]),
        ) by {
            assert(k == from || k == from + 1 || k == from + 2);
        }
    }
}

/// What is printed without equal width: the lines with the separator between them.
proof fn lemma_plain_output(f: int, s: int, l: int, opts: SeqOptionsView)
    requires
        -0x20_0000_0000_0000 <= f <= 0x20_0000_0000_0000,
        -0x20_0000_0000_0000 <= l <= 0x20_0000_0000_0000,
        s != 0,
        !opts.equal_width,
    ensures
        int_output(f, s, l, opts) == if int_lines(f, s, l).len() == 0 {
            Seq::empty()
        } else {
            join(int_lines(f, s, l), separator_of(opts)).push('\n')
        },
{
    lemma_int_lines(f, s, l);
    let terms = int_terms(f, s, l);
    let lines = int_lines(f, s, l);
    assert(term_texts(terms) =~= lines);
    assert(shown_terms(lines, None) =~= lines);
}

/// Three integers, none of them too large for double precision and the second not zero, print
/// the first, the first and the second, the first and twice the second, and so on, as long as
/// the third is not passed, one in a line.
pub proof fn law_three_integers(
    cmd: Seq<char>,
    first: Seq<char>,
    step: Seq<char>,
    last: Seq<char>,
    f: int,
    s: int,
    l: int,
)
    requires
        signed_value(first) == Some(f),
        signed_value(step) == Some(s),
        signed_value(last) == Some(l),
        -0x20_0000_0000_0000 <= f <= 0x20_0000_0000_0000,
        -0x20_0000_0000_0000 <= s <= 0x20_0000_0000_0000,
        -0x20_0000_0000_0000 <= l <= 0x20_0000_0000_0000,
        s != 0,
    ensures
        ({
            &&& seq_of(seq![cmd, first, step, last]) matches Ok(SeqOutcomeView::Print(text))
            &&& if (s > 0 && f > l) || (s < 0 && f < l) {
                text.len() == 0
            } else {
                &&& text.len() > 0
                &&& text.last() == '\n'
                &&& is_lines(split(text.drop_last(), '\n'), f, s, l)
            }
        }),
{
    let args = seq![cmd, first, step, last];
    lemma_written_int(first, f);
    assert(args[1] == first && args[2] == step && args[3] == last);
    lemma_three_operands(args, no_options(), 1, f, s, l);
    lemma_plain_output(f, s, l, no_options());
    lemma_int_lines(f, s, l);
    let lines = int_lines(f, s, l);
    if lines.len() > 0 {
        lemma_split_join(lines, '\n');
        let body = join(lines, seq!['\n']);
        assert(body.push('\n').drop_last() =~= body);
        assert(f + 0 * s == f);
    } else {
        assert(0 * s == 0);
    }
}

/// Where options end: at the first operand.
proof fn lemma_options_end(args: Seq<Seq<char>>, from: int, opts: SeqOptionsView, i: int)
    requires
        0 <= from < args.len(),
        signed_value(args[from]) == Some(i),
    ensures
        options_from(args, from, opts) == Ok::<(SeqOptionsView, int), SeqError>((opts, from)),
{
    lemma_written_int(args[from], i);
}

/// The options that hold a separator and nothing else.
spec fn separated(separator: Seq<char>) -> SeqOptionsView {
    SeqOptionsView { separator: Some(separator), equal_width: false, format: None }
}

proof fn lemma_separator_apart(cmd: Seq<char>, separator: Seq<char>, ops: Seq<Seq<char>>, f: int)
    requires
        ops.len() > 0,
        signed_value(ops[0]) == Some(f),
    ensures
        options_from(seq![cmd, seq!['-', 's'], separator] + ops, 1, no_options()) == Ok::<
            (SeqOptionsView, int),
            SeqError,
        >((separated(separator), 3)),
{
    let args = seq![cmd, seq!['-', 's'], separator] + ops;
    assert(args[3] == ops[0] && args[2] == separator);
    assert(args[1] == seq!['-', 's']);
    assert(args[1][0] == '-' && args[1][1] == 's');
    assert(args[1] != seq!['-', '-']);
    assert(args[1].skip(1) =~= seq!['s']);
    assert(one_option(args, 1, no_options()) == Ok::<(SeqOptionsView, bool), SeqError>(
        (separated(separator), true),
    ));
    lemma_options_end(args, 3, separated(separator), f);
}

proof fn lemma_separator_attached(
    cmd: Seq<char>,
    separator: Seq<char>,
    ops: Seq<Seq<char>>,
    f: int,
)
    requires
        separator.len() > 0,
        ops.len() > 0,
        signed_value(ops[0]) == Some(f),
    ensures
        options_from(seq![cmd, seq!['-', 's'] + separator] + ops, 1, no_options()) == Ok::<
            (SeqOptionsView, int),
            SeqError,
        >((separated(separator), 2)),
{
    let arg = seq!['-', 's'] + separator;
    let args = seq![cmd, arg] + ops;
    assert(args[2] == ops[0]);
    assert(args[1] == arg);
    assert(arg[0] == '-' && arg[1] == 's');
    assert(arg != seq!['-', '-']);
    let flags = arg.skip(1);
    assert(flags[0] == 's');
    assert(flags.skip(1) =~= separator);
    assert(one_option(args, 1, no_options()) == Ok::<(SeqOptionsView, bool), SeqError>(
        (separated(separator), false),
    ));
    lemma_options_end(args, 2, separated(separator), f);
}

/// The names of the long options differ.
proof fn lemma_long_names()
    ensures
        "separator"@.len() == 9,
        "equal-width"@.len() == 11,
        "--separator="@ == seq!['-', '-'] + "separator"@ + seq!['='],
        "--separator"@ == seq!['-', '-'] + "separator"@,
        "--equal-width"@ == seq!['-', '-'] + "equal-width"@,
        !"separator"@.contains('='),
        !"equal-width"@.contains('='),
{
    reveal_strlit("--separator=");
    reveal_strlit("--separator");
    reveal_strlit("--equal-width");
    reveal_strlit("separator");
    reveal_strlit("equal-width");
    assert("--separator="@ =~= seq!['-', '-'] + "separator"@ + seq!['=']);
    assert("--separator"@ =~= seq!['-', '-'] + "separator"@);
    assert("--equal-width"@ =~= seq!['-', '-'] + "equal-width"@);
}

proof fn lemma_separator_named(cmd: Seq<char>, separator: Seq<char>, ops: Seq<Seq<char>>, f: int)
    requires
        ops.len() > 0,
        signed_value(ops[0]) == Some(f),
    ensures
        options_from(seq![cmd, "--separator="@ + separator] + ops, 1, no_options()) == Ok::<
            (SeqOptionsView, int),
            SeqError,
        >((separated(separator), 2)),
{
    lemma_long_names();
    let arg = "--separator="@ + separator;
    let args = seq![cmd, arg] + ops;
    assert(args[2] == ops[0]);
    assert(args[1] == arg);
    assert(arg[0] == '-' && arg[1] == '-' && arg.len() >= 12);
    assert(arg != seq!['-', '-']);
    let body = arg.skip(2);
    assert(body =~= "separator"@ + seq!['='] + separator);
    lemma_first_index_behind("separator"@, '=', separator);
    assert(body.take(9) =~= "separator"@);
    assert(body.skip(10) =~= separator);
    assert(one_option(args, 1, no_options()) == Ok::<(SeqOptionsView, bool), SeqError>(
        (separated(separator), false),
    ));
    lemma_options_end(args, 2, separated(separator), f);
}

proof fn lemma_separator_named_apart(
    cmd: Seq<char>,
    separator: Seq<char>,
    ops: Seq<Seq<char>>,
    f: int,
)
    requires
        ops.len() > 0,
        signed_value(ops[0]) == Some(f),
    ensures
        options_from(seq![cmd, "--separator"@, separator] + ops, 1, no_options()) == Ok::<
            (SeqOptionsView, int),
            SeqError,
        >((separated(separator), 3)),
{
    lemma_long_names();
    let arg = "--separator"@;
    let args = seq![cmd, arg, separator] + ops;
    assert(args[3] == ops[0] && args[2] == separator);
    assert(args[1] == arg);
    assert(arg[0] == '-' && arg[1] == '-' && arg.len() == 11);
    assert(arg != seq!['-', '-']);
    assert(arg.skip(2) =~= "separator"@);
    lemma_no_first_index("separator"@, '=');
    assert("separator"@.take(9) =~= "separator"@);
    assert(one_option(args, 1, no_options()) == Ok::<(SeqOptionsView, bool), SeqError>(
        (separated(separator), true),
    ));
    lemma_options_end(args, 3, separated(separator), f);
}

pub proof fn lemma_no_first_index(s: Seq<char>, c: char)
    requires
        !s.contains(c),
    ensures
        first_index(s, c) == s.len(),
{
    lemma_first_index(s, c);
    if first_index(s, c) < s.len() {
        assert(s.contains(s[first_index(s, c)]));
    }
}

/// A separator stands between the same terms, instead of the line breaks.
pub proof fn law_separator(
    cmd: Seq<char>,
    separator: Seq<char>,
    ops: Seq<Seq<char>>,
    f: int,
    s: int,
    l: int,
)
    requires
        ops.len() == 3,
        signed_value(ops[0]) == Some(f),
        signed_value(ops[1]) == Some(s),
        signed_value(ops[2]) == Some(l),
        -0x20_0000_0000_0000 <= f <= 0x20_0000_0000_0000,
        -0x20_0000_0000_0000 <= s <= 0x20_0000_0000_0000,
        -0x20_0000_0000_0000 <= l <= 0x20_0000_0000_0000,
        s != 0,
    ensures
        match (
            seq_of(seq![cmd, seq!['-', 's'], separator] + ops),
            seq_of(seq![cmd] + ops),
        ) {
            (Ok(SeqOutcomeView::Print(with)), Ok(SeqOutcomeView::Print(without))) => {
                if without.len() == 0 {
                    with.len() == 0
                } else {
                    with == join(split(without.drop_last(), '\n'), separator).push('\n')
                }
            },
            _ => false,
        },
{
    let plain = seq![cmd] + ops;
    assert(plain[1] == ops[0] && plain[2] == ops[1] && plain[3] == ops[2]);
    lemma_options_end(plain, 1, no_options(), f);
    lemma_three_operands(plain, no_options(), 1, f, s, l);
    let a = seq![cmd, seq!['-', 's'], separator] + ops;
    assert(a[3] == ops[0] && a[4] == ops[1] && a[5] == ops[2]);
    lemma_separator_apart(cmd, separator, ops, f);
    lemma_three_operands(a, separated(separator), 3, f, s, l);
    lemma_plain_output(f, s, l, no_options());
    lemma_plain_output(f, s, l, separated(separator));
    lemma_int_lines(f, s, l);
    let lines = int_lines(f, s, l);
    if lines.len() > 0 {
        lemma_split_join(lines, '\n');
        let body = join(lines, seq!['\n']);
        assert(body.push('\n').drop_last() =~= body);
    }
}

/// The ways to give a separator agree.
pub proof fn law_separator_forms(
    cmd: Seq<char>,
    separator: Seq<char>,
    ops: Seq<Seq<char>>,
    f: int,
    s: int,
    l: int,
)
    requires
        ops.len() == 3,
        signed_value(ops[0]) == Some(f),
        signed_value(ops[1]) == Some(s),
        signed_value(ops[2]) == Some(l),
        -0x20_0000_0000_0000 <= f <= 0x20_0000_0000_0000,
        -0x20_0000_0000_0000 <= s <= 0x20_0000_0000_0000,
        -0x20_0000_0000_0000 <= l <= 0x20_0000_0000_0000,
        s != 0,
    ensures
        separator.len() > 0 ==> seq_of(seq![cmd, seq!['-', 's'] + separator] + ops) == seq_of(
            seq![cmd, seq!['-', 's'], separator] + ops,
        ),
        seq_of(seq![cmd, "--separator="@ + separator] + ops) == seq_of(
            seq![cmd, seq!['-', 's'], separator] + ops,
        ),
        seq_of(seq![cmd, "--separator"@, separator] + ops) == seq_of(
            seq![cmd, seq!['-', 's'], separator] + ops,
        ),
{
    let a = seq![cmd, seq!['-', 's'], separator] + ops;
    assert(a[3] == ops[0] && a[4] == ops[1] && a[5] == ops[2]);
    lemma_separator_apart(cmd, separator, ops, f);
    lemma_three_operands(a, separated(separator), 3, f, s, l);
    if separator.len() > 0 {
        let b = seq![cmd, seq!['-', 's'] + separator] + ops;
        assert(b[2] == ops[0] && b[3] == ops[1] && b[4] == ops[2]);
        lemma_separator_attached(cmd, separator, ops, f);
        lemma_three_operands(b, separated(separator), 2, f, s, l);
    }
    let c = seq![cmd, "--separator="@ + separator] + ops;
    assert(c[2] == ops[0] && c[3] == ops[1] && c[4] == ops[2]);
    lemma_separator_named(cmd, separator, ops, f);
    lemma_three_operands(c, separated(separator), 2, f, s, l);
    let d = seq![cmd, "--separator"@, separator] + ops;
    assert(d[3] == ops[0] && d[4] == ops[1] && d[5] == ops[2]);
    lemma_separator_named_apart(cmd, separator, ops, f);
    lemma_three_operands(d, separated(separator), 3, f, s, l);
}

/// The options that ask for equal width and nothing else.
spec fn widened() -> SeqOptionsView {
    SeqOptionsView { separator: None, equal_width: true, format: None }
}

proof fn lemma_equal_width(cmd: Seq<char>, arg: Seq<char>, ops: Seq<Seq<char>>, f: int)
    requires
        arg == seq!['-', 'w'] || arg == "--equal-width"@,
        ops.len() > 0,
        signed_value(ops[0]) == Some(f),
    ensures
        options_from(seq![cmd, arg] + ops, 1, no_options()) == Ok::<
            (SeqOptionsView, int),
            SeqError,
        >((widened(), 2)),
{
    lemma_long_names();
    let args = seq![cmd, arg] + ops;
    assert(args[2] == ops[0]);
    assert(args[1] == arg);
    if arg == seq!['-', 'w'] {
        assert(arg[0] == '-' && arg[1] == 'w');
        assert(arg.skip(1) =~= seq!['w']);
        assert(arg != seq!['-', '-']);
        reveal_with_fuel(short_options, 3);
    } else {
        assert(arg[0] == '-' && arg[1] == '-' && arg.len() == 13);
        assert(arg != seq!['-', '-']);
        assert(arg.skip(2) =~= "equal-width"@);
        lemma_no_first_index("equal-width"@, '=');
        assert("equal-width"@.take(11) =~= "equal-width"@);
    }
    assert(one_option(args, 1, no_options()) == Ok::<(SeqOptionsView, bool), SeqError>(
        (widened(), false),
    ));
    lemma_options_end(args, 2, widened(), f);
}

/// With equal width the same numbers are printed in the same order, each in as many characters
/// as the longer of the first and the last number has; both ways of asking for it agree.
pub proof fn law_equal_width(
    cmd: Seq<char>,
    arg: Seq<char>,
    ops: Seq<Seq<char>>,
    f: int,
    s: int,
    l: int,
)
    requires
        arg == seq!['-', 'w'] || arg == "--equal-width"@,
        ops.len() == 3,
        signed_value(ops[0]) == Some(f),
        signed_value(ops[1]) == Some(s),
        signed_value(ops[2]) == Some(l),
        -0x20_0000_0000_0000 <= f <= 0x20_0000_0000_0000,
        -0x20_0000_0000_0000 <= s <= 0x20_0000_0000_0000,
        -0x20_0000_0000_0000 <= l <= 0x20_0000_0000_0000,
        s != 0,
        (s > 0 && f <= l) || (s < 0 && f >= l),
    ensures
        ({
            let width = if int_text(f).len() >= int_text(l).len() {
                int_text(f).len()
            } else {
                int_text(l).len()
            };
            &&& seq_of(seq![cmd, arg] + ops) matches Ok(SeqOutcomeView::Print(text))
            &&& text.len() > 0
            &&& text.last() == '\n'
            &&& ({
                let lines = split(text.drop_last(), '\n');
                &&& forall|k: int|
                    0 <= k < lines.len() ==> (#[trigger] lines[k]).len() == width && signed_value(
                        lines[k],
                    ) == Some(f + k * s)
                &&& if s > 0 {
                    f + lines.len() * s > l
                } else {
                    f + lines.len() * s < l
                }
            })
        }),
{
    let width = if int_text(f).len() >= int_text(l).len() {
        int_text(f).len()
    } else {
        int_text(l).len()
    };
    let args = seq![cmd, arg] + ops;
    assert(args[2] == ops[0] && args[3] == ops[1] && args[4] == ops[2]);
    lemma_equal_width(cmd, arg, ops, f);
    lemma_three_operands(args, widened(), 2, f, s, l);
    lemma_int_lines(f, s, l);
    law_int_terms(f, s, l);
    let terms = int_terms(f, s, l);
    let lines = int_lines(f, s, l);
    assert(term_texts(terms) =~= lines);
    let shown = shown_terms(lines, Some(width));
    assert forall|k: int| 0 <= k < shown.len() implies (#[trigger] shown[k]).len() == width
        && signed_value(shown[k]) == Some(f + k * s) && !shown[k].contains('\n') by {
        assert(terms[k] == f + k * s);
        lemma_int_text_len(terms[k], f, l);
        lemma_padded_int(terms[k], width);
    }
    assert(0 * s == 0);
    assert(lines.len() > 0);
    lemma_split_join(shown, '\n');
    let body = join(shown, seq!['\n']);
    assert(body.push('\n').drop_last() =~= body);
}

/// A number between two others is not written longer than both.
proof fn lemma_int_text_len(i: int, f: int, l: int)
    requires
        f <= i <= l || l <= i <= f,
    ensures
        int_text(i).len() <= int_text(f).len() || int_text(i).len() <= int_text(l).len(),
{
    let low = if f <= l {
        f
    } else {
        l
    };
    let high = if f <= l {
        l
    } else {
        f
    };
    if i < 0 {
        lemma_digits_len((-i) as nat, (-low) as nat);
    } else {
        lemma_digits_len(i as nat, high as nat);
    }
}

proof fn lemma_digits_len(a: nat, b: nat)
    requires
        a <= b,
    ensures
        digits(a).len() <= digits(b).len(),
    decreases b,
{
    if a >= 10 {
        lemma_digits_len(a / 10, b / 10);
    } else {
        law_digits_read_back(b);
    }
}

/// Zeros in front change neither the number nor its sign.
proof fn lemma_padded_int(i: int, width: nat)
    requires
        int_text(i).len() <= width,
    ensures
        padded(int_text(i), width).len() == width,
        signed_value(padded(int_text(i), width)) == Some(i),
        !padded(int_text(i), width).contains('\n'),
{
    let n = if i < 0 {
        (-i) as nat
    } else {
        i as nat
    };
    let t = int_text(i);
    let d = digits(n);
    law_digits_read_back(n);
    lemma_plain_int_text(i);
    law_int_text_reads_back(i);
    assert(is_digit(d[0]));
    assert forall|k: int| 0 <= k < t.len() implies char_width(#[trigger] t[k]) == 1 by {
        if i < 0 {
            if k > 0 {
                assert(is_digit(d[k - 1]));
            }
        } else {
            assert(is_digit(d[k]));
        }
    }
    lemma_byte_len_plain(t);
    if t.len() < width {
        let zeros = repeated('0', (width - t.len()) as nat);
        lemma_zeros_in_front((width - t.len()) as nat, d);
        let z = zeros + d;
        assert(is_digit(z[0]));
        if i < 0 {
            assert(t.skip(1) =~= d);
            assert(padded(t, width) =~= seq!['-'] + z);
            assert((seq!['-'] + z).drop_first() =~= z);
            assert forall|k: int| 0 <= k < width implies padded(t, width)[k] != '\n' by {
                if k > 0 {
                    assert(is_digit(z[k - 1]));
                }
            }
        } else {
            assert(padded(t, width) =~= z);
            assert forall|k: int| 0 <= k < width implies padded(t, width)[k] != '\n' by {
                assert(is_digit(z[k]));
            }
        }
    }
}

proof fn lemma_byte_len_plain(s: Seq<char>)
    requires
        forall|k: int| 0 <= k < s.len() ==> char_width(#[trigger] s[k]) == 1,
    ensures
        byte_len(s) == s.len(),
    decreases s.len(),
{
    if s.len() > 0 {
        assert(char_width(s[s.len() - 1]) == 1);
        assert forall|k: int| 0 <= k < s.drop_last().len() implies char_width(
            #[trigger] s.drop_last()[k],
        ) == 1 by {
            assert(char_width(s[k]) == 1);
        }
        lemma_byte_len_plain(s.drop_last());
    }
}

proof fn lemma_zeros_in_front(n: nat, d: Seq<char>)
    requires
        all_digits(d),
    ensures
        all_digits(repeated('0', n) + d),
        decimal(repeated('0', n) + d) == decimal(d),
    decreases n + d.len(),
{
    let z = repeated('0', n) + d;
    if d.len() > 0 {
        let front = d.drop_last();
        assert forall|k: int| 0 <= k < front.len() implies is_digit(#[trigger] front[k]) by {
            assert(is_digit(d[k]));
        }
        lemma_zeros_in_front(n, front);
        assert(z.drop_last() =~= repeated('0', n) + front);
        assert forall|k: int| 0 <= k < z.len() implies is_digit(#[trigger] z[k]) by {
            if k >= n {
                assert(is_digit(d[k - n]));
            }
        }
    } else if n > 0 {
        lemma_zeros_in_front((n - 1) as nat, d);
        assert(z.drop_last() =~= repeated('0', (n - 1) as nat) + d);
        assert(z.last() == '0');
    } else {
        assert(z =~= d);
    }
}

/// Behind `--` the operands stand as they would without it.
pub proof fn law_double_dash(
    cmd: Seq<char>,
    ops: Seq<Seq<char>>,
    f: int,
    s: int,
    l: int,
)
    requires
        ops.len() == 3,
        signed_value(ops[0]) == Some(f),
        signed_value(ops[1]) == Some(s),
        signed_value(ops[2]) == Some(l),
        -0x20_0000_0000_0000 <= f <= 0x20_0000_0000_0000,
        -0x20_0000_0000_0000 <= s <= 0x20_0000_0000_0000,
        -0x20_0000_0000_0000 <= l <= 0x20_0000_0000_0000,
        s != 0,
    ensures
        seq_of(seq![cmd, seq!['-', '-']] + ops) == seq_of(seq![cmd] + ops),
{
    let plain = seq![cmd] + ops;
    assert(plain[1] == ops[0] && plain[2] == ops[1] && plain[3] == ops[2]);
    lemma_options_end(plain, 1, no_options(), f);
    lemma_three_operands(plain, no_options(), 1, f, s, l);
    let a = seq![cmd, seq!['-', '-']] + ops;
    assert(a[1] == seq!['-', '-']);
    assert(a[2] == ops[0] && a[3] == ops[1] && a[4] == ops[2]);
    lemma_three_operands(a, no_options(), 2, f, s, l);
}

pub proof fn lemma_first_index_behind(a: Seq<char>, c: char, b: Seq<char>)
    requires
        !a.contains(c),
    ensures
        first_index(a + seq![c] + b, c) == a.len(),
    decreases a.len(),
{
    let s = a + seq![c] + b;
    if a.len() > 0 {
        assert(a.contains(a[0]));
        assert(s[0] == a[0]);
        assert(s.drop_first() =~= a.drop_first() + seq![c] + b);
        assert(!a.drop_first().contains(c)) by {
            if a.drop_first().contains(c) {
                let k = choose|k: int|
                    0 <= k < a.drop_first().len() && a.drop_first()[k] == c;
                assert(a[k + 1] == c);
            }
        }
        lemma_first_index_behind(a.drop_first(), c, b);
    }
}

/// Two operands are the first and the last term; the step is then one.
pub proof fn law_step_defaults_to_one(cmd: Seq<char>, first: Seq<char>, last: Seq<char>, f: int, l: int)
    requires
        signed_value(first) == Some(f),
        signed_value(last) == Some(l),
    ensures
        seq_of(seq![cmd, first, last]) == seq_of(seq![cmd, first, seq!['1'], last]),
{
    let one = seq!['1'];
    assert(one.drop_last() =~= Seq::<char>::empty());
    assert(decimal(Seq::<char>::empty()) == 0);
    assert(decimal(one) == 1);
    assert(signed_value(one) == Some(1int));
    lemma_written_int(one, 1);
    law_small_ints_are_exact(1);
    lemma_written_int(first, f);
    lemma_written_int(last, l);
    let a = seq![cmd, first, last];
    let b = seq![cmd, first, one, last];
    reveal_with_fuel(first_invalid, 5);
    assert(first_invalid(a, 1) == 3);
    assert(first_invalid(b, 1) == 4);
    assert(all_ints(a, 1) && all_ints(b, 1));
}

/// A step of zero is refused.
pub proof fn law_zero_step(
    cmd: Seq<char>,
    first: Seq<char>,
    step: Seq<char>,
    last: Seq<char>,
    f: int,
    l: int,
)
    requires
        signed_value(first) == Some(f),
        signed_value(step) == Some(0int),
        signed_value(last) == Some(l),
    ensures
        seq_of(seq![cmd, first, step, last]) == Err::<SeqOutcomeView, SeqError>(
            SeqError::ZeroIncrement,
        ),
{
    lemma_written_int(first, f);
    lemma_written_int(step, 0);
    lemma_written_int(last, l);
    law_small_ints_are_exact(0);
    let a = seq![cmd, first, step, last];
    reveal_with_fuel(first_invalid, 5);
    assert(first_invalid(a, 1) == 4);
    assert(all_ints(a, 1));
}

/// One to three operands are accepted.
pub proof fn law_operand_count(cmd: Seq<char>, operands: Seq<Seq<char>>)
    requires
        operands.len() <= usize::MAX,
        operands.len() > 0 ==> operands[0] != seq!['-', '-'] && !looks_like_option(operands[0]),
    ensures
        seq_of(seq![cmd] + operands) matches Err(SeqError::OperandCount(n)) ==> n
            == operands.len(),
        seq_of(seq![cmd] + operands) is Err && seq_of(seq![cmd] + operands)->Err_0
            is OperandCount <==> operands.len() == 0 || operands.len() > 3,
{
    let args = seq![cmd] + operands;
    assert(operands.len() > 0 ==> args[1] == operands[0]);
    assert(options_from(args, 1, no_options()) == Ok::<(SeqOptionsView, int), SeqError>(
        (no_options(), 1),
    ));
}

/// The first operand that is no number is the one that is reported.
pub proof fn law_invalid_operand(cmd: Seq<char>, operands: Seq<Seq<char>>, k: int)
    requires
        0 <= k < operands.len() <= 3,
        operands[0] != seq!['-', '-'],
        !looks_like_option(operands[0]),
        !is_float_text(trimmed(operands[k])),
        forall|i: int| 0 <= i < k ==> is_float_text(trimmed(#[trigger] operands[i])),
    ensures
        seq_of(seq![cmd] + operands) == Err::<SeqOutcomeView, SeqError>(
            SeqError::InvalidNumber((k + 1) as usize),
        ),
{
    let args = seq![cmd] + operands;
    assert(forall|i: int| 0 <= i < operands.len() ==> args[i + 1] == operands[i]);
    assert(args[1] == operands[0]);
    assert(options_from(args, 1, no_options()) == Ok::<(SeqOptionsView, int), SeqError>(
        (no_options(), 1),
    ));
    reveal_with_fuel(first_invalid, 5);
    assert(args[k + 1] == operands[k]);
    assert(k > 0 ==> args[1] == operands[0]);
    assert(k > 1 ==> args[2] == operands[1]);
    assert(first_invalid(args, 1) == k + 1);
}

/// Operands that are numbers, but not all of them integers, are computed with outside; the
/// precision is the longest fraction among them.
pub proof fn law_precision(cmd: Seq<char>, operands: Seq<Seq<char>>, odd: int)
    requires
        0 <= odd < operands.len() <= 3,
        operands[0] != seq!['-', '-'],
        !looks_like_option(operands[0]),
        !is_int_text(trimmed(operands[odd])),
        forall|i: int|
            0 <= i < operands.len() ==> is_float_text(trimmed(#[trigger] operands[i]))
                && fraction_len(trimmed(operands[i])) <= usize::MAX,
    ensures
        ({
            &&& seq_of(seq![cmd] + operands) matches Ok(SeqOutcomeView::Compute(plan))
            &&& forall|i: int|
                0 <= i < operands.len() ==> fraction_len(trimmed(#[trigger] operands[i]))
                    <= plan.precision
            &&& exists|i: int|
                0 <= i < operands.len() && fraction_len(trimmed(#[trigger] operands[i]))
                    == plan.precision
            &&& plan.last == operands.len()
            &&& plan.first == (if operands.len() >= 2 {
                Some(1usize)
            } else {
                None
            })
            &&& plan.step == (if operands.len() == 3 {
                Some(2usize)
            } else {
                None
            })
            &&& plan.format is None
        }),
{
    let args = seq![cmd] + operands;
    assert(args[1] == operands[0]);
    assert(options_from(args, 1, no_options()) == Ok::<(SeqOptionsView, int), SeqError>(
        (no_options(), 1),
    ));
    assert(args[odd + 1] == operands[odd]);
    reveal_with_fuel(first_invalid, 5);
    assert(operands.len() > 1 ==> args[2] == operands[1]);
    assert(operands.len() > 2 ==> args[3] == operands[2]);
    assert(first_invalid(args, 1) == args.len());
    lemma_most_decimals(args, 1);
    let at = choose|k: int|
        1 <= k < args.len() && fraction_len(trimmed(#[trigger] args[k])) == most_decimals(args, 1);
    assert(args[at] == operands[at - 1]);
    lemma_fraction_len(trimmed(operands[at - 1]));
    assert forall|i: int| 0 <= i < operands.len() implies fraction_len(
        trimmed(#[trigger] operands[i]),
    ) <= most_decimals(args, 1) by {
        assert(args[i + 1] == operands[i]);
    }
}

proof fn lemma_fraction_len(s: Seq<char>)
    ensures
        fraction_len(s) >= 0,
{
    let cut = first_index(s, '.');
    lemma_first_index(s, '.');
    if cut < s.len() {
        lemma_exponent_index(s.skip(cut + 1));
    }
}

proof fn lemma_most_decimals(args: Seq<Seq<char>>, i: int)
    requires
        0 <= i < args.len(),
    ensures
        forall|k: int|
            i <= k < args.len() ==> fraction_len(trimmed(#[trigger] args[k])) <= most_decimals(
                args,
                i,
            ),
        exists|k: int|
            i <= k < args.len() && fraction_len(trimmed(#[trigger] args[k])) == most_decimals(
                args,
                i,
            ),
    decreases args.len() - i,
{
    lemma_fraction_len(trimmed(args[i]));
    if i + 1 < args.len() {
        lemma_most_decimals(args, i + 1);
        let at = choose|k: int|
            i + 1 <= k < args.len() && fraction_len(trimmed(#[trigger] args[k])) == most_decimals(
                args,
                i + 1,
            );
        assert(fraction_len(trimmed(args[at])) == most_decimals(args, i + 1));
        assert(fraction_len(trimmed(args[i])) <= most_decimals(args, i));
    } else {
        assert(most_decimals(args, i + 1) == 0);
        assert(fraction_len(trimmed(args[i])) == most_decimals(args, i));
    }
}

/// The fraction of a number is what stands between its point and its exponent.
pub proof fn law_fraction(whole: Seq<char>, fraction: Seq<char>, power: Seq<char>)
    requires
        !whole.contains('.'),
        !fraction.contains('e'),
        !fraction.contains('E'),
        power.len() > 0 ==> power[0] == 'e' || power[0] == 'E',
    ensures
        fraction_len(whole + seq!['.'] + (fraction + power)) == fraction.len(),
        fraction_len(whole) == 0,
{
    let s = whole + seq!['.'] + (fraction + power);
    lemma_first_index_behind(whole, '.', fraction + power);
    assert(s.skip(whole.len() as int + 1) =~= fraction + power);
    lemma_exponent_index_behind(fraction, power);
    lemma_first_index(whole, '.');
    if first_index(whole, '.') < whole.len() {
        assert(whole.contains(whole[first_index(whole, '.')]));
    }
}

proof fn lemma_exponent_index_behind(a: Seq<char>, b: Seq<char>)
    requires
        !a.contains('e'),
        !a.contains('E'),
        b.len() > 0 ==> b[0] == 'e' || b[0] == 'E',
    ensures
        exponent_index(a + b) == a.len(),
    decreases a.len(),
{
    if a.len() > 0 {
        let rest = a.drop_first();
        assert(a.contains(a[0]));
        assert((a + b)[0] == a[0]);
        assert((a + b).drop_first() =~= rest + b);
        assert(forall|k: int| 0 <= k < rest.len() ==> a.contains(#[trigger] rest[k])) by {
            assert forall|k: int| 0 <= k < rest.len() implies a.contains(#[trigger] rest[k]) by {
                assert(a[k + 1] == rest[k]);
            }
        }
        lemma_exponent_index_behind(rest, b);
    } else {
        assert(a + b =~= b);
    }
}

} // verus!
