//! What each option of `seq` means: it changes its own setting for the arguments behind it, and
//! nothing else.

use crate::builtins::seq::{
    first_invalid, in_range, int_terms, laid_out, law_int_terms, lemma_one_option_used,
    looks_like_option, no_options, one_option, options_from, padded, plan_of, seq_of, short_options,
    shown_terms, steps_fit, SeqError, SeqOptionsView, SeqOutcomeView, SeqPlanView,
};
use crate::builtins::seq_format::format_of;
use crate::builtins::seq_laws::{
    lemma_first_index_behind, lemma_no_first_index, lemma_written_int,
};
use crate::number::{law_small_ints_are_exact, signed_value};
use crate::text::{byte_len, first_index, join, repeated};
use vstd::prelude::*;

verus! {

/// The reading of `seq`'s arguments when `by` more stand in front.
pub open spec fn options_later(r: Result<(SeqOptionsView, int), SeqError>, by: int) -> Result<
    (SeqOptionsView, int),
    SeqError,
> {
    match r {
        Ok((o, first)) => Ok((o, first + by)),
        Err(SeqError::UnsupportedOption(i)) => Err(SeqError::UnsupportedOption((i + by) as usize)),
        Err(e) => Err(e),
    }
}

proof fn lemma_short_never_counts(
    flags: Seq<char>,
    j: int,
    o: SeqOptionsView,
    next: Option<Seq<char>>,
)
    ensures
        short_options(flags, j, o, next) matches Err(e) ==> !(e is UnsupportedOption),
    decreases flags.len() - j,
{
    if j < flags.len() && flags[j] == 'w' {
        lemma_short_never_counts(flags, j + 1, SeqOptionsView { equal_width: true, ..o }, next);
    }
}

proof fn lemma_options_later(
    a: Seq<Seq<char>>,
    i: int,
    b: Seq<Seq<char>>,
    j: int,
    o: SeqOptionsView,
)
    requires
        0 <= i <= a.len(),
        i <= j <= b.len() <= usize::MAX,
        a.skip(i) == b.skip(j),
    ensures
        options_from(b, j, o) == options_later(options_from(a, i, o), j - i),
    decreases a.len() - i,
{
    assert(a.skip(i).len() == a.len() - i);
    assert(b.skip(j).len() == b.len() - j);
    if i < a.len() {
        assert(a[i] == a.skip(i)[0]);
        assert(b[j] == b.skip(j)[0]);
        assert(a.skip(i + 1) =~= a.skip(i).skip(1));
        assert(b.skip(j + 1) =~= b.skip(j).skip(1));
        if i + 1 < a.len() {
            assert(a[i + 1] == a.skip(i)[1]);
            assert(b[j + 1] == b.skip(j)[1]);
            assert(a.skip(i + 2) =~= a.skip(i).skip(2));
            assert(b.skip(j + 2) =~= b.skip(j).skip(2));
        }
        if a[i] != seq!['-', '-'] && looks_like_option(a[i]) {
            lemma_one_option_used(a, i, o);
            lemma_one_option_used(b, j, o);
            let next = if i + 1 < a.len() {
                Some(a[i + 1])
            } else {
                None
            };
            lemma_short_never_counts(a[i].skip(1), 0, o, next);
            match one_option(a, i, o) {
                Ok((p, used)) => {
                    assert(one_option(b, j, o) == one_option(a, i, o));
                    if used {
                        lemma_options_later(a, i + 2, b, j + 2, p);
                    } else {
                        lemma_options_later(a, i + 1, b, j + 1, p);
                    }
                },
                Err(_) => {},
            }
        }
    }
}

/// An option that was read alone leaves the rest to be read with its setting.
proof fn lemma_step(
    cmd: Seq<char>,
    word: Seq<char>,
    rest: Seq<Seq<char>>,
    o: SeqOptionsView,
    p: SeqOptionsView,
)
    requires
        rest.len() + 2 <= usize::MAX,
        word != seq!['-', '-'],
        looks_like_option(word),
        one_option(seq![cmd, word] + rest, 1, o) == Ok::<(SeqOptionsView, bool), SeqError>(
            (p, false),
        ),
    ensures
        options_from(seq![cmd, word] + rest, 1, o) == options_later(
            options_from(seq![cmd] + rest, 1, p),
            1,
        ),
{
    let args = seq![cmd, word] + rest;
    let short = seq![cmd] + rest;
    assert(args[1] == word);
    assert(args.skip(2) =~= short.skip(1));
    lemma_options_later(short, 1, args, 2, p);
}

/// An option that was read with the argument behind it leaves the rest to be read with its
/// setting.
proof fn lemma_long_step(
    cmd: Seq<char>,
    word: Seq<char>,
    value: Seq<char>,
    rest: Seq<Seq<char>>,
    o: SeqOptionsView,
    p: SeqOptionsView,
)
    requires
        rest.len() + 3 <= usize::MAX,
        word != seq!['-', '-'],
        looks_like_option(word),
        one_option(seq![cmd, word, value] + rest, 1, o) == Ok::<(SeqOptionsView, bool), SeqError>(
            (p, true),
        ),
    ensures
        options_from(seq![cmd, word, value] + rest, 1, o) == options_later(
            options_from(seq![cmd] + rest, 1, p),
            2,
        ),
{
    let args = seq![cmd, word, value] + rest;
    let short = seq![cmd] + rest;
    assert(args[1] == word);
    assert(args.skip(3) =~= short.skip(1));
    lemma_options_later(short, 1, args, 3, p);
}

/// The long names, in letters.
proof fn lemma_long_words()
    ensures
        "separator"@.len() == 9,
        "equal-width"@.len() == 11,
        "format"@.len() == 6,
        "--separator="@ == seq!['-', '-'] + "separator"@ + seq!['='],
        "--separator"@ == seq!['-', '-'] + "separator"@,
        "--format="@ == seq!['-', '-'] + "format"@ + seq!['='],
        "--format"@ == seq!['-', '-'] + "format"@,
        "--equal-width"@ == seq!['-', '-'] + "equal-width"@,
        !"separator"@.contains('='),
        !"equal-width"@.contains('='),
        !"format"@.contains('='),
{
    reveal_strlit("--separator=");
    reveal_strlit("--separator");
    reveal_strlit("--format=");
    reveal_strlit("--format");
    reveal_strlit("--equal-width");
    reveal_strlit("separator");
    reveal_strlit("format");
    reveal_strlit("equal-width");
    assert("--separator="@ =~= seq!['-', '-'] + "separator"@ + seq!['=']);
    assert("--separator"@ =~= seq!['-', '-'] + "separator"@);
    assert("--format="@ =~= seq!['-', '-'] + "format"@ + seq!['=']);
    assert("--format"@ =~= seq!['-', '-'] + "format"@);
    assert("--equal-width"@ =~= seq!['-', '-'] + "equal-width"@);
}

/// What follows a long name with and without a value.
proof fn lemma_long_body(name: Seq<char>, value: Seq<char>)
    requires
        !name.contains('='),
        name.len() > 0,
    ensures
        ({
            let word = seq!['-', '-'] + name;
            &&& looks_like_option(word)
            &&& word[1] == '-'
            &&& word != seq!['-', '-']
            &&& word.skip(2) == name
            &&& first_index(name, '=') == name.len()
            &&& name.take(name.len() as int) == name
        }),
        ({
            let word = seq!['-', '-'] + name + seq!['='] + value;
            let body = name + seq!['='] + value;
            &&& looks_like_option(word)
            &&& word[1] == '-'
            &&& word != seq!['-', '-']
            &&& word.skip(2) == body
            &&& first_index(body, '=') == name.len()
            &&& body.take(name.len() as int) == name
            &&& body.skip(name.len() as int + 1) == value
        }),
{
    let word = seq!['-', '-'] + name;
    assert(word[0] == '-' && word[1] == '-' && word.len() > 2);
    assert(word.skip(2) =~= name);
    lemma_no_first_index(name, '=');
    assert(name.take(name.len() as int) =~= name);
    let long = seq!['-', '-'] + name + seq!['='] + value;
    let body = name + seq!['='] + value;
    assert(long[0] == '-' && long[1] == '-' && long.len() > 2);
    assert(long.skip(2) =~= body);
    lemma_first_index_behind(name, '=', value);
    assert(body.take(name.len() as int) =~= name);
    assert(body.skip(name.len() as int + 1) =~= value);
}

/// A separator is set for the arguments behind it by each of the ways to give it, whatever was
/// set before.
pub proof fn law_separator_is_set(
    cmd: Seq<char>,
    value: Seq<char>,
    rest: Seq<Seq<char>>,
    o: SeqOptionsView,
)
    requires
        rest.len() + 3 <= usize::MAX,
    ensures
        ({
            let p = SeqOptionsView {
                separator: Some(value),
                equal_width: o.equal_width,
                format: o.format,
            };
            let behind = options_from(seq![cmd] + rest, 1, p);
            &&& options_from(seq![cmd, seq!['-', 's'], value] + rest, 1, o) == options_later(
                behind,
                2,
            )
            &&& value.len() > 0 ==> options_from(seq![cmd, seq!['-', 's'] + value] + rest, 1, o)
                == options_later(behind, 1)
            &&& options_from(seq![cmd, "--separator"@, value] + rest, 1, o) == options_later(
                behind,
                2,
            )
            &&& options_from(seq![cmd, "--separator="@ + value] + rest, 1, o) == options_later(
                behind,
                1,
            )
        }),
{
    let p = SeqOptionsView { separator: Some(value), ..o };
    lemma_long_words();
    let s = seq!['-', 's'];
    assert(s[0] == '-' && s[1] == 's' && s.len() == 2);
    assert(s != seq!['-', '-']);
    assert(s.skip(1) =~= seq!['s']);
    let a = seq![cmd, s, value] + rest;
    assert(a[1] == s && a[2] == value);
    lemma_long_step(cmd, s, value, rest, o, p);
    if value.len() > 0 {
        let word = s + value;
        assert(word[0] == '-' && word[1] == 's');
        assert(word != seq!['-', '-']);
        let flags = word.skip(1);
        assert(flags[0] == 's');
        assert(flags.skip(1) =~= value);
        let b = seq![cmd, word] + rest;
        assert(b[1] == word);
        lemma_step(cmd, word, rest, o, p);
    }
    lemma_long_body("separator"@, value);
    let c = seq![cmd, "--separator"@, value] + rest;
    assert(c[1] == "--separator"@ && c[2] == value);
    lemma_long_step(cmd, "--separator"@, value, rest, o, p);
    let word = "--separator="@ + value;
    let d = seq![cmd, word] + rest;
    assert(d[1] == word);
    lemma_step(cmd, word, rest, o, p);
}

/// A format is set for the arguments behind it by each of the ways to give it, whatever was set
/// before.
pub proof fn law_format_is_set(
    cmd: Seq<char>,
    value: Seq<char>,
    rest: Seq<Seq<char>>,
    o: SeqOptionsView,
)
    requires
        rest.len() + 3 <= usize::MAX,
    ensures
        ({
            let p = SeqOptionsView {
                separator: o.separator,
                equal_width: o.equal_width,
                format: Some(value),
            };
            let behind = options_from(seq![cmd] + rest, 1, p);
            &&& options_from(seq![cmd, seq!['-', 'f'], value] + rest, 1, o) == options_later(
                behind,
                2,
            )
            &&& value.len() > 0 ==> options_from(seq![cmd, seq!['-', 'f'] + value] + rest, 1, o)
                == options_later(behind, 1)
            &&& options_from(seq![cmd, "--format"@, value] + rest, 1, o) == options_later(
                behind,
                2,
            )
            &&& options_from(seq![cmd, "--format="@ + value] + rest, 1, o) == options_later(
                behind,
                1,
            )
        }),
{
    let p = SeqOptionsView { format: Some(value), ..o };
    lemma_long_words();
    let f = seq!['-', 'f'];
    assert(f[0] == '-' && f[1] == 'f' && f.len() == 2);
    assert(f != seq!['-', '-']);
    assert(f.skip(1) =~= seq!['f']);
    let a = seq![cmd, f, value] + rest;
    assert(a[1] == f && a[2] == value);
    lemma_long_step(cmd, f, value, rest, o, p);
    if value.len() > 0 {
        let word = f + value;
        assert(word[0] == '-' && word[1] == 'f');
        assert(word != seq!['-', '-']);
        let flags = word.skip(1);
        assert(flags[0] == 'f');
        assert(flags.skip(1) =~= value);
        let b = seq![cmd, word] + rest;
        assert(b[1] == word);
        lemma_step(cmd, word, rest, o, p);
    }
    lemma_long_body("format"@, value);
    let c = seq![cmd, "--format"@, value] + rest;
    assert(c[1] == "--format"@ && c[2] == value);
    lemma_long_step(cmd, "--format"@, value, rest, o, p);
    let word = "--format="@ + value;
    let d = seq![cmd, word] + rest;
    assert(d[1] == word);
    lemma_step(cmd, word, rest, o, p);
}

/// Equal width is set for the arguments behind `-w` or `--equal-width`.
pub proof fn law_equal_width_is_set(cmd: Seq<char>, rest: Seq<Seq<char>>, o: SeqOptionsView)
    requires
        rest.len() + 2 <= usize::MAX,
    ensures
        ({
            let p = SeqOptionsView {
                separator: o.separator,
                equal_width: true,
                format: o.format,
            };
            let behind = options_from(seq![cmd] + rest, 1, p);
            &&& options_from(seq![cmd, seq!['-', 'w']] + rest, 1, o) == options_later(behind, 1)
            &&& options_from(seq![cmd, "--equal-width"@] + rest, 1, o) == options_later(behind, 1)
        }),
{
    let p = SeqOptionsView { equal_width: true, ..o };
    lemma_long_words();
    let w = seq!['-', 'w'];
    assert(w[0] == '-' && w[1] == 'w' && w.len() == 2);
    assert(w != seq!['-', '-']);
    assert(w.skip(1) =~= seq!['w']);
    reveal_with_fuel(short_options, 3);
    let a = seq![cmd, w] + rest;
    assert(a[1] == w);
    lemma_step(cmd, w, rest, o, p);
    lemma_long_body("equal-width"@, Seq::empty());
    let b = seq![cmd, "--equal-width"@] + rest;
    assert(b[1] == "--equal-width"@);
    lemma_step(cmd, "--equal-width"@, rest, o, p);
}

proof fn lemma_flags_behind(
    front: Seq<char>,
    flags: Seq<char>,
    j: int,
    o: SeqOptionsView,
    next: Option<Seq<char>>,
)
    requires
        0 <= j <= flags.len(),
    ensures
        short_options(front + flags, front.len() + j, o, next) == short_options(
            flags,
            j,
            o,
            next,
        ),
    decreases flags.len() - j,
{
    let all = front + flags;
    let n = front.len() as int;
    if j < flags.len() {
        assert(all[n + j] == flags[j]);
        assert(all.skip(n + j + 1) =~= flags.skip(j + 1));
        if flags[j] == 'w' {
            lemma_flags_behind(front, flags, j + 1, SeqOptionsView { equal_width: true, ..o }, next);
        }
    }
}

/// Flags can be written behind one `-`: a `w` in front of others is as if it stood alone before
/// them.
pub proof fn law_flags_combine(
    cmd: Seq<char>,
    flags: Seq<char>,
    rest: Seq<Seq<char>>,
    o: SeqOptionsView,
)
    requires
        flags.len() > 0,
        flags[0] != '-',
        flags[0] != '.',
        !('0' <= flags[0] <= '9'),
    ensures
        options_from(seq![cmd, seq!['-', 'w'] + flags] + rest, 1, o) == options_from(
            seq![cmd, seq!['-'] + flags] + rest,
            1,
            SeqOptionsView {
                separator: o.separator,
                equal_width: true,
                format: o.format,
            },
        ),
{
    let p = SeqOptionsView { equal_width: true, ..o };
    let long = seq!['-', 'w'] + flags;
    let short = seq!['-'] + flags;
    let a = seq![cmd, long] + rest;
    let b = seq![cmd, short] + rest;
    assert(a[1] == long && b[1] == short);
    assert(long[0] == '-' && long[1] == 'w');
    assert(short[0] == '-' && short[1] == flags[0]);
    assert(long != seq!['-', '-'] && short != seq!['-', '-']);
    let w = seq!['w'];
    assert(long.skip(1) =~= w + flags);
    assert(short.skip(1) =~= flags);
    let next = if 2 < a.len() {
        Some(a[2])
    } else {
        None
    };
    assert(2 < b.len() ==> b[2] == a[2]);
    lemma_flags_behind(w, flags, 0, p, next);
    assert((w + flags)[0] == 'w');
    assert(one_option(a, 1, o) == one_option(b, 1, p));
    lemma_one_option_used(a, 1, o);
    lemma_one_option_used(b, 1, p);
    match one_option(a, 1, o) {
        Ok((q, used)) => {
            let at: int = if used {
                3
            } else {
                2
            };
            assert(a.skip(at) =~= b.skip(at));
            lemma_same_options(a, b, at, q);
        },
        Err(_) => {},
    }
}

proof fn lemma_same_options(a: Seq<Seq<char>>, b: Seq<Seq<char>>, i: int, o: SeqOptionsView)
    requires
        0 <= i <= a.len(),
        a.len() == b.len(),
        a.skip(i) == b.skip(i),
    ensures
        options_from(a, i, o) == options_from(b, i, o),
    decreases a.len() - i,
{
    assert(a.skip(i).len() == a.len() - i);
    if i < a.len() {
        assert(a[i] == a.skip(i)[0]);
        assert(b[i] == b.skip(i)[0]);
        assert(a.skip(i + 1) =~= a.skip(i).skip(1));
        assert(b.skip(i + 1) =~= b.skip(i).skip(1));
        if i + 1 < a.len() {
            assert(a[i + 1] == a.skip(i)[1]);
            assert(b[i + 1] == b.skip(i)[1]);
            assert(a.skip(i + 2) =~= a.skip(i).skip(2));
            assert(b.skip(i + 2) =~= b.skip(i).skip(2));
        }
        lemma_one_option_used(a, i, o);
        if a[i] != seq!['-', '-'] && looks_like_option(a[i]) {
            match one_option(a, i, o) {
                Ok((p, used)) => {
                    if used {
                        lemma_same_options(a, b, i + 2, p);
                    } else {
                        lemma_same_options(a, b, i + 1, p);
                    }
                },
                Err(_) => {},
            }
        }
    }
}

/// An option that wants a value and has none is an error, and so is an unknown one.
pub proof fn law_option_errors(
    cmd: Seq<char>,
    flag: char,
    name: Seq<char>,
    rest: Seq<Seq<char>>,
    o: SeqOptionsView,
)
    requires
        flag != 'w' && flag != 's' && flag != 'f' && flag != '-' && flag != '.',
        !('0' <= flag <= '9'),
        !name.contains('='),
        name.len() > 0,
        name != "separator"@,
        name != "equal-width"@,
        name != "format"@,
    ensures
        options_from(seq![cmd, seq!['-', 's']], 1, o) == Err::<(SeqOptionsView, int), SeqError>(
            SeqError::FlagNeedsArgument('s'),
        ),
        options_from(seq![cmd, seq!['-', 'f']], 1, o) == Err::<(SeqOptionsView, int), SeqError>(
            SeqError::FlagNeedsArgument('f'),
        ),
        options_from(seq![cmd, "--separator"@], 1, o) == Err::<(SeqOptionsView, int), SeqError>(
            SeqError::SeparatorNeedsArgument,
        ),
        options_from(seq![cmd, "--format"@], 1, o) == Err::<(SeqOptionsView, int), SeqError>(
            SeqError::FormatNeedsArgument,
        ),
        options_from(seq![cmd, seq!['-', flag]] + rest, 1, o) == Err::<
            (SeqOptionsView, int),
            SeqError,
        >(SeqError::UnsupportedFlag(flag)),
        options_from(seq![cmd, seq!['-', '-'] + name] + rest, 1, o) == Err::<
            (SeqOptionsView, int),
            SeqError,
        >(SeqError::UnsupportedOption(1)),
{
    lemma_long_words();
    let none = Seq::<char>::empty();
    let s = seq!['-', 's'];
    assert(s[0] == '-' && s[1] == 's' && s.len() == 2);
    assert(s != seq!['-', '-']);
    assert(s.skip(1) =~= seq!['s']);
    assert(seq![cmd, s][1] == s);
    let f = seq!['-', 'f'];
    assert(f[0] == '-' && f[1] == 'f' && f.len() == 2);
    assert(f != seq!['-', '-']);
    assert(f.skip(1) =~= seq!['f']);
    assert(seq![cmd, f][1] == f);
    lemma_long_body("separator"@, none);
    lemma_long_body("format"@, none);
    assert(seq![cmd, "--separator"@][1] == "--separator"@);
    assert(seq![cmd, "--format"@][1] == "--format"@);
    let u = seq!['-', flag];
    assert(u[0] == '-' && u[1] == flag && u.len() == 2);
    assert(u != seq!['-', '-']);
    assert(u.skip(1) =~= seq![flag]);
    assert((seq![cmd, u] + rest)[1] == u);
    lemma_long_body(name, none);
    let word = seq!['-', '-'] + name;
    assert((seq![cmd, word] + rest)[1] == word);
}

/// Options end at `--`, which is skipped, at an argument that is no option, and where the
/// arguments end; a number is no option, though it be negative.
pub proof fn law_options_end(
    cmd: Seq<char>,
    word: Seq<char>,
    rest: Seq<Seq<char>>,
    o: SeqOptionsView,
)
    requires
        word.len() < 2 || word[0] != '-' || word[1] == '.' || '0' <= word[1] <= '9',
    ensures
        options_from(seq![cmd, seq!['-', '-']] + rest, 1, o) == Ok::<
            (SeqOptionsView, int),
            SeqError,
        >((o, 2)),
        options_from(seq![cmd, word] + rest, 1, o) == Ok::<(SeqOptionsView, int), SeqError>((o, 1)),
        options_from(seq![cmd], 1, o) == Ok::<(SeqOptionsView, int), SeqError>((o, 1)),
{
    assert((seq![cmd, seq!['-', '-']] + rest)[1] == seq!['-', '-']);
    assert((seq![cmd, word] + rest)[1] == word);
    assert(seq!['-', '-'].len() == 2 && seq!['-', '-'][0] == '-' && seq!['-', '-'][1] == '-');
}

/// A format that can be used sends even integers to be computed outside, and is handed on; one
/// that cannot be used is refused, and so is any with equal width.
pub proof fn law_format_is_used(cmd: Seq<char>, format: Seq<char>, last: Seq<char>, l: int)
    requires
        signed_value(last) == Some(l),
    ensures
        match format_of(format) {
            Ok(f) => {
                &&& seq_of(seq![cmd, seq!['-', 'f'], format, last]) matches Ok(
                    SeqOutcomeView::Compute(plan),
                )
                &&& plan.format == Some(f)
                &&& plan.first is None
                &&& plan.step is None
                &&& plan.last == 3
                &&& plan.options.separator is None
                &&& !plan.options.equal_width
            },
            Err(e) => seq_of(seq![cmd, seq!['-', 'f'], format, last]) == Err::<
                SeqOutcomeView,
                SeqError,
            >(SeqError::InvalidFormat(e)),
        },
        format_of(format) is Ok ==> seq_of(
            seq![cmd, seq!['-', 'w'], seq!['-', 'f'], format, last],
        ) == Err::<SeqOutcomeView, SeqError>(SeqError::FormatWithEqualWidth),
{
    let o = no_options();
    let p = SeqOptionsView { format: Some(format), ..o };
    let q = SeqOptionsView { equal_width: true, ..p };
    lemma_written_int(last, l);
    let tail = seq![last];
    let f = seq!['-', 'f'];
    let w = seq!['-', 'w'];
    let a = seq![cmd, f, format, last];
    assert(a =~= seq![cmd, f, format] + tail);
    law_format_is_set(cmd, format, tail, o);
    assert((seq![cmd] + tail)[1] == last);
    assert(options_from(a, 1, o) == Ok::<(SeqOptionsView, int), SeqError>((p, 3)));
    assert(a[3] == last);
    assert(first_invalid(a, 4) == 4);
    assert(first_invalid(a, 3) == 4);
    let b = seq![cmd, w, f, format, last];
    let some = seq![f, format, last];
    assert(b =~= seq![cmd, w] + some);
    law_equal_width_is_set(cmd, some, o);
    assert(seq![cmd] + some =~= a);
    law_format_is_set(cmd, format, tail, (SeqOptionsView { equal_width: true, ..o }));
    assert(options_from(b, 1, o) == Ok::<(SeqOptionsView, int), SeqError>((q, 4)));
}

/// Padding puts zeros between the sign and the digits, as many as are wanting, and leaves what
/// is wide enough.
pub proof fn law_padding(s: Seq<char>, width: nat)
    ensures
        byte_len(s) >= width ==> padded(s, width) == s,
        byte_len(s) < width && s.len() > 0 && s[0] == '-' ==> padded(s, width) == seq!['-']
            + Seq::new((width - byte_len(s)) as nat, |i: int| '0') + s.skip(1),
        byte_len(s) < width && (s.len() == 0 || s[0] != '-') ==> padded(s, width) == Seq::new(
            (width - byte_len(s)) as nat,
            |i: int| '0',
        ) + s,
{
    if byte_len(s) < width {
        assert(Seq::new((width - byte_len(s)) as nat, |i: int| '0') =~= repeated(
            '0',
            (width - byte_len(s)) as nat,
        ));
    }
}

/// Terms are laid out in order, with the separator between two of them and a line break at the
/// end; no terms are nothing at all.
pub proof fn law_lay_out(terms: Seq<Seq<char>>, last: Seq<char>, sep: Seq<char>, width: nat)
    requires
        terms.len() > 0,
    ensures
        laid_out(Seq::empty(), sep, None) == Seq::<char>::empty(),
        laid_out(Seq::empty(), sep, Some(width)) == Seq::<char>::empty(),
        laid_out(seq![last], sep, None) == last.push('\n'),
        laid_out(seq![last], sep, Some(width)) == padded(last, width).push('\n'),
        laid_out(terms.push(last), sep, None) == laid_out(terms, sep, None).drop_last() + sep
            + last.push('\n'),
        laid_out(terms.push(last), sep, Some(width)) == laid_out(
            terms,
            sep,
            Some(width),
        ).drop_last() + sep + padded(last, width).push('\n'),
{
    let one = seq![last];
    assert(shown_terms(one, None)[0] == last);
    assert(shown_terms(one, Some(width))[0] == padded(last, width));
    let more = terms.push(last);
    assert(shown_terms(more, None) =~= shown_terms(terms, None).push(last));
    assert(shown_terms(more, Some(width)) =~= shown_terms(terms, Some(width)).push(
        padded(last, width),
    ));
    assert(shown_terms(more, None).drop_last() =~= shown_terms(terms, None));
    assert(shown_terms(more, Some(width)).drop_last() =~= shown_terms(terms, Some(width)));
    let a = join(shown_terms(terms, None), sep);
    let b = join(shown_terms(terms, Some(width)), sep);
    assert(a.push('\n').drop_last() =~= a);
    assert(b.push('\n').drop_last() =~= b);
    assert((a + sep + last).push('\n') =~= a + sep + last.push('\n'));
    assert((b + sep + padded(last, width)).push('\n') =~= b + sep + padded(last, width).push('\n'));
}

/// A plan has the options that were read, and what cannot be read cannot be planned.
pub proof fn law_plan_has_options(args: Seq<Seq<char>>)
    ensures
        match options_from(args, 1, no_options()) {
            Ok((o, first)) => match plan_of(args) {
                Ok(SeqPlanView::Integer { first: f, step, last, options }) => options == o,
                Ok(SeqPlanView::Floating(plan)) => plan.options == o,
                Err(_) => true,
            },
            Err(e) => plan_of(args) == Err::<SeqPlanView, SeqError>(e),
        },
{
}

/// A sequence is in range if the number behind its last term, which ends it, can be computed.
pub proof fn law_range(first: int, step: int, last: int)
    requires
        step != 0,
    ensures
        steps_fit(first, step, last) <==> ({
            let terms = int_terms(first, step, last);
            let next = if terms.len() == 0 {
                first
            } else {
                terms.last() + step
            };
            i64::MIN <= next <= i64::MAX
        }),
{
    let n = int_terms(first, step, last).len() as int;
    if n > 0 {
        assert((n - 1) * step + step == n * step) by (nonlinear_arith);
    } else {
        assert(n * step == 0) by (nonlinear_arith)
            requires
                n == 0,
        ;
    }
}

/// Three integers that double precision can hold are always in range.
pub proof fn law_small_integers_are_in_range(
    cmd: Seq<char>,
    first: Seq<char>,
    step: Seq<char>,
    last: Seq<char>,
    f: int,
    s: int,
    l: int,
)
    requires
        signed_value(first) == Some(f),
        signed_value(step) == Some(s),
        signed_value(last) == Some(l),
        -0x20_0000_0000_0000 <= f <= 0x20_0000_0000_0000,
        -0x20_0000_0000_0000 <= s <= 0x20_0000_0000_0000,
        -0x20_0000_0000_0000 <= l <= 0x20_0000_0000_0000,
    ensures
        in_range(seq![cmd, first, step, last]),
{
    let args = seq![cmd, first, step, last];
    lemma_written_int(first, f);
    lemma_written_int(step, s);
    lemma_written_int(last, l);
    law_small_ints_are_exact(f);
    law_small_ints_are_exact(s);
    law_small_ints_are_exact(l);
    assert(args[1] == first && args[2] == step && args[3] == last);
    if s != 0 {
        law_int_terms(f, s, l);
        law_range(f, s, l);
    }
}

} // verus!
