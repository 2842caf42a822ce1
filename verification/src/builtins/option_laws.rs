//! What the options of `rm`, `mkdir`, `mktemp` and `touch` mean, one at a time: each changes
//! what the arguments behind it ask for in its own way, and nothing else.

use crate::builtins::mkdir;
use crate::builtins::mkdir::MkdirError;
use crate::builtins::mktemp;
use crate::builtins::mktemp::MktempError;
use crate::builtins::rm;
use crate::builtins::rm::{RmError, RmOptions, RmPlan};
use crate::builtins::touch;
use crate::builtins::touch::{TouchError, TouchOptions};
use vstd::prelude::*;

verus! {

/// The reading of `rm`'s arguments when `by` more stand in front.
pub open spec fn rm_later(r: Result<(RmOptions, int), RmError>, by: int) -> Result<
    (RmOptions, int),
    RmError,
> {
    match r {
        Ok((o, first)) => Ok((o, first + by)),
        Err(RmError::UnsupportedOption(i)) => Err(RmError::UnsupportedOption((i + by) as usize)),
        Err(e) => Err(e),
    }
}

proof fn lemma_rm_later(
    a: Seq<Seq<char>>,
    i: int,
    b: Seq<Seq<char>>,
    j: int,
    o: RmOptions,
)
    requires
        0 <= i <= a.len(),
        i <= j <= b.len() <= usize::MAX,
        a.skip(i) == b.skip(j),
    ensures
        rm::options_from(b, j, o) == rm_later(rm::options_from(a, i, o), j - i),
    decreases a.len() - i,
{
    assert(a.skip(i).len() == a.len() - i);
    assert(b.skip(j).len() == b.len() - j);
    if i < a.len() {
        assert(a[i] == a.skip(i)[0]);
        assert(b[j] == b.skip(j)[0]);
        assert(a.skip(i + 1) =~= a.skip(i).skip(1));
        assert(b.skip(j + 1) =~= b.skip(j).skip(1));
        if a[i] != seq!['-', '-'] && a[i].len() >= 2 && a[i][0] == '-' {
            match rm::flags_from(a[i], 1, o) {
                Some(p) => {
                    lemma_rm_later(a, i + 1, b, j + 1, p);
                },
                None => {},
            }
        }
    }
}

/// Whether one of the letters of an option is `c`.
pub open spec fn has_letter(word: Seq<char>, c: char) -> bool {
    exists|k: int| 1 <= k < word.len() && #[trigger] word[k] == c
}

proof fn lemma_rm_flags(word: Seq<char>, j: int, o: RmOptions)
    requires
        0 <= j <= word.len(),
    ensures
        rm::flags_from(word, j, o) is Some <==> (forall|k: int|
            j <= k < word.len() ==> #[trigger] word[k] == 'f' || word[k] == 'r' || word[k] == 'R'),
        rm::flags_from(word, j, o) matches Some(p) ==> {
            &&& p.force == (o.force || exists|k: int|
                j <= k < word.len() && #[trigger] word[k] == 'f')
            &&& p.recursive == (o.recursive || exists|k: int|
                j <= k < word.len() && (#[trigger] word[k] == 'r' || word[k] == 'R'))
        },
    decreases word.len() - j,
{
    if j < word.len() {
        let c = word[j];
        if c == 'f' {
            lemma_rm_flags(word, j + 1, RmOptions { force: true, ..o });
        } else if c == 'r' || c == 'R' {
            lemma_rm_flags(word, j + 1, RmOptions { recursive: true, ..o });
        }
    }
}

/// An option of `rm` made of the letters `f`, `r` and `R` adds what its letters ask for to what
/// the arguments behind it ask for. Any other letter in it is an error.
pub proof fn law_rm_option(cmd: Seq<char>, word: Seq<char>, rest: Seq<Seq<char>>, o: RmOptions)
    requires
        word.len() >= 2,
        word[0] == '-',
        word != seq!['-', '-'],
        rest.len() + 2 <= usize::MAX,
    ensures
        rm::options_from(seq![cmd, word] + rest, 1, o) == if forall|k: int|
            1 <= k < word.len() ==> #[trigger] word[k] == 'f' || word[k] == 'r' || word[k]
                == 'R' {
            rm_later(
                rm::options_from(
                    seq![cmd] + rest,
                    1,
                    RmOptions {
                        force: o.force || has_letter(word, 'f'),
                        recursive: o.recursive || has_letter(word, 'r') || has_letter(word, 'R'),
                    },
                ),
                1,
            )
        } else {
            Err(RmError::UnsupportedOption(1))
        },
{
    let args = seq![cmd, word] + rest;
    let short = seq![cmd] + rest;
    assert(args[1] == word);
    assert(args.skip(2) =~= short.skip(1));
    lemma_rm_flags(word, 1, o);
    match rm::flags_from(word, 1, o) {
        Some(p) => {
            lemma_rm_later(short, 1, args, 2, p);
            assert(p.recursive == (o.recursive || has_letter(word, 'r') || has_letter(word, 'R')));
            assert(p.force == (o.force || has_letter(word, 'f')));
        },
        None => {},
    }
}

/// The options of `rm` end at `--`, which is skipped, at an argument that is no option, and
/// where the arguments end.
pub proof fn law_rm_operands(cmd: Seq<char>, word: Seq<char>, rest: Seq<Seq<char>>, o: RmOptions)
    requires
        word.len() < 2 || word[0] != '-',
    ensures
        rm::options_from(seq![cmd, seq!['-', '-']] + rest, 1, o) == Ok::<(RmOptions, int), RmError>(
            (o, 2),
        ),
        rm::options_from(seq![cmd, word] + rest, 1, o) == Ok::<(RmOptions, int), RmError>((o, 1)),
        rm::options_from(seq![cmd], 1, o) == Ok::<(RmOptions, int), RmError>((o, 1)),
{
    assert((seq![cmd, seq!['-', '-']] + rest)[1] == seq!['-', '-']);
    assert((seq![cmd, word] + rest)[1] == word);
    assert(seq!['-', '-'].len() == 2 && seq!['-', '-'][0] == '-');
}

/// `rm` wants an operand unless it is forced; the options themselves ask for nothing.
pub proof fn law_rm_needs_operand(cmd: Seq<char>, operand: Seq<char>, rest: Seq<Seq<char>>)
    requires
        operand.len() < 2 || operand[0] != '-',
    ensures
        rm::plan_of(seq![cmd]) == Err::<RmPlan, RmError>(RmError::MissingOperand),
        rm::plan_of(seq![cmd, seq!['-', 'r']]) == Err::<RmPlan, RmError>(RmError::MissingOperand),
        rm::plan_of(seq![cmd, seq!['-', 'f']]) == Ok::<RmPlan, RmError>(
            (RmPlan { options: RmOptions { force: true, recursive: false }, first: 2 }),
        ),
        rm::plan_of(seq![cmd, operand] + rest) == Ok::<RmPlan, RmError>(
            (RmPlan { options: RmOptions { force: false, recursive: false }, first: 1 }),
        ),
{
    let none = RmOptions { force: false, recursive: false };
    let empty = Seq::<Seq<char>>::empty();
    law_rm_operands(cmd, operand, rest, none);
    let r = seq!['-', 'r'];
    let f = seq!['-', 'f'];
    assert(r[0] == '-' && r[1] == 'r' && r.len() == 2);
    assert(f[0] == '-' && f[1] == 'f' && f.len() == 2);
    assert(r != seq!['-', '-'] && f != seq!['-', '-']);
    assert(seq![cmd, r][1] == r);
    assert(seq![cmd, f][1] == f);
    reveal_with_fuel(rm::flags_from, 3);
    reveal_with_fuel(rm::options_from, 3);
}

/// The reading of `mkdir`'s arguments when `by` more stand in front.
pub open spec fn mkdir_later(r: Result<(bool, int), MkdirError>, by: int) -> Result<
    (bool, int),
    MkdirError,
> {
    match r {
        Ok((p, first)) => Ok((p, first + by)),
        Err(MkdirError::UnsupportedOption(i)) => Err(
            MkdirError::UnsupportedOption((i + by) as usize),
        ),
        Err(e) => Err(e),
    }
}

proof fn lemma_mkdir_later(
    a: Seq<Seq<char>>,
    i: int,
    b: Seq<Seq<char>>,
    j: int,
    p: bool,
)
    requires
        0 <= i <= a.len(),
        i <= j <= b.len() <= usize::MAX,
        a.skip(i) == b.skip(j),
    ensures
        mkdir::options_from(b, j, p) == mkdir_later(mkdir::options_from(a, i, p), j - i),
    decreases a.len() - i,
{
    assert(a.skip(i).len() == a.len() - i);
    assert(b.skip(j).len() == b.len() - j);
    if i < a.len() {
        assert(a[i] == a.skip(i)[0]);
        assert(b[j] == b.skip(j)[0]);
        assert(a.skip(i + 1) =~= a.skip(i).skip(1));
        assert(b.skip(j + 1) =~= b.skip(j).skip(1));
        if a[i] == seq!['-', '-'] {
        } else if a[i] == seq!['-', 'm'] {
            if i + 1 < a.len() {
                assert(a.skip(i + 2) =~= a.skip(i).skip(2));
                assert(b.skip(j + 2) =~= b.skip(j).skip(2));
                lemma_mkdir_later(a, i + 2, b, j + 2, p);
            }
        } else if a[i].len() > 0 && a[i][0] == '-' && a[i].contains('p') {
            lemma_mkdir_later(a, i + 1, b, j + 1, true);
        }
    }
}

/// An option of `mkdir` that holds a `p` asks for parents, besides what the arguments behind it
/// ask for; another one is an error.
pub proof fn law_mkdir_option(cmd: Seq<char>, word: Seq<char>, rest: Seq<Seq<char>>, p: bool)
    requires
        word.len() > 0,
        word[0] == '-',
        word != seq!['-', '-'],
        word != seq!['-', 'm'],
        rest.len() + 2 <= usize::MAX,
    ensures
        mkdir::options_from(seq![cmd, word] + rest, 1, p) == if word.contains('p') {
            mkdir_later(mkdir::options_from(seq![cmd] + rest, 1, true), 1)
        } else {
            Err(MkdirError::UnsupportedOption(1))
        },
{
    let args = seq![cmd, word] + rest;
    let short = seq![cmd] + rest;
    assert(args[1] == word);
    assert(args.skip(2) =~= short.skip(1));
    lemma_mkdir_later(short, 1, args, 2, true);
}

/// The mode behind `-m` changes nothing of what the other arguments of `mkdir` ask for; without
/// a mode it is an error.
pub proof fn law_mkdir_mode(cmd: Seq<char>, mode: Seq<char>, rest: Seq<Seq<char>>, p: bool)
    requires
        rest.len() + 3 <= usize::MAX,
    ensures
        mkdir::options_from(seq![cmd, seq!['-', 'm'], mode] + rest, 1, p) == mkdir_later(
            mkdir::options_from(seq![cmd] + rest, 1, p),
            2,
        ),
        mkdir::options_from(seq![cmd, seq!['-', 'm']], 1, p) == Err::<(bool, int), MkdirError>(
            MkdirError::ModeNeedsArgument,
        ),
{
    let m = seq!['-', 'm'];
    assert(m[1] == 'm');
    assert(m != seq!['-', '-']);
    let args = seq![cmd, m, mode] + rest;
    let short = seq![cmd] + rest;
    assert(args[1] == m);
    assert(args.skip(3) =~= short.skip(1));
    lemma_mkdir_later(short, 1, args, 3, p);
    assert(seq![cmd, m][1] == m);
}

/// The options of `mkdir` end at `--`, which is skipped, at an argument that is no option, and
/// where the arguments end; and it wants an operand.
pub proof fn law_mkdir_operands(cmd: Seq<char>, word: Seq<char>, rest: Seq<Seq<char>>, p: bool)
    requires
        word.len() == 0 || word[0] != '-',
    ensures
        mkdir::options_from(seq![cmd, seq!['-', '-']] + rest, 1, p) == Ok::<
            (bool, int),
            MkdirError,
        >((p, 2)),
        mkdir::options_from(seq![cmd, word] + rest, 1, p) == Ok::<(bool, int), MkdirError>((p, 1)),
        mkdir::options_from(seq![cmd], 1, p) == Ok::<(bool, int), MkdirError>((p, 1)),
        mkdir::plan_of(seq![cmd]) == Err::<mkdir::MkdirPlan, MkdirError>(
            MkdirError::MissingOperand,
        ),
        mkdir::plan_of(seq![cmd, word] + rest) == Ok::<mkdir::MkdirPlan, MkdirError>(
            (mkdir::MkdirPlan { parents: false, first: 1 }),
        ),
{
    assert((seq![cmd, seq!['-', '-']] + rest)[1] == seq!['-', '-']);
    assert((seq![cmd, word] + rest)[1] == word);
    assert(seq!['-', '-'].len() == 2 && seq!['-', '-'][0] == '-');
    assert(seq!['-', 'm'].len() == 2 && seq!['-', 'm'][0] == '-');
}

/// The reading of `mktemp`'s arguments when `by` more stand in front.
pub open spec fn mktemp_later(r: Result<(bool, int), MktempError>, by: int) -> Result<
    (bool, int),
    MktempError,
> {
    match r {
        Ok((d, first)) => Ok((d, first + by)),
        Err(MktempError::UnsupportedOption(i)) => Err(
            MktempError::UnsupportedOption((i + by) as usize),
        ),
        Err(e) => Err(e),
    }
}

proof fn lemma_mktemp_later(
    a: Seq<Seq<char>>,
    i: int,
    b: Seq<Seq<char>>,
    j: int,
    d: bool,
)
    requires
        0 <= i <= a.len(),
        i <= j <= b.len() <= usize::MAX,
        a.skip(i) == b.skip(j),
    ensures
        mktemp::options_from(b, j, d) == mktemp_later(mktemp::options_from(a, i, d), j - i),
    decreases a.len() - i,
{
    assert(a.skip(i).len() == a.len() - i);
    assert(b.skip(j).len() == b.len() - j);
    if i < a.len() {
        assert(a[i] == a.skip(i)[0]);
        assert(b[j] == b.skip(j)[0]);
        assert(a.skip(i + 1) =~= a.skip(i).skip(1));
        assert(b.skip(j + 1) =~= b.skip(j).skip(1));
        if a[i] != seq!['-', '-'] && a[i].len() > 0 && a[i][0] == '-' && a[i].contains('d') {
            lemma_mktemp_later(a, i + 1, b, j + 1, true);
        }
    }
}

/// An option of `mktemp` that holds a `d` asks for a directory; another one is an error.
pub proof fn law_mktemp_option(cmd: Seq<char>, word: Seq<char>, rest: Seq<Seq<char>>, d: bool)
    requires
        word.len() > 0,
        word[0] == '-',
        word != seq!['-', '-'],
        rest.len() + 2 <= usize::MAX,
    ensures
        mktemp::options_from(seq![cmd, word] + rest, 1, d) == if word.contains('d') {
            mktemp_later(mktemp::options_from(seq![cmd] + rest, 1, true), 1)
        } else {
            Err(MktempError::UnsupportedOption(1))
        },
{
    let args = seq![cmd, word] + rest;
    let short = seq![cmd] + rest;
    assert(args[1] == word);
    assert(args.skip(2) =~= short.skip(1));
    lemma_mktemp_later(short, 1, args, 2, true);
}

/// The options of `mktemp` end at `--`, which is skipped, at an argument that is no option, and
/// where the arguments end.
pub proof fn law_mktemp_operands(cmd: Seq<char>, word: Seq<char>, rest: Seq<Seq<char>>, d: bool)
    requires
        word.len() == 0 || word[0] != '-',
    ensures
        mktemp::options_from(seq![cmd, seq!['-', '-']] + rest, 1, d) == Ok::<
            (bool, int),
            MktempError,
        >((d, 2)),
        mktemp::options_from(seq![cmd, word] + rest, 1, d) == Ok::<(bool, int), MktempError>(
            (d, 1),
        ),
        mktemp::options_from(seq![cmd], 1, d) == Ok::<(bool, int), MktempError>((d, 1)),
{
    assert((seq![cmd, seq!['-', '-']] + rest)[1] == seq!['-', '-']);
    assert((seq![cmd, word] + rest)[1] == word);
    assert(seq!['-', '-'].len() == 2 && seq!['-', '-'][0] == '-');
}

/// `mktemp` takes at most one template, which ends in `X` and is used as it is written; without
/// one it has its own, which ends in ten of them.
pub proof fn law_mktemp_template(cmd: Seq<char>, template: Seq<char>, rest: Seq<Seq<char>>)
    requires
        template.len() == 0 || template[0] != '-',
    ensures
        rest.len() > 0 ==> mktemp::plan_of(seq![cmd, template] + rest) == Err::<
            mktemp::MktempPlanView,
            MktempError,
        >(MktempError::TooManyTemplates),
        mktemp::plan_of(seq![cmd, template]) == if template.len() > 0 && template.last() == 'X' {
            Ok::<mktemp::MktempPlanView, MktempError>(
                (mktemp::MktempPlanView { directory: false, template }),
            )
        } else {
            Err(MktempError::TooFewX(1))
        },
        mktemp::plan_of(seq![cmd, seq!['-', 'd'], template]) == if template.len() > 0
            && template.last() == 'X' {
            Ok::<mktemp::MktempPlanView, MktempError>(
                (mktemp::MktempPlanView { directory: true, template }),
            )
        } else {
            Err(MktempError::TooFewX(2))
        },
        mktemp::plan_of(seq![cmd]) matches Ok(p) && !p.directory && p.template == seq![
            '/',
            't',
            'm',
            'p',
            '/',
            't',
            'm',
            'p',
            '.',
        ] + Seq::new(10, |i: int| 'X'),
{
    law_mktemp_operands(cmd, template, rest, false);
    law_mktemp_operands(cmd, template, Seq::empty(), false);
    assert(seq![cmd, template] + Seq::<Seq<char>>::empty() =~= seq![cmd, template]);
    lemma_stem(template);
    let d = seq!['-', 'd'];
    assert(d[0] == '-' && d[1] == 'd' && d.len() == 2);
    assert(d != seq!['-', '-']);
    assert(d.contains('d'));
    let args = seq![cmd, d, template];
    assert(args[1] == d && args[2] == template);
    reveal_with_fuel(mktemp::options_from, 3);
    assert(seq!['-', '-'][0] == '-');
    assert(mktemp::options_from(args, 2, true) == Ok::<(bool, int), MktempError>((true, 2)));
    reveal_strlit("/tmp/tmp.XXXXXXXXXX");
    assert("/tmp/tmp.XXXXXXXXXX"@ =~= seq!['/', 't', 'm', 'p', '/', 't', 'm', 'p', '.'] + Seq::new(
        10,
        |i: int| 'X',
    ));
}

proof fn lemma_stem(template: Seq<char>)
    ensures
        mktemp::stem(template).len() <= template.len(),
        mktemp::stem(template).len() == template.len() <==> template.len() == 0 || template.last()
            != 'X',
    decreases template.len(),
{
    if template.len() > 0 && template.last() == 'X' {
        lemma_stem(template.drop_last());
    }
}

/// Exactly the run of `X` that ends a template is replaced.
pub proof fn law_mktemp_keeps_stem(front: Seq<char>, n: nat, state: u64)
    requires
        front.len() == 0 || front.last() != 'X',
        n > 0,
    ensures
        ({
            &&& mktemp::instance(front + Seq::new(n, |i: int| 'X'), state) matches Some(name)
            &&& name.len() == front.len() + n
            &&& name.take(front.len() as int) == front
            &&& forall|i: int|
                front.len() <= i < name.len() ==> mktemp::alphabet().contains(#[trigger] name[i])
        }),
{
    let x = Seq::new(n, |i: int| 'X');
    lemma_stem_of(front, n);
    mktemp::law_instance_fits_template(front + x, state);
    lemma_suffix(state, n);
    let name = front + mktemp::suffix(state, n);
    assert(name.take(front.len() as int) =~= front);
    assert forall|i: int| front.len() <= i < name.len() implies mktemp::alphabet().contains(
        #[trigger] name[i],
    ) by {
        assert(name[i] == mktemp::suffix(state, n)[i - front.len()]);
    }
}

proof fn lemma_suffix(state: u64, n: nat)
    ensures
        mktemp::suffix(state, n).len() == n,
        forall|i: int|
            0 <= i < n ==> mktemp::alphabet().contains(#[trigger] mktemp::suffix(state, n)[i]),
    decreases n,
{
    if n > 0 {
        let s = mktemp::next_state(state);
        lemma_suffix(s, (n - 1) as nat);
        reveal_strlit("abcdefghijklmnopqrstuvwxyzABCDEFGHIJKLMNOPQRSTUVWXYZ0123456789");
        let all = mktemp::suffix(state, n);
        assert forall|i: int| 0 <= i < n implies mktemp::alphabet().contains(#[trigger] all[i]) by {
            if i > 0 {
                assert(all[i] == mktemp::suffix(s, (n - 1) as nat)[i - 1]);
            } else {
                assert(all[0] == mktemp::letter(s));
            }
        }
    }
}

proof fn lemma_stem_of(front: Seq<char>, n: nat)
    requires
        front.len() == 0 || front.last() != 'X',
    ensures
        mktemp::stem(front + Seq::new(n, |i: int| 'X')) == front,
    decreases n,
{
    let all = front + Seq::new(n, |i: int| 'X');
    if n == 0 {
        assert(all =~= front);
    } else {
        lemma_stem_of(front, (n - 1) as nat);
        assert(all.drop_last() =~= front + Seq::new((n - 1) as nat, |i: int| 'X'));
    }
}

/// The reading of `touch`'s arguments when `by` more stand in front.
pub open spec fn touch_later(r: Result<(TouchOptions, int), TouchError>, by: int) -> Result<
    (TouchOptions, int),
    TouchError,
> {
    match r {
        Ok((o, first)) => Ok((o, first + by)),
        Err(TouchError::UnsupportedOption(i)) => Err(
            TouchError::UnsupportedOption((i + by) as usize),
        ),
        Err(TouchError::InvalidDate(i)) => Err(TouchError::InvalidDate((i + by) as usize)),
        Err(e) => Err(e),
    }
}

proof fn lemma_touch_later(
    a: Seq<Seq<char>>,
    i: int,
    b: Seq<Seq<char>>,
    j: int,
    o: TouchOptions,
)
    requires
        0 <= i <= a.len(),
        i <= j <= b.len() <= usize::MAX,
        a.skip(i) == b.skip(j),
    ensures
        touch::options_from(b, j, o) == touch_later(touch::options_from(a, i, o), j - i),
    decreases a.len() - i,
{
    assert(a.skip(i).len() == a.len() - i);
    assert(b.skip(j).len() == b.len() - j);
    if i < a.len() {
        assert(a[i] == a.skip(i)[0]);
        assert(b[j] == b.skip(j)[0]);
        assert(a.skip(i + 1) =~= a.skip(i).skip(1));
        assert(b.skip(j + 1) =~= b.skip(j).skip(1));
        if a[i] == seq!['-', '-'] {
        } else if a[i] == seq!['-', 'm'] {
            lemma_touch_later(a, i + 1, b, j + 1, TouchOptions { mtime_only: true, ..o });
        } else if a[i] == seq!['-', 't'] {
            if i + 1 < a.len() {
                assert(a[i + 1] == a.skip(i)[1]);
                assert(b[j + 1] == b.skip(j)[1]);
                assert(a.skip(i + 2) =~= a.skip(i).skip(2));
                assert(b.skip(j + 2) =~= b.skip(j).skip(2));
                match touch::timestamp_seconds(a[i + 1]) {
                    Some(v) => {
                        lemma_touch_later(
                            a,
                            i + 2,
                            b,
                            j + 2,
                            TouchOptions { timestamp: Some(v as i64), ..o },
                        );
                    },
                    None => {},
                }
            }
        }
    }
}

/// `-m` sets its own mark, and nothing else, for the arguments of `touch` behind it.
pub proof fn law_touch_mtime(cmd: Seq<char>, rest: Seq<Seq<char>>, o: TouchOptions)
    requires
        rest.len() + 2 <= usize::MAX,
    ensures
        touch::options_from(seq![cmd, seq!['-', 'm']] + rest, 1, o) == touch_later(
            touch::options_from(
                seq![cmd] + rest,
                1,
                TouchOptions { mtime_only: true, timestamp: o.timestamp },
            ),
            1,
        ),
{
    let m = seq!['-', 'm'];
    assert(m[1] == 'm');
    assert(m != seq!['-', '-']);
    let args = seq![cmd, m] + rest;
    let short = seq![cmd] + rest;
    assert(args[1] == m);
    assert(args.skip(2) =~= short.skip(1));
    lemma_touch_later(short, 1, args, 2, TouchOptions { mtime_only: true, ..o });
}

/// `-t` sets the time that its argument writes, and nothing else, for the arguments of `touch`
/// behind it. An argument that writes no time is an error, and so is none.
pub proof fn law_touch_timestamp(
    cmd: Seq<char>,
    stamp: Seq<char>,
    rest: Seq<Seq<char>>,
    o: TouchOptions,
)
    requires
        rest.len() + 3 <= usize::MAX,
    ensures
        touch::options_from(seq![cmd, seq!['-', 't'], stamp] + rest, 1, o) == (
        match touch::timestamp_seconds(stamp) {
            Some(v) => touch_later(
                touch::options_from(
                    seq![cmd] + rest,
                    1,
                    TouchOptions { mtime_only: o.mtime_only, timestamp: Some(v as i64) },
                ),
                2,
            ),
            None => Err(TouchError::InvalidDate(2)),
        }),
        touch::options_from(seq![cmd, seq!['-', 't']], 1, o) == Err::<
            (TouchOptions, int),
            TouchError,
        >(TouchError::TimestampNeedsArgument),
{
    let t = seq!['-', 't'];
    assert(t[1] == 't');
    assert(seq!['-', 'm'][1] == 'm' && seq!['-', '-'][1] == '-');
    assert(t != seq!['-', '-'] && t != seq!['-', 'm']);
    let args = seq![cmd, t, stamp] + rest;
    let short = seq![cmd] + rest;
    assert(args[1] == t && args[2] == stamp);
    assert(args.skip(3) =~= short.skip(1));
    match touch::timestamp_seconds(stamp) {
        Some(v) => {
            lemma_touch_later(
                short,
                1,
                args,
                3,
                TouchOptions { timestamp: Some(v as i64), ..o },
            );
        },
        None => {},
    }
    assert(seq![cmd, t][1] == t);
}

/// The options of `touch` end at `--`, which is skipped, at an argument that is no option, and
/// where the arguments end; any other option is an error; and it wants an operand.
pub proof fn law_touch_operands(
    cmd: Seq<char>,
    word: Seq<char>,
    odd: Seq<char>,
    rest: Seq<Seq<char>>,
    o: TouchOptions,
)
    requires
        word.len() == 0 || word[0] != '-',
        odd.len() > 0,
        odd[0] == '-',
        odd != seq!['-', '-'],
        odd != seq!['-', 'm'],
        odd != seq!['-', 't'],
    ensures
        touch::options_from(seq![cmd, seq!['-', '-']] + rest, 1, o) == Ok::<
            (TouchOptions, int),
            TouchError,
        >((o, 2)),
        touch::options_from(seq![cmd, word] + rest, 1, o) == Ok::<(TouchOptions, int), TouchError>(
            (o, 1),
        ),
        touch::options_from(seq![cmd, odd] + rest, 1, o) == Err::<(TouchOptions, int), TouchError>(
            TouchError::UnsupportedOption(1),
        ),
        touch::options_from(seq![cmd], 1, o) == Ok::<(TouchOptions, int), TouchError>((o, 1)),
        touch::plan_of(seq![cmd]) == Err::<touch::TouchPlan, TouchError>(
            TouchError::MissingOperand,
        ),
        touch::plan_of(seq![cmd, word] + rest) == Ok::<touch::TouchPlan, TouchError>(
            (touch::TouchPlan {
                options: TouchOptions { mtime_only: false, timestamp: None },
                first: 1,
            }),
        ),
{
    assert((seq![cmd, seq!['-', '-']] + rest)[1] == seq!['-', '-']);
    assert((seq![cmd, word] + rest)[1] == word);
    assert((seq![cmd, odd] + rest)[1] == odd);
    assert(seq!['-', '-'][0] == '-' && seq!['-', '-'].len() == 2);
    assert(seq!['-', 'm'][0] == '-' && seq!['-', 'm'].len() == 2);
    assert(seq!['-', 't'][0] == '-' && seq!['-', 't'].len() == 2);
}

/// A plan of `rm` has the options that were read and the operands behind them, and there is one
/// unless reading fails or an operand is wanting.
pub proof fn law_rm_plan(args: Seq<Seq<char>>, o: RmOptions, first: int)
    requires
        rm::options_from(args, 1, RmOptions { force: false, recursive: false }) == Ok::<
            (RmOptions, int),
            RmError,
        >((o, first)),
        1 <= first <= args.len() <= usize::MAX,
    ensures
        first < args.len() || o.force ==> (rm::plan_of(args) matches Ok(p) && p.options == o
            && p.first == first),
        first == args.len() && !o.force ==> rm::plan_of(args) == Err::<RmPlan, RmError>(
            RmError::MissingOperand,
        ),
{
}

/// A plan of `mkdir` has the option that was read and the operands behind it.
pub proof fn law_mkdir_plan(args: Seq<Seq<char>>, parents: bool, first: int)
    requires
        mkdir::options_from(args, 1, false) == Ok::<(bool, int), MkdirError>((parents, first)),
        1 <= first <= args.len() <= usize::MAX,
    ensures
        first < args.len() ==> (mkdir::plan_of(args) matches Ok(p) && p.parents == parents
            && p.first == first),
        first == args.len() ==> mkdir::plan_of(args) == Err::<mkdir::MkdirPlan, MkdirError>(
            MkdirError::MissingOperand,
        ),
{
}

/// A plan of `touch` has the options that were read and the operands behind them.
pub proof fn law_touch_plan(args: Seq<Seq<char>>, o: TouchOptions, first: int)
    requires
        touch::options_from(args, 1, TouchOptions { mtime_only: false, timestamp: None }) == Ok::<
            (TouchOptions, int),
            TouchError,
        >((o, first)),
        1 <= first <= args.len() <= usize::MAX,
    ensures
        first < args.len() ==> (touch::plan_of(args) matches Ok(p) && p.options == o && p.first
            == first),
        first == args.len() ==> touch::plan_of(args) == Err::<touch::TouchPlan, TouchError>(
            TouchError::MissingOperand,
        ),
{
}

/// A plan of `mktemp` has the option that was read, and the template behind it as it is written.
pub proof fn law_mktemp_plan(args: Seq<Seq<char>>, directory: bool, first: int)
    requires
        mktemp::options_from(args, 1, false) == Ok::<(bool, int), MktempError>((directory, first)),
        1 <= first <= args.len() <= usize::MAX,
    ensures
        first + 1 < args.len() ==> mktemp::plan_of(args) == Err::<
            mktemp::MktempPlanView,
            MktempError,
        >(MktempError::TooManyTemplates),
        first + 1 == args.len() && args[first].len() > 0 && args[first].last() == 'X' ==> (
        mktemp::plan_of(args) matches Ok(p) && p.directory == directory && p.template
            == args[first]),
        first + 1 == args.len() && (args[first].len() == 0 || args[first].last() != 'X')
            ==> mktemp::plan_of(args) == Err::<mktemp::MktempPlanView, MktempError>(
            MktempError::TooFewX(first as usize),
        ),
        first == args.len() ==> (mktemp::plan_of(args) matches Ok(p) && p.directory == directory),
{
    if first < args.len() {
        lemma_stem(args[first]);
    }
}

/// What cannot be read cannot be planned, for the same reason.
pub proof fn law_option_errors_stop(
    args: Seq<Seq<char>>,
    r: RmError,
    d: MkdirError,
    m: MktempError,
    t: TouchError,
)
    ensures
        rm::options_from(args, 1, RmOptions { force: false, recursive: false }) == Err::<
            (RmOptions, int),
            RmError,
        >(r) ==> rm::plan_of(args) == Err::<RmPlan, RmError>(r),
        mkdir::options_from(args, 1, false) == Err::<(bool, int), MkdirError>(d)
            ==> mkdir::plan_of(args) == Err::<mkdir::MkdirPlan, MkdirError>(d),
        mktemp::options_from(args, 1, false) == Err::<(bool, int), MktempError>(m)
            ==> mktemp::plan_of(args) == Err::<mktemp::MktempPlanView, MktempError>(m),
        touch::options_from(args, 1, TouchOptions { mtime_only: false, timestamp: None }) == Err::<
            (TouchOptions, int),
            TouchError,
        >(t) ==> touch::plan_of(args) == Err::<touch::TouchPlan, TouchError>(t),
{
}

} // verus!
