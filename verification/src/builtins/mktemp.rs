//! `mktemp`: create a file or directory with a fresh name.

use crate::builtins::{about, arg_at, Status};
use crate::text::{chars_of, copy_text, push_text, texts};
use vstd::prelude::*;
use vstd::slice::slice_subrange;

verus! {

/// How many names are tried before giving up.
pub const MAX_TRIES: u32 = 256;

/// The seed of the first name where the clock gives none, and the distance between the
/// counter values of two names.
pub const GOLDEN: u64 = 0x9E37_79B9_7F4A_7C15;

/// The multiplier that spreads a generator state over 64 bits.
pub const SPREAD: u64 = 0x2545_F491_4F6C_DD1D;

/// The characters that a generated suffix is made of.
pub open spec fn alphabet() -> Seq<char> {
    "abcdefghijklmnopqrstuvwxyzABCDEFGHIJKLMNOPQRSTUVWXYZ0123456789"@
}

/// The generator state after `s`.
pub open spec fn next_state(s: u64) -> u64 {
    let a = s ^ (s >> 12u64);
    let b = a ^ (a << 25u64);
    b ^ (b >> 27u64)
}

/// The character that a generator state yields.
pub open spec fn letter(s: u64) -> char {
    alphabet()[((s as int * SPREAD as int) % 0x1_0000_0000_0000_0000) as u64 as usize as int % 62]
}

/// The characters that `len` steps of the generator yield.
pub open spec fn suffix(state: u64, len: nat) -> Seq<char>
    decreases len,
{
    if len == 0 {
        Seq::empty()
    } else {
        let s = next_state(state);
        seq![letter(s)] + suffix(s, (len - 1) as nat)
    }
}

/// A template without its trailing `X`s.
pub open spec fn stem(template: Seq<char>) -> Seq<char>
    decreases template.len(),
{
    if template.len() > 0 && template.last() == 'X' {
        stem(template.drop_last())
    } else {
        template
    }
}

/// A template with its trailing `X`s replaced; nothing if there are none.
pub open spec fn instance(template: Seq<char>, state: u64) -> Option<Seq<char>> {
    let front = stem(template);
    if front.len() == template.len() {
        None
    } else {
        Some(front + suffix(state, (template.len() - front.len()) as nat))
    }
}

/// The generator state to start from: clock, process and counter mixed.
pub fn seed(nanos: Option<u64>, pid: u32, counter: u64) -> (r: u64)
    ensures
        r == (match nanos {
            Some(n) => n,
            None => GOLDEN,
        }) ^ ((pid as u64) << 32u64) ^ counter,
{
    let clock: u64 = match nanos {
        Some(n) => n,
        None => GOLDEN,
    };
    clock ^ ((pid as u64) << 32u64) ^ counter
}

/// Generates `len` characters from a state.
pub fn next_suffix(state: u64, len: usize) -> (r: Vec<char>)
    ensures
        r@ == suffix(state, len as nat),
{
    let letters = chars_of("abcdefghijklmnopqrstuvwxyzABCDEFGHIJKLMNOPQRSTUVWXYZ0123456789");
    proof {
        reveal_strlit("abcdefghijklmnopqrstuvwxyzABCDEFGHIJKLMNOPQRSTUVWXYZ0123456789");
    }
    assert(letters@.len() == 62);
    let mut s: u64 = state;
    let mut out: Vec<char> = Vec::new();
    let mut i: usize = 0;
    assert(out@ + suffix(state, len as nat) =~= suffix(state, len as nat));
    while i < len
        invariant
            i <= len,
            letters@ == alphabet(),
            letters@.len() == 62,
            out@ + suffix(s, (len - i) as nat) == suffix(state, len as nat),
        decreases len - i,
    {
        let ghost before = out@;
        let ghost rest = suffix(s, (len - i) as nat);
        let a: u64 = s ^ (s >> 12u64);
        let b: u64 = a ^ (a << 25u64);
        s = b ^ (b >> 27u64);
        let v: u64 = s.wrapping_mul(SPREAD);
        let k: usize = (v as usize) % 62;
        out.push(letters[k]);
        i += 1;
        assert(letters@[k as int] == letter(s));
        assert(rest =~= seq![letter(s)] + suffix(s, (len - i) as nat));
        assert(out@ + suffix(s, (len - i) as nat) =~= before + rest);
    }
    assert(out@ + suffix(s, 0) =~= out@);
    out
}

/// Replaces the trailing `X`s of a template by generated characters.
pub fn instantiate_template(template: &[char], state: u64) -> (r: Option<Vec<char>>)
    ensures
        instance(template@, state) == (match r {
            Some(v) => Some(v@),
            None => None,
        }),
{
    let start: usize = stem_len(template);
    let count: usize = template.len() - start;
    if count == 0 {
        return None;
    }
    assert(template@.subrange(0, start as int) =~= template@.take(start as int));
    let mut out = copy_text(slice_subrange(template, 0, start));
    let tail = next_suffix(state, count);
    push_text(&mut out, tail.as_slice());
    Some(out)
}

/// The length of a template without its trailing `X`s.
fn stem_len(template: &[char]) -> (r: usize)
    ensures
        r <= template@.len(),
        template@.take(r as int) == stem(template@),
        r == stem(template@).len(),
{
    let mut end: usize = template.len();
    assert(template@.take(end as int) =~= template@);
    while end > 0 && template[end - 1] == 'X'
        invariant
            end <= template@.len(),
            stem(template@) == stem(template@.take(end as int)),
        decreases end,
    {
        assert(template@.take(end as int).drop_last() =~= template@.take(end as int - 1));
        end -= 1;
    }
    end
}

/// Why `mktemp` fails. An argument is named by its index.
#[derive(Clone, Copy, Debug, PartialEq, Eq, Structural)]
pub enum MktempError {
    /// An option that is not known.
    UnsupportedOption(usize),
    /// More than one template.
    TooManyTemplates,
    /// A template that does not end in `X`.
    TooFewX(usize),
    /// Every name that was tried exists.
    Exhausted,
}

/// What `mktemp` is asked to do.
pub struct MktempPlan {
    /// `-d`: create a directory.
    pub directory: bool,
    /// The template for the name.
    pub template: Vec<char>,
}

/// The contents of [`MktempPlan`].
#[verifier::ext_equal]
pub struct MktempPlanView {
    pub directory: bool,
    pub template: Seq<char>,
}

impl View for MktempPlan {
    type V = MktempPlanView;

    open spec fn view(&self) -> MktempPlanView {
        MktempPlanView { directory: self.directory, template: self.template@ }
    }
}

/// Whether the options in `args[i..]`, after those that gave `directory`, ask for a
/// directory, and the index of the template. An option with a `d` in it counts as `-d`;
/// `--` ends the options.
pub open spec fn options_from(args: Seq<Seq<char>>, i: int, directory: bool) -> Result<
    (bool, int),
    MktempError,
>
    decreases args.len() - i,
{
    if i >= args.len() {
        Ok((directory, i))
    } else if args[i] == seq!['-', '-'] {
        Ok((directory, i + 1))
    } else if args[i].len() > 0 && args[i][0] == '-' {
        if args[i].contains('d') {
            options_from(args, i + 1, true)
        } else {
            Err(MktempError::UnsupportedOption(i as usize))
        }
    } else {
        Ok((directory, i))
    }
}

/// What the arguments of `mktemp` ask for.
pub open spec fn plan_of(args: Seq<Seq<char>>) -> Result<MktempPlanView, MktempError> {
    match options_from(args, 1, false) {
        Err(e) => Err(e),
        Ok((directory, first)) => if first + 1 < args.len() {
            Err(MktempError::TooManyTemplates)
        } else if first == args.len() {
            Ok(MktempPlanView { directory, template: "/tmp/tmp.XXXXXXXXXX"@ })
        } else if stem(args[first]).len() == args[first].len() {
            Err(MktempError::TooFewX(first as usize))
        } else {
            Ok(MktempPlanView { directory, template: args[first] })
        },
    }
}

/// Parse leading options; returns whether a directory is wanted and the index of the
/// template.
#[verifier::loop_isolation(false)]
pub fn parse_options(args: &[Vec<char>]) -> (r: Result<(bool, usize), MktempError>)
    requires
        args@.len() > 0,
    ensures
        options_from(texts(args@), 1, false) == (match r {
            Ok((d, first)) => Ok((d, first as int)),
            Err(e) => Err(e),
        }),
        r matches Ok((d, first)) ==> 1 <= first <= args@.len(),
{
    let mut directory: bool = false;
    let mut i: usize = 1;
    while i < args.len()
        invariant
            1 <= i <= args@.len(),
            options_from(texts(args@), 1, false) == options_from(texts(args@), i as int, directory),
        decreases args@.len() - i,
    {
        let arg = args[i].as_slice();
        assert(texts(args@)[i as int] == arg@);
        if arg.len() == 2 && arg[0] == '-' && arg[1] == '-' {
            assert(arg@ =~= seq!['-', '-']);
            return Ok((directory, i + 1));
        }
        assert(arg@ != seq!['-', '-']) by {
            if arg@ == seq!['-', '-'] {
                assert(arg@.len() == 2 && arg@[0] == '-' && arg@[1] == '-');
            }
        }
        if !(arg.len() > 0 && arg[0] == '-') {
            return Ok((directory, i));
        }
        if crate::text::holds(arg, 'd') {
            directory = true;
            i += 1;
        } else {
            return Err(MktempError::UnsupportedOption(i));
        }
    }
    Ok((directory, i))
}

/// What `mktemp` is asked to do.
pub fn mktemp(args: &[Vec<char>]) -> (r: Result<MktempPlan, MktempError>)
    requires
        args@.len() > 0,
    ensures
        plan_of(texts(args@)) == (match r {
            Ok(p) => Ok(p@),
            Err(e) => Err(e),
        }),
{
    let (directory, first) = match parse_options(args) {
        Ok(v) => v,
        Err(e) => {
            return Err(e);
        },
    };
    if args.len() - first > 1 {
        return Err(MktempError::TooManyTemplates);
    }
    if first == args.len() {
        return Ok(MktempPlan { directory, template: chars_of("/tmp/tmp.XXXXXXXXXX") });
    }
    let template = args[first].as_slice();
    if stem_len(template) == template.len() {
        return Err(MktempError::TooFewX(first));
    }
    Ok(MktempPlan { directory, template: copy_text(template) })
}

/// How an attempt to create a name ended.
#[derive(Clone, Copy, Debug, PartialEq, Eq, Structural)]
pub enum Attempt {
    Created,
    AlreadyExists,
    Failed,
}

/// What follows an attempt.
#[derive(Clone, Copy, Debug, PartialEq, Eq, Structural)]
pub enum AfterAttempt {
    /// Print the name and succeed.
    Print,
    /// Try another name.
    Retry,
    /// Report the failure.
    Fail,
    /// Report that no unique name was found.
    GiveUp,
}

/// What follows attempt number `tries`, counted from 1.
pub fn after_attempt(tries: u32, attempt: Attempt) -> (r: AfterAttempt)
    ensures
        r == (match attempt {
            Attempt::Created => AfterAttempt::Print,
            Attempt::AlreadyExists => if tries < MAX_TRIES {
                AfterAttempt::Retry
            } else {
                AfterAttempt::GiveUp
            },
            Attempt::Failed => AfterAttempt::Fail,
        }),
{
    match attempt {
        Attempt::Created => AfterAttempt::Print,
        Attempt::AlreadyExists => {
            if tries < MAX_TRIES {
                AfterAttempt::Retry
            } else {
                AfterAttempt::GiveUp
            }
        },
        Attempt::Failed => AfterAttempt::Fail,
    }
}

/// The status that an error leads to.
pub open spec fn status_of(e: MktempError) -> Status {
    match e {
        MktempError::Exhausted => Status::CmdError,
        _ => Status::InvalidArgs,
    }
}

/// The text that reports an error.
pub open spec fn message_of(e: MktempError, args: Seq<Seq<char>>) -> Seq<char> {
    match e {
        MktempError::UnsupportedOption(i) => "unsupported option: "@ + arg_at(args, i as int),
        MktempError::TooManyTemplates => "too many templates"@,
        MktempError::TooFewX(i) => "too few X's in template: "@ + arg_at(args, i as int),
        MktempError::Exhausted => "failed to create a unique temporary path"@,
    }
}

impl MktempError {
    /// The status to return.
    pub fn status(self) -> (r: Status)
        ensures
            r == status_of(self),
    {
        match self {
            MktempError::Exhausted => Status::CmdError,
            _ => Status::InvalidArgs,
        }
    }

    /// The text to report.
    pub fn message(self, args: &[Vec<char>]) -> (r: Vec<char>)
        ensures
            r@ == message_of(self, texts(args@)),
    {
        match self {
            MktempError::UnsupportedOption(i) => about("unsupported option: ", args, i),
            MktempError::TooManyTemplates => chars_of("too many templates"),
            MktempError::TooFewX(i) => about("too few X's in template: ", args, i),
            MktempError::Exhausted => chars_of("failed to create a unique temporary path"),
        }
    }
}

proof fn lemma_suffix(state: u64, len: nat)
    ensures
        suffix(state, len).len() == len,
        forall|i: int| 0 <= i < len ==> alphabet().contains(#[trigger] suffix(state, len)[i]),
    decreases len,
{
    if len > 0 {
        let s = next_state(state);
        lemma_suffix(s, (len - 1) as nat);
        reveal_strlit("abcdefghijklmnopqrstuvwxyzABCDEFGHIJKLMNOPQRSTUVWXYZ0123456789");
        assert(alphabet().len() == 62);
        assert(alphabet().contains(letter(s)));
        assert forall|i: int| 0 <= i < len implies alphabet().contains(
            #[trigger] suffix(state, len)[i],
        ) by {
            if i > 0 {
                assert(suffix(state, len)[i] == suffix(s, (len - 1) as nat)[i - 1]);
            }
        }
    }
}

proof fn lemma_stem(template: Seq<char>)
    ensures
        stem(template).len() <= template.len(),
        template.take(stem(template).len() as int) == stem(template),
        forall|i: int| stem(template).len() <= i < template.len() ==> template[i] == 'X',
    decreases template.len(),
{
    if template.len() > 0 && template.last() == 'X' {
        lemma_stem(template.drop_last());
        let n = stem(template).len() as int;
        assert(template.take(n) =~= template.drop_last().take(n));
        assert forall|i: int| n <= i < template.len() implies template[i] == 'X' by {
            if i < template.len() - 1 {
                assert(template[i] == template.drop_last()[i]);
            }
        }
    } else {
        assert(template.take(template.len() as int) =~= template);
    }
}

/// A name made from a template is as long as the template and differs from it only where
/// the trailing `X`s stood; there it has letters and digits.
pub proof fn law_instance_fits_template(template: Seq<char>, state: u64)
    ensures
        instance(template, state) matches Some(name) ==> {
            &&& name.len() == template.len()
            &&& forall|i: int|
                0 <= i < name.len() ==> #[trigger] name[i] == template[i] || (template[i] == 'X'
                    && alphabet().contains(name[i]))
        },
        instance(template, state) is None <==> template.len() == 0 || template.last() != 'X',
{
    lemma_stem(template);
    let n = stem(template).len() as int;
    lemma_suffix(state, (template.len() - n) as nat);
    if n < template.len() {
        let name = instance(template, state)->0;
        assert forall|i: int| 0 <= i < name.len() implies #[trigger] name[i] == template[i] || (
        template[i] == 'X' && alphabet().contains(name[i])) by {
            if i < n {
                assert(name[i] == stem(template)[i]);
                assert(template.take(n)[i] == template[i]);
            } else {
                assert(name[i] == suffix(state, (template.len() - n) as nat)[i - n]);
            }
        }
        assert(template[template.len() - 1] == 'X');
    }
    if template.len() > 0 && template.last() == 'X' {
        lemma_stem(template.drop_last());
    }
}

proof fn lemma_xorshift(x: u64, y: u64)
    ensures
        x ^ (x >> 12u64) == y ^ (y >> 12u64) ==> x == y,
        x ^ (x << 25u64) == y ^ (y << 25u64) ==> x == y,
        x ^ (x >> 27u64) == y ^ (y >> 27u64) ==> x == y,
{
    assert(x ^ (x >> 12u64) == y ^ (y >> 12u64) ==> x == y) by (bit_vector);
    assert(x ^ (x << 25u64) == y ^ (y << 25u64) ==> x == y) by (bit_vector);
    assert(x ^ (x >> 27u64) == y ^ (y >> 27u64) ==> x == y) by (bit_vector);
}

/// Different states lead to different states: no sequence of names runs into another.
pub proof fn law_states_stay_apart(x: u64, y: u64)
    requires
        x != y,
    ensures
        next_state(x) != next_state(y),
{
    let a = x ^ (x >> 12u64);
    let b = y ^ (y >> 12u64);
    lemma_xorshift(x, y);
    lemma_xorshift(a, b);
    lemma_xorshift(a ^ (a << 25u64), b ^ (b << 25u64));
}

/// A longer suffix begins as a shorter one from the same state does, and goes on from the next
/// state.
pub proof fn law_suffixes_agree(state: u64, m: nat, n: nat)
    requires
        m <= n,
    ensures
        suffix(state, n).len() == n,
        suffix(state, n).take(m as int) == suffix(state, m),
        n > 0 ==> suffix(state, n).skip(1) == suffix(next_state(state), (n - 1) as nat),
    decreases n,
{
    if n > 0 {
        let s = next_state(state);
        law_suffixes_agree(s, (n - 1) as nat, (n - 1) as nat);
        assert(suffix(state, n).skip(1) =~= suffix(s, (n - 1) as nat));
        if m > 0 {
            law_suffixes_agree(s, (m - 1) as nat, (n - 1) as nat);
            assert(suffix(state, n).take(m as int) =~= suffix(state, m)) by {
                let long = suffix(s, (n - 1) as nat);
                let short = suffix(s, (m - 1) as nat);
                assert(short.len() == m - 1) by {
                    assert(long.take(m - 1).len() == m - 1);
                }
                assert forall|i: int| 0 <= i < m implies suffix(state, n)[i] == suffix(
                    state,
                    m,
                )[i] by {
                    if i > 0 {
                        assert(long.take(m - 1)[i - 1] == short[i - 1]);
                    }
                }
            }
        } else {
            assert(suffix(state, n).take(0) =~= suffix(state, 0));
        }
    } else {
        assert(suffix(state, n).take(m as int) =~= suffix(state, m));
    }
}

/// Every letter of the alphabet can come.
pub proof fn law_every_letter_comes(k: int)
    requires
        0 <= k < 62,
    ensures
        alphabet().len() == 62,
        exists|s: u64| #[trigger] letter(s) == alphabet()[k],
{
    reveal_strlit("abcdefghijklmnopqrstuvwxyzABCDEFGHIJKLMNOPQRSTUVWXYZ0123456789");
    let modulus: int = 0x1_0000_0000_0000_0000;
    let spread = SPREAD as int;
    // The inverse of the factor, and how often the modulus fits into their product.
    let inverse: int = 0x59071d96d81ecd35int;
    let times: int = 0xcf65b3f17bf4a6bint;
    assert(inverse * spread == 1 + times * modulus);
    let s = (k * inverse) % modulus;
    let q = (k * inverse) / modulus;
    vstd::arithmetic::div_mod::lemma_fundamental_div_mod(k * inverse, modulus);
    assert(s * spread == modulus * (k * times - q * spread) + k) by (nonlinear_arith)
        requires
            k * inverse == modulus * q + s,
            inverse * spread == 1 + times * modulus,
    ;
    vstd::arithmetic::div_mod::lemma_mod_multiples_vanish(k * times - q * spread, k, modulus);
    vstd::arithmetic::div_mod::lemma_small_mod(k as nat, modulus as nat);
    assert((s * spread) % modulus == k);
    let state = s as u64;
    assert(state as int == s);
    assert(letter(state) == alphabet()[k]);
}

} // verus!
