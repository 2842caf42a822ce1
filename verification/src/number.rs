//! Decimal numbers as text, and the rounding of integers to double precision.

use crate::text::{law_indices, ascii_lower, find_first, first_index, lower_text, same_text, to_lower_text};
use vstd::prelude::*;

verus! {

/// Whether a character is an ASCII digit.
pub open spec fn is_digit(c: char) -> bool {
    '0' <= c <= '9'
}

/// The value of a digit.
pub open spec fn digit_value(c: char) -> int {
    c as int - '0' as int
}

/// The digit with a value below ten.
pub open spec fn digit_char(d: nat) -> char {
    (('0' as int + d) as u8) as char
}

/// Whether every character is a digit.
pub open spec fn all_digits(s: Seq<char>) -> bool {
    forall|i: int| 0 <= i < s.len() ==> is_digit(#[trigger] s[i])
}

/// The number that a sequence of digits writes.
pub open spec fn decimal(s: Seq<char>) -> int
    decreases s.len(),
{
    if s.len() == 0 {
        0
    } else {
        decimal(s.drop_last()) * 10 + digit_value(s.last())
    }
}

/// The digits of a number, without leading zeros.
pub open spec fn digits(n: nat) -> Seq<char>
    decreases n,
{
    if n < 10 {
        seq![digit_char(n)]
    } else {
        digits(n / 10).push(digit_char(n % 10))
    }
}

/// The text of an integer: its digits, after a `-` if it is negative.
pub open spec fn int_text(i: int) -> Seq<char> {
    if i < 0 {
        seq!['-'] + digits((-i) as nat)
    } else {
        digits(i as nat)
    }
}

/// The number that a text writes without a sign or after a `+`.
pub open spec fn unsigned_value(s: Seq<char>) -> Option<int> {
    let body = if s.len() > 0 && s[0] == '+' {
        s.drop_first()
    } else {
        s
    };
    if body.len() > 0 && all_digits(body) {
        Some(decimal(body))
    } else {
        None
    }
}

/// The integer that a text writes, with an optional sign.
pub open spec fn signed_value(s: Seq<char>) -> Option<int> {
    if s.len() > 0 && s[0] == '-' {
        let body = s.drop_first();
        if body.len() > 0 && all_digits(body) {
            Some(-decimal(body))
        } else {
            None
        }
    } else {
        unsigned_value(s)
    }
}

/// A number, if it is there and lies between two bounds.
pub open spec fn within(n: Option<int>, low: int, high: int) -> Option<int> {
    match n {
        Some(v) => if low <= v <= high {
            Some(v)
        } else {
            None
        },
        None => None,
    }
}

proof fn lemma_decimal_grows(s: Seq<char>, i: int)
    requires
        0 <= i <= s.len(),
        all_digits(s),
    ensures
        0 <= decimal(s.take(i)) <= decimal(s),
    decreases s.len(),
{
    if i == s.len() {
        assert(s.take(i) =~= s);
        if s.len() > 0 {
            let front = s.drop_last();
            assert(all_digits(front)) by {
                assert forall|k: int| 0 <= k < front.len() implies is_digit(#[trigger] front[k]) by {
                    assert(is_digit(s[k]));
                }
            }
            assert(is_digit(s[s.len() - 1]));
            lemma_decimal_grows(front, front.len() as int);
            assert(front.take(front.len() as int) =~= front);
        }
    } else {
        let front = s.drop_last();
        assert(all_digits(front)) by {
            assert forall|k: int| 0 <= k < front.len() implies is_digit(#[trigger] front[k]) by {
                assert(is_digit(s[k]));
            }
        }
        assert(is_digit(s[s.len() - 1]));
        lemma_decimal_grows(front, i);
        assert(front.take(i) =~= s.take(i));
    }
}

/// The number that `n` digits write lies below 10 to the power `n`; here for up to four.
pub proof fn lemma_decimal_bound(s: Seq<char>)
    requires
        all_digits(s),
        s.len() <= 4,
    ensures
        0 <= decimal(s) <= 9999,
        s.len() <= 2 ==> decimal(s) <= 99,
    decreases s.len(),
{
    reveal_with_fuel(decimal, 5);
    assert forall|k: int| 0 <= k < s.len() implies 0 <= digit_value(#[trigger] s[k]) <= 9 by {
        assert(is_digit(s[k]));
    }
}

/// Writing a number and reading it back gives the number.
pub proof fn law_digits_read_back(n: nat)
    ensures
        digits(n).len() > 0,
        all_digits(digits(n)),
        decimal(digits(n)) == n,
    decreases n,
{
    if n < 10 {
        assert(digits(n).drop_last() =~= Seq::<char>::empty());
        assert(decimal(Seq::<char>::empty()) == 0);
    } else {
        law_digits_read_back(n / 10);
        assert(digits(n).drop_last() =~= digits(n / 10));
        let front = digits(n / 10);
        assert forall|k: int| 0 <= k < digits(n).len() implies is_digit(
            #[trigger] digits(n)[k],
        ) by {
            if k < front.len() {
                assert(is_digit(front[k]));
            }
        }
    }
}

/// Writing an integer and reading it back gives the integer.
pub proof fn law_int_text_reads_back(i: int)
    ensures
        signed_value(int_text(i)) == Some(i),
{
    if i < 0 {
        law_digits_read_back((-i) as nat);
        assert(int_text(i).drop_first() =~= digits((-i) as nat));
    } else {
        law_digits_read_back(i as nat);
        assert(is_digit(digits(i as nat)[0]));
    }
}

/// The number that a sequence of digits writes, if there is at least one digit, nothing
/// else, and the number is at most `max`.
pub fn parse_digits(s: &[char], max: u64) -> (r: Option<u64>)
    ensures
        r is Some <==> s@.len() > 0 && all_digits(s@) && decimal(s@) <= max,
        r matches Some(v) ==> v == decimal(s@),
{
    if s.len() == 0 {
        return None;
    }
    let mut v: u64 = 0;
    let mut i: usize = 0;
    while i < s.len()
        invariant
            i <= s@.len(),
            forall|k: int| 0 <= k < i ==> is_digit(#[trigger] s@[k]),
            v == decimal(s@.take(i as int)),
            v <= max,
        decreases s@.len() - i,
    {
        let c: char = s[i];
        if !('0' <= c && c <= '9') {
            assert(!is_digit(s@[i as int]));
            return None;
        }
        let d: u64 = (c as u8 - '0' as u8) as u64;
        let next: u128 = v as u128 * 10 + d as u128;
        assert(s@.take(i as int + 1).drop_last() =~= s@.take(i as int));
        assert(next == decimal(s@.take(i as int + 1)));
        if next > max as u128 {
            proof {
                if all_digits(s@) {
                    lemma_decimal_grows(s@, i as int + 1);
                }
            }
            return None;
        }
        v = next as u64;
        i += 1;
    }
    assert(s@.take(i as int) =~= s@);
    Some(v)
}

/// The number that a text writes without a sign or after a `+`, if it is at most `max`.
pub fn parse_unsigned(s: &[char], max: u64) -> (r: Option<u64>)
    ensures
        within(unsigned_value(s@), 0, max as int) == (match r {
            Some(v) => Some(v as int),
            None => None,
        }),
{
    let from: usize = if s.len() > 0 && s[0] == '+' {
        1
    } else {
        0
    };
    let body = vstd::slice::slice_subrange(s, from, s.len());
    assert(body@ =~= if from == 1 {
        s@.drop_first()
    } else {
        s@
    });
    proof {
        if all_digits(body@) {
            lemma_decimal_grows(body@, 0);
            lemma_decimal_grows(body@, body@.len() as int);
        }
    }
    parse_digits(body, max)
}

/// Reads a `u32`.
pub fn parse_u32(s: &[char]) -> (r: Option<u32>)
    ensures
        within(unsigned_value(s@), 0, u32::MAX as int) == (match r {
            Some(v) => Some(v as int),
            None => None,
        }),
{
    match parse_unsigned(s, u32::MAX as u64) {
        Some(v) => Some(v as u32),
        None => None,
    }
}

/// Reads a `usize`.
pub fn parse_usize(s: &[char]) -> (r: Option<usize>)
    ensures
        within(unsigned_value(s@), 0, usize::MAX as int) == (match r {
            Some(v) => Some(v as int),
            None => None,
        }),
{
    match parse_unsigned(s, usize::MAX as u64) {
        Some(v) => Some(v as usize),
        None => None,
    }
}

/// Reads an `i32`.
pub fn parse_i32(s: &[char]) -> (r: Option<i32>)
    ensures
        within(signed_value(s@), i32::MIN as int, i32::MAX as int) == (match r {
            Some(v) => Some(v as int),
            None => None,
        }),
{
    if s.len() > 0 && s[0] == '-' {
        let body = vstd::slice::slice_subrange(s, 1, s.len());
        assert(body@ =~= s@.drop_first());
        proof {
            if all_digits(body@) {
                lemma_decimal_grows(body@, 0);
                lemma_decimal_grows(body@, body@.len() as int);
            }
        }
        match parse_digits(body, 0x8000_0000) {
            Some(v) => Some((-(v as i64)) as i32),
            None => None,
        }
    } else {
        proof {
            let body = if s@.len() > 0 && s@[0] == '+' {
                s@.drop_first()
            } else {
                s@
            };
            if all_digits(body) {
                lemma_decimal_grows(body, body.len() as int);
            }
        }
        match parse_unsigned(s, 0x7fff_ffff) {
            Some(v) => Some(v as i32),
            None => None,
        }
    }
}

/// The digits of a number.
pub fn write_digits(n: u64) -> (r: Vec<char>)
    ensures
        r@ == digits(n as nat),
    decreases n,
{
    if n < 10 {
        let mut out: Vec<char> = Vec::new();
        out.push(('0' as u8 + n as u8) as char);
        assert(out@ =~= digits(n as nat));
        out
    } else {
        let mut out = write_digits(n / 10);
        out.push(('0' as u8 + (n % 10) as u8) as char);
        out
    }
}

/// The text of an integer.
pub fn write_int(i: i64) -> (r: Vec<char>)
    ensures
        r@ == int_text(i as int),
{
    if i < 0 {
        let mut out: Vec<char> = Vec::new();
        out.push('-');
        let n: u64 = (-(i as i128)) as u64;
        let d = write_digits(n);
        crate::text::push_text(&mut out, d.as_slice());
        assert(out@ =~= int_text(i as int));
        out
    } else {
        write_digits(i as u64)
    }
}

/// The distance between neighbouring doubles around `n`.
pub open spec fn double_unit(n: nat) -> nat
    decreases n,
{
    if n < 0x20_0000_0000_0000 {
        1
    } else {
        2 * double_unit(n / 2)
    }
}

/// The double nearest to `n`; of two that are equally near, the one with the even
/// significand.
pub open spec fn nearest_double(n: nat) -> nat {
    let unit = double_unit(n);
    let low = n / unit;
    let rest = n % unit;
    if 2 * rest > unit || (2 * rest == unit && low % 2 == 1) {
        (low + 1) * unit
    } else {
        low * unit
    }
}

/// The nearest `i64`.
pub open spec fn clamp_i64(i: int) -> int {
    if i > i64::MAX {
        i64::MAX as int
    } else if i < i64::MIN {
        i64::MIN as int
    } else {
        i
    }
}

/// An integer rounded to double precision and brought back to 64 bits.
pub open spec fn through_double(i: int) -> int {
    if i < 0 {
        clamp_i64(-(nearest_double((-i) as nat) as int))
    } else {
        clamp_i64(nearest_double(i as nat) as int)
    }
}

/// Integers of at most 53 bits are exact in double precision.
pub proof fn law_small_ints_are_exact(i: int)
    requires
        -0x20_0000_0000_0000 <= i <= 0x20_0000_0000_0000,
    ensures
        through_double(i) == i,
{
    let n: nat = if i < 0 {
        (-i) as nat
    } else {
        i as nat
    };
    reveal_with_fuel(double_unit, 2);
    let unit = double_unit(n);
    assert(unit == 1 || (n == 0x20_0000_0000_0000 && unit == 2));
    assert(n % unit == 0 && (n / unit) * unit == n) by (nonlinear_arith)
        requires
            unit == 1 || (n == 0x20_0000_0000_0000 && unit == 2),
    ;
}

/// A text without its leading sign.
pub open spec fn without_sign(s: Seq<char>) -> Seq<char> {
    if s.len() > 0 && (s[0] == '+' || s[0] == '-') {
        s.drop_first()
    } else {
        s
    }
}

/// The index of the first `e` or `E`, or the length if there is none.
pub open spec fn exponent_index(s: Seq<char>) -> int
    decreases s.len(),
{
    if s.len() == 0 || s[0] == 'e' || s[0] == 'E' {
        0
    } else {
        1 + exponent_index(s.drop_first())
    }
}

/// Digits with at most one `.` among them, at least one digit.
pub open spec fn is_mantissa(s: Seq<char>) -> bool {
    let cut = first_index(s, '.');
    if cut == s.len() {
        s.len() > 0 && all_digits(s)
    } else {
        s.len() > 1 && all_digits(s.take(cut)) && all_digits(s.skip(cut + 1))
    }
}

/// A mantissa, and after it maybe an `e` or `E` and a signed whole number.
pub open spec fn is_number_text(s: Seq<char>) -> bool {
    let cut = exponent_index(s);
    if cut == s.len() {
        is_mantissa(s)
    } else {
        let power = without_sign(s.skip(cut + 1));
        is_mantissa(s.take(cut)) && power.len() > 0 && all_digits(power)
    }
}

/// The texts that write a floating-point number: an optional sign, then a number, `inf`,
/// `infinity` or `nan`, the words in any case.
pub open spec fn is_float_text(s: Seq<char>) -> bool {
    let body = without_sign(s);
    let word = lower_text(body);
    ||| word == seq!['i', 'n', 'f']
    ||| word == seq!['i', 'n', 'f', 'i', 'n', 'i', 't', 'y']
    ||| word == seq!['n', 'a', 'n']
    ||| is_number_text(body)
}

/// Whether a number is written as an integer.
pub open spec fn is_int_text(s: Seq<char>) -> bool {
    forall|i: int|
        0 <= i < s.len() ==> {
            let c = #[trigger] s[i];
            c != '.' && c != 'e' && c != 'E' && c != 'n' && c != 'N'
        }
}

/// The number of characters between the `.` and the exponent.
pub open spec fn fraction_len(s: Seq<char>) -> int {
    let cut = first_index(s, '.');
    if cut == s.len() {
        0
    } else {
        exponent_index(s.skip(cut + 1))
    }
}

/// The value of an integer operand: what it writes, in double precision, as an `i64`.
pub open spec fn int_operand(s: Seq<char>) -> int {
    match signed_value(s) {
        Some(i) => through_double(i),
        None => 0,
    }
}

proof fn lemma_double_unit(n: nat)
    ensures
        double_unit(n) > 0,
        n < 0x20_0000_0000_0000 ==> double_unit(n) == 1,
        n >= 0x20_0000_0000_0000 ==> 0x10_0000_0000_0000 <= n / double_unit(n)
            < 0x20_0000_0000_0000,
        n / double_unit(n) < 0x20_0000_0000_0000,
    decreases n,
{
    if n >= 0x20_0000_0000_0000 {
        lemma_double_unit(n / 2);
        let u = double_unit(n / 2);
        vstd::arithmetic::div_mod::lemma_div_denominator(n as int, 2, u as int);
        if n / 2 < 0x20_0000_0000_0000 {
            assert(u == 1);
        }
    } else {
        assert(n / 1 == n);
    }
}

proof fn lemma_double_unit_grows(n: nat, k: nat)
    requires
        n >= 0x20_0000_0000_0000 * vstd::arithmetic::power2::pow2(k),
    ensures
        double_unit(n) >= 2 * vstd::arithmetic::power2::pow2(k),
    decreases k,
{
    vstd::arithmetic::power2::lemma_pow2_pos(k);
    vstd::arithmetic::power2::lemma2_to64();
    lemma_double_unit(n / 2);
    if k > 0 {
        vstd::arithmetic::power2::lemma_pow2_unfold(k);
        let p = vstd::arithmetic::power2::pow2((k - 1) as nat);
        assert(n / 2 >= 0x20_0000_0000_0000 * p);
        lemma_double_unit_grows(n / 2, (k - 1) as nat);
    }
}

/// What lies beyond 63 bits stays there when it is rounded.
proof fn lemma_nearest_double_large(n: nat)
    requires
        n >= 0x8000_0000_0000_0000,
    ensures
        nearest_double(n) >= 0x8000_0000_0000_0000,
{
    vstd::arithmetic::power2::lemma2_to64();
    assert(vstd::arithmetic::power2::pow2(10) == 1024);
    lemma_double_unit_grows(n, 10);
    lemma_double_unit(n);
    let unit = double_unit(n);
    let low = n / unit;
    assert(low * unit >= 0x10_0000_0000_0000 * 2048) by (nonlinear_arith)
        requires
            low >= 0x10_0000_0000_0000,
            unit >= 2048,
    ;
    assert((low + 1) * unit >= low * unit) by (nonlinear_arith)
        requires
            unit > 0,
    ;
}

/// What is at most 2 to the power 63 stays so when it is rounded.
proof fn lemma_nearest_double_small(n: nat)
    requires
        n <= 0x8000_0000_0000_0000,
    ensures
        nearest_double(n) <= 0x8000_0000_0000_0000,
{
    lemma_double_unit(n);
    let unit = double_unit(n);
    let low = n / unit;
    vstd::arithmetic::div_mod::lemma_fundamental_div_mod(n as int, unit as int);
    if n < 0x8000_0000_0000_0000 {
        lemma_double_unit_bound(n);
        assert((low + 1) * unit <= 0x20_0000_0000_0000 * 1024) by (nonlinear_arith)
            requires
                low + 1 <= 0x20_0000_0000_0000,
                unit <= 1024,
                unit >= 0,
                low >= 0,
        ;
        assert(low * unit <= (low + 1) * unit) by (nonlinear_arith)
            requires
                unit > 0,
        ;
    } else {
        lemma_nearest_double_limit();
    }
}

proof fn lemma_double_unit_bound(n: nat)
    requires
        n < 0x8000_0000_0000_0000,
    ensures
        double_unit(n) <= 1024,
{
    reveal_with_fuel(double_unit, 12);
}

proof fn lemma_nearest_double_limit()
    ensures
        nearest_double(0x8000_0000_0000_0000) == 0x8000_0000_0000_0000,
{
    reveal_with_fuel(double_unit, 13);
    assert(double_unit(0x8000_0000_0000_0000) == 2048);
}

/// Rounds a number to double precision.
fn round_to_double(n: u64) -> (r: u64)
    requires
        n <= 0x8000_0000_0000_0000,
    ensures
        r == nearest_double(n as nat),
        r <= 0x8000_0000_0000_0000,
{
    let mut low: u64 = n;
    let mut unit: u64 = 1;
    assert(n as nat / 1 == n);
    while low >= 0x20_0000_0000_0000
        invariant
            n <= 0x8000_0000_0000_0000,
            0 < unit,
            low == n as nat / unit as nat,
            double_unit(n as nat) == unit * double_unit(low as nat),
        decreases low,
    {
        assert(unit <= 0x400) by (nonlinear_arith)
            requires
                low as nat == n as nat / unit as nat,
                n <= 0x8000_0000_0000_0000,
                low >= 0x20_0000_0000_0000,
                unit > 0,
        ;
        proof {
            vstd::arithmetic::div_mod::lemma_div_denominator(n as int, unit as int, 2);
            vstd::arithmetic::mul::lemma_mul_is_associative(
                unit as int,
                2,
                double_unit(low as nat / 2) as int,
            );
        }
        unit = unit * 2;
        low = low / 2;
    }
    proof {
        lemma_nearest_double_small(n as nat);
        lemma_double_unit(low as nat);
        assert(double_unit(low as nat) == 1);
        assert(double_unit(n as nat) == unit);
        vstd::arithmetic::div_mod::lemma_fundamental_div_mod(n as int, unit as int);
        vstd::arithmetic::mul::lemma_mul_is_commutative(unit as int, low as int);
        assert(low * unit <= n);
    }
    let base: u64 = low * unit;
    let rest: u64 = n - base;
    let up: bool = rest > unit - rest || (rest == unit - rest && low % 2 == 1);
    if up {
        assert((low + 1) * unit == base + unit) by (nonlinear_arith)
            requires
                base == low * unit,
        ;
        base + unit
    } else {
        base
    }
}

/// Rounds an integer to double precision and back to 64 bits.
pub fn round_through_double(i: i64) -> (r: i64)
    ensures
        r == through_double(i as int),
{
    if i < 0 {
        let m: u64 = (-(i as i128)) as u64;
        let v: u64 = round_to_double(m);
        (-(v as i128)) as i64
    } else {
        let v: u64 = round_to_double(i as u64);
        if v > 0x7fff_ffff_ffff_ffff {
            i64::MAX
        } else {
            v as i64
        }
    }
}

/// The value of an operand that is written as an integer.
pub fn read_int_operand(s: &[char]) -> (r: i64)
    requires
        signed_value(s@) is Some,
    ensures
        r == int_operand(s@),
{
    let negative: bool = s.len() > 0 && s[0] == '-';
    let from: usize = if s.len() > 0 && (s[0] == '-' || s[0] == '+') {
        1
    } else {
        0
    };
    let body = vstd::slice::slice_subrange(s, from, s.len());
    assert(body@ =~= if from == 1 {
        s@.drop_first()
    } else {
        s@
    });
    proof {
        lemma_decimal_grows(body@, 0);
        lemma_decimal_grows(body@, body@.len() as int);
    }
    match parse_digits(body, 0x8000_0000_0000_0000) {
        Some(n) => {
            let v: u64 = round_to_double(n);
            if negative {
                proof {
                    if n == 0 {
                        assert(nearest_double(0) == 0);
                    }
                }
                (-(v as i128)) as i64
            } else if v > 0x7fff_ffff_ffff_ffff {
                i64::MAX
            } else {
                v as i64
            }
        },
        None => {
            proof {
                lemma_nearest_double_large(decimal(body@) as nat);
            }
            if negative {
                i64::MIN
            } else {
                i64::MAX
            }
        },
    }
}

/// The index of the first `e` or `E`, or the length if there is none.
fn find_exponent(s: &[char]) -> (r: usize)
    ensures
        r == exponent_index(s@),
        r <= s@.len(),
{
    let mut i: usize = 0;
    assert(s@.skip(0) =~= s@);
    while i < s.len()
        invariant
            i <= s@.len(),
            exponent_index(s@) == i + exponent_index(s@.skip(i as int)),
        decreases s@.len() - i,
    {
        if s[i] == 'e' || s[i] == 'E' {
            return i;
        }
        assert(s@.skip(i as int).drop_first() =~= s@.skip(i as int + 1));
        i += 1;
    }
    i
}

/// Whether every character is a digit.
pub fn has_only_digits(s: &[char]) -> (r: bool)
    ensures
        r == all_digits(s@),
{
    let mut i: usize = 0;
    while i < s.len()
        invariant
            i <= s@.len(),
            forall|k: int| 0 <= k < i ==> is_digit(#[trigger] s@[k]),
        decreases s@.len() - i,
    {
        if !('0' <= s[i] && s[i] <= '9') {
            assert(!is_digit(s@[i as int]));
            return false;
        }
        i += 1;
    }
    true
}

/// A text without its leading sign.
fn skip_sign(s: &[char]) -> (r: &[char])
    ensures
        r@ == without_sign(s@),
{
    if s.len() > 0 && (s[0] == '+' || s[0] == '-') {
        assert(s@.subrange(1, s@.len() as int) =~= s@.drop_first());
        vstd::slice::slice_subrange(s, 1, s.len())
    } else {
        s
    }
}

fn mantissa_ok(s: &[char]) -> (r: bool)
    ensures
        r == is_mantissa(s@),
{
    let cut: usize = find_first(s, '.');
    if cut == s.len() {
        return s.len() > 0 && has_only_digits(s);
    }
    assert(s@.subrange(0, cut as int) =~= s@.take(cut as int));
    assert(s@.subrange(cut as int + 1, s@.len() as int) =~= s@.skip(cut as int + 1));
    s.len() > 1 && has_only_digits(vstd::slice::slice_subrange(s, 0, cut)) && has_only_digits(
        vstd::slice::slice_subrange(s, cut + 1, s.len()),
    )
}

fn number_ok(s: &[char]) -> (r: bool)
    ensures
        r == is_number_text(s@),
{
    let cut: usize = find_exponent(s);
    if cut == s.len() {
        return mantissa_ok(s);
    }
    assert(s@.subrange(0, cut as int) =~= s@.take(cut as int));
    assert(s@.subrange(cut as int + 1, s@.len() as int) =~= s@.skip(cut as int + 1));
    let power = skip_sign(vstd::slice::slice_subrange(s, cut + 1, s.len()));
    mantissa_ok(vstd::slice::slice_subrange(s, 0, cut)) && power.len() > 0 && has_only_digits(power)
}

/// Whether a text writes a floating-point number.
pub fn float_text_ok(s: &[char]) -> (r: bool)
    ensures
        r == is_float_text(s@),
{
    let body = skip_sign(s);
    let word = to_lower_text(body);
    let inf: &[char] = &['i', 'n', 'f'];
    let infinity: &[char] = &['i', 'n', 'f', 'i', 'n', 'i', 't', 'y'];
    let nan: &[char] = &['n', 'a', 'n'];
    assert(inf@ =~= seq!['i', 'n', 'f']);
    assert(infinity@ =~= seq!['i', 'n', 'f', 'i', 'n', 'i', 't', 'y']);
    assert(nan@ =~= seq!['n', 'a', 'n']);
    same_text(word.as_slice(), inf) || same_text(word.as_slice(), infinity) || same_text(
        word.as_slice(),
        nan,
    ) || number_ok(body)
}

/// Whether a number is written as an integer.
pub fn written_as_int(s: &[char]) -> (r: bool)
    ensures
        r == is_int_text(s@),
{
    let mut i: usize = 0;
    while i < s.len()
        invariant
            i <= s@.len(),
            forall|k: int|
                0 <= k < i ==> {
                    let c = #[trigger] s@[k];
                    c != '.' && c != 'e' && c != 'E' && c != 'n' && c != 'N'
                },
        decreases s@.len() - i,
    {
        let c: char = s[i];
        if c == '.' || c == 'e' || c == 'E' || c == 'n' || c == 'N' {
            return false;
        }
        i += 1;
    }
    true
}

/// The number of characters between the `.` and the exponent.
pub fn count_fraction(s: &[char]) -> (r: usize)
    ensures
        r == fraction_len(s@),
{
    let cut: usize = find_first(s, '.');
    if cut == s.len() {
        return 0;
    }
    assert(s@.subrange(cut as int + 1, s@.len() as int) =~= s@.skip(cut as int + 1));
    find_exponent(vstd::slice::slice_subrange(s, cut + 1, s.len()))
}

pub proof fn lemma_first_index(s: Seq<char>, c: char)
    ensures
        0 <= first_index(s, c) <= s.len(),
        first_index(s, c) < s.len() ==> s[first_index(s, c)] == c,
    decreases s.len(),
{
    if s.len() > 0 && s[0] != c {
        lemma_first_index(s.drop_first(), c);
    }
}

pub proof fn lemma_exponent_index(s: Seq<char>)
    ensures
        0 <= exponent_index(s) <= s.len(),
        exponent_index(s) < s.len() ==> s[exponent_index(s)] == 'e' || s[exponent_index(s)] == 'E',
    decreases s.len(),
{
    if s.len() > 0 && s[0] != 'e' && s[0] != 'E' {
        lemma_exponent_index(s.drop_first());
    }
}

/// A floating-point text that is written as an integer is a signed whole number.
pub proof fn lemma_int_text_has_value(s: Seq<char>)
    requires
        is_float_text(s),
        is_int_text(s),
    ensures
        signed_value(s) is Some,
{
    let body = without_sign(s);
    let word = lower_text(body);
    let shift: int = s.len() - body.len();
    assert forall|i: int| 0 <= i < body.len() implies {
        let c = #[trigger] body[i];
        c != '.' && c != 'e' && c != 'E' && c != 'n' && c != 'N'
    } by {
        assert(body[i] == s[i + shift]);
    }
    assert(word.len() == body.len());
    if word == seq!['i', 'n', 'f'] {
        assert(word[1] == 'n' && word.len() == 3);
        assert(word[1] == ascii_lower(body[1]));
    }
    if word == seq!['i', 'n', 'f', 'i', 'n', 'i', 't', 'y'] {
        assert(word[1] == 'n' && word.len() == 8);
        assert(word[1] == ascii_lower(body[1]));
    }
    if word == seq!['n', 'a', 'n'] {
        assert(word[0] == 'n' && word.len() == 3);
        assert(word[0] == ascii_lower(body[0]));
    }
    lemma_exponent_index(body);
    lemma_first_index(body, '.');
    assert(all_digits(body));
}

/// A sign in front of digits: `+` changes nothing, and `-` negates where a sign is allowed.
pub proof fn law_signs(d: Seq<char>)
    requires
        d.len() > 0,
        all_digits(d),
    ensures
        signed_value(d) == Some(decimal(d)),
        unsigned_value(d) == Some(decimal(d)),
        signed_value(seq!['+'] + d) == Some(decimal(d)),
        unsigned_value(seq!['+'] + d) == Some(decimal(d)),
        signed_value(seq!['-'] + d) == Some(-decimal(d)),
        unsigned_value(seq!['-'] + d) is None,
{
    assert(is_digit(d[0]));
    assert((seq!['+'] + d).drop_first() =~= d);
    assert((seq!['-'] + d).drop_first() =~= d);
    assert((seq!['-'] + d)[0] == '-');
}

/// What rounding to double precision gives is a whole number of units in the last place, and
/// within half a unit of the number.
pub proof fn law_rounding_is_close(n: nat)
    ensures
        nearest_double(n) - n <= double_unit(n) / 2,
        n - nearest_double(n) <= double_unit(n) / 2,
        nearest_double(n) % double_unit(n) == 0,
{
    lemma_double_unit(n);
    let unit = double_unit(n) as int;
    let low = n as int / unit;
    let rest = n as int % unit;
    vstd::arithmetic::div_mod::lemma_fundamental_div_mod(n as int, unit);
    assert((low + 1) * unit == unit * low + unit) by (nonlinear_arith);
    assert(low * unit == unit * low) by (nonlinear_arith);
    vstd::arithmetic::div_mod::lemma_mod_multiples_basic(low, unit);
    vstd::arithmetic::div_mod::lemma_mod_multiples_basic(low + 1, unit);
}

/// A number halfway between two that double precision can hold goes to the one whose last place
/// is even.
pub proof fn law_ties_go_to_even(n: nat)
    requires
        2 * (n % double_unit(n)) == double_unit(n),
    ensures
        (nearest_double(n) / double_unit(n)) % 2 == 0,
{
    lemma_double_unit(n);
    let unit = double_unit(n) as int;
    let low = n as int / unit;
    vstd::arithmetic::div_mod::lemma_div_multiples_vanish(low, unit);
    vstd::arithmetic::div_mod::lemma_div_multiples_vanish(low + 1, unit);
    assert(unit * low == low * unit) by (nonlinear_arith);
    assert(unit * (low + 1) == (low + 1) * unit) by (nonlinear_arith);
}

/// Double precision has 53 places: a number below 2 to the power 53 is a whole number of ones,
/// and a larger one is cut to 53 places.
pub proof fn law_places(n: nat)
    ensures
        n < 0x20_0000_0000_0000 ==> double_unit(n) == 1,
        n >= 0x20_0000_0000_0000 ==> 0x10_0000_0000_0000 <= n / double_unit(n)
            < 0x20_0000_0000_0000,
{
    lemma_double_unit(n);
}

/// What lies beyond 64 bits is cut to the nearest that can be held.
pub proof fn law_clamped(i: int)
    ensures
        i64::MIN <= clamp_i64(i) <= i64::MAX,
        i64::MIN <= i <= i64::MAX ==> clamp_i64(i) == i,
        i > i64::MAX ==> clamp_i64(i) == i64::MAX,
        i < i64::MIN ==> clamp_i64(i) == i64::MIN,
        through_double(i) >= 0 <==> i >= 0,
{
    if i < 0 {
        lemma_nearest_double_positive((-i) as nat);
    }
}

proof fn lemma_nearest_double_positive(n: nat)
    requires
        n > 0,
    ensures
        nearest_double(n) > 0,
{
    lemma_double_unit(n);
    let unit = double_unit(n) as int;
    let low = n as int / unit;
    assert(low >= 1) by {
        if n < 0x20_0000_0000_0000 {
            assert(n as int / 1 == n);
        }
    }
    assert(low * unit > 0) by (nonlinear_arith)
        requires
            low >= 1,
            unit > 0,
    ;
    assert((low + 1) * unit > 0) by (nonlinear_arith)
        requires
            low >= 1,
            unit > 0,
    ;
}

proof fn lemma_mantissa(a: Seq<char>, b: Seq<char>)
    requires
        all_digits(a),
        all_digits(b),
        a.len() + b.len() > 0,
    ensures
        is_mantissa(a + seq!['.'] + b),
        a.len() > 0 ==> is_mantissa(a),
{
    let s = a + seq!['.'] + b;
    assert(!a.contains('.')) by {
        if a.contains('.') {
            let k = choose|k: int| 0 <= k < a.len() && a[k] == '.';
            assert(is_digit(a[k]));
        }
    }
    law_indices(a, '.', b);
    assert(s.take(a.len() as int) =~= a);
    assert(s.skip(a.len() as int + 1) =~= b);
}

proof fn lemma_exponent_at(a: Seq<char>, power: Seq<char>)
    requires
        forall|i: int| 0 <= i < a.len() ==> is_digit(#[trigger] a[i]) || a[i] == '.',
        power.len() > 0 ==> power[0] == 'e' || power[0] == 'E',
    ensures
        exponent_index(a + power) == a.len(),
    decreases a.len(),
{
    let s = a + power;
    if a.len() > 0 {
        let later = a.drop_first();
        assert(is_digit(a[0]) || a[0] == '.');
        assert(s[0] == a[0]);
        assert forall|i: int| 0 <= i < later.len() implies is_digit(#[trigger] later[i])
            || later[i] == '.' by {
            assert(later[i] == a[i + 1]);
        }
        lemma_exponent_at(later, power);
        assert(s.drop_first() =~= later + power);
    } else {
        assert(s =~= power);
    }
}

/// A number is written with an optional sign, digits, a point with digits before it or behind
/// it, and an optional power of ten with a sign of its own.
pub proof fn law_float_texts(
    sign: Seq<char>,
    a: Seq<char>,
    b: Seq<char>,
    mark: char,
    power_sign: Seq<char>,
    power: Seq<char>,
)
    requires
        sign.len() == 0 || sign == seq!['+'] || sign == seq!['-'],
        power_sign.len() == 0 || power_sign == seq!['+'] || power_sign == seq!['-'],
        mark == 'e' || mark == 'E',
        all_digits(a),
        all_digits(b),
        all_digits(power),
        a.len() + b.len() > 0,
        power.len() > 0,
    ensures
        is_float_text(sign + (a + seq!['.'] + b)),
        is_float_text(sign + (a + seq!['.'] + b + (seq![mark] + power_sign + power))),
        a.len() > 0 ==> is_float_text(sign + a),
        a.len() > 0 ==> is_float_text(sign + (a + (seq![mark] + power_sign + power))),
{
    let none = Seq::<char>::empty();
    let tail = seq![mark] + power_sign + power;
    let m = a + seq!['.'] + b;
    lemma_mantissa(a, b);
    assert forall|i: int| 0 <= i < m.len() implies is_digit(#[trigger] m[i]) || m[i] == '.' by {
        if i < a.len() {
            assert(is_digit(a[i]));
            assert(m[i] == a[i]);
        } else if i > a.len() {
            assert(is_digit(b[i - a.len() - 1]));
            assert(m[i] == b[i - a.len() - 1]);
        }
    }
    assert(tail[0] == mark);
    assert(tail.skip(1) =~= power_sign + power);
    assert(is_digit(power[0]));
    assert(without_sign(power_sign + power) =~= power);
    lemma_number_of_parts(m, none, power);
    lemma_number_of_parts(m, tail, power);
    assert(m + none =~= m);
    lemma_signed_number(sign, m);
    lemma_signed_number(sign, m + tail);
    if a.len() > 0 {
        assert forall|i: int| 0 <= i < a.len() implies is_digit(#[trigger] a[i]) || a[i]
            == '.' by {
            assert(is_digit(a[i]));
        }
        lemma_number_of_parts(a, none, power);
        lemma_number_of_parts(a, tail, power);
        assert(a + none =~= a);
        lemma_signed_number(sign, a);
        lemma_signed_number(sign, a + tail);
    }
}

proof fn lemma_number_of_parts(m: Seq<char>, tail: Seq<char>, power: Seq<char>)
    requires
        is_mantissa(m),
        forall|i: int| 0 <= i < m.len() ==> is_digit(#[trigger] m[i]) || m[i] == '.',
        tail.len() > 0 ==> (tail[0] == 'e' || tail[0] == 'E') && without_sign(tail.skip(1))
            == power,
        power.len() > 0,
        all_digits(power),
    ensures
        is_number_text(m + tail),
        (m + tail).len() > 0,
        is_digit((m + tail)[0]) || (m + tail)[0] == '.',
{
    let s = m + tail;
    lemma_exponent_at(m, tail);
    assert(m.len() > 0);
    assert(is_digit(m[0]) || m[0] == '.');
    assert(s[0] == m[0]);
    assert(s.take(m.len() as int) =~= m);
    if tail.len() > 0 {
        assert(s.skip(m.len() as int + 1) =~= tail.skip(1));
    } else {
        assert(s =~= m);
    }
}

proof fn lemma_signed_number(sign: Seq<char>, body: Seq<char>)
    requires
        sign.len() == 0 || sign == seq!['+'] || sign == seq!['-'],
        is_number_text(body),
        body.len() > 0,
        is_digit(body[0]) || body[0] == '.',
    ensures
        is_float_text(sign + body),
{
    let s = sign + body;
    if sign.len() == 0 {
        assert(s =~= body);
    } else {
        assert(s.drop_first() =~= body);
        assert(s[0] == sign[0]);
    }
}

/// A text that writes an integer also writes a number, and one without a fraction.
pub proof fn law_integers_are_numbers(s: Seq<char>, i: int)
    requires
        signed_value(s) == Some(i),
    ensures
        is_float_text(s),
        is_int_text(s),
        fraction_len(s) == 0,
        int_operand(s) == through_double(i),
{
    let body = without_sign(s);
    let none = Seq::<char>::empty();
    assert(body.len() > 0 && all_digits(body));
    assert(is_digit(body[0]));
    let sign = if body.len() < s.len() {
        seq![s[0]]
    } else {
        none
    };
    assert(sign + body =~= s);
    let one = seq!['1'];
    assert(is_digit(one[0]));
    law_float_texts(sign, body, none, 'e', none, one);
    assert forall|k: int| 0 <= k < s.len() implies {
        let c = #[trigger] s[k];
        c != '.' && c != 'e' && c != 'E' && c != 'n' && c != 'N'
    } by {
        if body.len() == s.len() {
            assert(is_digit(body[k]));
        } else if k > 0 {
            assert(is_digit(body[k - 1]));
            assert(s[k] == body[k - 1]);
        }
    }
    lemma_first_index(s, '.');
}

} // verus!
