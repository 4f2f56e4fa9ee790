//! Decimal notation for binary fractions.
//!
//! A number `mantissa / 2^frac_bits` always has a finite decimal expansion;
//! this module writes it out exactly, in the shortest form: no leading
//! zeros, no trailing zeros, and no decimal point for a whole number.

use vstd::prelude::*;
use vstd::arithmetic::power2::{
    pow2,
    lemma2_to64,
    lemma_pow2_adds,
    lemma_pow2_pos,
    lemma_pow2_unfold,
};
use vstd::arithmetic::div_mod::{
    lemma_div_multiples_vanish_quotient,
    lemma_fundamental_div_mod,
    lemma_mod_bound,
    lemma_multiply_divide_lt,
    lemma_truncate_middle,
};
use vstd::arithmetic::mul::lemma_mul_equality_converse;
use vstd::arithmetic::power::pow;
use crate::geometry::{units_per_one, MAX_FRAC_BITS};

verus! {

/// `String::push` appends the given character to the end of the string.
pub assume_specification[ String::push ](text: &mut String, c: char)
    ensures
        final(text)@ == old(text)@.push(c),
;

/// The character for a decimal digit.
pub open spec fn digit_char(digit: int) -> char {
    ((48 + digit) as u8) as char
}

/// The decimal digits of a natural number, without leading zeros.
pub open spec fn nat_text(n: nat) -> Seq<char>
    decreases n,
{
    if n < 10 {
        seq![digit_char(n as int)]
    } else {
        nat_text(n / 10).push(digit_char((n % 10) as int))
    }
}

/// The decimal digits after the point of `numerator / 2^bits`, for a
/// numerator below `2^bits`, without trailing zeros.
///
/// Ten times the fraction is `5 * numerator / 2^(bits - 1)`: its whole part
/// is the next digit, and what is left has one bit fewer.
pub open spec fn fraction_text(numerator: nat, bits: nat) -> Seq<char>
    decreases bits,
{
    if numerator == 0 || bits == 0 {
        Seq::empty()
    } else {
        let unit = pow2((bits - 1) as nat);
        seq![digit_char((5 * numerator / unit) as int)] + fraction_text(
            5 * numerator % unit,
            (bits - 1) as nat,
        )
    }
}

/// The exact decimal notation of `mantissa / 2^frac_bits`: a minus sign for
/// a negative number, the whole part, and, unless the number is whole, a
/// point and the fractional digits.
pub open spec fn decimal_text(mantissa: int, frac_bits: nat) -> Seq<char> {
    let magnitude = if mantissa < 0 { -mantissa } else { mantissa };
    let unit = pow2(frac_bits) as int;
    let sign = if mantissa < 0 { seq!['-'] } else { Seq::empty() };
    let whole = nat_text((magnitude / unit) as nat);
    let fraction = if magnitude % unit == 0 {
        Seq::empty()
    } else {
        seq!['.'] + fraction_text((magnitude % unit) as nat, frac_bits)
    };
    sign + whole + fraction
}

/// The character for the decimal digit `value`.
fn digit(value: u8) -> (c: char)
    requires
        value < 10,
    ensures
        c == digit_char(value as int),
{
    (48u8 + value) as char
}

/// Appends the decimal digits of `n` to `text`.
pub fn push_nat(text: &mut String, n: u64)
    ensures
        final(text)@ == old(text)@ + nat_text(n as nat),
    decreases n,
{
    if n >= 10 {
        push_nat(text, n / 10);
    }
    text.push(digit((n % 10) as u8));
    proof {
        assert(final(text)@ =~= old(text)@ + nat_text(n as nat));
    }
}

/// Appends to `text` the decimal digits after the point of
/// `numerator / 2^bits`.
fn push_fraction(text: &mut String, numerator: u64, bits: u32)
    requires
        bits <= MAX_FRAC_BITS,
        numerator < pow2(bits as nat),
    ensures
        final(text)@ == old(text)@ + fraction_text(numerator as nat, bits as nat),
{
    let mut rest: u128 = numerator as u128;
    let mut left: u32 = bits;
    let mut unit: u128 = units_per_one(bits) as u128;
    while rest != 0
        invariant
            left <= MAX_FRAC_BITS,
            unit == pow2(left as nat),
            rest < unit,
            unit <= u64::MAX,
            text@ + fraction_text(rest as nat, left as nat) == old(text)@ + fraction_text(
                numerator as nat,
                bits as nat,
            ),
        decreases left,
    {
        proof {
            lemma2_to64();
            lemma_pow2_unfold(left as nat);
            lemma_pow2_pos((left - 1) as nat);
        }
        let ghost before: Seq<char> = text@;
        let ghost numerator_before: nat = rest as nat;
        left = left - 1;
        unit = unit / 2;
        let scaled: u128 = 5 * rest;
        proof {
            lemma_multiply_divide_lt(scaled as int, unit as int, 10);
            lemma_mod_bound(scaled as int, unit as int);
        }
        text.push(digit((scaled / unit) as u8));
        rest = scaled % unit;
        proof {
            assert(fraction_text(numerator_before, (left + 1) as nat) == seq![
                digit_char((scaled / unit) as int),
            ] + fraction_text(rest as nat, left as nat));
            assert(text@ + fraction_text(rest as nat, left as nat) =~= before + fraction_text(
                numerator_before,
                (left + 1) as nat,
            ));
        }
    }
    proof {
        assert(text@ =~= text@ + fraction_text(0, left as nat));
    }
}

/// The exact decimal notation of `mantissa / 2^frac_bits`.
pub fn decimal_string(mantissa: i64, frac_bits: u32) -> (text: String)
    requires
        frac_bits <= MAX_FRAC_BITS,
    ensures
        text@ == decimal_text(mantissa as int, frac_bits as nat),
{
    let wide: i128 = mantissa as i128;
    let magnitude: u128 = if wide < 0 { (-wide) as u128 } else { wide as u128 };
    let unit: u128 = units_per_one(frac_bits) as u128;
    let whole: u128 = magnitude / unit;
    let part: u128 = magnitude % unit;
    proof {
        lemma_mod_bound(magnitude as int, unit as int);
    }
    let mut text: String = String::new();
    if mantissa < 0 {
        text.push('-');
    }
    push_nat(&mut text, whole as u64);
    if part != 0 {
        text.push('.');
        push_fraction(&mut text, part as u64, frac_bits);
    }
    proof {
        assert(text@ =~= decimal_text(mantissa as int, frac_bits as nat));
    }
    text
}

/// Whether `c` is one of the ten decimal digits.
pub open spec fn is_digit(c: char) -> bool {
    48 <= c as int <= 57
}

/// The value of a decimal digit.
pub open spec fn digit_value(c: char) -> nat {
    (c as int - 48) as nat
}

/// The natural number that a sequence of decimal digits writes.
pub open spec fn digits_value(digits: Seq<char>) -> nat
    decreases digits.len(),
{
    if digits.len() == 0 {
        0
    } else {
        digits_value(digits.drop_last()) * 10 + digit_value(digits.last())
    }
}

/// What a reader of decimal notation has seen of a text.
pub struct Reading {
    /// A minus sign was seen.
    pub negative: bool,
    /// The digits seen so far, read as one natural number.
    pub digits: nat,
    /// A decimal point was seen.
    pub pointed: bool,
    /// The number of digits seen after the point.
    pub places: nat,
}

/// Reads decimal notation from left to right. The number read is
/// `digits / 10^places`, negated where `negative` is set.
pub open spec fn read_decimal(text: Seq<char>) -> Reading
    decreases text.len(),
{
    if text.len() == 0 {
        Reading { negative: false, digits: 0, pointed: false, places: 0 }
    } else {
        let before = read_decimal(text.drop_last());
        let c = text.last();
        if is_digit(c) {
            Reading {
                digits: before.digits * 10 + digit_value(c),
                places: if before.pointed { before.places + 1 } else { before.places },
                ..before
            }
        } else if c == '.' {
            Reading { pointed: true, ..before }
        } else if c == '-' {
            Reading { negative: true, ..before }
        } else {
            before
        }
    }
}

/// Reading on through a run of digits shifts what was read by their number
/// and adds their value.
proof fn lemma_read_digits(prefix: Seq<char>, digits: Seq<char>)
    requires
        forall|i: int| 0 <= i < digits.len() ==> is_digit(#[trigger] digits[i]),
    ensures
        read_decimal(prefix + digits).negative == read_decimal(prefix).negative,
        read_decimal(prefix + digits).pointed == read_decimal(prefix).pointed,
        read_decimal(prefix + digits).places == read_decimal(prefix).places + (if read_decimal(
            prefix,
        ).pointed {
            digits.len()
        } else {
            0
        }),
        read_decimal(prefix + digits).digits == read_decimal(prefix).digits * pow(
            10,
            digits.len(),
        ) + digits_value(digits),
    decreases digits.len(),
{
    reveal(pow);
    let before = read_decimal(prefix);
    if digits.len() == 0 {
        assert(prefix + digits =~= prefix);
        assert(pow(10, 0) == 1);
        assert(before.digits * 1 == before.digits) by (nonlinear_arith);
    } else {
        let shorter = digits.drop_last();
        lemma_read_digits(prefix, shorter);
        assert((prefix + digits).drop_last() =~= prefix + shorter);
        assert((prefix + digits).last() == digits.last());
        let shift = pow(10, shorter.len());
        assert(pow(10, digits.len()) == 10 * shift);
        assert((before.digits * shift + digits_value(shorter)) * 10 + digit_value(digits.last())
            == before.digits * (10 * shift) + digits_value(digits)) by (nonlinear_arith)
            requires
                digits_value(digits) == digits_value(shorter) * 10 + digit_value(digits.last()),
        ;
    }
}

/// A run of digits alone reads as its value.
proof fn lemma_read_plain_digits(digits: Seq<char>)
    requires
        forall|i: int| 0 <= i < digits.len() ==> is_digit(#[trigger] digits[i]),
    ensures
        read_decimal(digits) == (Reading {
            negative: false,
            digits: digits_value(digits),
            pointed: false,
            places: 0,
        }),
    decreases digits.len(),
{
    if digits.len() > 0 {
        lemma_read_plain_digits(digits.drop_last());
    }
}

/// The digits of a natural number are digits, and write that number.
pub proof fn lemma_nat_text_value(n: nat)
    ensures
        nat_text(n).len() >= 1,
        forall|i: int| 0 <= i < nat_text(n).len() ==> is_digit(#[trigger] nat_text(n)[i]),
        digits_value(nat_text(n)) == n,
    decreases n,
{
    if n < 10 {
        assert(nat_text(n).drop_last() =~= Seq::<char>::empty());
        reveal_with_fuel(digits_value, 2);
    } else {
        lemma_nat_text_value(n / 10);
        assert(nat_text(n).drop_last() =~= nat_text(n / 10));
    }
}

/// The digits after the point are digits, there are no more of them than
/// fractional bits, and they write the fraction exactly:
/// `digits / 10^len == numerator / 2^bits`.
pub proof fn lemma_fraction_text_value(numerator: nat, bits: nat)
    requires
        numerator < pow2(bits),
    ensures
        fraction_text(numerator, bits).len() <= bits,
        forall|i: int|
            0 <= i < fraction_text(numerator, bits).len() ==> is_digit(
                #[trigger] fraction_text(numerator, bits)[i],
            ),
        digits_value(fraction_text(numerator, bits)) * pow2(bits) == numerator * pow(
            10,
            fraction_text(numerator, bits).len(),
        ),
    decreases bits,
{
    reveal(pow);
    let text = fraction_text(numerator, bits);
    if numerator == 0 || bits == 0 {
        lemma2_to64();
        assert(text.len() == 0);
        assert(numerator == 0);
        assert(pow(10, 0) == 1);
        assert(digits_value(text) == 0);
        assert(0 * pow2(bits) == 0 * pow(10, 0)) by (nonlinear_arith);
    } else {
        let below = (bits - 1) as nat;
        let unit = pow2(below) as int;
        lemma_pow2_unfold(bits);
        lemma_pow2_pos(below);
        let scaled = 5 * numerator as int;
        let first = scaled / unit;
        let rest = (scaled % unit) as nat;
        lemma_multiply_divide_lt(scaled, unit, 10);
        lemma_mod_bound(scaled, unit);
        lemma_fundamental_div_mod(scaled, unit);
        assert(0 <= first) by (nonlinear_arith)
            requires
                first == scaled / unit,
                scaled >= 0,
                unit > 0,
        ;
        let tail = fraction_text(rest, below);
        lemma_fraction_text_value(rest, below);
        let head = seq![digit_char(first)];
        assert(text == head + tail);
        assert(is_digit(digit_char(first)));
        assert(digit_value(digit_char(first)) == first);
        assert forall|i: int| 0 <= i < text.len() implies is_digit(#[trigger] text[i]) by {
            if i > 0 {
                assert(text[i] == tail[i - 1]);
            }
        }
        lemma_read_plain_digits(head);
        assert(head.drop_last() =~= Seq::<char>::empty());
        assert(digits_value(head) == first) by {
            reveal_with_fuel(digits_value, 2);
        }
        lemma_read_digits(head, tail);
        lemma_read_plain_digits(text);
        let shift = pow(10, tail.len());
        assert(pow(10, text.len()) == 10 * shift);
        assert(read_decimal(head).digits == first);
        assert(read_decimal(text).digits == read_decimal(head).digits * shift + digits_value(
            tail,
        ));
        assert(digits_value(text) == first * shift + digits_value(tail));
        assert(pow2(bits) == 2 * unit);
        assert((first * shift + digits_value(tail)) * (2 * unit) == numerator * (10 * shift))
            by (nonlinear_arith)
            requires
                digits_value(tail) * unit == rest * shift,
                5 * numerator == unit * first + rest,
        ;
    }
}

/// Decimal notation is exact: reading `decimal_text(mantissa, frac_bits)`
/// back gives the sign of `mantissa`, and digits and places with
/// `digits / 10^places == |mantissa| / 2^frac_bits`.
pub proof fn lemma_decimal_text_reads_back(mantissa: int, frac_bits: nat)
    ensures
        read_decimal(decimal_text(mantissa, frac_bits)).negative == (mantissa < 0),
        read_decimal(decimal_text(mantissa, frac_bits)).places <= frac_bits,
        read_decimal(decimal_text(mantissa, frac_bits)).digits * pow2(frac_bits) == (if mantissa
            < 0 {
            -mantissa
        } else {
            mantissa
        }) * pow(10, read_decimal(decimal_text(mantissa, frac_bits)).places),
{
    reveal(pow);
    let magnitude = if mantissa < 0 { -mantissa } else { mantissa };
    let unit = pow2(frac_bits) as int;
    lemma_pow2_pos(frac_bits);
    let sign = if mantissa < 0 { seq!['-'] } else { Seq::<char>::empty() };
    let whole_value = magnitude / unit;
    let part = magnitude % unit;
    lemma_fundamental_div_mod(magnitude, unit);
    lemma_mod_bound(magnitude, unit);
    assert(0 <= whole_value) by (nonlinear_arith)
        requires
            whole_value == magnitude / unit,
            magnitude >= 0,
            unit > 0,
    ;
    let whole = nat_text(whole_value as nat);
    lemma_nat_text_value(whole_value as nat);
    if mantissa < 0 {
        assert(sign.drop_last() =~= Seq::<char>::empty());
    }
    reveal_with_fuel(read_decimal, 2);
    assert(read_decimal(sign) == Reading {
        negative: mantissa < 0,
        digits: 0,
        pointed: false,
        places: 0,
    });
    lemma_read_digits(sign, whole);
    assert(pow(10, 0) == 1);
    assert(0 * pow(10, whole.len()) == 0) by (nonlinear_arith);
    let text = decimal_text(mantissa, frac_bits);
    if part == 0 {
        assert(text =~= sign + whole);
        assert(whole_value * unit == magnitude * 1) by (nonlinear_arith)
            requires
                magnitude == unit * whole_value,
        ;
    } else {
        let fraction = fraction_text(part as nat, frac_bits);
        lemma_fraction_text_value(part as nat, frac_bits);
        let pointed = (sign + whole).push('.');
        assert(pointed.drop_last() =~= sign + whole);
        assert(read_decimal(pointed) == Reading {
            negative: mantissa < 0,
            digits: whole_value as nat,
            pointed: true,
            places: 0,
        });
        assert(text =~= pointed + fraction);
        lemma_read_digits(pointed, fraction);
        let shift = pow(10, fraction.len());
        assert((whole_value * shift + digits_value(fraction)) * unit == magnitude * shift)
            by (nonlinear_arith)
            requires
                digits_value(fraction) * unit == part * shift,
                magnitude == unit * whole_value + part,
        ;
    }
}

/// A natural number of more than one digit does not begin with zero.
pub proof fn lemma_nat_text_no_leading_zero(n: nat)
    ensures
        n < 10 ==> nat_text(n).len() == 1,
        n >= 10 ==> nat_text(n).len() > 1 && nat_text(n)[0] != '0',
    decreases n,
{
    if n >= 10 {
        lemma_nat_text_no_leading_zero(n / 10);
        lemma_nat_text_value(n / 10);
    }
}

/// The digits after the point do not end in zero, and only a fraction of
/// zero has none.
pub proof fn lemma_fraction_text_no_trailing_zero(numerator: nat, bits: nat)
    requires
        numerator < pow2(bits),
    ensures
        numerator == 0 <==> fraction_text(numerator, bits).len() == 0,
        numerator > 0 ==> fraction_text(numerator, bits).last() != '0',
    decreases bits,
{
    lemma2_to64();
    if numerator != 0 && bits != 0 {
        let below = (bits - 1) as nat;
        let unit = pow2(below) as int;
        lemma_pow2_unfold(bits);
        lemma_pow2_pos(below);
        let scaled = 5 * numerator as int;
        let first = scaled / unit;
        let rest = (scaled % unit) as nat;
        lemma_multiply_divide_lt(scaled, unit, 10);
        lemma_mod_bound(scaled, unit);
        lemma_fundamental_div_mod(scaled, unit);
        lemma_fraction_text_no_trailing_zero(rest, below);
        let tail = fraction_text(rest, below);
        let text = fraction_text(numerator, bits);
        assert(text == seq![digit_char(first)] + tail);
        if rest == 0 {
            assert(first != 0) by (nonlinear_arith)
                requires
                    scaled == unit * first,
                    scaled > 0,
            ;
            assert(0 <= first) by (nonlinear_arith)
                requires
                    scaled == unit * first,
                    scaled > 0,
                    unit > 0,
            ;
            assert(text.last() == digit_char(first));
        } else {
            assert(text.last() == tail.last());
        }
    }
}

/// Doubling numerator and denominator of a fraction leaves its digits as
/// they are.
proof fn lemma_fraction_text_scale(numerator: nat, bits: nat)
    requires
        numerator < pow2(bits),
    ensures
        fraction_text(2 * numerator, bits + 1) == fraction_text(numerator, bits),
    decreases bits,
{
    lemma2_to64();
    if numerator != 0 && bits != 0 {
        let below = (bits - 1) as nat;
        let unit = pow2(below) as int;
        lemma_pow2_unfold(bits);
        lemma_pow2_pos(below);
        let scaled = 5 * numerator as int;
        lemma_div_multiples_vanish_quotient(2, scaled, unit);
        lemma_truncate_middle(scaled, 2, unit);
        lemma_mod_bound(scaled, unit);
        let rest = (scaled % unit) as nat;
        assert(5 * (2 * numerator) == 2 * scaled);
        assert(pow2(bits) == 2 * unit);
        assert((5 * (2 * numerator)) as int / (pow2(bits) as int) == scaled / unit);
        assert((5 * (2 * numerator)) as int % (pow2(bits) as int) == 2 * rest);
        lemma_fraction_text_scale(rest, below);
        assert(fraction_text(2 * rest, bits) == fraction_text(rest, below));
    }
}

/// Decimal notation depends on the number alone: counting it in units half
/// the size changes nothing.
pub proof fn lemma_decimal_text_scale(mantissa: int, frac_bits: nat)
    ensures
        decimal_text(2 * mantissa, frac_bits + 1) == decimal_text(mantissa, frac_bits),
{
    let magnitude = if mantissa < 0 { -mantissa } else { mantissa };
    let unit = pow2(frac_bits) as int;
    lemma_pow2_unfold(frac_bits + 1);
    lemma_pow2_pos(frac_bits);
    lemma_div_multiples_vanish_quotient(2, magnitude, unit);
    lemma_truncate_middle(magnitude, 2, unit);
    lemma_mod_bound(magnitude, unit);
    assert(pow2(frac_bits + 1) == 2 * unit);
    assert((2 * magnitude) / (2 * unit) == magnitude / unit);
    assert((2 * magnitude) % (2 * unit) == 2 * (magnitude % unit));
    lemma_fraction_text_scale((magnitude % unit) as nat, frac_bits);
}

/// `lemma_decimal_text_same_number` where the second number is counted in
/// the smaller units.
proof fn lemma_decimal_text_finer(first: int, first_bits: nat, second: int, second_bits: nat)
    requires
        first_bits <= second_bits,
        first * pow2(second_bits) == second * pow2(first_bits),
    ensures
        decimal_text(first, first_bits) == decimal_text(second, second_bits),
    decreases second_bits - first_bits,
{
    lemma_pow2_pos(first_bits);
    let p = pow2(first_bits) as int;
    if first_bits == second_bits {
        assert(p * first == first * p && p * second == second * p) by (nonlinear_arith);
        lemma_mul_equality_converse(p, first, second);
    } else {
        // second counts in smaller units, so it is even
        let below = (second_bits - 1) as nat;
        let r = pow2(below) as int;
        lemma_pow2_unfold(second_bits);
        lemma_pow2_pos(below);
        lemma_pow2_adds(first_bits, (below - first_bits) as nat);
        let gap = pow2((below - first_bits) as nat) as int;
        assert(r == p * gap);
        let half = first * gap;
        assert(second == 2 * half) by {
            assert(p * second == p * (2 * half)) by (nonlinear_arith)
                requires
                    first * (2 * (p * gap)) == second * p,
                    half == first * gap,
            ;
            lemma_mul_equality_converse(p, second, 2 * half);
        }
        assert(first * r == half * p) by (nonlinear_arith)
            requires
                r == p * gap,
                half == first * gap,
        ;
        lemma_decimal_text_finer(first, first_bits, half, below);
        lemma_decimal_text_scale(half, below);
    }
}

/// Two ways of counting the same number, `first / 2^first_bits` and
/// `second / 2^second_bits`, have the same decimal notation.
pub proof fn lemma_decimal_text_same_number(
    first: int,
    first_bits: nat,
    second: int,
    second_bits: nat,
)
    requires
        first * pow2(second_bits) == second * pow2(first_bits),
    ensures
        decimal_text(first, first_bits) == decimal_text(second, second_bits),
{
    if first_bits <= second_bits {
        lemma_decimal_text_finer(first, first_bits, second, second_bits);
    } else {
        lemma_decimal_text_finer(second, second_bits, first, first_bits);
    }
}

} // verus!
