//! Numbers written as text: decimal integers and floating-point numerals.
use vstd::prelude::*;

use crate::natural::{lemma_two_to_adds, lemma_two_to_monotone, ten_to, two_to, Comparison, Natural};
use crate::number::{
    lemma_exact_rounds, lemma_magnitude_step, lemma_rounding_is_unique, lemma_two_to_52, magnitude,
    midpoint, nearest, rounds_to, Double, INFINITY_KEY, NAN_BITS, SIGN,
};
use crate::text::{
    chars_of, first_where, lemma_first_where_is, lowered, same, text_between, to_lower,
};

verus! {

/// Whether a character is a decimal digit.
pub open spec fn is_digit(character: char) -> bool {
    '0' <= character <= '9'
}

/// The value of a decimal digit.
pub open spec fn digit_value(character: char) -> nat {
    (character as u32 - '0' as u32) as nat
}

/// Whether every character is a decimal digit.
pub open spec fn all_digits(text: Seq<char>) -> bool {
    forall|i: int| 0 <= i < text.len() ==> is_digit(#[trigger] text[i])
}

/// The number that decimal digits stand for.
pub open spec fn digits_value(text: Seq<char>) -> nat
    decreases text.len(),
{
    if text.len() == 0 {
        0
    } else {
        10 * digits_value(text.drop_last()) + digit_value(text.last())
    }
}

/// A text without its sign, and whether the sign is a minus.
pub open spec fn split_sign(text: Seq<char>) -> (bool, Seq<char>) {
    if text.len() > 0 && text[0] == '-' {
        (true, text.drop_first())
    } else if text.len() > 0 && text[0] == '+' {
        (false, text.drop_first())
    } else {
        (false, text)
    }
}

/// The integer that a text stands for: digits behind an optional sign.
pub open spec fn integer_of(text: Seq<char>) -> Option<int> {
    let (negative, digits) = split_sign(text);
    if digits.len() > 0 && all_digits(digits) {
        Some(
            if negative {
                -(digits_value(digits) as int)
            } else {
                digits_value(digits) as int
            },
        )
    } else {
        None
    }
}

/// The 64-bit integer that a text stands for.
pub open spec fn i64_of(text: Seq<char>) -> Option<int> {
    match integer_of(text) {
        Some(number) => if i64::MIN <= number <= i64::MAX {
            Some(number)
        } else {
            None
        },
        None => None,
    }
}

/// The character that stands before the exponent of a numeral.
pub open spec fn exponent_mark() -> spec_fn(char) -> bool {
    |character: char| character == 'e' || character == 'E'
}

/// The character that stands before the fraction of a numeral.
pub open spec fn point() -> spec_fn(char) -> bool {
    |character: char| character == '.'
}

/// What a numeral stands for, without its sign.
pub enum Form {
    Infinity,
    NotANumber,
    /// The digits times a power of ten.
    Decimal { digits: nat, exponent: int },
}

/// The part of a text before the position `at`.
pub open spec fn before(text: Seq<char>, at: int) -> Seq<char> {
    text.take(at)
}

/// The part of a text behind the position `at`; nothing where that is the end.
pub open spec fn behind(text: Seq<char>, at: int) -> Seq<char> {
    if at < text.len() {
        text.skip(at + 1)
    } else {
        Seq::empty()
    }
}

/// The decimal numeral without sign: digits with at most one point among them,
/// at least one digit, and optionally an exponent.
pub open spec fn decimal_of(text: Seq<char>) -> Option<Form> {
    let mark = first_where(text, exponent_mark());
    let mantissa = before(text, mark);
    let exponent = if mark < text.len() {
        integer_of(behind(text, mark))
    } else {
        Some(0int)
    };
    let dot = first_where(mantissa, point());
    let whole = before(mantissa, dot);
    let fraction = behind(mantissa, dot);
    if exponent is Some && all_digits(whole) && all_digits(fraction) && whole.len() + fraction.len()
        > 0 {
        Some(
            Form::Decimal {
                digits: digits_value(whole + fraction),
                exponent: exponent->0 - fraction.len(),
            },
        )
    } else {
        None
    }
}

/// The numeral without sign: an infinity, a NaN or a decimal numeral, without
/// regard to case.
pub open spec fn form_of(text: Seq<char>) -> Option<Form> {
    if lowered(text) == "inf"@ || lowered(text) == "infinity"@ {
        Some(Form::Infinity)
    } else if lowered(text) == "nan"@ {
        Some(Form::NotANumber)
    } else {
        decimal_of(text)
    }
}

/// Whether a double is the one nearest to what a numeral stands for.
pub open spec fn denotes(number: Double, negative: bool, form: Form) -> bool {
    match form {
        Form::Infinity => number.negative() == negative && number.key() == INFINITY_KEY,
        Form::NotANumber => number.bits == NAN_BITS,
        Form::Decimal { digits, exponent } => {
            &&& number.negative() == negative
            &&& rounds_to(
                decimal_numerator(digits, exponent),
                decimal_denominator(exponent),
                number.key(),
            )
        },
    }
}

/// The numerator of digits times a power of ten, in units of the smallest
/// positive double.
pub open spec fn decimal_numerator(digits: nat, exponent: int) -> nat {
    digits * ten_to(if exponent > 0 {
        exponent as nat
    } else {
        0
    }) * two_to(1074)
}

/// The denominator of digits times a power of ten.
pub open spec fn decimal_denominator(exponent: int) -> nat {
    ten_to(if exponent < 0 {
        (-exponent) as nat
    } else {
        0
    })
}

/// Whether a text is a numeral, and which double it stands for.
pub open spec fn reads_as(text: Seq<char>, result: Option<Double>) -> bool {
    let (negative, rest) = split_sign(text);
    match form_of(rest) {
        Some(form) => result is Some && denotes(result->0, negative, form),
        None => result is None,
    }
}

/// Larger than any exponent that matters, and than any length of a text.
const EXPONENT_LIMIT: u128 = 1_000_000_000_000_000_000_000_000_000_000;

/// Whether the characters from `start` up to `end` are digits.
fn digits_between(characters: &[char], start: usize, end: usize) -> (result: bool)
    requires
        start <= end <= characters.len(),
    ensures
        result == all_digits(characters@.subrange(start as int, end as int)),
{
    let mut index: usize = start;
    while index < end
        invariant
            start <= index <= end <= characters.len(),
            forall|i: int| start <= i < index ==> is_digit(#[trigger] characters@[i]),
        decreases end - index,
    {
        let character = characters[index];
        if !('0' <= character && character <= '9') {
            assert(!is_digit(
                characters@.subrange(start as int, end as int)[(index - start) as int],
            ));
            return false;
        }
        index += 1;
    }
    true
}

/// The number that digits stand for, or the limit where it is not smaller.
fn limited_value(characters: &[char], start: usize, end: usize, limit: u128) -> (result: u128)
    requires
        start <= end <= characters.len(),
        all_digits(characters@.subrange(start as int, end as int)),
        limit <= EXPONENT_LIMIT,
    ensures
        ({
            let value = digits_value(characters@.subrange(start as int, end as int));
            result == if value < limit {
                value
            } else {
                limit as nat
            }
        }),
{
    let mut index: usize = start;
    let mut result: u128 = 0;
    if limit == 0 {
        return 0;
    }
    while index < end
        invariant
            start <= index <= end <= characters.len(),
            all_digits(characters@.subrange(start as int, end as int)),
            0 < limit <= EXPONENT_LIMIT,
            ({
                let value = digits_value(characters@.subrange(start as int, index as int));
                result == if value < limit {
                    value
                } else {
                    limit as nat
                }
            }),
        decreases end - index,
    {
        let character = characters[index];
        proof {
            assert(characters@.subrange(start as int, end as int)[(index - start) as int]
                == character);
            assert(characters@.subrange(start as int, index + 1).drop_last()
                == characters@.subrange(start as int, index as int));
        }
        let digit: u32 = character as u32 - '0' as u32;
        result = result * 10 + digit as u128;
        if result > limit {
            result = limit;
        }
        index += 1;
    }
    result
}

/// The 64-bit integer that a text stands for: digits behind an optional sign.
pub fn parse_i64(text: &str) -> (result: Option<i64>)
    ensures
        match i64_of(text@) {
            Some(number) => result == Some(number as i64),
            None => result is None,
        },
{
    let characters = chars_of(text);
    let length: usize = characters.len();
    let negative = length > 0 && characters[0] == '-';
    let start: usize = if length > 0 && (characters[0] == '-' || characters[0] == '+') {
        1
    } else {
        0
    };
    assert(split_sign(text@) == (negative, characters@.subrange(start as int, length as int)));
    if start == length || !digits_between(characters.as_slice(), start, length) {
        return None;
    }
    let limit: u128 = 0x1_0000_0000_0000_0000;
    let size: u128 = limited_value(characters.as_slice(), start, length, limit);
    if negative {
        if size <= 0x8000_0000_0000_0000 {
            Some((-(size as i128)) as i64)
        } else {
            None
        }
    } else if size <= 0x7fff_ffff_ffff_ffff {
        Some(size as i64)
    } else {
        None
    }
}

proof fn lemma_ten_to_adds(first: nat, second: nat)
    ensures
        ten_to(first + second) == ten_to(first) * ten_to(second),
        ten_to(first) > 0,
    decreases first + second,
{
    if second == 0 {
        if first > 0 {
            lemma_ten_to_adds((first - 1) as nat, 0);
        }
        assert(ten_to(first) * 1 == ten_to(first)) by (nonlinear_arith);
    } else {
        lemma_ten_to_adds(first, (second - 1) as nat);
        assert((first + second - 1) as nat == first + (second - 1) as nat);
        let left = ten_to(first);
        let right = ten_to((second - 1) as nat);
        assert(10 * (left * right) == left * (10 * right)) by (nonlinear_arith);
    }
}

/// A power of ten is not below the power of two with three times the exponent.
proof fn lemma_ten_to_bound(exponent: nat)
    ensures
        ten_to(exponent) >= two_to(3 * exponent),
    decreases exponent,
{
    if exponent > 0 {
        let below = (exponent - 1) as nat;
        lemma_ten_to_bound(below);
        assert(two_to(3 * exponent) == 8 * two_to(3 * below)) by {
            reveal_with_fuel(two_to, 4);
        }
    }
}

proof fn lemma_ten_to_monotone(first: nat, second: nat)
    requires
        first <= second,
    ensures
        0 < ten_to(first) <= ten_to(second),
    decreases second,
{
    if first < second {
        lemma_ten_to_monotone(first, (second - 1) as nat);
    } else if first > 0 {
        lemma_ten_to_monotone((first - 1) as nat, (first - 1) as nat);
    }
}

proof fn lemma_digits_bound(text: Seq<char>)
    requires
        all_digits(text),
    ensures
        digits_value(text) < ten_to(text.len()),
    decreases text.len(),
{
    if text.len() > 0 {
        assert(is_digit(text[text.len() - 1]));
        assert forall|i: int| 0 <= i < text.drop_last().len() implies is_digit(
            #[trigger] text.drop_last()[i],
        ) by {
            assert(text.drop_last()[i] == text[i]);
        }
        lemma_digits_bound(text.drop_last());
    }
}

/// A number with a large exponent rounds to infinity.
proof fn lemma_large_is_infinite(digits: nat, exponent: int)
    requires
        digits > 0,
        exponent >= 400,
    ensures
        rounds_to(
            decimal_numerator(digits, exponent),
            decimal_denominator(exponent),
            INFINITY_KEY as nat,
        ),
{
    let last = (INFINITY_KEY - 1) as nat;
    let top = INFINITY_KEY as nat;
    lemma_magnitude_step(last);
    assert(top / 0x10_0000_0000_0000 == 0x7ff && top % 0x10_0000_0000_0000 == 0);
    lemma_two_to_52();
    lemma_two_to_adds(52, 2046);
    assert(magnitude(top) == two_to(2098));
    let power = ten_to(exponent as nat);
    lemma_ten_to_bound(exponent as nat);
    lemma_two_to_monotone(1200, (3 * exponent) as nat);
    lemma_two_to_adds(1200, 1074);
    lemma_two_to_monotone(2098, 2274);
    lemma_two_to_monotone(0, 1074);
    let unit = two_to(1074);
    let wide = two_to(1200);
    assert(digits * power * unit >= wide * unit) by (nonlinear_arith)
        requires
            digits >= 1,
            power >= wide,
            unit > 0,
    ;
    assert(midpoint(last) * 1 == midpoint(last));
    assert(decimal_denominator(exponent) == 1);
}

/// A number with a large negative exponent rounds to zero.
proof fn lemma_small_is_zero(digits: nat, exponent: int, count: nat)
    requires
        digits < ten_to(count),
        exponent <= -400 - count,
    ensures
        rounds_to(decimal_numerator(digits, exponent), decimal_denominator(exponent), 0),
{
    let depth = (-exponent) as nat;
    lemma_ten_to_monotone(count + 400, depth);
    lemma_ten_to_adds(count, 400);
    lemma_ten_to_bound(400);
    lemma_two_to_monotone(1075, 1200);
    lemma_two_to_monotone(0, 1074);
    let unit = two_to(1074);
    assert(two_to(1075) == 2 * unit);
    let span = ten_to(count);
    let reach = ten_to(400);
    assert(ten_to(0) == 1);
    assert(2 * (digits * 1 * unit) < span * reach) by (nonlinear_arith)
        requires
            digits < span,
            2 * unit <= reach,
            unit > 0,
    ;
    assert(midpoint(0) == 1) by {
        assert(0nat / 0x10_0000_0000_0000 == 0 && 0nat % 0x10_0000_0000_0000 == 0);
        assert(1nat / 0x10_0000_0000_0000 == 0 && 1nat % 0x10_0000_0000_0000 == 1);
    }
    assert(midpoint(0) * ten_to(depth) == ten_to(depth)) by (nonlinear_arith)
        requires
            midpoint(0) == 1,
    ;
}

/// A power of ten.
fn power_of_ten(exponent: u128) -> (result: Natural)
    ensures
        result@ == ten_to(exponent as nat),
{
    let mut result = Natural::from_u64(1);
    let mut index: u128 = 0;
    while index < exponent
        invariant
            index <= exponent,
            result@ == ten_to(index as nat),
        decreases exponent - index,
    {
        result = result.scaled(10, 0);
        index += 1;
    }
    result
}

/// The bit pattern of the double nearest to digits times a power of ten.
fn key_of_decimal(digits: &Natural, exponent: i128, count: usize) -> (key: u64)
    requires
        digits@ < ten_to(count as nat),
        -EXPONENT_LIMIT - usize::MAX <= exponent <= EXPONENT_LIMIT,
    ensures
        rounds_to(
            decimal_numerator(digits@, exponent as int),
            decimal_denominator(exponent as int),
            key as nat,
        ),
{
    match digits.compared_to(&Natural::zero()) {
        Comparison::Greater => {},
        _ => {
            proof {
                lemma_zero_rounds(exponent as int);
            }
            return 0;
        },
    }
    if exponent >= 400 {
        proof {
            lemma_large_is_infinite(digits@, exponent as int);
        }
        return INFINITY_KEY;
    }
    if exponent <= -400 - count as i128 {
        proof {
            lemma_small_is_zero(digits@, exponent as int, count as nat);
        }
        return 0;
    }
    proof {
        lemma_ten_to_monotone(0, if exponent < 0 {
            (-exponent) as nat
        } else {
            0
        });
    }
    if exponent >= 0 {
        let scale = power_of_ten(exponent as u128);
        nearest(&digits.times(&scale).shifted(1074), &Natural::from_u64(1))
    } else {
        assert(digits@ * ten_to(0) == digits@) by (nonlinear_arith)
            requires
                ten_to(0) == 1,
        ;
        let scale = power_of_ten((-exponent) as u128);
        nearest(&digits.shifted(1074), &scale)
    }
}

/// An exponent that was cut to a limit rounds as the exact one does.
proof fn lemma_limited_exponent(digits: nat, exact: int, total: int, count: nat, key: nat)
    requires
        digits < ten_to(count),
        rounds_to(decimal_numerator(digits, total), decimal_denominator(total), key),
        exact == total || (exact > 400 && total > 400) || (exact < -400 - count && total < -400
            - count),
    ensures
        rounds_to(decimal_numerator(digits, exact), decimal_denominator(exact), key),
{
    if exact == total {
    } else if digits == 0 {
        lemma_zero_rounds(exact);
        lemma_zero_rounds(total);
        lemma_rounding_is_unique(
            decimal_numerator(0, total),
            decimal_denominator(total),
            key,
            0,
        );
    } else if exact > 0 {
        lemma_large_is_infinite(digits, exact);
        lemma_large_is_infinite(digits, total);
        lemma_rounding_is_unique(
            decimal_numerator(digits, total),
            decimal_denominator(total),
            key,
            INFINITY_KEY as nat,
        );
    } else {
        lemma_small_is_zero(digits, exact, count);
        lemma_small_is_zero(digits, total, count);
        lemma_ten_to_monotone(0, (-total) as nat);
        lemma_rounding_is_unique(
            decimal_numerator(digits, total),
            decimal_denominator(total),
            key,
            0,
        );
    }
}

/// The numeral without sign that the characters from `start` on write.
#[verifier::spinoff_prover]
#[verifier::rlimit(40)]
fn decimal_key(characters: &[char], start: usize) -> (result: Option<u64>)
    requires
        start <= characters.len(),
    ensures
        match decimal_of(characters@.skip(start as int)) {
            Some(Form::Decimal { digits, exponent }) => {
                &&& result is Some
                &&& rounds_to(
                    decimal_numerator(digits, exponent),
                    decimal_denominator(exponent),
                    result->0 as nat,
                )
            },
            Some(_) => false,
            None => result is None,
        },
{
    let ghost text = characters@.skip(start as int);
    let length: usize = characters.len();
    let mut mark: usize = start;
    while mark < length && characters[mark] != 'e' && characters[mark] != 'E'
        invariant
            start <= mark <= length == characters.len(),
            forall|i: int| start <= i < mark ==> !exponent_mark()(#[trigger] characters@[i]),
        decreases length - mark,
    {
        mark += 1;
    }
    let mut dot: usize = start;
    while dot < mark && characters[dot] != '.'
        invariant
            start <= dot <= mark <= characters.len(),
            forall|i: int| start <= i < dot ==> !point()(#[trigger] characters@[i]),
        decreases mark - dot,
    {
        dot += 1;
    }
    let tail: usize = if dot < mark {
        dot + 1
    } else {
        dot
    };
    let ghost mantissa = before(text, (mark - start) as int);
    proof {
        assert forall|i: int| 0 <= i < mark - start implies !exponent_mark()(
            #[trigger] text[i],
        ) by {
            assert(text[i] == characters@[start + i]);
        }
        lemma_first_where_is(text, exponent_mark(), (mark - start) as int);
        assert forall|i: int| 0 <= i < dot - start implies !point()(#[trigger] mantissa[i]) by {
            assert(mantissa[i] == characters@[start + i]);
        }
        lemma_first_where_is(mantissa, point(), (dot - start) as int);
        assert(before(mantissa, (dot - start) as int) == characters@.subrange(
            start as int,
            dot as int,
        ));
        assert(behind(mantissa, (dot - start) as int) == characters@.subrange(
            tail as int,
            mark as int,
        ));
        if mark < length {
            assert(behind(text, (mark - start) as int) == characters@.skip(mark + 1));
        }
    }
    let ghost whole = characters@.subrange(start as int, dot as int);
    let ghost fraction = characters@.subrange(tail as int, mark as int);
    let mut exponent: i128 = 0;
    let ghost mut written: int = 0;
    if mark < length {
        let ghost power = characters@.skip(mark + 1);
        let signed = mark + 1 < length && (characters[mark + 1] == '-' || characters[mark + 1]
            == '+');
        let first: usize = if signed {
            mark + 2
        } else {
            mark + 1
        };
        let negative = signed && characters[mark + 1] == '-';
        assert(split_sign(power) == (negative, characters@.subrange(first as int, length as int)));
        if first == length || !digits_between(characters, first, length) {
            return None;
        }
        let size: u128 = limited_value(characters, first, length, EXPONENT_LIMIT);
        exponent = if negative {
            -(size as i128)
        } else {
            size as i128
        };
        proof {
            written = integer_of(power)->0;
        }
    }
    if !digits_between(characters, start, dot) || !digits_between(characters, tail, mark) {
        return None;
    }
    let count: usize = (dot - start) + (mark - tail);
    if count == 0 {
        return None;
    }
    let ghost together = whole + fraction;
    let mut digits = Natural::zero();
    let mut index: usize = start;
    let ghost mut taken: int = 0;
    while index < mark
        invariant
            start <= index <= mark <= characters.len(),
            start <= dot <= tail <= mark,
            tail == if dot < mark {
                dot + 1
            } else {
                dot as int
            },
            whole == characters@.subrange(start as int, dot as int),
            fraction == characters@.subrange(tail as int, mark as int),
            together == whole + fraction,
            all_digits(whole),
            all_digits(fraction),
            taken == if index <= dot {
                index - start
            } else {
                index - start - 1
            },
            digits@ == digits_value(together.take(taken)),
        decreases mark - index,
    {
        if index != dot {
            let character = characters[index];
            proof {
                if index < dot {
                    assert(whole[index - start] == character);
                } else {
                    assert(fraction[index - tail] == character);
                }
                assert(together[taken] == character);
                assert(together.take(taken + 1).drop_last() == together.take(taken));
            }
            let digit: u32 = character as u32 - '0' as u32;
            digits = digits.scaled(10, digit);
            proof {
                taken = taken + 1;
            }
        }
        index += 1;
    }
    assert(together.take(taken) == together);
    proof {
        assert(all_digits(together));
        lemma_digits_bound(together);
    }
    let total: i128 = exponent - (mark - tail) as i128;
    let key: u64 = key_of_decimal(&digits, total, count);
    proof {
        lemma_limited_exponent(
            digits@,
            written - fraction.len(),
            total as int,
            count as nat,
            key as nat,
        );
    }
    Some(key)
}

/// Zero rounds to zero, whatever its exponent.
proof fn lemma_zero_rounds(exponent: int)
    ensures
        rounds_to(decimal_numerator(0, exponent), decimal_denominator(exponent), 0),
        decimal_denominator(exponent) > 0,
{
    let scale = decimal_denominator(exponent);
    lemma_ten_to_monotone(0, if exponent < 0 {
        (-exponent) as nat
    } else {
        0
    });
    assert(decimal_numerator(0, exponent) == 0) by (nonlinear_arith);
    assert(0nat / 0x10_0000_0000_0000 == 0 && 0nat % 0x10_0000_0000_0000 == 0);
    assert(magnitude(0) * scale == 0) by (nonlinear_arith)
        requires
            magnitude(0) == 0,
    ;
    lemma_exact_rounds(0, scale, 0);
}

/// The double that a text stands for.
pub open spec fn number_reading(text: Seq<char>) -> Option<Double> {
    choose|result: Option<Double>| reads_as(text, result)
}

/// A text stands for one double only.
pub proof fn lemma_number_reading(text: Seq<char>, result: Option<Double>)
    requires
        reads_as(text, result),
    ensures
        result == number_reading(text),
{
    let other = number_reading(text);
    assert(reads_as(text, other));
    let (negative, rest) = split_sign(text);
    match form_of(rest) {
        Some(Form::Decimal { digits, exponent }) => {
            lemma_ten_to_monotone(0, if exponent < 0 {
                (-exponent) as nat
            } else {
                0
            });
            lemma_rounding_is_unique(
                decimal_numerator(digits, exponent),
                decimal_denominator(exponent),
                result->0.key(),
                other->0.key(),
            );
        },
        _ => {},
    }
}

/// The double that a text stands for: an infinity, a NaN or a decimal numeral,
/// behind an optional sign.
pub fn parse_number(text: &str) -> (result: Option<Double>)
    ensures
        reads_as(text@, result),
        result == number_reading(text@),
{
    let characters = chars_of(text);
    let length: usize = characters.len();
    let negative = length > 0 && characters[0] == '-';
    let start: usize = if length > 0 && (characters[0] == '-' || characters[0] == '+') {
        1
    } else {
        0
    };
    let ghost rest = characters@.skip(start as int);
    assert(split_sign(text@) == (negative, rest));
    let sign: u64 = if negative {
        SIGN
    } else {
        0
    };
    let unsigned = to_lower(text_between(characters.as_slice(), start, length).as_str());
    let result = if same(unsigned.as_str(), "inf") || same(unsigned.as_str(), "infinity") {
        Some(Double { bits: INFINITY_KEY + sign })
    } else if same(unsigned.as_str(), "nan") {
        Some(Double { bits: NAN_BITS })
    } else {
        match decimal_key(characters.as_slice(), start) {
            Some(key) => Some(Double { bits: key + sign }),
            None => None,
        }
    };
    proof {
        lemma_number_reading(text@, result);
    }
    result
}

}
