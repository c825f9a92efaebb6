//! Double-precision numbers, held by their bit patterns.
//!
//! A double is compared, and made from an integer or from text, on its exact
//! value: the module uses integer arithmetic alone.
use vstd::prelude::*;

use crate::natural::{lemma_two_to_adds, lemma_two_to_monotone, two_to, Comparison, Natural};

verus! {

/// The bit pattern of positive infinity.
pub const INFINITY_KEY: u64 = 0x7ff0_0000_0000_0000;

/// The bit pattern of the distance between one and the next larger double.
pub const EPSILON_KEY: u64 = 0x3cb0_0000_0000_0000;

/// The bit pattern of one.
pub const ONE_KEY: u64 = 0x3ff0_0000_0000_0000;

/// The bit pattern of the double that is no number.
pub const NAN_BITS: u64 = 0x7ff8_0000_0000_0000;

/// The number of values of the fraction of a double.
pub const FRACTIONS: u64 = 0x10_0000_0000_0000;

/// The bit that holds the sign.
pub const SIGN: u64 = 0x8000_0000_0000_0000;

/// The value of the non-negative double with the given bit pattern, in units of
/// the smallest positive double, which is two to the power of -1074. Infinity
/// stands where the next larger double would.
pub open spec fn magnitude(key: nat) -> nat {
    let exponent = key / (FRACTIONS as nat);
    let fraction = key % (FRACTIONS as nat);
    if exponent == 0 {
        fraction
    } else {
        (FRACTIONS + fraction) as nat * two_to((exponent - 1) as nat)
    }
}

/// Twice the value half way between a double and the next larger one.
pub open spec fn midpoint(key: nat) -> nat {
    magnitude(key) + magnitude(key + 1)
}

/// Whether the fraction `numerator / denominator`, in units of the smallest
/// positive double, rounds to the double with the given bit pattern: to the
/// nearest, and half way between two to the one whose last bit is zero.
pub open spec fn rounds_to(numerator: nat, denominator: nat, key: nat) -> bool {
    &&& key <= INFINITY_KEY
    &&& key > 0 ==> {
        let below = midpoint((key - 1) as nat) * denominator;
        below < 2 * numerator || (below == 2 * numerator && key % 2 == 0)
    }
    &&& key < INFINITY_KEY ==> {
        let above = midpoint(key) * denominator;
        2 * numerator < above || (2 * numerator == above && key % 2 == 0)
    }
}

/// A larger bit pattern stands for a larger value.
pub proof fn lemma_magnitude_step(key: nat)
    ensures
        magnitude(key) < magnitude(key + 1),
{
    let unit = FRACTIONS as nat;
    let exponent = key / unit;
    let fraction = key % unit;
    assert(key == exponent * unit + fraction) by (nonlinear_arith)
        requires
            exponent == key / unit,
            fraction == key % unit,
            unit > 0,
    ;
    if fraction + 1 < unit {
        assert((key + 1) / unit == exponent && (key + 1) % unit == fraction + 1)
            by (nonlinear_arith)
            requires
                key == exponent * unit + fraction,
                fraction + 1 < unit,
        ;
        if exponent > 0 {
            let power = two_to((exponent - 1) as nat);
            lemma_two_to_monotone(0, (exponent - 1) as nat);
            assert((unit + fraction) * power < (unit + (fraction + 1)) * power)
                by (nonlinear_arith)
                requires
                    power > 0,
            ;
        }
    } else {
        assert((key + 1) / unit == exponent + 1 && (key + 1) % unit == 0) by (nonlinear_arith)
            requires
                key == exponent * unit + fraction,
                fraction + 1 == unit,
                unit > 0,
        ;
        if exponent > 0 {
            let power = two_to((exponent - 1) as nat);
            lemma_two_to_monotone(0, (exponent - 1) as nat);
            assert(two_to(exponent) == 2 * power);
            assert((unit + fraction) * power < (unit + 0) * (2 * power)) by (nonlinear_arith)
                requires
                    power > 0,
                    fraction + 1 == unit,
            ;
        }
    }
}

/// The order of the bit patterns is the order of the values.
pub proof fn lemma_magnitude_monotone(low: nat, high: nat)
    ensures
        low < high <==> magnitude(low) < magnitude(high),
        low == high <==> magnitude(low) == magnitude(high),
    decreases low + high,
{
    if low < high {
        lemma_magnitude_monotone(low, (high - 1) as nat);
        lemma_magnitude_step((high - 1) as nat);
    } else if high < low {
        lemma_magnitude_monotone((low - 1) as nat, high);
        lemma_magnitude_step((low - 1) as nat);
    }
}

proof fn lemma_midpoint_monotone(low: nat, high: nat)
    requires
        low <= high,
    ensures
        midpoint(low) <= midpoint(high),
        low < high ==> midpoint(low) < midpoint(high),
{
    lemma_magnitude_monotone(low, high);
    lemma_magnitude_monotone(low + 1, high + 1);
}

/// A fraction rounds to one double only.
pub proof fn lemma_rounding_is_unique(numerator: nat, denominator: nat, first: nat, second: nat)
    requires
        denominator > 0,
        rounds_to(numerator, denominator, first),
        rounds_to(numerator, denominator, second),
    ensures
        first == second,
{
    if first < second {
        lemma_rounding_order(numerator, denominator, first, second);
    } else if second < first {
        lemma_rounding_order(numerator, denominator, second, first);
    }
}

proof fn lemma_rounding_order(numerator: nat, denominator: nat, low: nat, high: nat)
    requires
        denominator > 0,
        rounds_to(numerator, denominator, low),
        low < high,
    ensures
        !rounds_to(numerator, denominator, high),
{
    lemma_midpoint_monotone(low, (high - 1) as nat);
    let near = midpoint(low);
    let far = midpoint((high - 1) as nat);
    assert(near * denominator <= far * denominator) by (nonlinear_arith)
        requires
            near <= far,
    ;
    if low < high - 1 {
        assert(near * denominator < far * denominator) by (nonlinear_arith)
            requires
                near < far,
                denominator > 0,
        ;
    }
}

/// A fraction that is the value of a double rounds to it.
pub proof fn lemma_exact_rounds(numerator: nat, denominator: nat, key: nat)
    requires
        denominator > 0,
        key <= INFINITY_KEY,
        numerator == magnitude(key) * denominator,
    ensures
        rounds_to(numerator, denominator, key),
{
    lemma_magnitude_step(key);
    let here = magnitude(key);
    let above = magnitude(key + 1);
    assert(2 * (here * denominator) < (here + above) * denominator) by (nonlinear_arith)
        requires
            here < above,
            denominator > 0,
    ;
    if key > 0 {
        lemma_magnitude_step((key - 1) as nat);
        let below = magnitude((key - 1) as nat);
        assert((below + here) * denominator < 2 * (here * denominator)) by (nonlinear_arith)
            requires
                below < here,
                denominator > 0,
        ;
    }
}

/// The value of a double as a natural number of units.
fn magnitude_of(key: u64) -> (result: Natural)
    requires
        key <= INFINITY_KEY,
    ensures
        result@ == magnitude(key as nat),
{
    let exponent: u64 = key / FRACTIONS;
    let fraction: u64 = key % FRACTIONS;
    if exponent == 0 {
        Natural::from_u64(fraction)
    } else {
        Natural::from_u64(FRACTIONS + fraction).shifted((exponent - 1) as usize)
    }
}

/// The double nearest to a fraction in units of the smallest positive double.
pub fn nearest(numerator: &Natural, denominator: &Natural) -> (key: u64)
    requires
        denominator@ > 0,
    ensures
        rounds_to(numerator@, denominator@, key as nat),
{
    let doubled = numerator.scaled(2, 0);
    let mut low: u64 = 0;
    let mut high: u64 = INFINITY_KEY;
    while low < high
        invariant
            low <= high <= INFINITY_KEY,
            denominator@ > 0,
            doubled@ == numerator@ * 2,
            low > 0 ==> midpoint((low - 1) as nat) * denominator@ < 2 * numerator@,
            high < INFINITY_KEY ==> midpoint(high as nat) * denominator@ >= 2 * numerator@,
        decreases high - low,
    {
        let middle: u64 = low + (high - low) / 2;
        let sum = magnitude_of(middle).plus(&magnitude_of(middle + 1));
        let bound = sum.times(denominator);
        match bound.compared_to(&doubled) {
            Comparison::Less => {
                low = middle + 1;
            },
            _ => {
                high = middle;
            },
        }
    }
    if low < INFINITY_KEY && low % 2 == 1 {
        let sum = magnitude_of(low).plus(&magnitude_of(low + 1));
        let bound = sum.times(denominator);
        match bound.compared_to(&doubled) {
            Comparison::Equal => {
                proof {
                    if low + 1 < INFINITY_KEY {
                        lemma_midpoint_monotone(low as nat, (low + 1) as nat);
                        let here = midpoint(low as nat);
                        let above = midpoint((low + 1) as nat);
                        let factor = denominator@;
                        assert(here * factor < above * factor) by (nonlinear_arith)
                            requires
                                here < above,
                                factor > 0,
                        ;
                    }
                }
                return low + 1;
            },
            _ => {},
        }
    }
    low
}

/// A double-precision number.
#[derive(Clone, Copy, PartialEq, Eq, Structural, Debug)]
pub struct Double {
    pub bits: u64,
}

impl Double {
    /// Whether the sign bit is set.
    pub open spec fn negative(self) -> bool {
        self.bits >= SIGN
    }

    /// The bit pattern without the sign.
    pub open spec fn key(self) -> nat {
        (if self.bits >= SIGN {
            self.bits - SIGN
        } else {
            self.bits as int
        }) as nat
    }

    pub open spec fn nan(self) -> bool {
        self.key() > INFINITY_KEY
    }

    pub open spec fn infinite(self) -> bool {
        self.key() == INFINITY_KEY
    }

    /// Neither infinite nor a NaN.
    pub open spec fn finite(self) -> bool {
        self.key() < INFINITY_KEY
    }

    /// The value in units of the smallest positive double.
    pub open spec fn value(self) -> int {
        if self.negative() {
            -(magnitude(self.key()) as int)
        } else {
            magnitude(self.key()) as int
        }
    }

    /// Whether both are numbers and the first is the smaller.
    pub open spec fn less(self, other: Self) -> bool {
        !self.nan() && !other.nan() && self.value() < other.value()
    }

    /// Whether both are numbers of the same value.
    pub open spec fn equal(self, other: Self) -> bool {
        !self.nan() && !other.nan() && self.value() == other.value()
    }

    /// Whether the rounded difference of two doubles is a number.
    pub open spec fn comparable(self, other: Self) -> bool {
        &&& !self.nan()
        &&& !other.nan()
        &&& !(self.infinite() && other.infinite() && self.negative() == other.negative())
    }

    /// Whether the difference of two doubles, rounded to the nearest double, is
    /// smaller than the machine epsilon. The epsilon's bit pattern is even, so a
    /// difference half way below it rounds up to it.
    pub open spec fn near(self, other: Self) -> bool {
        self.finite() && other.finite() && self.gap_below(other, EPSILON_KEY as nat)
    }

    /// Whether the rounded difference of two doubles is at least one.
    pub open spec fn apart(self, other: Self) -> bool {
        self.comparable(other) && !(self.finite() && other.finite() && self.gap_below(
            other,
            ONE_KEY as nat,
        ))
    }

    /// Whether the difference of two finite doubles lies below the point from
    /// which it rounds to the double with the given bit pattern, which is even,
    /// or to a larger one.
    pub open spec fn gap_below(self, other: Self, key: nat) -> bool {
        2 * distance(self.value(), other.value()) < midpoint((key - 1) as nat)
    }

    /// The bit pattern without the sign.
    pub fn unsigned(self) -> (key: u64)
        ensures
            key == self.key(),
    {
        if self.bits >= SIGN {
            self.bits - SIGN
        } else {
            self.bits
        }
    }

    pub fn is_nan(self) -> (result: bool)
        ensures
            result == self.nan(),
    {
        self.unsigned() > INFINITY_KEY
    }

    pub fn is_finite(self) -> (result: bool)
        ensures
            result == self.finite(),
    {
        self.unsigned() < INFINITY_KEY
    }

    /// Whether both are numbers and the first is the smaller.
    pub fn is_less(self, other: Self) -> (result: bool)
        ensures
            result == self.less(other),
    {
        if self.is_nan() || other.is_nan() {
            return false;
        }
        let left: u64 = self.unsigned();
        let right: u64 = other.unsigned();
        proof {
            lemma_magnitude_monotone(left as nat, right as nat);
            lemma_magnitude_monotone(right as nat, left as nat);
            lemma_magnitude_monotone(0, left as nat);
            lemma_magnitude_monotone(0, right as nat);
        }
        if self.bits >= SIGN {
            if other.bits >= SIGN {
                right < left
            } else {
                left > 0 || right > 0
            }
        } else if other.bits >= SIGN {
            false
        } else {
            left < right
        }
    }

    /// Whether both are numbers of the same value.
    pub fn is_equal(self, other: Self) -> (result: bool)
        ensures
            result == self.equal(other),
    {
        !self.is_nan() && !other.is_nan() && !self.is_less(other) && !other.is_less(self)
    }

    /// Whether the difference of two finite doubles lies below the point from
    /// which it rounds to a double or to a larger one.
    fn is_gap_below(self, other: Self, key: u64) -> (result: bool)
        requires
            self.finite(),
            other.finite(),
            0 < key <= INFINITY_KEY,
        ensures
            result == self.gap_below(other, key as nat),
    {
        let left = magnitude_of(self.unsigned());
        let right = magnitude_of(other.unsigned());
        let limit = magnitude_of(key - 1).plus(&magnitude_of(key));
        if (self.bits >= SIGN) == (other.bits >= SIGN) {
            let (small, large) = match left.compared_to(&right) {
                Comparison::Less => (left, right),
                _ => (right, left),
            };
            let reach = small.scaled(2, 0).plus(&limit);
            match large.scaled(2, 0).compared_to(&reach) {
                Comparison::Less => true,
                _ => false,
            }
        } else {
            match left.plus(&right).scaled(2, 0).compared_to(&limit) {
                Comparison::Less => true,
                _ => false,
            }
        }
    }

    /// Whether the rounded difference of two doubles is smaller than the machine
    /// epsilon.
    pub fn is_near(self, other: Self) -> (result: bool)
        ensures
            result == self.near(other),
    {
        self.is_finite() && other.is_finite() && self.is_gap_below(other, EPSILON_KEY)
    }

    /// Whether the rounded difference of two doubles is at least one.
    pub fn is_apart(self, other: Self) -> (result: bool)
        ensures
            result == self.apart(other),
    {
        self.is_comparable(other) && !(self.is_finite() && other.is_finite()
            && self.is_gap_below(other, ONE_KEY))
    }

    /// Whether the rounded difference of two doubles is a number.
    pub fn is_comparable(self, other: Self) -> (result: bool)
        ensures
            result == self.comparable(other),
    {
        !self.is_nan() && !other.is_nan() && !(!self.is_finite() && !other.is_finite()
            && (self.bits >= SIGN) == (other.bits >= SIGN))
    }
}

/// How far two integers are apart.
pub open spec fn distance(first: int, second: int) -> nat {
    (if first < second {
        second - first
    } else {
        first - second
    }) as nat
}

/// The difference of two finite doubles lies below the point from which it rounds
/// to an even bit pattern or a larger one exactly where it rounds to a smaller
/// one.
proof fn lemma_gap_is_rounded_difference(left: Double, right: Double, limit: nat, key: nat)
    requires
        left.finite(),
        right.finite(),
        limit > 0,
        limit % 2 == 0,
        rounds_to(distance(left.value(), right.value()), 1, key),
        limit <= INFINITY_KEY,
    ensures
        left.gap_below(right, limit) <==> key < limit,
{
    let last = (limit - 1) as nat;
    assert(midpoint(last) * 1 == midpoint(last));
    assert(midpoint(key) * 1 == midpoint(key));
    if key <= last {
        lemma_midpoint_monotone(key, last);
    } else {
        lemma_midpoint_monotone(last, (key - 1) as nat);
        assert(midpoint((key - 1) as nat) * 1 == midpoint((key - 1) as nat));
    }
}

/// Two finite doubles are near each other exactly where their difference rounds
/// to a double below the machine epsilon.
pub proof fn lemma_near_is_rounded_difference(left: Double, right: Double, key: nat)
    requires
        left.finite(),
        right.finite(),
        rounds_to(distance(left.value(), right.value()), 1, key),
    ensures
        left.near(right) <==> key < EPSILON_KEY,
{
    lemma_gap_is_rounded_difference(left, right, EPSILON_KEY as nat, key);
}

/// Two finite doubles are apart exactly where their difference rounds to one or
/// a larger double.
pub proof fn lemma_apart_is_rounded_difference(left: Double, right: Double, key: nat)
    requires
        left.finite(),
        right.finite(),
        rounds_to(distance(left.value(), right.value()), 1, key),
    ensures
        left.apart(right) <==> key >= ONE_KEY,
{
    lemma_gap_is_rounded_difference(left, right, ONE_KEY as nat, key);
}

/// The bit pattern of the double nearest to a natural number.
fn key_of_natural(number: u64) -> (key: u64)
    ensures
        rounds_to(number as nat * two_to(1074), 1, key as nat),
{
    if number == 0 {
        proof {
            assert(0 * two_to(1074) == 0);
            assert(magnitude(0) * 1 == 0);
            lemma_exact_rounds(0, 1, 0);
        }
        return 0;
    }
    if number >= 2 * FRACTIONS {
        return nearest(&Natural::from_u64(number).shifted(1074), &Natural::from_u64(1));
    }
    let mut aligned: u64 = number;
    let mut shift: u64 = 0;
    assert(number as nat * two_to(0) == number) by (nonlinear_arith)
        requires
            two_to(0) == 1,
    ;
    while aligned < FRACTIONS
        invariant
            0 < aligned < 2 * FRACTIONS,
            aligned == number as nat * two_to(shift as nat),
            two_to(shift as nat) <= aligned,
            shift <= 52,
            number > 0,
        decreases 2 * FRACTIONS - aligned,
    {
        proof {
            let power = two_to(shift as nat);
            let whole = number as nat;
            assert(whole * (2 * power) == 2 * (whole * power)) by (nonlinear_arith);
            if shift == 52 {
                lemma_two_to_52();
            }
        }
        aligned = aligned * 2;
        shift += 1;
    }
    let key: u64 = (1075 - shift) * FRACTIONS + (aligned - FRACTIONS);
    proof {
        let unit = FRACTIONS as nat;
        let exponent = (1075 - shift) as nat;
        let fraction = (aligned - FRACTIONS) as nat;
        assert(key as nat / unit == exponent && key as nat % unit == fraction)
            by (nonlinear_arith)
            requires
                key as nat == exponent * unit + fraction,
                fraction < unit,
        ;
        lemma_two_to_adds(shift as nat, (1074 - shift) as nat);
        let first = two_to(shift as nat);
        let second = two_to((1074 - shift) as nat);
        let whole = number as nat;
        assert(whole * first * second == whole * (first * second)) by (nonlinear_arith);
        assert(magnitude(key as nat) * 1 == magnitude(key as nat));
        lemma_exact_rounds(whole * two_to(1074), 1, key as nat);
    }
    key
}

/// The number of values of the fraction is a power of two.
pub proof fn lemma_two_to_52()
    ensures
        two_to(52) == FRACTIONS,
{
    assert(two_to(13) == 0x2000) by {
        reveal_with_fuel(two_to, 14);
    }
    lemma_two_to_adds(13, 13);
    assert(two_to(26) == 0x2000 * 0x2000);
    lemma_two_to_adds(26, 26);
    assert(two_to(52) == 0x400_0000 * 0x400_0000);
}

impl Double {
    /// Whether this is the double nearest to an integer.
    pub open spec fn holds_integer(self, number: int) -> bool {
        &&& self.negative() == (number < 0)
        &&& rounds_to(distance(number, 0) * two_to(1074), 1, self.key())
    }

    /// The double nearest to a natural number.
    pub fn from_u64(number: u64) -> (result: Self)
        ensures
            result.holds_integer(number as int),
            result == integer_double(number as int),
    {
        let result = Double { bits: key_of_natural(number) };
        proof {
            lemma_integer_double(number as int, result);
        }
        result
    }

    /// The double nearest to an integer.
    pub fn from_i64(number: i64) -> (result: Self)
        ensures
            result.holds_integer(number as int),
            result == integer_double(number as int),
    {
        let result = if number >= 0 {
            Double { bits: key_of_natural(number as u64) }
        } else {
            let size: u64 = (-(number as i128)) as u64;
            Double { bits: key_of_natural(size) + SIGN }
        };
        proof {
            lemma_integer_double(number as int, result);
        }
        result
    }
}

/// The double nearest to an integer.
pub open spec fn integer_double(number: int) -> Double {
    choose|result: Double| result.holds_integer(number)
}

/// Only one double is nearest to an integer.
pub proof fn lemma_integer_double(number: int, result: Double)
    requires
        result.holds_integer(number),
    ensures
        result == integer_double(number),
{
    lemma_rounding_is_unique(
        distance(number, 0) * two_to(1074),
        1,
        result.key(),
        integer_double(number).key(),
    );
}

/// A power of two that fits 128 bits.
fn power_of_two(exponent: u64) -> (power: u128)
    requires
        exponent <= 100,
    ensures
        power == two_to(exponent as nat),
        power <= 0x10_0000_0000_0000_0000_0000_0000,
{
    let mut power: u128 = 1;
    let mut done: u64 = 0;
    while done < exponent
        invariant
            done <= exponent <= 100,
            power == two_to(done as nat),
            power <= 0x10_0000_0000_0000_0000_0000_0000,
        decreases exponent - done,
    {
        proof {
            lemma_two_to_100();
            lemma_two_to_monotone((done + 1) as nat, 100);
        }
        power = power * 2;
        done += 1;
    }
    power
}

proof fn lemma_two_to_100()
    ensures
        two_to(100) == 0x10_0000_0000_0000_0000_0000_0000,
{
    lemma_two_to_52();
    assert(two_to(12) == 0x1000) by {
        reveal_with_fuel(two_to, 13);
    }
    lemma_two_to_adds(12, 12);
    lemma_two_to_adds(24, 24);
    assert(two_to(24) == 0x100_0000);
    assert(two_to(48) == 0x100_0000 * 0x100_0000);
    lemma_two_to_adds(52, 48);
}

/// The value of the double with a given significand and exponent.
proof fn lemma_magnitude_of_parts(significand: nat, exponent: nat)
    requires
        FRACTIONS <= significand <= 2 * FRACTIONS,
    ensures
        magnitude(((exponent + 1) * FRACTIONS + significand - FRACTIONS) as nat) == significand
            * two_to(exponent),
{
    let unit = FRACTIONS as nat;
    let key = ((exponent + 1) * unit + significand - unit) as nat;
    if significand < 2 * unit {
        let fraction = (significand - unit) as nat;
        assert(key / unit == exponent + 1 && key % unit == fraction) by (nonlinear_arith)
            requires
                key == (exponent + 1) * unit + fraction,
                fraction < unit,
        ;
    } else {
        assert(key / unit == exponent + 2 && key % unit == 0) by (nonlinear_arith)
            requires
                key == (exponent + 1) * unit + unit,
                unit > 0,
        ;
        let power = two_to(exponent);
        assert(two_to(exponent + 1) == 2 * power);
        assert((unit + 0) * (2 * power) == (2 * unit) * power) by (nonlinear_arith);
    }
}

/// A value between two neighbouring doubles rounds to the nearer one, and half
/// way between them to the one whose bit pattern is even.
proof fn lemma_rounds_between(value: nat, key: nat)
    requires
        magnitude(key) <= value < magnitude(key + 1),
        key < INFINITY_KEY,
    ensures
        2 * value < midpoint(key) ==> rounds_to(value, 1, key),
        2 * value > midpoint(key) ==> rounds_to(value, 1, key + 1),
        2 * value == midpoint(key) ==> rounds_to(
            value,
            1,
            if key % 2 == 0 {
                key
            } else {
                key + 1
            },
        ),
{
    assert(midpoint(key) * 1 == midpoint(key));
    assert(midpoint(key + 1) * 1 == midpoint(key + 1));
    lemma_magnitude_step(key);
    lemma_magnitude_step(key + 1);
    if key > 0 {
        lemma_magnitude_step((key - 1) as nat);
        assert(midpoint((key - 1) as nat) * 1 == midpoint((key - 1) as nat));
    }
}

/// A value as large as infinity's bit pattern stands for rounds to infinity.
proof fn lemma_rounds_to_infinity(value: nat, key: nat)
    requires
        magnitude(key) <= value,
        key >= INFINITY_KEY,
    ensures
        rounds_to(value, 1, INFINITY_KEY as nat),
{
    let last = (INFINITY_KEY - 1) as nat;
    lemma_magnitude_monotone(INFINITY_KEY as nat, key);
    lemma_magnitude_step(last);
    assert(midpoint(last) * 1 == midpoint(last));
}

/// The significand of a double and its exponent in units of the smallest
/// positive double.
fn parts_of(key: u64) -> (parts: (u64, u64))
    requires
        key < INFINITY_KEY,
    ensures
        magnitude(key as nat) == parts.0 as nat * two_to(parts.1 as nat),
        parts.0 < 2 * FRACTIONS,
        parts.1 <= 2045,
        parts.1 > 0 ==> parts.0 >= FRACTIONS,
{
    let exponent: u64 = key / FRACTIONS;
    let fraction: u64 = key % FRACTIONS;
    if exponent == 0 {
        assert(fraction as nat * two_to(0) == fraction) by (nonlinear_arith)
            requires
                two_to(0) == 1,
        ;
        (fraction, 0)
    } else {
        (FRACTIONS + fraction, exponent - 1)
    }
}

/// The bit pattern of the double nearest to a sum of two doubles.
fn key_of_sum(left: u64, right: u64) -> (key: u64)
    requires
        left < INFINITY_KEY,
        right < INFINITY_KEY,
    ensures
        rounds_to(magnitude(left as nat) + magnitude(right as nat), 1, key as nat),
{
    let (first, first_exponent) = parts_of(left);
    let (second, second_exponent) = parts_of(right);
    let (small, low, large, high) = if first_exponent < second_exponent {
        (first, first_exponent, second, second_exponent)
    } else {
        (second, second_exponent, first, first_exponent)
    };
    if high - low > 40 {
        return nearest(
            &magnitude_of(left).plus(&magnitude_of(right)),
            &Natural::from_u64(1),
        );
    }
    let step: u128 = power_of_two(high - low);
    proof {
        lemma_two_to_monotone((high - low) as nat, 40);
        lemma_two_to_40();
        assert(large as nat * step as nat <= 0x20_0000_0000_0000 * 0x100_0000_0000)
            by (nonlinear_arith)
            requires
                large as nat <= 0x20_0000_0000_0000,
                step as nat <= 0x100_0000_0000,
        ;
    }
    let total: u128 = large as u128 * step + small as u128;
    let ghost value = magnitude(left as nat) + magnitude(right as nat);
    proof {
        lemma_two_to_adds((high - low) as nat, low as nat);
        let unit = two_to(low as nat);
        assert(value == total as nat * unit) by (nonlinear_arith)
            requires
                value == small as nat * unit + large as nat * (step as nat * unit),
                total as nat == large as nat * step as nat + small as nat,
        ;
    }
    rounded_key(total, low)
}

proof fn lemma_two_to_40()
    ensures
        two_to(40) == 0x100_0000_0000,
{
    assert(two_to(10) == 0x400) by {
        reveal_with_fuel(two_to, 11);
    }
    lemma_two_to_adds(10, 10);
    lemma_two_to_adds(20, 20);
    assert(two_to(20) == 0x400 * 0x400);
    assert(two_to(40) == 0x10_0000 * 0x10_0000);
}

/// The bit pattern of the double nearest to a number times a power of two.
fn rounded_key(total: u128, low: u64) -> (key: u64)
    requires
        total < 0x40_0000_0000_0000 * 0x100_0000_0000,
        low <= 2045,
        low > 0 ==> total >= FRACTIONS,
    ensures
        rounds_to(total as nat * two_to(low as nat), 1, key as nat),
{
    let mut unit: u128 = 1;
    let mut dropped: u64 = 0;
    while total / unit >= (2 * FRACTIONS) as u128
        invariant
            dropped <= 41,
            unit == two_to(dropped as nat),
            0 < unit <= 0x200_0000_0000,
            total < 0x40_0000_0000_0000 * 0x100_0000_0000,
            dropped > 0 ==> total / unit >= FRACTIONS,
        decreases 41 - dropped,
    {
        proof {
            if dropped == 41 {
                lemma_two_to_40();
                assert(unit == 0x200_0000_0000);
                assert(total as nat / 0x200_0000_0000nat < 0x20_0000_0000_0000);
            }
            assert(total as nat / (unit as nat * 2) == (total as nat / unit as nat) / 2) by {
                vstd::arithmetic::div_mod::lemma_div_denominator(total as int, unit as int, 2);
            }
            lemma_two_to_40();
            lemma_two_to_monotone((dropped + 1) as nat, 41);
        }
        unit = unit * 2;
        dropped += 1;
    }
    let whole: u64 = (total / unit) as u64;
    let rest: u128 = total % unit;
    let exponent: u64 = low + dropped;
    let key: u64 = if whole < FRACTIONS {
        whole
    } else {
        (exponent + 1) * FRACTIONS + (whole - FRACTIONS)
    };
    let ghost scale = two_to(low as nat);
    let ghost value = total as nat * scale;
    proof {
        let power = two_to(exponent as nat);
        lemma_two_to_adds(dropped as nat, low as nat);
        assert(power == unit as nat * scale);
        lemma_two_to_monotone(0, low as nat);
        vstd::arithmetic::div_mod::lemma_fundamental_div_mod(total as int, unit as int);
        if whole < FRACTIONS {
            assert(scale == 1);
            assert(power == 1);
            assert(magnitude(whole as nat) == whole);
            if whole + 1 == FRACTIONS {
                lemma_magnitude_of_parts((whole + 1) as nat, 0);
            }
            assert(magnitude((whole + 1) as nat) == whole + 1);
            assert(whole as nat * power == whole);
            assert((whole + 1) as nat * power == whole + 1);
        } else {
            lemma_magnitude_of_parts(whole as nat, exponent as nat);
            lemma_magnitude_of_parts((whole + 1) as nat, exponent as nat);
        }
        assert(magnitude(key as nat) == whole as nat * power);
        assert(magnitude((key + 1) as nat) == (whole + 1) as nat * power);
        let quotient = whole as nat;
        let part = unit as nat;
        let left_over = rest as nat;
        assert(value == quotient * power + left_over * scale) by (nonlinear_arith)
            requires
                value == total as nat * scale,
                power == part * scale,
                total as nat == part * quotient + left_over,
        ;
        assert(left_over * scale < power) by (nonlinear_arith)
            requires
                left_over < part,
                power == part * scale,
                scale > 0,
        ;
        assert((quotient + 1) * power == quotient * power + power) by (nonlinear_arith);
        assert(midpoint(key as nat) == 2 * (quotient * power) + power);
        assert(2 * left_over < part ==> 2 * (left_over * scale) < power) by (nonlinear_arith)
            requires
                power == part * scale,
                scale > 0,
        ;
        assert(2 * left_over > part ==> 2 * (left_over * scale) > power) by (nonlinear_arith)
            requires
                power == part * scale,
                scale > 0,
        ;
        assert(2 * left_over == part ==> 2 * (left_over * scale) == power) by (nonlinear_arith)
            requires
                power == part * scale,
        ;
        if key < INFINITY_KEY {
            lemma_rounds_between(value, key as nat);
        } else {
            lemma_rounds_to_infinity(value, key as nat);
        }
    }
    if key >= INFINITY_KEY {
        INFINITY_KEY
    } else if 2 * rest < unit || (2 * rest == unit && key % 2 == 0) {
        key
    } else {
        key + 1
    }
}

/// Whether a double is the sum of two, rounded to the nearest. Infinities of
/// both signs have no sum.
pub open spec fn adds_to(left: Double, right: Double, sum: Double) -> bool {
    if left.nan() || right.nan() || (left.infinite() && right.infinite() && left.negative()
        != right.negative()) {
        sum.bits == NAN_BITS
    } else if left.infinite() {
        sum == left
    } else if right.infinite() {
        sum == right
    } else {
        let exact = left.value() + right.value();
        &&& rounds_to(distance(exact, 0), 1, sum.key())
        &&& sum.negative() == (exact < 0 || (exact == 0 && left.negative() && right.negative()))
    }
}

/// The sum of two doubles.
pub open spec fn sum_of(left: Double, right: Double) -> Double {
    choose|sum: Double| adds_to(left, right, sum)
}

/// Two doubles have one sum only.
pub proof fn lemma_sum_of(left: Double, right: Double, sum: Double)
    requires
        adds_to(left, right, sum),
    ensures
        sum == sum_of(left, right),
{
    let other = sum_of(left, right);
    assert(adds_to(left, right, other));
    if left.finite() && right.finite() {
        let exact = left.value() + right.value();
        lemma_rounding_is_unique(distance(exact, 0), 1, sum.key(), other.key());
    }
}

/// Whether a double is the quotient of a double and a number above zero, rounded
/// to the nearest.
pub open spec fn divides_to(total: Double, count: u64, quotient: Double) -> bool {
    if total.nan() {
        quotient.bits == NAN_BITS
    } else if total.infinite() {
        quotient == total
    } else {
        &&& rounds_to(
            magnitude(total.key()) * two_to(1074),
            magnitude(integer_double(count as int).key()),
            quotient.key(),
        )
        &&& quotient.negative() == total.negative()
    }
}

/// The quotient of a double and a number above zero.
pub open spec fn quotient_of(total: Double, count: u64) -> Double {
    choose|quotient: Double| divides_to(total, count, quotient)
}

/// A natural number above zero is nearest to a double above zero.
proof fn lemma_positive_double(count: u64, double: Double)
    requires
        count > 0,
        double.holds_integer(count as int),
    ensures
        magnitude(double.key()) > 0,
{
    if double.key() == 0 {
        lemma_two_to_monotone(0, 1074);
        let unit = two_to(1074);
        assert(count as nat * unit >= 1) by (nonlinear_arith)
            requires
                count > 0,
                unit >= 1,
        ;
        assert(midpoint(0) * 1 == 1);
    } else {
        lemma_magnitude_monotone(0, double.key());
    }
}

/// A double has one quotient by a number only.
pub proof fn lemma_quotient_of(total: Double, count: u64, quotient: Double)
    requires
        count > 0,
        integer_double(count as int).holds_integer(count as int),
        divides_to(total, count, quotient),
    ensures
        quotient == quotient_of(total, count),
{
    let other = quotient_of(total, count);
    assert(divides_to(total, count, other));
    if total.finite() {
        lemma_positive_double(count, integer_double(count as int));
        lemma_rounding_is_unique(
            magnitude(total.key()) * two_to(1074),
            magnitude(integer_double(count as int).key()),
            quotient.key(),
            other.key(),
        );
    }
}

impl Double {
    /// The sum of two doubles, rounded to the nearest.
    pub fn plus(self, other: Self) -> (sum: Self)
        ensures
            adds_to(self, other, sum),
            sum == sum_of(self, other),
    {
        let sum = self.rounded_sum(other);
        proof {
            lemma_sum_of(self, other, sum);
        }
        sum
    }

    fn rounded_sum(self, other: Self) -> (sum: Self)
        ensures
            adds_to(self, other, sum),
    {
        if self.is_nan() || other.is_nan() || (!self.is_finite() && !other.is_finite() && (
        self.bits >= SIGN) != (other.bits >= SIGN)) {
            return Double { bits: NAN_BITS };
        }
        if !self.is_finite() {
            return self;
        }
        if !other.is_finite() {
            return other;
        }
        let left: u64 = self.unsigned();
        let right: u64 = other.unsigned();
        if (self.bits >= SIGN) == (other.bits >= SIGN) {
            let key: u64 = key_of_sum(left, right);
            proof {
                lemma_magnitude_monotone(0, left as nat);
            }
            return if self.bits >= SIGN {
                Double { bits: key + SIGN }
            } else {
                Double { bits: key }
            };
        }
        proof {
            lemma_magnitude_monotone(left as nat, right as nat);
            lemma_magnitude_monotone(right as nat, left as nat);
        }
        if left == right {
            proof {
                assert(magnitude(0) * 1 == 0);
                lemma_exact_rounds(0, 1, 0);
            }
            return Double { bits: 0 };
        }
        let (small, large, negative) = if left < right {
            (left, right, other.bits >= SIGN)
        } else {
            (right, left, self.bits >= SIGN)
        };
        let gap = magnitude_of(large).minus(&magnitude_of(small));
        let key: u64 = nearest(&gap, &Natural::from_u64(1));
        if negative {
            Double { bits: key + SIGN }
        } else {
            Double { bits: key }
        }
    }

    /// The quotient of a double and a number above zero, rounded to the nearest.
    pub fn over(self, count: u64) -> (quotient: Self)
        requires
            count > 0,
        ensures
            divides_to(self, count, quotient),
            quotient == quotient_of(self, count),
    {
        let divisor = Double::from_u64(count);
        proof {
            lemma_positive_double(count, divisor);
        }
        let quotient = if self.is_nan() {
            Double { bits: NAN_BITS }
        } else if !self.is_finite() {
            self
        } else {
            let key: u64 = nearest(
                &magnitude_of(self.unsigned()).shifted(1074),
                &magnitude_of(divisor.unsigned()),
            );
            if self.bits >= SIGN {
                Double { bits: key + SIGN }
            } else {
                Double { bits: key }
            }
        };
        proof {
            lemma_quotient_of(self, count, quotient);
        }
        quotient
    }
}

/// A natural number that has 53 bits is the value of a double.
pub proof fn lemma_exact_key(number: nat) -> (key: nat)
    requires
        number < 0x20_0000_0000_0000,
    ensures
        key < INFINITY_KEY,
        magnitude(key) == number * two_to(1074),
{
    if number == 0 {
        assert(0 * two_to(1074) == 0) by (nonlinear_arith);
        assert(magnitude(0) == 0);
        0
    } else {
        assert(number * two_to(0) == number) by (nonlinear_arith)
            requires
                two_to(0) == 1,
        ;
        let (aligned, shift) = lemma_aligned(number, 0);
        let exponent = (1075 - shift) as nat;
        let unit = FRACTIONS as nat;
        let key = (exponent * unit + (aligned - unit)) as nat;
        assert(key / unit == exponent && key % unit == aligned - unit) by (nonlinear_arith)
            requires
                key == exponent * unit + (aligned - unit),
                unit <= aligned < 2 * unit,
                unit > 0,
        ;
        assert(key < INFINITY_KEY) by (nonlinear_arith)
            requires
                key == exponent * unit + (aligned - unit),
                aligned < 2 * unit,
                exponent <= 1075,
                unit == 0x10_0000_0000_0000,
                INFINITY_KEY == 0x7ff0_0000_0000_0000,
        ;
        lemma_two_to_adds(shift, (1074 - shift) as nat);
        let (first, second) = (two_to(shift), two_to((1074 - shift) as nat));
        assert(number * first * second == number * (first * second)) by (nonlinear_arith);
        assert(magnitude(key) == aligned * second);
        key
    }
}

/// A number shifted until it has 53 bits.
proof fn lemma_aligned(number: nat, shift: nat) -> (result: (nat, nat))
    requires
        0 < number * two_to(shift) < 2 * FRACTIONS,
        number > 0,
        shift <= 52,
    ensures
        result.0 == number * two_to(result.1),
        FRACTIONS <= result.0 < 2 * FRACTIONS,
        result.1 <= 52,
    decreases 53 - shift,
{
    let aligned = number * two_to(shift);
    if aligned >= FRACTIONS {
        (aligned, shift)
    } else {
        if shift == 52 {
            lemma_two_to_52();
            assert(aligned >= FRACTIONS) by (nonlinear_arith)
                requires
                    aligned == number * FRACTIONS,
                    number > 0,
            ;
        }
        assert(number * (2 * two_to(shift)) == 2 * aligned) by (nonlinear_arith)
            requires
                aligned == number * two_to(shift),
        ;
        lemma_aligned(number, shift + 1)
    }
}

/// The double of an integer of 53 bits has its value.
pub proof fn lemma_integer_is_exact(number: int)
    requires
        -0x20_0000_0000_0000 < number < 0x20_0000_0000_0000,
    ensures
        integer_double(number).holds_integer(number),
        integer_double(number).finite(),
        integer_double(number).value() == number * two_to(1074),
{
    let size = distance(number, 0);
    let key = lemma_exact_key(size);
    assert(magnitude(key) * 1 == size * two_to(1074));
    lemma_exact_rounds(size * two_to(1074), 1, key);
    let result = if number < 0 {
        Double { bits: (key + SIGN) as u64 }
    } else {
        Double { bits: key as u64 }
    };
    assert(result.key() == key);
    assert(result.holds_integer(number));
    lemma_integer_double(number, result);
    if number < 0 {
        assert(-(size * two_to(1074)) == number * two_to(1074)) by (nonlinear_arith)
            requires
                size == -number,
        ;
    }
}

/// The doubles of one and of the machine epsilon, and those just below them.
proof fn lemma_marks()
    ensures
        magnitude(ONE_KEY as nat) == two_to(1074),
        magnitude((ONE_KEY - 1) as nat) == two_to(1074) - two_to(1021),
        magnitude(EPSILON_KEY as nat) == two_to(1022),
        magnitude((EPSILON_KEY - 1) as nat) == two_to(1022) - two_to(969),
{
    lemma_two_to_52();
    let unit = FRACTIONS as nat;
    lemma_two_to_adds(52, 1022);
    lemma_two_to_adds(52, 970);
    lemma_two_to_adds(52, 1021);
    lemma_two_to_adds(52, 969);
    assert(two_to(1022) == 2 * two_to(1021));
    assert(two_to(970) == 2 * two_to(969));
    let (one, below) = (two_to(1021), two_to(969));
    assert((2 * unit - 1) as nat * one == 2 * (unit * one) - one) by (nonlinear_arith)
        requires
            unit > 0,
    ;
    assert((2 * unit - 1) as nat * below == 2 * (unit * below) - below) by (nonlinear_arith)
        requires
            unit > 0,
    ;
    assert(unit * (2 * one) == 2 * (unit * one)) by (nonlinear_arith);
    assert(unit * (2 * below) == 2 * (unit * below)) by (nonlinear_arith);
}

/// Two finite doubles are apart where they differ by one or more, and not where they differ
/// by so much less than one that the difference does not round to it.
pub proof fn lemma_apart_means_one_or_more(left: Double, right: Double)
    requires
        left.finite(),
        right.finite(),
    ensures
        distance(left.value(), right.value()) >= two_to(1074) ==> left.apart(right),
        distance(left.value(), right.value()) + two_to(1021) <= two_to(1074) ==> !left.apart(right),
{
    lemma_marks();
    assert(two_to(1021) > 0) by {
        lemma_two_to_monotone(0, 1021);
    }
}

/// Two finite doubles are near where they differ by half of the machine epsilon or less, and
/// not where they differ by the epsilon or more.
pub proof fn lemma_near_means_within_epsilon(left: Double, right: Double)
    requires
        left.finite(),
        right.finite(),
    ensures
        distance(left.value(), right.value()) <= two_to(1021) ==> left.near(right),
        distance(left.value(), right.value()) >= two_to(1022) ==> !left.near(right),
{
    lemma_marks();
    assert(two_to(969) > 0) by {
        lemma_two_to_monotone(0, 969);
    }
    lemma_two_to_monotone(969, 1020);
    assert(two_to(1022) == 2 * two_to(1021));
    assert(two_to(1021) == 2 * two_to(1020));
}

/// The sum of two doubles that are whole numbers is exact, where it has 53 bits.
pub proof fn lemma_sum_is_exact(left: Double, right: Double, first: int, second: int)
    requires
        left.finite(),
        right.finite(),
        left.value() == first * two_to(1074),
        right.value() == second * two_to(1074),
        -0x20_0000_0000_0000 < first + second < 0x20_0000_0000_0000,
    ensures
        sum_of(left, right).finite(),
        sum_of(left, right).value() == (first + second) * two_to(1074),
{
    let total = first + second;
    let size = distance(total, 0);
    let unit = two_to(1074);
    let key = lemma_exact_key(size);
    let exact = left.value() + right.value();
    assert(exact == total * unit) by (nonlinear_arith)
        requires
            exact == first * unit + second * unit,
            total == first + second,
    ;
    assert(distance(exact, 0) == size * unit) by {
        if total < 0 {
            assert(total * unit == -(size * unit)) by (nonlinear_arith)
                requires
                    size == -total,
            ;
        }
        assert(size * unit >= 0) by (nonlinear_arith);
    }
    assert(unit > 0) by {
        lemma_two_to_monotone(0, 1074);
    }
    assert(total < 0 <==> exact < 0) by (nonlinear_arith)
        requires
            exact == total * unit,
            unit > 0,
    ;
    assert(magnitude(key) * 1 == size * unit);
    lemma_exact_rounds(size * unit, 1, key);
    let negative = exact < 0 || (exact == 0 && left.negative() && right.negative());
    let sum = if negative {
        Double { bits: (key + SIGN) as u64 }
    } else {
        Double { bits: key as u64 }
    };
    assert(sum.key() == key);
    assert(adds_to(left, right, sum));
    lemma_sum_of(left, right, sum);
}

/// The quotient of a double that is a multiple of a number is exact, where it has 53 bits.
pub proof fn lemma_quotient_is_exact(total: Double, count: u64, quotient: nat)
    requires
        total.finite(),
        0 < count < 0x20_0000_0000_0000,
        quotient < 0x20_0000_0000_0000,
        total.value() == quotient * count * two_to(1074),
    ensures
        quotient_of(total, count).finite(),
        quotient_of(total, count).value() == quotient * two_to(1074),
{
    let unit = two_to(1074);
    let key = lemma_exact_key(quotient);
    lemma_integer_is_exact(count as int);
    let divisor = magnitude(integer_double(count as int).key());
    lemma_two_to_monotone(0, 1074);
    assert(count as int * unit >= 0) by (nonlinear_arith);
    assert(divisor == count as nat * unit);
    assert(total.value() >= 0) by (nonlinear_arith)
        requires
            total.value() == quotient * count * unit,
    ;
    let size = magnitude(total.key());
    assert(size == quotient * count * unit);
    assert(size * unit == magnitude(key) * divisor) by (nonlinear_arith)
        requires
            size == quotient * count * unit,
            magnitude(key) == quotient * unit,
            divisor == count as nat * unit,
    ;
    assert(divisor > 0) by (nonlinear_arith)
        requires
            divisor == count as nat * unit,
            count > 0,
            unit > 0,
    ;
    lemma_exact_rounds(size * unit, divisor, key);
    let result = if total.negative() {
        Double { bits: (key + SIGN) as u64 }
    } else {
        Double { bits: key as u64 }
    };
    assert(result.key() == key);
    assert(divides_to(total, count, result));
    lemma_quotient_of(total, count, result);
    if total.negative() {
        assert(quotient * count * unit == 0);
        assert(quotient * unit == 0) by (nonlinear_arith)
            requires
                quotient * count * unit == 0,
                count > 0,
                quotient >= 0,
                unit >= 0,
        ;
    }
}

}
