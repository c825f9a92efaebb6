//! Natural numbers of any size, for exact arithmetic on the values of doubles.
use vstd::prelude::*;

verus! {

/// A limb holds 32 bits.
pub open spec fn limb_base() -> nat {
    0x1_0000_0000
}

/// The weight of the limb at a position.
pub open spec fn weight(position: nat) -> nat
    decreases position,
{
    if position == 0 {
        1
    } else {
        limb_base() * weight((position - 1) as nat)
    }
}

/// A power of two.
pub open spec fn two_to(exponent: nat) -> nat
    decreases exponent,
{
    if exponent == 0 {
        1
    } else {
        2 * two_to((exponent - 1) as nat)
    }
}

/// A power of ten.
pub open spec fn ten_to(exponent: nat) -> nat
    decreases exponent,
{
    if exponent == 0 {
        1
    } else {
        10 * ten_to((exponent - 1) as nat)
    }
}

/// The number that limbs stand for, the least significant limb first.
pub open spec fn limbs_value(limbs: Seq<u32>) -> nat
    decreases limbs.len(),
{
    if limbs.len() == 0 {
        0
    } else {
        limbs_value(limbs.drop_last()) + limbs.last() as nat * weight((limbs.len() - 1) as nat)
    }
}

pub proof fn lemma_two_to_adds(first: nat, second: nat)
    ensures
        two_to(first + second) == two_to(first) * two_to(second),
        two_to(first) > 0,
    decreases first + second,
{
    if second == 0 {
        if first > 0 {
            lemma_two_to_adds((first - 1) as nat, 0);
        }
        assert(two_to(first) * 1 == two_to(first)) by (nonlinear_arith);
    } else {
        lemma_two_to_adds(first, (second - 1) as nat);
        assert((first + second - 1) as nat == first + (second - 1) as nat);
        let left = two_to(first);
        let right = two_to((second - 1) as nat);
        assert(2 * (left * right) == left * (2 * right)) by (nonlinear_arith);
    }
}

proof fn lemma_two_to_32()
    ensures
        two_to(32) == limb_base(),
        two_to(16) == 0x1_0000,
{
    reveal_with_fuel(two_to, 17);
    lemma_two_to_adds(16, 16);
}

pub proof fn lemma_weight_is_two_to(position: nat)
    ensures
        weight(position) == two_to(32 * position),
        weight(position) > 0,
    decreases position,
{
    if position > 0 {
        lemma_weight_is_two_to((position - 1) as nat);
        lemma_two_to_32();
        lemma_two_to_adds(32, (32 * (position - 1)) as nat);
        let below = weight((position - 1) as nat);
        assert(limb_base() * below > 0) by (nonlinear_arith)
            requires
                below > 0,
                limb_base() == 0x1_0000_0000,
        ;
    }
}

proof fn lemma_weight_adds(first: nat, second: nat)
    ensures
        weight(first + second) == weight(first) * weight(second),
{
    lemma_weight_is_two_to(first);
    lemma_weight_is_two_to(second);
    lemma_weight_is_two_to(first + second);
    lemma_two_to_adds(32 * first, 32 * second);
    assert(32 * (first + second) == 32 * first + 32 * second);
}

/// Powers of two grow with the exponent.
pub proof fn lemma_two_to_monotone(first: nat, second: nat)
    requires
        first <= second,
    ensures
        0 < two_to(first) <= two_to(second),
    decreases second,
{
    if first < second {
        lemma_two_to_monotone(first, (second - 1) as nat);
    } else if first > 0 {
        lemma_two_to_monotone((first - 1) as nat, (first - 1) as nat);
    }
}

proof fn lemma_limbs_push(limbs: Seq<u32>, limb: u32)
    ensures
        limbs_value(limbs.push(limb)) == limbs_value(limbs) + limb as nat * weight(limbs.len()),
{
    assert(limbs.push(limb).drop_last() == limbs);
}

proof fn lemma_limbs_take(limbs: Seq<u32>, count: int)
    requires
        0 <= count < limbs.len(),
    ensures
        limbs_value(limbs.take(count + 1)) == limbs_value(limbs.take(count)) + limbs[count] as nat
            * weight(count as nat),
{
    assert(limbs.take(count + 1).drop_last() == limbs.take(count));
}

proof fn lemma_limbs_bound(limbs: Seq<u32>)
    ensures
        limbs_value(limbs) < weight(limbs.len()),
    decreases limbs.len(),
{
    if limbs.len() > 0 {
        lemma_limbs_bound(limbs.drop_last());
        let below = limbs_value(limbs.drop_last());
        let top = limbs.last() as nat;
        let unit = weight((limbs.len() - 1) as nat);
        assert(below + top * unit < 0x1_0000_0000 * unit) by (nonlinear_arith)
            requires
                below < unit,
                top < 0x1_0000_0000,
        ;
    }
}

/// A natural number.
pub struct Natural {
    limbs: Vec<u32>,
}

impl View for Natural {
    type V = nat;

    closed spec fn view(&self) -> nat {
        limbs_value(self.limbs@)
    }
}

/// How one number stands to another.
#[derive(Clone, Copy, PartialEq, Eq, Structural)]
pub enum Comparison {
    Less,
    Equal,
    Greater,
}

impl Natural {
    /// The number zero.
    pub fn zero() -> (result: Self)
        ensures
            result@ == 0,
    {
        Natural { limbs: Vec::new() }
    }

    /// A number that fits 64 bits.
    pub fn from_u64(number: u64) -> (result: Self)
        ensures
            result@ == number,
    {
        let low: u32 = (number % 0x1_0000_0000) as u32;
        let high: u32 = (number / 0x1_0000_0000) as u32;
        let mut limbs: Vec<u32> = Vec::new();
        proof {
            lemma_limbs_push(limbs@, low);
            lemma_limbs_push(limbs@.push(low), high);
            reveal_with_fuel(weight, 2);
            reveal_with_fuel(limbs_value, 2);
            assert(high as nat * (0x1_0000_0000 * 1) == high * 0x1_0000_0000);
            assert(low as nat * 1 == low) by (nonlinear_arith);
        }
        limbs.push(low);
        limbs.push(high);
        Natural { limbs }
    }

    /// The number times a factor, plus an addend.
    pub fn scaled(&self, factor: u32, addend: u32) -> (result: Self)
        ensures
            result@ == self@ * factor + addend,
    {
        let mut limbs: Vec<u32> = Vec::new();
        let mut carry: u64 = addend as u64;
        let mut index: usize = 0;
        assert(limbs_value(self.limbs@.take(0)) == 0);
        assert(0 * factor == 0);
        assert(carry as nat * weight(0) == carry) by (nonlinear_arith)
            requires
                weight(0) == 1,
        ;
        while index < self.limbs.len()
            invariant
                index <= self.limbs.len(),
                limbs.len() == index,
                carry < 0x1_0000_0000,
                limbs_value(limbs@) + carry as nat * weight(index as nat) == limbs_value(
                    self.limbs@.take(index as int),
                ) * factor + addend,
            decreases self.limbs.len() - index,
        {
            let limb = self.limbs[index];
            assert(limb as u64 * factor as u64 + carry <= 0xffff_ffff_ffff_ffff)
                by (nonlinear_arith)
                requires
                    limb <= 0xffff_ffff,
                    factor <= 0xffff_ffff,
                    carry < 0x1_0000_0000,
            ;
            assert(limb as u64 * factor as u64 <= 0xffff_ffff_ffff_ffff) by (nonlinear_arith)
                requires
                    limb <= 0xffff_ffff,
                    factor <= 0xffff_ffff,
            ;
            let total: u64 = limb as u64 * factor as u64 + carry;
            let low: u32 = (total % 0x1_0000_0000) as u32;
            let high: u64 = total / 0x1_0000_0000;
            proof {
                lemma_limbs_push(limbs@, low);
                lemma_limbs_take(self.limbs@, index as int);
                let unit = weight(index as nat);
                let done = limbs_value(limbs@);
                let before = limbs_value(self.limbs@.take(index as int));
                assert(done + low as nat * unit + high as nat * (0x1_0000_0000 * unit) == (before
                    + limb as nat * unit) * factor + addend) by (nonlinear_arith)
                    requires
                        done + carry as nat * unit == before * factor + addend,
                        total == limb as nat * factor as nat + carry as nat,
                        total == low as nat + high as nat * 0x1_0000_0000,
                ;
            }
            limbs.push(low);
            carry = high;
            index += 1;
        }
        assert(self.limbs@.take(index as int) == self.limbs@);
        proof {
            lemma_limbs_push(limbs@, carry as u32);
        }
        limbs.push(carry as u32);
        Natural { limbs }
    }

    /// The sum of two numbers.
    pub fn plus(&self, other: &Self) -> (result: Self)
        ensures
            result@ == self@ + other@,
    {
        let mut limbs: Vec<u32> = Vec::new();
        let mut carry: u64 = 0;
        let mut index: usize = 0;
        assert(limbs_value(self.limbs@.take(0)) == 0);
        assert(limbs_value(other.limbs@.take(0)) == 0);
        let length: usize = if self.limbs.len() < other.limbs.len() {
            other.limbs.len()
        } else {
            self.limbs.len()
        };
        while index < length
            invariant
                index <= length,
                self.limbs.len() <= length,
                other.limbs.len() <= length,
                limbs.len() == index,
                carry <= 1,
                limbs_value(limbs@) + carry as nat * weight(index as nat) == limbs_value(
                    prefix(self.limbs@, index as int),
                ) + limbs_value(prefix(other.limbs@, index as int)),
            decreases length - index,
        {
            let first: u32 = if index < self.limbs.len() {
                self.limbs[index]
            } else {
                0
            };
            let second: u32 = if index < other.limbs.len() {
                other.limbs[index]
            } else {
                0
            };
            let total: u64 = first as u64 + second as u64 + carry;
            let low: u32 = (total % 0x1_0000_0000) as u32;
            let high: u64 = total / 0x1_0000_0000;
            proof {
                lemma_limbs_push(limbs@, low);
                lemma_prefix_step(self.limbs@, index as int, first);
                lemma_prefix_step(other.limbs@, index as int, second);
                let unit = weight(index as nat);
                let done = limbs_value(limbs@);
                let left = limbs_value(prefix(self.limbs@, index as int));
                let right = limbs_value(prefix(other.limbs@, index as int));
                assert(done + low as nat * unit + high as nat * (0x1_0000_0000 * unit) == left
                    + first as nat * unit + right + second as nat * unit) by (nonlinear_arith)
                    requires
                        done + carry as nat * unit == left + right,
                        total == first as nat + second as nat + carry as nat,
                        total == low as nat + high as nat * 0x1_0000_0000,
                ;
            }
            limbs.push(low);
            carry = high;
            index += 1;
        }
        proof {
            lemma_limbs_push(limbs@, carry as u32);
            assert(prefix(self.limbs@, index as int) == self.limbs@);
            assert(prefix(other.limbs@, index as int) == other.limbs@);
        }
        limbs.push(carry as u32);
        Natural { limbs }
    }

    /// The difference of two numbers.
    pub fn minus(&self, other: &Self) -> (result: Self)
        requires
            other@ <= self@,
        ensures
            result@ == self@ - other@,
    {
        let mut limbs: Vec<u32> = Vec::new();
        let mut borrow: u64 = 0;
        let mut index: usize = 0;
        assert(limbs_value(self.limbs@.take(0)) == 0);
        assert(limbs_value(other.limbs@.take(0)) == 0);
        let length: usize = if self.limbs.len() < other.limbs.len() {
            other.limbs.len()
        } else {
            self.limbs.len()
        };
        while index < length
            invariant
                index <= length,
                self.limbs.len() <= length,
                other.limbs.len() <= length,
                limbs.len() == index,
                borrow <= 1,
                limbs_value(limbs@) + limbs_value(prefix(other.limbs@, index as int))
                    == limbs_value(prefix(self.limbs@, index as int)) + borrow as nat * weight(
                    index as nat,
                ),
            decreases length - index,
        {
            let first: u32 = if index < self.limbs.len() {
                self.limbs[index]
            } else {
                0
            };
            let second: u32 = if index < other.limbs.len() {
                other.limbs[index]
            } else {
                0
            };
            let total: u64 = 0x1_0000_0000 + first as u64 - second as u64 - borrow;
            let low: u32 = (total % 0x1_0000_0000) as u32;
            let next: u64 = 1 - total / 0x1_0000_0000;
            proof {
                lemma_limbs_push(limbs@, low);
                lemma_prefix_step(self.limbs@, index as int, first);
                lemma_prefix_step(other.limbs@, index as int, second);
                let unit = weight(index as nat);
                let done = limbs_value(limbs@);
                let left = limbs_value(prefix(self.limbs@, index as int));
                let right = limbs_value(prefix(other.limbs@, index as int));
                assert(done + low as nat * unit + (right + second as nat * unit) == left
                    + first as nat * unit + next as nat * (0x1_0000_0000 * unit))
                    by (nonlinear_arith)
                    requires
                        done + right == left + borrow as nat * unit,
                        low as nat + second as nat + borrow as nat == first as nat + next as nat
                            * 0x1_0000_0000,
                ;
            }
            limbs.push(low);
            borrow = next;
            index += 1;
        }
        proof {
            assert(prefix(self.limbs@, index as int) == self.limbs@);
            assert(prefix(other.limbs@, index as int) == other.limbs@);
            lemma_limbs_bound(limbs@);
            let unit = weight(index as nat);
            assert(1 * unit == unit);
            assert(0 * unit == 0);
        }
        Natural { limbs }
    }

    /// The number times a power of two.
    pub fn shifted(&self, bits: usize) -> (result: Self)
        ensures
            result@ == self@ * two_to(bits as nat),
    {
        let whole: usize = bits / 32;
        let rest: usize = bits % 32;
        let mut factor: u32 = 1;
        let mut count: usize = 0;
        while count < rest
            invariant
                count <= rest < 32,
                factor == two_to(count as nat),
            decreases rest - count,
        {
            proof {
                lemma_two_to_monotone((count + 1) as nat, 31);
                assert(two_to(31) == 0x8000_0000) by {
                    reveal_with_fuel(two_to, 17);
                    lemma_two_to_adds(16, 15);
                }
            }
            factor = factor * 2;
            count += 1;
        }
        let moved = self.scaled(factor, 0);
        let mut limbs: Vec<u32> = Vec::new();
        let mut index: usize = 0;
        while index < whole
            invariant
                index <= whole,
                limbs.len() == index,
                limbs_value(limbs@) == 0,
            decreases whole - index,
        {
            proof {
                lemma_limbs_push(limbs@, 0);
            }
            limbs.push(0);
            index += 1;
        }
        index = 0;
        assert(limbs_value(moved.limbs@.take(0)) == 0);
        assert(0 * weight(whole as nat) == 0);
        while index < moved.limbs.len()
            invariant
                index <= moved.limbs.len(),
                limbs.len() == whole + index,
                limbs_value(limbs@) == limbs_value(moved.limbs@.take(index as int)) * weight(
                    whole as nat,
                ),
            decreases moved.limbs.len() - index,
        {
            proof {
                lemma_limbs_push(limbs@, moved.limbs@[index as int]);
                lemma_limbs_take(moved.limbs@, index as int);
                lemma_weight_adds(whole as nat, index as nat);
                let limb = moved.limbs@[index as int] as nat;
                let before = limbs_value(moved.limbs@.take(index as int));
                let low = weight(whole as nat);
                let high = weight(index as nat);
                assert(before * low + limb * (low * high) == (before + limb * high) * low)
                    by (nonlinear_arith);
            }
            limbs.push(moved.limbs[index]);
            index += 1;
        }
        proof {
            assert(moved.limbs@.take(index as int) == moved.limbs@);
            lemma_weight_is_two_to(whole as nat);
            lemma_two_to_adds((32 * whole) as nat, rest as nat);
            let low = two_to((32 * whole) as nat);
            let high = two_to(rest as nat);
            let number = self@;
            assert(number * high * low == number * (low * high)) by (nonlinear_arith);
        }
        Natural { limbs }
    }

    /// The product of two numbers.
    pub fn times(&self, other: &Self) -> (result: Self)
        ensures
            result@ == self@ * other@,
    {
        let mut result = Natural::zero();
        let mut index: usize = other.limbs.len();
        assert(other.limbs@.take(index as int) == other.limbs@);
        assert(0 * weight(index as nat) == 0);
        while index > 0
            invariant
                index <= other.limbs.len(),
                result@ * weight(index as nat) + self@ * limbs_value(
                    other.limbs@.take(index as int),
                ) == self@ * other@,
            decreases index,
        {
            index -= 1;
            let part = self.scaled(other.limbs[index], 0);
            let raised = result.shifted(32);
            proof {
                lemma_two_to_32();
                lemma_limbs_take(other.limbs@, index as int);
                let unit = weight(index as nat);
                let limb = other.limbs@[index as int] as nat;
                let below = limbs_value(other.limbs@.take(index as int));
                let number = self@;
                let done = result@;
                assert((done * 0x1_0000_0000 + (number * limb + 0)) * unit + number * below == done
                    * (0x1_0000_0000 * unit) + number * (below + limb * unit))
                    by (nonlinear_arith);
            }
            result = raised.plus(&part);
        }
        assert(limbs_value(other.limbs@.take(0)) == 0);
        assert(result@ * weight(0) + self@ * 0 == result@) by (nonlinear_arith)
            requires
                weight(0) == 1,
        ;
        result
    }

    /// How a number stands to another.
    pub fn compared_to(&self, other: &Self) -> (result: Comparison)
        ensures
            match result {
                Comparison::Less => self@ < other@,
                Comparison::Equal => self@ == other@,
                Comparison::Greater => self@ > other@,
            },
    {
        let length: usize = if self.limbs.len() < other.limbs.len() {
            other.limbs.len()
        } else {
            self.limbs.len()
        };
        let mut index: usize = length;
        assert(prefix(self.limbs@, index as int) == self.limbs@);
        assert(prefix(other.limbs@, index as int) == other.limbs@);
        while index > 0
            invariant
                index <= length,
                self@ - limbs_value(prefix(self.limbs@, index as int)) == other@ - limbs_value(
                    prefix(other.limbs@, index as int),
                ),
            decreases index,
        {
            index -= 1;
            let first: u32 = if index < self.limbs.len() {
                self.limbs[index]
            } else {
                0
            };
            let second: u32 = if index < other.limbs.len() {
                other.limbs[index]
            } else {
                0
            };
            proof {
                lemma_prefix_step(self.limbs@, index as int, first);
                lemma_prefix_step(other.limbs@, index as int, second);
                lemma_prefix_bound(self.limbs@, index as int);
                lemma_prefix_bound(other.limbs@, index as int);
                let unit = weight(index as nat);
                let left = limbs_value(prefix(self.limbs@, index as int));
                let right = limbs_value(prefix(other.limbs@, index as int));
                assert(first < second ==> left + first as nat * unit < right + second as nat * unit)
                    by (nonlinear_arith)
                    requires
                        left < unit,
                ;
                assert(second < first ==> right + second as nat * unit < left + first as nat * unit)
                    by (nonlinear_arith)
                    requires
                        right < unit,
                ;
            }
            if first < second {
                return Comparison::Less;
            }
            if first > second {
                return Comparison::Greater;
            }
        }
        Comparison::Equal
    }
}

/// The first limbs, or all of them where there are fewer.
spec fn prefix(limbs: Seq<u32>, count: int) -> Seq<u32> {
    if count < limbs.len() {
        limbs.take(count)
    } else {
        limbs
    }
}

proof fn lemma_prefix_bound(limbs: Seq<u32>, count: int)
    requires
        0 <= count,
    ensures
        limbs_value(prefix(limbs, count)) < weight(count as nat),
{
    lemma_limbs_bound(prefix(limbs, count));
    let length = prefix(limbs, count).len();
    lemma_weight_is_two_to(length);
    lemma_weight_is_two_to(count as nat);
    lemma_two_to_monotone(32 * length, (32 * count) as nat);
}

proof fn lemma_prefix_step(limbs: Seq<u32>, count: int, limb: u32)
    requires
        0 <= count,
        limb == if count < limbs.len() {
            limbs[count]
        } else {
            0
        },
    ensures
        limbs_value(prefix(limbs, count + 1)) == limbs_value(prefix(limbs, count)) + limb as nat
            * weight(count as nat),
{
    if count < limbs.len() {
        lemma_limbs_take(limbs, count);
        if count + 1 == limbs.len() {
            assert(limbs.take(count + 1) == limbs);
        }
    } else {
        assert(0 * weight(count as nat) == 0);
    }
}

}
