//! Fingerprints of bytes.
use vstd::prelude::*;

use crate::json::hex_char;

verus! {

/// The start value of a hash.
pub const HASH_START: u64 = 0xcbf2_9ce4_8422_2325;

/// The factor of a hash.
pub const HASH_FACTOR: u64 = 0x0000_0100_0000_01b3;

/// The hash of a byte more: the exclusive or with the byte, times the factor.
pub open spec fn hash_step(hash: u64, byte: u8) -> u64 {
    (((hash ^ (byte as u64)) * HASH_FACTOR) % 0x1_0000_0000_0000_0000) as u64
}

/// The hash of bytes.
pub open spec fn hash_of(bytes: Seq<u8>) -> u64
    decreases bytes.len(),
{
    if bytes.len() == 0 {
        HASH_START
    } else {
        hash_step(hash_of(bytes.drop_last()), bytes.last())
    }
}

/// A number in hexadecimal digits, filled up with zeros.
pub open spec fn hex_text(number: nat, digits: nat) -> Seq<char>
    decreases digits,
{
    if digits == 0 {
        Seq::empty()
    } else {
        hex_text(number / 16, (digits - 1) as nat).push(hex_char(number % 16))
    }
}

/// Appends a number in hexadecimal digits, filled up with zeros.
fn push_hex(text: &mut String, number: u64, digits: u8)
    ensures
        final(text)@ == old(text)@ + hex_text(number as nat, digits as nat),
    decreases digits,
{
    if digits > 0 {
        push_hex(text, number / 16, digits - 1);
        let digit: u8 = (number % 16) as u8;
        if digit < 10 {
            text.push((48 + digit) as char);
        } else {
            text.push((87 + digit) as char);
        }
    }
    assert(text@ == old(text)@ + hex_text(number as nat, digits as nat));
}

/// The hash of bytes.
pub fn hash(bytes: &[u8]) -> (result: u64)
    ensures
        result == hash_of(bytes@),
{
    let mut result: u64 = HASH_START;
    let mut index: usize = 0;
    assert(bytes@.take(0) == Seq::<u8>::empty());
    while index < bytes.len()
        invariant
            index <= bytes.len(),
            result == hash_of(bytes@.take(index as int)),
        decreases bytes.len() - index,
    {
        assert(bytes@.take(index + 1).drop_last() == bytes@.take(index as int));
        result = (result ^ (bytes[index] as u64)).wrapping_mul(HASH_FACTOR);
        index += 1;
    }
    assert(bytes@.take(index as int) == bytes@);
    result
}

/// The fingerprint of bytes: their hash in sixteen hexadecimal digits.
pub open spec fn fingerprint_of(bytes: Seq<u8>) -> Seq<char> {
    hex_text(hash_of(bytes) as nat, 16)
}

/// The fingerprint of bytes.
pub fn fingerprint(bytes: &[u8]) -> (text: String)
    ensures
        text@ == fingerprint_of(bytes@),
{
    let mut text = String::new();
    push_hex(&mut text, hash(bytes), 16);
    assert(text@ == fingerprint_of(bytes@));
    text
}

/// The hash of bytes goes on with each byte: the exclusive or with it, times the factor, in 64
/// bits. The hash of nothing is its start value.
pub proof fn lemma_hash_goes_on(bytes: Seq<u8>, byte: u8)
    ensures
        hash_of(Seq::empty()) == 0xcbf2_9ce4_8422_2325,
        hash_of(bytes.push(byte)) == ((hash_of(bytes) ^ (byte as u64)) * 0x100_0000_01b3)
            % 0x1_0000_0000_0000_0000,
{
    assert(bytes.push(byte).drop_last() == bytes);
}

/// What a digit of a hexadecimal text counts.
pub open spec fn hex_value(digit: char) -> int {
    if '0' <= digit <= '9' {
        digit as u32 - '0' as u32
    } else {
        digit as u32 - 'a' as u32 + 10
    }
}

/// The number that a hexadecimal text tells.
pub open spec fn hex_number(text: Seq<char>) -> int
    decreases text.len(),
{
    if text.len() == 0 {
        0
    } else {
        hex_number(text.drop_last()) * 16 + hex_value(text.last())
    }
}

proof fn lemma_hex_text_is_read(number: nat, digits: nat)
    requires
        number < vstd::arithmetic::power::pow(16, digits),
    ensures
        hex_text(number, digits).len() == digits,
        hex_number(hex_text(number, digits)) == number,
    decreases digits,
{
    vstd::arithmetic::power::lemma_pow0(16);
    if digits > 0 {
        let rest = (digits - 1) as nat;
        vstd::arithmetic::power::lemma_pow_adds(16, 1, rest);
        vstd::arithmetic::power::lemma_pow1(16);
        assert(number / 16 < vstd::arithmetic::power::pow(16, rest));
        lemma_hex_text_is_read(number / 16, rest);
        let shorter = hex_text(number / 16, rest);
        let digit = number % 16;
        assert(shorter.push(hex_char(digit)).drop_last() == shorter);
        assert(hex_value(hex_char(digit)) == digit);
    }
}

/// A fingerprint tells the hash of the bytes in sixteen hexadecimal digits: bytes with equal
/// fingerprints have equal hashes.
pub proof fn lemma_fingerprint_tells_the_hash(bytes: Seq<u8>)
    ensures
        fingerprint_of(bytes).len() == 16,
        hex_number(fingerprint_of(bytes)) == hash_of(bytes),
{
    assert(vstd::arithmetic::power::pow(16, 16) == 0x1_0000_0000_0000_0000) by {
        reveal(vstd::arithmetic::power::pow);
        reveal_with_fuel(vstd::arithmetic::power::pow, 17);
    }
    lemma_hex_text_is_read(hash_of(bytes) as nat, 16);
}

}
