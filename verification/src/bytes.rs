//! Whole numbers written as bytes.
use vstd::arithmetic::div_mod::*;
use vstd::arithmetic::power2::*;
use vstd::prelude::*;

verus! {

/// The number that `bytes` write with the most significant byte first.
pub open spec fn be_value(bytes: Seq<u8>) -> nat
    decreases bytes.len(),
{
    if bytes.len() == 0 {
        0
    } else {
        256 * be_value(bytes.drop_last()) + bytes.last() as nat
    }
}

/// The number that `bytes` write with the least significant byte first.
pub open spec fn le_value(bytes: Seq<u8>) -> nat
    decreases bytes.len(),
{
    if bytes.len() == 0 {
        0
    } else {
        bytes[0] as nat + 256 * le_value(bytes.skip(1))
    }
}

/// The bytes, `length` of them, that write `number` with the least significant byte first.
pub open spec fn le_bytes(number: nat, length: nat) -> Seq<u8>
    decreases length,
{
    if length == 0 {
        Seq::empty()
    } else {
        seq![(number % 256) as u8] + le_bytes(number / 256, (length - 1) as nat)
    }
}

/// The bytes, `length` of them, that write `number` with the most significant byte first.
pub open spec fn be_bytes(number: nat, length: nat) -> Seq<u8>
    decreases length,
{
    if length == 0 {
        Seq::empty()
    } else {
        be_bytes(number / 256, (length - 1) as nat).push((number % 256) as u8)
    }
}

proof fn lemma_pow2_byte(length: nat)
    requires
        length > 0,
    ensures
        pow2(8 * length) == 256 * pow2((8 * (length - 1)) as nat),
{
    lemma_pow2_adds(8, (8 * (length - 1)) as nat);
    lemma2_to64();
}

/// So many bytes write the numbers below 256 to that power.
pub proof fn lemma_le_value_bound(bytes: Seq<u8>)
    ensures
        le_value(bytes) < pow2(8 * bytes.len()),
    decreases bytes.len(),
{
    if bytes.len() == 0 {
        lemma2_to64();
    } else {
        lemma_le_value_bound(bytes.skip(1));
        lemma_pow2_byte(bytes.len());
    }
}

/// So many bytes write the numbers below 256 to that power.
pub proof fn lemma_be_value_bound(bytes: Seq<u8>)
    ensures
        be_value(bytes) < pow2(8 * bytes.len()),
    decreases bytes.len(),
{
    if bytes.len() == 0 {
        lemma2_to64();
    } else {
        lemma_be_value_bound(bytes.drop_last());
        lemma_pow2_byte(bytes.len());
    }
}

/// Each number below 256^n is written by n bytes in exactly one way, the least significant
/// byte first.
pub proof fn law_le_bytes(bytes: Seq<u8>, number: nat)
    requires
        number < pow2(8 * bytes.len()),
    ensures
        le_bytes(number, bytes.len()).len() == bytes.len(),
        le_value(bytes) == number <==> bytes == le_bytes(number, bytes.len()),
    decreases bytes.len(),
{
    if bytes.len() == 0 {
        lemma2_to64();
        assert(bytes =~= Seq::<u8>::empty());
    } else {
        lemma_pow2_byte(bytes.len());
        let rest = bytes.skip(1);
        law_le_bytes(rest, number / 256);
        let written = le_bytes(number, bytes.len());
        assert(written.skip(1) =~= le_bytes(number / 256, rest.len()));
        if le_value(bytes) == number {
            assert(bytes =~= seq![bytes[0]] + rest);
        }
        if bytes == written {
            assert(bytes[0] == (number % 256) as u8);
        }
    }
}

/// Each number below 256^n is written by n bytes in exactly one way, the most significant
/// byte first.
pub proof fn law_be_bytes(bytes: Seq<u8>, number: nat)
    requires
        number < pow2(8 * bytes.len()),
    ensures
        be_bytes(number, bytes.len()).len() == bytes.len(),
        be_value(bytes) == number <==> bytes == be_bytes(number, bytes.len()),
    decreases bytes.len(),
{
    if bytes.len() == 0 {
        lemma2_to64();
        assert(bytes =~= Seq::<u8>::empty());
    } else {
        lemma_pow2_byte(bytes.len());
        let rest = bytes.drop_last();
        law_be_bytes(rest, number / 256);
        let written = be_bytes(number, bytes.len());
        assert(written.drop_last() =~= be_bytes(number / 256, rest.len()));
        if be_value(bytes) == number {
            assert(bytes =~= rest.push(bytes.last()));
        }
        if bytes == written {
            assert(bytes.last() == (number % 256) as u8);
        }
    }
}

/// Reads a number, the least significant byte first.
pub fn from_le_bytes(bytes: &[u8]) -> (number: u64)
    requires
        bytes@.len() <= 8,
    ensures
        number == le_value(bytes@),
{
    let mut number: u64 = 0;
    let mut i: usize = bytes.len();
    assert(bytes@.skip(i as int) =~= Seq::<u8>::empty());
    while i > 0
        invariant
            i <= bytes@.len() <= 8,
            number == le_value(bytes@.skip(i as int)),
        decreases i,
    {
        i = i - 1;
        proof {
            let tail = bytes@.skip(i as int);
            assert(tail.skip(1) =~= bytes@.skip(i + 1));
            lemma_le_value_bound(tail);
            lemma_small_power(tail.len());
        }
        number = number * 256 + bytes[i] as u64;
    }
    assert(bytes@.skip(0) =~= bytes@);
    number
}

/// Reads a number, the most significant byte first.
pub fn from_be_bytes(bytes: &[u8]) -> (number: u64)
    requires
        bytes@.len() <= 8,
    ensures
        number == be_value(bytes@),
{
    let mut number: u64 = 0;
    let length: usize = bytes.len();
    assert(bytes@.take(0) =~= Seq::<u8>::empty());
    for i in 0..length
        invariant
            length == bytes@.len() <= 8,
            number == be_value(bytes@.take(i as int)),
    {
        proof {
            let head = bytes@.take(i + 1);
            assert(head.drop_last() =~= bytes@.take(i as int));
            lemma_be_value_bound(head);
            lemma_small_power(head.len());
        }
        number = number * 256 + bytes[i] as u64;
    }
    assert(bytes@.take(length as int) =~= bytes@);
    number
}

proof fn lemma_small_power(length: nat)
    requires
        length <= 8,
    ensures
        pow2(8 * length) <= 0x1_0000_0000_0000_0000,
{
    lemma2_to64_rest();
    lemma2_to64();
    if length < 8 {
        lemma_pow2_strictly_increases(8 * length, 64);
    }
}

/// A number that is written with the least significant byte first holds each of the bytes at
/// its place, and nothing else.
pub proof fn law_le_value_holds_its_bytes(bytes: Seq<u8>, i: int)
    requires
        0 <= i < bytes.len(),
    ensures
        (le_value(bytes) / pow2((8 * i) as nat)) % 256 == bytes[i],
        le_value(bytes) < pow2(8 * bytes.len()),
    decreases bytes.len(),
{
    lemma_le_value_bound(bytes);
    lemma2_to64();
    let rest = bytes.skip(1);
    if i > 0 {
        law_le_value_holds_its_bytes(rest, i - 1);
        lemma_pow2_byte(i as nat);
        let place = pow2((8 * (i - 1)) as nat) as int;
        lemma_pow2_pos((8 * (i - 1)) as nat);
        lemma_div_denominator(le_value(bytes) as int, 256, place);
        assert(le_value(bytes) / 256 == le_value(rest));
        assert(rest[i - 1] == bytes[i]);
    } else {
        lemma_div_basics(le_value(bytes) as int);
        assert(le_value(bytes) / pow2(0) == le_value(bytes));
    }
}

/// A number that is written with the most significant byte first holds each of the bytes at
/// its place, and nothing else.
pub proof fn law_be_value_holds_its_bytes(bytes: Seq<u8>, i: int)
    requires
        0 <= i < bytes.len(),
    ensures
        (be_value(bytes) / pow2((8 * (bytes.len() - 1 - i)) as nat)) % 256 == bytes[i],
        be_value(bytes) < pow2(8 * bytes.len()),
    decreases bytes.len(),
{
    lemma_be_value_bound(bytes);
    lemma2_to64();
    let rest = bytes.drop_last();
    let steps = bytes.len() - 1 - i;
    if steps > 0 {
        law_be_value_holds_its_bytes(rest, i);
        lemma_pow2_byte(steps as nat);
        let place = pow2((8 * (steps - 1)) as nat) as int;
        lemma_pow2_pos((8 * (steps - 1)) as nat);
        lemma_div_denominator(be_value(bytes) as int, 256, place);
        assert(be_value(bytes) / 256 == be_value(rest));
    } else {
        lemma_div_basics(be_value(bytes) as int);
        assert(be_value(bytes) / pow2(0) == be_value(bytes));
    }
}

/// What is read off bytes holds each of them at its place: the first one counts least in one
/// order, and most in the other.
pub proof fn law_numbers_are_read_byte_by_byte(bytes: &[u8], little: u64, big: u64, i: int)
    requires
        0 <= i < bytes@.len() <= 8,
        call_ensures(from_le_bytes, (bytes,), little),
        call_ensures(from_be_bytes, (bytes,), big),
    ensures
        (little as nat / pow2((8 * i) as nat)) % 256 == bytes@[i],
        (big as nat / pow2((8 * (bytes@.len() - 1 - i)) as nat)) % 256 == bytes@[i],
        little < pow2(8 * bytes@.len()) && big < pow2(8 * bytes@.len()),
{
    law_le_value_holds_its_bytes(bytes@, i);
    law_be_value_holds_its_bytes(bytes@, i);
}

} // verus!
