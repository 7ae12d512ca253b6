//! Coin flips: fair, and of any bias.
//!
//! A biased coin is flipped with fair ones alone. Fair coins are flipped until the first
//! heads; its index picks one digit of the binary expansion of the bias, and that digit is
//! the outcome.
use crate::bytes;
use crate::double::{self, Double};
use crate::error::Error;
use crate::source::{self, ByteSource};
use vstd::arithmetic::div_mod::*;
use vstd::arithmetic::mul::*;
use vstd::arithmetic::power2::*;
use vstd::prelude::*;
use vstd::std_specs::bits::axiom_u8_leading_zeros;

verus! {

/// The most bytes that are drawn in search of the first heads.
pub const RUN_BYTES: usize = 128;

/// The highest index of the first heads. Where no earlier flip is heads, this one counts
/// as heads.
pub const LAST_INDEX: i16 = 1022;

/// Bit `i` of a sequence of bytes; bit 0 is the most significant bit of the first byte.
pub open spec fn bit_at(bytes: Seq<u8>, i: int) -> bool {
    (bytes[i / 8] >> ((7 - i % 8) as u8)) & 1 == 1
}

/// The index of the first bit that is set, from bit `i` on; at most 1022, which also stands
/// for no such bit.
pub open spec fn first_heads_from(bytes: Seq<u8>, i: int) -> int
    decreases LAST_INDEX - i,
{
    if i >= LAST_INDEX || i >= 8 * bytes.len() {
        LAST_INDEX as int
    } else if bit_at(bytes, i) {
        i
    } else {
        first_heads_from(bytes, i + 1)
    }
}

/// The index of the first bit that is set, censored at 1022.
pub open spec fn first_heads(bytes: Seq<u8>) -> int {
    first_heads_from(bytes, 0)
}

/// How many bytes at the start of `tape` are zero.
pub open spec fn zero_bytes(tape: Seq<u8>) -> nat
    decreases tape.len(),
{
    if tape.len() == 0 || tape[0] != 0 {
        0
    } else {
        1 + zero_bytes(tape.skip(1))
    }
}

/// How many bytes of `tape` the search for the first heads takes. In constant time it takes
/// all 128; else it stops behind the first byte that is not zero, and behind 128 bytes in
/// any case.
pub open spec fn run_length(tape: Seq<u8>, enforce_constant_time: bool) -> Option<nat> {
    if tape.len() >= RUN_BYTES && (enforce_constant_time || zero_bytes(tape) >= RUN_BYTES) {
        Some(RUN_BYTES as nat)
    } else if !enforce_constant_time && zero_bytes(tape) < tape.len() {
        Some(zero_bytes(tape) + 1)
    } else {
        None
    }
}

/// Reads the index of the first heads off `tape`.
pub open spec fn read_heads(tape: Seq<u8>, enforce_constant_time: bool) -> Option<(i16, nat)> {
    match run_length(tape, enforce_constant_time) {
        Some(length) => Some((first_heads(tape.take(length as int)) as i16, length)),
        None => None,
    }
}

/// The requests by which the search for the first heads draws `length` bytes: a single one
/// in constant time, else one for each byte.
pub open spec fn heads_requests(length: nat, enforce_constant_time: bool) -> Seq<nat> {
    if enforce_constant_time {
        source::repeated(length, 1)
    } else {
        source::repeated(1, length)
    }
}

proof fn lemma_first_heads_bound(bytes: Seq<u8>, i: int)
    requires
        0 <= i,
    ensures
        0 <= first_heads_from(bytes, i) <= LAST_INDEX,
    decreases LAST_INDEX - i,
{
    if i < LAST_INDEX && i < 8 * bytes.len() && !bit_at(bytes, i) {
        lemma_first_heads_bound(bytes, i + 1);
    }
}

/// The index lies between 0 and 1022.
pub proof fn lemma_index_bound(tape: Seq<u8>, enforce_constant_time: bool)
    ensures
        read_heads(tape, enforce_constant_time) matches Some((index, length)) ==> {
            &&& 0 <= index <= LAST_INDEX
            &&& index == first_heads(tape.take(length as int))
        },
{
    if let Some(length) = run_length(tape, enforce_constant_time) {
        lemma_first_heads_bound(tape.take(length as int), 0);
    }
}

/// `heads` is the first set bit of `bytes`, or the number of bits where none is set.
spec fn is_first_bit(bytes: Seq<u8>, heads: int) -> bool {
    &&& 0 <= heads <= 8 * bytes.len()
    &&& forall|j: int| 0 <= j < heads ==> !bit_at(bytes, j)
    &&& heads < 8 * bytes.len() ==> bit_at(bytes, heads)
}

proof fn lemma_first_heads(bytes: Seq<u8>, heads: int, i: int)
    requires
        is_first_bit(bytes, heads),
        0 <= i <= heads,
    ensures
        first_heads_from(bytes, i) == if heads < 8 * bytes.len() && heads < LAST_INDEX {
            heads
        } else {
            LAST_INDEX as int
        },
    decreases heads - i,
{
    if i < heads {
        lemma_first_heads(bytes, heads, i + 1);
    }
}

/// What one more byte does to the first set bit.
proof fn lemma_push_byte(bytes: Seq<u8>, heads: int, byte: u8)
    requires
        is_first_bit(bytes, heads),
    ensures
        heads < 8 * bytes.len() ==> is_first_bit(bytes.push(byte), heads),
        heads == 8 * bytes.len() ==> is_first_bit(
            bytes.push(byte),
            heads + byte.leading_zeros(),
        ),
{
    let longer = bytes.push(byte);
    let end = 8 * bytes.len() as int;
    assert forall|j: int| 0 <= j < end implies bit_at(longer, j) == bit_at(bytes, j) by {
        assert(longer[j / 8] == bytes[j / 8]);
    }
    axiom_u8_leading_zeros(byte);
    let zeros = byte.leading_zeros();
    assert forall|j: int| end <= j < end + zeros implies !bit_at(longer, j) by {
        assert(longer[j / 8] == byte);
        let k = (7 - j % 8) as u8;
        assert(8 - zeros <= k < 8);
        assert((byte >> k) & 1u8 == 0u8);
    }
    if zeros < 8 {
        assert(longer[(end + zeros) / 8] == byte);
        assert((7 - (end + zeros) % 8) as u8 == (7 - zeros) as u8);
        let b = (byte >> ((7 - zeros) as u8));
        assert(b & 1u8 != 0u8 ==> b & 1u8 == 1u8) by (bit_vector);
    }
}

proof fn lemma_zero_bytes(tape: Seq<u8>, count: nat)
    requires
        count <= tape.len(),
        forall|j: int| 0 <= j < count ==> tape[j] == 0,
        count < tape.len() ==> tape[count as int] != 0,
    ensures
        zero_bytes(tape) == count,
    decreases tape.len(),
{
    if count > 0 {
        lemma_zero_bytes(tape.skip(1), (count - 1) as nat);
    }
}

proof fn lemma_zero_bytes_are_zero(tape: Seq<u8>)
    ensures
        zero_bytes(tape) <= tape.len(),
        forall|j: int| 0 <= j < zero_bytes(tape) ==> tape[j] == 0,
        zero_bytes(tape) < tape.len() ==> tape[zero_bytes(tape) as int] != 0,
    decreases tape.len(),
{
    if tape.len() > 0 && tape[0] == 0 {
        let rest = tape.skip(1);
        lemma_zero_bytes_are_zero(rest);
        assert forall|j: int| 0 <= j < zero_bytes(tape) implies tape[j] == 0 by {
            if j > 0 {
                assert(tape[j] == rest[j - 1]);
            }
        }
    }
}

/// Any `count` bytes or more that start with `count` zeros have `count` zeros at least.
proof fn lemma_zero_bytes_at_least(tape: Seq<u8>, count: nat)
    requires
        count <= tape.len(),
        forall|j: int| 0 <= j < count ==> tape[j] == 0,
    ensures
        zero_bytes(tape) >= count,
    decreases count,
{
    if count > 0 {
        lemma_zero_bytes_at_least(tape.skip(1), (count - 1) as nat);
    }
}

/// What is read of the first heads depends on the bytes that it takes alone.
pub proof fn lemma_heads_local(tape: Seq<u8>, other: Seq<u8>, enforce_constant_time: bool)
    requires
        read_heads(tape, enforce_constant_time) matches Some((_, length)) && length <= other.len()
            && other.take(length as int) == tape.take(length as int),
    ensures
        read_heads(other, enforce_constant_time) == read_heads(tape, enforce_constant_time),
        (read_heads(tape, enforce_constant_time)->0).1 <= tape.len(),
        (read_heads(tape, enforce_constant_time)->0).1 > 0,
{
    lemma_zero_bytes_are_zero(tape);
    let length = (read_heads(tape, enforce_constant_time)->0).1;
    assert forall|j: int| 0 <= j < length implies other[j] == tape[j] by {
        assert(other.take(length as int)[j] == tape.take(length as int)[j]);
    }
    if !enforce_constant_time {
        if zero_bytes(tape) >= RUN_BYTES {
            lemma_zero_bytes_at_least(other, RUN_BYTES as nat);
        } else {
            lemma_zero_bytes(other, zero_bytes(tape));
        }
    }
}

impl ByteSource {
    /// Draws the index of the first heads of a row of fair coin flips, censored at 1022.
    ///
    /// In constant time 128 bytes are drawn and looked at, whatever they hold. Else single
    /// bytes are drawn until one holds heads, 128 at most.
    pub fn censored_specific_geom(&mut self, enforce_constant_time: bool) -> (index: Result<
        i16,
        Error,
    >)
        requires
            old(self).wf(),
        ensures
            old(self).reads(
                *final(self),
                |tape: Seq<u8>| read_heads(tape, enforce_constant_time),
                index,
            ),
            index is Ok ==> old(self).asked(*final(self)) == heads_requests(
                old(self).taken(*final(self)).len(),
                enforce_constant_time,
            ),
            index matches Ok(index) ==> 0 <= index <= LAST_INDEX,
    {
        if enforce_constant_time {
            self.first_heads_constant_time()
        } else {
            self.first_heads_early_exit()
        }
    }

    fn first_heads_constant_time(&mut self) -> (index: Result<i16, Error>)
        requires
            old(self).wf(),
        ensures
            old(self).reads(*final(self), |tape: Seq<u8>| read_heads(tape, true), index),
            index is Ok ==> old(self).asked(*final(self)) == heads_requests(
                old(self).taken(*final(self)).len(),
                true,
            ),
            index matches Ok(index) ==> 0 <= index <= LAST_INDEX,
    {
        let bytes: Vec<u8> = match self.fill_bytes(RUN_BYTES) {
            Ok(bytes) => bytes,
            Err(error) => return Err(error),
        };
        let mut best: i16 = LAST_INDEX;
        let ghost mut heads: int = 0;
        for i in 0..RUN_BYTES
            invariant
                bytes@.len() == RUN_BYTES,
                is_first_bit(bytes@.take(i as int), heads),
                best == if heads < 8 * i && heads < LAST_INDEX {
                    heads
                } else {
                    LAST_INDEX as int
                },
        {
            let byte: u8 = bytes[i];
            proof {
                lemma_push_byte(bytes@.take(i as int), heads, byte);
                assert(bytes@.take(i + 1) =~= bytes@.take(i as int).push(byte));
                axiom_u8_leading_zeros(byte);
                if heads == 8 * i {
                    heads = heads + byte.leading_zeros();
                }
            }
            if byte > 0 {
                let candidate: i16 = 8 * i as i16 + byte.leading_zeros() as i16;
                if candidate < best {
                    best = candidate;
                }
            }
        }
        proof {
            assert(bytes@.take(RUN_BYTES as int) =~= bytes@);
            lemma_first_heads(bytes@, heads, 0);
            assert(seq![RUN_BYTES as nat] =~= heads_requests(RUN_BYTES as nat, true));
        }
        Ok(best)
    }

    fn first_heads_early_exit(&mut self) -> (index: Result<i16, Error>)
        requires
            old(self).wf(),
        ensures
            old(self).reads(*final(self), |tape: Seq<u8>| read_heads(tape, false), index),
            index is Ok ==> old(self).asked(*final(self)) == heads_requests(
                old(self).taken(*final(self)).len(),
                false,
            ),
            index matches Ok(index) ==> 0 <= index <= LAST_INDEX,
    {
        let ghost before = *self;
        proof {
            before.lemma_still();
        }
        for i in 0..RUN_BYTES
            invariant
                before == *old(self),
                before.wf(),
                before.advances_to(*self),
                before.taken(*self).len() == i,
                before.asked(*self) == heads_requests(i as nat, false),
                forall|j: int| 0 <= j < i ==> before.taken(*self)[j] == 0,
                is_first_bit(before.taken(*self), 8 * i as int),
        {
            let ghost zeros = before.taken(*self);
            let ghost reached = *self;
            let byte: u8 = match self.fill_bytes(1) {
                Ok(bytes) => bytes[0],
                Err(error) => {
                    proof {
                        before.lemma_chain(reached, *self);
                        assert(before.taken(*self) =~= zeros);
                        lemma_zero_bytes(zeros, zeros.len());
                        if before.script() is Some {
                            assert(before.remaining() =~= zeros);
                        }
                    }
                    return Err(error);
                },
            };
            let ghost run = before.taken(*self);
            proof {
                before.lemma_chain(reached, *self);
                assert(run =~= zeros.push(byte));
                assert(before.asked(*self) =~= heads_requests((i + 1) as nat, false));
                lemma_push_byte(zeros, 8 * i as int, byte);
                axiom_u8_leading_zeros(byte);
            }
            if byte > 0 {
                let index: i16 = 8 * i as i16 + byte.leading_zeros() as i16;
                proof {
                    lemma_zero_bytes(run, i as nat);
                    assert(run.take(i + 1) =~= run);
                    lemma_first_heads(run, index as int, 0);
                }
                return Ok(
                    if index < LAST_INDEX {
                        index
                    } else {
                        LAST_INDEX
                    },
                );
            }
        }
        proof {
            let run = before.taken(*self);
            lemma_zero_bytes(run, run.len());
            assert(run.take(RUN_BYTES as int) =~= run);
            lemma_first_heads(run, 8 * run.len() as int, 0);
        }
        Ok(LAST_INDEX)
    }
}

/// Whether `prob` passes for a probability: it is neither below zero nor above one. A NaN
/// is neither.
pub open spec fn is_probability(prob: Double) -> bool {
    prob.is_nan() || 0 <= prob.value() <= pow2(1074)
}

/// The digit behind 2^-(i+1) in the binary expansion of a number between zero and one that
/// is given in units of 2^-1074.
pub open spec fn binary_digit(value: int, i: int) -> bool {
    (value / pow2((1073 - i) as nat) as int) % 2 == 1
}

/// The side on which a coin of bias `prob` falls when the first heads of the fair coins has
/// index `i`: the `i`-th digit of the bias. A bias of one has all digits set; a bias that
/// is not a number, or is below the smallest normal double, has none.
pub open spec fn coin(prob: Double, i: int) -> bool {
    if prob.value() == pow2(1074) {
        true
    } else if prob.is_nan() || prob.exponent() == 0 {
        false
    } else {
        binary_digit(prob.value(), i)
    }
}

/// Reads a flip of the coin of bias `prob` off `tape`.
pub open spec fn read_coin(
    tape: Seq<u8>,
    prob: Double,
    enforce_constant_time: bool,
) -> Option<(bool, nat)> {
    match read_heads(tape, enforce_constant_time) {
        Some((index, length)) => Some((coin(prob, index as int), length)),
        None => None,
    }
}

/// Reads a fair coin flip off `tape`: the lowest bit of its first byte.
pub open spec fn read_bit(tape: Seq<u8>) -> Option<(bool, nat)> {
    if tape.len() == 0 {
        None
    } else {
        Some((tape[0] % 2 == 1, 1))
    }
}

/// The digits of a normal double between zero and one are those of its significand, behind
/// as many zeros as its exponent says.
proof fn lemma_digits_of_normal(prob: Double, i: int)
    requires
        !prob.sign(),
        1 <= prob.exponent() <= 1022,
        0 <= i <= LAST_INDEX,
    ensures
        ({
            let k = i - (1022 - prob.exponent());
            binary_digit(prob.value(), i) == (k == 0 || 1 <= k <= 52 && (prob.mantissa() / pow2(
                (52 - k) as nat,
            ) as int) % 2 == 1)
        }),
{
    let e = prob.exponent();
    let m = prob.mantissa();
    let k = i - (1022 - e);
    let significand = 0x10_0000_0000_0000 + m;
    let unit = pow2((e - 1) as nat) as int;
    lemma_pow2_pos((e - 1) as nat);
    lemma2_to64_rest();
    if k > 52 {
        let place = pow2((1073 - i) as nat) as int;
        lemma_pow2_pos((1073 - i) as nat);
        lemma_pow2_adds((1073 - i) as nat, (k - 52) as nat);
        lemma_pow2_unfold((k - 52) as nat);
        let half = pow2((k - 53) as nat) as int;
        assert(significand * (place * (2 * half)) == (2 * (significand * half)) * place)
            by (nonlinear_arith);
        lemma_div_by_multiple(2 * (significand * half), place);
    } else {
        let shift = (52 - k) as nat;
        let step = pow2(shift) as int;
        lemma_pow2_pos(shift);
        lemma_pow2_adds((e - 1) as nat, shift);
        lemma_div_denominator(significand * unit, unit, step);
        lemma_div_by_multiple(significand, unit);
        assert(prob.value() / pow2((1073 - i) as nat) as int == significand / step);
        if k < 0 {
            lemma_pow2_adds(53, (shift - 53) as nat);
            lemma_pow2_pos((shift - 53) as nat);
            let rest = pow2((shift - 53) as nat) as int;
            assert(0x20_0000_0000_0000 * rest >= 0x20_0000_0000_0000) by (nonlinear_arith)
                requires
                    rest >= 1,
            ;
            lemma_basic_div(significand, step);
        } else if k > 0 {
            lemma_pow2_adds(shift, k as nat);
            lemma_pow2_unfold(k as nat);
            let half = pow2((k - 1) as nat) as int;
            assert(step * (2 * half) == (2 * half) * step) by (nonlinear_arith);
            lemma_div_of_sum(2 * half, m, step);
        } else {
            assert(shift == 52);
            assert(significand / 0x10_0000_0000_0000 == 1);
        }
    }
}

proof fn lemma_div_of_sum(quotient: int, rest: int, divisor: int)
    requires
        divisor > 0,
    ensures
        (quotient * divisor + rest) / divisor == quotient + rest / divisor,
{
    lemma_hoist_over_denominator(rest, quotient, divisor as nat);
    lemma_mul_is_commutative(quotient, divisor);
}

/// What passes for a probability, and is a number, is one or has an exponent below that of
/// one; a negative zero has exponent zero.
pub proof fn lemma_probability_parts(prob: Double)
    requires
        is_probability(prob),
        !prob.is_nan(),
    ensures
        prob.exponent() <= 1023,
        prob.exponent() == 1023 <==> prob.value() == pow2(1074),
        prob.exponent() > 0 ==> !prob.sign(),
{
    let one = Double { bits: 0x3ff0_0000_0000_0000 };
    let zero = Double { bits: 0 };
    double::lemma_one(one);
    double::lemma_magnitude_order(prob, one);
    double::lemma_magnitude_order(one, prob);
    double::lemma_magnitude_order(zero, prob);
    lemma_pow2_pos(1074);
}

impl ByteSource {
    /// Flips a coin of bias `prob`.
    ///
    /// The bias is checked before anything is drawn. In constant time the same number of
    /// bytes is drawn whatever the bias is.
    pub fn sample_bit_prob(&mut self, prob: Double, enforce_constant_time: bool) -> (bit: Result<
        bool,
        Error,
    >)
        requires
            old(self).wf(),
        ensures
            is_probability(prob) ==> old(self).reads(
                *final(self),
                |tape: Seq<u8>| read_coin(tape, prob, enforce_constant_time),
                bit,
            ),
            bit is Ok ==> old(self).asked(*final(self)) == heads_requests(
                old(self).taken(*final(self)).len(),
                enforce_constant_time,
            ),
            !is_probability(prob) ==> bit == Err::<bool, Error>(Error::ProbabilityOutOfRange)
                && *final(self) == *old(self),
    {
        if prob < Double::zero() || prob > Double::one() {
            return Err(Error::ProbabilityOutOfRange);
        }
        let (_sign, exponent, mantissa) = prob.decompose_raw();
        let first_heads_index: i16 = match self.censored_specific_geom(enforce_constant_time) {
            Ok(index) => index,
            Err(error) => return Err(error),
        };
        proof {
            if prob.is_nan() {
                let one = Double { bits: 0x3ff0_0000_0000_0000 };
                double::lemma_one(one);
                double::lemma_magnitude_order(one, prob);
                lemma_pow2_pos(1074);
            } else {
                lemma_probability_parts(prob);
                if 0 < prob.exponent() < 1023 {
                    lemma_digits_of_normal(prob, first_heads_index as int);
                }
            }
        }
        // a bias of one has no zero among its digits
        if exponent == 1023 {
            return Ok(true);
        }
        // the zeros ahead of the first digit of the significand
        let leading_zeros: i16 = 1022 - exponent as i16;
        let digit: i16 = first_heads_index - leading_zeros;
        if digit < 0 || digit > 52 {
            Ok(false)
        } else if digit == 0 {
            // the digit that is not stored, set unless the number is subnormal
            Ok(exponent != 0)
        } else {
            let shift: u64 = (52 - digit) as u64;
            proof {
                vstd::bits::lemma_u64_shr_is_div(mantissa, shift);
            }
            Ok((mantissa >> shift) % 2 == 1)
        }
    }

    /// Flips a fair coin.
    pub fn sample_bit(&mut self) -> (bit: Result<bool, Error>)
        requires
            old(self).wf(),
        ensures
            old(self).reads(*final(self), |tape: Seq<u8>| read_bit(tape), bit),
            old(self).asked(*final(self)) == seq![1nat],
    {
        match self.fill_bytes(1) {
            Ok(bytes) => Ok(bytes[0] % 2 == 1),
            Err(error) => Err(error),
        }
    }
}

/// Draws the index of the first heads from the system's generator.
pub fn censored_specific_geom(enforce_constant_time: bool) -> (index: Result<i16, Error>)
    ensures
        match index {
            Ok(index) => {
                &&& 0 <= index <= LAST_INDEX
                &&& exists|tape: Seq<u8>| #[trigger]
                    read_heads(tape, enforce_constant_time) == Some((index, tape.len()))
            },
            Err(error) => error == Error::Entropy,
        },
        exists|source: &mut ByteSource| #[trigger]
            call_ensures(ByteSource::censored_specific_geom, (source, enforce_constant_time), index) && source.wf() && source.script() is None,
{
    ByteSource::system().censored_specific_geom(enforce_constant_time)
}

/// Flips a coin of bias `prob` with the system's generator.
pub fn sample_bit_prob(prob: Double, enforce_constant_time: bool) -> (bit: Result<bool, Error>)
    ensures
        match bit {
            Ok(bit) => {
                &&& is_probability(prob)
                &&& exists|tape: Seq<u8>| #[trigger]
                    read_coin(tape, prob, enforce_constant_time) == Some((bit, tape.len()))
            },
            Err(error) => error == if is_probability(prob) {
                Error::Entropy
            } else {
                Error::ProbabilityOutOfRange
            },
        },
        exists|source: &mut ByteSource| #[trigger]
            call_ensures(ByteSource::sample_bit_prob, (source, prob, enforce_constant_time), bit) && source.wf() && source.script() is None,
{
    ByteSource::system().sample_bit_prob(prob, enforce_constant_time)
}

/// Flips a fair coin with the system's generator.
pub fn sample_bit() -> (bit: Result<bool, Error>)
    ensures
        match bit {
            Ok(bit) => exists|tape: Seq<u8>| #[trigger] read_bit(tape) == Some((bit, tape.len())),
            Err(error) => error == Error::Entropy,
        },
        exists|source: &mut ByteSource| #[trigger]
            call_ensures(ByteSource::sample_bit, (source,), bit) && source.wf() && source.script() is None,
{
    ByteSource::system().sample_bit()
}

/// The index of the first heads does not depend on whether the search runs in constant
/// time: off the same 128 bytes both ways read the same index.
pub proof fn law_constant_time_changes_no_index(tape: Seq<u8>)
    requires
        tape.len() >= RUN_BYTES,
    ensures
        read_heads(tape, true) matches Some((index, length)) && length == RUN_BYTES && (read_heads(
            tape,
            false,
        ) matches Some((same_index, shorter)) && same_index == index && shorter <= length),
{
    lemma_zero_bytes_are_zero(tape);
    let count = zero_bytes(tape);
    if count < RUN_BYTES {
        let run = tape.take(count as int + 1);
        let heads = lemma_has_first_bit(run);
        assert(heads < 8 * run.len()) by {
            lemma_first_bit_in_nonzero_byte(run, heads);
        }
        let whole = tape.take(RUN_BYTES as int);
        assert forall|j: int| 0 <= j < 8 * run.len() implies bit_at(whole, j) == bit_at(
            run,
            j,
        ) by {
            assert(whole[j / 8] == run[j / 8]);
        }
        lemma_first_heads(run, heads, 0);
        lemma_first_heads(whole, heads, 0);
    }
}

/// Every sequence of bytes has a first set bit or none.
proof fn lemma_has_first_bit(bytes: Seq<u8>) -> (heads: int)
    ensures
        is_first_bit(bytes, heads),
    decreases bytes.len(),
{
    if bytes.len() == 0 {
        0
    } else {
        let shorter = bytes.drop_last();
        let heads = lemma_has_first_bit(shorter);
        lemma_push_byte(shorter, heads, bytes.last());
        assert(shorter.push(bytes.last()) =~= bytes);
        if heads < 8 * shorter.len() {
            heads
        } else {
            heads + bytes.last().leading_zeros()
        }
    }
}

/// Where the last byte is not zero, some bit is set.
proof fn lemma_first_bit_in_nonzero_byte(bytes: Seq<u8>, heads: int)
    requires
        bytes.len() > 0,
        bytes.last() != 0,
        is_first_bit(bytes, heads),
    ensures
        heads < 8 * bytes.len(),
{
    let byte = bytes.last();
    axiom_u8_leading_zeros(byte);
    let zeros = byte.leading_zeros();
    let j = 8 * (bytes.len() - 1) + zeros;
    assert(bytes[j / 8] == byte);
    assert((7 - j % 8) as u8 == (7 - zeros) as u8);
    let b = (byte >> ((7 - zeros) as u8));
    assert(b & 1u8 != 0u8 ==> b & 1u8 == 1u8) by (bit_vector);
    assert(bit_at(bytes, j));
}

/// The first set bit says between which powers of two the number lies that the bytes write.
proof fn lemma_first_bit_bounds_value(bytes: Seq<u8>, heads: int)
    requires
        is_first_bit(bytes, heads),
    ensures
        heads == 8 * bytes.len() ==> bytes::be_value(bytes) == 0,
        heads < 8 * bytes.len() ==> pow2((8 * bytes.len() - 1 - heads) as nat) <= bytes::be_value(
            bytes,
        ) < pow2((8 * bytes.len() - heads) as nat),
    decreases bytes.len(),
{
    if bytes.len() > 0 {
        let shorter = bytes.drop_last();
        let byte = bytes.last();
        let end = 8 * shorter.len() as int;
        assert(shorter.push(byte) =~= bytes);
        assert forall|j: int| 0 <= j < end implies bit_at(shorter, j) == bit_at(bytes, j) by {
            assert(shorter[j / 8] == bytes[j / 8]);
        }
        if heads < end {
            lemma_first_bit_bounds_value(shorter, heads);
            lemma_pow2_adds(8, (end - 1 - heads) as nat);
            lemma_pow2_adds(8, (end - heads) as nat);
            lemma2_to64();
        } else {
            lemma_first_bit_bounds_value(shorter, end);
            lemma_push_byte(shorter, end, byte);
            axiom_u8_leading_zeros(byte);
            let zeros = byte.leading_zeros();
            assert(heads == end + zeros) by {
                if heads < end + zeros {
                    assert(bit_at(bytes, heads));
                } else if heads > end + zeros {
                    assert(bit_at(bytes, end + zeros));
                }
            }
            if zeros < 8 {
                lemma_byte_bounds(byte, (7 - zeros) as u8);
            }
        }
    }
}

proof fn lemma_byte_bounds(byte: u8, top: u8)
    requires
        top < 8,
        byte >> ((top + 1) as u8) == 0,
        (byte >> top) & 1 != 0,
    ensures
        pow2(top as nat) <= byte < pow2((top + 1) as nat),
{
    lemma2_to64();
    let above = (top + 1) as u8;
    assert(byte >= (1u16 << (top as u16)) && byte < (1u16 << ((top + 1) as u16))) by (bit_vector)
        requires
            top < 8,
            above == top + 1,
            byte >> above == 0,
            (byte >> top) & 1 != 0,
    ;
    assert(1u16 << 0 == 1 && 1u16 << 1 == 2 && 1u16 << 2 == 4 && 1u16 << 3 == 8 && 1u16 << 4 == 16
        && 1u16 << 5 == 32 && 1u16 << 6 == 64 && 1u16 << 7 == 128 && 1u16 << 8 == 256)
        by (bit_vector);
}

/// Off 128 fair bytes the index is geometric with parameter one half, censored at 1022: of
/// the 2^1024 buffers there are, told apart by the number that each writes, 2^(1023 - i)
/// lead to the index `i` below 1022, and four lead to 1022.
pub proof fn law_index_is_geometric(buffer: Seq<u8>, i: int)
    requires
        buffer.len() == RUN_BYTES,
        0 <= i <= LAST_INDEX,
    ensures
        bytes::be_value(buffer) < pow2(1024),
        first_heads(buffer) == i <==> if i < LAST_INDEX {
            pow2((1023 - i) as nat) <= bytes::be_value(buffer) < pow2((1024 - i) as nat)
        } else {
            bytes::be_value(buffer) < 4
        },
{
    let heads = lemma_has_first_bit(buffer);
    lemma_first_bit_bounds_value(buffer, heads);
    lemma_first_heads(buffer, heads, 0);
    bytes::lemma_be_value_bound(buffer);
    lemma2_to64();
    if heads < 1024 {
        double::lemma_pow2_order((1024 - heads) as nat, 2);
        double::lemma_pow2_order(2, (1023 - heads) as nat);
        double::lemma_pow2_order((1024 - heads) as nat, (1023 - i) as nat);
        double::lemma_pow2_order((1024 - i) as nat, (1023 - heads) as nat);
    } else {
        lemma_pow2_pos((1023 - i) as nat);
    }
}

/// Without constant time the index tells how many bytes were drawn for it: those up to the
/// byte that holds the first heads. In constant time it is always 128 of them.
pub proof fn law_index_tells_the_bytes(tape: Seq<u8>, enforce_constant_time: bool)
    ensures
        read_heads(tape, enforce_constant_time) matches Some((index, length)) ==> length
            == if enforce_constant_time {
            RUN_BYTES as int
        } else {
            index as int / 8 + 1
        },
{
    if let Some((index, length)) = read_heads(tape, enforce_constant_time) {
        lemma_zero_bytes_are_zero(tape);
        let run = tape.take(length as int);
        if !enforce_constant_time {
            let zeros = tape.take(length - 1);
            lemma_zeros_have_no_bit(zeros);
            let byte = run.last();
            lemma_push_byte(zeros, 8 * (length - 1), byte);
            assert(zeros.push(byte) =~= run);
            axiom_u8_leading_zeros(byte);
            lemma_first_heads(run, 8 * (length - 1) + byte.leading_zeros(), 0);
        }
    }
}

proof fn lemma_zeros_have_no_bit(zeros: Seq<u8>)
    requires
        forall|j: int| 0 <= j < zeros.len() ==> zeros[j] == 0,
    ensures
        is_first_bit(zeros, 8 * zeros.len() as int),
{
    assert forall|j: int| 0 <= j < 8 * zeros.len() implies !bit_at(zeros, j) by {
        let k = (7 - j % 8) as u8;
        assert(zeros[j / 8] == 0);
        assert((0u8 >> k) & 1u8 == 0u8) by (bit_vector);
    }
}

/// How many bytes a flip takes does not depend on the bias of the coin, and in constant time
/// it is always 128.
pub proof fn law_flips_do_not_leak_the_bias(
    tape: Seq<u8>,
    prob: Double,
    other: Double,
    enforce_constant_time: bool,
)
    ensures
        match (
            read_coin(tape, prob, enforce_constant_time),
            read_coin(tape, other, enforce_constant_time),
        ) {
            (Some((_, length)), Some((_, other_length))) => {
                &&& length == other_length
                &&& enforce_constant_time ==> length == RUN_BYTES
            },
            (None, None) => true,
            _ => false,
        },
{
}

/// A coin of bias zero never falls on heads, and one of bias one always does.
pub proof fn law_certain_coins(prob: Double, i: int)
    requires
        !prob.is_nan(),
    ensures
        prob.value() == 0 ==> !coin(prob, i),
        prob.value() == pow2(1074) ==> coin(prob, i),
{
    let zero = Double { bits: 0 };
    lemma_pow2_pos(1074);
    double::lemma_magnitude_order(zero, prob);
}

/// The probability of the index `i` in units of 2^-1022.
pub open spec fn index_weight(i: int) -> nat {
    if i < LAST_INDEX {
        pow2((1021 - i) as nat)
    } else {
        1
    }
}

/// The probability, in units of 2^-1022, that the index is below `end` and the coin of bias
/// `prob` falls on heads.
pub open spec fn heads_weight(prob: Double, end: nat) -> nat
    decreases end,
{
    if end == 0 {
        0
    } else {
        heads_weight(prob, (end - 1) as nat) + if coin(prob, end - 1) {
            index_weight(end - 1)
        } else {
            0
        }
    }
}

/// A coin of bias `prob` falls on heads with probability `prob`: exactly, for every bias
/// that is a multiple of 2^-1022, which all from 2^-970 on are, and to within 2^-1022 for
/// all others.
pub proof fn law_coin_has_its_bias(prob: Double)
    requires
        is_probability(prob),
        !prob.is_nan(),
    ensures
        prob.value() % pow2(52) as int == 0 ==> heads_weight(prob, 1023) * pow2(52)
            == prob.value(),
        prob.value() - pow2(52) < heads_weight(prob, 1023) * pow2(52) < prob.value() + pow2(52),
        prob.exponent() >= 53 ==> prob.value() % pow2(52) as int == 0,
{
    lemma_probability_parts(prob);
    lemma2_to64_rest();
    if prob.exponent() >= 53 {
        let e = prob.exponent();
        lemma_pow2_adds(52, (e - 53) as nat);
        let significand = 0x10_0000_0000_0000 + prob.mantissa();
        let rest = pow2((e - 53) as nat) as int;
        let unit = pow2(52) as int;
        assert(significand * (unit * rest) == (significand * rest) * unit) by (nonlinear_arith);
        lemma_mod_multiples_basic(significand * rest, unit);
    }
    if prob.value() == pow2(1074) {
        lemma_heads_weight_of_one(prob, 1022);
        lemma_pow2_adds(1022, 52);
        lemma2_to64();
    } else if prob.exponent() == 0 {
        lemma_heads_weight_of_subnormal(prob, 1023);
        lemma_zero_value(prob);
    } else {
        let value = prob.value();
        assert(value < pow2(1074));
        lemma_heads_weight_of_normal(prob, 1022);
        let q = value / pow2(52) as int;
        lemma2_to64();
        lemma_mul_basics(q);
        lemma_fundamental_div_mod(value, pow2(52) as int);
        lemma_mul_is_commutative(q, pow2(52) as int);
        let d = if coin(prob, 1022) { 1int } else { 0int };
        assert(heads_weight(prob, 1023) == q + d);
        assert((q + d) * pow2(52) == q * pow2(52) + d * pow2(52)) by (nonlinear_arith);
        if value % pow2(52) as int == 0 {
            // the digit behind 2^-1023 is half a unit
            let half = 0x8_0000_0000_0000int;
            assert(value == (2 * q) * half);
            lemma_div_by_multiple(2 * q, half);
            assert(!coin(prob, 1022));
        } else if coin(prob, 1022) {
            assert(d * pow2(52) == pow2(52));
        }
    }
}

proof fn lemma_zero_value(prob: Double)
    requires
        prob.exponent() == 0,
        prob.value() >= 0,
    ensures
        prob.value() < pow2(52),
        prob.value() % pow2(52) as int == 0 ==> prob.value() == 0,
{
    lemma2_to64_rest();
    lemma_small_mod(prob.value() as nat, pow2(52));
}

proof fn lemma_heads_weight_of_one(prob: Double, end: nat)
    requires
        prob.value() == pow2(1074),
        end <= 1022,
    ensures
        heads_weight(prob, end) == pow2(1022) - pow2((1022 - end) as nat),
    decreases end,
{
    if end > 0 {
        lemma_heads_weight_of_one(prob, (end - 1) as nat);
        lemma_pow2_unfold((1023 - end) as nat);
    }
}

proof fn lemma_heads_weight_of_subnormal(prob: Double, end: nat)
    requires
        prob.exponent() == 0,
        0 <= prob.value() < pow2(1074),
    ensures
        heads_weight(prob, end) == 0,
    decreases end,
{
    if end > 0 {
        lemma_heads_weight_of_subnormal(prob, (end - 1) as nat);
    }
}

/// The first `end` digits make up the bias, rounded down.
proof fn lemma_heads_weight_of_normal(prob: Double, end: nat)
    requires
        0 < prob.exponent() < 1023,
        !prob.sign(),
        prob.value() < pow2(1074),
        end <= 1022,
    ensures
        heads_weight(prob, end) == (prob.value() / pow2((1074 - end) as nat) as int) * pow2(
            (1022 - end) as nat,
        ),
    decreases end,
{
    let value = prob.value();
    if end == 0 {
        lemma_basic_div(value, pow2(1074) as int);
        lemma_mul_basics(pow2(1022) as int);
    } else {
        lemma_heads_weight_of_normal(prob, (end - 1) as nat);
        let place = pow2((1074 - end) as nat) as int;
        lemma_pow2_pos((1074 - end) as nat);
        lemma_pow2_unfold((1075 - end) as nat);
        lemma_pow2_unfold((1023 - end) as nat);
        lemma_mul_is_commutative(2, place);
        lemma_div_denominator(value, place, 2);
        let q = value / place;
        let w = pow2((1022 - end) as nat) as int;
        assert(coin(prob, end - 1) == (q % 2 == 1));
        assert((q / 2) * (2 * w) + (q % 2) * w == q * w) by (nonlinear_arith)
            requires
                q == 2 * (q / 2) + q % 2,
        ;
        lemma_mul_basics(w);
    }
}

/// The index is that of the first bit that is set, counted from the most significant bit of the
/// first byte: no earlier bit is set, and the bit of the index is, unless the index is 1022.
/// In constant time there is an index wherever there are 128 bytes; else wherever there is a
/// byte that is not zero, or 128 of them.
pub proof fn law_index_is_the_first_set_bit(tape: Seq<u8>, enforce_constant_time: bool)
    ensures
        read_heads(tape, enforce_constant_time) matches Some((index, length)) ==> {
            &&& 0 <= index <= 1022
            &&& length <= tape.len()
            &&& length == if enforce_constant_time {
                128
            } else {
                index as int / 8 + 1
            }
            &&& forall|j: int|
                0 <= j < index ==> (#[trigger] tape[j / 8] >> ((7 - j % 8) as u8)) & 1 == 0
            &&& index < 1022 ==> (tape[index as int / 8] >> ((7 - index as int % 8) as u8)) & 1 == 1
        },
        read_heads(tape, enforce_constant_time) is None ==> {
            &&& tape.len() < 128
            &&& !enforce_constant_time ==> forall|j: int|
                0 <= j < tape.len() ==> #[trigger] tape[j] == 0
        },
{
    lemma_zero_bytes_are_zero(tape);
    if let Some((index, length)) = read_heads(tape, enforce_constant_time) {
        lemma_index_bound(tape, enforce_constant_time);
        law_index_tells_the_bytes(tape, enforce_constant_time);
        let run = tape.take(length as int);
        let heads = lemma_has_first_bit(run);
        lemma_first_heads(run, heads, 0);
        assert forall|j: int| 0 <= j < index implies (#[trigger] tape[j / 8] >> ((7 - j
            % 8) as u8)) & 1 == 0 by {
            assert(!bit_at(run, j));
            assert(run[j / 8] == tape[j / 8]);
            let b = tape[j / 8] >> ((7 - j % 8) as u8);
            assert(b & 1u8 == 0u8 || b & 1u8 == 1u8) by (bit_vector);
        }
        if index < 1022 {
            assert(bit_at(run, index as int));
            assert(run[index as int / 8] == tape[index as int / 8]);
        }
    }
}

/// A biased coin shows a digit of its bias: where the first heads of the fair coins has index
/// `i`, the digit behind 2^-(i+1), which is set where the bias, without the digits ahead of it,
/// still amounts to 2^-(i+1). A bias of one has no digit that is not set. The smallest biases,
/// below 2^-1022, and what is no number have none that is.
pub proof fn law_flips_show_the_digits_of_the_bias(
    tape: Seq<u8>,
    prob: Double,
    enforce_constant_time: bool,
)
    ensures
        match (
            read_coin(tape, prob, enforce_constant_time),
            read_heads(tape, enforce_constant_time),
        ) {
            (Some((bit, length)), Some((index, same_length))) => {
                &&& length == same_length
                &&& prob.is_nan() ==> !bit
                &&& !prob.is_nan() && 0 <= prob.value() < pow2(52) ==> !bit
                &&& !prob.is_nan() && prob.value() == pow2(1074) ==> bit
                &&& !prob.is_nan() && pow2(52) <= prob.value() < pow2(1074) ==> bit
                    == (prob.value() % pow2((1074 - index) as nat) as int >= pow2(
                    (1073 - index) as nat,
                ))
            },
            (None, None) => true,
            _ => false,
        },
{
    lemma_index_bound(tape, enforce_constant_time);
    lemma2_to64_rest();
    let one = Double { bits: 0x3ff0_0000_0000_0000 };
    double::lemma_one(one);
    double::lemma_magnitude_order(one, prob);
    double::lemma_pow2_order(52, 1074);
    lemma_pow2_strictly_increases(52, 1074);
    let first = Double { bits: 0x10_0000_0000_0000 };
    assert(first.magnitude() == pow2(52)) by {
        lemma2_to64();
        assert(first.exponent() == 1 && first.mantissa() == 0);
        lemma_mul_basics(0x10_0000_0000_0000);
    }
    double::lemma_magnitude_order(prob, first);
    if let Some((index, _)) = read_heads(tape, enforce_constant_time) {
        let place = pow2((1073 - index) as nat) as int;
        lemma_pow2_pos((1073 - index) as nat);
        lemma_pow2_unfold((1074 - index) as nat);
        lemma_mul_is_commutative(2, place);
        let value = prob.value();
        if value >= 0 {
            lemma_mod_breakdown(value, place, 2);
            lemma_mod_bound(value, place);
            let digit = (value / place) % 2;
            assert(place * digit == if digit == 1 {
                place
            } else {
                0
            }) by {
                lemma_mul_basics(place);
            }
        }
    }
}

/// The index that is drawn is the one that the bytes drawn for it hold. In constant time they
/// are drawn by one request for 128 bytes, else by a request for each single byte. The draw
/// fails only before the bytes hold an index.
pub proof fn law_indices_are_read_off_the_bytes(
    source: &mut ByteSource,
    enforce_constant_time: bool,
    index: Result<i16, Error>,
)
    requires
        old(source).wf(),
        call_ensures(ByteSource::censored_specific_geom, (source, enforce_constant_time), index),
    ensures
        ({
            let (before, after) = (*old(source), *final(source));
            let bytes = after.drawn().skip(before.drawn().len() as int);
            let requests = after.requests().skip(before.requests().len() as int);
            &&& after.wf() && after.script() == before.script()
            &&& after.drawn() == before.drawn() + bytes
            &&& after.requests() == before.requests() + requests
            &&& index matches Ok(index) ==> {
                &&& read_heads(bytes, enforce_constant_time) == Some((index, bytes.len()))
                &&& enforce_constant_time ==> requests == seq![128nat]
                &&& !enforce_constant_time ==> requests.len() == bytes.len() && forall|j: int|
                    0 <= j < requests.len() ==> #[trigger] requests[j] == 1
            }
            &&& index matches Err(error) ==> {
                &&& error == Error::Entropy
                &&& before.script() matches Some(script) ==> read_heads(
                    script.skip(before.drawn().len() as int),
                    enforce_constant_time,
                ) is None
            }
        }),
{
    let (before, after) = (*old(source), *final(source));
    if index is Ok && enforce_constant_time {
        assert(before.asked(after) =~= seq![128nat]);
    }
}

/// A flip of a biased coin is refused, and nothing drawn, where the bias is a number below zero
/// or above one, and only there. Else it is read off the bytes drawn for it. Which bytes are
/// asked for does not depend on the bias.
pub proof fn law_biased_flips_are_read_off_the_bytes(
    source: &mut ByteSource,
    prob: Double,
    enforce_constant_time: bool,
    bit: Result<bool, Error>,
)
    requires
        old(source).wf(),
        call_ensures(ByteSource::sample_bit_prob, (source, prob, enforce_constant_time), bit),
    ensures
        ({
            let (before, after) = (*old(source), *final(source));
            let bytes = after.drawn().skip(before.drawn().len() as int);
            let requests = after.requests().skip(before.requests().len() as int);
            let refused = !prob.is_nan() && (prob.value() < 0 || prob.value() > pow2(1074));
            &&& refused ==> bit == Err::<bool, Error>(Error::ProbabilityOutOfRange) && after
                == before
            &&& !refused ==> after.script() == before.script() && after.drawn() == before.drawn()
                + bytes
            &&& bit matches Ok(bit) ==> {
                &&& read_coin(bytes, prob, enforce_constant_time) == Some((bit, bytes.len()))
                &&& enforce_constant_time ==> requests == seq![128nat]
                &&& !enforce_constant_time ==> requests.len() == bytes.len() && forall|j: int|
                    0 <= j < requests.len() ==> #[trigger] requests[j] == 1
            }
            &&& bit matches Err(error) ==> !refused ==> {
                &&& error == Error::Entropy
                &&& before.script() matches Some(script) ==> read_coin(
                    script.skip(before.drawn().len() as int),
                    prob,
                    enforce_constant_time,
                ) is None
            }
        }),
{
    let (before, after) = (*old(source), *final(source));
    if bit is Ok && enforce_constant_time {
        law_index_is_the_first_set_bit(before.taken(after), true);
        assert(before.asked(after) =~= seq![128nat]);
    }
}

/// A fair coin shows the lowest bit of a byte that is drawn for it. A script without a byte
/// left cannot be flipped, and any other can.
pub proof fn law_fair_flips_are_low_bits(source: &mut ByteSource, bit: Result<bool, Error>)
    requires
        old(source).wf(),
        call_ensures(ByteSource::sample_bit, (source,), bit),
    ensures
        ({
            let (before, after) = (*old(source), *final(source));
            &&& after.script() == before.script()
            &&& after.requests() == before.requests().push(1)
            &&& bit matches Ok(bit) ==> {
                &&& after.drawn().len() == before.drawn().len() + 1
                &&& after.drawn().drop_last() == before.drawn()
                &&& bit == (after.drawn().last() % 2 == 1)
            }
            &&& bit matches Err(error) ==> error == Error::Entropy
            &&& before.script() matches Some(script) ==> {
                &&& bit is Ok <==> before.drawn().len() < script.len()
                &&& bit is Ok ==> after.drawn().last() == script[before.drawn().len() as int]
            }
        }),
{
    let (before, after) = (*old(source), *final(source));
    before.lemma_drawn_is_prefix();
    after.lemma_drawn_is_prefix();
    assert(after.requests() =~= before.requests().push(1));
    if bit is Ok {
        assert(after.drawn().drop_last() =~= before.drawn());
    }
}

/// The flips and indices of the system's generator are read off some bytes, as those of any
/// source are, and refused for the same biases.
pub proof fn law_system_draws_are_read_off_bytes(
    prob: Double,
    enforce_constant_time: bool,
    index: Result<i16, Error>,
    flip: Result<bool, Error>,
    fair: Result<bool, Error>,
)
    requires
        call_ensures(censored_specific_geom, (enforce_constant_time,), index),
        call_ensures(sample_bit_prob, (prob, enforce_constant_time), flip),
        call_ensures(sample_bit, (), fair),
    ensures
        match index {
            Ok(index) => exists|bytes: Seq<u8>| #[trigger]
                read_heads(bytes, enforce_constant_time) == Some((index, bytes.len())),
            Err(error) => error == Error::Entropy,
        },
        ({
            let refused = !prob.is_nan() && (prob.value() < 0 || prob.value() > pow2(1074));
            match flip {
                Ok(flip) => !refused && exists|bytes: Seq<u8>| #[trigger]
                    read_coin(bytes, prob, enforce_constant_time) == Some((flip, bytes.len())),
                Err(error) => error == if refused {
                    Error::ProbabilityOutOfRange
                } else {
                    Error::Entropy
                },
            }
        }),
        match fair {
            Ok(fair) => exists|bytes: Seq<u8>|
                bytes.len() == 1 && fair == (#[trigger] bytes[0] % 2 == 1),
            Err(error) => error == Error::Entropy,
        },
        exists|source: &mut ByteSource| #[trigger]
            call_ensures(ByteSource::censored_specific_geom, (source, enforce_constant_time), index) && source.wf() && source.script() is None,
        exists|source: &mut ByteSource| #[trigger]
            call_ensures(ByteSource::sample_bit_prob, (source, prob, enforce_constant_time), flip) && source.wf() && source.script() is None,
        exists|source: &mut ByteSource| #[trigger]
            call_ensures(ByteSource::sample_bit, (source,), fair) && source.wf() && source.script() is None,
{
    if let Ok(fair) = fair {
        let bytes = choose|bytes: Seq<u8>| #[trigger] read_bit(bytes) == Some((fair, bytes.len()));
        assert(bytes.len() == 1 && fair == (bytes[0] % 2 == 1));
    }
}

/// The weight of an index counts the buffers of 128 bytes that lead to it, in fours.
pub proof fn law_weights_count_buffers(i: int)
    requires
        0 <= i <= 1022,
    ensures
        4 * index_weight(i) == if i < 1022 {
            pow2((1024 - i) as nat) - pow2((1023 - i) as nat)
        } else {
            4
        },
{
    if i < 1022 {
        lemma_pow2_unfold((1024 - i) as nat);
        lemma_pow2_unfold((1023 - i) as nat);
        lemma_pow2_unfold((1022 - i) as nat);
    }
}

} // verus!
