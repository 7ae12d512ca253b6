//! Uniform draws: whole numbers between two bounds, and doubles of the unit interval.
use crate::bytes;
use crate::coin::{self, LAST_INDEX};
use crate::double::{self, Double};
use crate::error::Error;
use crate::source::{self, ByteSource};
use vstd::arithmetic::div_mod::*;
use vstd::arithmetic::mul::*;
use vstd::arithmetic::power2::*;
use vstd::prelude::*;

verus! {

/// How many draws may be rejected in a row. As any draw is accepted with a probability
/// above 2^-10, a source that goes on being rejected is broken.
pub const MAX_REJECTIONS: u128 = 0x1_0000_0000_0000_0000;

/// The base two logarithm of `n`, rounded up: the bits that it takes to tell `n` things
/// apart.
pub open spec fn ceil_log2(n: nat) -> nat
    decreases n,
{
    if n <= 1 {
        0
    } else {
        1 + ceil_log2((n + 1) / 2)
    }
}

/// How far above 2^55 a number can be and still have the logarithm 55 in double precision.
/// Logarithms of that size are multiples of 2^-47, and the number itself becomes a multiple of
/// eight first. The logarithm of 2^55 + 88 lies closer to 55 than to the next double, and that
/// of 2^55 + 96 does not.
pub const ROUNDED_OFF: u64 = 91;

/// The base two logarithm of `n` in double precision, rounded up.
pub open spec fn rounded_log2(n: nat) -> nat {
    if 0x80_0000_0000_0000 < n <= 0x80_0000_0000_0000 + ROUNDED_OFF {
        55
    } else {
        ceil_log2(n)
    }
}

/// How many bytes are drawn to pick one of `n` numbers: a byte for every eight bits of the
/// logarithm, and one more.
pub open spec fn draw_width(n: nat) -> nat {
    rounded_log2(n) / 8 + 1
}

/// Reads one of the `n` numbers from `min` on off `tape`: the first number below `n` that is
/// written, the least significant byte first, by the next so many bytes.
pub open spec fn read_uniform_int(tape: Seq<u8>, min: int, n: nat) -> Option<(i64, nat)>
    decreases tape.len(),
{
    let width = draw_width(n);
    if tape.len() < width {
        None
    } else {
        let number = bytes::le_value(tape.take(width as int));
        if number < n {
            Some(((min + number) as i64, width))
        } else {
            match read_uniform_int(tape.skip(width as int), min, n) {
                Some((value, length)) => Some((value, width + length)),
                None => None,
            }
        }
    }
}

/// `ceil_log2(n)` is the least exponent at which a power of two reaches `n`.
pub proof fn lemma_ceil_log2(n: nat)
    ensures
        n <= pow2(ceil_log2(n)),
        n > 1 ==> ceil_log2(n) > 0 && pow2((ceil_log2(n) - 1) as nat) < n,
    decreases n,
{
    lemma2_to64();
    if n > 1 {
        let half = (n + 1) / 2;
        lemma_ceil_log2(half);
        lemma_pow2_unfold(ceil_log2(n));
        if half > 1 {
            lemma_pow2_unfold(ceil_log2(half));
        }
    }
}

proof fn lemma_ceil_log2_unique(n: nat, exponent: nat)
    requires
        n <= pow2(exponent),
        exponent > 0 ==> pow2((exponent - 1) as nat) < n,
        n > 0,
    ensures
        exponent == ceil_log2(n),
{
    lemma_ceil_log2(n);
    lemma2_to64();
    let k = ceil_log2(n);
    if n == 1 {
        if exponent > 0 {
            lemma_pow2_pos((exponent - 1) as nat);
        }
    } else if exponent < k {
        double::lemma_pow2_order(exponent, (k - 1) as nat);
    } else if exponent > k {
        double::lemma_pow2_order(k, (exponent - 1) as nat);
    }
}

/// The bytes that are drawn can write every number below `n`.
proof fn lemma_draw_width(n: nat)
    ensures
        n <= pow2(8 * draw_width(n)),
{
    lemma_ceil_log2(n);
    lemma2_to64_rest();
    if rounded_log2(n) == ceil_log2(n) {
        double::lemma_pow2_order(ceil_log2(n), 8 * draw_width(n));
    }
}

/// Counts the bytes to draw for `n` numbers.
fn byte_count(n: u64) -> (count: usize)
    requires
        0 < n <= 0x7fff_ffff_ffff_ffff,
    ensures
        count == draw_width(n as nat),
        1 <= count <= 8,
{
    if 0x80_0000_0000_0000 < n && n <= 0x80_0000_0000_0000 + ROUNDED_OFF {
        return 7;
    }
    let mut exponent: usize = 0;
    let mut power: u64 = 1;
    proof {
        lemma2_to64();
        lemma2_to64_rest();
    }
    while power < n
        invariant
            0 < n <= 0x7fff_ffff_ffff_ffff,
            power == pow2(exponent as nat),
            exponent <= 63,
            exponent > 0 ==> pow2((exponent - 1) as nat) < n,
            pow2(63) == 0x8000_0000_0000_0000,
        decreases 63 - exponent,
    {
        proof {
            lemma_pow2_unfold((exponent + 1) as nat);
        }
        power = power * 2;
        exponent = exponent + 1;
    }
    proof {
        lemma_ceil_log2_unique(n as nat, exponent as nat);
    }
    exponent / 8 + 1
}

/// `tape` is made of chunks that are all rejected.
spec fn all_rejected(tape: Seq<u8>, n: nat) -> bool
    decreases tape.len(),
{
    let width = draw_width(n);
    tape.len() == 0 || (tape.len() >= width && bytes::le_value(tape.take(width as int)) >= n
        && all_rejected(tape.skip(width as int), n))
}

proof fn lemma_reject_one_more(tape: Seq<u8>, chunk: Seq<u8>, n: nat)
    requires
        all_rejected(tape, n),
        chunk.len() == draw_width(n),
        bytes::le_value(chunk) >= n,
    ensures
        all_rejected(tape + chunk, n),
    decreases tape.len(),
{
    let width = draw_width(n) as int;
    let longer = tape + chunk;
    if tape.len() == 0 {
        assert(longer =~= chunk);
        assert(longer.take(width) =~= chunk);
        assert(longer.skip(width) =~= Seq::<u8>::empty());
        assert(all_rejected(longer.skip(width), n));
    } else {
        lemma_reject_one_more(tape.skip(width), chunk, n);
        assert(longer.take(width) =~= tape.take(width));
        assert(longer.skip(width) =~= tape.skip(width) + chunk);
    }
}

/// What was rejected is skipped.
proof fn lemma_skip_rejected(tape: Seq<u8>, rest: Seq<u8>, min: int, n: nat)
    requires
        all_rejected(tape, n),
    ensures
        read_uniform_int(tape + rest, min, n) == match read_uniform_int(rest, min, n) {
            Some((value, length)) => Some((value, tape.len() + length)),
            None => None,
        },
    decreases tape.len(),
{
    let width = draw_width(n) as int;
    let longer = tape + rest;
    if tape.len() == 0 {
        assert(longer =~= rest);
    } else {
        lemma_skip_rejected(tape.skip(width), rest, min, n);
        assert(longer.take(width) =~= tape.take(width));
        assert(longer.skip(width) =~= tape.skip(width) + rest);
    }
}

/// Of the buffers that can be drawn to pick one of `n` numbers, more than one in 2^10 is
/// accepted.
pub proof fn law_acceptance_is_likely(n: nat)
    requires
        n > 0,
    ensures
        n * pow2(10) > pow2(8 * draw_width(n)),
{
    lemma_ceil_log2(n);
    lemma2_to64();
    lemma2_to64_rest();
    let k = ceil_log2(n);
    if rounded_log2(n) == k {
        double::lemma_pow2_order(8 * draw_width(n), k + 8);
        if n > 1 {
            lemma_pow2_adds((k - 1) as nat, 9);
        }
    }
}

/// Every number that is read lies between the bounds.
pub proof fn law_uniform_int_within_bounds(tape: Seq<u8>, min: i64, max: i64)
    requires
        min <= max,
    ensures
        read_uniform_int(tape, min as int, (max - min + 1) as nat) matches Some((value, _)) ==> min
            <= value <= max,
    decreases tape.len(),
{
    let width = draw_width((max - min + 1) as nat) as int;
    if tape.len() >= width {
        law_uniform_int_within_bounds(tape.skip(width), min, max);
    }
}

/// Each number between the bounds is picked by exactly one of the buffers that can be drawn,
/// and so all of them are equally likely.
pub proof fn law_uniform_int_is_uniform(buffer: Seq<u8>, value: i64, min: i64, max: i64)
    requires
        min <= value <= max,
        buffer.len() == draw_width((max - min + 1) as nat),
    ensures
        read_uniform_int(buffer, min as int, (max - min + 1) as nat) == Some(
            (value, buffer.len()),
        ) <==> buffer == bytes::le_bytes((value - min) as nat, buffer.len()),
{
    let n = (max - min + 1) as nat;
    lemma_draw_width(n);
    bytes::law_le_bytes(buffer, (value - min) as nat);
    assert(buffer.take(buffer.len() as int) =~= buffer);
    assert(read_uniform_int(buffer.skip(buffer.len() as int), min as int, n) is None);
}

impl ByteSource {
    /// Draws a whole number between `min` and `max`, both included.
    ///
    /// A number is read off as many bytes as `draw_width` says, and drawn anew while it is
    /// too large. A source that is rejected 2^64 times in a row is given up.
    pub fn sample_uniform_int(&mut self, min: i64, max: i64) -> (number: Result<i64, Error>)
        requires
            old(self).wf(),
            max - min < i64::MAX,
        ensures
            min > max ==> number == Err::<i64, Error>(Error::MinAboveMax) && *final(self) == *old(
                self,
            ),
            min <= max ==> old(self).reads(
                *final(self),
                |tape: Seq<u8>| read_uniform_int(tape, min as int, (max - min + 1) as nat),
                number,
            ),
            number matches Ok(number) ==> min <= number <= max,
            number is Ok ==> {
                let width = draw_width((max - min + 1) as nat);
                let draws = old(self).asked(*final(self)).len();
                &&& old(self).asked(*final(self)) == source::repeated(width, draws)
                &&& old(self).taken(*final(self)).len() == width * draws
            },
    {
        if min > max {
            return Err(Error::MinAboveMax);
        }
        let n: u64 = (max as i128 - min as i128 + 1) as u64;
        let width: usize = byte_count(n);
        let ghost before = *self;
        proof {
            before.lemma_still();
        }
        let mut rejections: u128 = 0;
        while rejections < MAX_REJECTIONS
            invariant
                before == *old(self),
                before.wf(),
                before.advances_to(*self),
                min <= max,
                n == max - min + 1,
                width == draw_width(n as nat),
                1 <= width <= 8,
                rejections <= MAX_REJECTIONS,
                before.taken(*self).len() == width * rejections,
                before.asked(*self) == source::repeated(width as nat, rejections as nat),
                all_rejected(before.taken(*self), n as nat),
            decreases MAX_REJECTIONS - rejections,
        {
            let ghost reached = *self;
            let ghost rejected = before.taken(*self);
            let buffer: Vec<u8> = match self.fill_bytes(width) {
                Ok(buffer) => buffer,
                Err(error) => {
                    proof {
                        before.lemma_chain(reached, *self);
                        lemma_skip_rejected(rejected, Seq::empty(), min as int, n as nat);
                        if before.script() is Some {
                            lemma_skip_rejected(
                                rejected,
                                reached.remaining(),
                                min as int,
                                n as nat,
                            );
                        }
                    }
                    return Err(error);
                },
            };
            let number: u64 = bytes::from_le_bytes(buffer.as_slice());
            proof {
                before.lemma_chain(reached, *self);
                assert(buffer@.take(width as int) =~= buffer@);
                assert(before.asked(*self) =~= source::repeated(
                    width as nat,
                    (rejections + 1) as nat,
                ));
                assert(width * (rejections + 1) == width * rejections + width)
                    by (nonlinear_arith);
            }
            if number < n {
                proof {
                    lemma_skip_rejected(rejected, buffer@, min as int, n as nat);
                }
                return Ok((min as i128 + number as i128) as i64);
            }
            proof {
                lemma_reject_one_more(rejected, buffer@, n as nat);
            }
            rejections = rejections + 1;
        }
        proof {
            let rejected = before.taken(*self);
            lemma_skip_rejected(rejected, Seq::empty(), min as int, n as nat);
            assert(rejected + Seq::<u8>::empty() =~= rejected);
            if before.script() is Some {
                assert(width * rejections >= rejections) by (nonlinear_arith)
                    requires
                        width >= 1,
                ;
                self.lemma_script_bound();
            }
        }
        Err(Error::Entropy)
    }
}

/// Draws a whole number between `min` and `max`, both included, with the system's
/// generator.
pub fn sample_uniform_int(min: i64, max: i64) -> (number: Result<i64, Error>)
    requires
        max - min < i64::MAX,
    ensures
        match number {
            Ok(number) => {
                &&& min <= number <= max
                &&& exists|tape: Seq<u8>| #[trigger]
                    read_uniform_int(tape, min as int, (max - min + 1) as nat) == Some(
                        (number, tape.len()),
                    )
            },
            Err(error) => error == if min <= max {
                Error::Entropy
            } else {
                Error::MinAboveMax
            },
        },
        exists|source: &mut ByteSource| #[trigger]
            call_ensures(ByteSource::sample_uniform_int, (source, min, max), number) && source.wf() && source.script() is None,
{
    ByteSource::system().sample_uniform_int(min, max)
}

/// The double of the unit interval that 56 random bits and the index of the first heads make
/// up: the index says how many zeros lead its digits, and the lower 52 bits are those behind
/// the first digit.
pub open spec fn unit_double(word: nat, index: int) -> Double {
    Double { bits: ((1022 - index) * 0x10_0000_0000_0000 + word % 0x10_0000_0000_0000) as u64 }
}

/// Reads a double of the unit interval off `tape`: seven bytes, the most significant first,
/// and then the index of the first heads.
pub open spec fn read_unit(tape: Seq<u8>, enforce_constant_time: bool) -> Option<(Double, nat)> {
    if tape.len() < 7 {
        None
    } else {
        match coin::read_heads(tape.skip(7), enforce_constant_time) {
            Some((index, length)) => Some(
                (unit_double(bytes::be_value(tape.take(7)), index as int), 7 + length),
            ),
            None => None,
        }
    }
}

/// A draw from the interval from `min` up to `max`, as the double `unit` of the unit
/// interval that is still to be spread over it: the draw is `unit * (max - min) + min`.
#[derive(Clone, Copy, Debug)]
pub struct UniformDraw {
    pub unit: Double,
    pub min: Double,
    pub max: Double,
}

impl UniformDraw {
    /// Whether `spread` is the upper end of an interval that does not include it. An
    /// interval without a width, or without a finite end, has no other draws to offer.
    pub open spec fn is_excluded_end(self, spread: Double) -> bool {
        &&& self.min.below(self.max)
        &&& self.max.exponent() < 2047
        &&& !spread.is_nan()
        &&& spread.value() == self.max.value()
    }

    /// Looks at the draw once it has been spread over the interval: `None` where rounding has
    /// taken it to the upper end, and another one is to be made.
    pub fn accept(&self, spread: Double) -> (accepted: Option<Double>)
        ensures
            accepted == if self.is_excluded_end(spread) {
                None
            } else {
                Some(spread)
            },
    {
        let (_, exponent, _) = self.max.decompose_raw();
        if self.min < self.max && exponent < 2047 && spread == self.max {
            None
        } else {
            Some(spread)
        }
    }
}

/// Reads a draw from the interval from `min` up to `max` off `tape`.
pub open spec fn read_uniform(
    tape: Seq<u8>,
    min: Double,
    max: Double,
    enforce_constant_time: bool,
) -> Option<(UniformDraw, nat)> {
    match read_unit(tape, enforce_constant_time) {
        Some((unit, length)) => Some((UniformDraw { unit, min, max }, length)),
        None => None,
    }
}

/// The requests by which a double of the unit interval draws `length` bytes.
pub open spec fn unit_requests(length: nat, enforce_constant_time: bool) -> Seq<nat> {
    seq![7nat] + coin::heads_requests((length - 7) as nat, enforce_constant_time)
}

proof fn lemma_unit_parts(word: nat, index: int)
    requires
        0 <= index <= LAST_INDEX,
    ensures
        !unit_double(word, index).sign(),
        unit_double(word, index).exponent() == 1022 - index,
        unit_double(word, index).mantissa() == word % 0x10_0000_0000_0000,
{
}

/// The precision bands: the index picks the band from 2^-(index+1) up to 2^-index, and the
/// draw falls into it. The last index picks what is left below 2^-1022. Within its band the
/// draw is the one whose mantissa is the lower 52 of the 56 random bits, so that each double
/// of the band comes of sixteen of the 2^56 words.
pub proof fn law_unit_falls_into_its_band(word: nat, index: int)
    requires
        0 <= index <= LAST_INDEX,
    ensures
        !unit_double(word, index).is_nan(),
        index < LAST_INDEX ==> pow2((1073 - index) as nat) <= unit_double(word, index).value()
            < pow2((1074 - index) as nat),
        index == LAST_INDEX ==> 0 <= unit_double(word, index).value() < pow2(52),
        unit_double(word, index).mantissa() == word % pow2(52),
{
    lemma_unit_parts(word, index);
    lemma2_to64_rest();
    let unit = unit_double(word, index);
    if index < LAST_INDEX {
        let place = pow2((1021 - index) as nat) as int;
        let m = unit.mantissa();
        lemma_pow2_pos((1021 - index) as nat);
        lemma_pow2_adds(52, (1021 - index) as nat);
        lemma_pow2_unfold((1074 - index) as nat);
        assert(0x10_0000_0000_0000 * place <= (0x10_0000_0000_0000 + m) * place
            < 0x20_0000_0000_0000 * place) by (nonlinear_arith)
            requires
                0 <= m < 0x10_0000_0000_0000,
                place > 0,
        ;
    }
}

/// How many of the first `end` mantissas make up, with the index, a double below `t`.
pub open spec fn mantissas_below(t: Double, index: int, end: nat) -> nat
    decreases end,
{
    if end == 0 {
        0
    } else {
        mantissas_below(t, index, (end - 1) as nat) + if unit_double(
            (end - 1) as nat,
            index,
        ).below(t) {
            1nat
        } else {
            0
        }
    }
}

/// The probability, in units of 2^-1074, that the index is below `end` and the draw from the
/// unit interval is below `t`. The index has the probability that a fair coin gives it, and
/// each of the 2^52 mantissas is as likely as the others.
pub open spec fn weight_below(t: Double, end: nat) -> nat
    decreases end,
{
    if end == 0 {
        0
    } else {
        weight_below(t, (end - 1) as nat) + coin::index_weight(end - 1) * mantissas_below(
            t,
            end - 1,
            pow2(52),
        )
    }
}

/// The draws from the unit interval are uniform: for every double `t` between zero and one,
/// a draw is below `t` with probability `t`, exactly.
pub proof fn law_unit_is_uniform(t: Double)
    requires
        !t.is_nan(),
        0 <= t.value() <= pow2(1074),
    ensures
        weight_below(t, 1023) == t.value(),
{
    coin::lemma_probability_parts(t);
    lemma2_to64();
    lemma2_to64_rest();
    let many = pow2(52) as int;
    let last = mantissas_below(t, 1022, pow2(52)) as int;
    assert(weight_below(t, 1023) == weight_below(t, 1022) + last) by {
        lemma_mul_basics(last);
    }
    if t.value() == pow2(1074) {
        lemma_weight_below_one(t, 1022);
        lemma_mantissas_below(t, 1022, pow2(52), pow2(52));
        lemma_pow2_adds(1022, 52);
        let all = pow2(1022) as int;
        assert((all - 1) * many + many == all * many) by (nonlinear_arith);
    } else if t.exponent() == 0 {
        lemma_weight_below_subnormal(t, 1022);
        assert(t.value() == t.mantissa()) by {
            double::lemma_magnitude_order(Double { bits: 0 }, t);
        }
        lemma_mantissas_below(t, 1022, t.mantissa() as nat, pow2(52));
    } else {
        lemma_weight_below_normal(t, 1022);
        lemma_mantissas_below(t, 1022, pow2(52), pow2(52));
        let place = pow2((t.exponent() - 1) as nat) as int;
        let m = t.mantissa();
        assert(weight_below(t, 1022) == place * m + (place - 1) * many);
        assert(place * m + (place - 1) * many + many == (many + m) * place) by (nonlinear_arith);
    }
}

/// Where the mantissas below `bound` make up doubles below `t` and no others do.
spec fn splits_at(t: Double, index: int, bound: nat) -> bool {
    forall|m: nat| m < pow2(52) ==> (#[trigger] unit_double(m, index).below(t) <==> m < bound)
}

proof fn lemma_count_below(t: Double, index: int, bound: nat, end: nat)
    requires
        splits_at(t, index, bound),
        end <= pow2(52),
    ensures
        mantissas_below(t, index, end) == if end < bound {
            end
        } else {
            bound
        },
    decreases end,
{
    if end > 0 {
        lemma_count_below(t, index, bound, (end - 1) as nat);
    }
}

/// Counts the mantissas below `t` in the band of an index: all of them in the bands below
/// that of `t`, none in the bands above it, and those below the mantissa of `t` in its own.
proof fn lemma_mantissas_below(t: Double, index: int, bound: nat, end: nat)
    requires
        !t.is_nan(),
        0 <= t.value() <= pow2(1074),
        0 <= index <= LAST_INDEX,
        end == pow2(52),
        bound == if 1022 - index < t.exponent() {
            pow2(52)
        } else if 1022 - index > t.exponent() {
            0
        } else {
            t.mantissa() as nat
        },
    ensures
        mantissas_below(t, index, end) == bound,
{
    coin::lemma_probability_parts(t);
    lemma2_to64_rest();
    assert forall|m: nat| m < pow2(52) implies (#[trigger] unit_double(m, index).below(t) <==> m
        < bound) by {
        let unit = unit_double(m, index);
        lemma_unit_parts(m, index);
        lemma_small_mod(m, 0x10_0000_0000_0000);
        double::lemma_magnitude_order(unit, t);
        double::lemma_magnitude_order(Double { bits: 0 }, t);
    }
    lemma_count_below(t, index, bound, end);
}

proof fn lemma_weight_below_one(t: Double, end: nat)
    requires
        !t.is_nan(),
        t.value() == pow2(1074),
        end <= 1022,
    ensures
        weight_below(t, end) == (pow2(1022) - pow2((1022 - end) as nat)) * pow2(52),
    decreases end,
{
    if end == 0 {
        lemma_mul_basics(pow2(52) as int);
    } else {
        lemma_weight_below_one(t, (end - 1) as nat);
        coin::lemma_probability_parts(t);
        lemma_mantissas_below(t, end - 1, pow2(52), pow2(52));
        lemma_pow2_unfold((1023 - end) as nat);
        let all = pow2(1022) as int;
        let many = pow2(52) as int;
        let w = pow2((1022 - end) as nat) as int;
        assert((all - 2 * w) * many + w * many == (all - w) * many) by (nonlinear_arith);
    }
}

proof fn lemma_weight_below_subnormal(t: Double, end: nat)
    requires
        !t.is_nan(),
        0 <= t.value() <= pow2(1074),
        t.exponent() == 0,
        end <= 1022,
    ensures
        weight_below(t, end) == 0,
    decreases end,
{
    if end > 0 {
        lemma_weight_below_subnormal(t, (end - 1) as nat);
        lemma_mantissas_below(t, end - 1, 0, pow2(52));
        lemma_mul_basics(coin::index_weight(end - 1) as int);
    }
}

proof fn lemma_weight_below_normal(t: Double, end: nat)
    requires
        !t.is_nan(),
        0 <= t.value() < pow2(1074),
        t.exponent() > 0,
        end <= 1022,
    ensures
        ({
            let band = 1022 - t.exponent();
            let place = pow2((t.exponent() - 1) as nat);
            weight_below(t, end) == if end <= band {
                0
            } else {
                place * t.mantissa() + (place - pow2((1022 - end) as nat)) * pow2(52)
            }
        }),
    decreases end,
{
    coin::lemma_probability_parts(t);
    if end > 0 {
        lemma_weight_below_normal(t, (end - 1) as nat);
        let band = 1022 - t.exponent();
        let place = pow2((t.exponent() - 1) as nat) as int;
        let many = pow2(52) as int;
        let w = pow2((1022 - end) as nat) as int;
        if end <= band {
            lemma_mantissas_below(t, end - 1, 0, pow2(52));
            lemma_mul_basics(coin::index_weight(end - 1) as int);
        } else if end == band + 1 {
            lemma_mantissas_below(t, end - 1, t.mantissa() as nat, pow2(52));
            assert(w == place);
            lemma_mul_basics(many);
        } else {
            lemma_mantissas_below(t, end - 1, pow2(52), pow2(52));
            lemma_pow2_unfold((1023 - end) as nat);
            assert((place - 2 * w) * many + w * many == (place - w) * many) by (nonlinear_arith);
        }
    }
}

/// Every draw from the unit interval is a number from zero on and below one.
pub proof fn law_unit_is_below_one(tape: Seq<u8>, enforce_constant_time: bool)
    ensures
        read_unit(tape, enforce_constant_time) matches Some((unit, _)) ==> {
            &&& !unit.is_nan()
            &&& 0 <= unit.value() < pow2(1074)
        },
{
    if tape.len() >= 7 {
        let rest = tape.skip(7);
        if let Some((index, _)) = coin::read_heads(rest, enforce_constant_time) {
            coin::lemma_index_bound(rest, enforce_constant_time);
            law_unit_falls_into_its_band(bytes::be_value(tape.take(7)), index as int);
            if index < LAST_INDEX {
                double::lemma_pow2_order((1074 - index) as nat, 1074);
            } else {
                double::lemma_pow2_order(52, 1074);
            }
        }
    }
}

impl ByteSource {
    /// Draws a double of the unit interval, one excluded.
    pub(crate) fn sample_unit(&mut self, enforce_constant_time: bool) -> (unit: Result<Double, Error>)
        requires
            old(self).wf(),
        ensures
            old(self).reads(
                *final(self),
                |tape: Seq<u8>| read_unit(tape, enforce_constant_time),
                unit,
            ),
            unit is Ok ==> old(self).asked(*final(self)) == unit_requests(
                old(self).taken(*final(self)).len(),
                enforce_constant_time,
            ),
            unit matches Ok(unit) ==> !unit.is_nan() && 0 <= unit.value() < pow2(1074),
    {
        let ghost before = *self;
        let buffer: Vec<u8> = match self.fill_bytes(7) {
            Ok(buffer) => buffer,
            Err(error) => return Err(error),
        };
        let ghost middle = *self;
        let word: u64 = bytes::from_be_bytes(buffer.as_slice());
        let drawn = self.censored_specific_geom(enforce_constant_time);
        proof {
            before.lemma_chain(middle, *self);
            let taken = before.taken(*self);
            law_unit_is_below_one(taken, enforce_constant_time);
            assert(taken.take(7) =~= buffer@);
            assert(taken.skip(7) =~= middle.taken(*self));
            if before.script() is Some {
                assert(before.remaining().skip(7) =~= middle.remaining());
            }
        }
        let index: i16 = match drawn {
            Ok(index) => index,
            Err(error) => return Err(error),
        };
        let unit = Double::recompose(false, -(1 + index), word % 0x10_0000_0000_0000);
        proof {
            lemma_unit_parts(word as nat, index as int);
            double::law_parts_determine_a_double(
                unit,
                unit_double(word as nat, index as int),
            );
        }
        Ok(unit)
    }

    /// Draws from the interval from `min` up to `max`, which is excluded.
    pub fn sample_uniform(
        &mut self,
        min: Double,
        max: Double,
        enforce_constant_time: bool,
    ) -> (draw: Result<UniformDraw, Error>)
        requires
            old(self).wf(),
        ensures
            max.below(min) ==> draw == Err::<UniformDraw, Error>(Error::MinAboveMax)
                && *final(self) == *old(self),
            !max.below(min) ==> old(self).reads(
                *final(self),
                |tape: Seq<u8>| read_uniform(tape, min, max, enforce_constant_time),
                draw,
            ),
            draw is Ok ==> old(self).asked(*final(self)) == unit_requests(
                old(self).taken(*final(self)).len(),
                enforce_constant_time,
            ),
            draw matches Ok(draw) ==> !draw.unit.is_nan() && 0 <= draw.unit.value() < pow2(1074),
    {
        if min > max {
            return Err(Error::MinAboveMax);
        }
        match self.sample_unit(enforce_constant_time) {
            Ok(unit) => Ok(UniformDraw { unit, min, max }),
            Err(error) => Err(error),
        }
    }
}

/// Draws from the interval from `min` up to `max`, which is excluded, with the system's
/// generator.
pub fn sample_uniform(min: Double, max: Double, enforce_constant_time: bool) -> (draw: Result<
    UniformDraw,
    Error,
>)
    ensures
        match draw {
            Ok(draw) => {
                &&& !max.below(min)
                &&& !draw.unit.is_nan() && 0 <= draw.unit.value() < pow2(1074)
                &&& exists|tape: Seq<u8>| #[trigger]
                    read_uniform(tape, min, max, enforce_constant_time) == Some(
                        (draw, tape.len()),
                    )
            },
            Err(error) => error == if max.below(min) {
                Error::MinAboveMax
            } else {
                Error::Entropy
            },
        },
        exists|source: &mut ByteSource| #[trigger]
            call_ensures(ByteSource::sample_uniform, (source, min, max, enforce_constant_time), draw) && source.wf() && source.script() is None,
{
    ByteSource::system().sample_uniform(min, max, enforce_constant_time)
}

/// The bytes that are drawn to pick one of `n` numbers have a bit more than it takes to write
/// them, and not a byte more than that. The numbers just above 2^55, whose logarithm is rounded
/// off, take seven bytes, which write them as well.
pub proof fn law_width_fits_the_numbers(n: nat)
    requires
        n > 0,
    ensures
        ({
            let width = draw_width(n);
            &&& width >= 1
            &&& n <= pow2(8 * width)
            &&& if 0x80_0000_0000_0000 < n <= 0x80_0000_0000_005b {
                width == 7
            } else {
                &&& n <= pow2((8 * width - 1) as nat)
                &&& width > 1 ==> pow2((8 * width - 9) as nat) < n
            }
        }),
{
    let width = draw_width(n);
    lemma_draw_width(n);
    if !(0x80_0000_0000_0000 < n <= 0x80_0000_0000_005b) {
        lemma_ceil_log2(n);
        let k = ceil_log2(n);
        double::lemma_pow2_order(k, (8 * width - 1) as nat);
        if width > 1 {
            double::lemma_pow2_order((8 * width - 9) as nat, (k - 1) as nat);
        }
    }
}

/// The number that is picked is the first that is small enough: the bytes are read in chunks,
/// the least significant byte first, the chunks ahead of the last write numbers that are too
/// large, and the last one writes how far above `min` the number lies. Bytes that hold no such
/// number are made up of chunks that are too large, and of less than a chunk behind them.
pub proof fn law_first_small_chunk_is_picked(tape: Seq<u8>, min: i64, max: i64) -> (rejected: nat)
    requires
        min <= max,
    ensures
        ({
            let n = (max - min + 1) as nat;
            let width = draw_width(n);
            let length = width * (rejected + 1);
            &&& forall|j: int|
                0 <= j < rejected ==> bytes::le_value(
                    #[trigger] tape.subrange(width * j, width * (j + 1)),
                ) >= n
            &&& match read_uniform_int(tape, min as int, n) {
                Some((value, read)) => {
                    &&& read == length <= tape.len()
                    &&& value == min + bytes::le_value(
                        tape.subrange((width * rejected) as int, length as int),
                    )
                    &&& min <= value <= max
                },
                None => tape.len() < length,
            }
            &&& width * rejected <= tape.len()
        }),
    decreases tape.len(),
{
    let n = (max - min + 1) as nat;
    let width = draw_width(n);
    lemma_mul_basics(width as int);
    if tape.len() < width {
        0
    } else {
        let first = tape.take(width as int);
        assert(tape.subrange(0, width as int) =~= first);
        if bytes::le_value(first) < n {
            0
        } else {
            let rest = tape.skip(width as int);
            let later = law_first_small_chunk_is_picked(rest, min, max);
            let rejected = later + 1;
            assert(width * (later + 1) == width * later + width) by (nonlinear_arith);
            assert(width * (rejected + 1) == width * rejected + width) by (nonlinear_arith)
                requires
                    rejected == later + 1,
            ;
            assert forall|j: int| 0 <= j < rejected implies bytes::le_value(
                #[trigger] tape.subrange(width * j, width * (j + 1)),
            ) >= n by {
                if j > 0 {
                    assert(width * (j - 1) + width == width * j) by (nonlinear_arith);
                    assert(width * (j + 1) == width * j + width) by (nonlinear_arith);
                    assert(width * (j - 1) >= 0) by (nonlinear_arith)
                        requires
                            j > 0,
                            width >= 0,
                    ;
                    assert(width * j <= width * later) by (nonlinear_arith)
                        requires
                            j <= later,
                            width >= 0,
                    ;
                    let chunk = rest.subrange(width * (j - 1), width * (j - 1 + 1));
                    assert(bytes::le_value(chunk) >= n);
                    assert(chunk =~= tape.subrange(width * j, width * (j + 1)));
                }
            }
            if let Some((_, read)) = read_uniform_int(rest, min as int, n) {
                assert(rest.subrange((width * later) as int, read as int) =~= tape.subrange(
                    (width * rejected) as int,
                    (width * (rejected + 1)) as int,
                ));
            }
            rejected
        }
    }
}

/// A whole number is refused, and nothing drawn, where the bounds are in the wrong order, and
/// only there. Else it is read off the bytes drawn for it, which are asked for a chunk at a
/// time, and lies between the bounds. A script is given up only where it holds no such number.
pub proof fn law_whole_numbers_are_read_off_the_bytes(
    source: &mut ByteSource,
    min: i64,
    max: i64,
    number: Result<i64, Error>,
)
    requires
        old(source).wf(),
        max - min < i64::MAX,
        call_ensures(ByteSource::sample_uniform_int, (source, min, max), number),
    ensures
        ({
            let (before, after) = (*old(source), *final(source));
            let bytes = after.drawn().skip(before.drawn().len() as int);
            let requests = after.requests().skip(before.requests().len() as int);
            let n = (max - min + 1) as nat;
            &&& min > max ==> number == Err::<i64, Error>(Error::MinAboveMax) && after == before
            &&& min <= max ==> after.script() == before.script() && after.drawn()
                == before.drawn() + bytes
            &&& number matches Ok(number) ==> {
                &&& min <= number <= max
                &&& read_uniform_int(bytes, min as int, n) == Some((number, bytes.len()))
                &&& bytes.len() == draw_width(n) * requests.len()
                &&& forall|j: int|
                    0 <= j < requests.len() ==> #[trigger] requests[j] == draw_width(n)
            }
            &&& number matches Err(error) ==> min <= max ==> {
                &&& error == Error::Entropy
                &&& before.script() matches Some(script) ==> read_uniform_int(
                    script.skip(before.drawn().len() as int),
                    min as int,
                    n,
                ) is None
            }
        }),
{
}

/// The whole numbers of the system's generator are read off some bytes, as those of any source
/// are, and refused for the same bounds.
pub proof fn law_system_numbers_are_read_off_bytes(min: i64, max: i64, number: Result<i64, Error>)
    requires
        max - min < i64::MAX,
        call_ensures(sample_uniform_int, (min, max), number),
    ensures
        match number {
            Ok(number) => min <= number <= max && exists|bytes: Seq<u8>| #[trigger]
                read_uniform_int(bytes, min as int, (max - min + 1) as nat) == Some(
                    (number, bytes.len()),
                ),
            Err(error) => error == if min > max {
                Error::MinAboveMax
            } else {
                Error::Entropy
            },
        },
        exists|source: &mut ByteSource| #[trigger]
            call_ensures(ByteSource::sample_uniform_int, (source, min, max), number) && source.wf() && source.script() is None,
{
}

/// A double of the unit interval is made up of the bytes drawn for it, bit by bit: the mantissa
/// of the lower half of the first byte and the six bytes behind it, and the exponent of the
/// index that the other bytes hold. In no band does any of the 52 bits get lost.
pub proof fn law_units_hold_their_bytes(tape: Seq<u8>, enforce_constant_time: bool)
    ensures
        match read_unit(tape, enforce_constant_time) {
            Some((unit, length)) => {
                &&& tape.len() >= 7
                &&& coin::read_heads(tape.skip(7), enforce_constant_time) matches Some(
                    (index, used),
                ) && {
                    &&& length == 7 + used
                    &&& unit.bits == (1022 - index) * 0x10_0000_0000_0000 + (tape[0] as int % 16)
                        * 0x1_0000_0000_0000 + tape[1] * 0x100_0000_0000 + tape[2] * 0x1_0000_0000
                        + tape[3] * 0x100_0000 + tape[4] * 0x1_0000 + tape[5] * 0x100 + tape[6]
                    &&& !unit.sign()
                    &&& unit.exponent() == 1022 - index
                    &&& unit.mantissa() == bytes::be_value(tape.take(7)) % pow2(52)
                    &&& unit == unit_double(bytes::be_value(tape.take(7)), index as int)
                }
            },
            None => tape.len() < 7 || coin::read_heads(tape.skip(7), enforce_constant_time) is None,
        },
{
    if tape.len() >= 7 {
        let word = tape.take(7);
        lemma_seven_bytes(word);
        lemma2_to64_rest();
        if let Some((index, _)) = coin::read_heads(tape.skip(7), enforce_constant_time) {
            coin::lemma_index_bound(tape.skip(7), enforce_constant_time);
            lemma_unit_parts(bytes::be_value(word), index as int);
            let low = (tape[0] as int % 16) * 0x1_0000_0000_0000 + tape[1] * 0x100_0000_0000
                + tape[2] * 0x1_0000_0000 + tape[3] * 0x100_0000 + tape[4] * 0x1_0000 + tape[5]
                * 0x100 + tape[6];
            let high = tape[0] as int / 16;
            assert(bytes::be_value(word) == high * 0x10_0000_0000_0000 + low);
            assert(0 <= low < 0x10_0000_0000_0000);
        }
    }
}

proof fn lemma_seven_bytes(word: Seq<u8>)
    requires
        word.len() == 7,
    ensures
        bytes::be_value(word) == word[0] * 0x1_0000_0000_0000 + word[1] * 0x100_0000_0000 + word[2]
            * 0x1_0000_0000 + word[3] * 0x100_0000 + word[4] * 0x1_0000 + word[5] * 0x100 + word[6],
{
    reveal_with_fuel(bytes::be_value, 8);
    let d1 = word.drop_last();
    let d2 = d1.drop_last();
    let d3 = d2.drop_last();
    let d4 = d3.drop_last();
    let d5 = d4.drop_last();
    let d6 = d5.drop_last();
    assert(d1.last() == word[5] && d2.last() == word[4] && d3.last() == word[3]);
    assert(d4.last() == word[2] && d5.last() == word[1] && d6.last() == word[0]);
    assert(d6.drop_last().len() == 0);
}

/// Two draws from the unit interval are the same only where they fall into the same band and
/// their first seven bytes agree in all but the upper half of the first, which is not used. So
/// within every band each of the 2^52 mantissas comes of exactly sixteen of the 2^56 words.
pub proof fn law_equal_units_come_of_equal_bytes(
    tape: Seq<u8>,
    other: Seq<u8>,
    enforce_constant_time: bool,
)
    requires
        read_unit(tape, enforce_constant_time) is Some,
        read_unit(other, enforce_constant_time) is Some,
    ensures
        ({
            let (unit, _) = read_unit(tape, enforce_constant_time)->0;
            let (same, _) = read_unit(other, enforce_constant_time)->0;
            let (index, _) = coin::read_heads(tape.skip(7), enforce_constant_time)->0;
            let (same_index, _) = coin::read_heads(other.skip(7), enforce_constant_time)->0;
            unit == same <==> index == same_index && tape[0] % 16 == other[0] % 16 && forall|j: int|
                1 <= j < 7 ==> #[trigger] tape[j] == other[j]
        }),
{
    law_units_hold_their_bytes(tape, enforce_constant_time);
    law_units_hold_their_bytes(other, enforce_constant_time);
    let (unit, _) = read_unit(tape, enforce_constant_time)->0;
    let (same, _) = read_unit(other, enforce_constant_time)->0;
    let (index, _) = coin::read_heads(tape.skip(7), enforce_constant_time)->0;
    let (same_index, _) = coin::read_heads(other.skip(7), enforce_constant_time)->0;
    let head = 16 * (1022 - index) + tape[0] as int % 16;
    let same_head = 16 * (1022 - same_index) + other[0] as int % 16;
    lemma_units_by_digits(unit.bits as int, head, tape, same.bits as int, same_head, other);
    assert(unit == same <==> unit.bits == same.bits);
    let agree = forall|j: int| 1 <= j < 7 ==> #[trigger] tape[j] == other[j];
    assert(agree <==> tape[1] == other[1] && tape[2] == other[2] && tape[3] == other[3] && tape[4]
        == other[4] && tape[5] == other[5] && tape[6] == other[6]);
}

/// Numbers that are written in base 256 are the same only where their digits are.
proof fn lemma_units_by_digits(
    left: int,
    head: int,
    tape: Seq<u8>,
    right: int,
    same_head: int,
    other: Seq<u8>,
)
    requires
        left == head * 0x1_0000_0000_0000 + tape[1] * 0x100_0000_0000 + tape[2] * 0x1_0000_0000
            + tape[3] * 0x100_0000 + tape[4] * 0x1_0000 + tape[5] * 0x100 + tape[6],
        right == same_head * 0x1_0000_0000_0000 + other[1] * 0x100_0000_0000 + other[2]
            * 0x1_0000_0000 + other[3] * 0x100_0000 + other[4] * 0x1_0000 + other[5] * 0x100
            + other[6],
    ensures
        left == right <==> head == same_head && tape[1] == other[1] && tape[2] == other[2]
            && tape[3] == other[3] && tape[4] == other[4] && tape[5] == other[5] && tape[6]
            == other[6],
{
    let (a1, b1) = (256 * head + tape[1], 256 * same_head + other[1]);
    let (a2, b2) = (256 * a1 + tape[2], 256 * b1 + other[2]);
    let (a3, b3) = (256 * a2 + tape[3], 256 * b2 + other[3]);
    let (a4, b4) = (256 * a3 + tape[4], 256 * b3 + other[4]);
    let (a5, b5) = (256 * a4 + tape[5], 256 * b4 + other[5]);
    assert(left == 256 * a5 + tape[6]);
    assert(right == 256 * b5 + other[6]);
    lemma_digit(a5, tape[6], b5, other[6]);
    lemma_digit(a4, tape[5], b4, other[5]);
    lemma_digit(a3, tape[4], b3, other[4]);
    lemma_digit(a2, tape[3], b2, other[3]);
    lemma_digit(a1, tape[2], b1, other[2]);
    lemma_digit(head, tape[1], same_head, other[1]);
}

proof fn lemma_digit(left: int, digit: u8, right: int, other: u8)
    ensures
        256 * left + digit == 256 * right + other <==> left == right && digit == other,
{
}

/// A draw from an interval is refused, and nothing drawn, where the bounds are numbers in the
/// wrong order, and only there. Else it keeps the bounds that it was given, and its double of the
/// unit interval is read off the bytes drawn for it: seven of them by one request, and those
/// for the index behind them.
pub proof fn law_uniform_draws_are_read_off_the_bytes(
    source: &mut ByteSource,
    min: Double,
    max: Double,
    enforce_constant_time: bool,
    draw: Result<UniformDraw, Error>,
)
    requires
        old(source).wf(),
        call_ensures(ByteSource::sample_uniform, (source, min, max, enforce_constant_time), draw),
    ensures
        ({
            let (before, after) = (*old(source), *final(source));
            let bytes = after.drawn().skip(before.drawn().len() as int);
            let requests = after.requests().skip(before.requests().len() as int);
            let refused = !min.is_nan() && !max.is_nan() && max.value() < min.value();
            &&& refused ==> draw == Err::<UniformDraw, Error>(Error::MinAboveMax) && after
                == before
            &&& !refused ==> after.script() == before.script() && after.drawn() == before.drawn()
                + bytes
            &&& draw matches Ok(draw) ==> {
                &&& draw.min == min && draw.max == max
                &&& read_unit(bytes, enforce_constant_time) == Some((draw.unit, bytes.len()))
                &&& !draw.unit.is_nan() && 0 <= draw.unit.value() < pow2(1074)
                &&& requests.len() >= 1 && requests[0] == 7
                &&& enforce_constant_time ==> requests == seq![7nat, 128nat]
                &&& !enforce_constant_time ==> requests.len() == bytes.len() - 6 && forall|j: int|
                    1 <= j < requests.len() ==> #[trigger] requests[j] == 1
            }
            &&& draw matches Err(error) ==> !refused ==> {
                &&& error == Error::Entropy
                &&& before.script() matches Some(script) ==> read_unit(
                    script.skip(before.drawn().len() as int),
                    enforce_constant_time,
                ) is None
            }
        }),
{
    let (before, after) = (*old(source), *final(source));
    if draw is Ok {
        let bytes = before.taken(after);
        law_units_hold_their_bytes(bytes, enforce_constant_time);
        coin::law_index_is_the_first_set_bit(bytes.skip(7), enforce_constant_time);
        if enforce_constant_time {
            assert(before.asked(after) =~= seq![7nat, 128nat]);
        }
    }
}

/// The draws of the system's generator from an interval are read off some bytes, as those of
/// any source are, and refused for the same bounds.
pub proof fn law_system_uniform_draws_are_read_off_bytes(
    min: Double,
    max: Double,
    enforce_constant_time: bool,
    draw: Result<UniformDraw, Error>,
)
    requires
        call_ensures(sample_uniform, (min, max, enforce_constant_time), draw),
    ensures
        ({
            let refused = !min.is_nan() && !max.is_nan() && max.value() < min.value();
            match draw {
                Ok(draw) => {
                    &&& !refused
                    &&& draw.min == min && draw.max == max
                    &&& exists|bytes: Seq<u8>| #[trigger]
                        read_unit(bytes, enforce_constant_time) == Some((draw.unit, bytes.len()))
                },
                Err(error) => error == if refused {
                    Error::MinAboveMax
                } else {
                    Error::Entropy
                },
            }
        }),
        exists|source: &mut ByteSource| #[trigger]
            call_ensures(ByteSource::sample_uniform, (source, min, max, enforce_constant_time), draw) && source.wf() && source.script() is None,
{
    if let Ok(draw) = draw {
        let bytes = choose|bytes: Seq<u8>| #[trigger]
            read_uniform(bytes, min, max, enforce_constant_time) == Some((draw, bytes.len()));
        assert(read_unit(bytes, enforce_constant_time) == Some((draw.unit, bytes.len())));
    }
}

/// A draw that was spread over its interval is kept as it is, except at the upper end of an
/// interval that has a width and a finite upper end, where another one is made.
pub proof fn law_only_the_upper_end_is_drawn_anew(
    draw: UniformDraw,
    spread: Double,
    accepted: Option<Double>,
)
    requires
        call_ensures(UniformDraw::accept, (&draw, spread), accepted),
    ensures
        accepted matches Some(kept) ==> {
            &&& kept == spread
            &&& !spread.is_nan() && !draw.min.is_nan() && !draw.max.is_nan() && draw.min.value()
                < draw.max.value() && draw.max.bits % 0x8000_0000_0000_0000
                < 0x7ff0_0000_0000_0000 ==> kept.value() != draw.max.value()
        },
        accepted is None ==> {
            &&& !spread.is_nan() && spread.value() == draw.max.value()
            &&& !draw.min.is_nan() && !draw.max.is_nan() && draw.min.value() < draw.max.value()
            &&& draw.max.bits % 0x8000_0000_0000_0000 < 0x7ff0_0000_0000_0000
        },
{
}

} // verus!
