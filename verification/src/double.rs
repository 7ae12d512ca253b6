//! Double-precision numbers (IEEE 754 binary64), held by their bit patterns.
//!
//! A `Double` is ordered, taken apart and put together here with integer arithmetic
//! alone. Its value is modelled exactly: every finite double is a whole multiple of
//! 2^-1074, so the specifications count in that unit.
use std::cmp::Ordering;
use vstd::arithmetic::power2::*;
use vstd::prelude::*;

verus! {

/// A double-precision number, given by the 64 bits that encode it.
#[derive(Clone, Copy, Debug)]
pub struct Double {
    pub bits: u64,
}

impl Double {
    /// The sign bit: set for negative numbers, and for negative zero.
    pub open spec fn sign(self) -> bool {
        self.bits >= 0x8000_0000_0000_0000
    }

    /// The biased exponent, 11 bits wide.
    pub open spec fn exponent(self) -> int {
        (self.bits as int / 0x10_0000_0000_0000) % 0x800
    }

    /// The 52 stored bits of the significand.
    pub open spec fn mantissa(self) -> int {
        self.bits as int % 0x10_0000_0000_0000
    }

    /// Exponent and mantissa together: the bits without the sign.
    pub open spec fn unsigned_bits(self) -> int {
        self.bits as int % 0x8000_0000_0000_0000
    }

    pub open spec fn is_nan(self) -> bool {
        self.exponent() == 2047 && self.mantissa() != 0
    }

    /// The absolute value in units of 2^-1074. An infinity counts as 2^2098 units, more
    /// than any finite double.
    pub open spec fn magnitude(self) -> nat {
        if self.exponent() == 0 {
            self.mantissa() as nat
        } else {
            ((0x10_0000_0000_0000 + self.mantissa()) * pow2((self.exponent() - 1) as nat)) as nat
        }
    }

    /// The value in units of 2^-1074, for every double that is a number.
    pub open spec fn value(self) -> int {
        if self.sign() {
            -(self.magnitude() as int)
        } else {
            self.magnitude() as int
        }
    }

    /// Strictly below, in the order of IEEE 754: no comparison holds of a NaN, and the two
    /// zeros are equal.
    pub open spec fn below(self, other: Double) -> bool {
        !self.is_nan() && !other.is_nan() && self.value() < other.value()
    }

    /// Below or equal, in the order of IEEE 754.
    pub open spec fn at_most(self, other: Double) -> bool {
        !self.is_nan() && !other.is_nan() && self.value() <= other.value()
    }

    /// Takes the number apart: sign, biased exponent and stored mantissa.
    pub fn decompose_raw(self) -> (parts: (bool, u16, u64))
        ensures
            parts.0 == self.sign(),
            parts.1 == self.exponent(),
            parts.2 == self.mantissa(),
    {
        (
            self.bits >= 0x8000_0000_0000_0000,
            ((self.bits / 0x10_0000_0000_0000) % 0x800) as u16,
            self.bits % 0x10_0000_0000_0000,
        )
    }

    /// Puts a number together from its sign, biased exponent and stored mantissa.
    pub fn recompose_raw(sign: bool, exponent: u16, mantissa: u64) -> (number: Double)
        requires
            exponent < 0x800,
            mantissa < 0x10_0000_0000_0000,
        ensures
            number.sign() == sign,
            number.exponent() == exponent,
            number.mantissa() == mantissa,
    {
        let unsigned: u64 = exponent as u64 * 0x10_0000_0000_0000 + mantissa;
        if sign {
            Double { bits: 0x8000_0000_0000_0000 + unsigned }
        } else {
            Double { bits: unsigned }
        }
    }

    /// Puts a number together from its sign, its exponent without the bias, and its stored
    /// mantissa.
    pub fn recompose(sign: bool, exponent: i16, mantissa: u64) -> (number: Double)
        requires
            -1023 <= exponent <= 1024,
            mantissa < 0x10_0000_0000_0000,
        ensures
            number.sign() == sign,
            number.exponent() == exponent + 1023,
            number.mantissa() == mantissa,
    {
        Double::recompose_raw(sign, (exponent + 1023) as u16, mantissa)
    }

    /// Positive zero.
    pub fn zero() -> (number: Double)
        ensures
            number.bits == 0,
            !number.is_nan(),
            number.value() == 0,
    {
        Double { bits: 0 }
    }

    /// One.
    pub fn one() -> (number: Double)
        ensures
            number.bits == 0x3ff0_0000_0000_0000u64,
            !number.is_nan(),
            number.value() == pow2(1074),
    {
        let number = Double { bits: 0x3ff0_0000_0000_0000 };
        proof {
            lemma_one(number);
        }
        number
    }

    /// Whether the number is a NaN.
    pub fn nan(self) -> (answer: bool)
        ensures
            answer == self.is_nan(),
    {
        let (_, exponent, mantissa) = self.decompose_raw();
        exponent == 2047 && mantissa != 0
    }

    /// The number without its sign.
    pub fn abs(self) -> (number: Double)
        ensures
            !number.sign(),
            number.exponent() == self.exponent(),
            number.mantissa() == self.mantissa(),
            number.value() == self.magnitude(),
    {
        Double { bits: self.bits % 0x8000_0000_0000_0000 }
    }

    /// The number with its sign flipped.
    pub fn negate(self) -> (number: Double)
        ensures
            number.sign() == !self.sign(),
            number.exponent() == self.exponent(),
            number.mantissa() == self.mantissa(),
            number.value() == -self.value(),
    {
        if self.bits >= 0x8000_0000_0000_0000 {
            Double { bits: self.bits - 0x8000_0000_0000_0000 }
        } else {
            Double { bits: self.bits + 0x8000_0000_0000_0000 }
        }
    }

    /// Compares two numbers; there is no answer where one of them is a NaN.
    fn compare(self, other: Double) -> (order: Option<Ordering>)
        ensures
            order == order_of(self, other),
    {
        if self.nan() || other.nan() {
            return None;
        }
        let left: u64 = self.bits % 0x8000_0000_0000_0000;
        let right: u64 = other.bits % 0x8000_0000_0000_0000;
        let left_negative = self.bits >= 0x8000_0000_0000_0000;
        let right_negative = other.bits >= 0x8000_0000_0000_0000;
        proof {
            lemma_magnitude_order(self, other);
            lemma_magnitude_order(other, self);
            lemma_magnitude_zero(self);
            lemma_magnitude_zero(other);
        }
        if left == right && (left_negative == right_negative || left == 0) {
            Some(Ordering::Equal)
        } else if left_negative && (!right_negative || right < left) {
            Some(Ordering::Less)
        } else if !left_negative && !right_negative && left < right {
            Some(Ordering::Less)
        } else {
            Some(Ordering::Greater)
        }
    }
}

/// How two doubles compare.
pub open spec fn order_of(left: Double, right: Double) -> Option<Ordering> {
    if left.is_nan() || right.is_nan() {
        None
    } else if left.value() < right.value() {
        Some(Ordering::Less)
    } else if left.value() == right.value() {
        Some(Ordering::Equal)
    } else {
        Some(Ordering::Greater)
    }
}

/// Equality of IEEE 754: a NaN equals nothing, and the two zeros are equal.
impl PartialEq for Double {
    fn eq(&self, other: &Double) -> (answer: bool) {
        match self.compare(*other) {
            Some(Ordering::Equal) => true,
            _ => false,
        }
    }
}

impl vstd::std_specs::cmp::PartialEqSpecImpl for Double {
    open spec fn obeys_eq_spec() -> bool {
        true
    }

    open spec fn eq_spec(&self, other: &Double) -> bool {
        !self.is_nan() && !other.is_nan() && self.value() == other.value()
    }
}

impl PartialOrd for Double {
    fn partial_cmp(&self, other: &Double) -> (order: Option<Ordering>) {
        self.compare(*other)
    }
}

impl vstd::std_specs::cmp::PartialOrdSpecImpl for Double {
    open spec fn obeys_partial_cmp_spec() -> bool {
        true
    }

    open spec fn partial_cmp_spec(&self, other: &Double) -> Option<Ordering> {
        order_of(*self, *other)
    }
}

/// One is 2^1074 units.
pub proof fn lemma_one(number: Double)
    requires
        number.bits == 0x3ff0_0000_0000_0000u64,
    ensures
        number.exponent() == 1023,
        number.mantissa() == 0,
        number.magnitude() == pow2(1074),
{
    lemma_pow2_adds(52, 1022);
    lemma2_to64_rest();
}

/// The bits without the sign order the magnitudes.
pub proof fn lemma_magnitude_order(left: Double, right: Double)
    ensures
        left.magnitude() < right.magnitude() <==> left.unsigned_bits() < right.unsigned_bits(),
{
    let (e, m) = (left.exponent(), left.mantissa());
    let (f, n) = (right.exponent(), right.mantissa());
    assert(left.unsigned_bits() == e * 0x10_0000_0000_0000 + m);
    assert(right.unsigned_bits() == f * 0x10_0000_0000_0000 + n);
    if e == f {
        lemma_pow2_pos((e - 1) as nat);
        if e > 0 {
            let p = pow2((e - 1) as nat) as int;
            assert((0x10_0000_0000_0000 + m) * p < (0x10_0000_0000_0000 + n) * p <==> m < n)
                by (nonlinear_arith)
                requires
                    p > 0,
            ;
        }
    } else if e < f {
        lemma_magnitude_gap(left, right);
    } else {
        lemma_magnitude_gap(right, left);
    }
}

proof fn lemma_magnitude_gap(left: Double, right: Double)
    requires
        left.exponent() < right.exponent(),
    ensures
        left.magnitude() < right.magnitude(),
{
    let (e, m) = (left.exponent(), left.mantissa());
    let (f, n) = (right.exponent(), right.mantissa());
    let q = pow2((f - 1) as nat) as int;
    lemma_pow2_pos((f - 1) as nat);
    assert((0x10_0000_0000_0000 + n) * q >= 0x10_0000_0000_0000 * q) by (nonlinear_arith)
        requires
            n >= 0,
            q > 0,
    ;
    if e > 0 {
        let p = pow2((e - 1) as nat) as int;
        lemma_pow2_pos((e - 1) as nat);
        lemma_pow2_unfold(e as nat);
        if e < f - 1 {
            lemma_pow2_strictly_increases(e as nat, (f - 1) as nat);
        }
        assert(q >= 2 * p);
        assert((0x10_0000_0000_0000 + m) * p < 0x20_0000_0000_0000 * p) by (nonlinear_arith)
            requires
                m < 0x10_0000_0000_0000,
                p > 0,
        ;
    }
}

proof fn lemma_magnitude_zero(number: Double)
    ensures
        number.magnitude() == 0 <==> number.unsigned_bits() == 0,
{
    if number.exponent() > 0 {
        let p = pow2((number.exponent() - 1) as nat) as int;
        let m = number.mantissa();
        lemma_pow2_pos((number.exponent() - 1) as nat);
        assert((0x10_0000_0000_0000 + m) * p > 0) by (nonlinear_arith)
            requires
                m >= 0,
                p > 0,
        ;
    }
}

/// Powers of two are ordered as their exponents.
pub proof fn lemma_pow2_order(low: nat, high: nat)
    ensures
        low <= high ==> pow2(low) <= pow2(high),
{
    if low < high {
        lemma_pow2_strictly_increases(low, high);
    }
}

/// Taking a double apart loses nothing: two doubles of the same sign, exponent and mantissa
/// are the same double, so what `decompose_raw` takes apart `recompose_raw` puts together
/// again.
pub proof fn law_parts_determine_a_double(left: Double, right: Double)
    requires
        left.sign() == right.sign(),
        left.exponent() == right.exponent(),
        left.mantissa() == right.mantissa(),
    ensures
        left == right,
{
}

/// The parts of a double make up its bits: the sign above the exponent, and the exponent above
/// the mantissa.
pub proof fn law_parts_make_up_the_bits(number: Double, parts: (bool, u16, u64))
    requires
        call_ensures(Double::decompose_raw, (number,), parts),
    ensures
        parts.1 < 0x800,
        parts.2 < 0x10_0000_0000_0000,
        number.bits == (if parts.0 {
            0x8000_0000_0000_0000int
        } else {
            0
        }) + parts.1 * 0x10_0000_0000_0000 + parts.2,
{
}

/// What is put together out of parts has these parts as its bits, whether the exponent is
/// given with its bias or without.
pub proof fn law_doubles_are_put_together(
    sign: bool,
    exponent: i16,
    mantissa: u64,
    raw: Double,
    number: Double,
)
    requires
        -1023 <= exponent <= 1024,
        mantissa < 0x10_0000_0000_0000,
        call_ensures(Double::recompose_raw, (sign, (exponent + 1023) as u16, mantissa), raw),
        call_ensures(Double::recompose, (sign, exponent, mantissa), number),
    ensures
        number == raw,
        number.bits == (if sign {
            0x8000_0000_0000_0000int
        } else {
            0
        }) + (exponent + 1023) * 0x10_0000_0000_0000 + mantissa,
{
    law_parts_determine_a_double(number, raw);
}

/// The sign is the highest bit, and nothing else changes with it. What is taken for no number
/// are the bit patterns beyond those of the infinities.
pub proof fn law_the_sign_is_one_bit(
    number: Double,
    absolute: Double,
    negated: Double,
    answer: bool,
)
    requires
        call_ensures(Double::abs, (number,), absolute),
        call_ensures(Double::negate, (number,), negated),
        call_ensures(Double::nan, (number,), answer),
    ensures
        absolute.bits < 0x8000_0000_0000_0000,
        number.bits == absolute.bits || number.bits == absolute.bits + 0x8000_0000_0000_0000,
        negated.bits == number.bits + 0x8000_0000_0000_0000 || number.bits == negated.bits
            + 0x8000_0000_0000_0000,
        negated.value() == -number.value(),
        absolute.value() == number.value() || absolute.value() == -number.value(),
        absolute.value() >= 0,
        answer == (absolute.bits > 0x7ff0_0000_0000_0000),
        number.is_nan() == answer,
{
}

/// Zero is the pattern without a bit, and is worth nothing; one is worth 2^1074 units.
pub proof fn law_zero_and_one(zero: Double, one: Double)
    requires
        call_ensures(Double::zero, (), zero),
        call_ensures(Double::one, (), one),
    ensures
        zero.bits == 0 && zero.value() == 0,
        one.value() == pow2(1074),
        !zero.is_nan() && !one.is_nan(),
{
}

/// From one double to the next is a step of 2^(e-1) units for the exponent `e`, and of one unit
/// where the exponent is zero. With zero worth nothing this settles what each positive double is
/// worth, and each negative one is worth the negative.
pub proof fn law_steps_between_doubles(number: Double, next: Double, negative: Double)
    requires
        number.bits < 0x7ff0_0000_0000_0000,
        next.bits == number.bits + 1,
        negative.bits == number.bits + 0x8000_0000_0000_0000,
    ensures
        number.bits < 0x10_0000_0000_0000 ==> next.value() - number.value() == 1,
        number.bits >= 0x10_0000_0000_0000 ==> next.value() - number.value() == pow2(
            (number.bits as int / 0x10_0000_0000_0000 - 1) as nat,
        ),
        negative.value() == -number.value(),
{
    let e = number.exponent();
    let m = number.mantissa();
    assert(e == number.bits as int / 0x10_0000_0000_0000);
    lemma2_to64();
    let last = 0xf_ffff_ffff_ffffint;
    if m == last {
        assert(next.exponent() == e + 1 && next.mantissa() == 0);
    } else {
        assert(next.exponent() == e && next.mantissa() == m + 1);
    }
    if next.exponent() > 0 {
        lemma_magnitude_nat(next);
    }
    if e > 0 {
        lemma_magnitude_nat(number);
        let p = pow2((e - 1) as nat) as int;
        let q = pow2(e as nat) as int;
        lemma_pow2_unfold(e as nat);
        assert((0x10_0000_0000_0000 + (m + 1)) * p - (0x10_0000_0000_0000 + m) * p == p)
            by (nonlinear_arith);
        assert((0x10_0000_0000_0000 + 0) * q - (0x10_0000_0000_0000 + last) * p == p)
            by (nonlinear_arith)
            requires
                q == 2 * p,
                last == 0xf_ffff_ffff_ffff,
        ;
    }
}

/// The worth of a normal double is its significand times its place.
proof fn lemma_magnitude_nat(number: Double)
    requires
        number.exponent() > 0,
    ensures
        number.magnitude() == (0x10_0000_0000_0000 + number.mantissa()) * pow2(
            (number.exponent() - 1) as nat,
        ),
{
    let m = number.mantissa();
    let p = pow2((number.exponent() - 1) as nat) as int;
    assert((0x10_0000_0000_0000 + m) * p >= 0) by (nonlinear_arith)
        requires
            m >= 0,
            p >= 0,
    ;
}

/// Doubles compare as their bits do where both are positive, the other way round where both are
/// negative, and by their signs else, except that the two zeros are equal. Nothing compares
/// with what is no number.
pub proof fn law_bits_order_the_doubles(left: Double, right: Double, order: Option<Ordering>)
    requires
        call_ensures(Double::partial_cmp, (&left, &right), order),
    ensures
        order is None <==> left.is_nan() || right.is_nan(),
        order is Some ==> {
            let less = order == Some(Ordering::Less);
            let equal = order == Some(Ordering::Equal);
            let half = 0x8000_0000_0000_0000u64;
            &&& left.bits < half && right.bits < half ==> less == (left.bits < right.bits) && equal
                == (left.bits == right.bits)
            &&& left.bits >= half && right.bits >= half ==> less == (right.bits < left.bits)
                && equal == (left.bits == right.bits)
            &&& left.bits >= half && right.bits < half ==> equal == (left.bits == half
                && right.bits == 0) && less == !equal
            &&& left.bits < half && right.bits >= half ==> equal == (right.bits == half
                && left.bits == 0) && !less
        },
{
    lemma_magnitude_order(left, right);
    lemma_magnitude_order(right, left);
    lemma_magnitude_zero(left);
    lemma_magnitude_zero(right);
}

/// Two doubles are equal where neither compares as less: both are numbers, and either their
/// bits are the same or both are zeros.
pub proof fn law_equal_doubles(left: Double, right: Double, answer: bool)
    requires
        call_ensures(Double::eq, (&left, &right), answer),
    ensures
        answer == (!left.is_nan() && !right.is_nan() && left.value() == right.value()),
        answer && left.bits != right.bits ==> left.value() == 0 && right.value() == 0,
{
    lemma_magnitude_order(left, right);
    lemma_magnitude_order(right, left);
    lemma_magnitude_zero(left);
    lemma_magnitude_zero(right);
}

} // verus!
