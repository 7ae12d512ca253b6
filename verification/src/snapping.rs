//! The choices of the snapping mechanism that take no floating point arithmetic.
use crate::double::Double;
use crate::error::Error;
use vstd::prelude::*;

verus! {

/// The most bits of precision that the mechanism works with.
pub const MAX_PRECISION: u32 = 118;

/// The precision to work with where `requested` bits are asked for: 118 bits at most.
pub open spec fn working_precision(requested: u32) -> u32 {
    if requested < MAX_PRECISION {
        requested
    } else {
        MAX_PRECISION
    }
}

/// Picks the precision to work with, which must not be above the `supported` bits.
pub fn snapping_precision(requested: u32, supported: u32) -> (precision: Result<u32, Error>)
    ensures
        precision == if working_precision(requested) > supported {
            Err::<u32, Error>(Error::PrecisionUnsupported)
        } else {
            Ok(working_precision(requested))
        },
{
    let precision: u32 = if requested < MAX_PRECISION {
        requested
    } else {
        MAX_PRECISION
    };
    if precision > supported {
        Err(Error::PrecisionUnsupported)
    } else {
        Ok(precision)
    }
}

/// `num::clamp` gives the lower bound for an input below it, the upper bound for one above
/// it, and the input otherwise; an input that is not a number comes back as it is. With
/// debug assertions it panics unless the lower bound is at most the upper one.
#[verifier::external_body]
fn clamp(input: Double, min: Double, max: Double) -> (clamped: Double)
    requires
        min.at_most(max),
    ensures
        clamped == if input.below(min) {
            min
        } else if max.below(input) {
            max
        } else {
            input
        },
{
    num::clamp(input, min, max)
}

/// Moves `input` into the interval that reaches from `bound` to its negative, whichever of
/// the two is the lower.
pub fn clamp_to_bound(input: Double, bound: Double) -> (clamped: Double)
    requires
        !bound.is_nan(),
    ensures
        input.is_nan() || -bound.magnitude() <= input.value() <= bound.magnitude() ==> clamped
            == input,
        !input.is_nan() && input.value() < -bound.magnitude() ==> clamped.sign(),
        !input.is_nan() && input.value() > bound.magnitude() ==> !clamped.sign(),
        !input.is_nan() && (input.value() < -bound.magnitude() || input.value()
            > bound.magnitude()) ==> clamped.exponent() == bound.exponent() && clamped.mantissa()
            == bound.mantissa(),
{
    let upper = bound.abs();
    clamp(input, upper.negate(), upper)
}

/// The precision that is picked is what was asked for, or 118 bits where that is less, and it
/// is never beyond what is supported; there is none only where even that much is not supported.
pub proof fn law_precision_is_the_least_of_both(
    requested: u32,
    supported: u32,
    precision: Result<u32, Error>,
)
    requires
        call_ensures(snapping_precision, (requested, supported), precision),
    ensures
        precision matches Ok(bits) ==> {
            &&& bits <= requested && bits <= 118 && bits <= supported
            &&& bits == requested || bits == 118
        },
        precision matches Err(error) ==> {
            &&& error == Error::PrecisionUnsupported
            &&& supported < requested && supported < 118
        },
{
}

/// What is clamped lies between the bound and its negative. An input that lies there already
/// is kept, and any other comes out as the end that is nearest to it. Clamping it again
/// changes nothing.
pub proof fn law_clamping_finds_the_nearest(
    input: Double,
    bound: Double,
    clamped: Double,
    again: Double,
)
    requires
        !bound.is_nan(),
        call_ensures(clamp_to_bound, (input, bound), clamped),
        call_ensures(clamp_to_bound, (clamped, bound), again),
    ensures
        clamped.is_nan() <==> input.is_nan(),
        input.is_nan() ==> clamped == input,
        !input.is_nan() ==> {
            let limit = if bound.value() < 0 {
                -bound.value()
            } else {
                bound.value()
            };
            &&& -limit <= clamped.value() <= limit
            &&& -limit <= input.value() <= limit ==> clamped == input
            &&& input.value() > limit ==> clamped.value() == limit
            &&& input.value() < -limit ==> clamped.value() == -limit
        },
        again == clamped,
{
    crate::double::lemma_magnitude_order(input, bound);
}

} // verus!
