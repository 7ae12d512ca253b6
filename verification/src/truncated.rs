//! Draws of a normal distribution that is cut off at two bounds.
//!
//! Values beyond the bounds are rejected, not moved to the bounds.
use crate::double::Double;
use crate::error::Error;
use vstd::prelude::*;

verus! {

/// The bounds of a truncated distribution.
#[derive(Clone, Copy, Debug)]
pub struct Truncation {
    pub min: Double,
    pub max: Double,
}

impl Truncation {
    /// The bounds are not in the wrong order.
    pub open spec fn wf(self) -> bool {
        !self.max.below(self.min)
    }

    /// Whether a draw lies within the bounds, which belong to them.
    pub open spec fn admits(self, draw: Double) -> bool {
        self.min.at_most(draw) && draw.at_most(self.max)
    }

    /// Checks the bounds, and then the scale of the distribution that they cut off.
    pub fn new(min: Double, max: Double, scale: Double) -> (truncation: Result<Truncation, Error>)
        ensures
            truncation == if max.below(min) {
                Err::<Truncation, Error>(Error::LowerAboveUpper)
            } else if !scale.is_nan() && scale.value() <= 0 {
                Err(Error::ScaleNotPositive)
            } else {
                Ok(Truncation { min, max })
            },
            truncation matches Ok(truncation) ==> truncation.wf(),
    {
        if min > max {
            return Err(Error::LowerAboveUpper);
        }
        if scale <= Double::zero() {
            return Err(Error::ScaleNotPositive);
        }
        Ok(Truncation { min, max })
    }

    /// Looks at a draw of the whole distribution: the draw where it lies within the bounds,
    /// and `None` where another one is to be made.
    pub fn accept(&self, draw: Double) -> (accepted: Option<Double>)
        ensures
            accepted == if self.admits(draw) {
                Some(draw)
            } else {
                None
            },
    {
        if draw >= self.min && draw <= self.max {
            Some(draw)
        } else {
            None
        }
    }
}

/// Whatever comes out of a truncation is the draw itself, and never below the lower bound nor
/// above the upper one; and no number between the bounds is turned away.
pub proof fn law_truncated_draws_lie_within_the_bounds(
    truncation: Truncation,
    draw: Double,
    accepted: Option<Double>,
)
    requires
        call_ensures(Truncation::accept, (&truncation, draw), accepted),
    ensures
        accepted matches Some(kept) ==> {
            &&& kept == draw
            &&& !kept.is_nan() && !truncation.min.is_nan() && !truncation.max.is_nan()
            &&& truncation.min.value() <= kept.value() <= truncation.max.value()
        },
        accepted is None ==> {
            ||| draw.is_nan() || truncation.min.is_nan() || truncation.max.is_nan()
            ||| draw.value() < truncation.min.value()
            ||| draw.value() > truncation.max.value()
        },
{
}

/// What is admitted to a truncation is admitted to any wider one.
pub proof fn law_wider_bounds_admit_more(narrow: Truncation, wide: Truncation, draw: Double)
    requires
        narrow.admits(draw),
        !wide.min.is_nan() && wide.min.value() <= narrow.min.value(),
        !wide.max.is_nan() && narrow.max.value() <= wide.max.value(),
    ensures
        wide.admits(draw),
        narrow.min.value() <= draw.value() <= narrow.max.value(),
{
}

/// The bounds that are let through are those that were given, in order, for a scale that is
/// above zero or no number; the bounds are looked at before the scale.
pub proof fn law_bounds_and_scale_are_checked(
    min: Double,
    max: Double,
    scale: Double,
    truncation: Result<Truncation, Error>,
)
    requires
        call_ensures(Truncation::new, (min, max, scale), truncation),
    ensures
        ({
            let crossed = !min.is_nan() && !max.is_nan() && max.value() < min.value();
            let flat = !scale.is_nan() && scale.value() <= 0;
            &&& truncation is Ok <==> !crossed && !flat
            &&& truncation matches Ok(bounds) ==> bounds.min == min && bounds.max == max
            &&& truncation matches Err(error) ==> {
                &&& crossed ==> error == Error::LowerAboveUpper
                &&& !crossed ==> error == Error::ScaleNotPositive
            }
        }),
{
}

} // verus!
