//! What can go wrong, and the words that say so.
use vstd::prelude::*;

verus! {

/// The two arguments of a component that relates two columns.
#[derive(Clone, Copy, Debug, PartialEq, Eq, Structural)]
pub enum Argument {
    X,
    Y,
}

/// The errors of the samplers and of the property checks.
#[derive(Clone, Copy, Debug, PartialEq, Eq, Structural)]
pub enum Error {
    /// The source of random bytes could not deliver.
    Entropy,
    /// A probability lies below zero or above one.
    ProbabilityOutOfRange,
    /// The bounds of a uniform distribution are in the wrong order.
    MinAboveMax,
    /// The bounds of a truncated distribution are in the wrong order.
    LowerAboveUpper,
    /// A scale is zero or negative.
    ScaleNotPositive,
    /// The working precision of the snapping mechanism is beyond what can be had.
    PrecisionUnsupported,
    /// An argument was not given.
    Missing(Argument),
    /// An argument is not an array.
    NotAnArray(Argument),
    /// An argument is aggregated and may not be released.
    Aggregated,
    /// An argument may hold no records.
    PossiblyEmpty,
    /// An argument does not hold floating point numbers.
    NotFloat(Argument),
    /// The two arguments differ in length.
    LengthMismatch,
    /// The number of records of an argument is not known.
    UnknownLength,
    /// The name of the estimator is not one of those there are.
    InvalidImplementation,
    /// The two arguments come from different partitions of the data.
    SeparatePartitions,
}

impl Error {
    /// The text of the error.
    pub open spec fn text(self) -> Seq<char> {
        match self {
            Error::Entropy => "random bytes could not be drawn"@,
            Error::ProbabilityOutOfRange => "probability is not within [0, 1]"@,
            Error::MinAboveMax => "min may not be greater than max"@,
            Error::LowerAboveUpper => "lower may not be greater than upper"@,
            Error::ScaleNotPositive => "scale must be greater than zero"@,
            Error::PrecisionUnsupported =>
                "Operating system does not support sufficient precision to use the Snapping Mechanism"@,
            Error::Missing(Argument::X) => "data x: missing"@,
            Error::Missing(Argument::Y) => "data y: missing"@,
            Error::NotAnArray(Argument::X) => "data x: value must be an array"@,
            Error::NotAnArray(Argument::Y) => "data y: value must be an array"@,
            Error::Aggregated => "aggregated data may not be manipulated"@,
            Error::PossiblyEmpty => "data may be empty"@,
            Error::NotFloat(Argument::X) => "data x: atomic type must be float"@,
            Error::NotFloat(Argument::Y) => "data y: atomic type must be float"@,
            Error::LengthMismatch => "data x and data y: must be same length"@,
            Error::UnknownLength => "number of records is not defined"@,
            Error::InvalidImplementation =>
                "Invalid implementation passed. Valid values are theil-sen and theil-sen-k-match"@,
            Error::SeparatePartitions => "data from separate partitions may not be mixed"@,
        }
    }

    /// Says what went wrong.
    pub fn message(&self) -> (message: &'static str)
        ensures
            message@ == self.text(),
    {
        match *self {
            Error::Entropy => "random bytes could not be drawn",
            Error::ProbabilityOutOfRange => "probability is not within [0, 1]",
            Error::MinAboveMax => "min may not be greater than max",
            Error::LowerAboveUpper => "lower may not be greater than upper",
            Error::ScaleNotPositive => "scale must be greater than zero",
            Error::PrecisionUnsupported =>
                "Operating system does not support sufficient precision to use the Snapping Mechanism",
            Error::Missing(Argument::X) => "data x: missing",
            Error::Missing(Argument::Y) => "data y: missing",
            Error::NotAnArray(Argument::X) => "data x: value must be an array",
            Error::NotAnArray(Argument::Y) => "data y: value must be an array",
            Error::Aggregated => "aggregated data may not be manipulated",
            Error::PossiblyEmpty => "data may be empty",
            Error::NotFloat(Argument::X) => "data x: atomic type must be float",
            Error::NotFloat(Argument::Y) => "data y: atomic type must be float",
            Error::LengthMismatch => "data x and data y: must be same length",
            Error::UnknownLength => "number of records is not defined",
            Error::InvalidImplementation =>
                "Invalid implementation passed. Valid values are theil-sen and theil-sen-k-match",
            Error::SeparatePartitions => "data from separate partitions may not be mixed",
        }
    }
}

/// What went wrong is said in these words.
pub proof fn law_errors_have_their_words(error: Error, message: &'static str)
    requires
        call_ensures(Error::message, (&error,), message),
    ensures
        error == Error::Entropy ==> message@ == "random bytes could not be drawn"@,
        error == Error::ProbabilityOutOfRange ==> message@ == "probability is not within [0, 1]"@,
        error == Error::MinAboveMax ==> message@ == "min may not be greater than max"@,
        error == Error::LowerAboveUpper ==> message@ == "lower may not be greater than upper"@,
        error == Error::ScaleNotPositive ==> message@ == "scale must be greater than zero"@,
        error == Error::PrecisionUnsupported ==> message@
            == "Operating system does not support sufficient precision to use the Snapping Mechanism"@,
        error == Error::Missing(Argument::X) ==> message@ == "data x: missing"@,
        error == Error::Missing(Argument::Y) ==> message@ == "data y: missing"@,
        error == Error::NotAnArray(Argument::X) ==> message@ == "data x: value must be an array"@,
        error == Error::NotAnArray(Argument::Y) ==> message@ == "data y: value must be an array"@,
        error == Error::Aggregated ==> message@ == "aggregated data may not be manipulated"@,
        error == Error::PossiblyEmpty ==> message@ == "data may be empty"@,
        error == Error::NotFloat(Argument::X) ==> message@ == "data x: atomic type must be float"@,
        error == Error::NotFloat(Argument::Y) ==> message@ == "data y: atomic type must be float"@,
        error == Error::LengthMismatch ==> message@ == "data x and data y: must be same length"@,
        error == Error::UnknownLength ==> message@ == "number of records is not defined"@,
        error == Error::InvalidImplementation ==> message@
            == "Invalid implementation passed. Valid values are theil-sen and theil-sen-k-match"@,
        error == Error::SeparatePartitions ==> message@
            == "data from separate partitions may not be mixed"@,
{
}

} // verus!
