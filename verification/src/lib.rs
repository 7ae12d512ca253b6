//! Noise for differentially private statistics.
//!
//! The samplers draw random bytes and turn them into coin flips, whole numbers, doubles and
//! noise. What each of them returns is stated, and proved, as a function of the bytes that it
//! drew. The laws beside the samplers say what that function has to do with the distribution
//! that is asked for. A `Double` stands for a double-precision number by its bit pattern.
//!
//! `theil_sen` derives what is known of a regression from what is known of its arguments.
pub mod bytes;
pub mod coin;
pub mod distribution;
pub mod double;
pub mod error;
pub mod generator;
pub mod geometric;
pub mod properties;
pub mod snapping;
pub mod source;
pub mod theil_sen;
pub mod truncated;
pub mod uniform;

pub use coin::{censored_specific_geom, sample_bit, sample_bit_prob};
pub use double::Double;
pub use error::{Argument, Error};
pub use geometric::{sample_geometric_censored, sample_simple_geometric_mechanism};
pub use source::ByteSource;
pub use uniform::{sample_uniform, sample_uniform_int, UniformDraw};
