//! Generic windowed-sequence processing: chunk, pad and mask, segment, and
//! aggregate, for embeddings, voice activity, and speech recognition.
//!
//! - [`plan`] places windows over an input; [`pre`] cuts, pads and masks them.
//! - [`aggregate`] combines the embeddings of the windows into one.
//! - [`segment`] turns per-window scores into ranges, in one pass or window by window,
//!   and [`decode`] puts a smoother and a gating stage in front of it.
//! - [`binary`], [`arith`] and [`scalar`] carry the numbers: IEEE 754 values as bit
//!   patterns, with correctly rounded arithmetic. [`ieee`] says what that arithmetic is, by
//!   values alone; [`exact`] says where that arithmetic is
//!   exact, [`scaling`] and [`roots`] where a power of two can be taken out of it, and
//!   [`roundoff`] how far from exact it can be; [`close`] and [`triangle`] carry such bounds
//!   through sums, products and vectors.
//!
//! Every module is verified: its functions are proved to meet their contracts, and the
//! public proof functions state what holds across them.
pub mod aggregate;
pub mod arith;
pub mod behaviour;
pub mod binary;
pub mod close;
pub mod decode;
pub mod error;
pub mod exact;
pub mod ieee;
pub mod plan;
pub mod pre;
pub mod prelude;
pub mod ratio;
pub mod represent;
pub mod roots;
pub mod rounding;
pub mod roundoff;
pub mod scalar;
pub mod scaling;
pub mod segment;
pub mod smooth;
pub mod triangle;
pub mod widen;
pub mod windowed;

pub use error::WinditError;
