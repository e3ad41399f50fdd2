//! Aggregation policies: combine a window sequence into a single embedding.
//!
//! [`AggregatePolicy`] is the object-safe seam: its one method works on plain slices of a
//! [`Real`](crate::scalar::Real) compute scalar. The free function [`aggregate`] projects
//! window embeddings into that domain, runs the policy, and rebuilds the embedding;
//! [`keep_separate`] is the multi-vector path, for callers that want every window.
//!
//! The built-in policies differ in their weights: [`CoverageWeightedMean`] weighs by
//! coverage, [`MeanRenormalized`] uniformly, [`EmaRenormalized`] by recency, and
//! [`SaliencyWeighted`] by norm. All of them fold through one compensated sum.
//!
//! # Input domain
//!
//! Every component must be finite and either zero or of a magnitude between `2^-400` and
//! `2^400`, and every coverage between zero and one. Anything else is refused before any
//! arithmetic.
//!
//! # Determinacy
//!
//! A weighted sum can cancel, and what is left of it is then rounding noise. The fold
//! refuses a sum whose norm is at or below sixteen units of roundoff of the mass that was
//! summed, plus an absolute floor, plus what the policy owes for weights that it could not
//! form exactly: such a sum is reported as
//! [`WinditError::NonFinite`](crate::WinditError::NonFinite).
//!
//! # Laws
//!
//! [`laws`] and [`ratios`] hold what follows from the definitions: exact compensation, the
//! domain, the ends of the recency weights, and that coverages count only by their ratios.
//! [`recurrence`] says what the ideal recency weights are, and where the computed ones are
//! exact. [`direct`] says where a norm is the textbook one, to the bit. [`inputs`] says, by
//! values alone, which inputs are inside of the domain and how every other one is refused.
//!
//! The others hold what is true of the rounded arithmetic up to `10^9` windows of up to
//! `2^32` components; how accurate a fold is, up to `2^28` windows.
//!
//! - [`normal`]: the fold never overflows, and never leaves the normal range where the
//!   weights do not.
//! - [`accuracy`] and [`vector`]: how far a folded sum is from the exact one, in every
//!   component and as a vector. [`formation`]: how far a recency weight is from the ideal
//!   one, and [`moving`] how far that takes a moving average.
//! - [`refusal`] and [`moving`]: windows whose exact sum is nothing never give a direction,
//!   under any policy. [`clear`] and [`recency`]: windows whose exact sum stands clear of
//!   the rounding noise always give one.
//! - [`heading`] and [`recency`]: the direction that is given is that of the exact sum.
//! - [`length`]: a norm is within its roundings of the exact one, and a vector that is given
//!   has unit length. This needs no domain: every vector of finite components that are not
//!   all zero has a direction.
//!
//! These rest on [`bounds`] on norms, on [`cancellation`] on the fold's refusal, and on
//! [`chain`], [`charges`] and [`decay`] on the rounding errors of powers.
pub mod accuracy;
pub mod bounds;
pub mod cancellation;
pub mod chain;
pub mod charges;
pub mod clear;
pub mod decay;
pub mod direct;
pub mod domain;
pub mod drive;
pub mod ema;
pub mod fold;
pub mod formation;
pub mod heading;
pub mod inputs;
pub mod kind;
pub mod laws;
pub mod length;
pub mod moving;
pub mod norm;
pub mod normal;
pub mod policy;
pub mod ratios;
pub mod recency;
pub mod recurrence;
pub mod refusal;
pub mod vector;

pub use drive::{aggregate, keep_separate};
pub use ema::EmaRenormalized;
pub use kind::{AggregatePolicyKind, BuiltinPolicy};
pub use policy::{AggregatePolicy, CoverageWeightedMean, MeanRenormalized, SaliencyWeighted};
