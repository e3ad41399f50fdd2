//! Commonly used types, gathered for import.
pub use crate::aggregate::{
    aggregate, keep_separate, AggregatePolicy, AggregatePolicyKind, CoverageWeightedMean,
    EmaRenormalized, MeanRenormalized, SaliencyWeighted,
};
pub use crate::binary::{Binary32, Binary64};
pub use crate::decode::{Decoder, Step};
pub use crate::error::WinditError;
pub use crate::plan::{Span, TailPolicy, WindowOptions, WindowPlan};
pub use crate::pre::{slice_pad_mask, try_slice_pad_mask};
pub use crate::scalar::{Real, Scalar};
pub use crate::segment::{
    longest_run, runs, runs_sorted, Dwell, Gate, GatePolicy, Hangover, Hysteresis, Range,
    SegmentOptions, SegmentTail, Segmenter, Threshold, Vote,
};
pub use crate::smooth::{Identity, Smoother};
pub use crate::windowed::{ComputeOf, Vector, WindowEmbedding, Windowed};
