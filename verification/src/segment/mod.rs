//! Segmentation: gate a windowed score sequence and reduce it to element ranges.
pub mod batch;
pub mod dwell;
pub mod gate;
pub mod hangover;
pub mod hysteresis;
pub mod laws;
pub mod range;
pub mod runs;
pub mod segmenter;
pub mod sort;
pub mod tail;
pub mod threshold;
pub mod vote;

pub use dwell::{Dwell, DwellState};
pub use gate::{Gate, GatePolicy};
pub use hangover::{Hangover, HangoverState};
pub use hysteresis::{Hysteresis, HysteresisState};
pub use range::{Range, SegmentOptions};
pub use runs::{longest_run, runs, runs_sorted};
pub use segmenter::Segmenter;
pub use tail::SegmentTail;
pub use threshold::{Threshold, ThresholdState};
pub use vote::{Vote, VoteState};
