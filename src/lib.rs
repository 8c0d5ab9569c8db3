//! Deterministic seed-space search: a legacy subtractive random source, the
//! seed cursor that hands work to a pool of workers, and the tracker that folds
//! out-of-order completions into a contiguous watermark with checkpoints.
pub mod progress;
pub mod random;
pub mod search;
