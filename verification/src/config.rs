//! Pipeline-wide constants written as HDF5 attributes so consumers can
//! validate the data they are loading.

use vstd::prelude::*;

verus! {

/// Identifies the pipeline that produced the file. Bump on schema changes.
pub const PIPELINE_VERSION: &'static str = "sf_binpack_halfp_v1";

/// Schema version of the per-group dataset layout (sparse_v1 = current).
pub const FORMAT_VERSION: &'static str = "sparse_v1";

/// Indicates `evals` and `wdl` are stored from white's perspective, regardless
/// of `stm`.
pub const EVAL_PERSPECTIVE: &'static str = "white_pov_assumed";

/// Centipawn threshold above which scores are treated as mate encodings.
pub const MATE_THRESHOLD_CP: i32 = 25_000;

/// Centipawn value from which the distance to mate is measured.
pub const MATE_SCORE_CP: i32 = 32_000;

/// Documentation-only attribute: minimum search depth the source data was
/// supposed to have been generated at. Not enforced.
pub const MIN_DEPTH: u32 = 9;

/// Number of binpack entries the reader bundles per channel message.
pub const BATCH_SIZE: usize = 8192;

} // verus!
