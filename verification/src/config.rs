//! Batch-size configuration for the merge tree.
//!
//! One integer parameter governs the fan-out of the merge tree: how many
//! items (fragments, or child tasks) are folded together at one scheduling
//! step. The valid range is 2 to 100 inclusive; the default is 32.

use vstd::prelude::*;

verus! {

/// Smallest accepted batch size.
pub const MIN_BATCH_SIZE: usize = 2;

/// Largest accepted batch size.
pub const MAX_BATCH_SIZE: usize = 100;

/// Batch size used when none is configured.
pub const DEFAULT_BATCH_SIZE: usize = 32;

/// A batch size is valid when it lies in the accepted range.
pub open spec fn valid_batch_size(n: usize) -> bool {
    MIN_BATCH_SIZE <= n <= MAX_BATCH_SIZE
}

/// Rejection of an out-of-range batch-size argument.
#[derive(Clone, Copy, Debug, PartialEq, Eq, Structural)]
pub enum ConfigError {
    BatchSizeOutOfRange,
}

/// Validates a requested batch size, accepting exactly the range 2..=100.
pub fn validate_batch_size(n: usize) -> (r: Result<usize, ConfigError>)
    ensures
        r is Ok <==> valid_batch_size(n),
        r is Ok ==> r->Ok_0 == n,
        r is Err ==> r->Err_0 == ConfigError::BatchSizeOutOfRange,
{
    if MIN_BATCH_SIZE <= n && n <= MAX_BATCH_SIZE {
        Ok(n)
    } else {
        Err(ConfigError::BatchSizeOutOfRange)
    }
}

/// The default batch size is itself valid.
pub fn default_batch_size() -> (r: usize)
    ensures
        r == DEFAULT_BATCH_SIZE,
        valid_batch_size(r),
{
    DEFAULT_BATCH_SIZE
}

} // verus!
