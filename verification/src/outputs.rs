//! Destinations that processed log data is written to.
use vstd::prelude::*;
use crate::error::Result;

verus! {

/// A destination for processed log data, such as a file on disk.
pub trait LogOutput: Send + Sync {
    /// Writes all of `data`.
    fn write(&self, data: &[u8]) -> Result<()>;

    /// Makes what was written durable.
    fn flush(&self) -> Result<()>;
}

} // verus!
