use vstd::prelude::*;
use crate::error::{io_error_text, Result, ScribeError};
use crate::pipeline::stage::{Fallback, LogBatch, PipelineStage};

verus! {

/// The zstd frame that `zstd::encode_all` produces for `data` at `level`.
pub uninterp spec fn zstd_compressed(data: Seq<u8>, level: i32) -> Seq<u8>;

/// `zstd::encode_all` on an in-memory source: the zstd frame of `data` at
/// `level`. It succeeds: reading a slice and writing into a `Vec` cannot
/// fail, and zstd clamps a compression level out of its range instead of
/// refusing it; only a failed allocation, which does not return, is left.
#[verifier::external_body]
fn zstd_encode_all(data: &[u8], level: i32) -> (r: std::io::Result<Vec<u8>>)
    ensures
        r is Ok,
        r matches Ok(v) ==> v@ == zstd_compressed(data@, level),
{
    zstd::encode_all(data, level)
}

/// The outcome of a compression: the compressed bytes as a batch, or a
/// compression error carrying the I/O error's text.
pub fn compressed_batch(outcome: std::io::Result<Vec<u8>>) -> (r: Result<LogBatch>)
    ensures
        match outcome {
            Ok(v) => r matches Ok(b) && b@ == v@,
            Err(_) => r matches Err(e) && e is Compression,
        },
{
    match outcome {
        Ok(compressed) => Ok(LogBatch::new(compressed)),
        Err(e) => Err(ScribeError::Compression(io_error_text(&e))),
    }
}

/// Compresses log data with zstd.
pub struct CompressStage {
    level: i32,
}

impl CompressStage {
    pub closed spec fn spec_level(&self) -> i32 {
        self.level
    }

    pub fn new(level: i32) -> (r: CompressStage)
        ensures
            r.spec_level() == level,
    {
        CompressStage { level }
    }

    pub fn zstd(level: i32) -> (r: CompressStage)
        ensures
            r.spec_level() == level,
    {
        CompressStage::new(level)
    }
}

impl PipelineStage for CompressStage {
    /// The output is the zstd frame of the input at the stage's level;
    /// compression does not fail.
    open spec fn spec_process(&self, input: Seq<u8>, outcome: std::result::Result<Seq<u8>, ScribeError>) -> bool {
        outcome == Ok::<Seq<u8>, ScribeError>(zstd_compressed(input, self.spec_level()))
    }

    open spec fn spec_name(&self) -> Seq<char> {
        "compress"@
    }

    /// The only fallback the stage chooses is `Skip`.
    open spec fn spec_fallback(&self, input: Seq<u8>, error: ScribeError, fallback: Fallback) -> bool {
        fallback == Fallback::Skip
    }

    fn name(&self) -> (r: &str)
        ensures
            r@ == "compress"@,
    {
        "compress"
    }

    fn process(&self, data: LogBatch) -> (r: Result<LogBatch>) {
        compressed_batch(zstd_encode_all(data.data.as_slice(), self.level))
    }

    /// A failed compression is skipped: the data goes on uncompressed.
    fn on_error(&self, data: LogBatch, error: ScribeError) -> (r: Fallback)
        ensures
            r == Fallback::Skip,
    {
        Fallback::Skip
    }
}

} // verus!
