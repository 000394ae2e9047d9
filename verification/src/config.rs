//! Settings of the logging engine.
use vstd::prelude::*;

verus! {

/// Settings of the logging engine; each field has a default that a missing
/// setting takes.
#[derive(Debug, Clone, Copy, PartialEq, Eq, Structural)]
pub struct ScribeConfig {
    /// Interval between automatic flushes, in milliseconds.
    pub auto_flush_interval_ms: u64,
    /// Whether entries are also printed to the console.
    pub enable_console: bool,
    /// The lowest level printed to the console (0 = verbose .. 4 = error).
    pub min_console_level: i32,
    /// The largest size of one log file, in megabytes.
    pub max_file_size_mb: usize,
    /// The largest number of log files kept.
    pub max_file_count: usize,
    /// Whether batches are compressed.
    pub compression: bool,
    /// Whether batches are encrypted.
    pub encryption: bool,
}

/// The default flush interval: five seconds.
pub fn default_auto_flush_interval() -> (r: u64)
    ensures
        r == 5000,
{
    5000
}

/// The default lowest console level: debug.
pub fn default_min_console_level() -> (r: i32)
    ensures
        r == 1,
{
    1
}

/// The default largest file size: ten megabytes.
pub fn default_max_file_size() -> (r: usize)
    ensures
        r == 10,
{
    10
}

/// The default largest number of files: five.
pub fn default_max_file_count() -> (r: usize)
    ensures
        r == 5,
{
    5
}

/// Compression is on unless turned off.
pub fn default_compression() -> (r: bool)
    ensures
        r,
{
    true
}

/// The settings that apply when none are given.
pub open spec fn default_config() -> ScribeConfig {
    ScribeConfig {
        auto_flush_interval_ms: 5000,
        enable_console: false,
        min_console_level: 1,
        max_file_size_mb: 10,
        max_file_count: 5,
        compression: true,
        encryption: false,
    }
}

impl Default for ScribeConfig {
    fn default() -> (r: ScribeConfig)
        ensures
            r == default_config(),
    {
        ScribeConfig {
            auto_flush_interval_ms: default_auto_flush_interval(),
            enable_console: false,
            min_console_level: default_min_console_level(),
            max_file_size_mb: default_max_file_size(),
            max_file_count: default_max_file_count(),
            compression: default_compression(),
            encryption: false,
        }
    }
}

} // verus!
