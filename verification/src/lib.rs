//! Scribe: a crash-resilient logging engine.
//!
//! Log entries are sealed into self-describing frames (magic header, length,
//! CRC32), written into memory-mapped buffers, processed by pipelines of
//! stages (compression, encryption) and recovered after a crash by scanning
//! for valid frames. Old log files are cleaned up by age and by size.

pub mod caller;
pub mod config;
pub mod context;
pub mod engine;
pub mod error;
pub mod foreign;
pub mod format_check;
pub mod metrics;
pub mod outputs;
pub mod pipeline;
pub mod sink;
pub mod stages;
pub mod storage;
pub mod text;

pub use config::ScribeConfig;
pub use context::{label, log_with_auto_tag, LabelSlot, LabeledLogger};
pub use engine::{status_code, write_entry, write_frame, WriteOutcome};
pub use error::{Result, ScribeError};
pub use metrics::{ErrorType, MetricsSnapshot, ScribeMetrics};
pub use outputs::LogOutput;
pub use pipeline::{Fallback, LogBatch, Pipeline, PipelineStage, Router};
pub use sink::{clear_sinks, register_sink, ConsoleSink, LogSink, SinkRegistry};
pub use stages::{CompressStage, EncryptStage};
pub use storage::buffer::MmapBuffer;
pub use storage::cleanup::{CleanupCandidate, CleanupPolicy, CleanupReport, CleanupRun, LogFile};
pub use storage::recovery::{Recovery, RecoveryReport};
pub use storage::{LogFrame, LogLevel};
