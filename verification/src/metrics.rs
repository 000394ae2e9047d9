//! Counters of writes, flushes, timings, errors and cleanups.
use vstd::prelude::*;

verus! {

/// The kinds of error that the metrics count.
#[derive(Debug, Clone, Copy, PartialEq, Eq, Structural)]
pub enum ErrorType {
    BufferFull,
    DiskFull,
    Compression,
    Encryption,
    WriteFailed,
}

/// A copy of every counter at one moment.
#[derive(Debug, Clone, Copy)]
pub struct MetricsSnapshot {
    pub writes_count: u64,
    pub writes_failed: u64,
    pub bytes_written: u64,
    pub flush_count: u64,
    pub worker_wakeups: u64,
    pub compression_time_us: u64,
    pub encryption_time_us: u64,
    pub io_time_us: u64,
    pub buffer_full_count: u64,
    pub disk_full_count: u64,
    pub compression_errors: u64,
    pub encryption_errors: u64,
    pub cleanup_count: u64,
    pub files_deleted: u64,
    pub bytes_freed: u64,
}

/// Addition modulo 2^64, as the counters add.
pub open spec fn wadd(a: u64, b: u64) -> u64 {
    ((a as int + b as int) % 0x1_0000_0000_0000_0000int) as u64
}

fn add_wrapping(a: u64, b: u64) -> (r: u64)
    ensures
        r == wadd(a, b),
{
    a.wrapping_add(b)
}

pub open spec fn zero_snapshot() -> MetricsSnapshot {
    MetricsSnapshot {
        writes_count: 0,
        writes_failed: 0,
        bytes_written: 0,
        flush_count: 0,
        worker_wakeups: 0,
        compression_time_us: 0,
        encryption_time_us: 0,
        io_time_us: 0,
        buffer_full_count: 0,
        disk_full_count: 0,
        compression_errors: 0,
        encryption_errors: 0,
        cleanup_count: 0,
        files_deleted: 0,
        bytes_freed: 0,
    }
}

/// The counters of the logging engine. Every counter wraps around at 2^64.
pub struct ScribeMetrics {
    pub writes_count: u64,
    pub writes_failed: u64,
    pub bytes_written: u64,
    pub flush_count: u64,
    pub worker_wakeups: u64,
    pub compression_time_us: u64,
    pub encryption_time_us: u64,
    pub io_time_us: u64,
    pub buffer_full_count: u64,
    pub disk_full_count: u64,
    pub compression_errors: u64,
    pub encryption_errors: u64,
    pub cleanup_count: u64,
    pub files_deleted: u64,
    pub bytes_freed: u64,
}

impl View for ScribeMetrics {
    type V = MetricsSnapshot;

    open spec fn view(&self) -> MetricsSnapshot {
        MetricsSnapshot {
            writes_count: self.writes_count,
            writes_failed: self.writes_failed,
            bytes_written: self.bytes_written,
            flush_count: self.flush_count,
            worker_wakeups: self.worker_wakeups,
            compression_time_us: self.compression_time_us,
            encryption_time_us: self.encryption_time_us,
            io_time_us: self.io_time_us,
            buffer_full_count: self.buffer_full_count,
            disk_full_count: self.disk_full_count,
            compression_errors: self.compression_errors,
            encryption_errors: self.encryption_errors,
            cleanup_count: self.cleanup_count,
            files_deleted: self.files_deleted,
            bytes_freed: self.bytes_freed,
        }
    }
}

/// The counters after one error of kind `e`.
pub open spec fn after_error(m: MetricsSnapshot, e: ErrorType) -> MetricsSnapshot {
    match e {
        ErrorType::BufferFull => MetricsSnapshot { buffer_full_count: wadd(m.buffer_full_count, 1), ..m },
        ErrorType::DiskFull => MetricsSnapshot { disk_full_count: wadd(m.disk_full_count, 1), ..m },
        ErrorType::Compression => MetricsSnapshot { compression_errors: wadd(m.compression_errors, 1), ..m },
        ErrorType::Encryption => MetricsSnapshot { encryption_errors: wadd(m.encryption_errors, 1), ..m },
        ErrorType::WriteFailed => MetricsSnapshot { writes_failed: wadd(m.writes_failed, 1), ..m },
    }
}

impl ScribeMetrics {
    /// A collector with every counter at zero.
    pub fn new() -> (r: ScribeMetrics)
        ensures
            r@ == zero_snapshot(),
    {
        ScribeMetrics {
            writes_count: 0,
            writes_failed: 0,
            bytes_written: 0,
            flush_count: 0,
            worker_wakeups: 0,
            compression_time_us: 0,
            encryption_time_us: 0,
            io_time_us: 0,
            buffer_full_count: 0,
            disk_full_count: 0,
            compression_errors: 0,
            encryption_errors: 0,
            cleanup_count: 0,
            files_deleted: 0,
            bytes_freed: 0,
        }
    }

    /// Counts one successful write of `bytes` bytes.
    pub fn record_write(&mut self, bytes: u64)
        ensures
            final(self)@ == (MetricsSnapshot {
                writes_count: wadd(old(self)@.writes_count, 1),
                bytes_written: wadd(old(self)@.bytes_written, bytes),
                ..old(self)@
            }),
    {
        self.writes_count = add_wrapping(self.writes_count, 1);
        self.bytes_written = add_wrapping(self.bytes_written, bytes);
    }

    /// Counts one failed write.
    pub fn record_write_failed(&mut self)
        ensures
            final(self)@ == (MetricsSnapshot { writes_failed: wadd(old(self)@.writes_failed, 1), ..old(self)@ }),
    {
        self.writes_failed = add_wrapping(self.writes_failed, 1);
    }

    /// Counts one error of the given kind; a failed write counts as a failed write.
    pub fn record_error(&mut self, error_type: ErrorType)
        ensures
            final(self)@ == after_error(old(self)@, error_type),
    {
        match error_type {
            ErrorType::BufferFull => {
                self.buffer_full_count = add_wrapping(self.buffer_full_count, 1);
            },
            ErrorType::DiskFull => {
                self.disk_full_count = add_wrapping(self.disk_full_count, 1);
            },
            ErrorType::Compression => {
                self.compression_errors = add_wrapping(self.compression_errors, 1);
            },
            ErrorType::Encryption => {
                self.encryption_errors = add_wrapping(self.encryption_errors, 1);
            },
            ErrorType::WriteFailed => {
                self.writes_failed = add_wrapping(self.writes_failed, 1);
            },
        }
    }

    pub fn record_flush(&mut self)
        ensures
            final(self)@ == (MetricsSnapshot { flush_count: wadd(old(self)@.flush_count, 1), ..old(self)@ }),
    {
        self.flush_count = add_wrapping(self.flush_count, 1);
    }

    pub fn record_worker_wakeup(&mut self)
        ensures
            final(self)@ == (MetricsSnapshot { worker_wakeups: wadd(old(self)@.worker_wakeups, 1), ..old(self)@ }),
    {
        self.worker_wakeups = add_wrapping(self.worker_wakeups, 1);
    }

    pub fn record_compression_time(&mut self, microseconds: u64)
        ensures
            final(self)@ == (MetricsSnapshot {
                compression_time_us: wadd(old(self)@.compression_time_us, microseconds),
                ..old(self)@
            }),
    {
        self.compression_time_us = add_wrapping(self.compression_time_us, microseconds);
    }

    pub fn record_encryption_time(&mut self, microseconds: u64)
        ensures
            final(self)@ == (MetricsSnapshot {
                encryption_time_us: wadd(old(self)@.encryption_time_us, microseconds),
                ..old(self)@
            }),
    {
        self.encryption_time_us = add_wrapping(self.encryption_time_us, microseconds);
    }

    pub fn record_io_time(&mut self, microseconds: u64)
        ensures
            final(self)@ == (MetricsSnapshot { io_time_us: wadd(old(self)@.io_time_us, microseconds), ..old(self)@ }),
    {
        self.io_time_us = add_wrapping(self.io_time_us, microseconds);
    }

    /// Counts one cleanup that deleted `files_deleted` files and freed `bytes_freed` bytes.
    pub fn record_cleanup(&mut self, files_deleted: u64, bytes_freed: u64)
        ensures
            final(self)@ == (MetricsSnapshot {
                cleanup_count: wadd(old(self)@.cleanup_count, 1),
                files_deleted: wadd(old(self)@.files_deleted, files_deleted),
                bytes_freed: wadd(old(self)@.bytes_freed, bytes_freed),
                ..old(self)@
            }),
    {
        self.cleanup_count = add_wrapping(self.cleanup_count, 1);
        self.files_deleted = add_wrapping(self.files_deleted, files_deleted);
        self.bytes_freed = add_wrapping(self.bytes_freed, bytes_freed);
    }

    /// The current value of every counter.
    pub fn snapshot(&self) -> (r: MetricsSnapshot)
        ensures
            r == self@,
    {
        MetricsSnapshot {
            writes_count: self.writes_count,
            writes_failed: self.writes_failed,
            bytes_written: self.bytes_written,
            flush_count: self.flush_count,
            worker_wakeups: self.worker_wakeups,
            compression_time_us: self.compression_time_us,
            encryption_time_us: self.encryption_time_us,
            io_time_us: self.io_time_us,
            buffer_full_count: self.buffer_full_count,
            disk_full_count: self.disk_full_count,
            compression_errors: self.compression_errors,
            encryption_errors: self.encryption_errors,
            cleanup_count: self.cleanup_count,
            files_deleted: self.files_deleted,
            bytes_freed: self.bytes_freed,
        }
    }

    /// Sets every counter back to zero.
    pub fn reset(&mut self)
        ensures
            final(self)@ == zero_snapshot(),
    {
        self.writes_count = 0;
        self.writes_failed = 0;
        self.bytes_written = 0;
        self.flush_count = 0;
        self.worker_wakeups = 0;
        self.compression_time_us = 0;
        self.encryption_time_us = 0;
        self.io_time_us = 0;
        self.buffer_full_count = 0;
        self.disk_full_count = 0;
        self.compression_errors = 0;
        self.encryption_errors = 0;
        self.cleanup_count = 0;
        self.files_deleted = 0;
        self.bytes_freed = 0;
    }
}

impl Default for ScribeMetrics {
    fn default() -> (r: ScribeMetrics)
        ensures
            r@ == zero_snapshot(),
    {
        ScribeMetrics::new()
    }
}

} // verus!
