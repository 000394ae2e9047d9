//! Writing one log entry: frame it, append it to the active buffer, count it.
use vstd::prelude::*;
use crate::metrics::{after_error, wadd, ErrorType, MetricsSnapshot, ScribeMetrics};
use crate::sink::SinkRegistry;
use crate::storage::buffer::MmapBuffer;
use crate::storage::frame::{frame_bytes, frame_fits, FrameView, LogFrame, LogLevel};

verus! {

/// What became of an entry handed to `write_entry`.
#[derive(Debug, Clone, Copy, PartialEq, Eq, Structural)]
pub enum WriteOutcome {
    /// The frame was appended to the buffer; it is this many bytes long.
    Written(u64),
    /// The tag or the message is too long for the frame format.
    SerializeFailed,
    /// The buffer has no room left for the frame.
    BufferFull,
}

/// The frame of an entry stamped `timestamp`.
pub open spec fn entry_frame(timestamp: u64, level: LogLevel, tag: Seq<char>, message: Seq<char>) -> FrameView {
    FrameView { timestamp, level, tag, message }
}

/// The status that the C interface reports for an outcome: 0 for a written
/// entry, -3 for one that could not be framed, -5 for a full buffer.
pub fn status_code(outcome: WriteOutcome) -> (r: i32)
    ensures
        r == match outcome {
            WriteOutcome::Written(_) => 0i32,
            WriteOutcome::SerializeFailed => -3i32,
            WriteOutcome::BufferFull => -5i32,
        },
{
    match outcome {
        WriteOutcome::Written(_) => 0,
        WriteOutcome::SerializeFailed => -3,
        WriteOutcome::BufferFull => -5,
    }
}

/// What writing the frame `f` does to the buffer and the counters.
pub open spec fn entry_written(
    f: FrameView,
    position: nat,
    capacity: nat,
    written_before: Seq<u8>,
    written_after: Seq<u8>,
    m0: MetricsSnapshot,
    m1: MetricsSnapshot,
    r: WriteOutcome,
) -> bool {
    if !frame_fits(f) {
        &&& r == WriteOutcome::SerializeFailed
        &&& written_after == written_before
        &&& m1 == (MetricsSnapshot { writes_failed: wadd(m0.writes_failed, 1), ..m0 })
    } else if position + frame_bytes(f).len() > capacity {
        &&& r == WriteOutcome::BufferFull
        &&& written_after == written_before
        &&& m1 == after_error(
            MetricsSnapshot { writes_failed: wadd(m0.writes_failed, 1), ..m0 },
            ErrorType::BufferFull,
        )
    } else {
        &&& r == WriteOutcome::Written(frame_bytes(f).len() as u64)
        &&& written_after == written_before + frame_bytes(f)
        &&& m1 == (MetricsSnapshot {
            writes_count: wadd(m0.writes_count, 1),
            bytes_written: wadd(m0.bytes_written, frame_bytes(f).len() as u64),
            ..m0
        })
    }
}

/// Appends `frame` to `buffer` and counts the outcome in `metrics`: a frame
/// that cannot be encoded counts as a failed write; one that does not fit
/// counts as a failed write and a full buffer; one appended counts as a
/// write of its length.
pub fn write_frame(buffer: &mut MmapBuffer, metrics: &mut ScribeMetrics, frame: &LogFrame) -> (r: WriteOutcome)
    ensures
        entry_written(
            frame@,
            old(buffer).spec_position(),
            old(buffer).spec_capacity(),
            old(buffer).written(),
            final(buffer).written(),
            old(metrics)@,
            final(metrics)@,
            r,
        ),
        final(buffer).spec_capacity() == old(buffer).spec_capacity(),
        !(r is Written) ==> final(buffer).contents() == old(buffer).contents()
            && final(buffer).spec_position() == old(buffer).spec_position(),
        r is Written ==> final(buffer).contents() == old(buffer).contents().subrange(0, old(buffer).spec_position() as int)
            + frame_bytes(frame@) + old(buffer).contents().subrange(
            (old(buffer).spec_position() + frame_bytes(frame@).len()) as int,
            old(buffer).contents().len() as int,
        ),
{
    let serialized = match frame.serialize() {
        Ok(v) => v,
        Err(_) => {
            metrics.record_write_failed();
            return WriteOutcome::SerializeFailed;
        },
    };
    let len = serialized.len() as u64;
    match buffer.write(serialized.as_slice()) {
        Ok(_) => {
            metrics.record_write(len);
            WriteOutcome::Written(len)
        },
        Err(_) => {
            metrics.record_write_failed();
            metrics.record_error(ErrorType::BufferFull);
            WriteOutcome::BufferFull
        },
    }
}

/// Hands the entry to the sinks of `registry`, then frames it with the
/// current time and writes the frame as `write_frame` does.
pub fn write_entry(
    registry: &SinkRegistry,
    thread: Option<&str>,
    buffer: &mut MmapBuffer,
    metrics: &mut ScribeMetrics,
    level: LogLevel,
    tag: String,
    message: String,
) -> (r: WriteOutcome)
    ensures
        exists|ts: u64|
            entry_written(
                entry_frame(ts, level, tag@, message@),
                old(buffer).spec_position(),
                old(buffer).spec_capacity(),
                old(buffer).written(),
                final(buffer).written(),
                old(metrics)@,
                final(metrics)@,
                r,
            ),
        final(buffer).spec_capacity() == old(buffer).spec_capacity(),
        !(r is Written) ==> final(buffer).contents() == old(buffer).contents()
            && final(buffer).spec_position() == old(buffer).spec_position(),
{
    registry.log(level, Some(tag.as_str()), message.as_str(), thread);
    let frame = LogFrame::new(level, tag, message);
    assert(frame@ == entry_frame(frame.timestamp, level, tag@, message@));
    write_frame(buffer, metrics, &frame)
}

} // verus!
