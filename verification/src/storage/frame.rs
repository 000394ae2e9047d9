//! Log levels and the binary log frame.
//!
//! A frame is laid out as
//! `magic(4) | length(4) | timestamp(8) | level(1) | tag_len(2) | msg_len(4) | tag | message | crc(4)`,
//! all integers little-endian; `length` is the length of the whole frame and
//! the CRC-32 covers every byte before it.
use vstd::prelude::*;
use vstd::utf8::*;
use crate::error::{Result, ScribeError};
use super::codec::{lemma_u16_roundtrip, lemma_u32_roundtrip, lemma_u64_roundtrip, get_u16, get_u32, get_u64, le_u16, le_u32, le_u64, put_u16, put_u32, put_u64, read_u16, read_u32, read_u64};
use super::crc::{crc32, crc32_of};

verus! {

/// Severity of a log entry, from the least to the most severe.
#[derive(Debug, Clone, Copy, PartialEq, Eq, Hash, Structural)]
pub enum LogLevel {
    Verbose,
    Debug,
    Info,
    Warn,
    Error,
}

impl LogLevel {
    /// The numeric code of the level: 0 (Verbose) to 4 (Error).
    pub open spec fn code(self) -> u8 {
        match self {
            LogLevel::Verbose => 0,
            LogLevel::Debug => 1,
            LogLevel::Info => 2,
            LogLevel::Warn => 3,
            LogLevel::Error => 4,
        }
    }

    /// The level whose code is `c`, if any.
    pub open spec fn from_code(c: u8) -> Option<LogLevel> {
        if c == 0 {
            Some(LogLevel::Verbose)
        } else if c == 1 {
            Some(LogLevel::Debug)
        } else if c == 2 {
            Some(LogLevel::Info)
        } else if c == 3 {
            Some(LogLevel::Warn)
        } else if c == 4 {
            Some(LogLevel::Error)
        } else {
            None
        }
    }

    pub fn to_u8(self) -> (r: u8)
        ensures
            r == self.code(),
    {
        match self {
            LogLevel::Verbose => 0,
            LogLevel::Debug => 1,
            LogLevel::Info => 2,
            LogLevel::Warn => 3,
            LogLevel::Error => 4,
        }
    }

    pub fn from_u8(c: u8) -> (r: Option<LogLevel>)
        ensures
            r == LogLevel::from_code(c),
    {
        if c == 0 {
            Some(LogLevel::Verbose)
        } else if c == 1 {
            Some(LogLevel::Debug)
        } else if c == 2 {
            Some(LogLevel::Info)
        } else if c == 3 {
            Some(LogLevel::Warn)
        } else if c == 4 {
            Some(LogLevel::Error)
        } else {
            None
        }
    }

    /// The level that an integer selects at the foreign interface: codes
    /// 0 to 4 select their level, every other value selects `Info`.
    pub open spec fn spec_from_i32(v: i32) -> LogLevel {
        if v == 0 {
            LogLevel::Verbose
        } else if v == 1 {
            LogLevel::Debug
        } else if v == 3 {
            LogLevel::Warn
        } else if v == 4 {
            LogLevel::Error
        } else {
            LogLevel::Info
        }
    }

    pub fn from_i32(v: i32) -> (r: LogLevel)
        ensures
            r == LogLevel::spec_from_i32(v),
    {
        match v {
            0 => LogLevel::Verbose,
            1 => LogLevel::Debug,
            2 => LogLevel::Info,
            3 => LogLevel::Warn,
            4 => LogLevel::Error,
            _ => LogLevel::Info,
        }
    }
}

pub proof fn lemma_level_code_roundtrip(l: LogLevel)
    ensures
        LogLevel::from_code(l.code()) == Some(l),
{
}

pub const FRAME_MAGIC: u32 = 0xFEEDC0DE;

/// Bytes of a frame besides its tag and message: 23 header bytes and 4 CRC bytes.
pub const FRAME_OVERHEAD: usize = 27;

/// Offsets of the header fields.
pub const TIMESTAMP_AT: usize = 8;
pub const LEVEL_AT: usize = 16;
pub const TAG_LEN_AT: usize = 17;
pub const MSG_LEN_AT: usize = 19;
pub const TAG_AT: usize = 23;

/// The abstract content of a log frame.
pub struct FrameView {
    pub timestamp: u64,
    pub level: LogLevel,
    pub tag: Seq<char>,
    pub message: Seq<char>,
}

/// A structured log entry.
#[derive(Debug, Clone)]
pub struct LogFrame {
    /// Milliseconds since the Unix epoch.
    pub timestamp: u64,
    pub level: LogLevel,
    pub tag: String,
    pub message: String,
}

impl View for LogFrame {
    type V = FrameView;

    open spec fn view(&self) -> FrameView {
        FrameView {
            timestamp: self.timestamp,
            level: self.level,
            tag: self.tag@,
            message: self.message@,
        }
    }
}

/// Whether the frame's tag and message fit the length fields of the format.
pub open spec fn frame_fits(f: FrameView) -> bool {
    let tl = encode_utf8(f.tag).len();
    let ml = encode_utf8(f.message).len();
    &&& tl <= 0xffff
    &&& FRAME_OVERHEAD + tl + ml <= 0xffff_ffff
}

/// The frame's bytes before the CRC.
pub open spec fn frame_body(f: FrameView) -> Seq<u8> {
    let tb = encode_utf8(f.tag);
    let mb = encode_utf8(f.message);
    let total = FRAME_OVERHEAD + tb.len() + mb.len();
    le_u32(FRAME_MAGIC) + le_u32(total as u32) + le_u64(f.timestamp) + seq![f.level.code()]
        + le_u16(tb.len() as u16) + le_u32(mb.len() as u32) + tb + mb
}

/// The serialized frame.
pub open spec fn frame_bytes(f: FrameView) -> Seq<u8> {
    let body = frame_body(f);
    body + le_u32(crc32_of(body))
}

/// The frame that `b` starts with, or why none can be read from it.
/// Bytes after the frame's length are not read.
pub open spec fn decode_frame(b: Seq<u8>) -> std::result::Result<FrameView, ScribeError> {
    if b.len() < FRAME_OVERHEAD {
        Err(ScribeError::InvalidFrame)
    } else if get_u32(b, 0) != FRAME_MAGIC {
        Err(ScribeError::InvalidFrame)
    } else {
        let n = get_u32(b, 4) as int;
        if n < FRAME_OVERHEAD || n > b.len() {
            Err(ScribeError::InvalidFrame)
        } else if get_u32(b, n - 4) != crc32_of(b.subrange(0, n - 4)) {
            Err(ScribeError::CrcMismatch)
        } else {
            let tl = get_u16(b, TAG_LEN_AT as int) as int;
            let ml = get_u32(b, MSG_LEN_AT as int) as int;
            if FRAME_OVERHEAD + tl + ml != n {
                Err(ScribeError::InvalidFrame)
            } else {
                let tb = b.subrange(TAG_AT as int, TAG_AT + tl);
                let mb = b.subrange(TAG_AT + tl, TAG_AT + tl + ml);
                match LogLevel::from_code(b[LEVEL_AT as int]) {
                    None => Err(ScribeError::InvalidFrame),
                    Some(level) => if !valid_utf8(tb) || !valid_utf8(mb) {
                        Err(ScribeError::InvalidFrame)
                    } else {
                        Ok(
                            FrameView {
                                timestamp: get_u64(b, TIMESTAMP_AT as int),
                                level,
                                tag: decode_utf8(tb),
                                message: decode_utf8(mb),
                            },
                        )
                    },
                }
            }
        }
    }
}

pub open spec fn frame_result_view(r: &Result<LogFrame>) -> std::result::Result<FrameView, ScribeError> {
    match r {
        Ok(f) => Ok(f@),
        Err(e) => Err(*e),
    }
}

/// `SystemTime::now`: the current time of the system clock.
#[verifier::external_body]
fn system_now() -> std::time::SystemTime {
    std::time::SystemTime::now()
}

/// `SystemTime::duration_since` the Unix epoch: `None` for a time before it.
#[verifier::external_body]
fn since_unix_epoch(t: &std::time::SystemTime) -> Option<std::time::Duration> {
    t.duration_since(std::time::UNIX_EPOCH).ok()
}

/// `Duration::as_millis`: the whole milliseconds of `d`.
#[verifier::external_body]
fn whole_millis(d: &std::time::Duration) -> u128 {
    d.as_millis()
}

/// The timestamp of a clock reading in milliseconds since the epoch: zero
/// for a clock before the epoch, else the count truncated to 64 bits.
pub fn millis_or_zero(millis: Option<u128>) -> (r: u64)
    ensures
        match millis {
            None => r == 0,
            Some(m) => r == m as u64,
        },
{
    match millis {
        None => 0,
        Some(m) => m as u64,
    }
}

/// Milliseconds since the Unix epoch, read from the system clock.
fn unix_time_millis() -> u64 {
    let now = system_now();
    let millis = match since_unix_epoch(&now) {
        Some(d) => Some(whole_millis(&d)),
        None => None,
    };
    millis_or_zero(millis)
}

/// `String::from_utf8`: the string whose UTF-8 encoding is `bytes`, if they are valid UTF-8.
#[verifier::external_body]
pub(crate) fn string_from_utf8(bytes: Vec<u8>) -> (r: Option<String>)
    ensures
        r is Some <==> valid_utf8(bytes@),
        r matches Some(s) ==> s@ == decode_utf8(bytes@),
{
    String::from_utf8(bytes).ok()
}

impl LogFrame {
    /// A frame stamped with the current time.
    pub fn new(level: LogLevel, tag: String, message: String) -> (r: LogFrame)
        ensures
            r.level == level,
            r.tag@ == tag@,
            r.message@ == message@,
    {
        LogFrame { timestamp: unix_time_millis(), level, tag, message }
    }

    /// Encodes the frame; fails with `InvalidFrame` when the tag is longer
    /// than 65535 bytes or the frame longer than `u32::MAX` bytes.
    pub fn serialize(&self) -> (r: Result<Vec<u8>>)
        ensures
            r is Ok <==> frame_fits(self@),
            r matches Ok(v) ==> v@ == frame_bytes(self@),
            r matches Err(e) ==> e == ScribeError::InvalidFrame,
    {
        let tb = self.tag.as_str().as_bytes();
        let mb = self.message.as_str().as_bytes();
        if tb.len() > 0xffff {
            return Err(ScribeError::InvalidFrame);
        }
        if mb.len() as u64 > 0xffff_ffffu64 - 27u64 - tb.len() as u64 {
            return Err(ScribeError::InvalidFrame);
        }
        let total = (FRAME_OVERHEAD + tb.len() + mb.len()) as u32;
        let mut v: Vec<u8> = Vec::new();
        put_u32(&mut v, FRAME_MAGIC);
        put_u32(&mut v, total);
        put_u64(&mut v, self.timestamp);
        v.push(self.level.to_u8());
        put_u16(&mut v, tb.len() as u16);
        put_u32(&mut v, mb.len() as u32);
        let ghost before_tag = v@;
        v.extend_from_slice(tb);
        assert(v@ =~= before_tag + tb@);
        let ghost before_msg = v@;
        v.extend_from_slice(mb);
        assert(v@ =~= before_msg + mb@);
        assert(v@ =~= frame_body(self@));
        let c = crc32(v.as_slice());
        put_u32(&mut v, c);
        Ok(v)
    }

    /// Decodes the frame that `bytes` starts with.
    pub fn deserialize(bytes: &[u8]) -> (r: Result<LogFrame>)
        ensures
            frame_result_view(&r) == decode_frame(bytes@),
    {
        if bytes.len() < FRAME_OVERHEAD {
            return Err(ScribeError::InvalidFrame);
        }
        if read_u32(bytes, 0) != FRAME_MAGIC {
            return Err(ScribeError::InvalidFrame);
        }
        let n = read_u32(bytes, 4) as usize;
        if n < FRAME_OVERHEAD || n > bytes.len() {
            return Err(ScribeError::InvalidFrame);
        }
        let stored = read_u32(bytes, n - 4);
        if stored != crc32(&bytes[0..n - 4]) {
            return Err(ScribeError::CrcMismatch);
        }
        let tl = read_u16(bytes, TAG_LEN_AT) as usize;
        let ml = read_u32(bytes, MSG_LEN_AT) as usize;
        if 27u64 + tl as u64 + ml as u64 != n as u64 {
            return Err(ScribeError::InvalidFrame);
        }
        let level = match LogLevel::from_u8(bytes[LEVEL_AT]) {
            Some(l) => l,
            None => {
                return Err(ScribeError::InvalidFrame);
            },
        };
        let tag_bytes = vstd::slice::slice_to_vec(&bytes[TAG_AT..TAG_AT + tl]);
        let msg_bytes = vstd::slice::slice_to_vec(&bytes[TAG_AT + tl..TAG_AT + tl + ml]);
        let tag = string_from_utf8(tag_bytes);
        let message = string_from_utf8(msg_bytes);
        match (tag, message) {
            (Some(tag), Some(message)) => Ok(
                LogFrame { timestamp: read_u64(bytes, TIMESTAMP_AT), level, tag, message },
            ),
            _ => Err(ScribeError::InvalidFrame),
        }
    }
}

/// Reading back a serialized frame gives the frame again, whatever bytes follow it.
pub proof fn lemma_frame_roundtrip(f: FrameView, rest: Seq<u8>)
    requires
        frame_fits(f),
    ensures
        decode_frame(frame_bytes(f) + rest) == Ok::<FrameView, ScribeError>(f),
{
    let tb = encode_utf8(f.tag);
    let mb = encode_utf8(f.message);
    let tl = tb.len() as int;
    let ml = mb.len() as int;
    let total = FRAME_OVERHEAD + tl + ml;
    let body = frame_body(f);
    let c = crc32_of(body);
    let b = frame_bytes(f) + rest;
    assert(body.len() == 23 + tl + ml);
    assert(b.subrange(0, 4) =~= le_u32(FRAME_MAGIC));
    lemma_u32_roundtrip(FRAME_MAGIC, b, 0);
    assert(b.subrange(4, 8) =~= le_u32(total as u32));
    lemma_u32_roundtrip(total as u32, b, 4);
    assert(b.subrange(8, 16) =~= le_u64(f.timestamp));
    lemma_u64_roundtrip(f.timestamp, b, 8);
    assert(b[16] == f.level.code());
    assert(b.subrange(17, 19) =~= le_u16(tl as u16));
    lemma_u16_roundtrip(tl as u16, b, 17);
    assert(b.subrange(19, 23) =~= le_u32(ml as u32));
    lemma_u32_roundtrip(ml as u32, b, 19);
    assert(b.subrange(0, total - 4) =~= body);
    assert(b.subrange(total - 4, total) =~= le_u32(c));
    lemma_u32_roundtrip(c, b, total - 4);
    assert(b.subrange(23, 23 + tl) =~= tb);
    assert(b.subrange(23 + tl, 23 + tl + ml) =~= mb);
    encode_utf8_valid_utf8(f.tag);
    encode_utf8_valid_utf8(f.message);
    encode_utf8_decode_utf8(f.tag);
    encode_utf8_decode_utf8(f.message);
}

/// The length of a serialized frame: the fixed overhead plus the UTF-8
/// lengths of tag and message.
pub proof fn lemma_frame_len(f: FrameView)
    ensures
        frame_bytes(f).len() == FRAME_OVERHEAD + encode_utf8(f.tag).len() + encode_utf8(f.message).len(),
{
}

/// The magic and length fields of a serialized frame, whatever bytes follow it.
pub proof fn lemma_frame_header(f: FrameView, rest: Seq<u8>)
    requires
        frame_fits(f),
    ensures
        get_u32(frame_bytes(f) + rest, 0) == FRAME_MAGIC,
        get_u32(frame_bytes(f) + rest, 4) as int == frame_bytes(f).len(),
{
    let tb = encode_utf8(f.tag);
    let mb = encode_utf8(f.message);
    let total = FRAME_OVERHEAD + tb.len() + mb.len();
    let b = frame_bytes(f) + rest;
    assert(b.subrange(0, 4) =~= le_u32(FRAME_MAGIC));
    lemma_u32_roundtrip(FRAME_MAGIC, b, 0);
    assert(b.subrange(4, 8) =~= le_u32(total as u32));
    lemma_u32_roundtrip(total as u32, b, 4);
}

} // verus!
