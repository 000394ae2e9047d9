//! Recovery of log frames from buffers that may hold torn or corrupted data.
use vstd::prelude::*;
use vstd::utf8::decode_utf8_encode_utf8;
use crate::error::{Result, ScribeError};
use crate::text::{chars_of, texts};
use crate::storage::codec::{get_u16, get_u32, read_u32};
use crate::storage::frame::{
    decode_frame, frame_bytes, frame_fits, frame_result_view, lemma_frame_len, lemma_frame_roundtrip,
    FrameView, LogFrame, FRAME_MAGIC, MSG_LEN_AT, TAG_AT, TAG_LEN_AT,
};

verus! {

pub const MAGIC_HEADER: u32 = FRAME_MAGIC;

/// The smallest length field that the scanner accepts.
pub const MIN_FRAME_SIZE: usize = 25;

/// The largest length field that the scanner accepts (1 MiB).
pub const MAX_FRAME_SIZE: usize = 1048576;

/// What the scanner finds at one offset of a buffer.
pub enum ScanStep {
    /// Too few bytes remain, or a frame header announces more bytes than remain.
    Stop,
    /// No frame header here.
    Skip,
    /// A frame header whose frame does not decode.
    Corrupt,
    /// A valid frame of the given length.
    Found(FrameView, int),
}

pub open spec fn scan_step(buf: Seq<u8>, off: int) -> ScanStep {
    if off < 0 || off + MIN_FRAME_SIZE > buf.len() {
        ScanStep::Stop
    } else if get_u32(buf, off) != MAGIC_HEADER {
        ScanStep::Skip
    } else {
        let n = get_u32(buf, off + 4) as int;
        if n < MIN_FRAME_SIZE || n > MAX_FRAME_SIZE {
            ScanStep::Skip
        } else if off + n > buf.len() {
            ScanStep::Stop
        } else {
            match decode_frame(buf.subrange(off, off + n)) {
                Ok(f) => ScanStep::Found(f, n),
                Err(_) => ScanStep::Corrupt,
            }
        }
    }
}

pub proof fn lemma_scan_step_len(buf: Seq<u8>, off: int)
    ensures
        scan_step(buf, off) matches ScanStep::Found(_, n) ==> MIN_FRAME_SIZE <= n && off + n <= buf.len(),
        !(scan_step(buf, off) is Stop) ==> 0 <= off && off + MIN_FRAME_SIZE <= buf.len(),
{
}

/// The frames that a scan from `off` recovers: at each offset a valid frame
/// is taken whole, anything else is stepped over one byte at a time, and the
/// scan ends where too few bytes remain or a frame is cut off.
pub open spec fn scan_frames(buf: Seq<u8>, off: int) -> Seq<FrameView>
    decreases buf.len() - off,
{
    proof {
        lemma_scan_step_len(buf, off);
    }
    match scan_step(buf, off) {
        ScanStep::Stop => Seq::empty(),
        ScanStep::Skip => scan_frames(buf, off + 1),
        ScanStep::Corrupt => scan_frames(buf, off + 1),
        ScanStep::Found(f, n) => seq![f] + scan_frames(buf, off + n),
    }
}

/// The counts of a scan from `off`: frames found, corrupted frame headers,
/// and bytes in the frames found.
pub open spec fn scan_stats(buf: Seq<u8>, off: int) -> (nat, nat, nat)
    decreases buf.len() - off,
{
    proof {
        lemma_scan_step_len(buf, off);
    }
    match scan_step(buf, off) {
        ScanStep::Stop => (0, 0, 0),
        ScanStep::Skip => scan_stats(buf, off + 1),
        ScanStep::Corrupt => {
            let s = scan_stats(buf, off + 1);
            (s.0, s.1 + 1, s.2)
        },
        ScanStep::Found(_, n) => {
            let s = scan_stats(buf, off + n);
            (s.0 + 1, s.1, s.2 + n as nat)
        },
    }
}

pub proof fn lemma_scan_stats_bound(buf: Seq<u8>, off: int)
    requires
        0 <= off <= buf.len(),
    ensures
        scan_stats(buf, off).0 <= buf.len() - off,
        scan_stats(buf, off).1 <= buf.len() - off,
        scan_stats(buf, off).2 <= buf.len() - off,
    decreases buf.len() - off,
{
    lemma_scan_step_len(buf, off);
    match scan_step(buf, off) {
        ScanStep::Stop => {},
        ScanStep::Skip => lemma_scan_stats_bound(buf, off + 1),
        ScanStep::Corrupt => lemma_scan_stats_bound(buf, off + 1),
        ScanStep::Found(_, n) => lemma_scan_stats_bound(buf, off + n),
    }
}

pub open spec fn frame_views(s: Seq<LogFrame>) -> Seq<FrameView> {
    s.map_values(|f: LogFrame| f@)
}

/// What `step_at` finds at one offset.
enum Step {
    Stop,
    Skip,
    Corrupt,
    Found(LogFrame, usize),
}

/// Decodes the scanner's step at `off`.
fn step_at(buf: &[u8], off: usize) -> (r: Step)
    requires
        off <= buf@.len(),
    ensures
        match r {
            Step::Stop => scan_step(buf@, off as int) is Stop,
            Step::Skip => scan_step(buf@, off as int) is Skip,
            Step::Corrupt => scan_step(buf@, off as int) is Corrupt,
            Step::Found(f, n) => scan_step(buf@, off as int) == ScanStep::Found(f@, n as int),
        },
{
    if buf.len() < MIN_FRAME_SIZE || off > buf.len() - MIN_FRAME_SIZE {
        return Step::Stop;
    }
    if read_u32(buf, off) != MAGIC_HEADER {
        return Step::Skip;
    }
    let n = read_u32(buf, off + 4) as usize;
    if n < MIN_FRAME_SIZE || n > MAX_FRAME_SIZE {
        return Step::Skip;
    }
    if n > buf.len() - off {
        return Step::Stop;
    }
    let r = LogFrame::deserialize(&buf[off..off + n]);
    assert(frame_result_view(&r) == decode_frame(buf@.subrange(off as int, off + n)));
    match r {
        Ok(f) => Step::Found(f, n),
        Err(_) => Step::Corrupt,
    }
}

/// Recovers every valid frame of `buffer`, in order.
pub fn recover_frames(buffer: &[u8]) -> (frames: Vec<LogFrame>)
    ensures
        frame_views(frames@) == scan_frames(buffer@, 0),
{
    let len = buffer.len();
    let mut frames: Vec<LogFrame> = Vec::new();
    let mut offset: usize = 0;
    let mut done = false;
    while !done
        invariant
            offset <= buffer@.len(),
            len == buffer@.len(),
            frame_views(frames@) + scan_frames(buffer@, offset as int) == scan_frames(buffer@, 0),
            done ==> scan_frames(buffer@, offset as int) == Seq::<FrameView>::empty(),
        decreases buffer@.len() - offset + (if done { 0int } else { 1int }),
    {
        let ghost old_frames = frames@;
        proof {
            lemma_scan_step_len(buffer@, offset as int);
        }
        match step_at(buffer, offset) {
            Step::Stop => {
                done = true;
            },
            Step::Skip => {
                offset = offset + 1;
            },
            Step::Corrupt => {
                offset = offset + 1;
            },
            Step::Found(f, n) => {
                let next = offset + n;
                frames.push(f);
                assert(frame_views(frames@) =~= frame_views(old_frames).push(f@));
                assert(frame_views(frames@) + scan_frames(buffer@, next as int) =~= frame_views(
                    old_frames,
                ) + (seq![f@] + scan_frames(buffer@, next as int)));
                offset = next;
            },
        }
    }
    assert(frame_views(frames@) + Seq::<FrameView>::empty() =~= frame_views(frames@));
    frames
}

fn scan_counts(buffer: &[u8]) -> (r: (usize, usize, u64))
    ensures
        r.0 == scan_stats(buffer@, 0).0,
        r.1 == scan_stats(buffer@, 0).1,
        r.2 == scan_stats(buffer@, 0).2,
{
    let len = buffer.len();
    let mut found: usize = 0;
    let mut corrupted: usize = 0;
    let mut bytes: u64 = 0;
    let mut offset: usize = 0;
    let mut done = false;
    proof {
        lemma_scan_stats_bound(buffer@, 0);
    }
    while !done
        invariant
            offset <= buffer@.len(),
            len == buffer@.len(),
            found + scan_stats(buffer@, offset as int).0 == scan_stats(buffer@, 0).0,
            corrupted + scan_stats(buffer@, offset as int).1 == scan_stats(buffer@, 0).1,
            bytes + scan_stats(buffer@, offset as int).2 == scan_stats(buffer@, 0).2,
            scan_stats(buffer@, 0).0 <= len,
            scan_stats(buffer@, 0).1 <= len,
            scan_stats(buffer@, 0).2 <= len,
            done ==> scan_stats(buffer@, offset as int) == (0nat, 0nat, 0nat),
        decreases buffer@.len() - offset + (if done { 0int } else { 1int }),
    {
        proof {
            lemma_scan_step_len(buffer@, offset as int);
            lemma_scan_stats_bound(buffer@, offset as int);
        }
        match step_at(buffer, offset) {
            Step::Stop => {
                done = true;
            },
            Step::Skip => {
                offset = offset + 1;
            },
            Step::Corrupt => {
                corrupted = corrupted + 1;
                offset = offset + 1;
            },
            Step::Found(_, n) => {
                found = found + 1;
                bytes = bytes + n as u64;
                offset = offset + n;
            },
        }
    }
    (found, corrupted, bytes)
}

/// Counts of a recovery run.
#[derive(Debug, Clone, Copy)]
pub struct RecoveryReport {
    pub files_processed: usize,
    pub frames_recovered: usize,
    pub frames_corrupted: usize,
    pub bytes_recovered: u64,
}

impl RecoveryReport {
    pub fn new() -> (r: RecoveryReport)
        ensures
            r.files_processed == 0,
            r.frames_recovered == 0,
            r.frames_corrupted == 0,
            r.bytes_recovered == 0,
    {
        RecoveryReport { files_processed: 0, frames_recovered: 0, frames_corrupted: 0, bytes_recovered: 0 }
    }

    /// Adds the counts of `other` to this report.
    pub fn merge(&mut self, other: &RecoveryReport)
        requires
            old(self).files_processed + other.files_processed <= usize::MAX,
            old(self).frames_recovered + other.frames_recovered <= usize::MAX,
            old(self).frames_corrupted + other.frames_corrupted <= usize::MAX,
            old(self).bytes_recovered + other.bytes_recovered <= u64::MAX,
        ensures
            final(self).files_processed == old(self).files_processed + other.files_processed,
            final(self).frames_recovered == old(self).frames_recovered + other.frames_recovered,
            final(self).frames_corrupted == old(self).frames_corrupted + other.frames_corrupted,
            final(self).bytes_recovered == old(self).bytes_recovered + other.bytes_recovered,
    {
        self.files_processed = self.files_processed + other.files_processed;
        self.frames_recovered = self.frames_recovered + other.frames_recovered;
        self.frames_corrupted = self.frames_corrupted + other.frames_corrupted;
        self.bytes_recovered = self.bytes_recovered + other.bytes_recovered;
    }
}

/// Recovery of the buffers found in one log directory.
pub struct Recovery {
    log_dir: std::path::PathBuf,
}

impl Recovery {
    pub closed spec fn dir(&self) -> std::path::PathBuf {
        self.log_dir
    }

    pub fn new(log_dir: std::path::PathBuf) -> (r: Recovery)
        ensures
            r.dir() == log_dir,
    {
        Recovery { log_dir }
    }

    /// The directory whose buffers this recovery reads.
    pub fn log_dir(&self) -> (r: &std::path::PathBuf)
        ensures
            *r == self.dir(),
    {
        &self.log_dir
    }

    /// The valid frames of one buffer file's contents, in order.
    pub fn validate_and_recover(&self, contents: &[u8]) -> (frames: Vec<LogFrame>)
        ensures
            frame_views(frames@) == scan_frames(contents@, 0),
    {
        recover_frames(contents)
    }

    /// The report of scanning one buffer file's contents.
    pub fn recover_file(&self, contents: &[u8]) -> (r: RecoveryReport)
        ensures
            r.files_processed == 1,
            r.frames_recovered == scan_stats(contents@, 0).0,
            r.frames_corrupted == scan_stats(contents@, 0).1,
            r.bytes_recovered == scan_stats(contents@, 0).2,
    {
        let (found, corrupted, bytes) = scan_counts(contents);
        RecoveryReport { files_processed: 1, frames_recovered: found, frames_corrupted: corrupted, bytes_recovered: bytes }
    }
}

/// The bytes of `fs` serialized one after another.
pub open spec fn frames_bytes(fs: Seq<FrameView>) -> Seq<u8>
    decreases fs.len(),
{
    if fs.len() == 0 {
        Seq::empty()
    } else {
        frame_bytes(fs[0]) + frames_bytes(fs.drop_first())
    }
}

/// A frame that serializes and that the scanner accepts by its length.
pub open spec fn scannable(f: FrameView) -> bool {
    frame_fits(f) && frame_bytes(f).len() <= MAX_FRAME_SIZE
}

/// Scanning from offset `a.len() + k` of `a + b` is scanning from `k` of `b`.
pub proof fn lemma_scan_shift(a: Seq<u8>, b: Seq<u8>, k: int)
    requires
        0 <= k,
    ensures
        scan_frames(a + b, a.len() + k) == scan_frames(b, k),
    decreases b.len() - k,
{
    let ab = a + b;
    let o = a.len() + k;
    lemma_scan_step_len(b, k);
    lemma_scan_step_len(ab, o);
    if k + MIN_FRAME_SIZE <= b.len() {
        assert(get_u32(ab, o) == get_u32(b, k)) by {
            assert(ab[o] == b[k]);
            assert(ab[o + 1] == b[k + 1]);
            assert(ab[o + 2] == b[k + 2]);
            assert(ab[o + 3] == b[k + 3]);
        }
        assert(get_u32(ab, o + 4) == get_u32(b, k + 4)) by {
            assert(ab[o + 4] == b[k + 4]);
            assert(ab[o + 5] == b[k + 5]);
            assert(ab[o + 6] == b[k + 6]);
            assert(ab[o + 7] == b[k + 7]);
        }
        let n = get_u32(b, k + 4) as int;
        if k + n <= b.len() {
            assert(ab.subrange(o, o + n) =~= b.subrange(k, k + n));
        }
        assert(scan_step(ab, o) == scan_step(b, k));
        match scan_step(b, k) {
            ScanStep::Stop => {},
            ScanStep::Skip => lemma_scan_shift(a, b, k + 1),
            ScanStep::Corrupt => lemma_scan_shift(a, b, k + 1),
            ScanStep::Found(_, n) => lemma_scan_shift(a, b, k + n),
        }
    }
}

/// A scannable frame at the start of a buffer is recovered, and the scan
/// goes on right after it.
pub proof fn lemma_scan_frame_first(f: FrameView, rest: Seq<u8>)
    requires
        scannable(f),
    ensures
        scan_frames(frame_bytes(f) + rest, 0) == seq![f] + scan_frames(rest, 0),
{
    let fb = frame_bytes(f);
    let b = fb + rest;
    let n = fb.len() as int;
    lemma_frame_roundtrip(f, rest);
    lemma_frame_roundtrip(f, Seq::empty());
    assert(fb + Seq::<u8>::empty() =~= fb);
    assert(b.subrange(0, n) =~= fb);
    assert(get_u32(b, 0) == get_u32(fb, 0));
    assert(get_u32(b, 4) == get_u32(fb, 4));
    assert(get_u32(b, 4) as int == n) by {
        crate::storage::frame::lemma_frame_len(f);
        crate::storage::frame::lemma_frame_header(f, rest);
    }
    assert(scan_step(b, 0) == ScanStep::Found(f, n));
    lemma_scan_shift(fb, rest, 0);
}

/// Frames written one after another are all recovered, in order, before
/// whatever follows them.
pub proof fn lemma_scan_concat(fs: Seq<FrameView>, rest: Seq<u8>)
    requires
        forall|i: int| 0 <= i < fs.len() ==> #[trigger] scannable(fs[i]),
    ensures
        scan_frames(frames_bytes(fs) + rest, 0) == fs + scan_frames(rest, 0),
    decreases fs.len(),
{
    if fs.len() == 0 {
        assert(frames_bytes(fs) + rest =~= rest);
        assert(fs + scan_frames(rest, 0) =~= scan_frames(rest, 0));
    } else {
        let tail = fs.drop_first();
        assert forall|i: int| 0 <= i < tail.len() implies #[trigger] scannable(tail[i]) by {
            assert(tail[i] == fs[i + 1]);
            assert(scannable(fs[i + 1]));
        }
        lemma_scan_concat(tail, rest);
        assert(scannable(fs[0]));
        assert(frames_bytes(fs) + rest =~= frame_bytes(fs[0]) + (frames_bytes(tail) + rest));
        lemma_scan_frame_first(fs[0], frames_bytes(tail) + rest);
        assert(fs =~= seq![fs[0]] + tail);
        assert(fs + scan_frames(rest, 0) =~= seq![fs[0]] + (tail + scan_frames(rest, 0)));
    }
}

/// A frame cut off before its end yields nothing.
pub proof fn lemma_scan_truncated(g: FrameView, k: int)
    requires
        scannable(g),
        0 <= k < frame_bytes(g).len(),
    ensures
        scan_frames(frame_bytes(g).take(k), 0) == Seq::<FrameView>::empty(),
{
    let gb = frame_bytes(g);
    let t = gb.take(k);
    lemma_scan_step_len(t, 0);
    if MIN_FRAME_SIZE <= k {
        assert(get_u32(t, 0) == get_u32(gb, 0));
        assert(get_u32(t, 4) == get_u32(gb, 4));
        crate::storage::frame::lemma_frame_len(g);
        crate::storage::frame::lemma_frame_header(g, Seq::empty());
        assert(gb + Seq::<u8>::empty() =~= gb);
        assert(scan_step(t, 0) is Stop);
    }
}

/// Crash resilience: when a crash tears the last write, every frame written
/// before it is recovered, in order, and nothing else.
pub proof fn lemma_recovery_after_torn_write(fs: Seq<FrameView>, g: FrameView, k: int)
    requires
        forall|i: int| 0 <= i < fs.len() ==> #[trigger] scannable(fs[i]),
        scannable(g),
        0 <= k < frame_bytes(g).len(),
    ensures
        scan_frames(frames_bytes(fs) + frame_bytes(g).take(k), 0) == fs,
{
    lemma_scan_concat(fs, frame_bytes(g).take(k));
    lemma_scan_truncated(g, k);
    assert(fs + Seq::<FrameView>::empty() =~= fs);
}

/// Whether the scan of `buf` finds no frame at any offset in `from..to`:
/// it steps over each of them, as junk or as a damaged frame.
pub open spec fn stepped_over(buf: Seq<u8>, from: int, to: int) -> bool {
    forall|j: int| from <= j < to ==> (#[trigger] scan_step(buf, j) is Skip || scan_step(buf, j) is Corrupt)
}

proof fn lemma_scan_over(buf: Seq<u8>, j: int, to: int)
    requires
        0 <= j <= to,
        stepped_over(buf, j, to),
    ensures
        scan_frames(buf, j) == scan_frames(buf, to),
    decreases to - j,
{
    if j < to {
        assert(scan_step(buf, j) is Skip || scan_step(buf, j) is Corrupt);
        lemma_scan_over(buf, j + 1, to);
    }
}

/// Resynchronisation: after damaged bytes in which the scan finds no frame
/// (junk, a frame with a broken checksum, a header with an impossible
/// length), recovery picks up the next frame: the frames before the damage
/// and every frame after it are recovered, in order, and nothing from the
/// damage itself.
pub proof fn lemma_recovery_skips_damage(fs: Seq<FrameView>, junk: Seq<u8>, g: FrameView, rest: Seq<u8>)
    requires
        forall|i: int| 0 <= i < fs.len() ==> #[trigger] scannable(fs[i]),
        scannable(g),
        stepped_over(junk + (frame_bytes(g) + rest), 0, junk.len() as int),
    ensures
        scan_frames(frames_bytes(fs) + junk + frame_bytes(g) + rest, 0) == fs + seq![g] + scan_frames(rest, 0),
{
    let tail = frame_bytes(g) + rest;
    let buf = frames_bytes(fs) + junk + frame_bytes(g) + rest;
    assert(buf =~= frames_bytes(fs) + (junk + tail));
    lemma_scan_concat(fs, junk + tail);
    lemma_scan_over(junk + tail, 0, junk.len() as int);
    lemma_scan_shift(junk, tail, 0);
    lemma_scan_frame_first(g, rest);
    assert(fs + (seq![g] + scan_frames(rest, 0)) =~= fs + seq![g] + scan_frames(rest, 0));
}

/// Junk with no frame magic in it, up to the next frame, is stepped over.
pub proof fn lemma_no_magic_stepped_over(junk: Seq<u8>, g: FrameView, rest: Seq<u8>)
    requires
        scannable(g),
        forall|j: int| 0 <= j < junk.len() ==> #[trigger] get_u32(junk + (frame_bytes(g) + rest), j) != MAGIC_HEADER,
    ensures
        stepped_over(junk + (frame_bytes(g) + rest), 0, junk.len() as int),
{
    let buf = junk + (frame_bytes(g) + rest);
    crate::storage::frame::lemma_frame_len(g);
    assert forall|j: int| 0 <= j < junk.len() implies (#[trigger] scan_step(buf, j) is Skip || scan_step(buf, j) is Corrupt) by {
        assert(get_u32(buf, j) != MAGIC_HEADER);
        assert(j + MIN_FRAME_SIZE <= buf.len());
    }
}

/// A frame decoded from bytes encodes again, to as many bytes as its length
/// field gives.
pub proof fn lemma_decoded_fits(b: Seq<u8>)
    ensures
        decode_frame(b) matches Ok(f) ==> frame_fits(f) && frame_bytes(f).len() == get_u32(b, 4) as int,
{
    match decode_frame(b) {
        Ok(f) => {
            let tl = get_u16(b, TAG_LEN_AT as int) as int;
            let ml = get_u32(b, MSG_LEN_AT as int) as int;
            decode_utf8_encode_utf8(b.subrange(TAG_AT as int, TAG_AT + tl));
            decode_utf8_encode_utf8(b.subrange(TAG_AT + tl, TAG_AT + tl + ml));
            lemma_frame_len(f);
        },
        Err(_) => {},
    }
}

/// Every frame that a scan finds encodes again; the encodings together are
/// exactly as long as the frames that the scan counted.
pub proof fn lemma_scanned_frames(buf: Seq<u8>, off: int)
    requires
        0 <= off <= buf.len(),
    ensures
        forall|i: int| 0 <= i < scan_frames(buf, off).len() ==> frame_fits(#[trigger] scan_frames(buf, off)[i]),
        frames_bytes(scan_frames(buf, off)).len() == scan_stats(buf, off).2,
        scan_frames(buf, off).len() == scan_stats(buf, off).0,
    decreases buf.len() - off,
{
    lemma_scan_step_len(buf, off);
    match scan_step(buf, off) {
        ScanStep::Stop => {},
        ScanStep::Skip => lemma_scanned_frames(buf, off + 1),
        ScanStep::Corrupt => lemma_scanned_frames(buf, off + 1),
        ScanStep::Found(f, n) => {
            lemma_scanned_frames(buf, off + n);
            let sub = buf.subrange(off, off + n);
            lemma_decoded_fits(sub);
            assert(get_u32(sub, 4) == get_u32(buf, off + 4));
            let rest = scan_frames(buf, off + n);
            let all = scan_frames(buf, off);
            assert(all == seq![f] + rest);
            assert(all.drop_first() =~= rest);
            assert forall|i: int| 0 <= i < all.len() implies frame_fits(#[trigger] all[i]) by {
                if i > 0 {
                    assert(all[i] == rest[i - 1]);
                }
            }
        },
    }
}

/// The gzip stream, at the default compression level of
/// `flate2::write::GzEncoder`, of `data` written in one piece.
pub uninterp spec fn gzip_stream(data: Seq<u8>) -> Seq<u8>;

/// `flate2::write::GzEncoder` over a vector at the default level: writes
/// `data` and finishes the stream, whose bytes it gives. It succeeds: the
/// output is a `Vec`, whose writes do not fail, and the deflate stream is
/// driven only by `write_all` and then `finish`.
#[verifier::external_body]
fn gzip_encode(data: &[u8]) -> (r: std::io::Result<Vec<u8>>)
    ensures
        r is Ok,
        r matches Ok(v) ==> v@ == gzip_stream(data@),
{
    let mut encoder = flate2::write::GzEncoder::new(Vec::new(), flate2::Compression::default());
    std::io::Write::write_all(&mut encoder, data)?;
    encoder.finish()
}

/// The buffer files' contents as plain sequences: `None` for a file that
/// could not be read.
pub open spec fn contents_view(files: Seq<Option<Vec<u8>>>) -> Seq<Option<Seq<u8>>> {
    files.map_values(|o: Option<Vec<u8>>| match o {
        Some(v) => Some(v@),
        None => None,
    })
}

/// How many frames a recovery of all these files finds.
pub open spec fn recovered_count(files: Seq<Option<Seq<u8>>>) -> int
    decreases files.len(),
{
    if files.len() == 0 {
        0
    } else {
        recovered_count(files.drop_last()) + match files.last() {
            Some(c) => scan_frames(c, 0).len() as int,
            None => 0,
        }
    }
}

/// How many of these files could not be read.
pub open spec fn unread_count(files: Seq<Option<Seq<u8>>>) -> int
    decreases files.len(),
{
    if files.len() == 0 {
        0
    } else {
        unread_count(files.drop_last()) + if files.last() is None { 1int } else { 0int }
    }
}

/// The archive of a recovery of all these files: the valid frames of each
/// file that was read, encoded again, file after file.
pub open spec fn archive_of(files: Seq<Option<Seq<u8>>>) -> Seq<u8>
    decreases files.len(),
{
    if files.len() == 0 {
        Seq::empty()
    } else {
        archive_of(files.drop_last()) + match files.last() {
            Some(c) => frames_bytes(scan_frames(c, 0)),
            None => Seq::empty(),
        }
    }
}

proof fn lemma_recovery_totals_grow(files: Seq<Option<Seq<u8>>>, k: int)
    requires
        0 <= k <= files.len(),
    ensures
        recovered_count(files.subrange(0, k)) <= recovered_count(files),
        archive_of(files.subrange(0, k)).len() <= archive_of(files).len(),
        0 <= recovered_count(files.subrange(0, k)),
    decreases files.len() - k,
{
    if k < files.len() {
        lemma_recovery_totals_grow(files, k + 1);
        assert(files.subrange(0, k + 1).drop_last() =~= files.subrange(0, k));
    } else {
        assert(files.subrange(0, k) =~= files);
    }
    if k > 0 {
        lemma_recovery_totals_nonneg(files.subrange(0, k));
    }
}

proof fn lemma_recovery_totals_nonneg(files: Seq<Option<Seq<u8>>>)
    ensures
        0 <= recovered_count(files),
    decreases files.len(),
{
    if files.len() > 0 {
        lemma_recovery_totals_nonneg(files.drop_last());
    }
}

impl Recovery {
    /// Adds one buffer file to a recovery of the whole directory in progress.
    /// A file that was read (`Some`) has its valid frames encoded again onto
    /// `archive` and counted; one that could not be read (`None`) counts as
    /// one corrupted frame.
    pub fn archive_file(&self, report: &mut RecoveryReport, archive: &mut Vec<u8>, contents: Option<&[u8]>)
        requires
            old(report).files_processed < usize::MAX,
            contents is None ==> old(report).frames_corrupted < usize::MAX,
            contents matches Some(c) ==> old(report).frames_recovered + scan_stats(c@, 0).0 <= usize::MAX,
            contents matches Some(c) ==> old(report).bytes_recovered + scan_stats(c@, 0).2 <= u64::MAX,
        ensures
            final(report).files_processed == old(report).files_processed + 1,
            match contents {
                None => {
                    &&& final(report).frames_corrupted == old(report).frames_corrupted + 1
                    &&& final(report).frames_recovered == old(report).frames_recovered
                    &&& final(report).bytes_recovered == old(report).bytes_recovered
                    &&& final(archive)@ == old(archive)@
                },
                Some(c) => {
                    &&& final(report).frames_corrupted == old(report).frames_corrupted
                    &&& final(report).frames_recovered == old(report).frames_recovered + scan_frames(c@, 0).len()
                    &&& final(report).bytes_recovered == old(report).bytes_recovered + frames_bytes(
                        scan_frames(c@, 0),
                    ).len()
                    &&& final(archive)@ == old(archive)@ + frames_bytes(scan_frames(c@, 0))
                },
            },
    {
        report.files_processed = report.files_processed + 1;
        match contents {
            None => {
                report.frames_corrupted = report.frames_corrupted + 1;
            },
            Some(c) => {
                let frames = recover_frames(c);
                let ghost fs = scan_frames(c@, 0);
                let ghost start = archive@;
                let ghost bytes0 = report.bytes_recovered;
                proof {
                    lemma_scanned_frames(c@, 0);
                }
                let mut i: usize = 0;
                while i < frames.len()
                    invariant
                        i <= frames@.len(),
                        frame_views(frames@) == fs,
                        fs.len() == scan_stats(c@, 0).0,
                        frames_bytes(fs).len() == scan_stats(c@, 0).2,
                        forall|j: int| 0 <= j < fs.len() ==> frame_fits(#[trigger] fs[j]),
                        bytes0 + scan_stats(c@, 0).2 <= u64::MAX,
                        report.files_processed == old(report).files_processed + 1,
                        report.frames_corrupted == old(report).frames_corrupted,
                        report.frames_recovered == old(report).frames_recovered,
                        old(report).frames_recovered + scan_stats(c@, 0).0 <= usize::MAX,
                        archive@ == start + frames_bytes(fs.subrange(0, i as int)),
                        report.bytes_recovered == bytes0 + frames_bytes(fs.subrange(0, i as int)).len(),
                    decreases frames@.len() - i,
                {
                    proof {
                        assert(frame_views(frames@)[i as int] == frames@[i as int]@);
                        lemma_frames_bytes_split(fs, i as int);
                        lemma_frames_bytes_split(fs, i + 1);
                        lemma_frames_bytes_split(fs.subrange(0, i + 1), i as int);
                        assert(fs.subrange(0, i + 1).subrange(0, i as int) =~= fs.subrange(0, i as int));
                        assert(fs.subrange(0, i + 1).subrange(i as int, i + 1) =~= seq![fs[i as int]]);
                        lemma_frames_bytes_single(fs[i as int]);
                    }
                    let bytes = match frames[i].serialize() {
                        Ok(v) => v,
                        Err(_) => {
                            proof {
                                assert(false);
                            }
                            Vec::new()
                        },
                    };
                    let n = bytes.len() as u64;
                    let ghost before = archive@;
                    archive.extend_from_slice(bytes.as_slice());
                    report.bytes_recovered = report.bytes_recovered + n;
                    proof {
                        assert(bytes@ == frame_bytes(fs[i as int]));
                        assert(frames_bytes(fs.subrange(0, i + 1)) == frames_bytes(fs.subrange(0, i as int))
                            + frame_bytes(fs[i as int]));
                        assert(archive@ =~= start + frames_bytes(fs.subrange(0, i + 1)));
                    }
                    i = i + 1;
                }
                proof {
                    assert(fs.subrange(0, fs.len() as int) =~= fs);
                }
                report.frames_recovered = report.frames_recovered + frames.len();
            },
        }
    }

    /// Recovers a whole directory's buffer files, given in scan order: each
    /// file that was read adds its valid frames, encoded again, to the
    /// archive and counts them; each file that could not be read counts as
    /// one corrupted frame.
    pub fn archive_files(&self, files: &Vec<Option<Vec<u8>>>) -> (r: (RecoveryReport, Vec<u8>))
        requires
            recovered_count(contents_view(files@)) <= usize::MAX,
            archive_of(contents_view(files@)).len() <= u64::MAX,
        ensures
            r.0.files_processed == files@.len(),
            r.0.frames_recovered == recovered_count(contents_view(files@)),
            r.0.frames_corrupted == unread_count(contents_view(files@)),
            r.0.bytes_recovered == archive_of(contents_view(files@)).len(),
            r.1@ == archive_of(contents_view(files@)),
    {
        let ghost all = contents_view(files@);
        let mut report = RecoveryReport::new();
        let mut archive: Vec<u8> = Vec::new();
        let mut i: usize = 0;
        proof {
            assert(all.subrange(0, 0) =~= Seq::<Option<Seq<u8>>>::empty());
        }
        while i < files.len()
            invariant
                i <= files@.len(),
                all == contents_view(files@),
                all.len() == files@.len(),
                recovered_count(all) <= usize::MAX,
                archive_of(all).len() <= u64::MAX,
                report.files_processed == i,
                report.frames_recovered == recovered_count(all.subrange(0, i as int)),
                report.frames_corrupted == unread_count(all.subrange(0, i as int)),
                unread_count(all.subrange(0, i as int)) <= i,
                report.bytes_recovered == archive_of(all.subrange(0, i as int)).len(),
                archive@ == archive_of(all.subrange(0, i as int)),
            decreases files@.len() - i,
        {
            let ghost pre = all.subrange(0, i as int);
            let ghost next = all.subrange(0, i + 1);
            proof {
                assert(next.drop_last() =~= pre);
                assert(next.last() == all[i as int]);
                lemma_recovery_totals_grow(all, i + 1);
            }
            match &files[i] {
                Some(v) => {
                    proof {
                        assert(all[i as int] == Some(v@));
                        lemma_scanned_frames(v@, 0);
                    }
                    self.archive_file(&mut report, &mut archive, Some(v.as_slice()));
                },
                None => {
                    proof {
                        assert(all[i as int] is None);
                    }
                    self.archive_file(&mut report, &mut archive, None);
                },
            }
            i = i + 1;
        }
        proof {
            assert(all.subrange(0, i as int) =~= all);
        }
        (report, archive)
    }

    /// The gzip stream of the recovered frames, as the archive file holds it.
    pub fn archive_bytes(archive: &[u8]) -> (r: Result<Vec<u8>>)
        ensures
            r matches Ok(v) && v@ == gzip_stream(archive@),
    {
        match gzip_encode(archive) {
            Ok(v) => Ok(v),
            Err(e) => Err(ScribeError::Io(e)),
        }
    }
}

proof fn lemma_frames_bytes_single(f: FrameView)
    ensures
        frames_bytes(seq![f]) == frame_bytes(f),
{
    assert(seq![f].drop_first() =~= Seq::<FrameView>::empty());
    assert(frames_bytes(Seq::<FrameView>::empty()) == Seq::<u8>::empty());
    assert(frame_bytes(f) + Seq::<u8>::empty() =~= frame_bytes(f));
}

/// The encodings of a list of frames split where the list does.
pub proof fn lemma_frames_bytes_split(fs: Seq<FrameView>, k: int)
    requires
        0 <= k <= fs.len(),
    ensures
        frames_bytes(fs) == frames_bytes(fs.subrange(0, k)) + frames_bytes(fs.subrange(k, fs.len() as int)),
    decreases k,
{
    if k == 0 {
        assert(fs.subrange(0, 0) =~= Seq::<FrameView>::empty());
        assert(fs.subrange(0, fs.len() as int) =~= fs);
        assert(frames_bytes(Seq::<FrameView>::empty()) + frames_bytes(fs) =~= frames_bytes(fs));
    } else {
        let d = fs.drop_first();
        lemma_frames_bytes_split(d, k - 1);
        assert(fs.subrange(0, k).drop_first() =~= d.subrange(0, k - 1));
        assert(fs.subrange(k, fs.len() as int) =~= d.subrange(k - 1, d.len() as int));
        assert(fs.subrange(0, k)[0] == fs[0]);
        assert(frames_bytes(fs.subrange(0, k)) == frame_bytes(fs[0]) + frames_bytes(d.subrange(0, k - 1)));
        assert(frame_bytes(fs[0]) + frames_bytes(d.subrange(0, k - 1)) + frames_bytes(d.subrange(k - 1, d.len() as int))
            =~= frame_bytes(fs[0]) + (frames_bytes(d.subrange(0, k - 1)) + frames_bytes(d.subrange(k - 1, d.len() as int))));
    }
}

/// Whether a file name carries the extension `mmap` of buffer files: it ends
/// in `.mmap` with at least one character before the dot.
pub open spec fn is_buffer_file_name(name: Seq<char>) -> bool {
    name.len() > 5 && name.subrange(name.len() - 5, name.len() as int) == ".mmap"@
}

/// Texts in lexicographic order, character by character; a text comes
/// after every proper prefix of it.
pub open spec fn text_le(a: Seq<char>, b: Seq<char>) -> bool
    decreases a.len(),
{
    if a.len() == 0 {
        true
    } else if b.len() == 0 {
        false
    } else if a[0] != b[0] {
        a[0] < b[0]
    } else {
        text_le(a.drop_first(), b.drop_first())
    }
}

/// Of two texts, one comes first.
pub proof fn lemma_text_le_total(a: Seq<char>, b: Seq<char>)
    ensures
        text_le(a, b) || text_le(b, a),
    decreases a.len(),
{
    if a.len() > 0 && b.len() > 0 && a[0] == b[0] {
        lemma_text_le_total(a.drop_first(), b.drop_first());
    }
}

/// The order of texts is transitive.
pub proof fn lemma_text_le_trans(a: Seq<char>, b: Seq<char>, c: Seq<char>)
    requires
        text_le(a, b),
        text_le(b, c),
    ensures
        text_le(a, c),
    decreases a.len(),
{
    if a.len() > 0 && b.len() > 0 && c.len() > 0 && a[0] == b[0] && b[0] == c[0] {
        lemma_text_le_trans(a.drop_first(), b.drop_first(), c.drop_first());
    }
}

/// The buffer file names among the first `k` names, in order.
pub open spec fn buffer_names_upto(names: Seq<Seq<char>>, k: int) -> Seq<Seq<char>>
    decreases k,
{
    if k <= 0 {
        Seq::empty()
    } else if is_buffer_file_name(names[k - 1]) {
        buffer_names_upto(names, k - 1).push(names[k - 1])
    } else {
        buffer_names_upto(names, k - 1)
    }
}

/// Whether `name` is a buffer file name.
fn is_buffer_name(name: &str) -> (r: bool)
    ensures
        r == is_buffer_file_name(name@),
{
    let cs = chars_of(name);
    let n = cs.len();
    proof {
        reveal_strlit(".mmap");
    }
    if n <= 5 {
        return false;
    }
    let r = cs[n - 5] == '.' && cs[n - 4] == 'm' && cs[n - 3] == 'm' && cs[n - 2] == 'a' && cs[n - 1] == 'p';
    proof {
        let tail = cs@.subrange(n - 5, n as int);
        if r {
            assert(tail =~= ".mmap"@);
        } else {
            if tail == ".mmap"@ {
                assert(tail[0] == '.' && tail[1] == 'm' && tail[2] == 'm' && tail[3] == 'a' && tail[4] == 'p');
            }
        }
    }
    r
}

/// Whether `a` comes no later than `b` in text order.
fn text_le_of(a: &[char], b: &[char]) -> (r: bool)
    ensures
        r == text_le(a@, b@),
{
    let mut i: usize = 0;
    assert(a@.subrange(0, a@.len() as int) =~= a@);
    assert(b@.subrange(0, b@.len() as int) =~= b@);
    while i < a.len() && i < b.len() && a[i] == b[i]
        invariant
            i <= a@.len(),
            i <= b@.len(),
            text_le(a@, b@) == text_le(a@.subrange(i as int, a@.len() as int), b@.subrange(i as int, b@.len() as int)),
        decreases a@.len() - i,
    {
        proof {
            let sa = a@.subrange(i as int, a@.len() as int);
            let sb = b@.subrange(i as int, b@.len() as int);
            assert(sa.drop_first() =~= a@.subrange(i + 1, a@.len() as int));
            assert(sb.drop_first() =~= b@.subrange(i + 1, b@.len() as int));
        }
        i = i + 1;
    }
    if i == a.len() {
        true
    } else if i == b.len() {
        false
    } else {
        a[i] < b[i]
    }
}

/// The buffer files among the names of a directory's files, in text order.
pub fn select_buffer_files(names: Vec<String>) -> (r: Vec<String>)
    ensures
        texts(r@).to_multiset() == buffer_names_upto(texts(names@), names@.len() as int).to_multiset(),
        forall|i: int, j: int| 0 <= i < j < r@.len() ==> text_le(#[trigger] texts(r@)[i], #[trigger] texts(r@)[j]),
        texts(names@).no_duplicates() ==> texts(r@).no_duplicates(),
{
    let mut q: Vec<String> = Vec::new();
    let mut keys: Vec<Vec<char>> = Vec::new();
    let mut k: usize = 0;
    assert(texts(q@) =~= buffer_names_upto(texts(names@), 0));
    while k < names.len()
        invariant
            k <= names@.len(),
            q@.len() == keys@.len(),
            forall|t: int| 0 <= t < q@.len() ==> #[trigger] keys@[t]@ == q@[t]@,
            texts(q@).to_multiset() == buffer_names_upto(texts(names@), k as int).to_multiset(),
            forall|i: int, j: int| 0 <= i < j < q@.len() ==> text_le(#[trigger] texts(q@)[i], #[trigger] texts(q@)[j]),
        decreases names@.len() - k,
    {
        let ghost sel0 = buffer_names_upto(texts(names@), k as int);
        assert(texts(names@)[k as int] == names@[k as int]@);
        if is_buffer_name(names[k].as_str()) {
            let x = names[k].clone();
            let xk = chars_of(x.as_str());
            let mut p: usize = 0;
            while p < q.len() && text_le_of(keys[p].as_slice(), xk.as_slice())
                invariant
                    p <= q@.len(),
                    q@.len() == keys@.len(),
                    forall|t: int| 0 <= t < q@.len() ==> #[trigger] keys@[t]@ == q@[t]@,
                    forall|t: int| 0 <= t < p ==> text_le(#[trigger] q@[t]@, xk@),
                decreases q@.len() - p,
            {
                p = p + 1;
            }
            let ghost q0 = q@;
            let ghost k0 = keys@;
            let ghost t0 = texts(q0);
            proof {
                if p < q0.len() {
                    assert(!text_le(q0[p as int]@, xk@));
                    lemma_text_le_total(q0[p as int]@, xk@);
                }
                assert forall|t: int| p <= t < q0.len() implies text_le(xk@, #[trigger] t0[t]) by {
                    assert(t0[t] == q0[t]@);
                    assert(t0[p as int] == q0[p as int]@);
                    if t > p {
                        lemma_text_le_trans(xk@, t0[p as int], t0[t]);
                    }
                }
                assert forall|t: int| 0 <= t < p implies text_le(#[trigger] t0[t], xk@) by {
                    assert(t0[t] == q0[t]@);
                }
            }
            q.insert(p, x);
            keys.insert(p, xk);
            proof {
                let t1 = texts(q@);
                assert(t1 =~= t0.insert(p as int, xk@));
                assert(buffer_names_upto(texts(names@), k + 1) == sel0.push(xk@));
                vstd::seq_lib::to_multiset_insert(t0, p as int, xk@);
                vstd::seq_lib::to_multiset_build(sel0, xk@);
                assert forall|i: int, j: int| 0 <= i < j < t1.len() implies text_le(#[trigger] t1[i], #[trigger] t1[j]) by {
                    if j < p {
                        assert(t1[i] == t0[i] && t1[j] == t0[j]);
                    } else if j == p {
                        assert(t1[i] == t0[i]);
                    } else if i < p {
                        assert(t1[i] == t0[i] && t1[j] == t0[j - 1]);
                        lemma_text_le_trans(t0[i], xk@, t0[j - 1]);
                    } else if i == p {
                        assert(t1[j] == t0[j - 1]);
                    } else {
                        assert(t1[i] == t0[i - 1] && t1[j] == t0[j - 1]);
                    }
                }
                assert forall|t: int| 0 <= t < q@.len() implies #[trigger] keys@[t]@ == q@[t]@ by {
                    if t < p {
                        assert(keys@[t] == k0[t] && q@[t] == q0[t]);
                    } else if t > p {
                        assert(keys@[t] == k0[t - 1] && q@[t] == q0[t - 1]);
                    }
                }
            }
        } else {
            assert(buffer_names_upto(texts(names@), k + 1) == sel0);
        }
        k = k + 1;
    }
    proof {
        if texts(names@).no_duplicates() {
            lemma_buffer_files_distinct(texts(names@), texts(q@));
        }
    }
    q
}

proof fn lemma_buffer_names_distinct(names: Seq<Seq<char>>, k: int)
    requires
        names.no_duplicates(),
        0 <= k <= names.len(),
    ensures
        buffer_names_upto(names, k).no_duplicates(),
        forall|x: Seq<char>| buffer_names_upto(names, k).contains(x) ==> exists|i: int| 0 <= i < k && names[i] == x,
    decreases k,
{
    if k > 0 {
        lemma_buffer_names_distinct(names, k - 1);
        let prev = buffer_names_upto(names, k - 1);
        if is_buffer_file_name(names[k - 1]) {
            let cur = prev.push(names[k - 1]);
            assert(cur == buffer_names_upto(names, k));
            assert forall|a: int, b: int| 0 <= a < cur.len() && 0 <= b < cur.len() && a != b implies cur[a] != cur[b] by {
                if a < prev.len() && b < prev.len() {
                    assert(cur[a] == prev[a] && cur[b] == prev[b]);
                } else if a < prev.len() {
                    assert(prev.contains(cur[a]));
                    assert(cur[b] == names[k - 1]);
                } else {
                    assert(prev.contains(cur[b]));
                    assert(cur[a] == names[k - 1]);
                }
            }
            assert forall|x: Seq<char>| cur.contains(x) implies exists|i: int| 0 <= i < k && names[i] == x by {
                let t = choose|t: int| 0 <= t < cur.len() && cur[t] == x;
                if t < prev.len() {
                    assert(prev[t] == x);
                    assert(prev.contains(x));
                } else {
                    assert(names[k - 1] == x);
                }
            }
        }
    }
}

/// Selecting the buffer files from a listing in which no name occurs twice
/// lists each buffer file once: any arrangement of the selected names holds
/// no name twice either.
pub proof fn lemma_buffer_files_distinct(names: Seq<Seq<char>>, selected: Seq<Seq<char>>)
    requires
        names.no_duplicates(),
        selected.to_multiset() == buffer_names_upto(names, names.len() as int).to_multiset(),
    ensures
        selected.no_duplicates(),
{
    let sel = buffer_names_upto(names, names.len() as int);
    lemma_buffer_names_distinct(names, names.len() as int);
    sel.lemma_multiset_has_no_duplicates();
    selected.lemma_multiset_has_no_duplicates_conv();
}

} // verus!
