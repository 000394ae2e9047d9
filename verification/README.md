# scribe

A crash-resilient logging engine whose core is verified with Verus.

Log entries become self-describing binary frames (magic number, length,
timestamp, level, tag, message, CRC-32). Frames are appended to
memory-mapped buffers; pipelines of stages (zstd compression,
ChaCha20-Poly1305 encryption) process batches of them; after a crash, a
scan of a buffer recovers every intact frame; old log files are cleaned up
by age and by size.

## Layout

- `src/` — the verified library.
  - `storage/` — frame encoding and decoding (`frame`, `codec`, `crc`), the
    memory-mapped buffer (`buffer`), crash recovery (`recovery`) and the
    cleanup decisions (`cleanup`).
  - `pipeline/` — stages, pipelines and the router; `stages/` — the
    compression and encryption stages.
  - `engine` — writing one entry: sinks, framing, buffer, metrics.
  - `sink`, `context`, `caller` — log sinks, labels, and backtrace parsing
    for automatic tags.
  - `metrics`, `config`, `error`, `format_check`, `text` — counters,
    settings, errors, format-string checks and text helpers. The
    format-string check is the placeholder count that a compile-time lint
    compares with a call's arguments; the lint itself would run inside the
    compiler, against its internal crates, which this crate does not use.
- `app/` — the unverified shell: files and memory maps, the double-buffer
  worker thread, JSON settings, process-wide state and the C interface.
- `tests/` — tests of the library.

Contracts are stated over mathematical models (`Seq`, `Map`, views of the
library's types). Laws that relate several operations are public proof
functions, for example `lemma_frame_roundtrip` (decoding an encoded frame
gives it back), `lemma_recovery_after_torn_write` (after a torn last
write, recovery returns exactly the frames written before it),
`lemma_recovery_skips_damage` (recovery picks up the frames after damaged
bytes), `lemma_abort_ends_run` and `lemma_skipping_run` (how stage failures
decide a pipeline's result) and `lemma_finished_run` (what a finished
cleanup has deleted).
