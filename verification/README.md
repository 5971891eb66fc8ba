# smdiff

A verified implementation of SMDIFF, a simple delta format: a patch is a series of
sections, each holding Add, Run and Copy operations (copies come from a source, the
"dictionary", or from the output written so far), optionally compressed a second time
with SMDIFF itself, zstd or brotli.

The library is written in Verus; every function in `src/` carries a contract that Verus
checks, and the laws below are proved as proof functions or as postconditions.

## Layout

- `src/common.rs` — operations, section headers, varints, zigzag and address deltas.
- `src/writer.rs`, `src/reader.rs` — writing sections and reading them back.
- `src/decoder.rs` — applying a patch to a source, undoing secondary compression.
- `src/encoder/` — the encoder: rolling checksums (`hasher`), hash tables (`hashmap`),
  source and target matchers, turning matches into operations (`op_maker`), the
  configuration and the section writer (`section`); also a multiplicative rolling hash
  with a position table (`hash`), a repeated-pattern finder (`sequence`), and copy-address
  costs and run thinning (`runs`).
- `src/vcdiff.rs` — converting a VCDIFF patch, event by event, into SMDIFF sections.
- `src/merger.rs`, `src/merger/` — merging a chain of patches into one summary patch,
  transcoding a patch to another format, and the laws of both (`laws`).
- `src/analysis.rs` — counters and cost models used to compare encodings.
- `app/` — byte-stream front ends (`Read`/`Write`) around the library.
- `tests/` — tests on concrete values.

## Main laws

- Writing then reading a section gives back its header and operations.
- Encoding then decoding (plain or with SMDIFF secondary compression) gives the target.
- A merged summary patch gives, from the first source, what applying the merged patches
  one after the other gives.
- A transcoded patch gives what its input gives.
- Rolling a checksum or hash by one byte gives the checksum of the moved window; rolling
  it over several bytes leaves the last window's worth of bytes.
- Reading back written sections with the section iterator gives them in order, then
  nothing.
- The match finder's result is the result of its scan: `encode_inner` states, step by
  step (a new match, a try, a found match, a move forward), the states the scan goes
  through from the matchers that `build` makes, and returns the matches of the last one.

## Scope

The encoder is the single-pass matcher of `encoder::inner`: a greedy scan over the target
with a source matcher (a sparse table of source checksums, moved along the source in
windows) and a target matcher (a chained table of earlier target positions). The library
has no windowed encoder, no suffix-array matcher and no separate scan for runs inside Add
operations; the hashing tools in `encoder::hash` and `encoder::sequence` stand on their
own, with their own contracts.
