# dzip

A verified library for Dzip archives and the compression methods they use: DZ
(an adaptive range coder with an archive-wide common buffer), zlib, BZip2 and
LZMA.

- `src/codecs` holds the engines: `zlib`, `bzip`, `lzma`, `dz`, and `sdk`, the
  LZMA encoder that searches for a cheap parse. Each decoder is proved equal to
  a mathematical reading of its format. Each encoder is proved to write exactly
  the stream that its choices stand for, and that stream decodes to the input.
  What decoders refuse is stated in `zlib::strict` and `bzip::strict`.
- `src/codec` chooses among the engines by the flags of a chunk.
- `src/metadata.rs`, `src/archive.rs` and `src/reading.rs` read archives;
  `src/builder` writes them. `builder::roundtrip` proves that an archive gives
  back what was put into it, unless a common buffer was written without trimming
  references and a reader mistakes a chunk; `builder::pages` states the exact bytes of its
  volumes, also of those that a failure leaves. `src/bounds.rs` proves that
  limits only refuse. Volumes behind the first are resolved when they are needed.
- `app` is ordinary Rust around the library: files, directories and option
  types that can be stored.

Names and paths are byte strings. Archives are read from and written to memory;
the application part moves them to and from files.
