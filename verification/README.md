# r7z

A library for reading and writing `.7z` archives, written in Verus. The
functions under `src/` are verified against their `requires`/`ensures`
contracts, except the small trusted wrappers (`#[verifier::external_body]`)
that call the outside crates (`lzma-rust2`, `ppmd-rust`, `miniz_oxide`,
`deflate64`, `bzip2`, `aes`/`cbc`, `sha2`, `crc32fast`, `getrandom`) and a
few std functions; their contracts are stated, not proved.

- `src/parsers.rs`, `property.rs`, `pack_info.rs`, `folder.rs`,
  `coder_info.rs`, `stream_info.rs`, `files_info.rs`, `headers.rs`: the
  header grammar, as functions on bytes with mathematical models of what
  they accept and produce.
- `src/archive.rs`: opening an archive, locating an entry's data,
  extraction, listings, and the blocks kept by a rewrite.
- `src/codec.rs`: decoding folders. Copy, the x86 BCJ, Delta and
  Swap2/Swap4 filters and the 7zAES key schedule are verified here;
  LZMA, LZMA2, PPMd, Deflate, Deflate64, BZip2 and the ARM/ARMT/PPC/
  SPARC/IA64 filters are called through `lzma-rust2`, `ppmd-rust`,
  `miniz_oxide`, `deflate64` and `bzip2` behind trusted wrappers whose
  results are named.
- `src/bcj.rs`, `bcj2.rs`, `delta.rs`, `byte_swap.rs`, `aes.rs`: filters
  and encryption; `src/bcj2_folder.rs`: folders of the BCJ2 layout (four
  packed streams feeding the BCJ2 decoder).
- `src/write/`: building archives (`ArchiveBuilder`, `ArchiveWriter`,
  rewrites that keep folders), their headers and their folders;
  `src/write/read_back.rs` proves what the reader makes of what the writer
  writes (names, entry kinds, metadata; the whole archive for entries
  without data and a plain header).
- `src/cli.rs`, `switches.rs`, `commands.rs`, `listing.rs`, `text.rs`: the
  decisions of the command-line tool.
- `app/`: the command-line program itself (files, terminal, time zones).
- `tests/`: tests run against the compiled library.
