# lzexe

A verified decompressor for DOS executables packed with LZEXE 0.90, 0.91
and 0.91e. `decompress` rebuilds the original MZ file (header, relocation
table, load image at the header's end); other input is returned unchanged.
`is_compressed` tells the two apart.

The library in `src/` is written in Verus. Each function is proved against
open specifications of the format:

- `header.rs`: MZ fields, stub signatures, version detection (`detect_format`)
- `bits.rs`: the control-bit / data-byte reader (`read_bit`, `read_byte`)
- `lzss.rs`: the LZSS tokens and the image they unpack to (`read_token`, `inflate`)
- `reloc.rs`: the two packed relocation-table formats
- `exe.rs`: the rebuilt header and file (`unpack`, `spec_decompress`)
- `laws.rs`: proved properties: passthrough, layout of every output, idempotence,
  0.91e = 0.91, position independence of the stream and tables, and more
- `error.rs`: `DecompressError`, the ways a packed file can be corrupt, and the
  message `decompress` reports for each (`error_message`)

`app/main.rs` is the `unlzexe` command-line tool: argument handling, file
I/O and error messages.
