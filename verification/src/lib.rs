//! Unpacking DOS executables compressed with LZEXE 0.90, 0.91 and 0.91e.
//!
//! `decompress` turns a packed file back into a plain MZ executable whose
//! file offsets match those of the original; any other input comes back
//! unchanged.  `is_compressed` tells the two apart.
mod bits;
mod error;
mod exe;
mod header;
mod header_laws;
mod laws;
mod lzss;
mod reloc;
mod reloc_laws;
mod token_laws;

pub use bits::{Bits, Cursor, cursor_start, cursor_wf, lemma_start_wf, read_bit, read_byte};
pub use error::{
    DecompressError, decimal, decimal_value, digit_char, error_message, lemma_decimal, signed_decimal,
};
pub use header_laws::{lemma_detection, lemma_packed_pieces_location, lemma_rebuilt_header_fields};
pub use reloc_laws::{lemma_v090_block_layout, lemma_v090_ends_after_sixteen_blocks, lemma_v091_step};
pub use token_laws::{
    after_bits, lemma_back_reference_error, lemma_control_bits_lowest_first, lemma_data_byte,
    lemma_literal_token, lemma_long_copy_token, lemma_long_count_token, lemma_short_copy_token,
    lemma_token_effects,
};
pub use exe::{
    alloc_shift, assemble, do_decompress, fixed_header, header_size, info_word, le_bytes,
    max_alloc, min_alloc, packed_relocs, reloc_words, spec_decompress, stream_paragraph,
    push_u16le, stub_offset, unpack,
};
pub use header::{
    Ver, SIG_V090, SIG_V091, SIG_V091E_PREFIX, bytes_at, detect_format, detect_version, entry_offset,
    entry_point, has_packed_header, le_word, read_u16le,
};
pub use laws::{
    holds_shifted, lemma_copy_run, lemma_errors_only_when_packed, lemma_inflate_extends,
    lemma_inflate_shift, lemma_info_block_in_file, lemma_le_bytes_roundtrip, lemma_passthrough,
    lemma_same_stream_same_image, lemma_unpacked_is_plain, lemma_unpacked_layout,
    lemma_v090_reads_only_table, lemma_v090_segments_ordered, lemma_v091_offsets_normalized,
    lemma_v091_reads_only_table, lemma_v091e_decodes_as_v091, shift_cursor,
};
pub use lzss::{Token, copy_run, inflate, long_dist, read_token, short_dist};
pub use reloc::{relocs_v090, relocs_v090_block, relocs_v091};

use vstd::prelude::*;

verus! {

/// Decompresses an LZEXE 0.90/0.91/0.91e packed DOS EXE.
///
/// Returns the rebuilt executable for a packed file, the input unchanged for
/// any other input, and an error message when a packed file is corrupt or
/// truncated.
pub fn decompress(data: &[u8]) -> (r: Result<Vec<u8>, String>)
    ensures
        match r {
            Ok(v) => spec_decompress(data@) == Ok::<Seq<u8>, DecompressError>(v@),
            Err(m) => spec_decompress(data@) matches Err(e) && m@ == error_message(e),
        },
{
    match detect_version(data) {
        None => Ok(vstd::slice::slice_to_vec(data)),
        Some(ver) => match do_decompress(data, ver) {
            Ok(v) => Ok(v),
            Err(e) => Err(e.message()),
        },
    }
}

/// Tells whether the bytes carry an LZEXE 0.90/0.91/0.91e stub at their entry
/// point: a cheap check of the MZ header and the stub's first bytes.
pub fn is_compressed(data: &[u8]) -> (r: bool)
    ensures
        r == detect_format(data@) is Some,
{
    detect_version(data).is_some()
}

} // verus!
