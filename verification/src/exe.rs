//! Rebuilding the original MZ file: the header that the packer replaced,
//! the relocation table, and the unpacked load image behind them.
use vstd::prelude::*;
use crate::bits::{Bits, cursor_start};
use crate::error::DecompressError;
use crate::header::{Ver, detect_format, le_word, read_u16le};
use crate::lzss::{inflate, inflate_stream};
use crate::reloc::{decompress_reloc_90, decompress_reloc_91, relocs_v090, relocs_v091};

verus! {

/// File offset of the stub's code segment, CS:0, where LZEXE keeps its
/// 16-byte information block.
pub open spec fn stub_offset(d: Seq<u8>) -> int {
    (le_word(d, 0x08) + le_word(d, 0x16)) * 16
}

/// Word `k` of the information block: 0 IP, 1 CS, 2 SP, 3 SS, 4 size of the
/// packed image in paragraphs, 5 and 6 the sizes that the packer added to
/// the allocation fields.
pub open spec fn info_word(d: Seq<u8>, k: int) -> int {
    le_word(d, stub_offset(d) + 2 * k)
}

/// The paragraph at which the packed image starts: CS - packed size +
/// header paragraphs.
pub open spec fn stream_paragraph(d: Seq<u8>) -> int {
    le_word(d, 0x16) - info_word(d, 4) + le_word(d, 0x08)
}

/// The header size for `n` relocations: 0x1C bytes of fixed fields and four
/// bytes per entry, rounded up to a 512-byte page.
pub open spec fn header_size(n: int) -> int {
    ((0x1C + 4 * n + 0x1FF) / 0x200) * 0x200
}

/// What the packer added to minalloc and maxalloc: the information block's
/// displacement, its decompressor size in paragraphs, and 9, modulo 0x10000.
pub open spec fn alloc_shift(d: Seq<u8>) -> int {
    (info_word(d, 5) + (info_word(d, 6) + 15) / 16 + 9) % 0x10000
}

/// The original minalloc.
pub open spec fn min_alloc(d: Seq<u8>) -> int {
    (le_word(d, 0x0A) - alloc_shift(d)) % 0x10000
}

/// The original maxalloc; 0xFFFF stays 0xFFFF.
pub open spec fn max_alloc(d: Seq<u8>) -> int {
    if le_word(d, 0x0C) == 0xFFFF {
        0xFFFF
    } else {
        (le_word(d, 0x0C) - alloc_shift(d)) % 0x10000
    }
}

/// The relocation entries as words, offset before segment.
pub open spec fn reloc_words(relocs: Seq<(u16, u16)>) -> Seq<u16>
    decreases relocs.len(),
{
    if relocs.len() == 0 {
        Seq::empty()
    } else {
        reloc_words(relocs.drop_last()) + seq![relocs.last().0, relocs.last().1]
    }
}

/// Words written out little-endian.
pub open spec fn le_bytes(ws: Seq<u16>) -> Seq<u8>
    decreases ws.len(),
{
    if ws.len() == 0 {
        Seq::empty()
    } else {
        le_bytes(ws.drop_last()) + seq![(ws.last() % 256) as u8, (ws.last() / 256) as u8]
    }
}

/// The 14 words of the rebuilt header at 0x00..0x1C, for a file of `total`
/// bytes: signature, bytes in the last page, pages, relocation count, header
/// paragraphs, minalloc, maxalloc, SS, SP, checksum 0, IP, CS, relocation
/// table offset 0x1C, overlay 0.  Fields wider than 16 bits are cut to 16.
pub open spec fn fixed_header(d: Seq<u8>, n: int, total: int) -> Seq<u16> {
    seq![
        0x5A4Du16,
        (total % 0x200) as u16,
        (((total + 0x1FF) / 0x200) % 0x10000) as u16,
        (n % 0x10000) as u16,
        ((header_size(n) / 16) % 0x10000) as u16,
        min_alloc(d) as u16,
        max_alloc(d) as u16,
        info_word(d, 3) as u16,
        info_word(d, 2) as u16,
        0u16,
        info_word(d, 0) as u16,
        info_word(d, 1) as u16,
        0x1Cu16,
        0u16
    ]
}

/// The rebuilt file: header fields, relocation table, zeros up to the
/// header size, then the load image.
pub open spec fn assemble(d: Seq<u8>, relocs: Seq<(u16, u16)>, image: Seq<u8>) -> Seq<u8> {
    let n = relocs.len() as int;
    let hs = header_size(n);
    let head = le_bytes(fixed_header(d, n, hs + image.len()) + reloc_words(relocs));
    head + Seq::new((hs - head.len()) as nat, |i: int| 0u8) + image
}

/// The relocation table that the stub of version `v` carries.
pub open spec fn packed_relocs(d: Seq<u8>, v: Ver) -> Result<Seq<(u16, u16)>, DecompressError> {
    match v {
        Ver::V090 => relocs_v090(d, stub_offset(d) + 0x19D, 0),
        Ver::V091 => relocs_v091(d, stub_offset(d) + 0x158, 0, 0),
    }
}

/// What unpacking a file packed by version `v` gives.
pub open spec fn unpack(d: Seq<u8>, v: Ver) -> Result<Seq<u8>, DecompressError> {
    if stub_offset(d) + 16 > d.len() {
        Err(DecompressError::TruncatedHeader)
    } else {
        match packed_relocs(d, v) {
            Err(e) => Err(e),
            Ok(relocs) => {
                let start = if stream_paragraph(d) < 0 {
                    None
                } else {
                    cursor_start(d, 16 * stream_paragraph(d))
                };
                match start {
                    None => Err(DecompressError::TruncatedStream),
                    Some(c) => match inflate(d, c, Seq::empty()) {
                        Err(e) => Err(e),
                        Ok(image) => Ok(assemble(d, relocs, image)),
                    },
                }
            },
        }
    }
}

/// What `decompress` returns: the input itself when it is not an LZEXE file.
pub open spec fn spec_decompress(d: Seq<u8>) -> Result<Seq<u8>, DecompressError> {
    match detect_format(d) {
        None => Ok(d),
        Some(v) => unpack(d, v),
    }
}

pub proof fn lemma_reloc_words_len(relocs: Seq<(u16, u16)>)
    ensures
        reloc_words(relocs).len() == 2 * relocs.len(),
    decreases relocs.len(),
{
    if relocs.len() > 0 {
        lemma_reloc_words_len(relocs.drop_last());
    }
}

pub proof fn lemma_le_bytes_len(ws: Seq<u16>)
    ensures
        le_bytes(ws).len() == 2 * ws.len(),
    decreases ws.len(),
{
    if ws.len() > 0 {
        lemma_le_bytes_len(ws.drop_last());
    }
}

/// Appends the two bytes of `v`, low byte first, so that the word read back
/// where they start is `v`.
pub fn push_u16le(out: &mut Vec<u8>, v: u16)
    ensures
        final(out)@ == old(out)@ + seq![(v % 256) as u8, (v / 256) as u8],
        le_word(final(out)@, old(out)@.len() as int) == v,
{
    out.push((v % 256) as u8);
    out.push((v / 256) as u8);
}

/// The size fields of the rebuilt header for `n` relocations and an image
/// of `image_len` bytes: bytes in the last page, pages, relocation count and
/// header paragraphs.
fn size_fields(n: usize, image_len: usize) -> (r: (u16, u16, u16, u16))
    ensures
        ({
            let total = header_size(n as int) + image_len;
            &&& r.0 == (total % 0x200) as u16
            &&& r.1 == (((total + 0x1FF) / 0x200) % 0x10000) as u16
            &&& r.2 == (n % 0x10000) as u16
            &&& r.3 == ((header_size(n as int) / 16) % 0x10000) as u16
        }),
{
    let n: u128 = n as u128;
    let header_bytes: u128 = ((0x1C + 4 * n + 0x1FF) / 0x200) * 0x200;
    let total: u128 = header_bytes + image_len as u128;
    (
        (total % 0x200) as u16,
        (((total + 0x1FF) / 0x200) % 0x10000) as u16,
        (n % 0x10000) as u16,
        ((header_bytes / 16) % 0x10000) as u16,
    )
}

/// The original minalloc and maxalloc, recovered from the packed header.
fn alloc_fields(data: &[u8]) -> (r: (u16, u16))
    requires
        data@.len() >= 0x20,
        stub_offset(data@) + 16 <= data@.len(),
    ensures
        r.0 == min_alloc(data@),
        r.1 == max_alloc(data@),
{
    let ghost d = data@;
    let cs_off = (read_u16le(data, 0x08) as usize + read_u16le(data, 0x16) as usize) * 16;
    let stub_bytes = read_u16le(data, cs_off + 12);
    let stub_paras = ((stub_bytes as u32 + 15) / 16) as u16;
    assert(stub_paras as int == (info_word(d, 6) + 15) / 16);
    let displacement = read_u16le(data, cs_off + 10);
    let partial = displacement.wrapping_add(stub_paras);
    assert(partial as int == (displacement + stub_paras) % 0x10000);
    let shift = partial.wrapping_add(9);
    assert(shift as int == (displacement + stub_paras + 9) % 0x10000);
    assert(shift as int == alloc_shift(d));
    let min_field = read_u16le(data, 0x0A);
    let min_alloc_field = min_field.wrapping_sub(shift);
    assert(min_alloc_field as int == (min_field - shift) % 0x10000);
    let max_field = read_u16le(data, 0x0C);
    let max_alloc_field = if max_field == 0xFFFF {
        0xFFFFu16
    } else {
        let m = max_field.wrapping_sub(shift);
        assert(m as int == (max_field - shift) % 0x10000);
        m
    };
    (min_alloc_field, max_alloc_field)
}

/// The header words of the rebuilt file: the fixed fields for `relocs` and
/// an image of `image_len` bytes, then the relocation table.
fn header_words(data: &[u8], relocs: &Vec<(u16, u16)>, image_len: usize) -> (w: Vec<u16>)
    requires
        data@.len() >= 0x20,
        stub_offset(data@) + 16 <= data@.len(),
    ensures
        w@ == fixed_header(data@, relocs@.len() as int, header_size(relocs@.len() as int) + image_len)
            + reloc_words(relocs@),
{
    let ghost d = data@;
    let cs_off = (read_u16le(data, 0x08) as usize + read_u16le(data, 0x16) as usize) * 16;
    let (last_page, pages, reloc_count, header_paras) = size_fields(relocs.len(), image_len);
    let (min_alloc_field, max_alloc_field) = alloc_fields(data);
    let mut words: Vec<u16> = Vec::new();
    words.push(0x5A4D);
    words.push(last_page);
    words.push(pages);
    words.push(reloc_count);
    words.push(header_paras);
    words.push(min_alloc_field);
    words.push(max_alloc_field);
    words.push(read_u16le(data, cs_off + 6));
    words.push(read_u16le(data, cs_off + 4));
    words.push(0);
    words.push(read_u16le(data, cs_off));
    words.push(read_u16le(data, cs_off + 2));
    words.push(0x1C);
    words.push(0);
    let ghost fixed = words@;
    assert(fixed =~= fixed_header(d, relocs@.len() as int, header_size(relocs@.len() as int) + image_len));

    let mut i: usize = 0;
    assert(relocs@.take(0) =~= Seq::<(u16, u16)>::empty());
    assert(fixed + reloc_words(relocs@.take(0)) =~= fixed);
    while i < relocs.len()
        invariant
            i <= relocs@.len(),
            words@ == fixed + reloc_words(relocs@.take(i as int)),
        decreases relocs@.len() - i,
    {
        let (off, seg) = relocs[i];
        words.push(off);
        words.push(seg);
        assert(relocs@.take(i + 1).drop_last() =~= relocs@.take(i as int));
        assert(fixed + reloc_words(relocs@.take(i + 1)) =~= fixed + reloc_words(relocs@.take(i as int)) + seq![off, seg]);
        i = i + 1;
    }
    assert(relocs@.take(relocs@.len() as int) =~= relocs@);
    words
}

/// The bytes of `words`, then `pad` zero bytes, then `image`.
fn write_exe(words: &Vec<u16>, pad: usize, image: &Vec<u8>) -> (out: Vec<u8>)
    ensures
        out@ == le_bytes(words@) + Seq::new(pad as nat, |x: int| 0u8) + image@,
{
    let mut out: Vec<u8> = Vec::new();
    let mut j: usize = 0;
    assert(words@.take(0) =~= Seq::<u16>::empty());
    while j < words.len()
        invariant
            j <= words@.len(),
            out@ == le_bytes(words@.take(j as int)),
        decreases words@.len() - j,
    {
        push_u16le(&mut out, words[j]);
        assert(words@.take(j + 1).drop_last() =~= words@.take(j as int));
        j = j + 1;
    }
    assert(words@.take(words@.len() as int) =~= words@);
    let ghost head = out@;
    let mut k: usize = 0;
    assert(out@ =~= head + Seq::new(0, |x: int| 0u8));
    while k < pad
        invariant
            k <= pad,
            out@ == head + Seq::new(k as nat, |x: int| 0u8),
        decreases pad - k,
    {
        out.push(0);
        k = k + 1;
        assert(out@ =~= head + Seq::new(k as nat, |x: int| 0u8));
    }
    let ghost padded = out@;
    let mut m: usize = 0;
    assert(out@ =~= padded + image@.take(0));
    while m < image.len()
        invariant
            m <= image@.len(),
            out@ == padded + image@.take(m as int),
        decreases image@.len() - m,
    {
        out.push(image[m]);
        m = m + 1;
        assert(out@ =~= padded + image@.take(m as int));
    }
    assert(image@.take(image@.len() as int) =~= image@);
    out
}

/// Unpacks `data` as a file packed by `ver`, whose stub is at CS:0.
pub fn do_decompress(data: &[u8], ver: Ver) -> (r: Result<Vec<u8>, DecompressError>)
    requires
        data@.len() >= 0x20,
    ensures
        match r {
            Ok(v) => unpack(data@, ver) == Ok::<Seq<u8>, DecompressError>(v@),
            Err(e) => unpack(data@, ver) == Err::<Seq<u8>, DecompressError>(e),
        },
{
    let ghost d = data@;
    let header_paras = read_u16le(data, 0x08);
    let cs = read_u16le(data, 0x16);
    let cs_off = (header_paras as usize + cs as usize) * 16;
    if cs_off + 16 > data.len() {
        return Err(DecompressError::TruncatedHeader);
    }

    // The relocation table.
    let relocs = match ver {
        Ver::V090 => decompress_reloc_90(data, cs_off),
        Ver::V091 => decompress_reloc_91(data, cs_off),
    };
    let relocs = match relocs {
        Ok(r) => r,
        Err(e) => return Err(e),
    };

    // The load image.
    let packed_paras = read_u16le(data, cs_off + 8);
    let para: i64 = cs as i64 - packed_paras as i64 + header_paras as i64;
    if para < 0 {
        return Err(DecompressError::TruncatedStream);
    }
    let mut bits = match Bits::new(data, (para as usize) * 16) {
        Some(b) => b,
        None => return Err(DecompressError::TruncatedStream),
    };
    let image = match inflate_stream(&mut bits) {
        Ok(v) => v,
        Err(e) => return Err(e),
    };

    // The rebuilt file.
    let words = header_words(data, &relocs, image.len());
    let n: u128 = relocs.len() as u128;
    let pad = (((0x1C + 4 * n + 0x1FF) / 0x200) * 0x200 - (0x1C + 4 * n)) as usize;
    let out = write_exe(&words, pad, &image);
    proof {
        lemma_le_bytes_len(words@);
        lemma_reloc_words_len(relocs@);
        assert(out@ == assemble(d, relocs@, image@));
    }
    Ok(out)
}

} // verus!
