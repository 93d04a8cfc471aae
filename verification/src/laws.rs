//! Properties of unpacking that hold across calls and inputs.
use vstd::prelude::*;
use crate::bits::{
    Cursor, cursor_measure, cursor_start, cursor_wf, lemma_reads_progress, lemma_start_wf, read_bit,
    read_byte,
};
use crate::error::DecompressError;
use crate::exe::{
    assemble, fixed_header, info_word, max_alloc, min_alloc, stub_offset, header_size, le_bytes, packed_relocs, reloc_words, spec_decompress,
    stream_paragraph, unpack,
};
use crate::header::{
    SIG_V090, SIG_V091, SIG_V091E_PREFIX, Ver, bytes_at, detect_format, entry_offset,
    has_packed_header, le_word,
};
use crate::reloc::{relocs_v090, relocs_v090_block, relocs_v091};
use crate::lzss::{Token, copy_run, inflate, lemma_token_progress, read_token};

verus! {

/// A back-reference appends exactly `len` bytes, keeps what was there, and
/// makes every appended byte equal to the byte `dist` positions before it,
/// even where the copy overlaps its own output.
pub proof fn lemma_copy_run(image: Seq<u8>, dist: int, len: nat)
    requires
        1 <= dist <= image.len(),
    ensures
        copy_run(image, dist, len).len() == image.len() + len,
        copy_run(image, dist, len).subrange(0, image.len() as int) == image,
        forall|k: int|
            image.len() <= k < image.len() + len ==> #[trigger] copy_run(image, dist, len)[k]
                == copy_run(image, dist, len)[k - dist],
    decreases len,
{
    if len > 0 {
        let next = image.push(image[image.len() - dist]);
        lemma_copy_run(next, dist, (len - 1) as nat);
        let r = copy_run(image, dist, len);
        assert(r == copy_run(next, dist, (len - 1) as nat));
        assert(r.subrange(0, next.len() as int) == next);
        assert(r.subrange(0, image.len() as int) =~= image) by {
            assert forall|k: int| 0 <= k < image.len() implies r[k] == image[k] by {
                assert(r.subrange(0, next.len() as int)[k] == next[k]);
            }
        }
        assert forall|k: int| image.len() <= k < image.len() + len implies #[trigger] r[k] == r[k
            - dist] by {
            if k == image.len() {
                assert(r.subrange(0, next.len() as int)[k] == next[k]);
                assert(r.subrange(0, next.len() as int)[k - dist] == next[k - dist]);
            }
        }
    }
}

/// Unpacking only ever appends: the image before a stream position is a
/// prefix of the image it unpacks to.
pub proof fn lemma_inflate_extends(d: Seq<u8>, c: Cursor, image: Seq<u8>)
    requires
        cursor_wf(d, c),
        inflate(d, c, image) is Ok,
    ensures
        inflate(d, c, image) matches Ok(out) && image.len() <= out.len() && out.subrange(
            0,
            image.len() as int,
        ) == image,
    decreases cursor_measure(d, c),
{
    lemma_token_progress(d, c);
    let out = inflate(d, c, image)->Ok_0;
    match read_token(d, c) {
        None => {},
        Some((t, c2)) => match t {
            Token::End => {
                assert(out.subrange(0, image.len() as int) =~= image);
            },
            Token::Skip => {
                lemma_inflate_extends(d, c2, image);
            },
            Token::Literal(b) => {
                let next = image.push(b);
                lemma_inflate_extends(d, c2, next);
                assert(out.subrange(0, image.len() as int) =~= next.subrange(0, image.len() as int));
            },
            Token::Copy { dist, len } => {
                let next = copy_run(image, dist as int, len as nat);
                lemma_copy_run(image, dist as int, len as nat);
                lemma_inflate_extends(d, c2, next);
                assert(out.subrange(0, image.len() as int) =~= next.subrange(0, image.len() as int));
            },
        },
    }
}

proof fn lemma_le_bytes_index(ws: Seq<u16>)
    ensures
        le_bytes(ws).len() == 2 * ws.len(),
        forall|i: int| 0 <= i < ws.len() ==> le_word(le_bytes(ws), 2 * i) == #[trigger] ws[i],
    decreases ws.len(),
{
    if ws.len() > 0 {
        let init = ws.drop_last();
        lemma_le_bytes_index(init);
        let b = le_bytes(ws);
        assert forall|i: int| 0 <= i < ws.len() implies le_word(b, 2 * i) == #[trigger] ws[i] by {
            if i < init.len() {
                assert(b[2 * i] == le_bytes(init)[2 * i]);
                assert(b[2 * i + 1] == le_bytes(init)[2 * i + 1]);
                assert(init[i] == ws[i]);
            }
        }
    }
}

proof fn lemma_reloc_words_index(r: Seq<(u16, u16)>)
    ensures
        reloc_words(r).len() == 2 * r.len(),
        forall|i: int|
            0 <= i < r.len() ==> reloc_words(r)[2 * i] == (#[trigger] r[i]).0 && reloc_words(r)[2
                * i + 1] == r[i].1,
    decreases r.len(),
{
    if r.len() > 0 {
        let init = r.drop_last();
        lemma_reloc_words_index(init);
        assert forall|i: int| 0 <= i < r.len() implies reloc_words(r)[2 * i] == (#[trigger] r[i]).0
            && reloc_words(r)[2 * i + 1] == r[i].1 by {
            if i < init.len() {
                assert(init[i] == r[i]);
            }
        }
    }
}

/// The layout of every rebuilt executable: an MZ header whose size fields
/// describe the whole file, whose allocation fields are the packer's values
/// less what it added, and whose SS, SP, IP and CS come from the stub's
/// information block, the relocation table at 0x1C holding exactly the
/// unpacked entries, zeros up to a header that fills whole 512-byte pages,
/// and from there the load image that the packed stream unpacks to.
pub proof fn lemma_unpacked_layout(d: Seq<u8>, v: Ver, o: Seq<u8>)
    requires
        unpack(d, v) == Ok::<Seq<u8>, DecompressError>(o),
    ensures
        packed_relocs(d, v) matches Ok(r) && {
            let n = r.len() as int;
            let hs = header_size(n);
            &&& hs % 512 == 0
            &&& 0x1C + 4 * n <= hs <= o.len()
            &&& o[0] == 0x4D && o[1] == 0x5A
            &&& le_word(o, 0x02) == o.len() % 512
            &&& le_word(o, 0x04) == ((o.len() + 511) / 512) % 0x10000
            &&& le_word(o, 0x06) == n % 0x10000
            &&& le_word(o, 0x08) == (hs / 16) % 0x10000
            &&& le_word(o, 0x0A) == min_alloc(d)
            &&& le_word(o, 0x0C) == max_alloc(d)
            &&& le_word(o, 0x0E) == info_word(d, 3)
            &&& le_word(o, 0x10) == info_word(d, 2)
            &&& le_word(o, 0x14) == info_word(d, 0)
            &&& le_word(o, 0x16) == info_word(d, 1)
            &&& le_word(o, 0x18) == 0x1C
            &&& le_word(o, 0x12) == 0
            &&& le_word(o, 0x1A) == 0
            &&& forall|i: int|
                0 <= i < n ==> le_word(o, 0x1C + 4 * i) == (#[trigger] r[i]).0 && le_word(
                    o,
                    0x1E + 4 * i,
                ) == r[i].1
            &&& forall|j: int| 0x1C + 4 * n <= j < hs ==> #[trigger] o[j] == 0
            &&& cursor_start(d, 16 * stream_paragraph(d)) matches Some(c) && inflate(
                d,
                c,
                Seq::empty(),
            ) == Ok::<Seq<u8>, DecompressError>(o.subrange(hs, o.len() as int))
        },
{
    let r = packed_relocs(d, v)->Ok_0;
    let n = r.len() as int;
    let hs = header_size(n);
    let c = cursor_start(d, 16 * stream_paragraph(d))->Some_0;
    let image = inflate(d, c, Seq::empty())->Ok_0;
    assert(o == assemble(d, r, image));
    lemma_assemble_layout(d, r, image);
    let ws = fixed_header(d, n, hs + image.len()) + reloc_words(r);
    assert(le_word(o, 0x02) == ws[1]);
    assert(le_word(o, 0x04) == ws[2]);
    assert(le_word(o, 0x06) == ws[3]);
    assert(le_word(o, 0x08) == ws[4]);
    assert(le_word(o, 0x0A) == ws[5]);
    assert(le_word(o, 0x0C) == ws[6]);
    assert(le_word(o, 0x0E) == ws[7]);
    assert(le_word(o, 0x10) == ws[8]);
    assert(le_word(o, 0x14) == ws[10]);
    assert(le_word(o, 0x16) == ws[11]);
    assert(le_word(o, 0x18) == ws[12]);
    assert(le_word(o, 0x12) == ws[9]);
    assert(le_word(o, 0x1A) == ws[13]);
}

/// The bytes of an assembled file: the header words at even offsets, the
/// relocation entries from 0x1C, zeros to the header size, then the image.
proof fn lemma_assemble_layout(d: Seq<u8>, r: Seq<(u16, u16)>, image: Seq<u8>)
    ensures
        ({
            let o = assemble(d, r, image);
            let n = r.len() as int;
            let hs = header_size(n);
            let ws = fixed_header(d, n, hs + image.len()) + reloc_words(r);
            &&& hs % 512 == 0
            &&& 0x1C + 4 * n <= hs
            &&& o.len() == hs + image.len()
            &&& ws.len() == 14 + 2 * n
            &&& forall|i: int| 0 <= i < ws.len() ==> le_word(o, 2 * i) == #[trigger] ws[i]
            &&& o[0] == 0x4D && o[1] == 0x5A
            &&& forall|i: int|
                0 <= i < n ==> le_word(o, 0x1C + 4 * i) == (#[trigger] r[i]).0 && le_word(
                    o,
                    0x1E + 4 * i,
                ) == r[i].1
            &&& forall|j: int| 0x1C + 4 * n <= j < hs ==> #[trigger] o[j] == 0
            &&& o.subrange(hs, o.len() as int) == image
        }),
{
    let o = assemble(d, r, image);
    let n = r.len() as int;
    let hs = header_size(n);
    let total = hs + image.len();
    let f = fixed_header(d, n, total);
    let ws = f + reloc_words(r);
    let head = le_bytes(ws);
    lemma_le_bytes_index(ws);
    lemma_reloc_words_index(r);
    assert(head.len() == 28 + 4 * n);
    let zeros = Seq::new((hs - head.len()) as nat, |i: int| 0u8);
    assert(o == head + zeros + image);
    assert forall|i: int| 0 <= i < ws.len() implies le_word(o, 2 * i) == #[trigger] ws[i] by {
        assert(o[2 * i] == head[2 * i]);
        assert(o[2 * i + 1] == head[2 * i + 1]);
        assert(le_word(head, 2 * i) == ws[i]);
    }
    assert(o[0] == 0x4D && o[1] == 0x5A) by {
        assert(ws[0] == 0x5A4D);
        assert(head[0] == (ws[0] % 256) as u8);
        assert(head[1] == (ws[0] / 256) as u8);
        assert(o[0] == head[0]);
        assert(o[1] == head[1]);
    }
    assert forall|i: int| 0 <= i < n implies le_word(o, 0x1C + 4 * i) == (#[trigger] r[i]).0
        && le_word(o, 0x1E + 4 * i) == r[i].1 by {
        assert(ws[14 + 2 * i] == reloc_words(r)[2 * i]);
        assert(ws[14 + 2 * i + 1] == reloc_words(r)[2 * i + 1]);
        assert(le_word(o, 2 * (14 + 2 * i)) == ws[14 + 2 * i]);
        assert(le_word(o, 2 * (14 + 2 * i + 1)) == ws[14 + 2 * i + 1]);
    }
    assert forall|j: int| 0x1C + 4 * n <= j < hs implies #[trigger] o[j] == 0 by {
        assert(o[j] == zeros[j - head.len()]);
    }
    assert(o.subrange(hs, o.len() as int) =~= image);
}

/// Input that is not LZEXE-packed comes back unchanged.
pub proof fn lemma_passthrough(d: Seq<u8>)
    requires
        detect_format(d) is None,
    ensures
        spec_decompress(d) == Ok::<Seq<u8>, DecompressError>(d),
{
}

/// Once a file is recognised as packed, its information block lies inside
/// the file (the recognised stub starts at or after CS:0), so unpacking it
/// never stops at the header.
pub proof fn lemma_info_block_in_file(d: Seq<u8>)
    requires
        detect_format(d) is Some,
    ensures
        stub_offset(d) + 16 <= d.len(),
        unpack(d, detect_format(d)->Some_0) != Err::<Seq<u8>, DecompressError>(
            DecompressError::TruncatedHeader,
        ),
{
    let v = detect_format(d)->Some_0;
    if unpack(d, v) == Err::<Seq<u8>, DecompressError>(DecompressError::TruncatedHeader) {
        match packed_relocs(d, v) {
            Ok(r) => {
                lemma_start_wf(d, 16 * stream_paragraph(d));
                lemma_inflate_errors(d, cursor_start(d, 16 * stream_paragraph(d))->Some_0, Seq::empty());
            },
            Err(e) => {
                lemma_reloc_errors(d, v);
            },
        }
    }
}

proof fn lemma_inflate_errors(d: Seq<u8>, c: Cursor, image: Seq<u8>)
    requires
        cursor_wf(d, c),
    ensures
        inflate(d, c, image) matches Err(e) ==> e is TruncatedStream || e is BackReference,
    decreases cursor_measure(d, c),
{
    lemma_token_progress(d, c);
    match read_token(d, c) {
        None => {},
        Some((t, c2)) => match t {
            Token::End => {},
            Token::Skip => lemma_inflate_errors(d, c2, image),
            Token::Literal(b) => lemma_inflate_errors(d, c2, image.push(b)),
            Token::Copy { dist, len } => {
                lemma_inflate_errors(d, c2, copy_run(image, dist as int, len as nat));
            },
        },
    }
}

proof fn lemma_v091_errors(d: Seq<u8>, pos: int, seg: u16, off: int)
    ensures
        relocs_v091(d, pos, seg, off) matches Err(e) ==> e is TruncatedRelocations,
    decreases d.len() - pos,
{
    if 0 <= pos < d.len() && !(d[pos] == 0 && pos + 3 > d.len()) {
        if d[pos] == 0 && le_word(d, pos + 1) == 0 {
            lemma_v091_errors(d, pos + 3, ((seg + 0xFFF) % 0x10000) as u16, off);
        } else if !(d[pos] == 0 && le_word(d, pos + 1) == 1) {
            let (span, next) = if d[pos] == 0 {
                (le_word(d, pos + 1), pos + 3)
            } else {
                (d[pos] as int, pos + 1)
            };
            let addr = off + span;
            lemma_v091_errors(d, next, ((seg + addr / 16) % 0x10000) as u16, addr % 16);
        }
    }
}

proof fn lemma_v090_block_errors(d: Seq<u8>, pos: int, count: nat, seg: u16)
    ensures
        relocs_v090_block(d, pos, count, seg) matches Err(e) ==> e is TruncatedRelocations,
    decreases count,
{
    if count > 0 {
        lemma_v090_block_errors(d, pos + 2, (count - 1) as nat, seg);
    }
}

proof fn lemma_v090_errors(d: Seq<u8>, pos: int, block: nat)
    ensures
        relocs_v090(d, pos, block) matches Err(e) ==> e is TruncatedRelocations,
    decreases 16 - block,
{
    if block < 16 && 0 <= pos && pos + 2 <= d.len() {
        let count = le_word(d, pos);
        lemma_v090_block_errors(d, pos + 2, count as nat, (block * 0x1000) as u16);
        lemma_v090_errors(d, pos + 2 + 2 * count, block + 1);
    }
}

proof fn lemma_reloc_errors(d: Seq<u8>, v: Ver)
    ensures
        packed_relocs(d, v) matches Err(e) ==> e is TruncatedRelocations,
{
    match v {
        Ver::V090 => lemma_v090_errors(d, stub_offset(d) + 0x19D, 0),
        Ver::V091 => lemma_v091_errors(d, stub_offset(d) + 0x158, 0, 0),
    }
}

/// Only a file that looks LZEXE-packed can fail to decompress.
pub proof fn lemma_errors_only_when_packed(d: Seq<u8>)
    requires
        spec_decompress(d) is Err,
    ensures
        detect_format(d) is Some,
{
}

/// A rebuilt executable with relocations never looks packed itself, so
/// decompressing it again gives it back unchanged.
pub proof fn lemma_unpacked_is_plain(d: Seq<u8>, v: Ver, o: Seq<u8>)
    requires
        unpack(d, v) == Ok::<Seq<u8>, DecompressError>(o),
        packed_relocs(d, v) matches Ok(r) && r.len() % 0x10000 != 0,
    ensures
        detect_format(o) is None,
        spec_decompress(o) == Ok::<Seq<u8>, DecompressError>(o),
{
    lemma_unpacked_layout(d, v, o);
    assert(!has_packed_header(o));
}

/// A file packed by 0.91e (the 0.91 stub behind a 0x50 byte) is unpacked
/// exactly as a 0.91 file.
pub proof fn lemma_v091e_decodes_as_v091(d: Seq<u8>)
    requires
        has_packed_header(d),
        d[entry_offset(d)] == SIG_V091E_PREFIX,
        bytes_at(d, entry_offset(d) + 1, SIG_V091@),
    ensures
        detect_format(d) == Some(Ver::V091),
        spec_decompress(d) == unpack(d, Ver::V091),
{
    let ep = entry_offset(d);
    assert(!bytes_at(d, ep, SIG_V090@)) by {
        if bytes_at(d, ep, SIG_V090@) {
            assert(d.subrange(ep, ep + 24)[0] == SIG_V090@[0]);
        }
    }
    assert(!bytes_at(d, ep, SIG_V091@)) by {
        if bytes_at(d, ep, SIG_V091@) {
            assert(d.subrange(ep, ep + 24)[0] == SIG_V091@[0]);
        }
    }
}

/// Every 0.91 relocation entry is normalised: its offset is below 16.
pub proof fn lemma_v091_offsets_normalized(d: Seq<u8>, pos: int, seg: u16, off: int)
    requires
        relocs_v091(d, pos, seg, off) is Ok,
    ensures
        relocs_v091(d, pos, seg, off) matches Ok(r) && forall|i: int|
            0 <= i < r.len() ==> (#[trigger] r[i]).0 < 16,
    decreases d.len() - pos,
{
    if 0 <= pos < d.len() {
        if d[pos] == 0 && pos + 3 <= d.len() && le_word(d, pos + 1) == 0 {
            lemma_v091_offsets_normalized(d, pos + 3, ((seg + 0xFFF) % 0x10000) as u16, off);
        } else if d[pos] == 0 && pos + 3 <= d.len() && le_word(d, pos + 1) == 1 {
        } else if !(d[pos] == 0 && pos + 3 > d.len()) {
            let (span, next) = if d[pos] == 0 {
                (le_word(d, pos + 1), pos + 3)
            } else {
                (d[pos] as int, pos + 1)
            };
            let addr = off + span;
            let seg2 = ((seg + addr / 16) % 0x10000) as u16;
            let off2 = addr % 16;
            lemma_v091_offsets_normalized(d, next, seg2, off2);
            let rest = relocs_v091(d, next, seg2, off2)->Ok_0;
            let r = seq![(off2 as u16, seg2)] + rest;
            assert forall|i: int| 0 <= i < r.len() implies (#[trigger] r[i]).0 < 16 by {
                if i > 0 {
                    assert(r[i] == rest[i - 1]);
                }
            }
        }
    }
}

proof fn lemma_v090_block_segment(d: Seq<u8>, pos: int, count: nat, seg: u16)
    requires
        relocs_v090_block(d, pos, count, seg) is Ok,
    ensures
        relocs_v090_block(d, pos, count, seg) matches Ok(r) && r.len() == count && forall|i: int|
            0 <= i < r.len() ==> (#[trigger] r[i]).1 == seg,
    decreases count,
{
    if count > 0 {
        lemma_v090_block_segment(d, pos + 2, (count - 1) as nat, seg);
        let rest = relocs_v090_block(d, pos + 2, (count - 1) as nat, seg)->Ok_0;
        let r = seq![(le_word(d, pos) as u16, seg)] + rest;
        assert forall|i: int| 0 <= i < r.len() implies (#[trigger] r[i]).1 == seg by {
            if i > 0 {
                assert(r[i] == rest[i - 1]);
            }
        }
    }
}

/// The 0.90 table lists its entries segment by segment: every segment is a
/// multiple of 0x1000, none before the block the table starts at, and they
/// never decrease.
pub proof fn lemma_v090_segments_ordered(d: Seq<u8>, pos: int, block: nat)
    requires
        relocs_v090(d, pos, block) is Ok,
    ensures
        relocs_v090(d, pos, block) matches Ok(r) && {
            &&& forall|i: int|
                0 <= i < r.len() ==> (#[trigger] r[i]).1 % 0x1000 == 0 && r[i].1 >= block * 0x1000
            &&& forall|i: int, j: int| 0 <= i < j < r.len() ==> (#[trigger] r[i]).1 <= (#[trigger] r[j]).1
        },
    decreases 16 - block,
{
    if block < 16 && 0 <= pos && pos + 2 <= d.len() {
        let count = le_word(d, pos);
        let seg = (block * 0x1000) as u16;
        lemma_v090_block_segment(d, pos + 2, count as nat, seg);
        let es = relocs_v090_block(d, pos + 2, count as nat, seg)->Ok_0;
        lemma_v090_segments_ordered(d, pos + 2 + 2 * count, block + 1);
        let rest = relocs_v090(d, pos + 2 + 2 * count, block + 1)->Ok_0;
        let r = es + rest;
        assert(seg as int == block * 0x1000);
        assert forall|i: int| 0 <= i < r.len() implies (#[trigger] r[i]).1 % 0x1000 == 0 && r[i].1
            >= block * 0x1000 by {
            if i >= es.len() {
                assert(r[i] == rest[i - es.len()]);
            } else {
                assert(r[i] == es[i]);
            }
        }
        assert forall|i: int, j: int| 0 <= i < j < r.len() implies (#[trigger] r[i]).1
            <= (#[trigger] r[j]).1 by {
            if j < es.len() {
                assert(r[i] == es[i]);
                assert(r[j] == es[j]);
            } else if i < es.len() {
                assert(r[i] == es[i]);
                assert(r[j] == rest[j - es.len()]);
            } else {
                assert(r[i] == rest[i - es.len()]);
                assert(r[j] == rest[j - es.len()]);
            }
        }
    }
}

/// Every 0.91 relocation table reads nothing but its own bytes, up to its
/// end token: any file holding the same bytes from the table's start on
/// decodes it to the same entries.
pub proof fn lemma_v091_reads_only_table(
    d1: Seq<u8>,
    d2: Seq<u8>,
    pos: int,
    seg: u16,
    off: int,
)
    requires
        relocs_v091(d1, pos, seg, off) is Ok,
        d1.len() <= d2.len(),
        forall|i: int| pos <= i < d1.len() ==> d1[i] == d2[i],
    ensures
        relocs_v091(d2, pos, seg, off) == relocs_v091(d1, pos, seg, off),
    decreases d1.len() - pos,
{
    if 0 <= pos < d1.len() && !(d1[pos] == 0 && pos + 3 > d1.len()) {
        if d1[pos] == 0 {
            assert(le_word(d2, pos + 1) == le_word(d1, pos + 1));
        }
        if d1[pos] == 0 && le_word(d1, pos + 1) == 0 {
            lemma_v091_reads_only_table(d1, d2, pos + 3, ((seg + 0xFFF) % 0x10000) as u16, off);
        } else if !(d1[pos] == 0 && le_word(d1, pos + 1) == 1) {
            let (span, next) = if d1[pos] == 0 {
                (le_word(d1, pos + 1), pos + 3)
            } else {
                (d1[pos] as int, pos + 1)
            };
            let addr = off + span;
            lemma_v091_reads_only_table(d1, d2, next, ((seg + addr / 16) % 0x10000) as u16, addr % 16);
        }
    }
}

proof fn lemma_v090_block_reads_only_table(d1: Seq<u8>, d2: Seq<u8>, pos: int, count: nat, seg: u16)
    requires
        relocs_v090_block(d1, pos, count, seg) is Ok,
        d1.len() <= d2.len(),
        forall|i: int| pos <= i < d1.len() ==> d1[i] == d2[i],
    ensures
        relocs_v090_block(d2, pos, count, seg) == relocs_v090_block(d1, pos, count, seg),
    decreases count,
{
    if count > 0 {
        assert(le_word(d2, pos) == le_word(d1, pos));
        lemma_v090_block_reads_only_table(d1, d2, pos + 2, (count - 1) as nat, seg);
    }
}

/// Every 0.90 relocation table reads nothing but its own sixteen blocks: any
/// file holding the same bytes from the table's start on decodes it to the
/// same entries.
pub proof fn lemma_v090_reads_only_table(d1: Seq<u8>, d2: Seq<u8>, pos: int, block: nat)
    requires
        relocs_v090(d1, pos, block) is Ok,
        d1.len() <= d2.len(),
        forall|i: int| pos <= i < d1.len() ==> d1[i] == d2[i],
    ensures
        relocs_v090(d2, pos, block) == relocs_v090(d1, pos, block),
    decreases 16 - block,
{
    if block < 16 && 0 <= pos && pos + 2 <= d1.len() {
        assert(le_word(d2, pos) == le_word(d1, pos));
        let count = le_word(d1, pos);
        lemma_v090_block_reads_only_table(d1, d2, pos + 2, count as nat, (block * 0x1000) as u16);
        lemma_v090_reads_only_table(d1, d2, pos + 2 + 2 * count, block + 1);
    }
}

/// The cursor `c` moved `delta` bytes further into the input.
pub open spec fn shift_cursor(c: Cursor, delta: int) -> Cursor {
    Cursor { pos: c.pos + delta, buf: c.buf, count: c.count }
}

/// `d2` holds the bytes of `d1` from `from` on, `delta` bytes further in.
pub open spec fn holds_shifted(d1: Seq<u8>, d2: Seq<u8>, from: int, delta: int) -> bool {
    &&& 0 <= from
    &&& 0 <= from + delta
    &&& d1.len() + delta <= d2.len()
    &&& forall|i: int| from <= i < d1.len() ==> #[trigger] d2[i + delta] == d1[i]
}

proof fn lemma_reads_shift(d1: Seq<u8>, d2: Seq<u8>, c: Cursor, delta: int)
    requires
        holds_shifted(d1, d2, c.pos, delta),
    ensures
        read_bit(d1, c) matches Some((b, c1)) ==> c1.pos >= c.pos && read_bit(
            d2,
            shift_cursor(c, delta),
        ) == Some((b, shift_cursor(c1, delta))),
        read_byte(d1, c) matches Some((b, c1)) ==> c1.pos >= c.pos && read_byte(
            d2,
            shift_cursor(c, delta),
        ) == Some((b, shift_cursor(c1, delta))),
{
    if c.count == 1 && 0 <= c.pos && c.pos + 2 <= d1.len() {
        assert(d2[c.pos + delta] == d1[c.pos]);
        assert(d2[(c.pos + 1) + delta] == d1[c.pos + 1]);
    }
    if 0 <= c.pos < d1.len() {
        assert(d2[c.pos + delta] == d1[c.pos]);
    }
}

proof fn lemma_token_shift(d1: Seq<u8>, d2: Seq<u8>, c: Cursor, delta: int)
    requires
        holds_shifted(d1, d2, c.pos, delta),
    ensures
        read_token(d1, c) matches Some((t, c1)) ==> c1.pos >= c.pos && read_token(
            d2,
            shift_cursor(c, delta),
        ) == Some((t, shift_cursor(c1, delta))),
{
    lemma_reads_shift(d1, d2, c, delta);
    if let Some((b1, c1)) = read_bit(d1, c) {
        lemma_reads_shift(d1, d2, c1, delta);
        if let Some((b2, c2)) = read_bit(d1, c1) {
            lemma_reads_shift(d1, d2, c2, delta);
            if let Some((hb, c3)) = read_bit(d1, c2) {
                lemma_reads_shift(d1, d2, c3, delta);
                if let Some((lb, c4)) = read_bit(d1, c3) {
                    lemma_reads_shift(d1, d2, c4, delta);
                }
            }
            if let Some((lo, c3)) = read_byte(d1, c2) {
                lemma_reads_shift(d1, d2, c3, delta);
                if let Some((hi, c4)) = read_byte(d1, c3) {
                    lemma_reads_shift(d1, d2, c4, delta);
                }
            }
        }
    }
}

/// A packed stream decodes to the same image wherever it stands: moved
/// `delta` bytes into any input that holds its bytes from the cursor on, it
/// gives the same result.
pub proof fn lemma_inflate_shift(d1: Seq<u8>, d2: Seq<u8>, c: Cursor, image: Seq<u8>, delta: int)
    requires
        cursor_wf(d1, c),
        inflate(d1, c, image) is Ok,
        holds_shifted(d1, d2, c.pos, delta),
    ensures
        cursor_wf(d2, shift_cursor(c, delta)),
        inflate(d2, shift_cursor(c, delta), image) == inflate(d1, c, image),
    decreases cursor_measure(d1, c),
{
    lemma_token_progress(d1, c);
    lemma_token_shift(d1, d2, c, delta);
    let c_2 = shift_cursor(c, delta);
    lemma_token_progress(d2, c_2);
    match read_token(d1, c) {
        None => {},
        Some((t, c1)) => {
            assert(holds_shifted(d1, d2, c1.pos, delta));
            match t {
                Token::End => {},
                Token::Skip => lemma_inflate_shift(d1, d2, c1, image, delta),
                Token::Literal(b) => lemma_inflate_shift(d1, d2, c1, image.push(b), delta),
                Token::Copy { dist, len } => {
                    if image.len() >= dist {
                        lemma_inflate_shift(d1, d2, c1, copy_run(image, dist as int, len as nat), delta);
                    }
                },
            }
        },
    }
}

/// Two packed files that carry the same stream `w` (from its first control
/// word to its end mark) unpack to the same load image, whatever their
/// versions, relocation tables, information blocks and headers.
pub proof fn lemma_same_stream_same_image(
    d1: Seq<u8>,
    v1: Ver,
    o1: Seq<u8>,
    d2: Seq<u8>,
    v2: Ver,
    o2: Seq<u8>,
    w: Seq<u8>,
)
    requires
        unpack(d1, v1) == Ok::<Seq<u8>, DecompressError>(o1),
        unpack(d2, v2) == Ok::<Seq<u8>, DecompressError>(o2),
        cursor_start(w, 0) matches Some(c) && inflate(w, c, Seq::empty()) is Ok,
        bytes_at(d1, 16 * stream_paragraph(d1), w),
        bytes_at(d2, 16 * stream_paragraph(d2), w),
    ensures
        packed_relocs(d1, v1) matches Ok(r1) && packed_relocs(d2, v2) matches Ok(r2) && o1.subrange(
            header_size(r1.len() as int),
            o1.len() as int,
        ) == o2.subrange(header_size(r2.len() as int), o2.len() as int),
{
    lemma_unpacked_layout(d1, v1, o1);
    lemma_unpacked_layout(d2, v2, o2);
    let c = cursor_start(w, 0)->Some_0;
    lemma_start_wf(w, 0);
    let s1 = 16 * stream_paragraph(d1);
    let s2 = 16 * stream_paragraph(d2);
    assert forall|i: int| 2 <= i < w.len() implies #[trigger] d1[i + s1] == w[i] by {
        assert(d1.subrange(s1, s1 + w.len())[i] == w[i]);
    }
    assert forall|i: int| 2 <= i < w.len() implies #[trigger] d2[i + s2] == w[i] by {
        assert(d2.subrange(s2, s2 + w.len())[i] == w[i]);
    }
    assert(d1.subrange(s1, s1 + w.len())[0] == w[0]);
    assert(d1.subrange(s1, s1 + w.len())[1] == w[1]);
    assert(d2.subrange(s2, s2 + w.len())[0] == w[0]);
    assert(d2.subrange(s2, s2 + w.len())[1] == w[1]);
    assert(cursor_start(d1, s1) == Some(shift_cursor(c, s1)));
    assert(cursor_start(d2, s2) == Some(shift_cursor(c, s2)));
    lemma_inflate_shift(w, d1, c, Seq::empty(), s1);
    lemma_inflate_shift(w, d2, c, Seq::empty(), s2);
}

/// Every word written out little-endian reads back as the same word.
pub proof fn lemma_le_bytes_roundtrip(ws: Seq<u16>)
    ensures
        le_bytes(ws).len() == 2 * ws.len(),
        forall|i: int| 0 <= i < ws.len() ==> le_word(le_bytes(ws), 2 * i) == #[trigger] ws[i],
{
    lemma_le_bytes_index(ws);
}

} // verus!
