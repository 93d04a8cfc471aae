//! The packed relocation tables of the two stub versions.
use vstd::prelude::*;
use crate::error::DecompressError;
use crate::header::{le_word, read_u16le};

verus! {

/// `prefix` in front of the entries of `r`, or the error of `r`.
pub open spec fn prepend_entries(
    prefix: Seq<(u16, u16)>,
    r: Result<Seq<(u16, u16)>, DecompressError>,
) -> Result<Seq<(u16, u16)>, DecompressError> {
    match r {
        Ok(rest) => Ok(prefix + rest),
        Err(e) => Err(e),
    }
}

/// The (offset, segment) entries that the 0.91 table at `pos` decodes to,
/// given the segment (modulo 0x10000) and offset reached so far.  Each entry
/// is a distance from the previous one: a nonzero byte, or a zero byte and a
/// word, where word 0 moves 0xFFF paragraphs on and word 1 ends the table.
/// The address is kept normalised, with an offset below 16.
pub open spec fn relocs_v091(d: Seq<u8>, pos: int, seg: u16, off: int) -> Result<
    Seq<(u16, u16)>,
    DecompressError,
>
    decreases d.len() - pos,
{
    if pos < 0 || pos >= d.len() {
        Err(DecompressError::TruncatedRelocations)
    } else if d[pos] == 0 && pos + 3 > d.len() {
        Err(DecompressError::TruncatedRelocations)
    } else if d[pos] == 0 && le_word(d, pos + 1) == 0 {
        relocs_v091(d, pos + 3, ((seg + 0xFFF) % 0x10000) as u16, off)
    } else if d[pos] == 0 && le_word(d, pos + 1) == 1 {
        Ok(Seq::empty())
    } else {
        let (span, next) = if d[pos] == 0 {
            (le_word(d, pos + 1), pos + 3)
        } else {
            (d[pos] as int, pos + 1)
        };
        let addr = off + span;
        let seg2 = ((seg + addr / 16) % 0x10000) as u16;
        let off2 = addr % 16;
        prepend_entries(seq![(off2 as u16, seg2)], relocs_v091(d, next, seg2, off2))
    }
}

/// The `count` entries of one 0.90 block at `pos`: offsets as words, all in
/// segment `seg`.
pub open spec fn relocs_v090_block(d: Seq<u8>, pos: int, count: nat, seg: u16) -> Result<
    Seq<(u16, u16)>,
    DecompressError,
>
    decreases count,
{
    if count == 0 {
        Ok(Seq::empty())
    } else if pos < 0 || pos + 2 > d.len() {
        Err(DecompressError::TruncatedRelocations)
    } else {
        prepend_entries(
            seq![(le_word(d, pos) as u16, seg)],
            relocs_v090_block(d, pos + 2, (count - 1) as nat, seg),
        )
    }
}

/// The entries of the 0.90 table at `pos`, from block `block` on: sixteen
/// blocks, one per 64K segment 0x0000, 0x1000, .., 0xF000, each a count word
/// followed by that many offset words.
pub open spec fn relocs_v090(d: Seq<u8>, pos: int, block: nat) -> Result<
    Seq<(u16, u16)>,
    DecompressError,
>
    decreases 16 - block,
{
    if block >= 16 {
        Ok(Seq::empty())
    } else if pos < 0 || pos + 2 > d.len() {
        Err(DecompressError::TruncatedRelocations)
    } else {
        let count = le_word(d, pos);
        match relocs_v090_block(d, pos + 2, count as nat, (block * 0x1000) as u16) {
            Err(e) => Err(e),
            Ok(es) => prepend_entries(es, relocs_v090(d, pos + 2 + 2 * count, block + 1)),
        }
    }
}

proof fn lemma_prepend_push(
    prefix: Seq<(u16, u16)>,
    x: (u16, u16),
    r: Result<Seq<(u16, u16)>, DecompressError>,
)
    ensures
        prepend_entries(prefix, prepend_entries(seq![x], r)) == prepend_entries(prefix.push(x), r),
{
    if let Ok(rest) = r {
        assert(prefix + (seq![x] + rest) =~= prefix.push(x) + rest);
    }
}

proof fn lemma_prepend_concat(
    a: Seq<(u16, u16)>,
    b: Seq<(u16, u16)>,
    r: Result<Seq<(u16, u16)>, DecompressError>,
)
    ensures
        prepend_entries(a, prepend_entries(b, r)) == prepend_entries(a + b, r),
{
    if let Ok(rest) = r {
        assert(a + (b + rest) =~= (a + b) + rest);
    }
}

/// Decodes the 0.91 relocation table, which starts at CS:0x158.
pub fn decompress_reloc_91(data: &[u8], cs_off: usize) -> (r: Result<Vec<(u16, u16)>, DecompressError>)
    requires
        cs_off + 0x158 <= usize::MAX,
    ensures
        match r {
            Ok(v) => relocs_v091(data@, cs_off + 0x158, 0, 0) == Ok::<
                Seq<(u16, u16)>,
                DecompressError,
            >(v@),
            Err(e) => relocs_v091(data@, cs_off + 0x158, 0, 0) == Err::<
                Seq<(u16, u16)>,
                DecompressError,
            >(e),
        },
{
    let ghost start = cs_off + 0x158;
    let mut pos = cs_off + 0x158;
    let mut entries: Vec<(u16, u16)> = Vec::new();
    let mut rel_seg: u16 = 0;
    let mut rel_off: u32 = 0;
    assert(entries@ + Seq::<(u16, u16)>::empty() =~= Seq::<(u16, u16)>::empty());
    loop
        invariant
            start == cs_off + 0x158,
            rel_off < 16,
            prepend_entries(entries@, relocs_v091(data@, pos as int, rel_seg, rel_off as int))
                == relocs_v091(data@, start, 0, 0),
        decreases data@.len() - pos,
    {
        if pos >= data.len() {
            return Err(DecompressError::TruncatedRelocations);
        }
        let b = data[pos] as u32;
        let span: u32;
        let next: usize;
        if b == 0 {
            if data.len() - pos < 3 {
                return Err(DecompressError::TruncatedRelocations);
            }
            let w = read_u16le(data, pos + 1) as u32;
            if w == 0 {
                rel_seg = rel_seg.wrapping_add(0x0FFF);
                pos = pos + 3;
                continue;
            }
            if w == 1 {
                assert(entries@ + Seq::<(u16, u16)>::empty() =~= entries@);
                return Ok(entries);
            }
            span = w;
            next = pos + 3;
        } else {
            span = b;
            next = pos + 1;
        }
        let addr = rel_off + span;
        let ghost old_entries = entries@;
        rel_seg = rel_seg.wrapping_add((addr >> 4) as u16);
        rel_off = addr & 0x0F;
        assert(addr >> 4 == addr / 16) by (bit_vector);
        assert(addr & 0x0F == addr % 16) by (bit_vector);
        entries.push((rel_off as u16, rel_seg));
        proof {
            lemma_prepend_push(old_entries, (rel_off as u16, rel_seg), relocs_v091(data@, next as int, rel_seg, rel_off as int));
        }
        pos = next;
    }
}

/// Decodes the 0.90 relocation table, which starts at CS:0x19D.
pub fn decompress_reloc_90(data: &[u8], cs_off: usize) -> (r: Result<Vec<(u16, u16)>, DecompressError>)
    requires
        cs_off + 0x19D <= usize::MAX,
    ensures
        match r {
            Ok(v) => relocs_v090(data@, cs_off + 0x19D, 0) == Ok::<
                Seq<(u16, u16)>,
                DecompressError,
            >(v@),
            Err(e) => relocs_v090(data@, cs_off + 0x19D, 0) == Err::<
                Seq<(u16, u16)>,
                DecompressError,
            >(e),
        },
{
    let ghost start = cs_off + 0x19D;
    let mut pos = cs_off + 0x19D;
    let mut entries: Vec<(u16, u16)> = Vec::new();
    let mut block: u32 = 0;
    assert(entries@ + Seq::<(u16, u16)>::empty() =~= Seq::<(u16, u16)>::empty());
    while block < 16
        invariant
            start == cs_off + 0x19D,
            block <= 16,
            prepend_entries(entries@, relocs_v090(data@, pos as int, block as nat))
                == relocs_v090(data@, start, 0),
        decreases 16 - block,
    {
        if pos >= data.len() || data.len() - pos < 2 {
            return Err(DecompressError::TruncatedRelocations);
        }
        let ghost block_pos = pos as int;
        let count = read_u16le(data, pos) as usize;
        pos = pos + 2;
        let seg = (block * 0x1000) as u16;
        let ghost block_start = pos as int;
        let ghost before = entries@;
        let mut k: usize = 0;
        assert(before + Seq::<(u16, u16)>::empty() =~= before);
        while k < count
            invariant
                k <= count,
                block < 16,
                start == cs_off + 0x19D,
                block_start == block_pos + 2,
                block_pos + 2 <= data@.len(),
                0 <= block_pos,
                count as int == le_word(data@, block_pos),
                prepend_entries(before, relocs_v090(data@, block_pos, block as nat))
                    == relocs_v090(data@, start, 0),
                seg as int == block * 0x1000,
                pos as int == block_start + 2 * k,
                prepend_entries(entries@, relocs_v090_block(data@, pos as int, (count - k) as nat, seg))
                    == prepend_entries(before, relocs_v090_block(data@, block_start, count as nat, seg)),
            decreases count - k,
        {
            if pos >= data.len() || data.len() - pos < 2 {
                return Err(DecompressError::TruncatedRelocations);
            }
            let rel_off = read_u16le(data, pos);
            let ghost old_entries = entries@;
            entries.push((rel_off, seg));
            proof {
                lemma_prepend_push(old_entries, (rel_off, seg), relocs_v090_block(data@, pos + 2, (count - k - 1) as nat, seg));
            }
            pos = pos + 2;
            k = k + 1;
        }
        proof {
            let rest = relocs_v090(data@, pos as int, (block + 1) as nat);
            assert(entries@ + Seq::<(u16, u16)>::empty() =~= entries@);
            match relocs_v090_block(data@, block_start, count as nat, seg) {
                Ok(es) => {
                    assert(entries@ == before + es);
                    lemma_prepend_concat(before, es, rest);
                },
                Err(e) => {},
            }
            assert(relocs_v090(data@, block_pos, block as nat) == match relocs_v090_block(
                data@,
                block_start,
                count as nat,
                seg,
            ) {
                Err(e) => Err(e),
                Ok(es) => prepend_entries(es, rest),
            });
        }
        block = block + 1;
    }
    assert(entries@ + Seq::<(u16, u16)>::empty() =~= entries@);
    Ok(entries)
}

} // verus!
