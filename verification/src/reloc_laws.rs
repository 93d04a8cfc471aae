//! What the packed relocation tables decode to, stated over their bytes.
use vstd::prelude::*;
use crate::error::DecompressError;
use crate::reloc::{relocs_v090, relocs_v090_block, relocs_v091};

verus! {

proof fn lemma_v090_block_entries(d: Seq<u8>, pos: int, count: nat, seg: u16)
    requires
        relocs_v090_block(d, pos, count, seg) is Ok,
    ensures
        relocs_v090_block(d, pos, count, seg) matches Ok(r) && {
            &&& r.len() == count
            &&& 0 <= pos
            &&& pos + 2 * count <= d.len()
            &&& forall|i: int|
                0 <= i < count ==> #[trigger] r[i] == (
                    (d[pos + 2 * i] as int + 256 * d[pos + 2 * i + 1] as int) as u16,
                    seg,
                )
        } || count == 0,
    decreases count,
{
    if count > 0 {
        lemma_v090_block_entries(d, pos + 2, (count - 1) as nat, seg);
        let rest = relocs_v090_block(d, pos + 2, (count - 1) as nat, seg)->Ok_0;
        let r = relocs_v090_block(d, pos, count, seg)->Ok_0;
        assert forall|i: int| 0 <= i < count implies #[trigger] r[i] == (
            (d[pos + 2 * i] as int + 256 * d[pos + 2 * i + 1] as int) as u16,
            seg,
        ) by {
            if i > 0 {
                assert(r[i] == rest[i - 1]);
                assert(pos + 2 * i == (pos + 2) + 2 * (i - 1));
            }
        }
    }
}

/// A 0.90 block starts with its entry count, the whole little-endian word
/// `n`; exactly `n` offset words follow, and they are the table's next `n`
/// entries, all in the block's segment `block * 0x1000`.  The rest of the
/// table is decoded after them.
pub proof fn lemma_v090_block_layout(d: Seq<u8>, pos: int, block: nat)
    requires
        block < 16,
        relocs_v090(d, pos, block) is Ok,
    ensures
        relocs_v090(d, pos, block) matches Ok(r) && {
            let n = d[pos] as int + 256 * d[pos + 1] as int;
            &&& 0 <= pos
            &&& pos + 2 + 2 * n <= d.len()
            &&& n <= r.len()
            &&& forall|i: int|
                0 <= i < n ==> #[trigger] r[i] == (
                    (d[pos + 2 + 2 * i] as int + 256 * d[pos + 3 + 2 * i] as int) as u16,
                    (block * 0x1000) as u16,
                )
            &&& relocs_v090(d, pos + 2 + 2 * n, block + 1) == Ok::<
                Seq<(u16, u16)>,
                DecompressError,
            >(r.subrange(n, r.len() as int))
        },
{
    let n = d[pos] as int + 256 * d[pos + 1] as int;
    let seg = (block * 0x1000) as u16;
    lemma_v090_block_entries(d, pos + 2, n as nat, seg);
    let es = relocs_v090_block(d, pos + 2, n as nat, seg)->Ok_0;
    let rest = relocs_v090(d, pos + 2 + 2 * n, block + 1)->Ok_0;
    let r = relocs_v090(d, pos, block)->Ok_0;
    assert(r == es + rest);
    assert(r.subrange(n, r.len() as int) =~= rest);
    assert forall|i: int| 0 <= i < n implies #[trigger] r[i] == (
        (d[pos + 2 + 2 * i] as int + 256 * d[pos + 3 + 2 * i] as int) as u16,
        seg,
    ) by {
        assert(r[i] == es[i]);
        assert(pos + 2 + 2 * i + 1 == pos + 3 + 2 * i);
    }
}

/// After the sixteenth block the 0.90 table has ended: nothing more is read.
pub proof fn lemma_v090_ends_after_sixteen_blocks(d: Seq<u8>, pos: int)
    ensures
        relocs_v090(d, pos, 16) == Ok::<Seq<(u16, u16)>, DecompressError>(Seq::empty()),
{
}

/// One step of the 0.91 table at `pos`, from address `seg:off` (with
/// `off < 16`).  A nonzero byte `b`, or a zero byte and a word `w` other
/// than 0 and 1, moves the address on by that span: the entry is the new
/// address normalised to an offset below 16, and decoding goes on from it.
/// A zero byte and word 0 moves the segment on by 0xFFF without an entry;
/// a zero byte and word 1 ends the table.
pub proof fn lemma_v091_step(d: Seq<u8>, pos: int, seg: u16, off: int)
    requires
        0 <= pos < d.len(),
        0 <= off < 16,
    ensures
        d[pos] != 0 ==> ({
            let a = off + d[pos] as int;
            let e = ((a % 16) as u16, ((seg + a / 16) % 0x10000) as u16);
            relocs_v091(d, pos, seg, off) == match relocs_v091(d, pos + 1, e.1, a % 16) {
                Ok(rest) => Ok(seq![e] + rest),
                Err(x) => Err::<Seq<(u16, u16)>, DecompressError>(x),
            }
        }),
        d[pos] == 0 && pos + 3 <= d.len() ==> ({
            let w = d[pos + 1] as int + 256 * d[pos + 2] as int;
            let a = off + w;
            let e = ((a % 16) as u16, ((seg + a / 16) % 0x10000) as u16);
            &&& w == 0 ==> relocs_v091(d, pos, seg, off) == relocs_v091(
                d,
                pos + 3,
                ((seg + 0xFFF) % 0x10000) as u16,
                off,
            )
            &&& w == 1 ==> relocs_v091(d, pos, seg, off) == Ok::<
                Seq<(u16, u16)>,
                DecompressError,
            >(Seq::empty())
            &&& w >= 2 ==> relocs_v091(d, pos, seg, off) == match relocs_v091(
                d,
                pos + 3,
                e.1,
                a % 16,
            ) {
                Ok(rest) => Ok(seq![e] + rest),
                Err(x) => Err::<Seq<(u16, u16)>, DecompressError>(x),
            }
        }),
        d[pos] == 0 && pos + 3 > d.len() ==> relocs_v091(d, pos, seg, off) == Err::<
            Seq<(u16, u16)>,
            DecompressError,
        >(DecompressError::TruncatedRelocations),
{
}

} // verus!
