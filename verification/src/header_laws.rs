//! The fields of every rebuilt MZ header, stated over the bytes of the
//! packed file and of the result.
use vstd::prelude::*;
use crate::error::DecompressError;
use crate::exe::{header_size, info_word, packed_relocs, stub_offset, unpack};
use crate::bits::cursor_start;
use crate::header::{SIG_V090, SIG_V091, Ver, detect_format, entry_offset, le_word};
use crate::lzss::inflate;
use crate::reloc::{relocs_v090, relocs_v091};
use crate::laws::lemma_unpacked_layout;

verus! {

/// Every field of the rebuilt header, from the packed file `d`: its header
/// (paragraphs at 0x08, minalloc 0x0A, maxalloc 0x0C, CS 0x16) and the
/// stub's information block at CS:0 (IP, CS, SP, SS, then at +10 the
/// displacement and at +12 the decompressor size that the packer added to
/// the allocation fields, in paragraphs rounded up, plus 9).
/// - 0x00 "MZ"; 0x02 and 0x04 the length in bytes modulo 512 and in 512-byte
///   pages (rounded up, modulo 0x10000); 0x06 the relocation count;
/// - 0x08 the header paragraphs, for a header that is the least multiple of
///   512 bytes holding the 0x1C fixed bytes and 4 bytes per relocation;
/// - 0x0A minalloc and 0x0C maxalloc less what the packer added, modulo
///   0x10000, with maxalloc 0xFFFF kept;
/// - 0x0E SS, 0x10 SP, 0x14 IP, 0x16 CS from the information block;
/// - 0x12 and 0x1A zero, 0x18 the relocation table offset 0x1C.
#[verifier::rlimit(60)]
pub proof fn lemma_rebuilt_header_fields(d: Seq<u8>, v: Ver, o: Seq<u8>)
    requires
        unpack(d, v) == Ok::<Seq<u8>, DecompressError>(o),
    ensures
        packed_relocs(d, v) matches Ok(r) && {
            let cs = 16 * (le_word(d, 0x08) + le_word(d, 0x16));
            let added = (le_word(d, cs + 10) + (le_word(d, cs + 12) + 15) / 16 + 9) % 0x10000;
            let n = r.len() as int;
            let hs = 16 * le_word(o, 0x08);
            &&& o[0] == 0x4D && o[1] == 0x5A
            &&& le_word(o, 0x02) == o.len() % 512
            &&& le_word(o, 0x04) == ((o.len() + 511) / 512) % 0x10000
            &&& le_word(o, 0x06) == n % 0x10000
            &&& (header_size(n) < 0x100000 ==> {
                &&& hs % 512 == 0
                &&& 0x1C + 4 * n <= hs < 0x1C + 4 * n + 512
            })
            &&& le_word(o, 0x0A) == (le_word(d, 0x0A) - added) % 0x10000
            &&& le_word(o, 0x0C) == if le_word(d, 0x0C) == 0xFFFF {
                0xFFFF
            } else {
                (le_word(d, 0x0C) - added) % 0x10000
            }
            &&& le_word(o, 0x0E) == le_word(d, cs + 6)
            &&& le_word(o, 0x10) == le_word(d, cs + 4)
            &&& o[0x12] == 0 && o[0x13] == 0
            &&& le_word(o, 0x14) == le_word(d, cs)
            &&& le_word(o, 0x16) == le_word(d, cs + 2)
            &&& le_word(o, 0x18) == 0x1C
            &&& o[0x1A] == 0 && o[0x1B] == 0
        },
{
    lemma_unpacked_layout(d, v, o);
    let r = packed_relocs(d, v)->Ok_0;
    let n = r.len() as int;
    let hs = header_size(n);
    let cs = 16 * (le_word(d, 0x08) + le_word(d, 0x16));
    assert(stub_offset(d) == cs);
    assert(info_word(d, 0) == le_word(d, cs));
    assert(info_word(d, 1) == le_word(d, cs + 2));
    assert(info_word(d, 2) == le_word(d, cs + 4));
    assert(info_word(d, 3) == le_word(d, cs + 6));
    assert(info_word(d, 5) == le_word(d, cs + 10));
    assert(info_word(d, 6) == le_word(d, cs + 12));
    if hs < 0x100000 {
        assert(hs / 16 < 0x10000);
        assert(16 * (hs / 16) == hs);
        assert(16 * le_word(o, 0x08) == hs);
    }
}

/// Where the pieces of a packed file are read: the relocation table at
/// CS:0x19D (0.90) or CS:0x158 (0.91), and the packed image from paragraph
/// CS - (packed size at CS:8) + header paragraphs, whose unpacked bytes fill
/// the rebuilt file after its header.
pub proof fn lemma_packed_pieces_location(d: Seq<u8>, v: Ver, o: Seq<u8>)
    requires
        unpack(d, v) == Ok::<Seq<u8>, DecompressError>(o),
    ensures
        ({
            let cs = 16 * (le_word(d, 0x08) + le_word(d, 0x16));
            let start = 16 * (le_word(d, 0x16) - le_word(d, cs + 8) + le_word(d, 0x08));
            &&& cs + 16 <= d.len()
            &&& v == Ver::V090 ==> packed_relocs(d, v) == relocs_v090(d, cs + 0x19D, 0)
            &&& v == Ver::V091 ==> packed_relocs(d, v) == relocs_v091(d, cs + 0x158, 0, 0)
            &&& 0 <= start
            &&& packed_relocs(d, v) matches Ok(r) && (cursor_start(d, start) matches Some(c) && inflate(
                d,
                c,
                Seq::empty(),
            ) == Ok::<Seq<u8>, DecompressError>(
                o.subrange(header_size(r.len() as int), o.len() as int),
            ))
        }),
{
    lemma_unpacked_layout(d, v, o);
    let cs = 16 * (le_word(d, 0x08) + le_word(d, 0x16));
    assert(stub_offset(d) == cs);
    assert(info_word(d, 4) == le_word(d, cs + 8));
}

/// An LZEXE file is recognised by its MZ (or ZM) header of at least 0x20
/// bytes, with the relocation table at 0x1C and no relocations, and by the
/// stub at the entry point CS:IP = (header paragraphs + CS) * 16 + IP: the
/// 0.90 stub, the 0.91 stub, or the 0.91 stub behind a 0x50 byte (0.91e).
/// Nothing else is recognised.
pub proof fn lemma_detection(d: Seq<u8>)
    ensures
        ({
            let ep = 16 * (le_word(d, 0x08) + le_word(d, 0x16)) + le_word(d, 0x14);
            let s90 = seq![
                0x06u8, 0x0E, 0x1F, 0x8B, 0x0E, 0x0C, 0x00, 0x8B, 0xF1, 0x4E, 0x89, 0xF7, 0x8C, 0xDB,
                0x03, 0x1E, 0x0A, 0x00, 0x8E, 0xC3, 0xB4, 0x00, 0x31, 0xED,
            ];
            let s91 = seq![
                0x06u8, 0x0E, 0x1F, 0x8B, 0x0E, 0x0C, 0x00, 0x8B, 0xF1, 0x4E, 0x89, 0xF7, 0x8C, 0xDB,
                0x03, 0x1E, 0x0A, 0x00, 0x8E, 0xC3, 0xFD, 0xF3, 0xA4, 0x53,
            ];
            let marks = d.len() >= 0x20 && ((d[0] == 0x4D && d[1] == 0x5A) || (d[0] == 0x5A
                && d[1] == 0x4D)) && d[0x18] == 0x1C && d[0x19] == 0 && d[6] == 0 && d[7] == 0;
            let at90 = ep + 24 <= d.len() && d.subrange(ep, ep + 24) == s90;
            let at91 = ep + 24 <= d.len() && d.subrange(ep, ep + 24) == s91;
            let at91e = ep + 25 <= d.len() && d[ep] == 0x50 && d.subrange(ep + 1, ep + 25) == s91;
            &&& detect_format(d) == Some(Ver::V090) <==> marks && at90
            &&& detect_format(d) == Some(Ver::V091) <==> marks && (at91 || at91e)
            &&& detect_format(d) is None <==> !(marks && (at90 || at91 || at91e))
        }),
{
    let ep = 16 * (le_word(d, 0x08) + le_word(d, 0x16)) + le_word(d, 0x14);
    assert(entry_offset(d) == ep);
    let s90 = seq![
        0x06u8, 0x0E, 0x1F, 0x8B, 0x0E, 0x0C, 0x00, 0x8B, 0xF1, 0x4E, 0x89, 0xF7, 0x8C, 0xDB,
        0x03, 0x1E, 0x0A, 0x00, 0x8E, 0xC3, 0xB4, 0x00, 0x31, 0xED,
    ];
    let s91 = seq![
        0x06u8, 0x0E, 0x1F, 0x8B, 0x0E, 0x0C, 0x00, 0x8B, 0xF1, 0x4E, 0x89, 0xF7, 0x8C, 0xDB,
        0x03, 0x1E, 0x0A, 0x00, 0x8E, 0xC3, 0xFD, 0xF3, 0xA4, 0x53,
    ];
    assert(SIG_V090@ =~= s90);
    assert(SIG_V091@ =~= s91);
    assert(s90[0] != 0x50u8 && s91[0] != 0x50u8);
    assert(s90[20] != s91[20]);
    if d.len() >= 0x20 {
        assert(le_word(d, 0) == 0x5A4D <==> (d[0] == 0x4D && d[1] == 0x5A));
        assert(le_word(d, 0) == 0x4D5A <==> (d[0] == 0x5A && d[1] == 0x4D));
        assert(le_word(d, 0x18) == 0x1C <==> (d[0x18] == 0x1C && d[0x19] == 0));
        assert(le_word(d, 6) == 0 <==> (d[6] == 0 && d[7] == 0));
    }
    if ep + 24 <= d.len() && 0 <= ep {
        if d.subrange(ep, ep + 24) == s90 {
            assert(d[ep] == s90[0]);
            assert(d.subrange(ep, ep + 24)[20] == s90[20]);
        }
        if d.subrange(ep, ep + 24) == s91 {
            assert(d[ep] == s91[0]);
        }
    }
}

} // verus!
