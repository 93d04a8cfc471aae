//! The MZ header fields that LZEXE detection reads, and the detection itself.
use vstd::prelude::*;

verus! {

/// Which decompressor stub a packed file carries.  0.91e uses the 0.91 stub
/// behind a one-byte prefix and is decoded the same way.
#[derive(Clone, Copy, Debug, PartialEq, Eq, Structural)]
pub enum Ver {
    V090,
    V091,
}

/// Stub bytes at the entry point of a file packed by LZEXE 0.90.
pub const SIG_V090: [u8; 24] = [
    0x06, 0x0E, 0x1F, 0x8B, 0x0E, 0x0C, 0x00, 0x8B, 0xF1, 0x4E, 0x89, 0xF7, 0x8C, 0xDB,
    0x03, 0x1E, 0x0A, 0x00, 0x8E, 0xC3, 0xB4, 0x00, 0x31, 0xED,
];

/// Stub bytes at the entry point of a file packed by LZEXE 0.91.
pub const SIG_V091: [u8; 24] = [
    0x06, 0x0E, 0x1F, 0x8B, 0x0E, 0x0C, 0x00, 0x8B, 0xF1, 0x4E, 0x89, 0xF7, 0x8C, 0xDB,
    0x03, 0x1E, 0x0A, 0x00, 0x8E, 0xC3, 0xFD, 0xF3, 0xA4, 0x53,
];

/// The extra byte (`push ax`) that LZEXE 0.91e puts in front of the 0.91 stub.
pub const SIG_V091E_PREFIX: u8 = 0x50;

/// The little-endian 16-bit word stored at `off` and `off + 1`.
pub open spec fn le_word(d: Seq<u8>, off: int) -> int {
    d[off] as int + 256 * (d[off + 1] as int)
}

/// File offset of the entry point CS:IP named by the MZ header:
/// (header paragraphs + CS) * 16 + IP.
pub open spec fn entry_offset(d: Seq<u8>) -> int {
    (le_word(d, 0x08) + le_word(d, 0x16)) * 16 + le_word(d, 0x14)
}

/// An MZ (or ZM) header of at least 0x20 bytes with the two marks that LZEXE
/// leaves on a packed file: the relocation table at 0x1C, and no relocations.
pub open spec fn has_packed_header(d: Seq<u8>) -> bool {
    &&& d.len() >= 0x20
    &&& (le_word(d, 0) == 0x5A4D || le_word(d, 0) == 0x4D5A)
    &&& le_word(d, 0x18) == 0x1C
    &&& le_word(d, 0x06) == 0
}

/// `sig` occurs in `d` starting at `off`.
pub open spec fn bytes_at(d: Seq<u8>, off: int, sig: Seq<u8>) -> bool {
    &&& 0 <= off
    &&& off + sig.len() <= d.len()
    &&& d.subrange(off, off + sig.len()) == sig
}

/// The LZEXE version that packed `d`, or `None` when `d` is not an LZEXE file.
pub open spec fn detect_format(d: Seq<u8>) -> Option<Ver> {
    if !has_packed_header(d) {
        None
    } else {
        let ep = entry_offset(d);
        if ep + 24 > d.len() {
            None
        } else if bytes_at(d, ep, SIG_V090@) {
            Some(Ver::V090)
        } else if bytes_at(d, ep, SIG_V091@) {
            Some(Ver::V091)
        } else if d[ep] == SIG_V091E_PREFIX && bytes_at(d, ep + 1, SIG_V091@) {
            Some(Ver::V091)
        } else {
            None
        }
    }
}

/// Reads the little-endian word at `off`.
pub fn read_u16le(data: &[u8], off: usize) -> (w: u16)
    requires
        off + 1 < data@.len(),
    ensures
        w as int == le_word(data@, off as int),
{
    data[off] as u16 + (data[off + 1] as u16) * 256
}

/// Locates the entry point from the MZ header.
pub fn entry_point(data: &[u8]) -> (ep: usize)
    requires
        data@.len() >= 0x18,
    ensures
        ep as int == entry_offset(data@),
{
    let header_paras = read_u16le(data, 0x08) as usize;
    let cs = read_u16le(data, 0x16) as usize;
    let ip = read_u16le(data, 0x14) as usize;
    ((header_paras + cs) * 16) + ip
}

/// Tells whether the 24 bytes of `sig` stand in `data` at `off`.
fn matches_at(data: &[u8], off: usize, sig: [u8; 24]) -> (r: bool)
    ensures
        r == bytes_at(data@, off as int, sig@),
{
    if off > data.len() || data.len() - off < 24 {
        return false;
    }
    let mut i: usize = 0;
    while i < 24
        invariant
            off + 24 <= data.len(),
            i <= 24,
            sig@.len() == 24,
            forall|j: int| 0 <= j < i ==> data@[off + j] == sig@[j],
        decreases 24 - i,
    {
        if data[off + i] != sig[i] {
            assert(data@.subrange(off as int, off + 24)[i as int] != sig@[i as int]);
            return false;
        }
        i = i + 1;
    }
    assert(data@.subrange(off as int, off + 24) =~= sig@);
    true
}

/// The LZEXE version whose stub stands at the entry point of `data`, if any.
pub fn detect_version(data: &[u8]) -> (r: Option<Ver>)
    ensures
        r == detect_format(data@),
{
    if data.len() < 0x20 {
        return None;
    }
    let magic = read_u16le(data, 0);
    if magic != 0x5A4D && magic != 0x4D5A {
        return None;
    }
    if read_u16le(data, 0x18) != 0x1C || read_u16le(data, 0x06) != 0 {
        return None;
    }
    let ep = entry_point(data);
    if ep + 24 > data.len() {
        return None;
    }
    if matches_at(data, ep, SIG_V090) {
        return Some(Ver::V090);
    }
    if matches_at(data, ep, SIG_V091) {
        return Some(Ver::V091);
    }
    if data[ep] == SIG_V091E_PREFIX && matches_at(data, ep + 1, SIG_V091) {
        return Some(Ver::V091);
    }
    None
}

} // verus!
