use lzexe::{decompress, is_compressed, DecompressError};

const SIG_V090: [u8; 24] = [
    0x06, 0x0E, 0x1F, 0x8B, 0x0E, 0x0C, 0x00, 0x8B, 0xF1, 0x4E, 0x89, 0xF7, 0x8C, 0xDB,
    0x03, 0x1E, 0x0A, 0x00, 0x8E, 0xC3, 0xB4, 0x00, 0x31, 0xED,
];
const SIG_V091: [u8; 24] = [
    0x06, 0x0E, 0x1F, 0x8B, 0x0E, 0x0C, 0x00, 0x8B, 0xF1, 0x4E, 0x89, 0xF7, 0x8C, 0xDB,
    0x03, 0x1E, 0x0A, 0x00, 0x8E, 0xC3, 0xFD, 0xF3, 0xA4, 0x53,
];

#[derive(Clone, Copy, PartialEq)]
enum Stub {
    V090,
    V091,
    V091e,
}

fn put16(v: &mut Vec<u8>, off: usize, w: u16) {
    v[off] = (w & 0xFF) as u8;
    v[off + 1] = (w >> 8) as u8;
}

/// A packed file: two header paragraphs, the packed stream, then the stub
/// (information block, stub bytes at CS:0x10, relocation table).
fn packed(stub: Stub, stream: &[u8], table: &[u8], packed_paras: Option<u16>) -> Vec<u8> {
    let cs_para = (stream.len() + 15) / 16;
    let cs_off = (2 + cs_para) * 16;
    let table_at = cs_off + if stub == Stub::V090 { 0x19D } else { 0x158 };
    let len = table_at + table.len();
    let mut f = vec![0u8; len];
    f[0] = 0x4D;
    f[1] = 0x5A;
    put16(&mut f, 0x02, (len % 512) as u16);
    put16(&mut f, 0x04, ((len + 511) / 512) as u16);
    put16(&mut f, 0x08, 2);
    put16(&mut f, 0x0A, 0x0100);
    put16(&mut f, 0x0C, 0xFFFF);
    put16(&mut f, 0x0E, 0x0000);
    put16(&mut f, 0x10, 0x0080);
    put16(&mut f, 0x14, 0x0010);
    put16(&mut f, 0x16, cs_para as u16);
    put16(&mut f, 0x18, 0x1C);
    f[0x20..0x20 + stream.len()].copy_from_slice(stream);
    put16(&mut f, cs_off, 0x0100); // IP
    put16(&mut f, cs_off + 2, 0x0000); // CS
    put16(&mut f, cs_off + 4, 0x0200); // SP
    put16(&mut f, cs_off + 6, 0x0010); // SS
    put16(&mut f, cs_off + 8, packed_paras.unwrap_or(cs_para as u16));
    put16(&mut f, cs_off + 10, 0x0020);
    put16(&mut f, cs_off + 12, 0x0150);
    match stub {
        Stub::V090 => f[cs_off + 0x10..cs_off + 0x28].copy_from_slice(&SIG_V090),
        Stub::V091 => f[cs_off + 0x10..cs_off + 0x28].copy_from_slice(&SIG_V091),
        Stub::V091e => {
            f[cs_off + 0x10] = 0x50;
            f[cs_off + 0x11..cs_off + 0x29].copy_from_slice(&SIG_V091);
        }
    }
    f[table_at..].copy_from_slice(table);
    f
}

/// Writes a stream the way the packer lays it out: a 16-bit control word,
/// filled from its lowest bit, stands before the data bytes that follow it,
/// and the next word is placed as soon as the current one is full.
struct Stream {
    out: Vec<u8>,
    word_at: usize,
    nbits: u32,
}

impl Stream {
    fn new() -> Self {
        Stream { out: vec![0, 0], word_at: 0, nbits: 0 }
    }
    fn bit(&mut self, b: u8) {
        if b == 1 {
            let bit = self.nbits;
            let byte = self.word_at + (bit / 8) as usize;
            self.out[byte] |= 1 << (bit % 8);
        }
        self.nbits += 1;
        if self.nbits == 16 {
            self.word_at = self.out.len();
            self.out.push(0);
            self.out.push(0);
            self.nbits = 0;
        }
    }
    fn byte(&mut self, b: u8) {
        self.out.push(b);
    }
    fn literal(&mut self, b: u8) {
        self.bit(1);
        self.byte(b);
    }
    fn short_copy(&mut self, dist: u16, len: u8) {
        self.bit(0);
        self.bit(0);
        self.bit((len - 2) >> 1);
        self.bit((len - 2) & 1);
        self.byte((256 - dist) as u8);
    }
    fn long(&mut self, lo: u8, hi: u8) {
        self.bit(0);
        self.bit(1);
        self.byte(lo);
        self.byte(hi);
    }
}

/// The stream of "ABCABCABXABCBCBCBZ": literals, a short copy, a long copy,
/// a no-op, a long copy with a count byte, and the end mark, 17 control bits
/// in all.
fn sample_stream() -> Vec<u8> {
    let mut s = Stream::new();
    s.literal(b'A');
    s.literal(b'B');
    s.literal(b'C');
    s.short_copy(3, 5);
    s.literal(b'X');
    s.long(0xF7, 0xF9); // distance 9, length 3
    s.long(0x00, 0x00);
    s.byte(1); // no-op
    s.long(0xFE, 0xF8); // distance 2, length from the count byte
    s.byte(4); // length 5
    s.literal(b'Z');
    s.long(0x00, 0x00);
    s.byte(0); // end
    s.out
}

const SAMPLE_IMAGE: &[u8] = b"ABCABCABXABCBCBCBZ";

const V091_TABLE: [u8; 11] = [0x05, 0x20, 0x00, 0x00, 0x00, 0x00, 0x34, 0x12, 0x00, 0x01, 0x00];

fn v090_table() -> Vec<u8> {
    let mut t = vec![0x02, 0x00, 0x05, 0x00, 0x25, 0x00]; // segment 0x0000
    t.extend_from_slice(&[0x00, 0x00]); // segment 0x1000
    t.extend_from_slice(&[0x01, 0x00, 0x00, 0x01]); // segment 0x2000
    for _ in 3..16 {
        t.extend_from_slice(&[0x00, 0x00]);
    }
    t
}

fn word(v: &[u8], off: usize) -> u16 {
    u16::from_le_bytes([v[off], v[off + 1]])
}

#[test]
fn hand_encoded_v091_unpacks_to_exact_bytes() {
    // Control word 0x02E7 carries 1,1,1 0,0,1,1 1 0,1.
    let stream = [0xE7, 0x02, b'A', b'B', b'C', 0xFD, b'X', 0x00, 0x00, 0x00];
    let f = packed(Stub::V091, &stream, &V091_TABLE, None);
    assert!(is_compressed(&f));
    let out = decompress(&f).unwrap();
    let mut expected = vec![0u8; 0x200];
    expected[..0x28].copy_from_slice(&[
        0x4D, 0x5A, 0x09, 0x00, 0x02, 0x00, 0x03, 0x00, 0x20, 0x00, 0xC2, 0x00, 0xFF, 0xFF,
        0x10, 0x00, 0x00, 0x02, 0x00, 0x00, 0x00, 0x01, 0x00, 0x00, 0x1C, 0x00, 0x00, 0x00,
        0x05, 0x00, 0x00, 0x00, 0x05, 0x00, 0x02, 0x00, 0x09, 0x00, 0x24, 0x11,
    ]);
    expected.extend_from_slice(b"ABCABCABX");
    assert_eq!(out, expected);
}

#[test]
fn v091_stream_across_control_words() {
    let f = packed(Stub::V091, &sample_stream(), &V091_TABLE, None);
    let out = decompress(&f).unwrap();
    assert_eq!(out.len(), 0x200 + SAMPLE_IMAGE.len());
    assert_eq!(&out[0x200..], SAMPLE_IMAGE);
    assert_eq!(&out[0..2], b"MZ");
    assert_eq!(word(&out, 0x02), (out.len() % 512) as u16);
    assert_eq!(word(&out, 0x04), 2);
    assert_eq!(word(&out, 0x06), 3);
    assert_eq!(word(&out, 0x08), 0x20);
}

#[test]
fn v091e_unpacks_like_v091() {
    let a = decompress(&packed(Stub::V091, &sample_stream(), &V091_TABLE, None)).unwrap();
    let e = packed(Stub::V091e, &sample_stream(), &V091_TABLE, None);
    assert!(is_compressed(&e));
    assert_eq!(decompress(&e).unwrap(), a);
}

#[test]
fn v090_table_and_image() {
    let f = packed(Stub::V090, &sample_stream(), &v090_table(), None);
    assert!(is_compressed(&f));
    let out = decompress(&f).unwrap();
    assert_eq!(word(&out, 0x06), 3);
    assert_eq!(word(&out, 0x18), 0x1C);
    assert_eq!(&out[0x1C..0x28], &[0x05, 0x00, 0x00, 0x00, 0x25, 0x00, 0x00, 0x00, 0x00, 0x01, 0x00, 0x20]);
    assert!(out[0x28..0x200].iter().all(|&b| b == 0));
    assert_eq!(&out[0x200..], SAMPLE_IMAGE);
    // minalloc: 0x100 - (0x20 + 0x15 + 9); maxalloc 0xFFFF stays.
    assert_eq!(word(&out, 0x0A), 0xC2);
    assert_eq!(word(&out, 0x0C), 0xFFFF);
    assert_eq!(word(&out, 0x0E), 0x0010);
    assert_eq!(word(&out, 0x10), 0x0200);
    assert_eq!(word(&out, 0x14), 0x0100);
    assert_eq!(word(&out, 0x16), 0x0000);
}

#[test]
fn unpacked_output_is_not_packed_and_passes_through() {
    let out = decompress(&packed(Stub::V091, &sample_stream(), &V091_TABLE, None)).unwrap();
    assert!(!is_compressed(&out));
    assert_eq!(decompress(&out).unwrap(), out);
}

#[test]
fn header_grows_by_pages_with_many_relocations() {
    // 200 entries one byte apart: 0x1C + 800 bytes round up to 0x400.
    let mut table = vec![0x01u8; 200];
    table.extend_from_slice(&[0x00, 0x01, 0x00]);
    let out = decompress(&packed(Stub::V091, &sample_stream(), &table, None)).unwrap();
    assert_eq!(word(&out, 0x06), 200);
    assert_eq!(word(&out, 0x08), 0x40);
    assert_eq!(out.len(), 0x400 + SAMPLE_IMAGE.len());
    assert_eq!(&out[0x400..], SAMPLE_IMAGE);
    // Entry 17: offset 18 normalises to 0x0002 in segment 0x0001.
    assert_eq!(word(&out, 0x1C + 4 * 17), 2);
    assert_eq!(word(&out, 0x1E + 4 * 17), 1);
}

#[test]
fn truncated_v091_relocation_table_is_an_error() {
    let f = packed(Stub::V091, &sample_stream(), &V091_TABLE[..9], None);
    assert_eq!(decompress(&f), Err("Relocation table truncated".to_string()));
}

#[test]
fn truncated_v090_relocation_table_is_an_error() {
    let t = v090_table();
    let f = packed(Stub::V090, &sample_stream(), &t[..t.len() - 1], None);
    assert_eq!(decompress(&f), Err("Relocation table truncated".to_string()));
}

#[test]
fn stream_before_file_start_is_an_error() {
    let f = packed(Stub::V091, &sample_stream(), &V091_TABLE, Some(0x7FFF));
    assert_eq!(decompress(&f), Err("Packed image truncated".to_string()));
}

#[test]
fn back_reference_before_image_start_is_an_error() {
    let mut s = Stream::new();
    s.short_copy(3, 2);
    let f = packed(Stub::V091, &s.out, &V091_TABLE, None);
    assert_eq!(
        decompress(&f),
        Err("Back-reference out of bounds: pos=0 span=-3 i=0".to_string())
    );
}

#[test]
fn long_back_reference_before_image_start_is_an_error() {
    let mut s = Stream::new();
    s.literal(b'Q');
    s.long(0xF7, 0xF9); // distance 9 with one byte written
    let f = packed(Stub::V091, &s.out, &V091_TABLE, None);
    assert_eq!(
        decompress(&f),
        Err("Back-reference out of bounds: pos=1 span=-9 i=0".to_string())
    );
    assert_eq!(lzexe::do_decompress(&f, lzexe::Ver::V091), Err(DecompressError::BackReference { pos: 1, span: -9 }));
}

#[test]
fn v090_and_v091_with_one_stream_give_one_image() {
    let a = decompress(&packed(Stub::V090, &sample_stream(), &v090_table(), None)).unwrap();
    let b = decompress(&packed(Stub::V091, &sample_stream(), &V091_TABLE, None)).unwrap();
    let ha = word(&a, 8) as usize * 16;
    let hb = word(&b, 8) as usize * 16;
    assert_eq!(&a[ha..], &b[hb..]);
}

#[test]
fn bytes_after_the_v091_end_token_do_not_matter() {
    let a = decompress(&packed(Stub::V091, &sample_stream(), &V091_TABLE, None)).unwrap();
    let mut table = V091_TABLE.to_vec();
    table.extend_from_slice(&[0x00, 0x00, 0x00, 0x07, 0x42]);
    let b = decompress(&packed(Stub::V091, &sample_stream(), &table, None)).unwrap();
    assert_eq!(a, b);
}

#[test]
fn entry_point_of_a_short_header() {
    let mut d = vec![0u8; 0x18];
    d[8] = 0xFF;
    d[9] = 0xFF;
    d[0x14] = 0xFF;
    d[0x15] = 0xFF;
    d[0x16] = 0xFF;
    d[0x17] = 0xFF;
    assert_eq!(lzexe::entry_point(&d), 0x20FFDF);
}

#[test]
fn stubless_header_fails_at_the_information_block() {
    let mut d = vec![0u8; 0x20];
    d[0x16] = 0x10; // CS:0 at 0x100, past the end
    assert_eq!(lzexe::do_decompress(&d, lzexe::Ver::V091), Err(DecompressError::TruncatedHeader));
}

#[test]
fn stubless_header_fails_at_the_relocation_table() {
    let d = vec![0u8; 0x20]; // CS:0 at 0, table at 0x158 past the end
    assert_eq!(lzexe::do_decompress(&d, lzexe::Ver::V091), Err(DecompressError::TruncatedRelocations));
    assert_eq!(lzexe::do_decompress(&d, lzexe::Ver::V090), Err(DecompressError::TruncatedRelocations));
}

#[test]
fn pushed_word_reads_back() {
    let mut out = vec![0xAAu8];
    lzexe::push_u16le(&mut out, 0xBEEF);
    assert_eq!(out, vec![0xAA, 0xEF, 0xBE]);
    assert_eq!(lzexe::read_u16le(&out, 1), 0xBEEF);
}

#[test]
fn error_messages() {
    assert_eq!(DecompressError::TruncatedHeader.message(), "Truncated LZEXE header");
    assert_eq!(DecompressError::TruncatedRelocations.message(), "Relocation table truncated");
    assert_eq!(DecompressError::TruncatedStream.message(), "Packed image truncated");
    assert_eq!(
        DecompressError::BackReference { pos: 1234567890, span: -8192 }.message(),
        "Back-reference out of bounds: pos=1234567890 span=-8192 i=0"
    );
    assert_eq!(
        DecompressError::BackReference { pos: 10, span: 0 }.message(),
        "Back-reference out of bounds: pos=10 span=0 i=0"
    );
}
