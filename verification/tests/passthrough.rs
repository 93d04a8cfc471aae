use lzexe::{decompress, is_compressed};

#[test]
fn uncompressed_passthrough() {
    let data = vec![0x4D, 0x5A, 0x00, 0x01]; // MZ, not LZEXE
    let out = decompress(&data).unwrap();
    assert_eq!(out, data);
}

#[test]
fn non_exe_passthrough() {
    let data = b"hello world".to_vec();
    let out = decompress(&data).unwrap();
    assert_eq!(out, data);
}

#[test]
fn does_not_flag_random_bytes_as_compressed() {
    assert!(!is_compressed(b"hello world"));
}

#[test]
fn does_not_flag_bare_mz_header_as_compressed() {
    // Valid MZ header with no LZEXE markers
    let mut hdr = vec![0u8; 64];
    hdr[0] = 0x4D;
    hdr[1] = 0x5A; // MZ
    hdr[6] = 2; // 2 relocation entries (not 0)
    hdr[0x18] = 0x40; // relocation table not at 0x1C
    assert!(!is_compressed(&hdr));
}

#[test]
fn passthrough_returns_input_unchanged_for_non_exe() {
    let input = b"not an exe at all".to_vec();
    let out = decompress(&input).unwrap();
    assert_eq!(out, input);
}

#[test]
fn passthrough_returns_input_unchanged_for_plain_mz() {
    // Minimal valid MZ that is NOT LZEXE-packed
    let mut exe = vec![0u8; 512];
    exe[0] = 0x4D;
    exe[1] = 0x5A; // MZ
    exe[4] = 2; // 2 header paragraphs
    exe[6] = 1; // 1 reloc entry (not 0, so not LZEXE)
    let out = decompress(&exe).unwrap();
    assert_eq!(out, exe);
}

#[test]
fn empty_input_passes_through() {
    assert!(!is_compressed(&[]));
    assert_eq!(decompress(&[]).unwrap(), Vec::<u8>::new());
}

#[test]
fn packed_marks_without_stub_pass_through() {
    // ZM magic, relocation table at 0x1C, no relocations, but no stub at
    // the entry point: not LZEXE.
    let mut exe = vec![0u8; 0x80];
    exe[0] = 0x5A;
    exe[1] = 0x4D;
    exe[8] = 2;
    exe[0x18] = 0x1C;
    assert!(!is_compressed(&exe));
    assert_eq!(decompress(&exe).unwrap(), exe);
}

#[test]
fn entry_point_past_end_passes_through() {
    let mut exe = vec![0u8; 0x40];
    exe[0] = 0x4D;
    exe[1] = 0x5A;
    exe[8] = 2;
    exe[0x16] = 0x10; // CS far beyond the file
    exe[0x18] = 0x1C;
    assert!(!is_compressed(&exe));
    assert_eq!(decompress(&exe).unwrap(), exe);
}
