use classic_ciphers::key_schedule::DesKeyGenerator;

#[test]
fn standard_eight_byte_key() {
    // Packing b"MORTYNOR" big-endian and applying the PC-1 table by hand
    // gives this 56-bit value.
    let gen = DesKeyGenerator::new(b"MORTYNOR");
    assert_eq!(gen.k_plus, 0xFF009E66B73C);
    assert_eq!(gen.raw_key, b"MORTYNOR".to_vec());
}

#[test]
fn short_key_is_zero_padded() {
    let short = DesKeyGenerator::new(b"SHORT");
    let padded = DesKeyGenerator::new(b"SHORT\x00\x00\x00");
    assert_eq!(short.k_plus, padded.k_plus);
    assert_eq!(short.k_plus, 0x1F0010D14069);
}

#[test]
fn long_key_is_truncated() {
    let long = DesKeyGenerator::new(b"TOOLONGKEY123456");
    let first_eight = DesKeyGenerator::new(b"TOOLONGK");
    assert_eq!(long.k_plus, first_eight.k_plus);
    assert_eq!(long.k_plus, 0xFF000F67FBE1);
}

#[test]
fn empty_key_equals_all_zero_key() {
    let empty = DesKeyGenerator::new(&[]);
    let zeros = DesKeyGenerator::new(&[0u8; 8]);
    assert_eq!(empty.k_plus, zeros.k_plus);
    assert_eq!(empty.k_plus, 0);
}

#[test]
fn arbitrary_bytes_accepted() {
    let gen = DesKeyGenerator::new(&[0xAA, 0xBB, 0xCC, 0xDD, 0xEE, 0xFF]);
    assert_eq!(gen.k_plus, 0x3F3C332333C3FA);
}

#[test]
fn output_fits_in_56_bits() {
    for key in [&b"MORTYNOR"[..], &b"\xFF\xFF\xFF\xFF\xFF\xFF\xFF\xFF"[..], &[][..]] {
        let gen = DesKeyGenerator::new(key);
        assert_eq!(gen.k_plus >> 56, 0);
    }
}

#[test]
fn process_key_matches_generator() {
    assert_eq!(DesKeyGenerator::process_key(b"MORTYNOR"), 0xFF009E66B73C);
    assert_eq!(
        DesKeyGenerator::process_standard_key(b"MORTYNOR"),
        0xFF009E66B73C
    );
}
