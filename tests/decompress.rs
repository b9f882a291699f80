use mu_rust_helpers::{decompress_into_with_algo, DecompressError, DecompressionAlgorithm};

/// The text that the compressed fixtures below decode to.
fn fixture_text() -> Vec<u8> {
    let mut t = Vec::new();
    for _ in 0..3 {
        t.extend_from_slice(b"The quick brown fox jumps over the lazy dog. ");
    }
    for _ in 0..4 {
        t.extend_from_slice(b"Firmware volumes hold compressed sections; each section expands before it runs. ");
    }
    for b in 0..=255u8 {
        t.push(b);
    }
    for _ in 0..5 {
        t.extend_from_slice(b"abcabcabcabcabcabc");
    }
    t
}

/// `fixture_text()` compressed for the UEFI variant, in one block.
const UEFI_COMPRESSED: [u8; 441] = [
    0xb1, 0x01, 0x00, 0x00, 0x21, 0x03, 0x00, 0x00, 0x01, 0x74, 0x66, 0xed, 0xf6, 0x8d, 0x1f, 0x80,
    0x00, 0x00, 0x00, 0x07, 0xf0, 0x00, 0x40, 0x01, 0x00, 0x10, 0x00, 0x20, 0x00, 0xed, 0xdd, 0xf6,
    0xb7, 0x56, 0xee, 0xfb, 0x5d, 0xf6, 0xed, 0xb5, 0x00, 0x00, 0x00, 0x00, 0x00, 0x00, 0x00, 0x15,
    0x55, 0x55, 0x55, 0x55, 0x55, 0x55, 0x55, 0x55, 0x55, 0x55, 0x55, 0x55, 0x55, 0x55, 0x55, 0x55,
    0x55, 0x55, 0x6f, 0xc3, 0x7a, 0x3a, 0xbc, 0xf2, 0xf5, 0x07, 0x48, 0x0c, 0x36, 0x9a, 0x5f, 0x4c,
    0x20, 0x63, 0x44, 0xd2, 0xd8, 0x81, 0x22, 0x03, 0x56, 0x78, 0x25, 0x1a, 0xc0, 0x61, 0x44, 0xe5,
    0x04, 0x01, 0xaa, 0x12, 0x00, 0xa5, 0x6e, 0xe4, 0xe5, 0x32, 0xb2, 0x01, 0x83, 0x60, 0x5c, 0x0b,
    0x31, 0x8b, 0xc6, 0xa0, 0x72, 0xb2, 0x90, 0x10, 0x2a, 0x1a, 0x74, 0x4e, 0x11, 0x01, 0x30, 0xd3,
    0x98, 0x05, 0x8c, 0xe5, 0x08, 0x08, 0x84, 0x11, 0x80, 0x41, 0x16, 0xa4, 0xd1, 0x9e, 0x45, 0xd0,
    0x11, 0x45, 0xa6, 0xb1, 0xb8, 0x04, 0xb1, 0x41, 0x47, 0x98, 0x40, 0x48, 0x24, 0xa3, 0x5a, 0x74,
    0xd5, 0x20, 0x82, 0x27, 0x92, 0xd3, 0x9f, 0x6a, 0xb5, 0xdb, 0x2d, 0xb6, 0xeb, 0x7d, 0xc2, 0xe3,
    0x72, 0xb9, 0xdd, 0x2e, 0xb7, 0x6b, 0xbd, 0xe2, 0xf3, 0x7a, 0xbd, 0xdf, 0x2f, 0xb7, 0xeb, 0xfe,
    0x03, 0x03, 0x82, 0xc1, 0xe1, 0x30, 0xb8, 0x6c, 0x3e, 0x23, 0x12, 0x18, 0xac, 0x5e, 0x33, 0x1b,
    0x8e, 0xc7, 0xe4, 0x32, 0x39, 0x2c, 0x9e, 0x53, 0x2b, 0x96, 0x5c, 0xcb, 0xe6, 0x33, 0x39, 0xac,
    0xde, 0x73, 0x3b, 0x9e, 0xcf, 0xe8, 0x34, 0x3a, 0x25, 0xdd, 0x1e, 0x93, 0x4b, 0xa6, 0xd3, 0xea,
    0x35, 0x3a, 0xad, 0x5e, 0xb1, 0x7b, 0x5b, 0xae, 0xd7, 0xec, 0x36, 0x3b, 0x2d, 0x9e, 0xd3, 0x6b,
    0xb6, 0xdb, 0xee, 0x37, 0x2b, 0xfb, 0xad, 0xde, 0xf3, 0x7b, 0xbe, 0xdf, 0xf0, 0x38, 0x3c, 0x2e,
    0x1f, 0x13, 0x8a, 0x52, 0x42, 0xcc, 0x12, 0x56, 0x04, 0xc6, 0xb0, 0xb1, 0x27, 0x38, 0xf1, 0xa8,
    0x63, 0x40, 0x8a, 0x51, 0x54, 0xad, 0x63, 0x23, 0x2f, 0x1b, 0x8f, 0xc8, 0xe4, 0xf2, 0xb9, 0x7c,
    0xce, 0x6f, 0x3b, 0x9f, 0xd0, 0xe8, 0xf4, 0xba, 0x7d, 0x4e, 0xaf, 0x5b, 0xaf, 0xd8, 0xec, 0xf6,
    0xbb, 0x7d, 0xce, 0xef, 0x7b, 0xbf, 0xe0, 0xf0, 0xf8, 0xbc, 0x7e, 0x4f, 0x2f, 0x9b, 0xcf, 0xe8,
    0xf4, 0xfa, 0xbd, 0x7e, 0xcf, 0x6f, 0xbb, 0xdf, 0xf0, 0xf8, 0xfc, 0xbe, 0x7f, 0x4f, 0xaf, 0xdb,
    0xef, 0xf8, 0xfc, 0xfe, 0xbf, 0x7f, 0xcf, 0xef, 0xfb, 0xfe, 0xcc, 0xce, 0xd0, 0xd2, 0xd4, 0xd6,
    0xd8, 0xda, 0xdc, 0xde, 0xe0, 0xe2, 0xe4, 0xe6, 0xe8, 0xea, 0xec, 0xee, 0xf0, 0xf2, 0xf4, 0xf6,
    0xf8, 0xfa, 0xfc, 0xff, 0x01, 0x03, 0x05, 0x07, 0x09, 0x0b, 0x0d, 0x0f, 0x11, 0x13, 0x15, 0x17,
    0x19, 0x1b, 0x1d, 0x1f, 0x21, 0x23, 0x25, 0x27, 0x29, 0x2b, 0x2d, 0x2f, 0x31, 0x33, 0x35, 0x37,
    0x39, 0x3b, 0x3d, 0x3f, 0x41, 0x43, 0x45, 0x47, 0x49, 0x4b, 0x4d, 0x4f, 0x51, 0x53, 0x55, 0x57,
    0x59, 0x5b, 0x5d, 0x5f, 0x60, 0xb5, 0x3d, 0x65, 0x00,
];

/// `fixture_text()` compressed for the Tiano variant, in blocks of 40
/// instructions.
const TIANO_COMPRESSED: [u8; 421] = [
    0x9d, 0x01, 0x00, 0x00, 0x21, 0x03, 0x00, 0x00, 0x00, 0x28, 0x44, 0x8a, 0x90, 0xc0, 0x60, 0x67,
    0x41, 0xf6, 0xc8, 0x18, 0x03, 0xc0, 0x04, 0x71, 0x00, 0xa6, 0x6a, 0xc5, 0x72, 0xe4, 0xc0, 0x22,
    0xc5, 0xb9, 0x86, 0x17, 0x03, 0xf3, 0x2a, 0x5c, 0x16, 0x97, 0x61, 0x8f, 0xf4, 0x4f, 0xee, 0x85,
    0x10, 0x01, 0x42, 0x14, 0x74, 0x4a, 0xb1, 0x81, 0x9f, 0xd5, 0x60, 0x1d, 0x80, 0xd1, 0x3e, 0x54,
    0x0a, 0x30, 0xa5, 0x59, 0x97, 0x00, 0xd8, 0xa0, 0xfb, 0x2b, 0xa8, 0x6f, 0x5a, 0x08, 0xeb, 0xaf,
    0x18, 0xc8, 0xcb, 0xaa, 0x0b, 0xbb, 0x6e, 0x0c, 0xc9, 0x41, 0x26, 0xe0, 0x05, 0x08, 0x6d, 0xec,
    0xfc, 0x00, 0xc0, 0x6f, 0x80, 0xcc, 0x11, 0x0e, 0x85, 0x1e, 0x47, 0xe9, 0x18, 0xe6, 0xa2, 0xcd,
    0x52, 0x00, 0x01, 0x04, 0x52, 0xf8, 0x23, 0x80, 0x0c, 0x67, 0x6f, 0x58, 0x07, 0x99, 0x89, 0x50,
    0xc2, 0x43, 0x5c, 0x77, 0xed, 0xd0, 0x35, 0xb2, 0x3f, 0x8f, 0x52, 0xd8, 0xd7, 0x3c, 0x00, 0xa1,
    0x21, 0x0c, 0x14, 0x2e, 0x8f, 0xff, 0xff, 0xff, 0xfc, 0x00, 0x00, 0x00, 0x00, 0xc3, 0x1c, 0xb3,
    0xd3, 0x5d, 0xb7, 0xe3, 0x9e, 0xbb, 0xf3, 0xdf, 0xbf, 0x00, 0x44, 0x32, 0x14, 0xc7, 0x42, 0x54,
    0xb6, 0x35, 0xcf, 0x84, 0x65, 0x3a, 0x56, 0xd7, 0x00, 0x28, 0x48, 0x0b, 0x05, 0x15, 0xa0, 0xd7,
    0xff, 0xff, 0xff, 0xf8, 0x00, 0x00, 0x00, 0x01, 0x86, 0x39, 0x67, 0xa6, 0xbb, 0x6f, 0xc7, 0x3d,
    0x77, 0xe7, 0xbf, 0x7e, 0x00, 0x88, 0x64, 0x29, 0x8e, 0x84, 0xa9, 0x6c, 0x6b, 0x9f, 0x08, 0xca,
    0x74, 0xad, 0xae, 0x00, 0x50, 0x90, 0x16, 0x0a, 0x3f, 0x44, 0x2f, 0xff, 0xff, 0xff, 0xf0, 0x00,
    0x00, 0x00, 0x03, 0x0c, 0x72, 0xcf, 0x4d, 0x76, 0xdf, 0x8e, 0x7a, 0xef, 0xcf, 0x7e, 0xfc, 0x01,
    0x10, 0xc8, 0x53, 0x1d, 0x09, 0x52, 0xd8, 0xd7, 0x3e, 0x11, 0x94, 0xe9, 0x5b, 0x5c, 0x00, 0xa1,
    0x20, 0x2c, 0x14, 0xa6, 0x8d, 0x5f, 0xff, 0xff, 0xff, 0xe0, 0x00, 0x00, 0x00, 0x06, 0x18, 0xe5,
    0x9e, 0x9a, 0xed, 0xbf, 0x1c, 0xf5, 0xdf, 0x9e, 0xfd, 0xf8, 0x02, 0x21, 0x90, 0xa6, 0x3a, 0x12,
    0xa5, 0xb1, 0xae, 0x7c, 0x23, 0x29, 0xd2, 0xb6, 0xb8, 0x01, 0x42, 0x40, 0x58, 0x29, 0x9d, 0x24,
    0xbf, 0xff, 0xff, 0xff, 0xc0, 0x00, 0x00, 0x00, 0x0c, 0x31, 0xcb, 0x3d, 0x35, 0xdb, 0x7e, 0x39,
    0xeb, 0xbf, 0x3d, 0xfb, 0xf0, 0x04, 0x43, 0x21, 0x4c, 0x74, 0x25, 0x4b, 0x63, 0x5c, 0xf8, 0x46,
    0x53, 0xa5, 0x6d, 0x70, 0x02, 0x84, 0x80, 0xb0, 0x53, 0xda, 0x5d, 0x7f, 0xff, 0xff, 0xff, 0x80,
    0x00, 0x00, 0x00, 0x18, 0x63, 0x96, 0x7a, 0x6b, 0xb6, 0xfc, 0x73, 0xd7, 0x7e, 0x7b, 0xf7, 0xe0,
    0x08, 0x86, 0x42, 0x98, 0xe8, 0x4a, 0x96, 0xc6, 0xb9, 0xf0, 0x8c, 0xa7, 0x4a, 0xda, 0xe0, 0x01,
    0x87, 0x01, 0x48, 0xd5, 0x67, 0x10, 0x07, 0xf0, 0xff, 0x48, 0x04, 0x00, 0x01, 0x89, 0xab, 0xcd,
    0xef, 0x05, 0x4f, 0x30, 0x00,
];

/// Literals only, with Char&Length codes of every length from 1 to 16, so
/// that the longer ones go through the trie.
const LONG_CODES_COMPRESSED: [u8; 72] = [
    0x40, 0x00, 0x00, 0x00, 0x5a, 0x00, 0x00, 0x00, 0x00, 0x5a, 0x98, 0x14, 0xb2, 0x49, 0x24, 0x92,
    0x49, 0x24, 0x29, 0x78, 0x5b, 0xf0, 0x12, 0x34, 0x56, 0x78, 0x9a, 0xbc, 0xde, 0xe0, 0x00, 0x00,
    0x00, 0x00, 0x00, 0x0a, 0xaa, 0xaa, 0xaa, 0xaa, 0xad, 0xb6, 0xdb, 0x6d, 0xbb, 0xdf, 0x7e, 0xfe,
    0xff, 0x7f, 0xdf, 0xfb, 0xff, 0xbf, 0xfd, 0xff, 0xf7, 0xff, 0xef, 0xff, 0xef, 0xff, 0xff, 0xff,
    0xef, 0xff, 0xff, 0xff, 0xdf, 0xff, 0x20, 0x00,
];

const LONG_CODES_TEXT: [u8; 90] = [
    0x41, 0x41, 0x41, 0x41, 0x41, 0x41, 0x41, 0x41, 0x41, 0x41, 0x41, 0x41, 0x41, 0x41, 0x41, 0x41,
    0x41, 0x41, 0x41, 0x41, 0x41, 0x41, 0x41, 0x41, 0x41, 0x41, 0x41, 0x41, 0x41, 0x41, 0x41, 0x41,
    0x41, 0x41, 0x41, 0x41, 0x41, 0x41, 0x41, 0x41, 0x42, 0x42, 0x42, 0x42, 0x42, 0x42, 0x42, 0x42,
    0x42, 0x42, 0x42, 0x42, 0x42, 0x42, 0x42, 0x42, 0x42, 0x42, 0x42, 0x42, 0x43, 0x43, 0x43, 0x43,
    0x43, 0x43, 0x43, 0x43, 0x43, 0x43, 0x44, 0x45, 0x46, 0x47, 0x48, 0x49, 0x4a, 0x4b, 0x4c, 0x4d,
    0x4e, 0x4f, 0x50, 0x51, 0x50, 0x51, 0x4f, 0x4e, 0x41, 0x42,
];

/// One literal 'A', then a back reference with distance 0 and length 5.
const OVERLAP_COMPRESSED: [u8; 19] = [
    0x0b, 0x00, 0x00, 0x00, 0x06, 0x00, 0x00, 0x00, 0x00, 0x02, 0x20, 0x04, 0x30, 0x30, 0xb6, 0x56,
    0x40, 0x10, 0x00,
];

fn header(compressed_size: u32, orig_size: u32) -> Vec<u8> {
    let mut h = Vec::new();
    h.extend_from_slice(&compressed_size.to_le_bytes());
    h.extend_from_slice(&orig_size.to_le_bytes());
    h
}

#[test]
fn uefi_decompress_should_produce_expected_buffer() {
    let expected = fixture_text();
    let mut test_buffer = vec![0u8; expected.len()];
    decompress_into_with_algo(&UEFI_COMPRESSED, &mut test_buffer, DecompressionAlgorithm::UefiDecompress).unwrap();
    assert_eq!(test_buffer.len(), expected.len());
    for (idx, (test, reference)) in test_buffer.iter().zip(expected.iter()).enumerate() {
        assert!(test == reference, "mismatch at idx: {:}, expected {:#x} != {:#x} actual", idx, reference, test);
    }
}

#[test]
fn tiano_decompress_should_produce_expected_buffer() {
    let expected = fixture_text();
    let mut test_buffer = vec![0u8; expected.len()];
    decompress_into_with_algo(&TIANO_COMPRESSED, &mut test_buffer, DecompressionAlgorithm::TianoDecompress)
        .unwrap();
    assert_eq!(test_buffer.len(), expected.len());
    for (idx, (test, reference)) in test_buffer.iter().zip(expected.iter()).enumerate() {
        assert!(test == reference, "mismatch at idx: {:}, expected {:#x} != {:#x} actual", idx, reference, test);
    }
}

#[test]
fn decompress_with_original_size_of_zero_should_return_zero_sized_buffer() {
    let mut compressed_buffer = header(0, 0);
    compressed_buffer.extend_from_slice(&[0xde, 0xad, 0xbe, 0xef]);

    let mut uefi_uncompressed = Vec::new();
    assert!(decompress_into_with_algo(&compressed_buffer, &mut uefi_uncompressed, DecompressionAlgorithm::UefiDecompress)
        .is_ok());
    assert_eq!(uefi_uncompressed.len(), 0);

    let mut tiano_uncompressed = Vec::new();
    assert!(decompress_into_with_algo(
        &compressed_buffer,
        &mut tiano_uncompressed,
        DecompressionAlgorithm::TianoDecompress
    )
    .is_ok());
    assert_eq!(tiano_uncompressed.len(), 0);
}

#[test]
fn original_size_of_zero_leaves_destination_untouched() {
    let compressed_buffer = header(8, 0);
    let mut dst = vec![7u8; 5];
    assert_eq!(decompress_into_with_algo(&compressed_buffer, &mut dst, DecompressionAlgorithm::UefiDecompress), Ok(()));
    assert_eq!(dst, vec![7u8; 5]);
}

#[test]
fn fuzz_testing_should_fail_gracefully() {
    let uncompressed_len = fixture_text().len();
    // every byte inverted in turn, as well as every single bit flipped
    for idx in 0..UEFI_COMPRESSED.len() {
        let mut masks = vec![0xffu8];
        for bit in 0..8 {
            masks.push(1u8 << bit);
        }
        for mask in masks {
            let mut fuzz_buffer = UEFI_COMPRESSED.to_vec();
            fuzz_buffer[idx] ^= mask;
            let mut test_buffer = vec![0u8; uncompressed_len];
            let _ = decompress_into_with_algo(&fuzz_buffer, &mut test_buffer, DecompressionAlgorithm::UefiDecompress);
            assert_eq!(test_buffer.len(), uncompressed_len);
        }
    }
}

#[test]
fn truncated_fixture_is_rejected() {
    let expected = fixture_text();
    for (fixture, algo) in [
        (&UEFI_COMPRESSED[..], DecompressionAlgorithm::UefiDecompress),
        (&TIANO_COMPRESSED[..], DecompressionAlgorithm::TianoDecompress),
    ] {
        let truncated = &fixture[..fixture.len() - 1];
        let mut dst = vec![0u8; expected.len()];
        let r = decompress_into_with_algo(truncated, &mut dst, algo);
        assert!(
            r == Err(DecompressError::MalformedSrcData) || r == Err(DecompressError::InvalidSrcSize),
            "{:?}",
            r
        );
    }
}

#[test]
fn truncated_payload_with_small_compressed_size_is_malformed() {
    let mut truncated = UEFI_COMPRESSED[..UEFI_COMPRESSED.len() - 1].to_vec();
    truncated[0..4].copy_from_slice(&0u32.to_le_bytes());
    let mut dst = vec![0u8; fixture_text().len()];
    assert_eq!(
        decompress_into_with_algo(&truncated, &mut dst, DecompressionAlgorithm::UefiDecompress),
        Err(DecompressError::MalformedSrcData)
    );
}

#[test]
fn wrong_variant_does_not_reproduce_fixture() {
    let expected = fixture_text();
    let mut dst = vec![0u8; expected.len()];
    let r = decompress_into_with_algo(&UEFI_COMPRESSED, &mut dst, DecompressionAlgorithm::TianoDecompress);
    assert!(r.is_err() || dst != expected);
}

#[test]
fn long_codes_decode_through_the_trie() {
    let mut dst = vec![0u8; LONG_CODES_TEXT.len()];
    decompress_into_with_algo(&LONG_CODES_COMPRESSED, &mut dst, DecompressionAlgorithm::UefiDecompress).unwrap();
    assert_eq!(dst, LONG_CODES_TEXT.to_vec());
}

#[test]
fn overlapping_back_reference_repeats_bytes() {
    let mut dst = vec![0u8; 6];
    decompress_into_with_algo(&OVERLAP_COMPRESSED, &mut dst, DecompressionAlgorithm::UefiDecompress).unwrap();
    assert_eq!(&dst, b"AAAAAA");
}

#[test]
fn back_reference_stops_at_destination_end() {
    // the same stream asks for 6 bytes; a header asking for 4 cuts the copy short
    let mut src = OVERLAP_COMPRESSED.to_vec();
    src[4..8].copy_from_slice(&4u32.to_le_bytes());
    let mut dst = vec![0u8; 4];
    decompress_into_with_algo(&src, &mut dst, DecompressionAlgorithm::UefiDecompress).unwrap();
    assert_eq!(&dst, b"AAAA");
}

#[test]
fn input_shorter_than_header_is_invalid_src_size() {
    let mut dst = vec![0u8; 4];
    assert_eq!(
        decompress_into_with_algo(&[1, 0, 0, 0, 4, 0, 0], &mut dst, DecompressionAlgorithm::UefiDecompress),
        Err(DecompressError::InvalidSrcSize)
    );
    assert_eq!(decompress_into_with_algo(&[], &mut dst, DecompressionAlgorithm::TianoDecompress), Err(DecompressError::InvalidSrcSize));
}

#[test]
fn compressed_size_beyond_input_is_invalid_src_size() {
    let src = header(9, 4);
    let mut dst = vec![0u8; 4];
    assert_eq!(
        decompress_into_with_algo(&src, &mut dst, DecompressionAlgorithm::UefiDecompress),
        Err(DecompressError::InvalidSrcSize)
    );
    // the size check comes before the original size is looked at
    let src = header(9, 0);
    assert_eq!(
        decompress_into_with_algo(&src, &mut dst, DecompressionAlgorithm::UefiDecompress),
        Err(DecompressError::InvalidSrcSize)
    );
}

#[test]
fn destination_of_wrong_length_is_invalid_dst_size() {
    let mut dst = vec![0u8; fixture_text().len() - 1];
    assert_eq!(
        decompress_into_with_algo(&UEFI_COMPRESSED, &mut dst, DecompressionAlgorithm::UefiDecompress),
        Err(DecompressError::InvalidDstSize)
    );
}

#[test]
fn empty_payload_is_malformed() {
    let src = header(0, 3);
    let mut dst = vec![0u8; 3];
    assert_eq!(
        decompress_into_with_algo(&src, &mut dst, DecompressionAlgorithm::UefiDecompress),
        Err(DecompressError::MalformedSrcData)
    );
}

#[test]
fn back_reference_before_start_is_malformed() {
    // one block whose only instruction is a back reference (length 3,
    // distance 0) with nothing decoded yet; both tables are one-symbol ones
    let src = [
        0x08, 0x00, 0x00, 0x00, 0x03, 0x00, 0x00, 0x00, 0x00, 0x01, 0x00, 0x00, 0x10, 0x00, 0x00, 0x00,
    ];
    let mut dst = vec![0u8; 3];
    assert_eq!(
        decompress_into_with_algo(&src, &mut dst, DecompressionAlgorithm::UefiDecompress),
        Err(DecompressError::MalformedSrcData)
    );
}

#[test]
fn literal_prefix_of_overlap_stream_decodes_alone() {
    let mut src = OVERLAP_COMPRESSED.to_vec();
    src[4..8].copy_from_slice(&1u32.to_le_bytes());
    let mut dst = vec![0u8; 1];
    decompress_into_with_algo(&src, &mut dst, DecompressionAlgorithm::UefiDecompress).unwrap();
    assert_eq!(&dst, b"A");
}

#[test]
fn trailing_padding_byte_may_be_truncated() {
    // a byte past the data that decoding needs can be cut off again
    // without changing the outcome
    let expected = fixture_text();
    let mut padded = UEFI_COMPRESSED.to_vec();
    padded.push(0);
    let mut dst = vec![0u8; expected.len()];
    decompress_into_with_algo(&padded, &mut dst, DecompressionAlgorithm::UefiDecompress).unwrap();
    assert_eq!(dst, expected);
    let truncated = &padded[..padded.len() - 1];
    let mut dst = vec![0u8; expected.len()];
    decompress_into_with_algo(truncated, &mut dst, DecompressionAlgorithm::UefiDecompress).unwrap();
    assert_eq!(dst, expected);
}

#[test]
fn header_errors_leave_destination_untouched() {
    let mut dst = vec![9u8; 4];
    assert_eq!(
        decompress_into_with_algo(&header(9, 4), &mut dst, DecompressionAlgorithm::UefiDecompress),
        Err(DecompressError::InvalidSrcSize)
    );
    assert_eq!(dst, vec![9u8; 4]);
    assert_eq!(
        decompress_into_with_algo(&header(8, 5), &mut dst, DecompressionAlgorithm::TianoDecompress),
        Err(DecompressError::InvalidDstSize)
    );
    assert_eq!(dst, vec![9u8; 4]);
}
