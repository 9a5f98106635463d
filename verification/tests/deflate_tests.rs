use png_decoder::deflate::{value_from_extra_bits, DeflateDecompression, DeflateError};

#[test]
fn test_parse_clen_alphabet() {
    let data = [0b00101101, 0b10100111, 0b10100001, 0b00011000, 0b00000110, 0b10100010];
    let mut deflate = DeflateDecompression::new(&data);
    let hclen = 16;
    let clen_alphabet_codelengths = deflate.codelength_alphabet_codelengths(hclen).unwrap();
    assert_eq!(clen_alphabet_codelengths, [3, 0, 5, 4, 3, 3, 5, 3, 2, 0, 0, 0, 0, 0, 0, 0, 5, 5, 4])
}

#[test]
fn extra_bits_test() {
    assert_eq!(value_from_extra_bits(2, 131, 5, 0), 195);
    assert_eq!(value_from_extra_bits(1, 5, 1, 1), 8);
    assert_eq!(value_from_extra_bits(0, 24577, 13, 100), 24677);
    assert_eq!(value_from_extra_bits(4, 3, 0, 0), 7);
}

#[test]
fn test_dynamic_huffman() {
    let deflate = DeflateDecompression::new(&[
        29, 198, 73, 1, 0, 0, 16, 64, 192, 172, 163, 127, 136, 61, 60, 32, 42, 151, 157, 55, 94,
        29, 12,
    ]);
    let start = std::time::Instant::now();
    let decompressed = deflate.decompress().unwrap();
    let end = std::time::Instant::now();
    println!("{:?}", end - start);
    assert_eq!(
        decompressed,
        vec![
            97, 98, 97, 97, 98, 98, 98, 97, 98, 97, 97, 98, 97, 98, 98, 97, 97, 98, 97, 98, 97,
            97, 97, 97, 98, 97, 97, 97, 98, 98, 98, 98, 98, 97, 97
        ]
    );
}

#[test]
fn fixed_block_small() {
    let deflate = DeflateDecompression::new(&[99, 100, 98, 102, 97, 5, 0]);
    assert_eq!(deflate.decompress().unwrap(), vec![1, 2, 3, 4, 5]);
}

#[test]
fn fixed_block_with_back_reference() {
    // the run of five 1s is a self-overlapping copy: distance 1, length 5
    let deflate =
        DeflateDecompression::new(&[99, 100, 98, 102, 100, 98, 102, 101, 99, 4, 129, 255, 175, 0]);
    assert_eq!(
        deflate.decompress().unwrap(),
        vec![1, 2, 3, 1, 2, 3, 5, 6, 1, 1, 1, 1, 1, 255, 234]
    );
}

#[test]
fn fixed_block_larger_with_run_lengths() {
    let deflate = DeflateDecompression::new(&[
        107, 101, 57, 113, 130, 229, 68, 191, 197, 127, 40, 96, 98, 222, 146, 201, 200, 200, 104,
        144, 172, 11, 226, 1, 0,
    ]);
    assert_eq!(
        deflate.decompress().unwrap(),
        vec![
            133, 4, 200, 200, 4, 200, 143, 56, 255, 255, 255, 255, 255, 255, 255, 255, 2, 3, 180,
            105, 1, 1, 1, 48, 99, 45, 255, 255, 255, 255
        ]
    );
}

#[test]
fn stored_block_round_trip() {
    // BFINAL=1, BTYPE=00, then LEN/NLEN and the raw bytes
    let payload = [9, 8, 7, 6, 5];
    let mut stream = vec![0x01, 5, 0, 0xFA, 0xFF];
    stream.extend_from_slice(&payload);
    let deflate = DeflateDecompression::new(&stream);
    assert_eq!(deflate.decompress().unwrap(), payload.to_vec());
}

#[test]
fn empty_input_has_no_final_block() {
    let deflate = DeflateDecompression::new(&[]);
    assert_eq!(deflate.decompress().unwrap_err(), DeflateError::NoFinalBlock);
}

#[test]
fn reserved_btype_is_rejected() {
    // BFINAL=1, BTYPE=11
    let deflate = DeflateDecompression::new(&[0b0000_0111]);
    assert_eq!(deflate.decompress().unwrap_err(), DeflateError::ReservedBType);
}

#[test]
fn stored_block_with_bad_length_check() {
    // LEN and NLEN are not complements
    let deflate = DeflateDecompression::new(&[0x01, 0x05, 0x00, 0x00, 0x00]);
    assert_eq!(
        deflate.decompress().unwrap_err(),
        DeflateError::InvalidUncompressedBlock(1)
    );
}

#[test]
fn truncated_fixed_block() {
    // BFINAL=1, BTYPE=01, but the symbol is cut off
    let deflate = DeflateDecompression::new(&[0b0000_0011]);
    assert_eq!(deflate.decompress().unwrap_err(), DeflateError::InvalidFixedBlock(0));
}

#[test]
fn truncated_dynamic_block() {
    // BFINAL=1, BTYPE=10, but the counts are cut off
    let deflate = DeflateDecompression::new(&[0b0000_0101]);
    assert_eq!(deflate.decompress().unwrap_err(), DeflateError::InvalidDynamicBlock(0));
}
