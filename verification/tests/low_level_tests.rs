use png_decoder::low_level_functions::{adler_32, bits_to_byte, bytes_vec_to_single};

#[test]
fn test_adler_32() {
    assert_eq!(adler_32(&vec![97, 98, 99]), 38600999);

    assert_eq!(adler_32(&vec![0]), 65537);

    assert_eq!(adler_32(&vec![65, 98, 67]), 30212327);

    assert_eq!(adler_32(&vec![126, 124]), 24772859);
}

#[test]
fn adler_32_of_nothing_is_one() {
    assert_eq!(adler_32(&vec![]), 1);
}

#[test]
fn bytes_vec_to_single_reads_big_endian() {
    assert_eq!(bytes_vec_to_single(&vec![]), 0);
    assert_eq!(bytes_vec_to_single(&vec![7]), 7);
    assert_eq!(bytes_vec_to_single(&vec![0, 0, 1, 0]), 256);
    assert_eq!(bytes_vec_to_single(&vec![1, 2, 3, 4]), 0x01020304);
}

#[test]
fn bits_to_byte_big_endian_packs_msb_first() {
    assert_eq!(bits_to_byte(&vec![1, 0, 1], true), 0b101);
    assert_eq!(bits_to_byte(&vec![1, 1, 1, 1, 1, 1, 1, 1], true), 255);
    assert_eq!(bits_to_byte(&vec![], true), 0);
}

#[test]
fn bits_to_byte_little_endian_aligns_left() {
    // first bit becomes the least significant of the used bits, and the
    // result sits in the top of the byte
    assert_eq!(bits_to_byte(&vec![1, 0, 1], false), 160);
    assert_eq!(bits_to_byte(&vec![1, 0, 0, 0, 0, 0, 0, 0], false), 1);
    assert_eq!(bits_to_byte(&vec![0, 0, 0, 0, 0, 0, 0, 1], false), 128);
}
