use png_decoder::bitreader::{BitReader, Endian};

#[test]
fn read_bits_assembles_msb_first() {
    let mut bitreader = BitReader::new(&[0b1100_0101], Endian::BigEndian);
    assert_eq!(bitreader.read_bits(3), Some(6)); // 6 = 0b0000_0110
}

#[test]
fn read_bits_reverse_assembles_lsb_first() {
    let mut bitreader = BitReader::new(&[0b1100_0101], Endian::BigEndian);
    assert_eq!(bitreader.read_bits_reverse(3), Some(3)); // 3 = 0b0000_0011
}

fn reverse_bits(v: u64, n: u32) -> u64 {
    let mut r = 0u64;
    for i in 0..n {
        r |= ((v >> i) & 1) << (n - 1 - i);
    }
    r
}

#[test]
fn msb_read_is_bit_reverse_of_lsb_read() {
    let data = [0b1100_0101, 0b0011_1010];
    for n in 0..=16usize {
        for endian in [Endian::BigEndian, Endian::LittleEndian] {
            let mut msb_reader = BitReader::new(&data, endian);
            let mut lsb_reader = BitReader::new(&data, endian);
            let msb = msb_reader.read_bits(n).unwrap();
            let lsb = lsb_reader.read_bits_reverse(n).unwrap();
            assert_eq!(msb, reverse_bits(lsb, n as u32));
        }
    }
}

#[test]
fn skip_to_next_byte_twice_is_skip_once() {
    let mut once = BitReader::new(&[0xAB, 0xCD], Endian::LittleEndian);
    let mut twice = BitReader::new(&[0xAB, 0xCD], Endian::LittleEndian);
    once.read_bits(3).unwrap();
    twice.read_bits(3).unwrap();
    once.skip_to_next_byte();
    twice.skip_to_next_byte();
    twice.skip_to_next_byte();
    assert_eq!(once.read_bits_reverse(8), Some(0xCD));
    assert_eq!(twice.read_bits_reverse(8), Some(0xCD));
}

#[test]
fn skip_to_next_byte_on_a_boundary_is_a_no_op() {
    let mut reader = BitReader::new(&[0xAB, 0xCD], Endian::LittleEndian);
    reader.skip_to_next_byte();
    assert_eq!(reader.read_bits_reverse(8), Some(0xAB));
}

#[test]
fn read_bit_yields_the_bits_in_order() {
    let mut le = BitReader::new(&[0b1010_0101], Endian::LittleEndian);
    assert_eq!(le.read_bit(), Some(1));
    assert_eq!(le.read_bit(), Some(0));
    assert_eq!(le.read_bit(), Some(1));
    let mut be = BitReader::new(&[0b1010_0101], Endian::BigEndian);
    assert_eq!(be.read_bit(), Some(1));
    assert_eq!(be.read_bit(), Some(0));
    assert_eq!(be.read_bit(), Some(1));
}

#[test]
fn skip_bit_advances_one_position() {
    let mut reader = BitReader::new(&[0b0000_0010], Endian::LittleEndian);
    reader.skip_bit();
    assert_eq!(reader.read_bit(), Some(1));
}

#[test]
fn read_past_the_end_is_none() {
    let mut reader = BitReader::new(&[0xFF], Endian::LittleEndian);
    assert_eq!(reader.read_bits(8), Some(0xFF));
    assert_eq!(reader.read_bit(), None);
    assert_eq!(reader.read_bits(1), None);
}

#[test]
fn read_u8_variants() {
    let mut reader = BitReader::new(&[0b1100_0101], Endian::LittleEndian);
    assert_eq!(reader.read_u8_reverse(), Some(0b1100_0101));
    let mut reader2 = BitReader::new(&[0b1100_0101], Endian::BigEndian);
    assert_eq!(reader2.read_u8(), Some(0b1100_0101));
}

#[test]
fn read_byte_slice_copies_aligned_bytes() {
    let mut reader = BitReader::new(&[1, 2, 3, 4], Endian::LittleEndian);
    reader.read_bits_reverse(2).unwrap();
    let mut to = vec![0u8; 2];
    assert_eq!(reader.read_byte_slice(&mut to), Some(()));
    assert_eq!(to, vec![2, 3]);
    assert_eq!(reader.read_bits_reverse(8), Some(4));
}

#[test]
fn read_byte_slice_fails_when_bytes_are_missing() {
    let mut reader = BitReader::new(&[1, 2], Endian::LittleEndian);
    let mut to = vec![0u8; 3];
    assert_eq!(reader.read_byte_slice(&mut to), None);
}
