use png_decoder::bitstream::BitStream;

#[test]
fn next_yields_bits_lsb_first() {
    let mut stream = BitStream::new(vec![0b1010_0101], false);
    let expected = [1, 0, 1, 0, 0, 1, 0, 1];
    for bit in expected {
        assert_eq!(stream.next(), Some(bit));
    }
}

#[test]
fn next_yields_the_high_bit_first_when_big_endian() {
    let mut stream = BitStream::new(vec![0b1000_0000], true);
    assert_eq!(stream.next(), Some(1));
}

#[test]
fn next_n_collects_bits_in_order() {
    let mut stream = BitStream::new(vec![0b1010_0101], false);
    assert_eq!(stream.next_n(3), vec![1, 0, 1]);
    assert_eq!(stream.next_n(5), vec![0, 0, 1, 0, 1]);
}

#[test]
fn next_byte_reassembles_a_whole_byte() {
    let mut stream = BitStream::new(vec![0xA5, 0x3C], false);
    assert_eq!(stream.next_byte(), 0xA5);
    assert_eq!(stream.next_byte(), 0x3C);
}

#[test]
fn next_n_bytes_reads_consecutive_bytes() {
    let mut stream = BitStream::new(vec![0x12, 0x34, 0x56], false);
    assert_eq!(stream.next_n_bytes(3), vec![0x12, 0x34, 0x56]);
}

#[test]
fn positions_move_and_reset() {
    let mut stream = BitStream::new(vec![0x12, 0x34], false);
    assert_eq!(stream.current_abs_bit_position(), 0);
    stream.next();
    assert_eq!(stream.current_abs_bit_position(), 1);
    stream.advance_bit_counter(5);
    assert_eq!(stream.current_abs_bit_position(), 6);
    stream.advance_bit_counter(-2);
    assert_eq!(stream.current_abs_bit_position(), 4);
    stream.move_to_next_byte();
    assert_eq!(stream.current_abs_bit_position(), 8);
    stream.reset_bit_position();
    assert_eq!(stream.current_abs_bit_position(), 0);
}

#[test]
fn slice_borrows_the_underlying_bytes() {
    let stream = BitStream::new(vec![9, 8, 7, 6], false);
    assert_eq!(stream.slice(1, 3), &[8, 7]);
}
