use png_decoder::deflate::DeflateError;
use png_decoder::zlib::{adler_32, ZlibError, ZlibParser};

fn stored_zlib_stream(payload: &[u8]) -> Vec<u8> {
    // header, one stored DEFLATE block, big-endian Adler-32 trailer
    let mut stream = vec![0x78, 0x01];
    let len = payload.len() as u16;
    stream.push(0x01);
    stream.extend_from_slice(&len.to_le_bytes());
    stream.extend_from_slice(&(!len).to_le_bytes());
    stream.extend_from_slice(payload);
    stream.extend_from_slice(&adler_32(payload).to_be_bytes());
    stream
}

#[test]
fn adler_32_slice_values() {
    assert_eq!(adler_32(&[97, 98, 99]), 38600999);
    assert_eq!(adler_32(&[0]), 65537);
}

#[test]
fn parse_round_trips_a_stored_stream() {
    let payload = [104, 101, 108, 108, 111];
    let stream = stored_zlib_stream(&payload);
    let mut parser = ZlibParser::new(&stream);
    let report = parser.parse().unwrap();
    assert_eq!(report.data, payload.to_vec());
    assert_eq!(report.cm, 8);
    assert_eq!(report.cinfo, 7);
    assert_eq!(report.flevel, 0);
    assert_eq!(report.dictid, None);
    assert_eq!(report.adler32, adler_32(&payload));
}

#[test]
fn parse_decompresses_a_fixed_huffman_stream() {
    let mut stream = vec![0x78, 0x01];
    stream.extend_from_slice(&[99, 100, 98, 102, 97, 5, 0]);
    stream.extend_from_slice(&adler_32(&[1, 2, 3, 4, 5]).to_be_bytes());
    let mut parser = ZlibParser::new(&stream);
    assert_eq!(parser.parse().unwrap().data, vec![1, 2, 3, 4, 5]);
}

#[test]
fn corrupting_the_payload_is_caught() {
    let payload = [10, 20, 30, 40, 50, 60, 70, 80];
    let good = stored_zlib_stream(&payload);
    // flip one payload byte, past the header and the LEN/NLEN words
    let mut bad = good.clone();
    bad[8] ^= 0xFF;
    let mut parser = ZlibParser::new(&bad);
    assert_eq!(parser.parse().unwrap_err(), ZlibError::AdlerCheck);
}

#[test]
fn corrupting_the_trailer_is_caught() {
    let payload = [1, 2, 3];
    let mut stream = stored_zlib_stream(&payload);
    let n = stream.len();
    stream[n - 1] ^= 0x01;
    let mut parser = ZlibParser::new(&stream);
    assert_eq!(parser.parse().unwrap_err(), ZlibError::AdlerCheck);
}

#[test]
fn empty_input_has_no_bytes() {
    let mut parser = ZlibParser::new(&[]);
    assert_eq!(parser.parse().unwrap_err(), ZlibError::NoBytes);
}

#[test]
fn one_byte_input_has_no_flg() {
    let mut parser = ZlibParser::new(&[0x78]);
    assert_eq!(parser.parse().unwrap_err(), ZlibError::NoFlg);
}

#[test]
fn bad_header_check_is_rejected() {
    let mut parser = ZlibParser::new(&[0x78, 0x00]);
    assert_eq!(parser.parse().unwrap_err(), ZlibError::FCheck);
}

#[test]
fn header_without_room_for_the_trailer_is_rejected() {
    let mut parser = ZlibParser::new(&[0x78, 0x01, 0xAA]);
    assert_eq!(parser.parse().unwrap_err(), ZlibError::InvalidFDict);
}

#[test]
fn deflate_errors_are_wrapped() {
    // the payload's single block has the reserved BTYPE
    let mut parser = ZlibParser::new(&[0x78, 0x01, 0b0000_0111, 0, 0, 0, 0]);
    assert_eq!(
        parser.parse().unwrap_err(),
        ZlibError::Deflate(DeflateError::ReservedBType)
    );
}

#[test]
fn preset_dictionary_id_is_reported() {
    let payload = [65];
    let mut stream = vec![0x78, 0x20, 1, 2, 3, 4];
    stream.extend_from_slice(&[0x01, 0x01, 0x00, 0xFE, 0xFF, 65]);
    stream.extend_from_slice(&adler_32(&payload).to_be_bytes());
    let mut parser = ZlibParser::new(&stream);
    let report = parser.parse().unwrap();
    assert_eq!(report.dictid, Some([1, 2, 3, 4]));
    assert_eq!(report.data, vec![65]);
}
