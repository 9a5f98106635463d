use png_decoder::bitreader::{BitReader, Endian};
use png_decoder::huffman_coding::{HuffmanTree, Prefix};

#[test]
fn from_codelengths_test() {
    let codelengths = vec![0, 4, 1, 0, 4, 0, 0, 0, 0, 0, 0, 0, 0, 0, 0, 0, 4, 4, 2];
    let tree = HuffmanTree::from_codelengths(&codelengths).unwrap();

    // the canonical assignment, every pair distinct
    assert_eq!(tree.get_symbol(&Prefix { length: 4, prefix: 13 }), Some(4));
    assert_eq!(tree.get_symbol(&Prefix { length: 4, prefix: 14 }), Some(16));
    assert_eq!(tree.get_symbol(&Prefix { length: 1, prefix: 0 }), Some(2));
    assert_eq!(tree.get_symbol(&Prefix { length: 4, prefix: 15 }), Some(17));
    assert_eq!(tree.get_symbol(&Prefix { length: 2, prefix: 2 }), Some(18));
    assert_eq!(tree.get_symbol(&Prefix { length: 4, prefix: 12 }), Some(1));
    // nothing else is mapped at these lengths
    assert_eq!(tree.get_symbol(&Prefix { length: 1, prefix: 1 }), None);
    assert_eq!(tree.get_symbol(&Prefix { length: 4, prefix: 11 }), None);
}

#[test]
fn from_codelengths_rejects_degenerate_vectors() {
    assert!(HuffmanTree::from_codelengths(&[]).is_none());
    assert!(HuffmanTree::from_codelengths(&[0, 0, 0]).is_none());
}

#[test]
fn get_next_symbol_decodes_from_a_reader() {
    // lengths [2, 1, 3, 3]: canonical codes 10, 0, 110, 111
    let codelengths = vec![2, 1, 3, 3];
    let tree = HuffmanTree::from_codelengths(&codelengths).unwrap();
    // MSB-first bit stream: 0 | 10 | 110 | 111
    let data = [0b0101_1011, 0b1000_0000];
    let mut reader = BitReader::new(&data, Endian::BigEndian);
    assert_eq!(tree.get_next_symbol(&mut reader), Some(1));
    assert_eq!(tree.get_next_symbol(&mut reader), Some(0));
    assert_eq!(tree.get_next_symbol(&mut reader), Some(2));
    assert_eq!(tree.get_next_symbol(&mut reader), Some(3));
}

#[test]
fn get_next_symbol_fails_on_exhausted_input() {
    let codelengths = vec![1, 1];
    let tree = HuffmanTree::from_codelengths(&codelengths).unwrap();
    let data: [u8; 0] = [];
    let mut reader = BitReader::new(&data, Endian::BigEndian);
    assert_eq!(tree.get_next_symbol(&mut reader), None);
}
