use huff::bitwriter::BitWriter;
use huff::codec::{compress, extract, read_leaf, read_tree, write_tree};
use huff::error::Error;
use huff::format::{compress_bytes, decompress_bytes};
use huff::reader::BitReader;
use huff::tree::Tree;
use huff::{encode, to_tree};

fn shape(tree: &Tree) -> Tree {
    match tree {
        Tree::Leaf { byte, .. } => Tree::Leaf { value: 0, byte: *byte },
        Tree::Branch { left, right, .. } => Tree::Branch {
            value: 0,
            left: Box::new(shape(left)),
            right: Box::new(shape(right)),
        },
    }
}

#[test]
fn writer_packs_most_significant_bit_first() {
    let mut bw = BitWriter::new(Vec::new());
    for bit in [true, false, true, true, false, false, false, true] {
        bw.write_bit(bit);
    }
    bw.write_bit(true);
    assert_eq!(bw.align(), 7);
    assert_eq!(bw.align(), 0);
    bw.write_byte(0x5a);
    assert_eq!(bw.into_inner(), vec![0xb1, 0x80, 0x5a]);
}

#[test]
fn writer_byte_across_a_boundary() {
    let mut bw = BitWriter::new(vec![0xff]);
    bw.write_bit(false);
    bw.write_bit(true);
    bw.write_byte(0xff);
    assert_eq!(bw.align(), 6);
    assert_eq!(bw.into_inner(), vec![0xff, 0x7f, 0xc0]);
}

#[test]
fn writer_keeps_an_unfinished_byte_back() {
    let mut bw = BitWriter::new(Vec::new());
    bw.write_bit(true);
    assert_eq!(bw.into_inner(), Vec::<u8>::new());
}

#[test]
fn tree_is_written_in_pre_order() {
    let tree = to_tree(b"aaabbc");
    let mut bw = BitWriter::new(Vec::new());
    write_tree(&mut bw, &tree);
    assert_eq!(bw.align(), 3);
    // 1 0 'a' 1 0 'c' 0 'b'
    assert_eq!(bw.into_inner(), vec![0x98, 0x66, 0x33, 0x10]);
}

#[test]
fn tree_read_back_has_the_same_shape() {
    for input in [&b"aaabbc"[..], b"aaaa", b"the quick brown fox", b"\x00\xff\x00\x01"] {
        let tree = to_tree(input);
        let mut bw = BitWriter::new(Vec::new());
        write_tree(&mut bw, &tree);
        bw.align();
        let bytes = bw.into_inner();
        let mut br = BitReader::new(&bytes);
        assert_eq!(read_tree(&mut br), Some(shape(&tree)));
    }
}

#[test]
fn tree_cut_short_is_refused() {
    let mut br = BitReader::new(&[0x98, 0x66]);
    assert_eq!(read_tree(&mut br), None);
    let mut br = BitReader::new(&[]);
    assert_eq!(read_tree(&mut br), None);
}

#[test]
fn leaf_is_read_from_eight_bits() {
    let mut br = BitReader::new(&[0x61, 0x62]);
    assert_eq!(read_leaf(&mut br), Some(Tree::Leaf { value: 0, byte: 0x61 }));
    assert_eq!(read_leaf(&mut br), Some(Tree::Leaf { value: 0, byte: 0x62 }));
    assert_eq!(read_leaf(&mut br), None);
}

#[test]
fn payload_is_the_codes_in_order() {
    let (table, _) = encode(b"aaabbc");
    let mut bw = BitWriter::new(Vec::new());
    compress(&mut bw, &table, b"aaabbc");
    assert_eq!(bw.align(), 7);
    // 0 0 0 11 11 10
    assert_eq!(bw.into_inner(), vec![0x1f, 0x00]);
}

#[test]
fn extract_walks_the_tree() {
    let tree = to_tree(b"aaabbc");
    let mut br = BitReader::new(&[0x1f, 0x00]);
    assert_eq!(extract(&mut br, &tree, 9), Ok(b"aaabbc".to_vec()));
    let mut br = BitReader::new(&[0x1f, 0x00]);
    assert_eq!(extract(&mut br, &tree, 0), Ok(Vec::new()));
    // a walk that ends between root and leaf gives nothing for its last bits
    let mut br = BitReader::new(&[0x1f, 0x80]);
    assert_eq!(extract(&mut br, &tree, 8), Ok(b"aaabb".to_vec()));
}

#[test]
fn extract_past_the_end_is_refused() {
    let tree = to_tree(b"aaabbc");
    let mut br = BitReader::new(&[0x1f, 0x00]);
    assert_eq!(extract(&mut br, &tree, 17), Err(Error::MalformedFile));
}

#[test]
fn extract_on_a_single_leaf_gives_a_symbol_per_bit() {
    let tree = Tree::Leaf { value: 0, byte: b'z' };
    let mut br = BitReader::new(&[0x00]);
    assert_eq!(extract(&mut br, &tree, 3), Ok(b"zzz".to_vec()));
}

#[test]
fn padding_of_three_symbols() {
    let file = compress_bytes(b"aaabbc").unwrap();
    // 29 bits of tree and 3 of filler, 9 bits of payload and 7 of filler
    assert_eq!(file, vec![0x98, 0x66, 0x33, 0x10, 0x1f, 0x00, 0x37]);
    assert_eq!(decompress_bytes(&file), Ok(b"aaabbc".to_vec()));
}

#[test]
fn single_symbol_round_trips() {
    let file = compress_bytes(b"aaaa").unwrap();
    // leaf: 0 'a', 7 bits of filler; payload 0000, 4 bits of filler
    assert_eq!(file, vec![0x30, 0x80, 0x00, 0x74]);
    assert_eq!(decompress_bytes(&file), Ok(b"aaaa".to_vec()));
    let one = compress_bytes(b"x").unwrap();
    assert_eq!(decompress_bytes(&one), Ok(b"x".to_vec()));
}

#[test]
fn round_trip_of_texts() {
    for input in [
        &b"ab"[..],
        b"abracadabra",
        b"the quick brown fox jumps over the lazy dog",
        b"\x00\x00\x01\xff\xfe\x80\x7f",
        b"aaaaaaaabbbbccd",
    ] {
        let file = compress_bytes(input).unwrap();
        assert_eq!(decompress_bytes(&file), Ok(input.to_vec()));
    }
}

#[test]
fn round_trip_of_all_byte_values() {
    let mut input: Vec<u8> = Vec::new();
    for round in 0..3u32 {
        for b in 0..=255u8 {
            for _ in 0..(1 + (u32::from(b) * 7 + round) % 5) {
                input.push(b);
            }
        }
    }
    let file = compress_bytes(&input).unwrap();
    assert_eq!(decompress_bytes(&file), Ok(input));
}

#[test]
fn payload_that_ends_on_a_byte_has_no_filler() {
    // two symbols, one bit each, eight of them
    let file = compress_bytes(b"abababab").unwrap();
    assert_eq!(file.last().unwrap() & 0x0f, 0);
    assert_eq!(decompress_bytes(&file), Ok(b"abababab".to_vec()));
}

#[test]
fn empty_input_is_refused() {
    assert_eq!(compress_bytes(&[]), Err(Error::EmptyInput));
    assert_eq!(compress_bytes(&[]), Err(Error::EmptyInput));
}

#[test]
fn empty_file_is_refused() {
    assert_eq!(decompress_bytes(&[]), Err(Error::MalformedFile));
}

#[test]
fn file_cut_short_is_refused() {
    // the tree's first bit asks for more than there is
    assert_eq!(decompress_bytes(&[0x98]), Err(Error::MalformedFile));
    // a whole tree, and a last byte that is part of it
    assert_eq!(decompress_bytes(&[0x30, 0x80]), Err(Error::MalformedFile));
    // the last byte claims more filler than there is payload
    assert_eq!(decompress_bytes(&[0x30, 0x80, 0x71]), Err(Error::MalformedFile));
}

#[test]
fn file_without_payload_decodes_to_nothing() {
    assert_eq!(decompress_bytes(&[0x30, 0x80, 0x70]), Ok(Vec::new()));
}
