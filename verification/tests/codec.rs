use huffman::bits::{byte_to_bits, convert_bits_to_bytes, BitPacker};
use huffman::builder::build_huffman_tree;
use huffman::codes::generate_codes;
use huffman::compressor::{assemble, compress, pack_symbols};
use huffman::decompressor::{decode_symbols, decompress};
use huffman::error::CodecError;
use huffman::frequency::count_frequencies;
use huffman::rebuild::build_huffman_tree_from_codes;
use huffman::table::{deserialize_codes, serialize_codes};
use huffman::tree::HuffmanNode;
use std::collections::HashMap;

fn bits(text: &str) -> Vec<bool> {
    text.chars().map(|c| c == '1').collect()
}

fn table(entries: &[(u8, &str)]) -> HashMap<u8, Vec<bool>> {
    let mut codes = HashMap::new();
    for (symbol, text) in entries {
        codes.insert(*symbol, bits(text));
    }
    codes
}

fn frequencies(entries: &[(u8, usize)]) -> HashMap<u8, usize> {
    entries.iter().cloned().collect()
}

fn code_table(data: &[u8]) -> HashMap<u8, Vec<bool>> {
    let tree = build_huffman_tree(&count_frequencies(data)).unwrap();
    let mut codes = HashMap::new();
    generate_codes(&tree, &Vec::new(), &mut codes);
    codes
}

fn le(n: u64) -> Vec<u8> {
    n.to_le_bytes().to_vec()
}

fn is_prefix(a: &[bool], b: &[bool]) -> bool {
    a.len() <= b.len() && &b[..a.len()] == a
}

fn pseudo_random(len: usize, spread: u64) -> Vec<u8> {
    let mut state: u64 = 0x2545_f491_4f6c_dd1d;
    let mut data = Vec::with_capacity(len);
    for _ in 0..len {
        state = state.wrapping_mul(6364136223846793005).wrapping_add(1442695040888963407);
        data.push((((state >> 33) % spread) * ((state >> 50) % 3)) as u8);
    }
    data
}

#[test]
fn new_node_has_no_children() {
    let node = HuffmanNode::new(7, Some(65));
    assert_eq!(node.frequency, 7);
    assert_eq!(node.value, Some(65));
    assert!(node.left.is_none());
    assert!(node.right.is_none());
    let inner = HuffmanNode::new(0, None);
    assert_eq!(inner.frequency, 0);
    assert_eq!(inner.value, None);
}

#[test]
fn counts_each_byte_value() {
    let counts = count_frequencies(&[65, 65, 65, 66, 66, 67]);
    assert_eq!(counts.len(), 3);
    assert_eq!(counts[&65], 3);
    assert_eq!(counts[&66], 2);
    assert_eq!(counts[&67], 1);
    assert!(count_frequencies(&[]).is_empty());
}

#[test]
fn packs_bits_most_significant_first() {
    assert_eq!(convert_bits_to_bytes(&bits("")), Vec::<u8>::new());
    assert_eq!(convert_bits_to_bytes(&bits("1")), vec![0x80]);
    assert_eq!(convert_bits_to_bytes(&bits("101")), vec![0xa0]);
    assert_eq!(convert_bits_to_bytes(&bits("00000001")), vec![0x01]);
    assert_eq!(convert_bits_to_bytes(&bits("11111111")), vec![0xff]);
    assert_eq!(convert_bits_to_bytes(&bits("000111110")), vec![0x1f, 0x00]);
    assert_eq!(convert_bits_to_bytes(&bits("1010010111")), vec![0xa5, 0xc0]);
}

#[test]
fn packer_collects_bits_across_pushes() {
    let mut packer = BitPacker::new();
    for bit in bits("0110100001101") {
        packer.push(bit);
    }
    assert_eq!(packer.finish(), vec![0x68, 0x68]);
    assert_eq!(BitPacker::new().finish(), Vec::<u8>::new());
}

#[test]
fn splits_a_byte_into_bits() {
    assert_eq!(byte_to_bits(0xa5), bits("10100101"));
    assert_eq!(byte_to_bits(0x00), bits("00000000"));
    assert_eq!(byte_to_bits(0xff), bits("11111111"));
    assert_eq!(byte_to_bits(0x01), bits("00000001"));
    assert_eq!(byte_to_bits(0x80), bits("10000000"));
}

#[test]
fn bits_of_every_byte_pack_back() {
    for byte in 0..=255u8 {
        assert_eq!(convert_bits_to_bytes(&byte_to_bits(byte)), vec![byte]);
    }
}

#[test]
fn tree_of_three_symbols() {
    let tree = build_huffman_tree(&frequencies(&[(65, 3), (66, 2), (67, 1)])).unwrap();
    assert_eq!(tree.frequency, 6);
    assert_eq!(tree.value, None);
    let left = tree.left.as_ref().unwrap();
    let right = tree.right.as_ref().unwrap();
    assert_eq!((left.frequency, left.value), (3, Some(65)));
    assert!(left.left.is_none() && left.right.is_none());
    assert_eq!((right.frequency, right.value), (3, None));
    let low = right.left.as_ref().unwrap();
    let high = right.right.as_ref().unwrap();
    assert_eq!((low.frequency, low.value), (1, Some(67)));
    assert_eq!((high.frequency, high.value), (2, Some(66)));
}

#[test]
fn equal_counts_leave_the_queue_by_byte_value() {
    let tree = build_huffman_tree(&frequencies(&[(9, 1), (3, 1), (200, 1), (7, 1)])).unwrap();
    let mut codes = HashMap::new();
    generate_codes(&tree, &Vec::new(), &mut codes);
    assert_eq!(codes, table(&[(3, "00"), (7, "01"), (9, "10"), (200, "11")]));
}

#[test]
fn tree_of_one_symbol_is_a_leaf() {
    let tree = build_huffman_tree(&frequencies(&[(120, 4)])).unwrap();
    assert_eq!((tree.frequency, tree.value), (4, Some(120)));
    assert!(tree.left.is_none() && tree.right.is_none());
}

#[test]
fn tree_of_no_symbol_is_refused() {
    match build_huffman_tree(&HashMap::new()) {
        Err(e) => assert_eq!(e, CodecError::EmptyInput),
        Ok(_) => panic!("a tree without leaves"),
    }
}

#[test]
fn codes_are_paths_to_the_leaves() {
    assert_eq!(
        code_table(&[65, 65, 65, 66, 66, 67]),
        table(&[(65, "0"), (66, "11"), (67, "10")])
    );
}

#[test]
fn single_leaf_gets_one_zero_bit() {
    assert_eq!(code_table(&[9, 9, 9, 9]), table(&[(9, "0")]));
}

#[test]
fn generate_codes_extends_the_given_prefix() {
    let tree = build_huffman_tree(&frequencies(&[(1, 1), (2, 2)])).unwrap();
    let mut codes = table(&[(2, "000"), (5, "111")]);
    generate_codes(&tree, &bits("10"), &mut codes);
    assert_eq!(codes, table(&[(1, "100"), (2, "101"), (5, "111")]));
    let leaf = HuffmanNode::new(3, Some(8));
    let mut below = HashMap::new();
    generate_codes(&leaf, &bits("01"), &mut below);
    assert_eq!(below, table(&[(8, "01")]));
}

#[test]
fn more_frequent_symbols_get_shorter_codes() {
    let data = [65, 65, 65, 65, 65, 66, 67];
    let codes = code_table(&data);
    assert_eq!(codes, table(&[(65, "1"), (66, "00"), (67, "01")]));
    assert!(codes[&65].len() <= codes[&66].len());
    assert!(codes[&65].len() <= codes[&67].len());
}

#[test]
fn code_lengths_follow_the_counts() {
    let data = pseudo_random(5000, 40);
    let counts = count_frequencies(&data);
    let codes = code_table(&data);
    for (a, count_a) in &counts {
        for (b, count_b) in &counts {
            if count_a > count_b {
                assert!(codes[a].len() <= codes[b].len());
            }
        }
    }
}

#[test]
fn generated_codes_are_prefix_free() {
    let data = pseudo_random(3000, 100);
    let codes = code_table(&data);
    assert_eq!(codes.len(), count_frequencies(&data).len());
    for (a, code_a) in &codes {
        assert!(!code_a.is_empty());
        for (b, code_b) in &codes {
            if a != b {
                assert!(!is_prefix(code_a, code_b));
            }
        }
    }
}

#[test]
fn packs_the_codes_of_the_bytes() {
    let codes = table(&[(65, "0"), (66, "11"), (67, "10")]);
    assert_eq!(pack_symbols(&[65, 65, 65, 66, 66, 67], &codes), Ok(vec![0x1f, 0x00]));
    assert_eq!(pack_symbols(&[], &codes), Ok(vec![]));
    assert_eq!(pack_symbols(&[67, 66, 65, 67, 66], &codes), Ok(vec![0xb5, 0x80]));
}

#[test]
fn byte_without_code_is_an_error() {
    let codes = table(&[(65, "0"), (66, "1")]);
    assert_eq!(pack_symbols(&[65, 66, 67, 65], &codes), Err(CodecError::MissingCode));
}

#[test]
fn table_is_written_in_ascending_order() {
    let codes = table(&[(67, "10"), (65, "0"), (66, "11")]);
    let mut expected = le(3);
    expected.push(65);
    expected.extend(le(1));
    expected.extend(b"0");
    expected.push(66);
    expected.extend(le(2));
    expected.extend(b"11");
    expected.push(67);
    expected.extend(le(2));
    expected.extend(b"10");
    assert_eq!(serialize_codes(&codes), Ok(expected));
    assert_eq!(serialize_codes(&HashMap::new()), Ok(le(0)));
}

#[test]
fn table_is_read_back_in_any_order() {
    let mut bytes = le(2);
    bytes.push(200);
    bytes.extend(le(3));
    bytes.extend(b"101");
    bytes.push(7);
    bytes.extend(le(1));
    bytes.extend(b"0");
    let used = bytes.len();
    bytes.extend([9, 9, 9]);
    let (codes, end) = deserialize_codes(&bytes).unwrap();
    assert_eq!(codes, table(&[(200, "101"), (7, "0")]));
    assert_eq!(end, used);
}

#[test]
fn table_round_trip_of_every_size() {
    for size in [0usize, 1, 2, 17, 255, 256] {
        let mut codes = HashMap::new();
        for symbol in 0..size {
            let mut code = byte_to_bits(symbol as u8);
            code.truncate(1 + symbol % 8);
            code.extend(byte_to_bits((symbol * 7) as u8));
            codes.insert(symbol as u8, code);
        }
        let mut bytes = serialize_codes(&codes).unwrap();
        let used = bytes.len();
        bytes.extend([1, 2, 3, 4, 5]);
        let (read, end) = deserialize_codes(&bytes).unwrap();
        assert_eq!(read, codes);
        assert_eq!(end, used);
    }
}

#[test]
fn table_has_the_form_of_a_serialized_map_of_strings() {
    let codes = table(&[(1, "0"), (2, "10"), (3, "11")]);
    let bytes = serialize_codes(&codes).unwrap();
    let strings: HashMap<u8, String> = bincode::deserialize(&bytes).unwrap();
    assert_eq!(strings.len(), 3);
    assert_eq!(strings[&1], "0");
    assert_eq!(strings[&2], "10");
    assert_eq!(strings[&3], "11");
    let (read, used) = deserialize_codes(&bincode::serialize(&strings).unwrap()).unwrap();
    assert_eq!(read, codes);
    assert_eq!(used, bytes.len());
}

#[test]
fn truncated_table_is_refused() {
    let bytes = serialize_codes(&table(&[(65, "0"), (66, "11")])).unwrap();
    for len in 0..bytes.len() {
        assert_eq!(deserialize_codes(&bytes[..len]).err(), Some(CodecError::MalformedTable));
    }
    assert!(deserialize_codes(&bytes).is_ok());
}

#[test]
fn table_with_a_symbol_twice_is_refused() {
    let mut bytes = le(2);
    for text in [b"0", b"1"] {
        bytes.push(65);
        bytes.extend(le(1));
        bytes.extend(text);
    }
    assert_eq!(deserialize_codes(&bytes).err(), Some(CodecError::MalformedTable));
}

#[test]
fn table_with_another_character_is_refused() {
    let mut bytes = le(1);
    bytes.push(65);
    bytes.extend(le(2));
    bytes.extend(b"02");
    assert_eq!(deserialize_codes(&bytes).err(), Some(CodecError::MalformedTable));
}

#[test]
fn table_with_a_huge_length_is_refused() {
    let mut bytes = le(u64::MAX);
    bytes.extend([65, 1, 0, 0, 0, 0, 0, 0, 0, 48]);
    assert_eq!(deserialize_codes(&bytes).err(), Some(CodecError::MalformedTable));
    let mut bytes = le(1);
    bytes.push(65);
    bytes.extend(le(u64::MAX));
    bytes.extend(b"0101");
    assert_eq!(deserialize_codes(&bytes).err(), Some(CodecError::MalformedTable));
}

#[test]
fn decoding_tree_follows_the_codes() {
    let tree = build_huffman_tree_from_codes(&table(&[(65, "0"), (66, "11"), (67, "10")])).unwrap();
    assert_eq!((tree.frequency, tree.value), (0, None));
    let left = tree.left.as_ref().unwrap();
    assert_eq!((left.frequency, left.value), (0, Some(65)));
    assert!(left.left.is_none() && left.right.is_none());
    let right = tree.right.as_ref().unwrap();
    assert_eq!((right.frequency, right.value), (0, None));
    assert_eq!(right.left.as_ref().unwrap().value, Some(67));
    assert_eq!(right.right.as_ref().unwrap().value, Some(66));
}

#[test]
fn decoding_tree_of_one_code() {
    let tree = build_huffman_tree_from_codes(&table(&[(9, "0")])).unwrap();
    assert_eq!(tree.value, None);
    assert_eq!(tree.left.as_ref().unwrap().value, Some(9));
    assert!(tree.right.is_none());
    let empty = build_huffman_tree_from_codes(&HashMap::new()).unwrap();
    assert!(empty.value.is_none() && empty.left.is_none() && empty.right.is_none());
}

#[test]
fn ambiguous_tables_are_refused() {
    for entries in [
        vec![(65u8, "0"), (66u8, "01")],
        vec![(65, "01"), (66, "0")],
        vec![(65, "10"), (66, "10")],
        vec![(65, "")],
        vec![(65, "1"), (66, "")],
        vec![(65, "110"), (66, "0"), (67, "11")],
    ] {
        match build_huffman_tree_from_codes(&table(&entries)) {
            Err(e) => assert_eq!(e, CodecError::AmbiguousCodes),
            Ok(_) => panic!("a tree for an ambiguous table"),
        }
    }
}

#[test]
fn decodes_a_payload_by_walking_the_tree() {
    let tree = build_huffman_tree_from_codes(&table(&[(65, "0"), (66, "11"), (67, "10")])).unwrap();
    assert_eq!(decode_symbols(&tree, &[0x1f, 0x00], 6), Ok(vec![65, 65, 65, 66, 66, 67]));
    assert_eq!(decode_symbols(&tree, &[0x1f, 0x00], 9), Ok(vec![65, 65, 65, 66, 66, 67, 65, 65, 65]));
    assert_eq!(decode_symbols(&tree, &[0x1f, 0x00], 0), Ok(vec![]));
    assert_eq!(decode_symbols(&tree, &[], 0), Ok(vec![]));
    assert_eq!(decode_symbols(&tree, &[0xb5, 0x80], 5), Ok(vec![67, 66, 65, 67, 66]));
}

#[test]
fn payload_that_ends_early_is_refused() {
    let tree = build_huffman_tree_from_codes(&table(&[(65, "0"), (66, "11"), (67, "10")])).unwrap();
    assert_eq!(decode_symbols(&tree, &[0xff], 5), Err(CodecError::MalformedPayload));
    assert_eq!(decode_symbols(&tree, &[], 1), Err(CodecError::MalformedPayload));
    assert_eq!(decode_symbols(&tree, &[0x00], u64::MAX), Err(CodecError::MalformedPayload));
}

#[test]
fn payload_that_leaves_the_tree_is_refused() {
    let tree = build_huffman_tree_from_codes(&table(&[(9, "0")])).unwrap();
    assert_eq!(decode_symbols(&tree, &[0x00], 8), Ok(vec![9; 8]));
    assert_eq!(decode_symbols(&tree, &[0x10], 8), Err(CodecError::MalformedPayload));
    assert_eq!(decode_symbols(&tree, &[0x10], 3), Ok(vec![9; 3]));
}

#[test]
fn file_is_table_count_and_payload() {
    assert_eq!(assemble(&[1, 2], 0x0102, &[9]), vec![1, 2, 2, 1, 0, 0, 0, 0, 0, 0, 9]);
    assert_eq!(assemble(&[], 0, &[]), le(0));
}

#[test]
fn compressed_form_of_one_byte() {
    let mut expected = le(1);
    expected.push(65);
    expected.extend(le(1));
    expected.extend(b"0");
    expected.extend(le(1));
    expected.push(0x00);
    assert_eq!(compress(&[65]), Ok(expected));
}

#[test]
fn compressed_form_of_three_symbols() {
    let mut expected = le(3);
    expected.push(65);
    expected.extend(le(1));
    expected.extend(b"0");
    expected.push(66);
    expected.extend(le(2));
    expected.extend(b"11");
    expected.push(67);
    expected.extend(le(2));
    expected.extend(b"10");
    expected.extend(le(6));
    expected.extend([0x1f, 0x00]);
    assert_eq!(compress(&[65, 65, 65, 66, 66, 67]), Ok(expected));
}

#[test]
fn three_symbols_round_trip() {
    let data = vec![65, 65, 65, 66, 66, 67];
    let file = compress(&data).unwrap();
    assert_eq!(decompress(&file), Ok(data));
}

#[test]
fn single_symbol_buffers_round_trip() {
    for len in [1usize, 2, 7, 8, 9, 64, 1000] {
        for byte in [0u8, 1, 65, 255] {
            let data = vec![byte; len];
            let file = compress(&data).unwrap();
            assert_eq!(decompress(&file), Ok(data));
        }
    }
}

#[test]
fn empty_buffer_is_refused() {
    assert_eq!(compress(&[]), Err(CodecError::EmptyInput));
}

#[test]
fn buffers_round_trip() {
    let all: Vec<u8> = (0..=255).collect();
    let mut skewed = Vec::new();
    for symbol in 0..40u8 {
        for _ in 0..(1usize << (symbol / 3)) {
            skewed.push(symbol);
        }
    }
    for data in [
        b"abracadabra".to_vec(),
        all,
        skewed,
        pseudo_random(1, 256),
        pseudo_random(257, 3),
        pseudo_random(10_000, 256),
        pseudo_random(20_000, 11),
    ] {
        let file = compress(&data).unwrap();
        assert_eq!(decompress(&file), Ok(data));
    }
}

#[test]
fn padding_bits_add_no_symbol() {
    for len in 1..40usize {
        let data: Vec<u8> = (0..len).map(|i| [65u8, 66, 67][i % 3]).collect();
        assert_eq!(decompress(&compress(&data).unwrap()), Ok(data));
    }
}

#[test]
fn file_without_a_table_is_refused() {
    assert_eq!(decompress(&[]), Err(CodecError::MalformedTable));
    assert_eq!(decompress(&[1, 2, 3]), Err(CodecError::MalformedTable));
    let file = compress(b"hello world").unwrap();
    assert_eq!(decompress(&file[..20]), Err(CodecError::MalformedTable));
}

#[test]
fn file_with_an_ambiguous_table_is_refused() {
    let header = serialize_codes(&table(&[(65, "0"), (66, "01")])).unwrap();
    assert_eq!(decompress(&assemble(&header, 1, &[0x00])), Err(CodecError::AmbiguousCodes));
}

#[test]
fn file_with_a_short_payload_is_refused() {
    let data = b"mississippi".to_vec();
    let file = compress(&data).unwrap();
    assert_eq!(decompress(&file), Ok(data));
    assert_eq!(decompress(&file[..file.len() - 1]), Err(CodecError::MalformedPayload));
    let header = serialize_codes(&table(&[(65, "0"), (66, "1")])).unwrap();
    assert_eq!(decompress(&header), Err(CodecError::MalformedPayload));
    let mut cut = header.clone();
    cut.extend([2, 0, 0, 0]);
    assert_eq!(decompress(&cut), Err(CodecError::MalformedPayload));
    assert_eq!(decompress(&assemble(&header, 9, &[0x55])), Err(CodecError::MalformedPayload));
    assert_eq!(decompress(&assemble(&header, 8, &[0x55])), Ok(vec![65, 66, 65, 66, 65, 66, 65, 66]));
}

#[test]
fn file_with_no_symbols_decompresses_to_nothing() {
    let header = serialize_codes(&HashMap::new()).unwrap();
    assert_eq!(decompress(&assemble(&header, 0, &[])), Ok(vec![]));
    assert_eq!(decompress(&assemble(&header, 1, &[0x00])), Err(CodecError::MalformedPayload));
}
