use goc_save_editor::compression::huffman::Huffman;
use goc_save_editor::huffman_code::HuffmanCode;
use goc_save_editor::huffman_node::HuffmanNode;
use goc_save_editor::huffman_table::HuffmanTable;
use goc_save_editor::read_buffer::ReadBuffer;

fn leaf(symbol: u8, frequency: usize) -> HuffmanNode {
    HuffmanNode { symbol: Some(symbol), frequency, left: None, right: None }
}

fn inner(frequency: usize, left: HuffmanNode, right: HuffmanNode) -> HuffmanNode {
    HuffmanNode { symbol: None, frequency, left: Some(Box::new(left)), right: Some(Box::new(right)) }
}

fn three_symbol_tree() -> HuffmanNode {
    inner(4, leaf(30, 2), inner(2, leaf(20, 1), leaf(10, 1)))
}

#[test]
fn from_frequencies_none_when_empty() {
    assert_eq!(HuffmanNode::from_frequencies([0; 256]), None);
}

#[test]
fn from_frequencies_single_leaf() {
    let mut f = [0usize; 256];
    f[7] = 3;
    assert_eq!(HuffmanNode::from_frequencies(f), Some(Box::new(leaf(7, 3))));
}

#[test]
fn from_frequencies_lowest_weight_goes_left() {
    let mut f = [0usize; 256];
    f[1] = 5;
    f[2] = 3;
    assert_eq!(HuffmanNode::from_frequencies(f), Some(Box::new(inner(8, leaf(2, 3), leaf(1, 5)))));
}

#[test]
fn from_frequencies_ties_take_greater_symbol_first() {
    let mut f = [0usize; 256];
    f[10] = 1;
    f[20] = 1;
    f[30] = 2;
    assert_eq!(HuffmanNode::from_frequencies(f), Some(Box::new(three_symbol_tree())));
}

#[test]
fn node_outranks() {
    assert!(leaf(1, 1).outranks(&leaf(0, 2)));
    assert!(leaf(5, 2).outranks(&leaf(4, 2)));
    assert!(leaf(0, 2).outranks(&inner(2, leaf(1, 1), leaf(2, 1))));
    assert!(!inner(2, leaf(1, 1), leaf(2, 1)).outranks(&leaf(0, 2)));
}

#[test]
fn from_tree_depth_first_left_first() {
    let tree = Some(Box::new(three_symbol_tree()));
    let codes = HuffmanCode::from_tree(&tree);
    assert_eq!(
        codes,
        vec![
            HuffmanCode { symbol: 30, frequency: 2, length: 1, bits: 0 },
            HuffmanCode { symbol: 20, frequency: 1, length: 2, bits: 2 },
            HuffmanCode { symbol: 10, frequency: 1, length: 2, bits: 3 },
        ]
    );
    assert_eq!(HuffmanCode::from_tree(&None), vec![]);
}

#[test]
fn as_array_indexes_by_symbol_last_wins() {
    let codes = vec![
        HuffmanCode { symbol: 3, frequency: 1, length: 2, bits: 1 },
        HuffmanCode { symbol: 200, frequency: 4, length: 1, bits: 0 },
        HuffmanCode { symbol: 3, frequency: 9, length: 3, bits: 5 },
    ];
    let table = HuffmanCode::as_array(&codes);
    assert_eq!(table.len(), 256);
    assert_eq!(table[3], codes[2]);
    assert_eq!(table[200], codes[1]);
    assert_eq!(table[0], HuffmanCode { symbol: 0, frequency: 0, length: 0, bits: 0 });
}

#[test]
fn as_canonical_sorts_and_renumbers() {
    let codes = vec![
        HuffmanCode { symbol: 30, frequency: 2, length: 1, bits: 0 },
        HuffmanCode { symbol: 20, frequency: 1, length: 2, bits: 2 },
        HuffmanCode { symbol: 10, frequency: 1, length: 2, bits: 3 },
        HuffmanCode { symbol: 5, frequency: 1, length: 4, bits: 0 },
    ];
    let canonical = HuffmanCode::as_canonical(&codes);
    assert_eq!(
        canonical,
        vec![
            HuffmanCode { symbol: 30, frequency: 2, length: 1, bits: 0 },
            HuffmanCode { symbol: 10, frequency: 1, length: 2, bits: 2 },
            HuffmanCode { symbol: 20, frequency: 1, length: 2, bits: 3 },
            HuffmanCode { symbol: 5, frequency: 1, length: 4, bits: 16 },
        ]
    );
}

#[test]
fn table_from_codes_counts_lengths() {
    let codes = vec![
        HuffmanCode { symbol: 30, frequency: 2, length: 1, bits: 0 },
        HuffmanCode { symbol: 20, frequency: 1, length: 2, bits: 2 },
        HuffmanCode { symbol: 10, frequency: 1, length: 2, bits: 3 },
    ];
    let table = HuffmanTable::from_codes(&codes);
    let mut counts = [0u8; 16];
    counts[1] = 1;
    counts[2] = 2;
    assert_eq!(table.counts, counts);
    assert_eq!(&table.symbols[0..4], &[30, 20, 10, 0]);
    assert!(table.symbols[3..].iter().all(|&s| s == 0));
}

#[test]
fn encode_tree_writes_nodes() {
    assert_eq!(
        HuffmanTable::encode_tree(&three_symbol_tree()),
        vec![2, 0x4c, 0, 30, 0x52, 2, 0x4c, 0, 20, 0x52, 0, 10, 0, 0]
    );
    assert_eq!(HuffmanTable::encode_tree(&leaf(65, 9)), vec![0, 65]);
}

#[test]
fn from_stream_reads_tree_back_without_weights() {
    let mut buf = ReadBuffer::new(vec![2, 0x4c, 0, 30, 0x52, 2, 0x4c, 0, 20, 0x52, 0, 10, 0, 0, 99]);
    let tree = HuffmanNode::from_stream(&mut buf);
    assert_eq!(tree, Some(Box::new(inner(0, leaf(30, 0), inner(0, leaf(20, 0), leaf(10, 0))))));
    assert_eq!(buf.read_pos, 14);
}

#[test]
fn from_stream_leaf_and_truncation() {
    let mut buf = ReadBuffer::new(vec![0, 65]);
    assert_eq!(HuffmanNode::from_stream(&mut buf), Some(Box::new(leaf(65, 0))));
    let mut buf = ReadBuffer::new(vec![2, 0x4c]);
    assert_eq!(HuffmanNode::from_stream(&mut buf), None);
    let mut buf = ReadBuffer::new(vec![]);
    assert_eq!(HuffmanNode::from_stream(&mut buf), None);
}

#[test]
fn unknown_direction_is_skipped_or_refused() {
    let mut lenient = ReadBuffer::new(vec![1, 0x41, 9]);
    assert_eq!(HuffmanNode::from_stream(&mut lenient), Some(Box::new(leaf(9, 0))));
    assert_eq!(lenient.read_pos, 3);
    let mut strict = ReadBuffer::new(vec![1, 0x41, 9]);
    assert_eq!(HuffmanNode::from_stream_strict(&mut strict), None);
    assert_eq!(strict.read_pos, 2);
}

#[test]
fn half_inner_node_reads_as_leaf() {
    let mut buf = ReadBuffer::new(vec![1, 0x4c, 0, 5, 6]);
    assert_eq!(HuffmanNode::from_stream(&mut buf), Some(Box::new(leaf(6, 0))));
}

#[test]
fn table_encode_packs_bits() {
    let codes = HuffmanCode::from_tree(&Some(Box::new(three_symbol_tree())));
    let sheet = HuffmanCode::as_array(&codes);
    // 0 0 10 11 -> 0010 1100
    assert_eq!(HuffmanTable::encode(sheet, vec![30, 30, 20, 10]), vec![0x2C]);
    assert_eq!(HuffmanTable::encode(sheet, vec![]), Vec::<u8>::new());
    // 11 11 11 11 1 -> 1111 1111 1000 0000
    assert_eq!(HuffmanTable::encode(sheet, vec![10, 10, 10, 10, 30]), vec![0xFF, 0x00]);
}

#[test]
fn table_decode_walks_tree() {
    let tree = three_symbol_tree();
    let bits = vec![false, true, true, true, false, false];
    assert_eq!(HuffmanTable::decode(&tree, bits), vec![30, 10, 20, 30]);
    assert!(HuffmanTable::can_decode(&tree, &vec![true, false]));
}

#[test]
fn table_can_decode_refuses_leaf_root_zero_bit() {
    assert!(!HuffmanTable::can_decode(&leaf(3, 1), &vec![false]));
    assert!(HuffmanTable::can_decode(&leaf(3, 1), &vec![true]));
    assert_eq!(HuffmanTable::decode(&leaf(3, 1), vec![true, true]), vec![3, 3]);
}

#[test]
fn huffman_encode_exact() {
    assert_eq!(
        Huffman::encode(&vec![30, 30, 30, 30, 20, 10]),
        vec![2, 0x4c, 2, 0x4c, 0, 20, 0x52, 0, 10, 0, 0x52, 0, 30, 0, 0xF1]
    );
}

#[test]
fn huffman_round_trip_whole_bytes() {
    let data = vec![30, 30, 30, 30, 20, 10];
    assert_eq!(Huffman::decode(&Huffman::encode(&data)), Some(data));
}

#[test]
fn huffman_padding_decodes_to_leftmost_symbol() {
    let data = vec![30, 30, 20, 10];
    let encoded = Huffman::encode(&data);
    assert_eq!(encoded, vec![2, 0x4c, 0, 30, 0x52, 2, 0x4c, 0, 20, 0x52, 0, 10, 0, 0, 0x2C]);
    assert_eq!(Huffman::decode(&encoded), Some(vec![30, 30, 20, 10, 30, 30]));
}

#[test]
fn huffman_single_symbol_has_no_bits() {
    let encoded = Huffman::encode(&vec![7, 7, 7]);
    assert_eq!(encoded, vec![0, 7]);
    assert_eq!(Huffman::decode(&encoded), Some(vec![]));
}

#[test]
fn huffman_decode_without_tree() {
    assert_eq!(Huffman::decode(&vec![]), None);
    assert_eq!(Huffman::decode(&vec![2, 0x4c, 0]), None);
    assert_eq!(Huffman::decode(&vec![1, 0x41, 0]), None);
}

#[test]
fn huffman_decode_invalid_tree_gives_none() {
    assert_eq!(Huffman::decode(&vec![0x00, 0x05, 0x00]), None);
    assert_eq!(Huffman::decode(&vec![0, 7, 0x7F]), None);
    assert_eq!(Huffman::decode(&vec![0, 7, 0xFF]), Some(vec![7; 8]));
}

#[test]
fn from_stream_tree_is_well_formed_and_unweighted() {
    let mut bytes = HuffmanTable::encode_tree(&three_symbol_tree());
    let len = bytes.len();
    bytes.extend_from_slice(&[5, 6]);
    let mut buf = ReadBuffer::new(bytes);
    let tree = HuffmanNode::from_stream(&mut buf).unwrap();
    assert_eq!(*tree, inner(0, leaf(30, 0), inner(0, leaf(20, 0), leaf(10, 0))));
    assert_eq!(buf.read_pos, len);
    assert_eq!(buf.remaining_bits().len(), 16);
}

#[test]
fn table_decode_of_tree_codes_gives_data_back() {
    let tree = three_symbol_tree();
    let codes = HuffmanCode::from_tree(&Some(Box::new(three_symbol_tree())));
    let sheet = HuffmanCode::as_array(&codes);
    let data = vec![10, 30, 20, 20, 10, 30];
    let mut bits = Vec::new();
    for b in data.iter() {
        let code = sheet[*b as usize];
        for i in 0..code.length {
            bits.push((code.bits >> (code.length - 1 - i)) & 1 == 1);
        }
    }
    assert!(HuffmanTable::can_decode(&tree, &bits));
    assert_eq!(HuffmanTable::decode(&tree, bits), data);
}

#[test]
fn coded_bits_are_the_sum_of_code_lengths() {
    let codes = HuffmanCode::from_tree(&Some(Box::new(three_symbol_tree())));
    let sheet = HuffmanCode::as_array(&codes);
    let data = vec![10, 10, 10, 10, 30, 20, 20];
    let total: usize = data.iter().map(|b| sheet[*b as usize].length).sum();
    assert_eq!(total, 13);
    assert_eq!(HuffmanTable::encode(sheet, data).len(), (total + 7) / 8);
}
