use goc_save_editor::compression::rle::RLE;

#[test]
fn rle_encode_empty() {
    assert_eq!(RLE::encode(&vec![]), Vec::<u8>::new());
}

#[test]
fn rle_encode_single_byte() {
    assert_eq!(RLE::encode(&vec![9]), vec![1, 9]);
}

#[test]
fn rle_encode_two_equal_bytes_are_literal() {
    assert_eq!(RLE::encode(&vec![5, 5]), vec![2, 5, 5]);
}

#[test]
fn rle_encode_run() {
    assert_eq!(RLE::encode(&vec![5, 5, 5, 5, 5]), vec![251, 5]);
}

#[test]
fn rle_encode_literals() {
    assert_eq!(RLE::encode(&vec![1, 2, 3]), vec![3, 1, 2, 3]);
}

#[test]
fn rle_encode_mixed() {
    assert_eq!(RLE::encode(&vec![1, 2, 3, 3, 3, 4]), vec![2, 1, 2, 253, 3, 255, 4]);
}

#[test]
fn rle_encode_long_run_is_cut_at_126() {
    assert_eq!(RLE::encode(&vec![0; 130]), vec![130, 0, 252, 0]);
}

#[test]
fn rle_encode_long_literal_is_cut_at_125() {
    let data: Vec<u8> = (0..127).collect();
    let encoded = RLE::encode(&data);
    assert_eq!(encoded.len(), 129);
    assert_eq!(encoded[0], 125);
    assert_eq!(&encoded[1..126], &data[0..125]);
    assert_eq!(&encoded[126..], &[2, 125, 126]);
    assert_eq!(RLE::decode(&encoded), Some(data));
}

#[test]
fn rle_final_pair_after_run_is_written_as_literal() {
    let data = vec![1, 1, 1, 2, 3];
    let encoded = RLE::encode(&data);
    assert_eq!(encoded, vec![0xFD, 0x01, 0x02, 0x02, 0x03]);
    assert_eq!(RLE::decode(&encoded), Some(data));
    let data = vec![1, 1, 2, 3];
    let encoded = RLE::encode(&data);
    assert_eq!(encoded, vec![0xFE, 1, 2, 2, 3]);
    assert_eq!(RLE::decode(&encoded), Some(data));
}

#[test]
fn rle_final_bytes_after_run_keep_repeat_kind() {
    assert_eq!(RLE::encode(&vec![7, 7, 7, 1, 1]), vec![0xFD, 7, 0xFE, 1]);
    assert_eq!(RLE::encode(&vec![7, 7, 7, 1]), vec![0xFD, 7, 0xFF, 1]);
}

#[test]
fn rle_round_trip() {
    for data in [
        vec![1, 2, 3, 3, 3, 4],
        vec![0; 300],
        vec![7, 8, 8, 9, 9, 9, 1],
        vec![4],
        vec![5, 5, 5, 6, 7],
        vec![9, 9, 8, 7],
        vec![],
    ] {
        assert_eq!(RLE::decode(&RLE::encode(&data)), Some(data));
    }
}

#[test]
fn rle_decode_zero_length_fails() {
    assert_eq!(RLE::decode(&vec![0]), None);
    assert_eq!(RLE::decode(&vec![1, 5, 0, 1]), None);
}

#[test]
fn rle_decode_repeat() {
    assert_eq!(RLE::decode(&vec![0xFE, 7]), Some(vec![7, 7]));
}

#[test]
fn rle_decode_cut_short() {
    assert_eq!(RLE::decode(&vec![3, 1]), Some(vec![1]));
    assert_eq!(RLE::decode(&vec![0xFE]), Some(vec![]));
    assert_eq!(RLE::decode(&vec![]), Some(vec![]));
}

#[test]
fn rle_decode_minus_128_gives_128_copies() {
    assert_eq!(RLE::decode(&vec![0x80, 9]), Some(vec![9u8; 128]));
    assert_eq!(RLE::decode(&vec![1, 4, 0x80, 9]).map(|v| v.len()), Some(129));
}

#[test]
fn rle_decode_of_whole_chunks_concatenates() {
    let a = vec![0xFD, 1];
    let b = vec![2, 2, 3];
    let mut ab = a.clone();
    ab.extend_from_slice(&b);
    let mut expected = RLE::decode(&a).unwrap();
    expected.extend_from_slice(&RLE::decode(&b).unwrap());
    assert_eq!(RLE::decode(&ab), Some(expected));
    assert_eq!(RLE::decode(&ab), Some(vec![1, 1, 1, 2, 3]));
    let mut bad = a.clone();
    bad.push(0);
    assert_eq!(RLE::decode(&bad), None);
}
