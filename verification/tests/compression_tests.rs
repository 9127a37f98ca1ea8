use goc_save_editor::compression::{compress, decompress};

#[test]
fn compress_exact() {
    assert_eq!(compress(&vec![1, 3, 3]), vec![2, 76, 0, 1, 82, 2, 76, 0, 2, 82, 0, 3, 0, 0, 47]);
    assert_eq!(compress(&vec![0, 1, 1]), vec![2, 76, 2, 76, 0, 2, 82, 0, 0, 0, 82, 0, 1, 0, 166]);
}

#[test]
fn compress_round_trip() {
    for data in [vec![1, 3, 3], vec![0, 1, 1], vec![2, 0, 0], vec![3, 1, 1]] {
        let compressed = compress(&data);
        assert_eq!(decompress(&compressed), Some(data));
    }
}

#[test]
fn compress_padding_adds_symbols() {
    let compressed = compress(&vec![7, 7, 7]);
    assert_eq!(compressed, vec![2, 76, 0, 253, 82, 0, 7, 0, 64]);
    let mut expected = vec![7, 7, 7];
    expected.extend_from_slice(&[253; 9]);
    assert_eq!(decompress(&compressed), Some(expected));
}

#[test]
fn decompress_failures() {
    assert_eq!(decompress(&vec![]), None);
    // a leaf tree whose symbol is a zero length byte: run-length decoding fails
    assert_eq!(decompress(&vec![0, 0, 0xFF]), None);
    // a leaf tree and a 0 bit: no left child to follow
    assert_eq!(decompress(&vec![0, 5, 0x00]), None);
}

#[test]
fn decompress_minus_128_runs() {
    // eight 0x80 symbols: four chunks of 128 copies of 0x80
    assert_eq!(decompress(&vec![0, 0x80, 0xFF]), Some(vec![0x80u8; 512]));
}

#[test]
fn compress_round_trip_after_run_with_final_pair() {
    // every byte comes back; the zero bits padding the last byte decode to
    // three copies of the leftmost symbol, 0xFD, which run-length decoding
    // reads as a run of three 0xFD and a length byte with nothing after it
    let data = vec![1, 1, 1, 2, 3];
    let out = decompress(&compress(&data)).unwrap();
    assert!(out.starts_with(&data));
    assert_eq!(out, vec![1, 1, 1, 2, 3, 253, 253, 253]);
}
