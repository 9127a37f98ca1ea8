use goc_save_editor::xtx::XTX;

#[test]
fn xtx_decrypt_odd_length() {
    assert_eq!(XTX::decrypt(&vec![0, 0, 0, 0, 0]), vec![175, 222, 222, 250, 255]);
}

#[test]
fn xtx_decrypt_even_length() {
    assert_eq!(XTX::decrypt(&vec![0, 0, 0, 0, 0, 0]), vec![175, 222, 222, 250, 0, 0]);
}

#[test]
fn xtx_decrypt_three_left_over() {
    assert_eq!(XTX::decrypt(&vec![0; 7]), vec![175, 222, 222, 250, 255, 0, 0]);
}

#[test]
fn xtx_decrypt_short() {
    assert_eq!(XTX::decrypt(&vec![]), Vec::<u8>::new());
    assert_eq!(XTX::decrypt(&vec![1]), vec![0xFE]);
    assert_eq!(XTX::decrypt(&vec![1, 2]), vec![1, 2]);
}

#[test]
fn xtx_decrypt_twice_is_identity() {
    let data: Vec<u8> = (0..23).map(|i| (i * 37 + 5) as u8).collect();
    assert_eq!(XTX::decrypt(&XTX::decrypt(&data)), data);
}
