use goc_save_editor::read_buffer::ReadBuffer;

#[test]
fn read_buffer_starts_at_zero() {
    let buf = ReadBuffer::new(vec![1, 2, 3]);
    assert_eq!(buf.read_pos, 0);
    assert_eq!(buf.data, vec![1, 2, 3]);
}

#[test]
fn read_byte_advances_and_stops_at_end() {
    let mut buf = ReadBuffer::new(vec![1, 2]);
    assert_eq!(buf.read_byte(), Some(1));
    assert_eq!(buf.read_byte(), Some(2));
    assert_eq!(buf.read_byte(), None);
    assert_eq!(buf.read_byte(), None);
    assert_eq!(buf.read_pos, 2);
}

#[test]
fn remaining_bits_most_significant_first() {
    let mut buf = ReadBuffer::new(vec![0b1010_0001, 0xFF]);
    assert_eq!(
        buf.remaining_bits(),
        vec![true, false, true, false, false, false, false, true, true, true, true, true, true, true, true, true]
    );
    buf.read_byte();
    assert_eq!(buf.remaining_bits(), vec![true; 8]);
    buf.read_byte();
    assert_eq!(buf.remaining_bits(), Vec::<bool>::new());
}
