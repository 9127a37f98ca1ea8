use goc_save_editor::goc_save::{parse_save_sections, save_fits_exec, SaveSection};

fn sample() -> Vec<u8> {
    vec![
        2, 0, 0, 0, // two sections
        7, 1, 2, 3, 4, 3, 0, 0, 0, 0xA, 0xB, 0xC, // index 7, unknown 0x04030201, 3 bytes
        9, 0, 0, 0, 0, 0, 0, 0, 0, // index 9, no bytes
        0xEE,
    ]
}

#[test]
fn parse_sections() {
    let parsed = parse_save_sections(sample());
    assert_eq!(parsed.declared, Some(2));
    assert_eq!(parsed.sections.len(), 2);
    assert_eq!(parsed.sections[0].index, 7);
    assert_eq!(parsed.sections[0].unknown, 0x04030201);
    assert_eq!(parsed.sections[0].size, 3);
    assert_eq!(parsed.sections[0].data, vec![0xA, 0xB, 0xC]);
    assert_eq!(parsed.sections[1].index, 9);
    assert_eq!(parsed.sections[1].data, Vec::<u8>::new());
    assert_eq!(parsed.remaining, 1);
}

#[test]
fn parse_stops_when_header_missing() {
    let mut data = sample();
    data[0] = 5;
    let parsed = parse_save_sections(data);
    assert_eq!(parsed.declared, Some(5));
    assert_eq!(parsed.sections.len(), 2);
    assert_eq!(parsed.remaining, 1);
}

#[test]
fn parse_without_count() {
    let parsed = parse_save_sections(vec![1, 0]);
    assert_eq!(parsed.declared, None);
    assert_eq!(parsed.sections.len(), 0);
    assert_eq!(parsed.remaining, 2);
}

#[test]
fn sections_that_do_not_fit() {
    assert!(save_fits_exec(&sample()));
    assert!(!save_fits_exec(&vec![1, 0, 0, 0, 1, 0, 0, 0, 0, 5, 0, 0, 0, 1]));
    assert!(save_fits_exec(&vec![1, 0]));
}

#[test]
fn save_section_new() {
    let s = SaveSection::new(3, 4, 2, vec![1, 2]);
    assert_eq!((s.index, s.unknown, s.size, s.data), (3, 4, 2, vec![1, 2]));
}
