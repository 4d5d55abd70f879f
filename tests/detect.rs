use unix_1972_bits::detect::{is_text, AOut, Magic};
use unix_1972_bits::util::{BlockLen, Bytes, U16Le, U32Me};

#[test]
fn text_detection() {
    assert!(is_text(b"hello, world\n\tmore\x1b"));
    assert!(is_text(b""));
    assert!(!is_text(b"nul\0inside"));
    assert!(!is_text(&[0x7f]));
    assert!(!is_text(&[0x80, b'a']));
}

#[test]
fn magic_numbers() {
    assert_eq!(Magic::detect(&[0x07, 0x01]), Some(Magic::AnyNormal));
    assert_eq!(Magic::detect(&[0x05, 0x01, 9, 9]), Some(Magic::V1Normal));
    assert_eq!(Magic::detect(b"#!/bin/sh"), Some(Magic::Shell));
    assert_eq!(Magic::detect(&[0x11, 0x89]), Some(Magic::V1Raw));
    assert_eq!(Magic::detect(&[0x07]), None);
    assert_eq!(Magic::detect(&[0x12, 0x34]), None);
    // Algol 68 needs its secondary number in the third word.
    let second = 0o107116u16.to_le_bytes();
    assert_eq!(Magic::detect(&[0, 0, 1, 1, second[0], second[1]]), Some(Magic::Algol68));
    assert_eq!(Magic::detect(&[0, 0, 1, 1, 0, 0]), None);
    assert_eq!(Magic::detect(&[0, 0, 1, 1]), None);
}

#[test]
fn magic_words_round_trip() {
    for m in [
        Magic::V1Normal,
        Magic::AnyNormal,
        Magic::AnyRoText,
        Magic::AnySplitID,
        Magic::BsdOverlay,
        Magic::BsdROverlay,
        Magic::V1Raw,
        Magic::Algol68,
        Magic::Shell,
    ] {
        assert_eq!(Magic::from_first(m.word()), Some(m));
    }
    assert_eq!(Magic::from_first(1), None);
    assert!(Magic::AnySplitID.is_aout());
    assert!(!Magic::Shell.is_aout());
    assert!(!Magic::V1Raw.is_aout());
}

#[test]
fn aout_header_sizes() {
    let words: [u16; 8] = [0o407, 100, 20, 30, 40, 0, 0, 1];
    let bytes: Vec<u8> = words.iter().flat_map(|w| w.to_le_bytes()).collect();
    let h = AOut::parse(&bytes).unwrap();
    assert_eq!(h.magic(), Magic::AnyNormal);
    assert_eq!(h.file_size(), Some(16 + 100 + 20 + 40));
    assert_eq!(h.text_size.get(), 100);

    let words: [u16; 8] = [0o405, 100, 20, 30, 40, 0, 0, 1];
    let bytes: Vec<u8> = words.iter().flat_map(|w| w.to_le_bytes()).collect();
    let h = AOut::parse(&bytes).unwrap();
    assert_eq!(h.file_size(), Some(100 + 20 + 30));

    assert!(AOut::parse(&bytes[..15]).is_none());
    assert!(AOut::parse(b"#!/bin/sh and more text").is_none());
}

#[test]
fn word_layouts() {
    assert_eq!(U16Le([0x34, 0x12]).get(), 0x1234);
    assert_eq!(U32Me([0x34, 0x12, 0x78, 0x56]).get(), 0x1234_5678);
}

#[test]
fn bytes_are_escaped() {
    assert_eq!(
        Bytes(b"a\\b\"c\t\n\r\0x\x001\x7f").text(),
        "\"a\\b\\\"c\\t\\n\\r\\0x\\0001\\177\""
    );
    assert_eq!(Bytes(b"").text(), "\"\"");
    assert_eq!(Bytes(&[0xff, 0]).text(), "\"\\377\\0\"");
}

#[test]
fn block_lengths() {
    assert_eq!(BlockLen(1024).text(), "1024 (2 * 512)");
    assert_eq!(BlockLen(512).text(), "512");
    assert_eq!(BlockLen(700).text(), "700");
    assert_eq!(BlockLen(0).text(), "0");
    assert_eq!(BlockLen(51200).text(), "51200 (100 * 512)");
}

#[test]
fn file_size_of_scripts_and_algol() {
    let zero = U16Le([0, 0]);
    let shell = AOut {
        magic: U16Le(*b"#!"),
        text_size: U16Le([1, 0]),
        data_size: zero,
        bss_size: zero,
        symtab_size: zero,
        entry_point: zero,
        unused: zero,
        flag: zero,
    };
    assert_eq!(shell.file_size(), None);
    let algol = AOut { magic: zero, ..shell.clone() };
    assert_eq!(algol.file_size(), None);
}
