use unix_1972_bits::export::Export;
use unix_1972_bits::segment::{SegmentHeader, SegmentKind, Segmenter};

fn scenario() -> Vec<u8> {
    let mut tape = vec![0x41u8; 512];
    tape.extend_from_slice(&[0x42; 500]);
    tape.extend_from_slice(&[0x41; 12]);
    tape.extend_from_slice(&[0u8; 512]);
    tape
}

fn names(exports: &[Export]) -> Vec<String> {
    exports.iter().map(|e| String::from_utf8(e.name.clone()).unwrap()).collect()
}

#[test]
fn synthetic_names_tell_kind_and_contents() {
    let tape = scenario();
    let mut segmenter = Segmenter::new(&tape, 512);
    segmenter.segment_blocks();
    let exports = segmenter.exports(false);
    assert_eq!(
        names(&exports),
        vec![
            "segments/0.txt",
            "segments/512.txt",
            "segments/1012.copy.txt",
            "segments/1024.nul.bin",
        ]
    );
    assert_eq!(exports[2].kind, SegmentKind::Residue);
    assert_eq!((exports[3].offset, exports[3].len), (1024, 512));
    assert!(exports.iter().all(|e| e.joined_residue.is_none() && e.declared_len.is_none()));
    assert_eq!(exports[1].data(&tape).unwrap(), vec![0x42; 500]);
}

#[test]
fn residue_joins_the_segment_before_it() {
    let tape = scenario();
    let mut segmenter = Segmenter::new(&tape, 512);
    segmenter.segment_blocks();
    let exports = segmenter.exports(true);
    assert_eq!(
        names(&exports),
        vec!["segments/0.txt", "segments/512.txt", "segments/1024.nul.bin"]
    );
    assert_eq!(exports[1].joined_residue, Some(12));
    let mut expected = vec![0x42u8; 500];
    expected.extend_from_slice(b"[SPLIT]");
    expected.extend_from_slice(&[0x41; 12]);
    assert_eq!(exports[1].data(&tape).unwrap(), expected);
}

#[test]
fn known_header_names_its_segment() {
    let tape = scenario();
    let mut segmenter = Segmenter::new(&tape, 512);
    segmenter
        .add_header(SegmentHeader { path: b"/usr/a".to_vec(), offset: 0, len: 500 })
        .unwrap();
    segmenter.segment_blocks();
    let exports = segmenter.exports(false);
    assert_eq!(names(&exports)[0], "usr/a");
    assert_eq!(exports[0].declared_len, Some(500));
    assert_eq!(names(&exports)[1], "segments/512.txt");
}

#[test]
fn export_outside_tape_has_no_data() {
    let e = Export {
        name: b"x".to_vec(),
        offset: 10,
        len: 5,
        joined_residue: Some(3),
        declared_len: None,
        kind: SegmentKind::Original,
    };
    assert_eq!(e.data(&[0u8; 17]), None);
    assert_eq!(e.data(&[7u8; 18]).unwrap().len(), 5 + 7 + 3);
}
