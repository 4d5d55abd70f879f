use unix_1972_bits::block::{SegmentKind, Segmenter};
use unix_1972_bits::interval::IntervalError;
use unix_1972_bits::s1::{FileSegment, Segments};

fn file(path: &str, offset: usize, len: usize) -> FileSegment {
    FileSegment { path: path.as_bytes().to_vec(), offset, len }
}

#[test]
fn known_files_stay_disjoint() {
    let data = vec![0u8; 4096];
    let mut segments = Segments::new(&data);
    assert_eq!(segments.insert(file("a", 0, 100)), Ok(()));
    assert_eq!(segments.insert(file("b", 50, 100)), Err(IntervalError::NotDisjoint));
    assert_eq!(segments.insert(file("c", 4000, 200)), Err(IntervalError::NotDisjoint));
    assert_eq!(segments.insert(file("d", 200, 0)), Err(IntervalError::Empty));
    assert_eq!(segments.insert(file("e", 100, 100)), Ok(()));
    assert_eq!(segments.segments.len(), 2);
    assert_eq!(segments.intervals.intervals().to_vec(), vec![0..200, 4096..usize::MAX]);
    assert_eq!(file("f", 10, 5).range(), 10..15);
}

#[test]
fn copy_segmentation() {
    let a: Vec<u8> = (0..512).map(|i| 0x80 | (i as u8 & 0x7f)).collect();
    let mut b: Vec<u8> = (0..512).map(|i| 0x80 | ((i as u8).wrapping_add(1) & 0x7f)).collect();
    b[400..].copy_from_slice(&a[400..]);
    let mut tape = a.clone();
    tape.extend_from_slice(&b);
    tape.extend_from_slice(&[0xFF; 1024]);
    let mut segmenter = Segmenter::new(&tape, 512);
    segmenter.add_header(file("/x", 1536, 512)).unwrap();
    assert_eq!(segmenter.add_header(file("/y", 1600, 10)), Err(IntervalError::NotDisjoint));
    segmenter.segment_blocks();
    let got: Vec<_> = segmenter
        .segments
        .iter()
        .map(|s| (s.offset, s.offset + s.data.len(), s.kind))
        .collect();
    assert_eq!(
        got,
        vec![
            (0, 912, SegmentKind::Original),
            (912, 1024, SegmentKind::Copy),
            (1024, 1536, SegmentKind::AllFF),
            (1536, 2048, SegmentKind::AllFF),
        ]
    );
    assert!(segmenter.headers.contains_key(&1536));
}
