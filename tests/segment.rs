use unix_1972_bits::interval::IntervalError;
use unix_1972_bits::segment::{SegmentError, SegmentHeader, SegmentKind, Segmenter};

/// Bytes that are neither text nor a magic number, distinct from their
/// neighbours.
fn noise(len: usize, seed: u8) -> Vec<u8> {
    (0..len)
        .map(|i| 0x80 | ((i as u8).wrapping_mul(7).wrapping_add(seed) & 0x7f))
        .collect()
}

fn layout(segmenter: &Segmenter) -> Vec<(usize, usize, SegmentKind)> {
    segmenter
        .segments()
        .iter()
        .map(|s| (s.offset, s.offset + s.data.len(), s.kind))
        .collect()
}

fn header(path: &str, offset: usize, len: usize) -> SegmentHeader {
    SegmentHeader { path: path.as_bytes().to_vec(), offset, len }
}

#[test]
fn end_to_end_scenario() {
    let mut tape = vec![0x41u8; 512];
    tape.extend_from_slice(&[0x42; 500]);
    tape.extend_from_slice(&[0x41; 12]);
    tape.extend_from_slice(&[0u8; 512]);
    let mut segmenter = Segmenter::new(&tape, 512);
    segmenter.segment_blocks();
    assert_eq!(
        layout(&segmenter),
        vec![
            (0, 512, SegmentKind::Original),
            (512, 1012, SegmentKind::Original),
            (1012, 1024, SegmentKind::Residue),
            (1024, 1536, SegmentKind::AllNul),
        ]
    );
}

#[test]
fn residue_tail_and_nul_blocks() {
    let a = noise(512, 1);
    let mut b = noise(512, 40);
    b[500..].copy_from_slice(&a[500..]);
    let mut tape = a.clone();
    tape.extend_from_slice(&b);
    tape.extend_from_slice(&[0u8; 512]);
    assert_eq!(tape.len(), 1536);
    let mut segmenter = Segmenter::new(&tape, 512);
    segmenter.segment_blocks();
    assert_eq!(
        layout(&segmenter),
        vec![
            (0, 512, SegmentKind::Original),
            (512, 1012, SegmentKind::Original),
            (1012, 1024, SegmentKind::Residue),
            (1024, 1536, SegmentKind::AllNul),
        ]
    );
    assert_eq!(segmenter.segments()[2].data, &a[500..]);
}

#[test]
fn segments_tile_the_tape() {
    let mut tape = noise(700, 3);
    tape.extend_from_slice(&[0xFF; 1024]);
    tape.extend_from_slice(&noise(300, 9));
    tape.extend_from_slice(&[0u8; 600]);
    let mut segmenter = Segmenter::new(&tape, 512);
    segmenter.segment_blocks();
    let mut next = 0;
    for s in segmenter.segments() {
        assert_eq!(s.offset, next);
        assert!(!s.data.is_empty());
        assert_eq!(s.data, &tape[s.offset..s.offset + s.data.len()]);
        next = s.offset + s.data.len();
    }
    assert_eq!(next, tape.len());
}

#[test]
fn short_shared_tail_is_not_residue() {
    let a = noise(512, 1);
    let mut b = noise(512, 40);
    b[510..].copy_from_slice(&a[510..]);
    let mut tape = a.clone();
    tape.extend_from_slice(&b);
    let mut segmenter = Segmenter::new(&tape, 512);
    segmenter.segment_blocks();
    assert_eq!(
        layout(&segmenter),
        vec![(0, 512, SegmentKind::Original), (512, 1024, SegmentKind::Original)]
    );
}

#[test]
fn magic_number_starts_segment() {
    let mut tape = noise(512, 5);
    let mut second = noise(512, 11);
    second[0] = b'#';
    second[1] = b'!';
    tape.extend_from_slice(&second);
    let mut segmenter = Segmenter::new(&tape, 512);
    segmenter.segment_blocks();
    assert_eq!(
        layout(&segmenter),
        vec![(0, 512, SegmentKind::Original), (512, 1024, SegmentKind::Original)]
    );
}

#[test]
fn known_region_bounds_uniform_run() {
    let mut tape = noise(550, 2);
    tape.resize(2048, 0xFF);
    let mut segmenter = Segmenter::new(&tape, 512);
    segmenter.add_header(header("/etc/a", 512, 100)).unwrap();
    segmenter.segment_blocks();
    for (start, _, kind) in layout(&segmenter) {
        if kind == SegmentKind::AllFF {
            assert!(!(512 < start && start < 612), "run starts at {start}");
        }
    }
    assert_eq!(
        layout(&segmenter),
        vec![
            (0, 512, SegmentKind::Original),
            (512, 1024, SegmentKind::Original),
            (1024, 2048, SegmentKind::AllFF),
        ]
    );
}

#[test]
fn uniform_run_stops_at_header() {
    let mut tape = vec![0xFFu8; 1536];
    tape.extend_from_slice(&noise(512, 7));
    let mut segmenter = Segmenter::new(&tape, 512);
    segmenter.add_header(header("/bin/x", 1024, 600)).unwrap();
    segmenter.segment_blocks();
    // The run stops where the known file starts, and the file, whose range
    // ends at 1624, is not cut at 1536.
    assert_eq!(
        layout(&segmenter),
        vec![(0, 1024, SegmentKind::AllFF), (1024, 2048, SegmentKind::Original)]
    );
    assert_eq!(segmenter.header_for_offset(1024).unwrap().path, b"/bin/x".to_vec());
    assert!(segmenter.header_for_offset(512).is_none());
    assert!(segmenter.header_for_offset(1025).is_none());
    assert_eq!(segmenter.header_for_block(2).unwrap().len, 600);
}

#[test]
fn nul_run_inside_zeros_is_joined() {
    let mut tape = noise(510, 4);
    tape.resize(1536, 0);
    tape.extend_from_slice(&noise(512, 8));
    tape[1536] = 0;
    let mut segmenter = Segmenter::new(&tape, 512);
    segmenter.segment_blocks();
    assert_eq!(
        layout(&segmenter),
        vec![(0, 1536, SegmentKind::Original), (1536, 2048, SegmentKind::Original)]
    );
}

#[test]
fn residue_after_joined_run_compares_with_the_run() {
    let tape = [1u8, 2, 3, 0, 0, 0, 0, 0, 0, 2, 3, 0];
    let mut segmenter = Segmenter::new(&tape, 4);
    segmenter.segment_blocks();
    assert_eq!(
        layout(&segmenter),
        vec![(0, 8, SegmentKind::Original), (8, 12, SegmentKind::Original)]
    );
}

#[test]
fn first_block_residue_is_its_nul_tail() {
    let mut tape = noise(400, 3);
    tape.resize(512, 0);
    tape.extend_from_slice(&noise(512, 9));
    let mut segmenter = Segmenter::new(&tape, 512);
    segmenter.segment_blocks();
    assert_eq!(
        layout(&segmenter),
        vec![
            (0, 400, SegmentKind::Original),
            (400, 512, SegmentKind::Residue),
            (512, 1024, SegmentKind::Original),
        ]
    );
}

#[test]
fn text_keeps_its_line_feed() {
    let mut a = vec![b'x'; 512];
    a[101] = b'\n';
    let mut b = vec![b'y'; 512];
    b[101..].copy_from_slice(&a[101..]);
    let mut tape = a.clone();
    tape.extend_from_slice(&b);
    let mut segmenter = Segmenter::new(&tape, 512);
    segmenter.segment_blocks();
    // The tail from offset 613 repeats block 0 and starts with a line feed,
    // which stays with the text before it.
    assert_eq!(
        layout(&segmenter),
        vec![
            (0, 512, SegmentKind::Original),
            (512, 614, SegmentKind::Original),
            (614, 1024, SegmentKind::Residue),
        ]
    );
}

#[test]
fn add_header_errors() {
    let tape = noise(2048, 1);
    let mut segmenter = Segmenter::new(&tape, 512);
    assert_eq!(segmenter.add_header(header("a", 100, 10)), Err(SegmentError::Unaligned));
    assert_eq!(
        segmenter.add_header(header("a", 512, 0)),
        Err(SegmentError::Interval(IntervalError::Empty))
    );
    assert_eq!(
        segmenter.add_header(header("a", 1536, 1000)),
        Err(SegmentError::Interval(IntervalError::NotDisjoint))
    );
    assert_eq!(
        segmenter.add_header(header("a", 0, usize::MAX)),
        Err(SegmentError::Interval(IntervalError::NotDisjoint))
    );
    assert_eq!(segmenter.add_header(header("a", 0, 600)), Ok(()));
    assert_eq!(
        segmenter.add_header(header("b", 512, 10)),
        Err(SegmentError::Interval(IntervalError::NotDisjoint))
    );
    assert_eq!(segmenter.add_header(header("a", 1024, 10)), Err(SegmentError::DuplicatePath));
    // A refused header claims nothing.
    assert_eq!(segmenter.add_header(header("d", 1024, 10)), Ok(()));
    assert_eq!(segmenter.add_header(header("c", 1536, 512)), Ok(()));
}

#[test]
fn header_range_spans_its_length() {
    let h = header("f", 1024, 77);
    assert_eq!(h.range(), 1024..1101);
}

#[test]
fn no_cut_inside_known_region() {
    let mut tape = noise(512, 1);
    tape.extend_from_slice(&[0u8; 512]);
    tape.extend_from_slice(&noise(512, 20));
    tape.extend_from_slice(&noise(512, 60));
    let mut free = Segmenter::new(&tape, 512);
    free.segment_blocks();
    assert!(layout(&free).contains(&(512, 1024, SegmentKind::AllNul)));

    let mut walled = Segmenter::new(&tape, 512);
    walled.add_header(header("/usr/f", 0, 1500)).unwrap();
    walled.segment_blocks();
    assert_eq!(
        layout(&walled),
        vec![(0, 1536, SegmentKind::Original), (1536, 2048, SegmentKind::Original)]
    );
}

#[test]
fn residue_inside_known_region_is_ignored() {
    let a = noise(512, 1);
    let mut b = noise(512, 40);
    b[500..].copy_from_slice(&a[500..]);
    let mut tape = a.clone();
    tape.extend_from_slice(&b);
    let mut segmenter = Segmenter::new(&tape, 512);
    segmenter.add_header(header("/usr/g", 0, 1020)).unwrap();
    segmenter.segment_blocks();
    assert_eq!(layout(&segmenter), vec![(0, 1024, SegmentKind::Original)]);

    let mut exact = Segmenter::new(&tape, 512);
    exact.add_header(header("/usr/g", 0, 1012)).unwrap();
    exact.segment_blocks();
    assert_eq!(
        layout(&exact),
        vec![(0, 1012, SegmentKind::Original), (1012, 1024, SegmentKind::Residue)]
    );
}

#[test]
fn uniform_run_does_not_end_inside_known_region() {
    let mut tape = vec![0u8; 1024];
    tape.extend_from_slice(&noise(512, 33));
    tape.extend_from_slice(&noise(512, 77));
    let mut free = Segmenter::new(&tape, 512);
    free.segment_blocks();
    assert_eq!(
        layout(&free),
        vec![
            (0, 1024, SegmentKind::AllNul),
            (1024, 1536, SegmentKind::Original),
            (1536, 2048, SegmentKind::Original),
        ]
    );

    let mut walled = Segmenter::new(&tape, 512);
    walled.add_header(header("/usr/h", 0, 1500)).unwrap();
    walled.segment_blocks();
    assert_eq!(
        layout(&walled),
        vec![(0, 1536, SegmentKind::Original), (1536, 2048, SegmentKind::Original)]
    );
}

#[test]
fn line_feed_heading_block_residue_goes_back() {
    let tape = b"\nabc\nabc";
    let mut segmenter = Segmenter::new(tape, 4);
    segmenter.segment_blocks();
    assert_eq!(
        layout(&segmenter),
        vec![(0, 5, SegmentKind::Original), (5, 8, SegmentKind::Residue)]
    );
}

#[test]
fn line_feed_stays_when_text_already_ends_with_one() {
    let tape = b"abc\n\nbc\n";
    let mut segmenter = Segmenter::new(tape, 4);
    segmenter.segment_blocks();
    // Block 1 repeats the tail of block 0 but for its first byte, a line
    // feed, so the segment before the residue already ends with one.
    assert_eq!(
        layout(&segmenter),
        vec![(0, 4, SegmentKind::Original), (4, 5, SegmentKind::Original), (5, 8, SegmentKind::Residue)]
    );
}
