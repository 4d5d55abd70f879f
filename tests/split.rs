use unix_1972_bits::split::{Segmenter, Split, SplitDir, SplitKind};

fn splits_of(segmenter: &Segmenter) -> Vec<(usize, usize, SplitKind)> {
    segmenter
        .splits()
        .iter()
        .map(|s| (s.start(), s.end(), s.kind()))
        .collect()
}

/// Two 16-byte chunks whose last `shared` bytes are the same.
fn two_chunks(shared: usize) -> Vec<u8> {
    let a: Vec<u8> = (1..=16).collect();
    let mut b: Vec<u8> = (101..=116).collect();
    b[16 - shared..].copy_from_slice(&a[16 - shared..]);
    let mut tape = a;
    tape.extend_from_slice(&b);
    tape
}

#[test]
fn one_shared_byte_is_not_residue() {
    let tape = two_chunks(1);
    let mut segmenter = Segmenter::new(&tape, 16);
    segmenter.split_blocks();
    assert_eq!(
        splits_of(&segmenter),
        vec![(0, 0, SplitKind::Block), (16, 16, SplitKind::Block)]
    );
}

#[test]
fn ten_shared_bytes_are_residue() {
    let tape = two_chunks(10);
    let mut segmenter = Segmenter::new(&tape, 16);
    segmenter.split_blocks();
    assert_eq!(
        splits_of(&segmenter),
        vec![
            (0, 0, SplitKind::Block),
            (16, 16, SplitKind::Block),
            (22, 32, SplitKind::Residue),
        ]
    );
}

#[test]
fn first_block_is_compared_with_nuls() {
    let mut tape = vec![7u8; 10];
    tape.extend_from_slice(&[0u8; 6]);
    let mut segmenter = Segmenter::new(&tape, 16);
    segmenter.split_blocks();
    assert_eq!(
        splits_of(&segmenter),
        vec![(0, 0, SplitKind::Block), (10, 16, SplitKind::Residue)]
    );
}

#[test]
fn ff_runs_are_bracketed() {
    let mut tape = vec![1u8; 8];
    tape.extend_from_slice(&[0xFF; 16]);
    tape.extend_from_slice(&[2u8; 8]);
    tape.extend_from_slice(&[0xFF; 8]);
    let mut segmenter = Segmenter::new(&tape, 8);
    segmenter.split_ff_blocks();
    assert_eq!(
        splits_of(&segmenter),
        vec![
            (8, 8, SplitKind::FF),
            (24, 24, SplitKind::FF),
            (32, 32, SplitKind::FF),
            (40, 40, SplitKind::FF),
        ]
    );
}

#[test]
fn residue_heads_get_their_own_splits() {
    // Block 1 repeats the tail of block 0 from offset 4 on; that tail starts
    // with two line feeds.
    let a = b"abcd\n\nefghijklm".to_vec();
    let mut tape = a.clone();
    tape.push(b'n');
    let mut b = b"wxyz".to_vec();
    b.extend_from_slice(&a[4..]);
    b.push(b'n');
    tape.extend_from_slice(&b);
    let mut segmenter = Segmenter::new(&tape, 16);
    segmenter.split_blocks();
    segmenter.split_lf_residue();
    assert_eq!(
        splits_of(&segmenter),
        vec![
            (0, 0, SplitKind::Block),
            (16, 16, SplitKind::Block),
            (20, 32, SplitKind::Residue),
            (21, 22, SplitKind::LfResidue),
        ]
    );
}

#[test]
fn nul_residue_covers_leading_nuls() {
    let mut a = vec![5u8; 16];
    a[8] = 0;
    a[9] = 0;
    let mut b = vec![6u8; 16];
    b[8..].copy_from_slice(&a[8..]);
    let mut tape = a;
    tape.extend_from_slice(&b);
    let mut segmenter = Segmenter::new(&tape, 16);
    segmenter.split_all();
    assert_eq!(
        splits_of(&segmenter),
        vec![
            (0, 0, SplitKind::Block),
            (16, 16, SplitKind::Block),
            (24, 26, SplitKind::NulResidue),
            (24, 32, SplitKind::Residue),
        ]
    );
}

#[test]
fn equal_offsets_order_by_priority() {
    let tape = vec![0xFFu8; 16];
    let mut segmenter = Segmenter::new(&tape, 16);
    segmenter.split_all();
    assert_eq!(
        splits_of(&segmenter),
        vec![
            (0, 0, SplitKind::Block),
            (0, 0, SplitKind::FF),
            (16, 16, SplitKind::FF),
        ]
    );
}

#[test]
fn directions_of_kinds() {
    assert_eq!(SplitKind::Block.direction(), SplitDir::Start);
    for kind in [
        SplitKind::Residue,
        SplitKind::NulResidue,
        SplitKind::LfResidue,
        SplitKind::AOutSize,
    ] {
        assert_eq!(kind.direction(), SplitDir::End);
    }
    assert_eq!(SplitKind::Magic.direction(), SplitDir::Both);
    assert_eq!(SplitKind::FF.direction(), SplitDir::Both);
    assert!(SplitKind::Magic.priority() > SplitKind::Block.priority());
    assert!(SplitKind::FF.priority() > SplitKind::Magic.priority());
}

#[test]
fn split_accessors() {
    let s = Split::new(3..9, SplitKind::Residue);
    assert_eq!(s.offsets(), 3..9);
    assert_eq!((s.start(), s.end(), s.kind()), (3, 9, SplitKind::Residue));
    let p = Split::new_point(12, SplitKind::Magic);
    assert_eq!(p.offsets(), 12..12);
}

#[test]
fn magic_wins_over_block_boundary() {
    let mut tape: Vec<u8> = (1..=16).collect();
    tape.extend_from_slice(b"#!/bin/sh\necho 1");
    let mut segmenter = Segmenter::new(&tape, 16);
    segmenter.split_all();
    assert_eq!(segmenter.kind_at(16), Some(SplitKind::Magic));
    assert_eq!(segmenter.kind_at(0), Some(SplitKind::Block));
    assert_eq!(segmenter.kind_at(5), None);
    assert_eq!(
        splits_of(&segmenter),
        vec![
            (0, 0, SplitKind::Block),
            (16, 16, SplitKind::Block),
            (16, 16, SplitKind::Magic),
        ]
    );
}

#[test]
fn magic_pass_marks_block_starts_only() {
    let mut tape = b"ab#!".to_vec();
    tape.extend_from_slice(b"#!xy");
    let mut segmenter = Segmenter::new(&tape, 4);
    segmenter.split_magic();
    assert_eq!(splits_of(&segmenter), vec![(4, 4, SplitKind::Magic)]);
}
