//! Partitioning of a tape into segments that are likely to be files.

use std::ops::Range;

use vstd::prelude::*;

use crate::detect::{all_text, is_text};
use crate::split::{nonzero_end, zeros};
use crate::interval::{range_points, IntervalError, IntervalSet};

verus! {

/// Tool for partitioning a tape into segments which are likely to be files.
pub struct Segmenter<'a> {
    tape: &'a [u8],
    block_size: usize,
    prev_block: &'a [u8],
    segments: Vec<Segment<'a>>,
    headers: Vec<Option<SegmentHeader>>,
    header_intervals: IntervalSet,
    paths: Vec<Vec<u8>>,
}

/// A contiguous part of the tape and why it was cut there.
#[derive(Clone, PartialEq, Eq)]
pub struct Segment<'a> {
    /// The bytes of the segment.
    pub data: &'a [u8],
    /// The offset in the tape of the segment's first byte.
    pub offset: usize,
    /// Why the segment was cut where it was.
    pub kind: SegmentKind,
}

/// The reason a segment was cut where it was.
#[derive(Clone, Copy, Debug, PartialEq, Eq, Structural)]
pub enum SegmentKind {
    /// Contents that no heuristic claimed.
    Original,
    /// The stale tail of the dumping program's buffer.
    Residue,
    /// Whole blocks of NUL bytes.
    AllNul,
    /// Whole blocks of 0xFF bytes.
    AllFF,
}

/// A known file placement: its path, and the range of the tape it occupies.
#[derive(Clone, Debug, PartialEq, Eq)]
pub struct SegmentHeader {
    /// The path of the file.
    pub path: Vec<u8>,
    /// The offset in the tape of the file's first byte.
    pub offset: usize,
    /// The length of the file.
    pub len: usize,
}

/// Why [`Segmenter::add_header`] refused a header.
#[derive(Clone, Copy, Debug, PartialEq, Eq, Structural)]
pub enum SegmentError {
    /// The header does not start at a block boundary.
    Unaligned,
    /// The header's range is empty, leaves the tape, or meets a range
    /// already claimed.
    Interval(IntervalError),
    /// Another header has the same path.
    DuplicatePath,
}

/// A segment as the contracts see it: its start, its end and its kind.
pub type SegmentView = (int, int, SegmentKind);

impl<'a> Segment<'a> {
    /// The start, end and kind of the segment.
    pub open spec fn view_spec(&self) -> SegmentView {
        (self.offset as int, self.offset + self.data@.len(), self.kind)
    }
}

/// The points of the tape that `h` claims.
pub open spec fn header_points(h: SegmentHeader) -> Set<int> {
    Set::new(|p: int| h.offset <= p < h.offset + h.len)
}

/// The number of blocks of `bs` bytes that `len` bytes take up, the last one
/// perhaps short.
pub open spec fn block_count(len: int, bs: int) -> int {
    if len % bs == 0 { len / bs } else { len / bs + 1 }
}

/// Each segment of `segs` holds the bytes of `tape` at its place.
pub open spec fn segments_in(segs: Seq<Segment>, tape: Seq<u8>) -> bool {
    forall|i: int| 0 <= i < segs.len() ==> #[trigger] segment_in(segs[i], tape)
}

/// The segment holds the bytes of `tape` at its place.
pub open spec fn segment_in(seg: Segment, tape: Seq<u8>) -> bool {
    &&& seg.offset + seg.data@.len() <= tape.len()
    &&& seg.data@ == tape.subrange(seg.offset as int, seg.offset + seg.data@.len())
}

/// Whether `paths` holds `p`.
pub open spec fn has_path(paths: Seq<Seq<u8>>, p: Seq<u8>) -> bool {
    exists|i: int| 0 <= i < paths.len() && #[trigger] paths[i] == p
}

/// The one-segment sequence of `start..end` of `kind`, or nothing if the
/// range is empty.
pub open spec fn piece<K>(start: int, end: int, kind: K) -> Seq<(int, int, K)> {
    if start != end {
        seq![(start, end, kind)]
    } else {
        seq![]
    }
}

/// Whether a known header starts at `off`, a block boundary inside the tape.
pub open spec fn header_at(hdr: Seq<Option<SegmentHeader>>, len: int, bs: int, off: int) -> bool {
    &&& off % bs == 0
    &&& 0 <= off < len
    &&& 0 <= off / bs < hdr.len()
    &&& hdr[off / bs] is Some
}

/// Whether `p` lies strictly inside the range that header `h` claims.
pub open spec fn strictly_inside(h: SegmentHeader, p: int) -> bool {
    h.offset < p < h.offset + h.len
}

/// Whether `p` lies strictly inside the range of a known header: no
/// heuristic may cut there.
pub open spec fn inside_known(hdr: Seq<Option<SegmentHeader>>, p: int) -> bool {
    exists|b: int| 0 <= b < hdr.len() && #[trigger] hdr[b] is Some && strictly_inside(hdr[b].unwrap(), p)
}

/// The offsets at which a known header starts.
pub open spec fn header_stops(hdr: Seq<Option<SegmentHeader>>, len: int, bs: int) -> Set<int> {
    Set::new(|off: int| header_at(hdr, len, bs, off))
}

/// Whether every byte of `s` is `b`.
pub open spec fn all_byte(s: Seq<u8>, b: u8) -> bool {
    forall|i: int| 0 <= i < s.len() ==> #[trigger] s[i] == b
}

/// The end of the run of whole blocks of `byte` that starts at `pos`; the
/// run stops after a block that ends at one of `stops`.
#[verifier::opaque]
pub open spec fn uniform_end(
    tape: Seq<u8>,
    bs: int,
    stops: Set<int>,
    pos: int,
    byte: u8,
) -> int
    decreases tape.len() - pos,
{
    if bs > 0 && 0 <= pos && pos + bs <= tape.len() && all_byte(tape.subrange(pos, pos + bs), byte) {
        if stops.contains(pos + bs) {
            pos + bs
        } else {
            uniform_end(tape, bs, stops, pos + bs, byte)
        }
    } else {
        pos
    }
}

/// One past the last index below `n` at which `block` and `prev` differ, or
/// zero: from there on the two share their tail.
#[verifier::opaque]
pub open spec fn diff_end(block: Seq<u8>, prev: Seq<u8>, n: int) -> int
    decreases n,
{
    if n <= 0 {
        0
    } else if block[n - 1] != prev[n - 1] {
        n
    } else {
        diff_end(block, prev, n - 1)
    }
}

/// A run of uniform blocks from `pos` is empty, or whole blocks that stay in
/// the tape.
pub proof fn lemma_uniform_end_bounds(
    tape: Seq<u8>,
    bs: int,
    stops: Set<int>,
    pos: int,
    byte: u8,
)
    requires
        bs > 0,
        0 <= pos,
    ensures
        uniform_end(tape, bs, stops, pos, byte) == pos || (pos + bs <= uniform_end(
            tape,
            bs,
            stops,
            pos,
            byte,
        ) <= tape.len()),
    decreases tape.len() - pos,
{
    reveal(uniform_end);
    if pos + bs <= tape.len() && all_byte(tape.subrange(pos, pos + bs), byte) && !stops.contains(pos + bs) {
        lemma_uniform_end_bounds(tape, bs, stops, pos + bs, byte);
    }
}

/// The run of whole NUL blocks, or else of whole 0xFF blocks, that starts
/// at `pos` and makes a segment of its own: its end and kind. There is none
/// where either end would lie strictly inside a known header's range.
#[verifier::opaque]
pub open spec fn uniform_run(
    tape: Seq<u8>,
    bs: int,
    hdr: Seq<Option<SegmentHeader>>,
    pos: int,
) -> Option<(int, SegmentKind)> {
    let stops = header_stops(hdr, tape.len() as int, bs);
    let u0 = uniform_end(tape, bs, stops, pos, 0);
    let u1 = uniform_end(tape, bs, stops, pos, 0xFF);
    let ue = if u0 != pos { u0 } else { u1 };
    if !inside_known(hdr, pos) && ue != pos && !inside_known(hdr, ue) {
        Some((ue, if u0 != pos { SegmentKind::AllNul } else { SegmentKind::AllFF }))
    } else {
        None
    }
}

/// Whether a residue that would start at `split0` gives its first byte, a
/// line feed, back to the segment from `lead`: the segment is not empty, is
/// text, and does not already end with a line feed.
pub open spec fn gives_back_lf(tape: Seq<u8>, lead: int, split0: int) -> bool {
    &&& lead != split0
    &&& tape[split0 - 1] != 0x0a
    &&& split0 < tape.len()
    &&& tape[split0] == 0x0a
    &&& all_text(tape.subrange(lead, split0))
}

/// The residue of the block from `pos` to `end`, if the block shares a tail
/// of more than two bytes with `prev`, or with NULs for the first block,
/// where `prev` is empty: the start of the segment it closes, and where the
/// residue starts. The current segment started at `seg`, and `free` tells
/// whether the block boundary at `pos` may start a segment.
///
/// The segment that the residue closes starts at the block boundary if that
/// is free, else at `seg`; but a residue that starts right at a free block
/// boundary closes the segment from `seg` when it gives its line feed back
/// to it. A residue gives back a line feed that starts it to a text segment
/// that would otherwise not end with one, and neither of its ends may lie
/// strictly inside a known header's range.
#[verifier::opaque]
pub open spec fn residue_cut(
    tape: Seq<u8>,
    hdr: Seq<Option<SegmentHeader>>,
    seg: int,
    pos: int,
    end: int,
    prev: Seq<u8>,
    free: bool,
) -> Option<(int, int)> {
    let block = tape.subrange(pos, end);
    let base = if prev.len() == 0 { zeros(block.len() as int) } else { prev };
    if base.len() >= block.len() {
        let split0 = pos + diff_end(block, base, block.len() as int);
        let lead0 = if free { pos } else { seg };
        let (lead, split) = if gives_back_lf(tape, lead0, split0) {
            (lead0, split0 + 1)
        } else if split0 == pos && gives_back_lf(tape, seg, split0) {
            (seg, split0 + 1)
        } else {
            (lead0, split0)
        };
        if split + 2 < end && !inside_known(hdr, split) && !inside_known(hdr, end) {
            Some((lead, split))
        } else {
            None
        }
    } else {
        None
    }
}

/// A uniform run that makes a segment covers whole blocks of the tape, and
/// neither of its ends lies inside a known header's range.
pub proof fn lemma_uniform_run(tape: Seq<u8>, bs: int, hdr: Seq<Option<SegmentHeader>>, pos: int)
    requires
        bs > 0,
        0 <= pos,
    ensures
        uniform_run(tape, bs, hdr, pos) matches Some((ue, k)) ==> pos + bs <= ue <= tape.len()
            && !inside_known(hdr, pos) && !inside_known(hdr, ue),
{
    reveal(uniform_run);
    lemma_uniform_end_bounds(tape, bs, header_stops(hdr, tape.len() as int, bs), pos, 0);
    lemma_uniform_end_bounds(tape, bs, header_stops(hdr, tape.len() as int, bs), pos, 0xFF);
}

/// A residue lies in the block, at least three bytes before its end, and
/// neither of its ends lies inside a known header's range; the segment it
/// closes starts at the current segment's start or at a free block boundary.
pub proof fn lemma_residue_cut(
    tape: Seq<u8>,
    hdr: Seq<Option<SegmentHeader>>,
    seg: int,
    pos: int,
    end: int,
    prev: Seq<u8>,
    free: bool,
)
    requires
        0 <= seg <= pos < end <= tape.len(),
    ensures
        residue_cut(tape, hdr, seg, pos, end, prev, free) matches Some((lead, split)) ==> {
            &&& lead == seg || (lead == pos && free)
            &&& seg <= lead <= pos <= split
            &&& split + 2 < end
            &&& !inside_known(hdr, split)
            &&& !inside_known(hdr, end)
        },
{
    reveal(residue_cut);
    let block = tape.subrange(pos, end);
    let base = if prev.len() == 0 { zeros(block.len() as int) } else { prev };
    lemma_diff_end_bounds(block, base, block.len() as int);
}

#[via_fn]
proof fn segment_run_decreases(
    tape: Seq<u8>,
    bs: int,
    hdr: Seq<Option<SegmentHeader>>,
    seg: int,
    pos: int,
    prev: Seq<u8>,
) {
    if !(bs <= 0 || pos < 0 || pos >= tape.len() || seg < 0 || seg > pos) {
        lemma_uniform_run(tape, bs, hdr, pos);
    }
}

/// The segments that segmentation emits from the state where the current
/// segment starts at `seg`, the next block at `pos`, and `prev` is the block
/// before, or empty at the start of the tape.
///
/// Each block boundary starts a segment, unless it lies strictly inside the
/// range of a known header, or starts a run of NUL blocks with a NUL byte on
/// both sides, which stays inside the segment before it. A run of whole NUL
/// or 0xFF blocks is a segment of its own; else the residue of the block, if
/// any, is a segment of its own. What is left at the end of the tape is one
/// last segment.
pub open spec fn segment_run(
    tape: Seq<u8>,
    bs: int,
    hdr: Seq<Option<SegmentHeader>>,
    seg: int,
    pos: int,
    prev: Seq<u8>,
) -> Seq<SegmentView>
    decreases tape.len() - pos,
    via segment_run_decreases
{
    if bs <= 0 || pos < 0 || pos >= tape.len() || seg < 0 || seg > pos {
        piece(seg, tape.len() as int, SegmentKind::Original)
    } else {
        let end = if pos + bs < tape.len() { pos + bs } else { tape.len() as int };
        let block = tape.subrange(pos, end);
        match uniform_run(tape, bs, hdr, pos) {
            Some((ue, kind)) => if seg != pos && kind == SegmentKind::AllNul && tape[pos - 1] == 0
                && ue < tape.len() && tape[ue] == 0 {
                segment_run(tape, bs, hdr, seg, ue, tape.subrange(ue - bs, ue))
            } else {
                piece(seg, pos, SegmentKind::Original) + seq![(pos, ue, kind)] + segment_run(
                    tape,
                    bs,
                    hdr,
                    ue,
                    ue,
                    tape.subrange(ue - bs, ue),
                )
            },
            None => {
                let free = !inside_known(hdr, pos);
                match residue_cut(tape, hdr, seg, pos, end, prev, free) {
                    Some((lead, split)) => piece(seg, lead, SegmentKind::Original) + piece(
                        lead,
                        split,
                        SegmentKind::Original,
                    ) + seq![(split, end, SegmentKind::Residue)] + segment_run(
                        tape,
                        bs,
                        hdr,
                        end,
                        end,
                        block,
                    ),
                    None => {
                        let head = if free {
                            piece(seg, pos, SegmentKind::Original)
                        } else {
                            seq![]
                        };
                        let seg1 = if free { pos } else { seg };
                        head + segment_run(tape, bs, hdr, seg1, end, block)
                    },
                }
            },
        }
    }
}

/// The segments `segs` tile the range from `a` to `b`: each is non-empty,
/// the first starts at `a`, each next one starts where the one before ends,
/// and the last ends at `b`. No segments tile an empty range.
pub open spec fn tiles<K>(segs: Seq<(int, int, K)>, a: int, b: int) -> bool {
    if segs.len() == 0 {
        a == b
    } else {
        &&& segs[0].0 == a
        &&& segs[segs.len() - 1].1 == b
        &&& forall|k: int| 0 <= k < segs.len() ==> (#[trigger] segs[k]).0 < segs[k].1
        &&& forall|k: int| 0 <= k < segs.len() - 1 ==> (#[trigger] segs[k]).1 == segs[k + 1].0
    }
}

/// Two tilings that meet make one.
pub proof fn lemma_tiles_concat<K>(s: Seq<(int, int, K)>, t: Seq<(int, int, K)>, a: int, b: int, c: int)
    requires
        tiles(s, a, b),
        tiles(t, b, c),
    ensures
        tiles(s + t, a, c),
{
    let u = s + t;
    if s.len() > 0 && t.len() > 0 {
        assert forall|k: int| 0 <= k < u.len() implies (#[trigger] u[k]).0 < u[k].1 by {
            if k >= s.len() {
                assert(u[k] == t[k - s.len()]);
            }
        }
        assert forall|k: int| 0 <= k < u.len() - 1 implies (#[trigger] u[k]).1 == u[k + 1].0 by {
            if k >= s.len() {
                assert(u[k] == t[k - s.len()]);
                assert(u[k + 1] == t[k + 1 - s.len()]);
            }
        }
    } else if s.len() == 0 {
        assert(u =~= t);
    } else {
        assert(u =~= s);
    }
}

/// A shared tail starts inside the block.
pub proof fn lemma_diff_end_bounds(block: Seq<u8>, prev: Seq<u8>, n: int)
    requires
        0 <= n,
    ensures
        0 <= diff_end(block, prev, n) <= n,
    decreases n,
{
    reveal(diff_end);
    if n > 0 {
        lemma_diff_end_bounds(block, prev, n - 1);
    }
}

/// The segments emitted from any state where the current segment starts no
/// later than the next block tile the tape from the current segment's start
/// to its end.
proof fn lemma_run_tiles(
    tape: Seq<u8>,
    bs: int,
    hdr: Seq<Option<SegmentHeader>>,
    seg: int,
    pos: int,
    prev: Seq<u8>,
)
    requires
        bs > 0,
        0 <= seg <= pos <= tape.len(),
    ensures
        tiles(segment_run(tape, bs, hdr, seg, pos, prev), seg, tape.len() as int),
    decreases tape.len() - pos,
{
    let len = tape.len() as int;
    if pos >= len {
        return;
    }
    let end = if pos + bs < len { pos + bs } else { len };
    let block = tape.subrange(pos, end);
    lemma_uniform_run(tape, bs, hdr, pos);
    match uniform_run(tape, bs, hdr, pos) {
        Some((ue, kind)) => {
            let next = tape.subrange(ue - bs, ue);
            if seg != pos && kind == SegmentKind::AllNul && tape[pos - 1] == 0 && ue < len && tape[ue]
                == 0 {
                lemma_run_tiles(tape, bs, hdr, seg, ue, next);
            } else {
                let rest = segment_run(tape, bs, hdr, ue, ue, next);
                lemma_run_tiles(tape, bs, hdr, ue, ue, next);
                let p = piece(seg, pos, SegmentKind::Original);
                assert(tiles(p, seg, pos));
                assert(tiles(seq![(pos, ue, kind)], pos, ue));
                lemma_tiles_concat(p, seq![(pos, ue, kind)], seg, pos, ue);
                lemma_tiles_concat(p + seq![(pos, ue, kind)], rest, seg, ue, len);
            }
        },
        None => {
            let free = !inside_known(hdr, pos);
            lemma_residue_cut(tape, hdr, seg, pos, end, prev, free);
            match residue_cut(tape, hdr, seg, pos, end, prev, free) {
                Some((lead, split)) => {
                    let rest = segment_run(tape, bs, hdr, end, end, block);
                    lemma_run_tiles(tape, bs, hdr, end, end, block);
                    let h = piece(seg, lead, SegmentKind::Original);
                    let p = piece(lead, split, SegmentKind::Original);
                    assert(tiles(h, seg, lead));
                    assert(tiles(p, lead, split));
                    lemma_tiles_concat(h, p, seg, lead, split);
                    let r = seq![(split, end, SegmentKind::Residue)];
                    assert(tiles(r, split, end));
                    lemma_tiles_concat(h + p, r, seg, split, end);
                    lemma_tiles_concat(h + p + r, rest, seg, end, len);
                },
                None => {
                    let head = if free { piece(seg, pos, SegmentKind::Original) } else { seq![] };
                    let seg1 = if free { pos } else { seg };
                    assert(tiles(head, seg, seg1));
                    lemma_run_tiles(tape, bs, hdr, seg1, end, block);
                    lemma_tiles_concat(
                        head,
                        segment_run(tape, bs, hdr, seg1, end, block),
                        seg,
                        seg1,
                        len,
                    );
                },
            }
        },
    }
}

/// Segmentation tiles the tape: the segments that one run of
/// [`Segmenter::segment_blocks`] adds are non-empty, in increasing order,
/// without gap or overlap, and together cover the whole tape.
pub proof fn lemma_segments_tile(
    tape: Seq<u8>,
    bs: int,
    hdr: Seq<Option<SegmentHeader>>,
    prev: Seq<u8>,
)
    requires
        bs > 0,
    ensures
        tiles(segment_run(tape, bs, hdr, 0, 0, prev), 0, tape.len() as int),
{
    lemma_run_tiles(tape, bs, hdr, 0, 0, prev);
}

/// No segment of `segs` starts strictly inside the range of a known header.
pub open spec fn starts_outside_known(segs: Seq<SegmentView>, hdr: Seq<Option<SegmentHeader>>) -> bool {
    forall|k: int| 0 <= k < segs.len() ==> !inside_known(hdr, #[trigger] segs[k].0)
}

/// Two lists of segments that start outside known ranges make one.
proof fn lemma_outside_concat(s: Seq<SegmentView>, t: Seq<SegmentView>, hdr: Seq<Option<SegmentHeader>>)
    requires
        starts_outside_known(s, hdr),
        starts_outside_known(t, hdr),
    ensures
        starts_outside_known(s + t, hdr),
{
    assert forall|k: int| 0 <= k < (s + t).len() implies !inside_known(hdr, #[trigger] (s + t)[k].0) by {
        if k >= s.len() {
            assert((s + t)[k] == t[k - s.len()]);
        } else {
            assert((s + t)[k] == s[k]);
        }
    }
}

/// The segments emitted from a state whose current segment starts outside
/// every known range all start outside them.
proof fn lemma_run_outside_known(
    tape: Seq<u8>,
    bs: int,
    hdr: Seq<Option<SegmentHeader>>,
    seg: int,
    pos: int,
    prev: Seq<u8>,
)
    requires
        bs > 0,
        0 <= seg <= pos <= tape.len(),
        !inside_known(hdr, seg),
    ensures
        starts_outside_known(segment_run(tape, bs, hdr, seg, pos, prev), hdr),
    decreases tape.len() - pos,
{
    let len = tape.len() as int;
    if pos >= len {
        return;
    }
    let end = if pos + bs < len { pos + bs } else { len };
    let block = tape.subrange(pos, end);
    lemma_uniform_run(tape, bs, hdr, pos);
    match uniform_run(tape, bs, hdr, pos) {
        Some((ue, kind)) => {
            let next = tape.subrange(ue - bs, ue);
            if seg != pos && kind == SegmentKind::AllNul && tape[pos - 1] == 0 && ue < len && tape[ue]
                == 0 {
                lemma_run_outside_known(tape, bs, hdr, seg, ue, next);
            } else {
                let rest = segment_run(tape, bs, hdr, ue, ue, next);
                lemma_run_outside_known(tape, bs, hdr, ue, ue, next);
                let p = piece(seg, pos, SegmentKind::Original);
                let u = seq![(pos, ue, kind)];
                assert(starts_outside_known(p, hdr));
                assert(starts_outside_known(u, hdr));
                lemma_outside_concat(p, u, hdr);
                lemma_outside_concat(p + u, rest, hdr);
            }
        },
        None => {
            let free = !inside_known(hdr, pos);
            lemma_residue_cut(tape, hdr, seg, pos, end, prev, free);
            match residue_cut(tape, hdr, seg, pos, end, prev, free) {
                Some((lead, split)) => {
                    let rest = segment_run(tape, bs, hdr, end, end, block);
                    lemma_run_outside_known(tape, bs, hdr, end, end, block);
                    let h = piece(seg, lead, SegmentKind::Original);
                    let p = piece(lead, split, SegmentKind::Original);
                    let r = seq![(split, end, SegmentKind::Residue)];
                    assert(starts_outside_known(h, hdr));
                    assert(starts_outside_known(p, hdr));
                    assert(starts_outside_known(r, hdr));
                    lemma_outside_concat(h, p, hdr);
                    lemma_outside_concat(h + p, r, hdr);
                    lemma_outside_concat(h + p + r, rest, hdr);
                },
                None => {
                    let head = if free { piece(seg, pos, SegmentKind::Original) } else { seq![] };
                    let seg1 = if free { pos } else { seg };
                    assert(starts_outside_known(head, hdr));
                    lemma_run_outside_known(tape, bs, hdr, seg1, end, block);
                    lemma_outside_concat(head, segment_run(tape, bs, hdr, seg1, end, block), hdr);
                },
            }
        },
    }
}

/// Known headers act as walls: no segment that one run of
/// [`Segmenter::segment_blocks`] adds starts strictly inside the range that
/// a known header claims, so no heuristic cuts a known file apart.
pub proof fn lemma_segments_respect_known(
    tape: Seq<u8>,
    bs: int,
    hdr: Seq<Option<SegmentHeader>>,
    prev: Seq<u8>,
)
    requires
        bs > 0,
    ensures
        starts_outside_known(segment_run(tape, bs, hdr, 0, 0, prev), hdr),
{
    lemma_run_outside_known(tape, bs, hdr, 0, 0, prev);
}

/// A uniform run is of NUL or of 0xFF blocks.
proof fn lemma_uniform_run_kind(tape: Seq<u8>, bs: int, hdr: Seq<Option<SegmentHeader>>, pos: int)
    ensures
        uniform_run(tape, bs, hdr, pos) matches Some((ue, k)) ==> k == SegmentKind::AllNul || k
            == SegmentKind::AllFF,
{
    reveal(uniform_run);
}

/// A residue takes the line feed that starts it away from no text that
/// should have kept it: the original segment right before it does not give
/// it back.
proof fn lemma_residue_cut_lf(
    tape: Seq<u8>,
    hdr: Seq<Option<SegmentHeader>>,
    seg: int,
    pos: int,
    end: int,
    prev: Seq<u8>,
    free: bool,
)
    requires
        0 <= seg <= pos < end <= tape.len(),
    ensures
        residue_cut(tape, hdr, seg, pos, end, prev, free) matches Some((lead, split)) ==> {
            &&& !(lead < split && gives_back_lf(tape, lead, split))
            &&& (lead == split && seg < lead ==> !gives_back_lf(tape, seg, lead))
        },
{
    reveal(residue_cut);
    let block = tape.subrange(pos, end);
    let base = if prev.len() == 0 { zeros(block.len() as int) } else { prev };
    lemma_diff_end_bounds(block, base, block.len() as int);
}

/// Whether original segment `a` is followed by residue `b` that starts with
/// a line feed the text of `a` should have kept: `a` is non-empty text that
/// does not end with a line feed.
pub open spec fn lf_left_behind(tape: Seq<u8>, a: SegmentView, b: SegmentView) -> bool {
    &&& a.2 == SegmentKind::Original
    &&& b.2 == SegmentKind::Residue
    &&& a.1 == b.0
    &&& gives_back_lf(tape, a.0, a.1)
}

/// No original segment of `segs` leaves behind a line feed to the residue
/// after it.
pub open spec fn keeps_line_feeds(tape: Seq<u8>, segs: Seq<SegmentView>) -> bool {
    forall|k: int| 0 <= k < segs.len() - 1 ==> !lf_left_behind(tape, #[trigger] segs[k], segs[k + 1])
}

/// Every residue of `segs` starts at `pos` or later.
pub open spec fn residues_from(segs: Seq<SegmentView>, pos: int) -> bool {
    forall|k: int| 0 <= k < segs.len() && (#[trigger] segs[k]).2 == SegmentKind::Residue ==> pos
        <= segs[k].0
}

/// Two lists that keep their line feeds make one, where they meet well.
proof fn lemma_keeps_concat(tape: Seq<u8>, s: Seq<SegmentView>, t: Seq<SegmentView>)
    requires
        keeps_line_feeds(tape, s),
        keeps_line_feeds(tape, t),
        s.len() > 0 && t.len() > 0 ==> !lf_left_behind(tape, s[s.len() - 1], t[0]),
    ensures
        keeps_line_feeds(tape, s + t),
{
    let u = s + t;
    assert forall|k: int| 0 <= k < u.len() - 1 implies !lf_left_behind(tape, #[trigger] u[k], u[k + 1]) by {
        if k < s.len() - 1 {
            assert(u[k] == s[k] && u[k + 1] == s[k + 1]);
        } else if k == s.len() - 1 {
            assert(u[k] == s[k] && u[k + 1] == t[0]);
        } else {
            assert(u[k] == t[k - s.len()] && u[k + 1] == t[k + 1 - s.len()]);
        }
    }
}

/// Two lists whose residues start at `pos` or later make one.
proof fn lemma_residues_concat(s: Seq<SegmentView>, t: Seq<SegmentView>, pos: int)
    requires
        residues_from(s, pos),
        residues_from(t, pos),
    ensures
        residues_from(s + t, pos),
{
    assert forall|k: int| 0 <= k < (s + t).len() && (#[trigger] (s + t)[k]).2 == SegmentKind::Residue
        implies pos <= (s + t)[k].0 by {
        if k >= s.len() {
            assert((s + t)[k] == t[k - s.len()]);
        } else {
            assert((s + t)[k] == s[k]);
        }
    }
}

/// The residues emitted from a state start no earlier than its next block.
proof fn lemma_run_residues(
    tape: Seq<u8>,
    bs: int,
    hdr: Seq<Option<SegmentHeader>>,
    seg: int,
    pos: int,
    prev: Seq<u8>,
)
    requires
        bs > 0,
        0 <= seg <= pos <= tape.len(),
    ensures
        residues_from(segment_run(tape, bs, hdr, seg, pos, prev), pos),
    decreases tape.len() - pos,
{
    let len = tape.len() as int;
    if pos >= len {
        return;
    }
    let end = if pos + bs < len { pos + bs } else { len };
    let block = tape.subrange(pos, end);
    lemma_uniform_run(tape, bs, hdr, pos);
    match uniform_run(tape, bs, hdr, pos) {
        Some((ue, kind)) => {
            let next = tape.subrange(ue - bs, ue);
            if seg != pos && kind == SegmentKind::AllNul && tape[pos - 1] == 0 && ue < len && tape[ue]
                == 0 {
                lemma_run_residues(tape, bs, hdr, seg, ue, next);
            } else {
                let rest = segment_run(tape, bs, hdr, ue, ue, next);
                lemma_run_residues(tape, bs, hdr, ue, ue, next);
                let p = piece(seg, pos, SegmentKind::Original) + seq![(pos, ue, kind)];
                assert(residues_from(p, pos));
                lemma_residues_concat(p, rest, pos);
            }
        },
        None => {
            let free = !inside_known(hdr, pos);
            lemma_residue_cut(tape, hdr, seg, pos, end, prev, free);
            match residue_cut(tape, hdr, seg, pos, end, prev, free) {
                Some((lead, split)) => {
                    let rest = segment_run(tape, bs, hdr, end, end, block);
                    lemma_run_residues(tape, bs, hdr, end, end, block);
                    let p = piece(seg, lead, SegmentKind::Original) + piece(
                        lead,
                        split,
                        SegmentKind::Original,
                    ) + seq![(split, end, SegmentKind::Residue)];
                    assert(residues_from(p, pos));
                    lemma_residues_concat(p, rest, pos);
                },
                None => {
                    let head = if free { piece(seg, pos, SegmentKind::Original) } else { seq![] };
                    let seg1 = if free { pos } else { seg };
                    lemma_run_residues(tape, bs, hdr, seg1, end, block);
                    assert(residues_from(head, pos));
                    lemma_residues_concat(head, segment_run(tape, bs, hdr, seg1, end, block), pos);
                },
            }
        },
    }
}

/// A run from a state whose segment started before its next block does
/// not start with a residue.
proof fn lemma_run_first_not_residue(
    tape: Seq<u8>,
    bs: int,
    hdr: Seq<Option<SegmentHeader>>,
    seg: int,
    pos: int,
    prev: Seq<u8>,
)
    requires
        bs > 0,
        0 <= seg < pos <= tape.len(),
    ensures
        segment_run(tape, bs, hdr, seg, pos, prev).len() > 0 ==> segment_run(
            tape,
            bs,
            hdr,
            seg,
            pos,
            prev,
        )[0].2 != SegmentKind::Residue,
{
    lemma_run_tiles(tape, bs, hdr, seg, pos, prev);
    lemma_run_residues(tape, bs, hdr, seg, pos, prev);
}

/// The segments emitted from a state keep their line feeds.
proof fn lemma_run_keeps_line_feeds(
    tape: Seq<u8>,
    bs: int,
    hdr: Seq<Option<SegmentHeader>>,
    seg: int,
    pos: int,
    prev: Seq<u8>,
)
    requires
        bs > 0,
        0 <= seg <= pos <= tape.len(),
    ensures
        keeps_line_feeds(tape, segment_run(tape, bs, hdr, seg, pos, prev)),
    decreases tape.len() - pos,
{
    let len = tape.len() as int;
    if pos >= len {
        return;
    }
    let end = if pos + bs < len { pos + bs } else { len };
    let block = tape.subrange(pos, end);
    lemma_uniform_run(tape, bs, hdr, pos);
    lemma_uniform_run_kind(tape, bs, hdr, pos);
    match uniform_run(tape, bs, hdr, pos) {
        Some((ue, kind)) => {
            let next = tape.subrange(ue - bs, ue);
            if seg != pos && kind == SegmentKind::AllNul && tape[pos - 1] == 0 && ue < len && tape[ue]
                == 0 {
                lemma_run_keeps_line_feeds(tape, bs, hdr, seg, ue, next);
            } else {
                let rest = segment_run(tape, bs, hdr, ue, ue, next);
                lemma_run_keeps_line_feeds(tape, bs, hdr, ue, ue, next);
                let p = piece(seg, pos, SegmentKind::Original);
                let u = seq![(pos, ue, kind)];
                assert(keeps_line_feeds(tape, p));
                assert(keeps_line_feeds(tape, u));
                assert(u[0] == (pos, ue, kind));
                lemma_keeps_concat(tape, p, u);
                assert((p + u)[(p + u).len() - 1] == (pos, ue, kind));
                lemma_keeps_concat(tape, p + u, rest);
            }
        },
        None => {
            let free = !inside_known(hdr, pos);
            lemma_residue_cut(tape, hdr, seg, pos, end, prev, free);
            lemma_residue_cut_lf(tape, hdr, seg, pos, end, prev, free);
            match residue_cut(tape, hdr, seg, pos, end, prev, free) {
                Some((lead, split)) => {
                    let rest = segment_run(tape, bs, hdr, end, end, block);
                    lemma_run_keeps_line_feeds(tape, bs, hdr, end, end, block);
                    let h = piece(seg, lead, SegmentKind::Original);
                    let p = piece(lead, split, SegmentKind::Original);
                    let r = seq![(split, end, SegmentKind::Residue)];
                    assert(keeps_line_feeds(tape, h));
                    assert(keeps_line_feeds(tape, p));
                    assert(keeps_line_feeds(tape, r));
                    lemma_keeps_concat(tape, h, p);
                    if p.len() == 0 {
                        assert(h + p =~= h);
                    } else {
                        assert((h + p)[(h + p).len() - 1] == (lead, split, SegmentKind::Original));
                    }
                    lemma_keeps_concat(tape, h + p, r);
                    assert((h + p + r)[(h + p + r).len() - 1] == (split, end, SegmentKind::Residue));
                    lemma_keeps_concat(tape, h + p + r, rest);
                },
                None => {
                    let head = if free { piece(seg, pos, SegmentKind::Original) } else { seq![] };
                    let seg1 = if free { pos } else { seg };
                    let rest = segment_run(tape, bs, hdr, seg1, end, block);
                    lemma_run_keeps_line_feeds(tape, bs, hdr, seg1, end, block);
                    lemma_run_first_not_residue(tape, bs, hdr, seg1, end, block);
                    assert(keeps_line_feeds(tape, head));
                    lemma_keeps_concat(tape, head, rest);
                },
            }
        },
    }
}

/// Segmentation keeps line feeds with text: no original text segment that
/// one run of [`Segmenter::segment_blocks`] adds is directly followed by a
/// residue whose leading line feed it should have kept, also where the
/// residue starts at a block boundary.
pub proof fn lemma_segments_keep_line_feeds(
    tape: Seq<u8>,
    bs: int,
    hdr: Seq<Option<SegmentHeader>>,
    prev: Seq<u8>,
)
    requires
        bs > 0,
    ensures
        keeps_line_feeds(tape, segment_run(tape, bs, hdr, 0, 0, prev)),
{
    lemma_run_keeps_line_feeds(tape, bs, hdr, 0, 0, prev);
}

/// An offset inside the tape lies in one of its blocks.
proof fn lemma_block_index(off: int, len: int, bs: int)
    requires
        0 <= off < len,
        bs > 0,
    ensures
        0 <= off / bs < block_count(len, bs),
{
    assert(off / bs <= len / bs) by (nonlinear_arith)
        requires
            0 <= off < len,
            bs > 0,
    ;
    assert(0 <= off / bs) by (nonlinear_arith)
        requires
            0 <= off,
            bs > 0,
    ;
    if len % bs == 0 {
        assert(off / bs < len / bs) by (nonlinear_arith)
            requires
                0 <= off < len,
                bs > 0,
                len % bs == 0,
        ;
    }
}

impl SegmentHeader {
    /// The byte offsets in the tape of the file contents.
    pub fn range(&self) -> (r: Range<usize>)
        requires
            self.offset + self.len <= usize::MAX,
        ensures
            r.start == self.offset,
            r.end == self.offset + self.len,
    {
        self.offset..self.offset + self.len
    }
}

/// Whether `a` and `b` hold the same bytes.
fn same_bytes(a: &[u8], b: &[u8]) -> (r: bool)
    ensures
        r == (a@ == b@),
{
    if a.len() != b.len() {
        return false;
    }
    let mut i: usize = 0;
    while i < a.len()
        invariant
            i <= a@.len() == b@.len(),
            forall|k: int| 0 <= k < i ==> a@[k] == b@[k],
        decreases a@.len() - i,
    {
        if a[i] != b[i] {
            return false;
        }
        i += 1;
    }
    assert(a@ =~= b@);
    true
}

/// Whether every byte of `s` is `b`.
pub(crate) fn all_equal(s: &[u8], b: u8) -> (r: bool)
    ensures
        r == all_byte(s@, b),
{
    let mut i: usize = 0;
    while i < s.len()
        invariant
            i <= s@.len(),
            forall|k: int| 0 <= k < i ==> #[trigger] s@[k] == b,
        decreases s@.len() - i,
    {
        if s[i] != b {
            return false;
        }
        i += 1;
    }
    true
}

/// The index from which `block` and `prev` share their tail.
pub(crate) fn common_tail_start(block: &[u8], prev: &[u8]) -> (r: usize)
    requires
        block@.len() <= prev@.len(),
    ensures
        r == diff_end(block@, prev@, block@.len() as int),
        r <= block@.len(),
{
    let mut i = block.len();
    while i > 0
        invariant
            i <= block@.len() <= prev@.len(),
            diff_end(block@, prev@, block@.len() as int) == diff_end(block@, prev@, i as int),
        decreases i,
    {
        reveal(diff_end);
        if block[i - 1] != prev[i - 1] {
            return i;
        }
        i -= 1;
    }
    reveal(diff_end);
    0
}

impl<'a> Segmenter<'a> {
    /// The tape being segmented.
    pub closed spec fn tape(&self) -> Seq<u8> {
        self.tape@
    }

    /// The block size that the tape was written with.
    pub closed spec fn block_size(&self) -> int {
        self.block_size as int
    }

    /// The known headers, by the block they start at.
    pub closed spec fn headers(&self) -> Seq<Option<SegmentHeader>> {
        self.headers@
    }

    /// The offsets at which a known header starts.
    pub open spec fn stops(&self) -> Set<int> {
        header_stops(self.headers(), self.tape().len() as int, self.block_size())
    }

    /// The points claimed by known headers, and those outside the tape.
    pub closed spec fn claimed(&self) -> Set<int> {
        self.header_intervals.points()
    }

    /// The paths of the known headers.
    pub closed spec fn paths(&self) -> Seq<Seq<u8>> {
        self.paths@.map_values(|p: Vec<u8>| p@)
    }

    /// The last block that segmentation compared against.
    pub closed spec fn prev_block(&self) -> Seq<u8> {
        self.prev_block@
    }

    /// The segments found so far, in order.
    pub closed spec fn segment_views(&self) -> Seq<SegmentView> {
        self.segments@.map_values(|s: Segment<'a>| s.view_spec())
    }

    /// The segmenter is well formed: the block size is positive, there is a
    /// header slot for each block, and the claimed points form a well-formed
    /// interval set.
    #[verifier::opaque]
    pub closed spec fn wf(&self) -> bool {
        &&& self.block_size > 0
        &&& self.headers@.len() == block_count(self.tape@.len() as int, self.block_size as int)
        &&& self.header_intervals.wf()
        &&& range_points(self.tape@.len() as usize..usize::MAX).subset_of(self.header_intervals.points())
        &&& segments_in(self.segments@, self.tape@)
        &&& forall|i: int, j: int|
            0 <= i < j < self.paths@.len() ==> (#[trigger] self.paths@[i])@ != (#[trigger] self.paths@[j])@
    }

    /// Creates a segmenter for a tape written with blocks of `block_size`
    /// bytes.
    pub fn new(tape: &'a [u8], block_size: usize) -> (r: Self)
        requires
            block_size > 0,
        ensures
            r.wf(),
            r.tape() == tape@,
            r.block_size() == block_size,
            r.headers() == Seq::new(
                block_count(tape@.len() as int, block_size as int) as nat,
                |i: int| None::<SegmentHeader>,
            ),
            r.claimed() == range_points(0..0).union(range_points(tape.len()..usize::MAX)),
            r.paths().len() == 0,
            r.prev_block().len() == 0,
            r.segment_views().len() == 0,
    {
        let n = if tape.len() % block_size == 0 {
            tape.len() / block_size
        } else {
            proof {
                let len = tape.len();
                assert(block_size >= 2);
                assert(len / block_size <= len) by (nonlinear_arith)
                    requires
                        block_size >= 2,
                ;
                assert(len / block_size < usize::MAX) by (nonlinear_arith)
                    requires
                        block_size >= 2,
                        len <= usize::MAX,
                ;
            }
            tape.len() / block_size + 1
        };
        let mut headers: Vec<Option<SegmentHeader>> = Vec::new();
        while headers.len() < n
            invariant
                headers@.len() <= n,
                forall|i: int| 0 <= i < headers@.len() ==> headers@[i] is None,
            decreases n - headers@.len(),
        {
            headers.push(None);
        }
        let header_intervals = IntervalSet::new(0..tape.len());
        reveal(Segmenter::wf);
        let r = Segmenter {
            tape,
            block_size,
            prev_block: &[],
            segments: Vec::new(),
            headers,
            header_intervals,
            paths: Vec::new(),
        };
        proof {
            assert(r.headers@ =~= Seq::new(n as nat, |i: int| None::<SegmentHeader>));
            let s = r.header_intervals@;
            assert(crate::interval::seq_points(s) =~= range_points(0..0).union(
                range_points(tape.len()..usize::MAX),
            )) by {
                assert forall|p: int| range_points(s[1]).contains(p) implies #[trigger] crate::interval::seq_points(s).contains(p) by {
                    assert(crate::interval::range_has(s[1], p));
                }
                assert forall|p: int| crate::interval::seq_points(s).contains(p) implies #[trigger] range_points(0..0).union(
                range_points(tape.len()..usize::MAX)).contains(p) by {
                    let j = choose|j: int| 0 <= j < s.len() && #[trigger] crate::interval::range_has(s[j], p);
                    assert(j == 0 || j == 1);
                }
            }
            assert(r.segments@.map_values(|s: Segment<'a>| s.view_spec()) =~= Seq::empty());
            assert(r.paths@.map_values(|p: Vec<u8>| p@) =~= Seq::empty());
        }
        r
    }

    /// The header of the file that starts at `offset`, if one is known.
    #[verifier::spinoff_prover]
    pub fn header_for_offset(&self, offset: usize) -> (r: Option<&SegmentHeader>)
        requires
            self.wf(),
        ensures
            r is Some <==> header_at(
                self.headers(),
                self.tape().len() as int,
                self.block_size(),
                offset as int,
            ),
            r matches Some(h) ==> self.headers()[offset as int / self.block_size()] == Some(*h),
    {
        reveal(Segmenter::wf);
        if offset % self.block_size == 0 && offset < self.tape.len() {
            proof {
                lemma_block_index(offset as int, self.tape@.len() as int, self.block_size as int);
            }
            match &self.headers[offset / self.block_size] {
                Some(h) => Some(h),
                None => None,
            }
        } else {
            None
        }
    }

    /// The header of the file that starts at block `block`, if one is known.
    pub fn header_for_block(&self, block: usize) -> (r: Option<&SegmentHeader>)
        requires
            self.wf(),
            block < self.headers().len(),
        ensures
            r is Some <==> self.headers()[block as int] is Some,
            r matches Some(h) ==> self.headers()[block as int] == Some(*h),
    {
        reveal(Segmenter::wf);
        match &self.headers[block] {
            Some(h) => Some(h),
            None => None,
        }
    }

    /// Whether `p` lies strictly inside the range of a known header.
    fn inside_known(&self, p: usize) -> (r: bool)
        ensures
            r == inside_known(self.headers(), p as int),
    {
        let mut b: usize = 0;
        while b < self.headers.len()
            invariant
                b <= self.headers@.len(),
                forall|k: int|
                    0 <= k < b ==> !(#[trigger] self.headers@[k] is Some && strictly_inside(
                        self.headers@[k].unwrap(),
                        p as int,
                    )),
            decreases self.headers@.len() - b,
        {
            match &self.headers[b] {
                Some(h) => {
                    if h.offset < p && p - h.offset < h.len {
                        assert(self.headers@[b as int] is Some && strictly_inside(
                            self.headers@[b as int].unwrap(),
                            p as int,
                        ));
                        return true;
                    }
                },
                None => {},
            }
            b += 1;
        }
        false
    }

    /// The run of uniform blocks at `block_start` that makes a segment of its
    /// own, if any: its end and kind.
    fn uniform_run_at(&self, block_start: usize) -> (r: Option<(usize, SegmentKind)>)
        requires
            self.wf(),
            block_start <= self.tape().len(),
        ensures
            r matches Some((e, k)) ==> uniform_run(
                self.tape(),
                self.block_size(),
                self.headers(),
                block_start as int,
            ) == Some((e as int, k)),
            r is None ==> uniform_run(
                self.tape(),
                self.block_size(),
                self.headers(),
                block_start as int,
            ) is None,
    {
        reveal(uniform_run);
        if self.inside_known(block_start) {
            return None;
        }
        let run = match self.check_uniform(block_start, 0) {
            Some(end) => Some((end, SegmentKind::AllNul)),
            None => match self.check_uniform(block_start, 0xFF) {
                Some(end) => Some((end, SegmentKind::AllFF)),
                None => None,
            },
        };
        match run {
            Some((end, kind)) => if self.inside_known(end) {
                None
            } else {
                Some((end, kind))
            },
            None => None,
        }
    }

    /// Whether the segment from `lead` gives the line feed at `split0` back
    /// to itself, as [`gives_back_lf`] says.
    fn gives_back_lf_at(&self, lead: usize, split0: usize) -> (r: bool)
        requires
            lead <= split0 <= self.tape().len(),
        ensures
            r == gives_back_lf(self.tape(), lead as int, split0 as int),
            r ==> split0 < self.tape().len(),
    {
        let tape = self.tape;
        lead != split0 && tape[split0 - 1] != 0x0a && split0 < tape.len() && tape[split0] == 0x0a
            && is_text(&tape[lead..split0])
    }

    /// The residue of the block from `block_start` to `block_end`, if it
    /// makes a segment of its own: the start of the segment it closes, and
    /// where it starts. The current segment started at `segment_start`,
    /// `prev` is the block before, and `free` tells whether `block_start`
    /// may start a segment.
    fn residue_cut_at(
        &self,
        segment_start: usize,
        block_start: usize,
        block_end: usize,
        prev: &[u8],
        free: bool,
    ) -> (r: Option<(usize, usize)>)
        requires
            segment_start <= block_start < block_end <= self.tape().len(),
        ensures
            r matches Some((l, x)) ==> residue_cut(
                self.tape(),
                self.headers(),
                segment_start as int,
                block_start as int,
                block_end as int,
                prev@,
                free,
            ) == Some((l as int, x as int)),
            r is None ==> residue_cut(
                self.tape(),
                self.headers(),
                segment_start as int,
                block_start as int,
                block_end as int,
                prev@,
                free,
            ) is None,
    {
        reveal(residue_cut);
        let tape = self.tape;
        let block = &tape[block_start..block_end];
        // The first block is compared with NULs.
        let eq_index = if prev.len() == 0 {
            nonzero_end(block)
        } else if prev.len() >= block.len() {
            common_tail_start(block, prev)
        } else {
            return None;
        };
        let split0 = block_start + eq_index;
        let lead0 = if free {
            block_start
        } else {
            segment_start
        };
        // Take back a LF from the residue, if it is a text segment which does
        // not end with LF; a residue that starts a block gives it back to the
        // segment before the block.
        let back = self.gives_back_lf_at(lead0, split0);
        let back_before = !back && split0 == block_start && self.gives_back_lf_at(
            segment_start,
            split0,
        );
        let lead = if back_before {
            segment_start
        } else {
            lead0
        };
        let split = if (back || back_before) && split0 < tape.len() {
            split0 + 1
        } else {
            split0
        };
        // Only treat it as residue, if it is long enough. Apparent residue of
        // length 1 or 2 is usually a false positive.
        if split < block_end && block_end - split > 2 && !self.inside_known(split)
            && !self.inside_known(block_end) {
            Some((lead, split))
        } else {
            None
        }
    }

    /// The end of the run of whole blocks of `byte` from `block_start`, if
    /// there is one.
    fn check_uniform(&self, block_start: usize, byte: u8) -> (r: Option<usize>)
        requires
            self.wf(),
            block_start <= self.tape().len(),
        ensures
            ({
                let e = uniform_end(
                    self.tape(),
                    self.block_size(),
                    self.stops(),
                    block_start as int,
                    byte,
                );
                &&& r is Some <==> e != block_start
                &&& r matches Some(x) ==> x == e && block_start + self.block_size() <= x
                    <= self.tape().len()
            }),
    {
        reveal(Segmenter::wf);
        proof {
            lemma_uniform_end_bounds(
                self.tape(),
                self.block_size(),
                self.stops(),
                block_start as int,
                byte,
            );
        }
        let ghost target = uniform_end(
            self.tape(),
            self.block_size(),
            self.stops(),
            block_start as int,
            byte,
        );
        let tape = self.tape;
        let bs = self.block_size;
        let mut end = block_start;
        reveal(uniform_end);
        while tape.len() - end >= bs
            invariant_except_break
                uniform_end(self.tape(), self.block_size(), self.stops(), end as int, byte)
                    == target,
            invariant
                self.wf(),
                tape@ == self.tape(),
                bs == self.block_size(),
                bs > 0,
                block_start <= end <= tape@.len(),
                tape@.len() - end < bs ==> uniform_end(tape@, bs as int, self.stops(), end as int, byte)
                    == end,
            ensures
                end == target,
            decreases tape@.len() - end,
        {
            let ghost e0 = end as int;
            reveal(uniform_end);
            let uniform = all_equal(&tape[end..end + bs], byte);
            if !uniform {
                assert(uniform_end(tape@, bs as int, self.stops(), e0, byte) == e0);
                break;
            }
            end += bs;
            let at_header = self.header_for_offset(end).is_some();
            assert(uniform_end(tape@, bs as int, self.stops(), e0, byte) == if at_header {
                end as int
            } else {
                uniform_end(tape@, bs as int, self.stops(), end as int, byte)
            });
            if at_header {
                break;
            }
        }
        if end != block_start {
            Some(end)
        } else {
            None
        }
    }

    /// Remembers `block` as the last block compared against.
    fn set_prev_block(&mut self, block: &'a [u8])
        requires
            old(self).wf(),
        ensures
            final(self).wf(),
            final(self).tape() == old(self).tape(),
            final(self).block_size() == old(self).block_size(),
            final(self).headers() == old(self).headers(),
            final(self).claimed() == old(self).claimed(),
            final(self).paths() == old(self).paths(),
            final(self).segment_views() == old(self).segment_views(),
            final(self).prev_block() == block@,
    {
        reveal(Segmenter::wf);
        self.prev_block = block;
    }

    /// Appends a segment over `range` of the tape.
    #[verifier::spinoff_prover]
    #[verifier::rlimit(30)]
    fn push(&mut self, range: Range<usize>, kind: SegmentKind)
        requires
            old(self).wf(),
            range.start <= range.end <= old(self).tape().len(),
        ensures
            final(self).wf(),
            final(self).tape() == old(self).tape(),
            final(self).block_size() == old(self).block_size(),
            final(self).headers() == old(self).headers(),
            final(self).claimed() == old(self).claimed(),
            final(self).paths() == old(self).paths(),
            final(self).prev_block() == old(self).prev_block(),
            final(self).segment_views() == old(self).segment_views().push(
                (range.start as int, range.end as int, kind),
            ),
    {
        reveal(Segmenter::wf);
        let tape = self.tape;
        let start = range.start;
        let seg = Segment { data: &tape[range], offset: start, kind };
        let ghost old_segments = self.segments@;
        assert(segment_in(seg, tape@));
        self.segments.push(seg);
        proof {
            assert(self.segments@.map_values(|s: Segment<'a>| s.view_spec()) =~= old_segments.map_values(
                |s: Segment<'a>| s.view_spec(),
            ).push(seg.view_spec()));
            assert forall|i: int| 0 <= i < self.segments@.len() implies #[trigger] segment_in(
                self.segments@[i],
                tape@,
            ) by {
                if i < old_segments.len() {
                    assert(self.segments@[i] == old_segments[i]);
                }
            }
        }
    }

    /// Partitions the tape into segments which are likely to be files, and
    /// appends them to the segments found so far.
    ///
    /// It exploits the behavior of the dumping program that was used, which
    /// evidently read files using a 512-byte buffer and directly dumped the
    /// buffer. When the buffer is not completely filled, as happens for the
    /// last block of a file, its tail is left unchanged, so by comparing blocks
    /// for common tails, file boundaries can be quite accurately identified.
    /// Every block boundary outside a known header's range starts a segment;
    /// see [`segment_run`] for the whole rule.
    #[verifier::rlimit(100)]
    #[verifier::spinoff_prover]
    pub fn segment_blocks(&mut self)
        requires
            old(self).wf(),
        ensures
            final(self).wf(),
            final(self).tape() == old(self).tape(),
            final(self).block_size() == old(self).block_size(),
            final(self).headers() == old(self).headers(),
            final(self).claimed() == old(self).claimed(),
            final(self).paths() == old(self).paths(),
            final(self).segment_views() == old(self).segment_views() + segment_run(
                old(self).tape(),
                old(self).block_size(),
                old(self).headers(),
                0,
                0,
                old(self).prev_block(),
            ),
    {
        reveal(Segmenter::wf);
        let ghost hdr = self.headers();
        let ghost target = self.segment_views() + segment_run(
            self.tape(),
            self.block_size(),
            hdr,
            0,
            0,
            self.prev_block(),
        );
        let ghost claimed = self.claimed();
        let ghost paths = self.paths();
        let tape = self.tape;
        let bs = self.block_size;
        let mut segment_start: usize = 0;
        let mut block_start: usize = 0;
        while block_start < tape.len()
            invariant
                self.wf(),
                self.tape() == tape@,
                self.block_size() == bs,
                bs > 0,
                self.headers() == hdr,
                self.claimed() == claimed,
                self.paths() == paths,
                segment_start <= block_start <= tape@.len(),
                self.segment_views() + segment_run(
                    tape@,
                    bs as int,
                    hdr,
                    segment_start as int,
                    block_start as int,
                    self.prev_block(),
                ) == target,
            decreases tape@.len() - block_start,
        {
            let ghost views0 = self.segment_views();
            let ghost prev0 = self.prev_block();
            let ghost seg0 = segment_start as int;
            let ghost rest = segment_run(tape@, bs as int, hdr, seg0, block_start as int, prev0);
            let block_end = if tape.len() - block_start > bs {
                block_start + bs
            } else {
                tape.len()
            };
            let block = &tape[block_start..block_end];
            proof {
                lemma_uniform_run(tape@, bs as int, hdr, block_start as int);
            }
            if let Some((uniform_end, kind)) = self.uniform_run_at(block_start) {
                let ghost next_prev = tape@.subrange(uniform_end - bs, uniform_end as int);
                // Join NUL blocks surrounded by zeros.
                if segment_start != block_start && kind == SegmentKind::AllNul && block_start >= 1
                    && tape[block_start - 1] == 0 && uniform_end < tape.len() && tape[uniform_end]
                    == 0 {
                    self.set_prev_block(&tape[uniform_end - bs..uniform_end]);
                    assert(views0 + rest =~= self.segment_views() + segment_run(
                        tape@,
                        bs as int,
                        hdr,
                        segment_start as int,
                        uniform_end as int,
                        next_prev,
                    ));
                    block_start = uniform_end;
                    continue;
                }
                if segment_start != block_start {
                    self.push(segment_start..block_start, SegmentKind::Original);
                }
                self.push(block_start..uniform_end, kind);
                self.set_prev_block(&tape[uniform_end - bs..uniform_end]);
                let ghost next = segment_run(
                    tape@,
                    bs as int,
                    hdr,
                    uniform_end as int,
                    uniform_end as int,
                    next_prev,
                );
                assert(rest == piece(segment_start as int, block_start as int, SegmentKind::Original)
                    + seq![(block_start as int, uniform_end as int, kind)] + next);
                assert(views0 + rest =~= self.segment_views() + next);
                segment_start = uniform_end;
                block_start = uniform_end;
                continue;
            }
            let free = !self.inside_known(block_start);
            let prev = self.prev_block;
            proof {
                lemma_residue_cut(
                    tape@,
                    hdr,
                    segment_start as int,
                    block_start as int,
                    block_end as int,
                    prev@,
                    free,
                );
            }
            if let Some((lead, split)) = self.residue_cut_at(
                segment_start,
                block_start,
                block_end,
                prev,
                free,
            ) {
                if segment_start != lead {
                    self.push(segment_start..lead, SegmentKind::Original);
                }
                if lead != split {
                    self.push(lead..split, SegmentKind::Original);
                }
                self.push(split..block_end, SegmentKind::Residue);
                let ghost next = segment_run(
                    tape@,
                    bs as int,
                    hdr,
                    block_end as int,
                    block_end as int,
                    block@,
                );
                assert(rest == piece(seg0, lead as int, SegmentKind::Original) + piece(
                    lead as int,
                    split as int,
                    SegmentKind::Original,
                ) + seq![(split as int, block_end as int, SegmentKind::Residue)] + next);
                assert(views0 + rest =~= self.segment_views() + next);
                segment_start = block_end;
                self.set_prev_block(block);
                block_start = block_end;
                continue;
            }
            // Each block boundary outside known headers starts a segment.
            let ghost head = if free {
                piece(seg0, block_start as int, SegmentKind::Original)
            } else {
                seq![]
            };
            if free {
                if segment_start != block_start {
                    self.push(segment_start..block_start, SegmentKind::Original);
                }
                segment_start = block_start;
            }
            assert(self.segment_views() =~= views0 + head);
            assert(rest == head + segment_run(
                tape@,
                bs as int,
                hdr,
                segment_start as int,
                block_end as int,
                block@,
            ));
            self.set_prev_block(block);
            block_start = block_end;
        }
        if segment_start != tape.len() {
            self.push(segment_start..tape.len(), SegmentKind::Original);
        }
        assert(self.segment_views() =~= target);
    }

    /// Whether a known header has the path `path`.
    fn has_path(&self, path: &[u8]) -> (r: bool)
        ensures
            r == has_path(self.paths(), path@),
    {
        let mut i: usize = 0;
        while i < self.paths.len()
            invariant
                i <= self.paths@.len(),
                forall|k: int| 0 <= k < i ==> self.paths()[k] != path@,
            decreases self.paths@.len() - i,
        {
            if same_bytes(self.paths[i].as_slice(), path) {
                assert(self.paths()[i as int] == path@);
                return true;
            }
            i += 1;
        }
        false
    }

    /// Records a known file placement. It must start at a block boundary,
    /// claim a non-empty range of the tape that no other header claims, and
    /// have a path of its own.
    #[verifier::spinoff_prover]
    #[verifier::rlimit(50)]
    pub fn add_header(&mut self, header: SegmentHeader) -> (r: Result<(), SegmentError>)
        requires
            old(self).wf(),
        ensures
            final(self).wf(),
            final(self).tape() == old(self).tape(),
            final(self).block_size() == old(self).block_size(),
            final(self).segment_views() == old(self).segment_views(),
            final(self).prev_block() == old(self).prev_block(),
            (r == Err::<(), SegmentError>(SegmentError::Unaligned)) <==> header.offset as int
                % old(self).block_size() != 0,
            header.offset as int % old(self).block_size() == 0 ==> ((r == Err::<(), SegmentError>(
                SegmentError::DuplicatePath,
            )) <==> has_path(old(self).paths(), header.path@)),
            header.offset as int % old(self).block_size() == 0 && !has_path(
                old(self).paths(),
                header.path@,
            ) && header.offset + header.len > usize::MAX ==> r == Err::<(), SegmentError>(
                SegmentError::Interval(IntervalError::NotDisjoint),
            ),
            header.offset as int % old(self).block_size() == 0 && !has_path(
                old(self).paths(),
                header.path@,
            ) && header.offset + header.len <= usize::MAX ==> {
                &&& (r == Err::<(), SegmentError>(SegmentError::Interval(IntervalError::Empty)))
                    <==> header.len == 0
                &&& header.len > 0 ==> ((r == Err::<(), SegmentError>(
                    SegmentError::Interval(IntervalError::NotDisjoint),
                )) <==> !header_points(header).disjoint(old(self).claimed()))
            },
            r is Ok ==> final(self).claimed() == old(self).claimed().union(header_points(header))
                && final(self).headers() == old(self).headers().update(
                header.offset as int / old(self).block_size(),
                Some(header),
            ) && final(self).paths() == old(self).paths().push(header.path@),
            r is Err ==> final(self).headers() == old(self).headers() && final(self).paths()
                == old(self).paths() && final(self).claimed() == old(self).claimed(),
    {
        reveal(Segmenter::wf);
        let offset = header.offset;
        if offset % self.block_size != 0 {
            return Err(SegmentError::Unaligned);
        }
        if self.has_path(header.path.as_slice()) {
            return Err(SegmentError::DuplicatePath);
        }
        if header.len > usize::MAX - offset {
            return Err(SegmentError::Interval(IntervalError::NotDisjoint));
        }
        let range = header.range();
        assert(range_points(range) == header_points(header)) by {
            assert(range_points(range) =~= header_points(header));
        }
        let ghost claimed0 = self.header_intervals.points();
        match self.header_intervals.insert(range) {
            Ok(()) => {},
            Err(e) => {
                assert(e == IntervalError::Empty <==> header.len == 0);
                assert(header.len > 0 ==> (e == IntervalError::NotDisjoint <==> !header_points(
                    header,
                ).disjoint(claimed0)));
                return Err(SegmentError::Interval(e));
            },
        }
        proof {
            assert(header_points(header).contains(offset as int));
            assert(!range_points(self.tape.len()..usize::MAX).contains(offset as int));
            lemma_block_index(offset as int, self.tape@.len() as int, self.block_size as int);
        }
        let path = header.path.clone();
        let ghost old_paths = self.paths@;
        self.paths.push(path);
        proof {
            assert(path@ == header.path@);
            assert(self.paths@.map_values(|p: Vec<u8>| p@) =~= old_paths.map_values(|p: Vec<u8>| p@).push(
                header.path@,
            ));
            assert forall|i: int, j: int|
                0 <= i < j < self.paths@.len() implies (#[trigger] self.paths@[i])@ != (
                #[trigger] self.paths@[j])@ by {
                if j == old_paths.len() {
                    assert(old_paths.map_values(|p: Vec<u8>| p@)[i] == old_paths[i]@);
                } else {
                    assert(self.paths@[i] == old_paths[i] && self.paths@[j] == old_paths[j]);
                }
            }
        }
        self.headers.set(offset / self.block_size, Some(header));
        Ok(())
    }

    /// The segments found so far, in order.
    pub fn segments(&self) -> (r: &[Segment<'a>])
        requires
            self.wf(),
        ensures
            r@.map_values(|s: Segment<'a>| s.view_spec()) == self.segment_views(),
            segments_in(r@, self.tape()),
    {
        reveal(Segmenter::wf);
        self.segments.as_slice()
    }
}

} // verus!
