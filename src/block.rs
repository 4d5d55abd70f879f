//! Block-wise segmentation of a tape whose known files are kept by offset.

use std::collections::HashMap;

use vstd::prelude::*;

use crate::interval::{range_points, IntervalError, IntervalSet};
use crate::s1::{claim_file, file_points, FileSegment};
use crate::segment::{
    all_equal, common_tail_start, diff_end, lemma_diff_end_bounds, lemma_tiles_concat,
    lemma_uniform_end_bounds, piece, tiles, uniform_end,
};

verus! {

broadcast use vstd::std_specs::hash::group_hash_axioms;

/// Tool for partitioning a tape into segments which are likely to be files.
pub struct Segmenter<'a> {
    tape: &'a [u8],
    block_size: usize,
    prev_block: &'a [u8],
    /// The segments found so far, in order.
    pub segments: Vec<Segment<'a>>,
    /// The known files, by their offset.
    pub headers: HashMap<usize, FileSegment>,
    header_intervals: IntervalSet,
}

/// A contiguous part of the tape and why it was cut there.
#[derive(Clone)]
pub struct Segment<'a> {
    /// The bytes of the segment.
    pub data: &'a [u8],
    /// The offset in the tape of the segment's first byte.
    pub offset: usize,
    /// Why the segment was cut where it was.
    pub kind: SegmentKind,
}

/// The reason a segment was cut where it was.
#[derive(Clone, Copy, Debug, PartialEq, Eq, Structural)]
pub enum SegmentKind {
    /// Contents that no heuristic claimed.
    Original,
    /// A tail that repeats the tail of the block before.
    Copy,
    /// Whole blocks of NUL bytes.
    AllNul,
    /// Whole blocks of 0xFF bytes.
    AllFF,
}

/// A segment as the contracts see it: its start, its end and its kind.
pub type CopyView = (int, int, SegmentKind);

impl<'a> Segment<'a> {
    /// The start, end and kind of the segment.
    pub open spec fn view_spec(&self) -> CopyView {
        (self.offset as int, self.offset + self.data@.len(), self.kind)
    }
}

/// The views of a sequence of segments.
pub open spec fn copy_views(s: Seq<Segment>) -> Seq<CopyView> {
    s.map_values(|x: Segment| x.view_spec())
}

/// The offsets at which a known file starts.
pub open spec fn file_stops(hdr: Map<usize, FileSegment>) -> Set<int> {
    Set::new(|off: int| 0 <= off <= usize::MAX && hdr.contains_key(off as usize))
}

/// The segments that segmentation emits from the state where the current
/// segment starts at `seg`, the next block at `pos`, and `prev` is the block
/// last compared against.
///
/// At each block: a run of whole NUL or 0xFF blocks, which stops where a
/// known file starts, is a segment of its own, except that a NUL run with a
/// NUL byte on both sides stays inside its segment; else a tail of more than
/// two bytes that the block shares with `prev` is a copy. What is left at
/// the end of the tape is one last segment.
pub open spec fn copy_run(
    tape: Seq<u8>,
    bs: int,
    stops: Set<int>,
    seg: int,
    pos: int,
    prev: Seq<u8>,
) -> Seq<CopyView>
    decreases tape.len() - pos,
    via copy_run_decreases
{
    if bs <= 0 || pos < 0 || pos >= tape.len() || seg < 0 || seg > pos {
        piece(seg, tape.len() as int, SegmentKind::Original)
    } else {
        let end = if pos + bs < tape.len() { pos + bs } else { tape.len() as int };
        let block = tape.subrange(pos, end);
        let u0 = uniform_end(tape, bs, stops, pos, 0);
        let u1 = uniform_end(tape, bs, stops, pos, 0xFF);
        if u0 != pos || u1 != pos {
            let ue = if u0 != pos { u0 } else { u1 };
            let kind = if u0 != pos { SegmentKind::AllNul } else { SegmentKind::AllFF };
            if seg != pos && u0 != pos && tape[pos - 1] == 0 && ue < tape.len() && tape[ue] == 0 {
                copy_run(tape, bs, stops, seg, ue, prev)
            } else {
                piece(seg, pos, SegmentKind::Original) + seq![(pos, ue, kind)] + copy_run(
                    tape,
                    bs,
                    stops,
                    ue,
                    ue,
                    tape.subrange(ue - bs, ue),
                )
            }
        } else if prev.len() > 0 && prev.len() >= block.len() {
            let split = pos + diff_end(block, prev, block.len() as int);
            if split + 2 < end {
                piece(seg, split, SegmentKind::Original) + seq![(split, end, SegmentKind::Copy)]
                    + copy_run(tape, bs, stops, end, end, block)
            } else {
                copy_run(tape, bs, stops, seg, end, block)
            }
        } else {
            copy_run(tape, bs, stops, seg, end, block)
        }
    }
}

#[via_fn]
proof fn copy_run_decreases(
    tape: Seq<u8>,
    bs: int,
    stops: Set<int>,
    seg: int,
    pos: int,
    prev: Seq<u8>,
) {
    if !(bs <= 0 || pos < 0 || pos >= tape.len() || seg < 0 || seg > pos) {
        lemma_uniform_end_bounds(tape, bs, stops, pos, 0);
        lemma_uniform_end_bounds(tape, bs, stops, pos, 0xFF);
    }
}

/// The segments emitted from any state where the current segment starts no
/// later than the next block tile the tape from the current segment's start
/// to its end.
proof fn lemma_copy_run_tiles(
    tape: Seq<u8>,
    bs: int,
    stops: Set<int>,
    seg: int,
    pos: int,
    prev: Seq<u8>,
)
    requires
        bs > 0,
        0 <= seg <= pos <= tape.len(),
    ensures
        tiles(copy_run(tape, bs, stops, seg, pos, prev), seg, tape.len() as int),
    decreases tape.len() - pos,
{
    let len = tape.len() as int;
    if pos >= len {
        return;
    }
    let end = if pos + bs < len { pos + bs } else { len };
    let block = tape.subrange(pos, end);
    let u0 = uniform_end(tape, bs, stops, pos, 0);
    let u1 = uniform_end(tape, bs, stops, pos, 0xFF);
    lemma_uniform_end_bounds(tape, bs, stops, pos, 0);
    lemma_uniform_end_bounds(tape, bs, stops, pos, 0xFF);
    if u0 != pos || u1 != pos {
        let ue = if u0 != pos { u0 } else { u1 };
        let kind = if u0 != pos { SegmentKind::AllNul } else { SegmentKind::AllFF };
        if seg != pos && u0 != pos && tape[pos - 1] == 0 && ue < len && tape[ue] == 0 {
            lemma_copy_run_tiles(tape, bs, stops, seg, ue, prev);
        } else {
            let rest = copy_run(tape, bs, stops, ue, ue, tape.subrange(ue - bs, ue));
            lemma_copy_run_tiles(tape, bs, stops, ue, ue, tape.subrange(ue - bs, ue));
            let p = piece(seg, pos, SegmentKind::Original);
            assert(tiles(p, seg, pos));
            assert(tiles(seq![(pos, ue, kind)], pos, ue));
            lemma_tiles_concat(p, seq![(pos, ue, kind)], seg, pos, ue);
            lemma_tiles_concat(p + seq![(pos, ue, kind)], rest, seg, ue, len);
        }
    } else if prev.len() > 0 && prev.len() >= block.len() {
        lemma_diff_end_bounds(block, prev, block.len() as int);
        let split = pos + diff_end(block, prev, block.len() as int);
        if split + 2 < end {
            let rest = copy_run(tape, bs, stops, end, end, block);
            lemma_copy_run_tiles(tape, bs, stops, end, end, block);
            let p = piece(seg, split, SegmentKind::Original);
            assert(tiles(p, seg, split));
            let r = seq![(split, end, SegmentKind::Copy)];
            assert(tiles(r, split, end));
            lemma_tiles_concat(p, r, seg, split, end);
            lemma_tiles_concat(p + r, rest, seg, end, len);
        } else {
            lemma_copy_run_tiles(tape, bs, stops, seg, end, block);
        }
    } else {
        lemma_copy_run_tiles(tape, bs, stops, seg, end, block);
    }
}

/// Block-wise segmentation tiles the tape: the segments that one run of
/// [`Segmenter::segment_blocks`] adds are non-empty, in increasing order,
/// without gap or overlap, and together cover the whole tape.
pub proof fn lemma_copy_segments_tile(tape: Seq<u8>, bs: int, stops: Set<int>, prev: Seq<u8>)
    requires
        bs > 0,
    ensures
        tiles(copy_run(tape, bs, stops, 0, 0, prev), 0, tape.len() as int),
{
    lemma_copy_run_tiles(tape, bs, stops, 0, 0, prev);
}

impl<'a> Segmenter<'a> {
    /// The tape being segmented.
    pub closed spec fn tape(&self) -> Seq<u8> {
        self.tape@
    }

    /// The block size that the tape was written with.
    pub closed spec fn block_size(&self) -> int {
        self.block_size as int
    }

    /// The last block that segmentation compared against.
    pub closed spec fn prev_block(&self) -> Seq<u8> {
        self.prev_block@
    }

    /// The points claimed by known files, and those outside the tape.
    pub closed spec fn claimed(&self) -> Set<int> {
        self.header_intervals.points()
    }

    /// The known files, by their offset.
    pub closed spec fn files(&self) -> Map<usize, FileSegment> {
        self.headers@
    }

    /// The segments found so far, in order.
    pub closed spec fn segment_views(&self) -> Seq<CopyView> {
        copy_views(self.segments@)
    }

    /// The segmenter is well formed: the block size is positive, the claimed
    /// points form a well-formed interval set that holds everything past the
    /// tape and the offset of every known file.
    #[verifier::opaque]
    pub closed spec fn wf(&self) -> bool {
        &&& self.block_size > 0
        &&& self.header_intervals.wf()
        &&& range_points(self.tape@.len() as usize..usize::MAX).subset_of(self.header_intervals.points())
        &&& forall|k: usize| #[trigger]
            self.headers@.contains_key(k) ==> self.header_intervals.points().contains(k as int)
    }

    /// Creates a segmenter for a tape written with blocks of `block_size`
    /// bytes.
    pub fn new(tape: &'a [u8], block_size: usize) -> (r: Self)
        requires
            block_size > 0,
        ensures
            r.wf(),
            r.tape() == tape@,
            r.block_size() == block_size,
            r.files() == Map::<usize, FileSegment>::empty(),
            r.claimed() == range_points(0..0).union(range_points(tape.len()..usize::MAX)),
            r.prev_block().len() == 0,
            r.segment_views().len() == 0,
    {
        reveal(Segmenter::wf);
        let r = Segmenter {
            tape,
            block_size,
            prev_block: &[],
            segments: Vec::new(),
            headers: HashMap::new(),
            header_intervals: IntervalSet::new(0..tape.len()),
        };
        proof {
            let s = r.header_intervals@;
            assert(crate::interval::seq_points(s) =~= range_points(0..0).union(
                range_points(tape.len()..usize::MAX),
            )) by {
                assert forall|p: int| range_points(s[1]).contains(p) implies #[trigger] crate::interval::seq_points(s).contains(p) by {
                    assert(crate::interval::range_has(s[1], p));
                }
                assert forall|p: int| crate::interval::seq_points(s).contains(p) implies #[trigger] range_points(0..0).union(
                range_points(tape.len()..usize::MAX)).contains(p) by {
                    let j = choose|j: int| 0 <= j < s.len() && #[trigger] crate::interval::range_has(s[j], p);
                    assert(j == 0 || j == 1);
                }
            }
            assert(copy_views(r.segments@) =~= Seq::empty());
        }
        r
    }

    /// Records a known file, which must claim a non-empty range of the tape
    /// that no other file claims.
    #[verifier::spinoff_prover]
    #[verifier::rlimit(50)]
    pub fn add_header(&mut self, header: FileSegment) -> (r: Result<(), IntervalError>)
        requires
            old(self).wf(),
        ensures
            final(self).wf(),
            final(self).tape() == old(self).tape(),
            final(self).block_size() == old(self).block_size(),
            final(self).prev_block() == old(self).prev_block(),
            final(self).segment_views() == old(self).segment_views(),
            (r == Err::<(), IntervalError>(IntervalError::Empty)) <==> header.len == 0,
            r is Ok <==> header.len > 0 && header.offset + header.len <= usize::MAX
                && file_points(header).disjoint(old(self).claimed()),
            r is Ok ==> final(self).claimed() == old(self).claimed().union(file_points(header))
                && final(self).files() == old(self).files().insert(header.offset, header),
            r is Err ==> final(self).claimed() == old(self).claimed() && final(self).files()
                == old(self).files(),
    {
        reveal(Segmenter::wf);
        let ghost old_files = self.headers@;
        let ghost old_claimed = self.header_intervals.points();
        match claim_file(&mut self.header_intervals, &header) {
            Ok(()) => {},
            Err(e) => {
                return Err(e);
            },
        }
        let offset = header.offset;
        proof {
            assert(file_points(header).contains(offset as int));
            if old_files.contains_key(offset) {
                assert(old_claimed.contains(offset as int));
                assert(!file_points(header).disjoint(old_claimed));
            }
        }
        let previous = self.headers.insert(offset, header);
        proof {
            assert forall|k: usize| #[trigger] self.headers@.contains_key(k) implies self.header_intervals.points().contains(
                k as int,
            ) by {
                if k != offset {
                    assert(old_files.contains_key(k));
                }
            }
        }
        assert(previous is None);
        Ok(())
    }

    /// Partitions the tape into segments which are likely to be files, and
    /// appends them to the segments found so far.
    ///
    /// It exploits the behavior of the dumping program that was used, which
    /// evidently read files using a 512-byte buffer and directly dumped the
    /// buffer. When the buffer is not completely filled, as happens for the
    /// last block of a file, its tail is left unchanged, so by comparing blocks
    /// for common tails, file boundaries can be quite accurately identified.
    #[verifier::spinoff_prover]
    #[verifier::rlimit(100)]
    pub fn segment_blocks(&mut self)
        requires
            old(self).wf(),
        ensures
            final(self).wf(),
            final(self).tape() == old(self).tape(),
            final(self).block_size() == old(self).block_size(),
            final(self).files() == old(self).files(),
            final(self).claimed() == old(self).claimed(),
            final(self).segment_views() == old(self).segment_views() + copy_run(
                old(self).tape(),
                old(self).block_size(),
                file_stops(old(self).files()),
                0,
                0,
                old(self).prev_block(),
            ),
    {
        let ghost stops = file_stops(self.files());
        let ghost files = self.files();
        let ghost claimed = self.claimed();
        let ghost target = self.segment_views() + copy_run(
            self.tape(),
            self.block_size(),
            stops,
            0,
            0,
            self.prev_block(),
        );
        reveal(Segmenter::wf);
        let tape = self.tape;
        let bs = self.block_size;
        let mut segment_start: usize = 0;
        let mut block_start: usize = 0;
        while block_start < tape.len()
            invariant
                self.wf(),
                self.tape() == tape@,
                self.block_size() == bs,
                bs > 0,
                self.files() == files,
                stops == file_stops(files),
                self.claimed() == claimed,
                segment_start <= block_start <= tape@.len(),
                self.segment_views() + copy_run(
                    tape@,
                    bs as int,
                    stops,
                    segment_start as int,
                    block_start as int,
                    self.prev_block(),
                ) == target,
            decreases tape@.len() - block_start,
        {
            let ghost views0 = self.segment_views();
            let ghost prev0 = self.prev_block();
            let ghost rest = copy_run(
                tape@,
                bs as int,
                stops,
                segment_start as int,
                block_start as int,
                prev0,
            );
            let block_end = if tape.len() - block_start > bs {
                block_start + bs
            } else {
                tape.len()
            };
            let block = &tape[block_start..block_end];
            let uniform = match self.check_uniform(block_start, 0) {
                Some(end) => Some((end, SegmentKind::AllNul)),
                None => match self.check_uniform(block_start, 0xFF) {
                    Some(end) => Some((end, SegmentKind::AllFF)),
                    None => None,
                },
            };
            if let Some((uniform_end, kind)) = uniform {
                if segment_start != block_start {
                    // Join NUL blocks surrounded by zeros.
                    if kind == SegmentKind::AllNul && block_start >= 1 && tape[block_start - 1] == 0
                        && uniform_end < tape.len() && tape[uniform_end] == 0 {
                        assert(rest == copy_run(
                            tape@,
                            bs as int,
                            stops,
                            segment_start as int,
                            uniform_end as int,
                            prev0,
                        ));
                        block_start = uniform_end;
                        continue;
                    }
                    self.push(segment_start, block_start, SegmentKind::Original);
                }
                self.push(block_start, uniform_end, kind);
                self.set_prev_block(&tape[uniform_end - bs..uniform_end]);
                let ghost next = copy_run(
                    tape@,
                    bs as int,
                    stops,
                    uniform_end as int,
                    uniform_end as int,
                    tape@.subrange(uniform_end - bs, uniform_end as int),
                );
                assert(rest == piece(segment_start as int, block_start as int, SegmentKind::Original)
                    + seq![(block_start as int, uniform_end as int, kind)] + next);
                assert(views0 + rest =~= self.segment_views() + next);
                segment_start = uniform_end;
                block_start = uniform_end;
                continue;
            }
            let prev = self.prev_block;
            if prev.len() > 0 && prev.len() >= block.len() {
                let eq_index = common_tail_start(block, prev);
                // Apparent copies of length 1 or 2 are usually false positives.
                if block.len() - eq_index > 2 {
                    let split = block_start + eq_index;
                    if segment_start != split {
                        self.push(segment_start, split, SegmentKind::Original);
                    }
                    self.push(split, block_end, SegmentKind::Copy);
                    let ghost next = copy_run(
                        tape@,
                        bs as int,
                        stops,
                        block_end as int,
                        block_end as int,
                        block@,
                    );
                    assert(rest == piece(segment_start as int, split as int, SegmentKind::Original)
                        + seq![(split as int, block_end as int, SegmentKind::Copy)] + next);
                    assert(views0 + rest =~= self.segment_views() + next);
                    segment_start = block_end;
                    self.set_prev_block(block);
                    block_start = block_end;
                    continue;
                }
            }
            assert(rest == copy_run(
                tape@,
                bs as int,
                stops,
                segment_start as int,
                block_end as int,
                block@,
            ));
            self.set_prev_block(block);
            block_start = block_end;
        }
        if segment_start != tape.len() {
            self.push(segment_start, tape.len(), SegmentKind::Original);
        }
        assert(self.segment_views() =~= target);
    }

    /// The end of the run of whole blocks of `byte` from `block_start`, if
    /// there is one.
    fn check_uniform(&self, block_start: usize, byte: u8) -> (r: Option<usize>)
        requires
            self.wf(),
            block_start <= self.tape().len(),
        ensures
            ({
                let e = uniform_end(
                    self.tape(),
                    self.block_size(),
                    file_stops(self.files()),
                    block_start as int,
                    byte,
                );
                &&& r is Some <==> e != block_start
                &&& r matches Some(x) ==> x == e && block_start + self.block_size() <= x
                    <= self.tape().len()
            }),
    {
        reveal(Segmenter::wf);
        let ghost stops = file_stops(self.files());
        proof {
            lemma_uniform_end_bounds(self.tape(), self.block_size(), stops, block_start as int, byte);
        }
        let ghost target = uniform_end(self.tape(), self.block_size(), stops, block_start as int, byte);
        let tape = self.tape;
        let bs = self.block_size;
        let mut end = block_start;
        reveal(uniform_end);
        while tape.len() - end >= bs
            invariant_except_break
                uniform_end(tape@, bs as int, stops, end as int, byte) == target,
            invariant
                tape@ == self.tape(),
                bs == self.block_size(),
                stops == file_stops(self.files()),
                bs > 0,
                block_start <= end <= tape@.len(),
                tape@.len() - end < bs ==> uniform_end(tape@, bs as int, stops, end as int, byte)
                    == end,
            ensures
                end == target,
            decreases tape@.len() - end,
        {
            let ghost e0 = end as int;
            reveal(uniform_end);
            let uniform = all_equal(&tape[end..end + bs], byte);
            if !uniform {
                assert(uniform_end(tape@, bs as int, stops, e0, byte) == e0);
                break;
            }
            end += bs;
            let at_header = self.headers.contains_key(&end);
            assert(uniform_end(tape@, bs as int, stops, e0, byte) == if at_header {
                end as int
            } else {
                uniform_end(tape@, bs as int, stops, end as int, byte)
            });
            if at_header {
                break;
            }
        }
        if end != block_start {
            Some(end)
        } else {
            None
        }
    }

    /// Appends a segment over `start..end` of the tape.
    fn push(&mut self, start: usize, end: usize, kind: SegmentKind)
        requires
            old(self).wf(),
            start <= end <= old(self).tape().len(),
        ensures
            final(self).wf(),
            final(self).tape() == old(self).tape(),
            final(self).block_size() == old(self).block_size(),
            final(self).files() == old(self).files(),
            final(self).claimed() == old(self).claimed(),
            final(self).prev_block() == old(self).prev_block(),
            final(self).segment_views() == old(self).segment_views().push(
                (start as int, end as int, kind),
            ),
            final(self).segments@.last().data@ == old(self).tape().subrange(start as int, end as int),
            final(self).segments@.drop_last() == old(self).segments@,
    {
        reveal(Segmenter::wf);
        let tape = self.tape;
        let seg = Segment { data: &tape[start..end], offset: start, kind };
        let ghost old_segments = self.segments@;
        self.segments.push(seg);
        proof {
            assert(copy_views(self.segments@) =~= copy_views(old_segments).push(seg.view_spec()));
            assert(self.segments@.drop_last() =~= old_segments);
        }
    }

    /// Remembers `block` as the last block compared against.
    fn set_prev_block(&mut self, block: &'a [u8])
        requires
            old(self).wf(),
        ensures
            final(self).wf(),
            final(self).tape() == old(self).tape(),
            final(self).block_size() == old(self).block_size(),
            final(self).files() == old(self).files(),
            final(self).claimed() == old(self).claimed(),
            final(self).segments@ == old(self).segments@,
            final(self).prev_block() == block@,
    {
        reveal(Segmenter::wf);
        self.prev_block = block;
    }
}

} // verus!
