//! Candidate split points of a tape, proposed by several heuristics and kept
//! in one ordered sequence.

use std::ops::Range;

use vstd::prelude::*;
use vstd::multiset::Multiset;
use vstd::seq_lib::*;

use crate::detect::{all_text, detect_spec, is_text, Magic};
use crate::segment::{all_byte, all_equal, common_tail_start, diff_end};

verus! {

broadcast use {
    to_multiset_build,
    to_multiset_insert,
    to_multiset_remove,
    to_multiset_len,
    vstd::multiset::group_multiset_axioms,
    vstd::multiset::lemma_multiset_empty_len,
};

/// Tool for segmenting a tape into likely files.
pub struct Segmenter<'t> {
    tape: &'t [u8],
    /// The block size that the tape was written with.
    block_size: usize,
    /// Splits, sorted by offsets.
    splits: Vec<Split>,
}

/// A location in a tape at which a file can be split.
#[derive(Debug, PartialEq, Eq)]
pub struct Split {
    /// Range of offsets at which this split can be performed.
    offsets: Range<usize>,
    /// The split strategy.
    kind: SplitKind,
}

/// Split strategies for segmenting files in a tape, from the lowest
/// priority to the highest.
#[derive(Clone, Copy, Debug, PartialEq, Eq, PartialOrd, Ord, Hash, Structural)]
pub enum SplitKind {
    /// A fixed-size block of the tape.
    Block,
    /// Data at the end of a block which is identical in the previous block.
    Residue,
    /// NULs at the start of a residue.
    NulResidue,
    /// Line feeds at the start of a residue.
    LfResidue,
    /// The size of an a.out binary determined from its header.
    AOutSize,
    /// A block-aligned a.out or `#!` magic number.
    Magic,
    /// Blocks of all 0xFF bytes.
    FF,
}

/// Split direction.
#[derive(Clone, Copy, Debug, PartialEq, Eq, Structural)]
pub enum SplitDir {
    /// The start of a file.
    Start,
    /// The end of a file.
    End,
    /// Either the start or end of a file.
    Both,
}

impl SplitKind {
    /// The priority of the kind: a higher one wins where two kinds propose
    /// a split at the same place.
    pub open spec fn rank(self) -> int {
        match self {
            SplitKind::Block => 0,
            SplitKind::Residue => 1,
            SplitKind::NulResidue => 2,
            SplitKind::LfResidue => 3,
            SplitKind::AOutSize => 4,
            SplitKind::Magic => 5,
            SplitKind::FF => 6,
        }
    }

    /// The priority of the kind.
    pub fn priority(self) -> (r: u8)
        ensures
            r == self.rank(),
    {
        match self {
            SplitKind::Block => 0,
            SplitKind::Residue => 1,
            SplitKind::NulResidue => 2,
            SplitKind::LfResidue => 3,
            SplitKind::AOutSize => 4,
            SplitKind::Magic => 5,
            SplitKind::FF => 6,
        }
    }

    /// Which edges of a file the kind may mark.
    pub open spec fn direction_spec(self) -> SplitDir {
        match self {
            SplitKind::Block => SplitDir::Start,
            SplitKind::Residue | SplitKind::NulResidue | SplitKind::LfResidue
            | SplitKind::AOutSize => SplitDir::End,
            SplitKind::Magic | SplitKind::FF => SplitDir::Both,
        }
    }

    /// Direction of the split.
    pub fn direction(self) -> (r: SplitDir)
        ensures
            r == self.direction_spec(),
    {
        match self {
            SplitKind::Block => SplitDir::Start,
            SplitKind::Residue => SplitDir::End,
            SplitKind::NulResidue => SplitDir::End,
            SplitKind::LfResidue => SplitDir::End,
            SplitKind::AOutSize => SplitDir::End,
            SplitKind::Magic => SplitDir::Both,
            SplitKind::FF => SplitDir::Both,
        }
    }
}

/// A split as the contracts see it: where its range starts and ends, and
/// its kind.
pub type SplitView = (int, int, SplitKind);

impl View for Split {
    type V = SplitView;

    closed spec fn view(&self) -> SplitView {
        (self.offsets.start as int, self.offsets.end as int, self.kind)
    }
}

/// Whether `a` orders before `b`: by start, then end, then priority.
pub open spec fn split_lt(a: SplitView, b: SplitView) -> bool {
    ||| a.0 < b.0
    ||| (a.0 == b.0 && a.1 < b.1)
    ||| (a.0 == b.0 && a.1 == b.1 && a.2.rank() < b.2.rank())
}

/// Whether `a` orders before `b` or equals it.
pub open spec fn split_le(a: SplitView, b: SplitView) -> bool {
    split_lt(a, b) || a == b
}

/// Whether the splits of `s` are in order.
pub open spec fn sorted(s: Seq<SplitView>) -> bool {
    forall|i: int, j: int| 0 <= i < j < s.len() ==> split_le(#[trigger] s[i], #[trigger] s[j])
}

/// The views of a sequence of splits.
pub open spec fn views(s: Seq<Split>) -> Seq<SplitView> {
    s.map_values(|x: Split| x@)
}

/// `t` holds the splits of `s` in order.
pub open spec fn sorts(t: Seq<SplitView>, s: Seq<SplitView>) -> bool {
    &&& sorted(t)
    &&& t.to_multiset() == s.to_multiset()
}

/// The point split at `offset` of `kind`.
pub open spec fn point(offset: int, kind: SplitKind) -> SplitView {
    (offset, offset, kind)
}

impl Split {
    /// Creates a new split over the given range.
    pub fn new(offsets: Range<usize>, kind: SplitKind) -> (r: Self)
        requires
            offsets.start <= offsets.end,
        ensures
            r@ == (offsets.start as int, offsets.end as int, kind),
    {
        Split { offsets, kind }
    }

    /// Creates a new split at the given offset.
    pub fn new_point(offset: usize, kind: SplitKind) -> (r: Self)
        ensures
            r@ == point(offset as int, kind),
    {
        Split { offsets: offset..offset, kind }
    }

    /// Range of offsets at which this split can be performed.
    pub fn offsets(&self) -> (r: Range<usize>)
        ensures
            r.start == self@.0,
            r.end == self@.1,
    {
        self.offsets.start..self.offsets.end
    }

    /// The start offset of this split.
    pub fn start(&self) -> (r: usize)
        ensures
            r == self@.0,
    {
        self.offsets.start
    }

    /// The end offset of this split.
    pub fn end(&self) -> (r: usize)
        ensures
            r == self@.1,
    {
        self.offsets.end
    }

    /// The split strategy.
    pub fn kind(&self) -> (r: SplitKind)
        ensures
            r == self@.2,
    {
        self.kind
    }

    /// Whether this split orders before `other`, or equals it.
    fn le(&self, other: &Split) -> (r: bool)
        ensures
            r == split_le(self@, other@),
    {
        let (a, b) = (self.kind.priority(), other.kind.priority());
        if self.offsets.start != other.offsets.start {
            self.offsets.start < other.offsets.start
        } else if self.offsets.end != other.offsets.end {
            self.offsets.end < other.offsets.end
        } else {
            proof {
                if a == b {
                    assert(self@.2 == other@.2);
                }
            }
            a <= b
        }
    }
}

/// `split_le` orders splits totally.
proof fn lemma_le_total(a: SplitView, b: SplitView)
    ensures
        split_le(a, b) || split_le(b, a),
{
    if a.0 == b.0 && a.1 == b.1 && a.2.rank() == b.2.rank() {
        assert(a.2 == b.2);
    }
}

/// `split_le` is transitive.
proof fn lemma_le_trans(a: SplitView, b: SplitView, c: SplitView)
    requires
        split_le(a, b),
        split_le(b, c),
    ensures
        split_le(a, c),
{
    if a.0 == c.0 && a.1 == c.1 && a.2.rank() == c.2.rank() {
        assert(a.2 == c.2);
    }
}

/// The split lies in a tape of `len` bytes, and a residue split holds at
/// least one byte.
pub open spec fn split_in(v: SplitView, len: int) -> bool {
    &&& 0 <= v.0 <= v.1 <= len
    &&& v.2 == SplitKind::Residue ==> v.0 < v.1
}

/// Every split of `s` lies in a tape of `len` bytes.
pub open spec fn splits_in(s: Seq<SplitView>, len: int) -> bool {
    forall|i: int| 0 <= i < s.len() ==> split_in(#[trigger] s[i], len)
}

/// `n` NUL bytes.
pub open spec fn zeros(n: int) -> Seq<u8> {
    Seq::new(n as nat, |i: int| 0u8)
}

/// The splits that block framing proposes from offset `pos` on, where
/// `prev` is the block before, or empty at the start of the tape: a block
/// split where each block starts, and a residue split over the tail that a
/// block shares with the one before (with NULs, for the first block) when
/// that tail is longer than two bytes.
pub open spec fn block_splits(tape: Seq<u8>, bs: int, pos: int, prev: Seq<u8>) -> Seq<SplitView>
    decreases tape.len() - pos,
{
    if bs <= 0 || pos < 0 || pos >= tape.len() {
        seq![]
    } else {
        let end = if pos + bs < tape.len() { pos + bs } else { tape.len() as int };
        let block = tape.subrange(pos, end);
        let base = if prev.len() == 0 { zeros(block.len() as int) } else { prev };
        let e = diff_end(block, base, block.len() as int);
        seq![point(pos, SplitKind::Block)] + (if block.len() - e > 2 {
            seq![(pos + e, end, SplitKind::Residue)]
        } else {
            seq![]
        }) + block_splits(tape, bs, end, block)
    }
}

/// The splits around runs of blocks of all 0xFF bytes from offset `pos`
/// on, where `prev_ff` tells whether the block before was such a block: a
/// point split wherever a run starts or ends.
pub open spec fn ff_splits(tape: Seq<u8>, bs: int, pos: int, prev_ff: bool) -> Seq<SplitView>
    decreases tape.len() - pos,
{
    if bs <= 0 || pos < 0 {
        seq![]
    } else if pos >= tape.len() {
        if prev_ff {
            seq![point(tape.len() as int, SplitKind::FF)]
        } else {
            seq![]
        }
    } else {
        let end = if pos + bs < tape.len() { pos + bs } else { tape.len() as int };
        let ff = all_byte(tape.subrange(pos, end), 0xFF);
        (if ff != prev_ff {
            seq![point(pos, SplitKind::FF)]
        } else {
            seq![]
        }) + ff_splits(tape, bs, end, ff)
    }
}

/// The magic splits from offset `pos` on: a point split at the start of
/// each block that starts with a magic number.
pub open spec fn magic_splits(tape: Seq<u8>, bs: int, pos: int) -> Seq<SplitView>
    decreases tape.len() - pos,
{
    if bs <= 0 || pos < 0 || pos >= tape.len() {
        seq![]
    } else {
        let end = if pos + bs < tape.len() { pos + bs } else { tape.len() as int };
        (if detect_spec(tape.subrange(pos, end)) is Some {
            seq![point(pos, SplitKind::Magic)]
        } else {
            seq![]
        }) + magic_splits(tape, bs, end)
    }
}

/// Whether `k` is the kind that wins at `offset` among the splits of `s`:
/// some split of kind `k` starts there, and no split that starts there has
/// a higher priority.
pub open spec fn wins_at(s: Seq<SplitView>, offset: int, k: SplitKind) -> bool {
    &&& exists|i: int| 0 <= i < s.len() && s[i].0 == offset && #[trigger] s[i].2 == k
    &&& forall|i: int| 0 <= i < s.len() && #[trigger] s[i].0 == offset ==> s[i].2.rank() <= k.rank()
}

/// In sorted splits, of two that start and end at the same offsets the
/// later one has the higher priority, so the last split proposed at a place
/// is the one that wins there.
pub proof fn lemma_sorted_priority(s: Seq<SplitView>, i: int, j: int)
    requires
        sorted(s),
        0 <= i < j < s.len(),
        s[i].0 == s[j].0,
        s[i].1 == s[j].1,
    ensures
        s[i].2.rank() <= s[j].2.rank(),
{
    assert(split_le(s[i], s[j]));
}

/// The first offset from `from` below `to` whose byte is not `b`, or `to`.
pub open spec fn first_other(tape: Seq<u8>, b: u8, from: int, to: int) -> int
    decreases to - from,
{
    if from >= to {
        to
    } else if tape[from] != b {
        from
    } else {
        first_other(tape, b, from + 1, to)
    }
}

/// The split over the line feeds at the head of residue `v`, in a tape of
/// blocks of `bs` bytes. It starts one byte later where the content before
/// it in its block is text that does not end with a line feed, so that the
/// text keeps one.
pub open spec fn lf_split(tape: Seq<u8>, bs: int, v: SplitView) -> SplitView {
    let start = if v.0 != 0 && tape[v.0 - 1] != 0x0a && all_text(
        tape.subrange(v.0 - v.0 % bs, v.0),
    ) {
        v.0 + 1
    } else {
        v.0
    };
    (start, first_other(tape, 0x0a, v.0 + 1, v.1), SplitKind::LfResidue)
}

/// The split over the NULs at the head of residue `v`.
pub open spec fn nul_split(tape: Seq<u8>, v: SplitView) -> SplitView {
    (v.0, first_other(tape, 0, v.0 + 1, v.1), SplitKind::NulResidue)
}

/// The line-feed splits for the residues of `s` that start with a line
/// feed, in the order of `s`.
pub open spec fn lf_extras(tape: Seq<u8>, bs: int, s: Seq<SplitView>) -> Seq<SplitView>
    decreases s.len(),
{
    if s.len() == 0 {
        seq![]
    } else {
        let v = s.last();
        let rest = lf_extras(tape, bs, s.drop_last());
        if v.2 == SplitKind::Residue && tape[v.0] == 0x0a {
            rest.push(lf_split(tape, bs, v))
        } else {
            rest
        }
    }
}

/// The NUL splits for the residues of `s` that start with a NUL, in the
/// order of `s`.
pub open spec fn nul_extras(tape: Seq<u8>, s: Seq<SplitView>) -> Seq<SplitView>
    decreases s.len(),
{
    if s.len() == 0 {
        seq![]
    } else {
        let v = s.last();
        let rest = nul_extras(tape, s.drop_last());
        if v.2 == SplitKind::Residue && tape[v.0] == 0 {
            rest.push(nul_split(tape, v))
        } else {
            rest
        }
    }
}

/// Sorting keeps every split in the tape.
proof fn lemma_sorted_in(t: Seq<SplitView>, s: Seq<SplitView>, len: int)
    requires
        t.to_multiset() == s.to_multiset(),
        splits_in(s, len),
    ensures
        splits_in(t, len),
{
    assert forall|i: int| 0 <= i < t.len() implies split_in(#[trigger] t[i], len) by {
        to_multiset_contains(t, t[i]);
        to_multiset_contains(s, t[i]);
        assert(t.contains(t[i]));
        let j = choose|j: int| 0 <= j < s.len() && s[j] == t[i];
        assert(split_in(s[j], len));
    }
}

/// Two lists of splits that lie in the tape make one.
proof fn lemma_splits_in_concat(s: Seq<SplitView>, t: Seq<SplitView>, len: int)
    requires
        splits_in(s, len),
        splits_in(t, len),
    ensures
        splits_in(s + t, len),
{
    assert forall|i: int| 0 <= i < (s + t).len() implies split_in(#[trigger] (s + t)[i], len) by {
        if i >= s.len() {
            assert((s + t)[i] == t[i - s.len()]);
        }
    }
}

/// The offset of the last byte from which `block` is all NUL.
pub(crate) fn nonzero_end(block: &[u8]) -> (r: usize)
    ensures
        r == diff_end(block@, zeros(block@.len() as int), block@.len() as int),
        r <= block@.len(),
{
    let ghost z = zeros(block@.len() as int);
    let mut i = block.len();
    while i > 0
        invariant
            i <= block@.len(),
            z == zeros(block@.len() as int),
            diff_end(block@, z, block@.len() as int) == diff_end(block@, z, i as int),
        decreases i,
    {
        reveal(diff_end);
        assert(z[i - 1] == 0);
        if block[i - 1] != 0 {
            return i;
        }
        i -= 1;
    }
    reveal(diff_end);
    0
}

impl<'t> Segmenter<'t> {
    /// The tape being segmented.
    pub closed spec fn tape(&self) -> Seq<u8> {
        self.tape@
    }

    /// The block size that the tape was written with.
    pub closed spec fn block_size(&self) -> int {
        self.block_size as int
    }

    /// The splits proposed so far, in order.
    pub closed spec fn split_views(&self) -> Seq<SplitView> {
        views(self.splits@)
    }

    /// The block size is positive and every split lies in the tape.
    pub open spec fn wf(&self) -> bool {
        &&& self.block_size() > 0
        &&& splits_in(self.split_views(), self.tape().len() as int)
    }

    /// Creates a new segmenter for the given tape.
    pub fn new(tape: &'t [u8], block_size: usize) -> (r: Self)
        requires
            block_size > 0,
        ensures
            r.wf(),
            r.tape() == tape@,
            r.block_size() == block_size,
            r.split_views().len() == 0,
    {
        let r = Segmenter { tape, block_size, splits: Vec::new() };
        assert(views(r.splits@) =~= Seq::empty());
        r
    }

    /// The splits proposed so far, in order.
    pub fn splits(&self) -> (r: &[Split])
        ensures
            views(r@) == self.split_views(),
    {
        self.splits.as_slice()
    }

    /// Adds `extra` to the splits and puts them back in order.
    fn merge(&mut self, extra: Vec<Split>)
        requires
            old(self).wf(),
            splits_in(views(extra@), old(self).tape().len() as int),
        ensures
            final(self).wf(),
            final(self).tape() == old(self).tape(),
            final(self).block_size() == old(self).block_size(),
            sorts(final(self).split_views(), old(self).split_views() + views(extra@)),
    {
        let ghost s0 = views(self.splits@);
        let ghost e = views(extra@);
        let mut extra = extra;
        self.splits.append(&mut extra);
        proof {
            assert(views(self.splits@) =~= s0 + e);
            lemma_splits_in_concat(s0, e, self.tape@.len() as int);
        }
        sort_splits(&mut self.splits);
        proof {
            lemma_sorted_in(views(self.splits@), s0 + e, self.tape@.len() as int);
        }
    }

    /// Performs all supported splits: block framing, runs of 0xFF blocks,
    /// magic numbers, and then the refinements of residue.
    pub fn split_all(&mut self)
        requires
            old(self).wf(),
        ensures
            final(self).wf(),
            final(self).tape() == old(self).tape(),
            final(self).block_size() == old(self).block_size(),
            exists|s1: Seq<SplitView>, s2: Seq<SplitView>, s3: Seq<SplitView>, s4: Seq<SplitView>|
                {
                    &&& sorts(
                        s1,
                        old(self).split_views() + block_splits(
                            old(self).tape(),
                            old(self).block_size(),
                            0,
                            seq![],
                        ),
                    )
                    &&& sorts(
                        s2,
                        s1 + ff_splits(old(self).tape(), old(self).block_size(), 0, false),
                    )
                    &&& sorts(s3, s2 + magic_splits(old(self).tape(), old(self).block_size(), 0))
                    &&& sorts(s4, s3 + lf_extras(old(self).tape(), old(self).block_size(), s3))
                    &&& sorts(final(self).split_views(), s4 + nul_extras(old(self).tape(), s4))
                },
    {
        self.split_blocks();
        let ghost s1 = self.split_views();
        self.split_ff_blocks();
        let ghost s2 = self.split_views();
        self.split_magic();
        let ghost s3 = self.split_views();
        self.split_lf_residue();
        let ghost s4 = self.split_views();
        self.split_nul_residue();
    }

    /// Splits into blocks. This inserts split points at multiples of the block
    /// size, and detects when residue likely remains from the last block and
    /// inserts split ranges there.
    pub fn split_blocks(&mut self)
        requires
            old(self).wf(),
        ensures
            final(self).wf(),
            final(self).tape() == old(self).tape(),
            final(self).block_size() == old(self).block_size(),
            sorts(
                final(self).split_views(),
                old(self).split_views() + block_splits(
                    old(self).tape(),
                    old(self).block_size(),
                    0,
                    seq![],
                ),
            ),
    {
        let tape = self.tape;
        let bs = self.block_size;
        let ghost whole = block_splits(tape@, bs as int, 0, seq![]);
        let mut found: Vec<Split> = Vec::new();
        let mut block_start: usize = 0;
        let mut prev: &[u8] = &[];
        assert(prev@ =~= Seq::<u8>::empty());
        while block_start < tape.len()
            invariant
                bs > 0,
                block_start <= tape@.len(),
                prev@.len() == 0 || prev@.len() == bs || block_start == tape@.len(),
                views(found@) + block_splits(tape@, bs as int, block_start as int, prev@) == whole,
                splits_in(views(found@), tape@.len() as int),
            decreases tape@.len() - block_start,
        {
            let ghost f0 = views(found@);
            let block_end = if tape.len() - block_start > bs {
                block_start + bs
            } else {
                tape.len()
            };
            let block = &tape[block_start..block_end];
            found.push(Split::new_point(block_start, SplitKind::Block));
            let eq_index = if prev.len() == 0 {
                nonzero_end(block)
            } else {
                common_tail_start(block, prev)
            };
            let ghost base = if prev@.len() == 0 { zeros(block@.len() as int) } else { prev@ };
            assert(eq_index == diff_end(block@, base, block@.len() as int));
            let residue = block.len() - eq_index > 2;
            if residue {
                found.push(Split::new(block_start + eq_index..block_end, SplitKind::Residue));
            }
            proof {
                let mid = if residue {
                    seq![(block_start + eq_index, block_end as int, SplitKind::Residue)]
                } else {
                    seq![]
                };
                assert(views(found@) =~= f0 + seq![point(block_start as int, SplitKind::Block)] + mid);
                assert(block_splits(tape@, bs as int, block_start as int, prev@) == seq![
                    point(block_start as int, SplitKind::Block),
                ] + mid + block_splits(tape@, bs as int, block_end as int, block@));
                assert(views(found@) + block_splits(tape@, bs as int, block_end as int, block@)
                    =~= whole);
                assert forall|i: int| 0 <= i < views(found@).len() implies split_in(
                    #[trigger] views(found@)[i],
                    tape@.len() as int,
                ) by {
                    if i < f0.len() {
                        assert(views(found@)[i] == f0[i]);
                    }
                }
            }
            block_start = block_end;
            prev = block;
        }
        proof {
            assert(views(found@) =~= whole);
        }
        self.merge(found);
    }

    /// Insert split ranges allowing line feeds at the start of residue to be
    /// included in files.
    pub fn split_lf_residue(&mut self)
        requires
            old(self).wf(),
        ensures
            final(self).wf(),
            final(self).tape() == old(self).tape(),
            final(self).block_size() == old(self).block_size(),
            sorts(
                final(self).split_views(),
                old(self).split_views() + lf_extras(
                    old(self).tape(),
                    old(self).block_size(),
                    old(self).split_views(),
                ),
            ),
    {
        let tape = self.tape;
        let bs = self.block_size;
        let ghost s0 = self.split_views();
        let mut found: Vec<Split> = Vec::new();
        let mut i: usize = 0;
        while i < self.splits.len()
            invariant
                self.wf(),
                self.tape() == tape@,
                self.split_views() == s0,
                i <= s0.len(),
                views(found@) == lf_extras(tape@, bs as int, s0.subrange(0, i as int)),
                bs == self.block_size(),
                splits_in(views(found@), tape@.len() as int),
            decreases s0.len() - i,
        {
            let ghost f0 = views(found@);
            let split = &self.splits[i];
            assert(split@ == s0[i as int]);
            assert(split_in(s0[i as int], tape@.len() as int));
            if split.kind == SplitKind::Residue && tape[split.start()] == 0x0a {
                let mut start = split.start();
                // Split such that text is terminated with LF.
                proof {
                    assert(start % bs <= start) by (nonlinear_arith)
                        requires
                            bs > 0,
                    ;
                }
                if start != 0 && tape[start - 1] != 0x0a && is_text(&tape[start - start % bs..start]) {
                    start += 1;
                }
                let end = first_other_at(tape, 0x0a, split.start() + 1, split.end());
                found.push(Split::new(start..end, SplitKind::LfResidue));
                proof {
                    assert(views(found@) =~= f0.push(lf_split(tape@, bs as int, s0[i as int])));
                }
            }
            proof {
                assert(s0.subrange(0, i + 1).drop_last() =~= s0.subrange(0, i as int));
                assert(s0.subrange(0, i + 1).last() == s0[i as int]);
                assert forall|k: int| 0 <= k < views(found@).len() implies split_in(
                    #[trigger] views(found@)[k],
                    tape@.len() as int,
                ) by {
                    if k < f0.len() {
                        assert(views(found@)[k] == f0[k]);
                    }
                }
            }
            i += 1;
        }
        proof {
            assert(s0.subrange(0, s0.len() as int) =~= s0);
        }
        self.merge(found);
    }

    /// Insert split ranges allowing NUL bytes at the start of residue to be
    /// included in files.
    pub fn split_nul_residue(&mut self)
        requires
            old(self).wf(),
        ensures
            final(self).wf(),
            final(self).tape() == old(self).tape(),
            final(self).block_size() == old(self).block_size(),
            sorts(
                final(self).split_views(),
                old(self).split_views() + nul_extras(old(self).tape(), old(self).split_views()),
            ),
    {
        let tape = self.tape;
        let ghost s0 = self.split_views();
        let mut found: Vec<Split> = Vec::new();
        let mut i: usize = 0;
        while i < self.splits.len()
            invariant
                self.wf(),
                self.tape() == tape@,
                self.split_views() == s0,
                i <= s0.len(),
                views(found@) == nul_extras(tape@, s0.subrange(0, i as int)),
                splits_in(views(found@), tape@.len() as int),
            decreases s0.len() - i,
        {
            let ghost f0 = views(found@);
            let split = &self.splits[i];
            assert(split@ == s0[i as int]);
            assert(split_in(s0[i as int], tape@.len() as int));
            if split.kind == SplitKind::Residue && tape[split.start()] == 0 {
                let end = first_other_at(tape, 0, split.start() + 1, split.end());
                found.push(Split::new(split.start()..end, SplitKind::NulResidue));
                proof {
                    assert(views(found@) =~= f0.push(nul_split(tape@, s0[i as int])));
                }
            }
            proof {
                assert(s0.subrange(0, i + 1).drop_last() =~= s0.subrange(0, i as int));
                assert(s0.subrange(0, i + 1).last() == s0[i as int]);
                assert forall|k: int| 0 <= k < views(found@).len() implies split_in(
                    #[trigger] views(found@)[k],
                    tape@.len() as int,
                ) by {
                    if k < f0.len() {
                        assert(views(found@)[k] == f0[k]);
                    }
                }
            }
            i += 1;
        }
        proof {
            assert(s0.subrange(0, s0.len() as int) =~= s0);
        }
        self.merge(found);
    }

    /// Inserts split points at the starts of blocks that begin with an a.out
    /// or `#!` magic number.
    pub fn split_magic(&mut self)
        requires
            old(self).wf(),
        ensures
            final(self).wf(),
            final(self).tape() == old(self).tape(),
            final(self).block_size() == old(self).block_size(),
            sorts(
                final(self).split_views(),
                old(self).split_views() + magic_splits(old(self).tape(), old(self).block_size(), 0),
            ),
    {
        let tape = self.tape;
        let bs = self.block_size;
        let ghost whole = magic_splits(tape@, bs as int, 0);
        let mut found: Vec<Split> = Vec::new();
        let mut block_start: usize = 0;
        while block_start < tape.len()
            invariant
                bs > 0,
                block_start <= tape@.len(),
                views(found@) + magic_splits(tape@, bs as int, block_start as int) == whole,
                splits_in(views(found@), tape@.len() as int),
            decreases tape@.len() - block_start,
        {
            let ghost f0 = views(found@);
            let block_end = if tape.len() - block_start > bs {
                block_start + bs
            } else {
                tape.len()
            };
            let magic = Magic::detect(&tape[block_start..block_end]).is_some();
            if magic {
                found.push(Split::new_point(block_start, SplitKind::Magic));
            }
            proof {
                let mid = if magic {
                    seq![point(block_start as int, SplitKind::Magic)]
                } else {
                    seq![]
                };
                assert(views(found@) =~= f0 + mid);
                assert(views(found@) + magic_splits(tape@, bs as int, block_end as int) =~= whole);
                assert forall|i: int| 0 <= i < views(found@).len() implies split_in(
                    #[trigger] views(found@)[i],
                    tape@.len() as int,
                ) by {
                    if i < f0.len() {
                        assert(views(found@)[i] == f0[i]);
                    }
                }
            }
            block_start = block_end;
        }
        proof {
            assert(views(found@) =~= whole);
        }
        self.merge(found);
    }

    /// The kind of split that wins at `offset`: the one of highest priority
    /// among the splits that start there, if any does.
    pub fn kind_at(&self, offset: usize) -> (r: Option<SplitKind>)
        ensures
            r is None <==> forall|i: int|
                0 <= i < self.split_views().len() ==> #[trigger] self.split_views()[i].0 != offset,
            r matches Some(k) ==> wins_at(self.split_views(), offset as int, k),
    {
        let ghost s = self.split_views();
        let mut best: Option<SplitKind> = None;
        let mut i: usize = 0;
        while i < self.splits.len()
            invariant
                s == self.split_views(),
                i <= s.len(),
                best is None <==> forall|k: int| 0 <= k < i ==> #[trigger] s[k].0 != offset,
                best matches Some(b) ==> {
                    &&& exists|k: int| 0 <= k < i && s[k].0 == offset && #[trigger] s[k].2 == b
                    &&& forall|k: int| 0 <= k < i && #[trigger] s[k].0 == offset ==> s[k].2.rank()
                        <= b.rank()
                },
            decreases s.len() - i,
        {
            let split = &self.splits[i];
            assert(split@ == s[i as int]);
            let ghost best0 = best;
            if split.offsets.start == offset {
                let k = split.kind;
                best = match best {
                    None => Some(k),
                    Some(b) => if b.priority() <= k.priority() {
                        Some(k)
                    } else {
                        Some(b)
                    },
                };
            }
            proof {
                let n = i + 1;
                if s[i as int].0 == offset {
                    assert(!(forall|k: int| 0 <= k < n ==> #[trigger] s[k].0 != offset));
                    let b = best.unwrap();
                    if b == s[i as int].2 {
                        assert(exists|k: int| 0 <= k < n && s[k].0 == offset && #[trigger] s[k].2
                            == b);
                    } else {
                        let w = choose|k: int| 0 <= k < i && s[k].0 == offset && #[trigger] s[k].2
                            == b;
                        assert(0 <= w < n && s[w].0 == offset && s[w].2 == b);
                    }
                    assert forall|k: int| 0 <= k < n && #[trigger] s[k].0 == offset implies s[k].2.rank()
                        <= b.rank() by {
                        if k < i && best0 is Some {
                            assert(s[k].2.rank() <= best0.unwrap().rank());
                        }
                    }
                } else {
                    assert(best == best0);
                    if best is Some {
                        let b = best.unwrap();
                        let w = choose|k: int| 0 <= k < i && s[k].0 == offset && #[trigger] s[k].2
                            == b;
                        assert(0 <= w < n && s[w].0 == offset && s[w].2 == b);
                    }
                }
            }
            i += 1;
        }
        best
    }

    /// Inserts split points around runs of blocks of all 0xFF bytes.
    pub fn split_ff_blocks(&mut self)
        requires
            old(self).wf(),
        ensures
            final(self).wf(),
            final(self).tape() == old(self).tape(),
            final(self).block_size() == old(self).block_size(),
            sorts(
                final(self).split_views(),
                old(self).split_views() + ff_splits(
                    old(self).tape(),
                    old(self).block_size(),
                    0,
                    false,
                ),
            ),
    {
        let tape = self.tape;
        let bs = self.block_size;
        let ghost whole = ff_splits(tape@, bs as int, 0, false);
        let mut found: Vec<Split> = Vec::new();
        let mut block_start: usize = 0;
        let mut prev_ff = false;
        while block_start < tape.len()
            invariant
                bs > 0,
                block_start <= tape@.len(),
                views(found@) + ff_splits(tape@, bs as int, block_start as int, prev_ff) == whole,
                splits_in(views(found@), tape@.len() as int),
            decreases tape@.len() - block_start,
        {
            let ghost f0 = views(found@);
            let block_end = if tape.len() - block_start > bs {
                block_start + bs
            } else {
                tape.len()
            };
            let all_ff = all_equal(&tape[block_start..block_end], 0xFF);
            if all_ff != prev_ff {
                found.push(Split::new_point(block_start, SplitKind::FF));
            }
            proof {
                let mid = if all_ff != prev_ff {
                    seq![point(block_start as int, SplitKind::FF)]
                } else {
                    seq![]
                };
                assert(views(found@) =~= f0 + mid);
                assert(views(found@) + ff_splits(tape@, bs as int, block_end as int, all_ff)
                    =~= whole);
                assert forall|i: int| 0 <= i < views(found@).len() implies split_in(
                    #[trigger] views(found@)[i],
                    tape@.len() as int,
                ) by {
                    if i < f0.len() {
                        assert(views(found@)[i] == f0[i]);
                    }
                }
            }
            prev_ff = all_ff;
            block_start = block_end;
        }
        let ghost f1 = views(found@);
        if prev_ff {
            found.push(Split::new_point(tape.len(), SplitKind::FF));
        }
        proof {
            assert(views(found@) =~= whole);
            assert forall|i: int| 0 <= i < views(found@).len() implies split_in(
                #[trigger] views(found@)[i],
                tape@.len() as int,
            ) by {
                if i < f1.len() {
                    assert(views(found@)[i] == f1[i]);
                }
            }
        }
        self.merge(found);
    }
}

/// The first offset from `from` below `to` whose byte is not `b`, or `to`.
fn first_other_at(tape: &[u8], b: u8, from: usize, to: usize) -> (r: usize)
    requires
        from <= to <= tape@.len(),
    ensures
        r == first_other(tape@, b, from as int, to as int),
        from <= r <= to,
{
    let mut i = from;
    while i < to
        invariant
            from <= i <= to <= tape@.len(),
            first_other(tape@, b, from as int, to as int) == first_other(tape@, b, i as int, to as int),
        decreases to - i,
    {
        if tape[i] != b {
            return i;
        }
        i += 1;
    }
    i
}

/// Sorts `v` by start, end and priority.
fn sort_splits(v: &mut Vec<Split>)
    ensures
        sorts(views(final(v)@), views(old(v)@)),
{
    let ghost orig = views(v@);
    let mut out: Vec<Split> = Vec::new();
    proof {
        assert(views(out@).to_multiset().len() == 0);
        assert(views(out@).to_multiset().add(views(v@).to_multiset()) =~= orig.to_multiset());
    }
    while v.len() > 0
        invariant
            sorted(views(out@)),
            views(out@).to_multiset().add(views(v@).to_multiset()) == orig.to_multiset(),
        decreases v@.len(),
    {
        let ghost v0 = v@;
        let x = v.pop().unwrap();
        proof {
            assert(v0 == v@.push(x));
            assert(views(v0) =~= views(v@).push(x@));
        }
        let mut i: usize = 0;
        while i < out.len() && out[i].le(&x)
            invariant
                i <= out@.len(),
                forall|k: int| 0 <= k < i ==> split_le((#[trigger] out@[k])@, x@),
            decreases out@.len() - i,
        {
            i += 1;
        }
        let ghost out0 = views(out@);
        out.insert(i, x);
        proof {
            assert(views(out@) =~= out0.insert(i as int, x@));
            assert forall|a: int, b: int| 0 <= a < b < out@.len() implies split_le(
                #[trigger] views(out@)[a],
                #[trigger] views(out@)[b],
            ) by {
                let o = views(out@);
                if b < i {
                    assert(o[a] == out0[a] && o[b] == out0[b]);
                } else if b == i {
                    assert(o[a] == out0[a]);
                } else if a == i {
                    assert(o[b] == out0[b - 1]);
                    if i < out0.len() {
                        assert(!split_le(out0[i as int], x@));
                        lemma_le_total(out0[i as int], x@);
                        if b - 1 > i {
                            lemma_le_trans(x@, out0[i as int], out0[b - 1]);
                        }
                    }
                } else if a < i {
                    assert(o[a] == out0[a] && o[b] == out0[b - 1]);
                } else {
                    assert(o[a] == out0[a - 1] && o[b] == out0[b - 1]);
                }
            }
        }
    }
    proof {
        assert(views(v@) =~= Seq::<SplitView>::empty());
        assert(views(v@).to_multiset().len() == 0);
        assert(views(v@).to_multiset() =~= Multiset::empty());
        assert(views(out@).to_multiset() =~= orig.to_multiset());
    }
    *v = out;
}

} // verus!
