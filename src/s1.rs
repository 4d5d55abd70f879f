//! Known file placements on a tape, kept free of overlap.

use std::ops::Range;

use vstd::prelude::*;

use crate::interval::{range_points, IntervalError, IntervalSet};

verus! {

/// The known files of a tape, and the points of the tape they claim.
#[derive(Clone, Debug, PartialEq, Eq)]
pub struct Segments<'s> {
    data: &'s [u8],
    /// The known files, in the order they were added.
    pub segments: Vec<FileSegment>,
    /// The points claimed by the files, and those outside the tape.
    pub intervals: IntervalSet,
}

/// A known file: its path, and the range of the tape it occupies.
#[derive(Clone, Debug, PartialEq, Eq)]
pub struct FileSegment {
    /// The path of the file.
    pub path: Vec<u8>,
    /// The offset in the tape of the file's first byte.
    pub offset: usize,
    /// The length of the file.
    pub len: usize,
}

/// The points of the tape that `f` claims.
pub open spec fn file_points(f: FileSegment) -> Set<int> {
    Set::new(|p: int| f.offset <= p < f.offset + f.len)
}

impl FileSegment {
    /// The byte offsets in the tape of the file contents.
    pub fn range(&self) -> (r: Range<usize>)
        requires
            self.offset + self.len <= usize::MAX,
        ensures
            r.start == self.offset,
            r.end == self.offset + self.len,
    {
        self.offset..self.offset + self.len
    }
}

/// Claims the points of `f` in `intervals`, which must not hold any of them.
pub fn claim_file(intervals: &mut IntervalSet, f: &FileSegment) -> (r: Result<(), IntervalError>)
    requires
        old(intervals).wf(),
    ensures
        final(intervals).wf(),
        (r == Err::<(), IntervalError>(IntervalError::Empty)) <==> f.len == 0,
        r is Ok <==> f.len > 0 && f.offset + f.len <= usize::MAX && file_points(*f).disjoint(
            old(intervals).points(),
        ),
        r is Ok ==> final(intervals).points() == old(intervals).points().union(file_points(*f)),
        r is Err ==> final(intervals)@ == old(intervals)@,
{
    if f.len > usize::MAX - f.offset {
        return Err(IntervalError::NotDisjoint);
    }
    let range = f.range();
    assert(range_points(range) =~= file_points(*f));
    intervals.insert(range)
}

impl<'s> Segments<'s> {
    /// The tape.
    pub closed spec fn data(&self) -> Seq<u8> {
        self.data@
    }

    /// The known files, in the order they were added.
    pub closed spec fn files(&self) -> Seq<FileSegment> {
        self.segments@
    }

    /// The points claimed by the files, and those outside the tape.
    pub closed spec fn claimed(&self) -> IntervalSet {
        self.intervals
    }

    /// Creates an empty record of the files of `data`.
    pub fn new(data: &'s [u8]) -> (r: Self)
        ensures
            r.data() == data@,
            r.files().len() == 0,
            r.claimed().wf(),
            r.claimed()@ == seq![0..0, data@.len() as usize..usize::MAX],
    {
        Segments { data, segments: Vec::new(), intervals: IntervalSet::new(0..data.len()) }
    }

    /// Records a known file, which must claim a non-empty range of the tape
    /// that no other file claims.
    pub fn insert(&mut self, segment: FileSegment) -> (r: Result<(), IntervalError>)
        requires
            old(self).claimed().wf(),
        ensures
            final(self).claimed().wf(),
            final(self).data() == old(self).data(),
            (r == Err::<(), IntervalError>(IntervalError::Empty)) <==> segment.len == 0,
            r is Ok <==> segment.len > 0 && segment.offset + segment.len <= usize::MAX
                && file_points(segment).disjoint(old(self).claimed().points()),
            r is Ok ==> final(self).claimed().points() == old(self).claimed().points().union(
                file_points(segment),
            ) && final(self).files() == old(self).files().push(segment),
            r is Err ==> final(self).claimed()@ == old(self).claimed()@ && final(self).files()
                == old(self).files(),
    {
        match claim_file(&mut self.intervals, &segment) {
            Ok(()) => {},
            Err(e) => {
                return Err(e);
            },
        }
        self.segments.push(segment);
        Ok(())
    }
}

} // verus!
