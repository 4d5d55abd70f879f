//! The files that segmentation exports: one per segment, named after the
//! known header that starts there or after the segment's place and kind.

use vstd::prelude::*;

use crate::detect::{all_text, is_text};
use crate::segment::{header_at, segment_in, Segment, SegmentHeader, SegmentKind, SegmentView, Segmenter};

verus! {

/// One exported file.
#[derive(Clone, Debug, PartialEq, Eq)]
pub struct Export {
    /// The name of the file.
    pub name: Vec<u8>,
    /// The offset in the tape of the segment.
    pub offset: usize,
    /// The length of the segment.
    pub len: usize,
    /// The length of the residue joined after the segment, if one is.
    pub joined_residue: Option<usize>,
    /// The length that the known header at the segment declares, where it
    /// differs from the segment's length.
    pub declared_len: Option<usize>,
    /// The kind of the segment.
    pub kind: SegmentKind,
}

/// An export as the contracts see it: name, offset, length, joined residue,
/// declared length and kind.
pub type ExportView = (Seq<u8>, int, int, Option<int>, Option<int>, SegmentKind);

/// `o` with its value as an integer.
pub open spec fn opt_int(o: Option<usize>) -> Option<int> {
    match o {
        Some(x) => Some(x as int),
        None => None,
    }
}

impl Export {
    /// The export as the contracts see it.
    pub open spec fn view(&self) -> ExportView {
        (
            self.name@,
            self.offset as int,
            self.len as int,
            opt_int(self.joined_residue),
            opt_int(self.declared_len),
            self.kind,
        )
    }
}

/// `[SPLIT]`, the marker between a segment and the residue joined to it.
pub open spec fn split_marker() -> Seq<u8> {
    seq![0x5b, 0x53, 0x50, 0x4c, 0x49, 0x54, 0x5d]
}

/// The bytes of export `e` of `tape`: the segment, and, after the marker,
/// the residue joined to it if there is one; none if `e` leaves the tape.
pub open spec fn export_data(tape: Seq<u8>, e: ExportView) -> Option<Seq<u8>> {
    let (o, n, j) = (e.1, e.2, match e.3 {
        Some(j) => j,
        None => 0,
    });
    if o < 0 || n < 0 || j < 0 || o + n + j > tape.len() {
        None
    } else {
        Some(tape.subrange(o, o + n) + match e.3 {
            Some(j) => split_marker() + tape.subrange(o + n, o + n + j),
            None => seq![],
        })
    }
}

impl Export {
    /// The bytes of the export, as [`export_data`] says.
    pub fn data(&self, tape: &[u8]) -> (r: Option<Vec<u8>>)
        ensures
            opt_bytes(r) == export_data(tape@, self.view()),
    {
        let j = match self.joined_residue {
            Some(j) => j,
            None => 0,
        };
        if self.offset > tape.len() || self.len > tape.len() - self.offset || j > tape.len()
            - self.offset - self.len {
            return None;
        }
        let end = self.offset + self.len;
        let mut v: Vec<u8> = Vec::new();
        push_all(&mut v, &tape[self.offset..end]);
        if self.joined_residue.is_some() {
            push_all(&mut v, &[0x5b, 0x53, 0x50, 0x4c, 0x49, 0x54, 0x5d]);
            push_all(&mut v, &tape[end..end + j]);
        }
        assert(v@ =~= export_data(tape@, self.view()).unwrap());
        Some(v)
    }
}

/// The bytes held by `o`, if any.
pub open spec fn opt_bytes(o: Option<Vec<u8>>) -> Option<Seq<u8>> {
    match o {
        Some(v) => Some(v@),
        None => None,
    }
}

/// The decimal digits of `n` as ASCII bytes, without leading zeros.
pub open spec fn decimal_bytes(n: nat) -> Seq<u8>
    decreases n,
{
    if n < 10 {
        seq![(48 + n) as u8]
    } else {
        decimal_bytes(n / 10) + seq![(48 + n % 10) as u8]
    }
}

/// `segments/`, the directory of synthetic names.
pub open spec fn segments_dir() -> Seq<u8> {
    seq![0x73, 0x65, 0x67, 0x6d, 0x65, 0x6e, 0x74, 0x73, 0x2f]
}

/// The name suffix of a segment kind: none, `.copy`, `.nul` or `.ff`.
pub open spec fn kind_suffix(k: SegmentKind) -> Seq<u8> {
    match k {
        SegmentKind::Original => seq![],
        SegmentKind::Residue => seq![0x2e, 0x63, 0x6f, 0x70, 0x79],
        SegmentKind::AllNul => seq![0x2e, 0x6e, 0x75, 0x6c],
        SegmentKind::AllFF => seq![0x2e, 0x66, 0x66],
    }
}

/// The extension of a segment's contents: `.txt` for text, else `.bin`.
pub open spec fn text_suffix(text: bool) -> Seq<u8> {
    if text {
        seq![0x2e, 0x74, 0x78, 0x74]
    } else {
        seq![0x2e, 0x62, 0x69, 0x6e]
    }
}

/// `p` without a leading `/`.
pub open spec fn strip_slash(p: Seq<u8>) -> Seq<u8> {
    if p.len() > 0 && p[0] == 0x2f {
        p.drop_first()
    } else {
        p
    }
}

/// The name of the export of segment `s`: the path of the known header that
/// starts there, without a leading `/`; else `segments/`, the offset, the
/// kind suffix and the text or binary extension.
pub open spec fn export_name(
    tape: Seq<u8>,
    s: SegmentView,
    hdr: Seq<Option<SegmentHeader>>,
    bs: int,
) -> Seq<u8> {
    if header_at(hdr, tape.len() as int, bs, s.0) {
        strip_slash(hdr[s.0 / bs].unwrap().path@)
    } else {
        segments_dir() + decimal_bytes(s.0 as nat) + kind_suffix(s.2) + text_suffix(
            all_text(tape.subrange(s.0, s.1)),
        )
    }
}

/// The length that the known header at segment `s` declares, where it
/// differs from the segment's length: a discrepancy to report.
pub open spec fn declared_len(
    tape: Seq<u8>,
    s: SegmentView,
    hdr: Seq<Option<SegmentHeader>>,
    bs: int,
) -> Option<int> {
    if header_at(hdr, tape.len() as int, bs, s.0) && hdr[s.0 / bs].unwrap().len != s.1 - s.0 {
        Some(hdr[s.0 / bs].unwrap().len as int)
    } else {
        None
    }
}

/// The exports of the segments of `segs` from index `k` on. With
/// `include_residue`, an original segment followed by a residue is exported
/// together with it, and the residue gets no export of its own.
pub open spec fn exports_from(
    tape: Seq<u8>,
    segs: Seq<SegmentView>,
    hdr: Seq<Option<SegmentHeader>>,
    bs: int,
    include_residue: bool,
    k: int,
) -> Seq<ExportView>
    decreases segs.len() - k,
{
    if k < 0 || k >= segs.len() {
        seq![]
    } else {
        let s = segs[k];
        let join = include_residue && s.2 == SegmentKind::Original && k + 1 < segs.len() && segs[k
            + 1].2 == SegmentKind::Residue;
        let e = (
            export_name(tape, s, hdr, bs),
            s.0,
            s.1 - s.0,
            if join {
                Some(segs[k + 1].1 - segs[k + 1].0)
            } else {
                None
            },
            declared_len(tape, s, hdr, bs),
            s.2,
        );
        seq![e] + exports_from(tape, segs, hdr, bs, include_residue, if join {
            k + 2
        } else {
            k + 1
        })
    }
}

/// The exports of all segments of `segs`.
pub open spec fn exports_spec(
    tape: Seq<u8>,
    segs: Seq<SegmentView>,
    hdr: Seq<Option<SegmentHeader>>,
    bs: int,
    include_residue: bool,
) -> Seq<ExportView> {
    exports_from(tape, segs, hdr, bs, include_residue, 0)
}

/// Appends the decimal digits of `n` to `v`.
fn push_decimal_bytes(v: &mut Vec<u8>, n: usize)
    ensures
        final(v)@ == old(v)@ + decimal_bytes(n as nat),
    decreases n,
{
    let ghost v0 = v@;
    if n >= 10 {
        push_decimal_bytes(v, n / 10);
    }
    v.push((48 + n % 10) as u8);
    assert(v@ =~= v0 + decimal_bytes(n as nat));
}

/// Appends the bytes of `s` to `v`.
fn push_all(v: &mut Vec<u8>, s: &[u8])
    ensures
        final(v)@ == old(v)@ + s@,
{
    let ghost v0 = v@;
    let mut i: usize = 0;
    while i < s.len()
        invariant
            i <= s@.len(),
            v@ == v0 + s@.subrange(0, i as int),
        decreases s@.len() - i,
    {
        v.push(s[i]);
        i += 1;
        assert(v@ =~= v0 + s@.subrange(0, i as int));
    }
    assert(s@.subrange(0, s@.len() as int) =~= s@);
}

/// The synthetic name of a segment at `offset` of `kind`.
fn synthetic_name(offset: usize, kind: SegmentKind, text: bool) -> (r: Vec<u8>)
    ensures
        r@ == segments_dir() + decimal_bytes(offset as nat) + kind_suffix(kind) + text_suffix(text),
{
    let mut v: Vec<u8> = Vec::new();
    push_all(&mut v, &[0x73, 0x65, 0x67, 0x6d, 0x65, 0x6e, 0x74, 0x73, 0x2f]);
    push_decimal_bytes(&mut v, offset);
    match kind {
        SegmentKind::Original => {},
        SegmentKind::Residue => push_all(&mut v, &[0x2e, 0x63, 0x6f, 0x70, 0x79]),
        SegmentKind::AllNul => push_all(&mut v, &[0x2e, 0x6e, 0x75, 0x6c]),
        SegmentKind::AllFF => push_all(&mut v, &[0x2e, 0x66, 0x66]),
    }
    if text {
        push_all(&mut v, &[0x2e, 0x74, 0x78, 0x74]);
    } else {
        push_all(&mut v, &[0x2e, 0x62, 0x69, 0x6e]);
    }
    assert(v@ =~= segments_dir() + decimal_bytes(offset as nat) + kind_suffix(kind) + text_suffix(
        text,
    ));
    v
}

/// `p` without a leading `/`.
fn strip_slash_of(p: &[u8]) -> (r: Vec<u8>)
    ensures
        r@ == strip_slash(p@),
{
    let mut v: Vec<u8> = Vec::new();
    if p.len() > 0 && p[0] == 0x2f {
        push_all(&mut v, &p[1..p.len()]);
        assert(p@.subrange(1, p@.len() as int) =~= p@.drop_first());
    } else {
        push_all(&mut v, p);
    }
    assert(v@ =~= strip_slash(p@));
    v
}

impl<'a> Segmenter<'a> {
    /// The files to export for the segments found so far, as
    /// [`exports_spec`] says.
    pub fn exports(&self, include_residue: bool) -> (r: Vec<Export>)
        requires
            self.wf(),
        ensures
            r@.map_values(|e: Export| e.view()) == exports_spec(
                self.tape(),
                self.segment_views(),
                self.headers(),
                self.block_size(),
                include_residue,
            ),
    {
        let segs = self.segments();
        let ghost sv = self.segment_views();
        let ghost tape = self.tape();
        let ghost hdr = self.headers();
        let ghost bs = self.block_size();
        let ghost whole = exports_spec(tape, sv, hdr, bs, include_residue);
        let mut out: Vec<Export> = Vec::new();
        let mut k: usize = 0;
        assert(out@.map_values(|e: Export| e.view()) =~= Seq::<ExportView>::empty());
        while k < segs.len()
            invariant
                self.wf(),
                segs@.map_values(|s: Segment<'a>| s.view_spec()) == sv,
                crate::segment::segments_in(segs@, tape),
                tape == self.tape(),
                hdr == self.headers(),
                bs == self.block_size(),
                k <= segs@.len(),
                out@.map_values(|e: Export| e.view()) + exports_from(
                    tape,
                    sv,
                    hdr,
                    bs,
                    include_residue,
                    k as int,
                ) == whole,
            decreases segs@.len() - k,
        {
            let ghost o0 = out@.map_values(|e: Export| e.view());
            let seg = &segs[k];
            assert(sv[k as int] == seg.view_spec());
            assert(segment_in(segs@[k as int], tape));
            let join = include_residue && seg.kind == SegmentKind::Original && k + 1 < segs.len()
                && segs[k + 1].kind == SegmentKind::Residue;
            proof {
                if k + 1 < segs@.len() {
                    assert(sv[k + 1] == segs@[k + 1].view_spec());
                }
            }
            let joined_residue = if join {
                Some(segs[k + 1].data.len())
            } else {
                None
            };
            let (name, declared) = match self.header_for_offset(seg.offset) {
                Some(h) => {
                    let declared = if h.len != seg.data.len() {
                        Some(h.len)
                    } else {
                        None
                    };
                    (strip_slash_of(h.path.as_slice()), declared)
                },
                None => (synthetic_name(seg.offset, seg.kind, is_text(seg.data)), None),
            };
            let e = Export {
                name,
                offset: seg.offset,
                len: seg.data.len(),
                joined_residue,
                declared_len: declared,
                kind: seg.kind,
            };
            out.push(e);
            let next = if join {
                k + 2
            } else {
                k + 1
            };
            proof {
                assert(out@.map_values(|e: Export| e.view()) =~= o0.push(e.view()));
                assert(e.view() == exports_from(tape, sv, hdr, bs, include_residue, k as int)[0]);
                assert(exports_from(tape, sv, hdr, bs, include_residue, k as int) =~= seq![e.view()]
                    + exports_from(tape, sv, hdr, bs, include_residue, next as int));
                assert(out@.map_values(|e: Export| e.view()) + exports_from(
                    tape,
                    sv,
                    hdr,
                    bs,
                    include_residue,
                    next as int,
                ) =~= whole);
            }
            k = next;
        }
        proof {
            assert(out@.map_values(|e: Export| e.view()) =~= whole);
        }
        out
    }
}

} // verus!
