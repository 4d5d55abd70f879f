//! An ordered set of disjoint, maximally merged integer ranges.

use std::ops::Range;

use vstd::prelude::*;

verus! {

/// Whether the half-open range `r` contains the point `p`.
pub open spec fn range_has(r: Range<usize>, p: int) -> bool {
    r.start <= p < r.end
}

/// The points of the half-open range `r`.
pub open spec fn range_points(r: Range<usize>) -> Set<int> {
    Set::new(|p: int| range_has(r, p))
}

/// The points covered by some range of `s`.
pub open spec fn seq_points(s: Seq<Range<usize>>) -> Set<int> {
    Set::new(|p: int| exists|i: int| 0 <= i < s.len() && #[trigger] range_has(s[i], p))
}

/// Each range of `s` ends no later than the next one starts.
pub open spec fn seq_sorted(s: Seq<Range<usize>>) -> bool {
    &&& forall|i: int| 0 <= i < s.len() ==> (#[trigger] s[i]).start <= s[i].end
    &&& forall|i: int| 0 <= i < s.len() - 1 ==> (#[trigger] s[i]).end <= s[i + 1].start
}

/// Each range of `s` ends strictly before the next one starts: no two ranges
/// touch or overlap, so none could be merged.
pub open spec fn seq_separated(s: Seq<Range<usize>>) -> bool {
    forall|i: int| 0 <= i < s.len() - 1 ==> (#[trigger] s[i]).end < s[i + 1].start
}

/// The ranges of `s` are sorted, the outer two reach the ends of `usize`,
/// every inner one is non-empty, and no two touch unless `s` is a pair of
/// sentinels alone.
pub open spec fn seq_wf(s: Seq<Range<usize>>) -> bool {
    &&& s.len() >= 1
    &&& s[0].start == 0
    &&& s[s.len() - 1].end == usize::MAX
    &&& seq_sorted(s)
    &&& forall|i: int| 0 < i < s.len() - 1 ==> (#[trigger] s[i]).start < s[i].end
    &&& (seq_separated(s) || s.len() == 2)
}

/// A range that runs from `a` to `c` holds the points of the two ranges that
/// meet at `b`.
pub proof fn lemma_range_split(a: usize, b: usize, c: usize)
    requires
        a <= b <= c,
    ensures
        range_points(a..c) == range_points(a..b).union(range_points(b..c)),
{
    assert(range_points(a..c) =~= range_points(a..b).union(range_points(b..c)));
}

/// In a sorted sequence each range ends no later than any later one starts.
pub proof fn lemma_sorted_apart(s: Seq<Range<usize>>, a: int, b: int)
    requires
        seq_sorted(s),
        0 <= a < b < s.len(),
    ensures
        s[a].end <= s[b].start,
    decreases b - a,
{
    if a + 1 < b {
        lemma_sorted_apart(s, a, b - 1);
        assert(s[b - 1].start <= s[b - 1].end);
        assert(s[b - 1].end <= s[b].start);
    }
}

/// Putting `x` into `s` adds the points of `x`.
proof fn lemma_points_insert(s: Seq<Range<usize>>, i: int, x: Range<usize>)
    requires
        0 <= i <= s.len(),
    ensures
        seq_points(s.insert(i, x)) == seq_points(s).union(range_points(x)),
{
    let t = s.insert(i, x);
    assert forall|p: int| #[trigger] seq_points(t).contains(p) implies seq_points(s).union(
        range_points(x),
    ).contains(p) by {
        let j = choose|j: int| 0 <= j < t.len() && #[trigger] range_has(t[j], p);
        if j < i {
            assert(range_has(s[j], p));
        } else if j > i {
            assert(range_has(s[j - 1], p));
        }
    }
    assert forall|p: int| #[trigger] seq_points(s).union(range_points(x)).contains(p) implies seq_points(
        t,
    ).contains(p) by {
        if range_has(x, p) {
            assert(range_has(t[i], p));
        } else {
            let j = choose|j: int| 0 <= j < s.len() && #[trigger] range_has(s[j], p);
            if j < i {
                assert(range_has(t[j], p));
            } else {
                assert(range_has(t[j + 1], p));
            }
        }
    }
    assert(seq_points(t) =~= seq_points(s).union(range_points(x)));
}

/// Replacing the range at `i` by `r` trades the points of the one for those
/// of the other.
proof fn lemma_points_update(s: Seq<Range<usize>>, i: int, r: Range<usize>, extra: Set<int>)
    requires
        0 <= i < s.len(),
        range_points(r) == range_points(s[i]).union(extra),
    ensures
        seq_points(s.update(i, r)) == seq_points(s).union(extra),
{
    let t = s.update(i, r);
    assert forall|p: int| #[trigger] seq_points(t).contains(p) implies seq_points(s).union(
        extra,
    ).contains(p) by {
        let j = choose|j: int| 0 <= j < t.len() && #[trigger] range_has(t[j], p);
        if j != i {
            assert(range_has(s[j], p));
        } else {
            assert(range_points(r).contains(p));
            if !extra.contains(p) {
                assert(range_points(s[i]).contains(p));
                assert(range_has(s[i], p));
            }
        }
    }
    assert forall|p: int| #[trigger] seq_points(s).union(extra).contains(p) implies seq_points(
        t,
    ).contains(p) by {
        if extra.contains(p) {
            assert(range_points(r).contains(p));
            assert(range_has(t[i], p));
        } else {
            let j = choose|j: int| 0 <= j < s.len() && #[trigger] range_has(s[j], p);
            if j != i {
                assert(range_has(t[j], p));
            } else {
                assert(range_points(s[i]).contains(p));
                assert(range_points(r).contains(p));
                assert(range_has(t[i], p));
            }
        }
    }
    assert(seq_points(t) =~= seq_points(s).union(extra));
}

/// Removing a range whose points another range holds keeps the points.
proof fn lemma_points_remove(s: Seq<Range<usize>>, i: int, k: int)
    requires
        0 <= i < s.len(),
        0 <= k < s.len(),
        k != i,
        range_points(s[i]).subset_of(range_points(s[k])),
    ensures
        seq_points(s.remove(i)) == seq_points(s),
{
    let t = s.remove(i);
    assert forall|p: int| #[trigger] seq_points(t).contains(p) implies seq_points(s).contains(p) by {
        let j = choose|j: int| 0 <= j < t.len() && #[trigger] range_has(t[j], p);
        if j < i {
            assert(range_has(s[j], p));
        } else {
            assert(range_has(s[j + 1], p));
        }
    }
    assert forall|p: int| #[trigger] seq_points(s).contains(p) implies seq_points(t).contains(p) by {
        let j = choose|j: int| 0 <= j < s.len() && #[trigger] range_has(s[j], p);
        let j2 = if j == i {
            assert(range_points(s[i]).contains(p));
            k
        } else {
            j
        };
        assert(range_has(s[j2], p));
        if j2 < i {
            assert(range_has(t[j2], p));
        } else {
            assert(range_has(t[j2 - 1], p));
        }
    }
    assert(seq_points(t) =~= seq_points(s));
}

/// The facts shared by the four ways [`IntervalSet::insert`] rewrites `s`:
/// `x` is non-empty and lies in the gap before the range at `i`.
pub open spec fn fits_gap(s: Seq<Range<usize>>, i: int, x: Range<usize>) -> bool {
    &&& seq_wf(s)
    &&& 0 < i < s.len()
    &&& x.start < x.end
    &&& s[i - 1].end <= x.start
    &&& x.end <= s[i].start
}

/// Inserting `x` on its own into the gap keeps `s` well formed.
proof fn lemma_gap_insert(s: Seq<Range<usize>>, i: int, x: Range<usize>)
    requires
        fits_gap(s, i, x),
        s[i - 1].end < x.start,
        x.end < s[i].start,
    ensures
        seq_wf(s.insert(i, x)),
        seq_separated(s.insert(i, x)),
        seq_points(s.insert(i, x)) == seq_points(s).union(range_points(x)),
{
    lemma_points_insert(s, i, x);
    let t = s.insert(i, x);
    assert(seq_separated(s));
    assert forall|k: int| 0 <= k < t.len() - 1 implies (#[trigger] t[k]).end < t[k + 1].start by {
        if k < i - 1 {
            assert(t[k] == s[k] && t[k + 1] == s[k + 1]);
        } else if k > i {
            assert(t[k] == s[k - 1] && t[k + 1] == s[k]);
        }
    }
    assert forall|k: int| 0 <= k < t.len() implies (#[trigger] t[k]).start <= t[k].end by {
        if k < i {
            assert(t[k] == s[k]);
        } else if k > i {
            assert(t[k] == s[k - 1]);
        }
    }
    assert forall|k: int| 0 < k < t.len() - 1 implies (#[trigger] t[k]).start < t[k].end by {
        if k < i {
            assert(t[k] == s[k]);
        } else if k > i {
            assert(t[k] == s[k - 1]);
        }
    }
}

/// Filling the whole gap joins the ranges on both sides of it.
proof fn lemma_gap_join(s: Seq<Range<usize>>, i: int, x: Range<usize>)
    requires
        fits_gap(s, i, x),
        s[i - 1].end == x.start,
        x.end == s[i].start,
    ensures
        seq_wf(s.update(i - 1, s[i - 1].start..s[i].end).remove(i)),
        seq_separated(s.update(i - 1, s[i - 1].start..s[i].end).remove(i)),
        seq_points(s.update(i - 1, s[i - 1].start..s[i].end).remove(i)) == seq_points(s).union(
            range_points(x),
        ),
{
    let a = s[i - 1].start;
    let b = s[i - 1].end;
    let c = s[i].start;
    let d = s[i].end;
    let r = a..d;
    let t = s.update(i - 1, r);
    let u = t.remove(i);
    lemma_range_split(a, b, d);
    lemma_range_split(b, c, d);
    assert(s[i - 1] == (a..b));
    assert(s[i] == (c..d));
    assert(range_points(x) =~= range_points(b..c));
    assert(range_points(r) =~= range_points(s[i - 1]).union(range_points(x).union(range_points(s[i]))));
    lemma_points_update(s, i - 1, r, range_points(x).union(range_points(s[i])));
    assert forall|p: int| range_points(s[i]).contains(p) implies #[trigger] seq_points(s).contains(p) by {
        assert(range_has(s[i], p));
    }
    assert(seq_points(s).union(range_points(x).union(range_points(s[i]))) =~= seq_points(s).union(
        range_points(x),
    ));
    lemma_range_split(a, c, d);
    assert(range_points(t[i]).subset_of(range_points(t[i - 1])));
    lemma_points_remove(t, i, i - 1);
    assert(seq_separated(s));
    assert forall|k: int| 0 <= k < u.len() - 1 implies (#[trigger] u[k]).end < u[k + 1].start by {
        if k < i - 2 {
            assert(u[k] == s[k] && u[k + 1] == s[k + 1]);
        } else if k == i - 2 {
            assert(u[k] == s[k] && s[k].end < s[k + 1].start);
        } else {
            assert(u[k + 1] == s[k + 2]);
            assert(s[i].end < s[i + 1].start);
            if k > i - 1 {
                assert(u[k] == s[k + 1]);
            }
        }
    }
    assert forall|k: int| 0 <= k < u.len() implies (#[trigger] u[k]).start <= u[k].end by {
        if k < i - 1 {
            assert(u[k] == s[k]);
        } else if k > i - 1 {
            assert(u[k] == s[k + 1]);
        }
    }
    assert forall|k: int| 0 < k < u.len() - 1 implies (#[trigger] u[k]).start < u[k].end by {
        if k < i - 1 {
            assert(u[k] == s[k]);
        } else if k > i - 1 {
            assert(u[k] == s[k + 1]);
        }
    }
    assert(u[0].start == 0);
    assert(u[u.len() - 1].end == usize::MAX);
}

/// Filling the gap from its left edge only extends the range before it.
proof fn lemma_gap_extend_left(s: Seq<Range<usize>>, i: int, x: Range<usize>)
    requires
        fits_gap(s, i, x),
        s[i - 1].end == x.start,
        x.end < s[i].start,
    ensures
        seq_wf(s.update(i - 1, s[i - 1].start..x.end)),
        seq_separated(s.update(i - 1, s[i - 1].start..x.end)),
        seq_points(s.update(i - 1, s[i - 1].start..x.end)) == seq_points(s).union(range_points(x)),
{
    let t = s.update(i - 1, s[i - 1].start..x.end);
    lemma_range_split(s[i - 1].start, x.start, x.end);
    assert(s[i - 1] == (s[i - 1].start..x.start));
    assert(range_points(x) =~= range_points(x.start..x.end));
    lemma_points_update(s, i - 1, s[i - 1].start..x.end, range_points(x));
    assert(seq_separated(s));
    assert forall|k: int| 0 <= k < t.len() - 1 implies (#[trigger] t[k]).end < t[k + 1].start by {
        if k != i - 1 && k != i - 2 {
            assert(t[k] == s[k] && t[k + 1] == s[k + 1]);
        }
    }
    assert forall|k: int| 0 <= k < t.len() implies (#[trigger] t[k]).start <= t[k].end by {
        if k != i - 1 {
            assert(t[k] == s[k]);
        }
    }
}

/// Filling the gap up to its right edge only extends the range after it.
proof fn lemma_gap_extend_right(s: Seq<Range<usize>>, i: int, x: Range<usize>)
    requires
        fits_gap(s, i, x),
        s[i - 1].end < x.start,
        x.end == s[i].start,
    ensures
        seq_wf(s.update(i, x.start..s[i].end)),
        seq_separated(s.update(i, x.start..s[i].end)),
        seq_points(s.update(i, x.start..s[i].end)) == seq_points(s).union(range_points(x)),
{
    let t = s.update(i, x.start..s[i].end);
    lemma_range_split(x.start, x.end, s[i].end);
    assert(s[i] == (x.end..s[i].end));
    assert(range_points(x) =~= range_points(x.start..x.end));
    assert(range_points(x.start..s[i].end) =~= range_points(s[i]).union(range_points(x)));
    lemma_points_update(s, i, x.start..s[i].end, range_points(x));
    assert(seq_separated(s));
    assert forall|k: int| 0 <= k < t.len() - 1 implies (#[trigger] t[k]).end < t[k + 1].start by {
        if k != i - 1 && k != i {
            assert(t[k] == s[k] && t[k + 1] == s[k + 1]);
        }
    }
    assert forall|k: int| 0 <= k < t.len() implies (#[trigger] t[k]).start <= t[k].end by {
        if k != i {
            assert(t[k] == s[k]);
        }
    }
}

/// A range that lies in the gap before the range at `i` shares no point
/// with `s`; one that starts in that gap but reaches past it does.
proof fn lemma_gap_disjoint(s: Seq<Range<usize>>, i: int, x: Range<usize>)
    requires
        seq_wf(s),
        0 < i < s.len(),
        x.start < x.end,
        s[i - 1].end <= x.start,
        x.start < s[i].end,
    ensures
        range_points(x).disjoint(seq_points(s)) <==> x.end <= s[i].start,
{
    if x.end <= s[i].start {
        assert forall|p: int| range_points(x).contains(p) implies !#[trigger] seq_points(s).contains(p) by {
            if seq_points(s).contains(p) {
                let j = choose|j: int| 0 <= j < s.len() && #[trigger] range_has(s[j], p);
                if j < i - 1 {
                    lemma_sorted_apart(s, j, i - 1);
                } else if j > i {
                    lemma_sorted_apart(s, i, j);
                }
            }
        }
    } else {
        let p = if x.start < s[i].start { s[i].start as int } else { x.start as int };
        assert(range_has(s[i], p));
        assert(range_points(x).contains(p));
        assert(seq_points(s).contains(p));
    }
}

/// The ranges of `g` are non-empty and increasing, none touches the next,
/// and together they hold exactly the points of `pts`: `g` lists the maximal
/// runs of `pts` in order.
#[verifier::opaque]
pub open spec fn is_run_list(g: Seq<Range<usize>>, pts: Set<int>) -> bool {
    &&& forall|k: int| 0 <= k < g.len() ==> (#[trigger] g[k]).start < g[k].end
    &&& forall|k: int| 0 <= k < g.len() - 1 ==> (#[trigger] g[k]).end < g[k + 1].start
    &&& seq_points(g) == pts
}

/// The points from `lo` up to the start of the range at `j` are free when
/// every earlier range ends by `lo`.
proof fn lemma_free_before(s: Seq<Range<usize>>, j: int, lo: usize)
    requires
        seq_wf(s),
        0 <= j < s.len(),
        forall|k: int| 0 <= k < j ==> (#[trigger] s[k]).end <= lo,
    ensures
        range_points(lo..s[j].start).disjoint(seq_points(s)),
        range_points(s[j]).subset_of(seq_points(s)),
{
    assert forall|p: int| range_points(lo..s[j].start).contains(p) implies !#[trigger] seq_points(
        s,
    ).contains(p) by {
        if seq_points(s).contains(p) {
            let k = choose|k: int| 0 <= k < s.len() && #[trigger] range_has(s[k], p);
            if k > j {
                lemma_sorted_apart(s, j, k);
            }
        }
    }
    assert forall|p: int| range_points(s[j]).contains(p) implies #[trigger] seq_points(s).contains(p) by {
        assert(range_has(s[j], p));
    }
}

/// Splitting a range at `b` splits its free points there too.
proof fn lemma_free_split(a: usize, b: usize, c: usize, taken: Set<int>)
    requires
        a <= b <= c,
    ensures
        range_points(a..c).difference(taken) == range_points(a..b).difference(taken).union(
            range_points(b..c).difference(taken),
        ),
{
    assert(range_points(a..c).difference(taken) =~= range_points(a..b).difference(taken).union(
        range_points(b..c).difference(taken),
    ));
}

/// The gaps between consecutive ranges of `s`, in order.
pub open spec fn gaps(s: Seq<Range<usize>>) -> Seq<Range<usize>> {
    Seq::new((s.len() - 1) as nat, |k: int| s[k].end..s[k + 1].start)
}

/// In a run list every range ends before any later one starts.
proof fn lemma_run_list_apart(g: Seq<Range<usize>>, pts: Set<int>, i: int, j: int)
    requires
        is_run_list(g, pts),
        0 <= i < j < g.len(),
    ensures
        g[i].end < g[j].start,
    decreases j - i,
{
    reveal(is_run_list);
    if i + 1 < j {
        lemma_run_list_apart(g, pts, i, j - 1);
        assert(g[j - 1].start < g[j - 1].end);
        assert(g[j - 1].end < g[j].start);
    }
}

/// The first range of a run list holds its smallest point, and ends at the
/// first point above it that the list does not hold.
proof fn lemma_run_list_first(g: Seq<Range<usize>>, pts: Set<int>)
    requires
        is_run_list(g, pts),
        g.len() > 0,
    ensures
        pts.contains(g[0].start as int),
        forall|p: int| pts.contains(p) ==> g[0].start <= p,
        !pts.contains(g[0].end as int),
        forall|p: int| g[0].start <= p < g[0].end ==> pts.contains(p),
        seq_points(g.drop_first()) == pts.difference(range_points(g[0])),
        is_run_list(g.drop_first(), pts.difference(range_points(g[0]))),
{
    reveal(is_run_list);
    assert(range_has(g[0], g[0].start as int));
    assert forall|p: int| pts.contains(p) implies g[0].start <= p by {
        let k = choose|k: int| 0 <= k < g.len() && #[trigger] range_has(g[k], p);
        if k > 0 {
            lemma_run_list_apart(g, pts, 0, k);
        }
    }
    if pts.contains(g[0].end as int) {
        let k = choose|k: int| 0 <= k < g.len() && #[trigger] range_has(g[k], g[0].end as int);
        if k > 0 {
            lemma_run_list_apart(g, pts, 0, k);
        }
    }
    assert forall|p: int| g[0].start <= p < g[0].end implies pts.contains(p) by {
        assert(range_has(g[0], p));
    }
    let t = g.drop_first();
    assert forall|p: int| #[trigger] seq_points(t).contains(p) implies pts.difference(
        range_points(g[0]),
    ).contains(p) by {
        let k = choose|k: int| 0 <= k < t.len() && #[trigger] range_has(t[k], p);
        assert(range_has(g[k + 1], p));
        lemma_run_list_apart(g, pts, 0, k + 1);
    }
    assert forall|p: int| #[trigger] pts.difference(range_points(g[0])).contains(p) implies seq_points(
        t,
    ).contains(p) by {
        let k = choose|k: int| 0 <= k < g.len() && #[trigger] range_has(g[k], p);
        assert(k != 0);
        assert(range_has(t[k - 1], p));
    }
    assert(seq_points(t) =~= pts.difference(range_points(g[0])));
}

/// An empty run list holds no point, and a non-empty one holds some.
proof fn lemma_run_list_empty(g: Seq<Range<usize>>, pts: Set<int>)
    requires
        is_run_list(g, pts),
    ensures
        g.len() == 0 <==> pts =~= Set::empty(),
{
    reveal(is_run_list);
    if g.len() > 0 {
        assert(range_has(g[0], g[0].start as int));
        assert(pts.contains(g[0].start as int));
    } else {
        assert(seq_points(g) =~= Set::empty());
    }
}

/// Two non-empty run lists of one set of points start with the same range.
proof fn lemma_run_list_heads(g: Seq<Range<usize>>, h: Seq<Range<usize>>, pts: Set<int>)
    requires
        is_run_list(g, pts),
        is_run_list(h, pts),
        g.len() > 0,
        h.len() > 0,
    ensures
        g[0] == h[0],
{
    reveal(is_run_list);
    lemma_run_list_first(g, pts);
    lemma_run_list_first(h, pts);
    let a = g[0];
    let b = h[0];
    assert(a.start == b.start);
    if a.end < b.end {
        assert(b.start <= a.end < b.end);
        assert(pts.contains(a.end as int));
    } else if b.end < a.end {
        assert(a.start <= b.end < a.end);
        assert(pts.contains(b.end as int));
    }
}

/// Without its first range, a run list is the run list of the points that
/// range does not hold.
proof fn lemma_run_list_tail(g: Seq<Range<usize>>, pts: Set<int>)
    requires
        is_run_list(g, pts),
        g.len() > 0,
    ensures
        is_run_list(g.drop_first(), pts.difference(range_points(g[0]))),
{
    lemma_run_list_first(g, pts);
}

/// A set of points has one run list at most.
pub proof fn lemma_run_list_unique(g: Seq<Range<usize>>, h: Seq<Range<usize>>, pts: Set<int>)
    requires
        is_run_list(g, pts),
        is_run_list(h, pts),
    ensures
        g == h,
    decreases g.len(),
{
    lemma_run_list_empty(g, pts);
    lemma_run_list_empty(h, pts);
    if g.len() == 0 {
        assert(g =~= h);
    } else {
        lemma_run_list_heads(g, h, pts);
        lemma_run_list_tail(g, pts);
        lemma_run_list_tail(h, pts);
        let rest = pts.difference(range_points(g[0]));
        lemma_run_list_unique(g.drop_first(), h.drop_first(), rest);
        assert forall|i: int| 0 <= i < g.len() implies g[i] == h[i] by {
            if i > 0 {
                assert(g[i] == g.drop_first()[i - 1]);
                assert(h[i] == h.drop_first()[i - 1]);
            }
        }
        assert(g =~= h);
    }
}

/// The gaps of a merged, well-formed sequence are the run list of the
/// points it leaves free.
proof fn lemma_gaps_run_list(s: Seq<Range<usize>>)
    requires
        seq_wf(s),
        seq_separated(s),
    ensures
        is_run_list(gaps(s), range_points(0..usize::MAX).difference(seq_points(s))),
{
    reveal(is_run_list);
    let g = gaps(s);
    let free = range_points(0..usize::MAX).difference(seq_points(s));
    assert forall|k: int| 0 <= k < g.len() implies (#[trigger] g[k]).start < g[k].end by {
        assert(s[k].end < s[k + 1].start);
    }
    assert forall|k: int| 0 <= k < g.len() - 1 implies (#[trigger] g[k]).end < g[k + 1].start by {
        assert(s[k + 1].start < s[k + 1].end);
    }
    assert forall|p: int| #[trigger] seq_points(g).contains(p) implies free.contains(p) by {
        let k = choose|k: int| 0 <= k < g.len() && #[trigger] range_has(g[k], p);
        assert(s[k].end <= p < s[k + 1].start);
        assert(p < usize::MAX) by {
            assert(s[k + 1].start <= s[k + 1].end);
        }
        if seq_points(s).contains(p) {
            let j = choose|j: int| 0 <= j < s.len() && #[trigger] range_has(s[j], p);
            if j < k {
                lemma_sorted_apart(s, j, k);
            } else if j > k + 1 {
                lemma_sorted_apart(s, k + 1, j);
            }
        }
    }
    assert forall|p: int| #[trigger] free.contains(p) implies seq_points(g).contains(p) by {
        if p < s[0].end {
            assert(range_has(s[0], p));
        }
        lemma_free_in_gap(s, p, 0);
        let k = choose|k: int| 0 <= k < s.len() - 1 && s[k].end <= p < #[trigger] s[k + 1].start;
        assert(range_has(g[k], p));
    }
    assert(seq_points(g) =~= free);
}

/// A free point from the range at `i` on lies in the gap after some range.
proof fn lemma_free_in_gap(s: Seq<Range<usize>>, p: int, i: int)
    requires
        seq_wf(s),
        0 <= p < usize::MAX,
        !seq_points(s).contains(p),
        0 <= i < s.len(),
        s[i].end <= p,
    ensures
        exists|k: int| 0 <= k < s.len() - 1 && s[k].end <= p < #[trigger] s[k + 1].start,
    decreases s.len() - i,
{
    if i == s.len() - 1 {
        assert(false);
    } else if p < s[i + 1].start {
        assert(s[i].end <= p < s[i + 1].start);
    } else {
        if p < s[i + 1].end {
            assert(range_has(s[i + 1], p));
        }
        lemma_free_in_gap(s, p, i + 1);
    }
}

/// The complement of a merged set over the whole range of `usize` lists
/// exactly the gaps between its consecutive stored ranges, in order: what
/// [`IntervalSet::get_disjoint`] appends for the range `0..usize::MAX` is
/// `gaps(set@)`.
pub proof fn lemma_complement_is_gaps(set: IntervalSet, out: Seq<Range<usize>>)
    requires
        set.wf(),
        seq_separated(set@),
        is_run_list(out, range_points(0..usize::MAX).difference(set.points())),
    ensures
        out == gaps(set@),
{
    let s = set@;
    if !seq_points(s).contains(0) {
        assert(range_has(s[0], 0) || s[0].end == 0);
    }
    lemma_gaps_run_list(s);
    lemma_run_list_unique(out, gaps(s), range_points(0..usize::MAX).difference(set.points()));
}

/// The errors of [`IntervalSet::insert`].
#[derive(Clone, Copy, Debug, PartialEq, Eq, Structural)]
pub enum IntervalError {
    /// The interval holds no point.
    Empty,
    /// The interval shares a point with a stored range.
    NotDisjoint,
}

/// A set of disjoint `Range<usize>` intervals, bracketed by two sentinel
/// ranges that cover everything below and above the bounds it was made with.
#[derive(Clone, Debug, PartialEq, Eq)]
pub struct IntervalSet {
    intervals: Vec<Range<usize>>,
}

impl View for IntervalSet {
    type V = Seq<Range<usize>>;

    closed spec fn view(&self) -> Seq<Range<usize>> {
        self.intervals@
    }
}

impl IntervalSet {
    /// The set is well formed: see [`seq_wf`].
    pub open spec fn wf(&self) -> bool {
        seq_wf(self@)
    }

    /// The points covered by the stored ranges, sentinels included.
    pub open spec fn points(&self) -> Set<int> {
        seq_points(self@)
    }

    /// Creates a new interval set whose only free points are those of
    /// `bounds`.
    pub fn new(bounds: Range<usize>) -> (r: Self)
        requires
            bounds.start <= bounds.end,
        ensures
            r.wf(),
            r@ == seq![0..bounds.start, bounds.end..usize::MAX],
    {
        IntervalSet { intervals: vec![0..bounds.start, bounds.end..usize::MAX] }
    }

    /// The index of the first stored range that ends after `key`.
    #[verifier::spinoff_prover]
    fn first_end_after(&self, key: usize) -> (i: usize)
        requires
            self.wf(),
        ensures
            i <= self@.len(),
            forall|k: int| 0 <= k < i ==> (#[trigger] self@[k]).end <= key,
            forall|k: int| i <= k < self@.len() ==> (#[trigger] self@[k]).end > key,
    {
        let ghost s = self@;
        let mut lo: usize = 0;
        let mut hi: usize = self.intervals.len();
        while lo < hi
            invariant
                s == self@,
                self.wf(),
                lo <= hi <= s.len(),
                forall|k: int| 0 <= k < lo ==> (#[trigger] s[k]).end <= key,
                forall|k: int| hi <= k < s.len() ==> (#[trigger] s[k]).end > key,
            decreases hi - lo,
        {
            let mid = lo + (hi - lo) / 2;
            if self.intervals[mid].end <= key {
                assert forall|k: int| 0 <= k < mid + 1 implies (#[trigger] s[k]).end <= key by {
                    if k < mid {
                        lemma_sorted_apart(s, k, mid as int);
                    }
                }
                lo = mid + 1;
            } else {
                assert forall|k: int| mid <= k < s.len() implies (#[trigger] s[k]).end > key by {
                    if k > mid {
                        lemma_sorted_apart(s, mid as int, k);
                    }
                }
                hi = mid;
            }
        }
        lo
    }

    /// Adds the points of `interval` to the set, which must hold none of
    /// them yet. A range that meets a stored one is merged into it, and one
    /// that closes the gap between two stored ranges joins them.
    pub fn insert(&mut self, interval: Range<usize>) -> (r: Result<(), IntervalError>)
        requires
            old(self).wf(),
        ensures
            final(self).wf(),
            (r == Err::<(), IntervalError>(IntervalError::Empty)) <==> interval.end
                <= interval.start,
            r is Ok <==> interval.start < interval.end && range_points(interval).disjoint(
                old(self).points(),
            ),
            r is Ok ==> final(self).points() == old(self).points().union(range_points(interval)),
            r is Ok ==> seq_separated(final(self)@),
            r is Err ==> final(self)@ == old(self)@,
    {
        let x = normalize(interval);
        if x.end <= x.start {
            return Err(IntervalError::Empty);
        }
        let ghost s = self@;
        let i = self.first_end_after(x.start);
        if i == 0 {
            assert(range_has(s[0], x.start as int));
            assert(range_points(interval).contains(x.start as int));
            assert(self.points().contains(x.start as int));
            return Err(IntervalError::NotDisjoint);
        }
        let gap_start = self.intervals[i - 1].end;
        let gap_end = self.intervals[i].start;
        proof {
            lemma_gap_disjoint(s, i as int, x);
            assert(range_points(x) =~= range_points(interval));
        }
        if !(x.end <= gap_end) {
            return Err(IntervalError::NotDisjoint);
        }
        proof {
            if s.len() == 2 {
                assert(seq_separated(s));
            }
        }
        let prev_start = self.intervals[i - 1].start;
        if gap_start < x.start && x.end < gap_end {
            proof {
                lemma_gap_insert(s, i as int, x);
            }
            self.intervals.insert(i, x);
        } else if gap_start == x.start && x.end == gap_end {
            proof {
                lemma_gap_join(s, i as int, x);
            }
            let next_end = self.intervals[i].end;
            self.intervals.set(i - 1, prev_start..next_end);
            self.intervals.remove(i);
        } else if gap_start == x.start {
            proof {
                lemma_gap_extend_left(s, i as int, x);
            }
            self.intervals.set(i - 1, prev_start..x.end);
        } else {
            proof {
                lemma_gap_extend_right(s, i as int, x);
            }
            let next_end = self.intervals[i].end;
            self.intervals.set(i, x.start..next_end);
        }
        Ok(())
    }

    /// Appends to `out` the maximal runs of the points of `interval` that no
    /// stored range covers, in increasing order.
    #[verifier::spinoff_prover]
    pub fn get_disjoint(&self, interval: Range<usize>, out: &mut Vec<Range<usize>>)
        requires
            self.wf(),
        ensures
            final(out)@.len() >= old(out)@.len(),
            final(out)@.subrange(0, old(out)@.len() as int) == old(out)@,
            is_run_list(
                final(out)@.skip(old(out)@.len() as int),
                range_points(interval).difference(self.points()),
            ),
    {
        reveal(is_run_list);
        let ghost s = self@;
        let ghost out0 = out@;
        let ghost taken = self.points();
        let x = normalize(interval);
        assert(range_points(x) =~= range_points(interval));
        if x.end <= x.start {
            assert(out@.skip(out0.len() as int) =~= Seq::<Range<usize>>::empty());
            assert(range_points(interval).difference(taken) =~= Set::empty());
            assert(seq_points(Seq::<Range<usize>>::empty()) =~= Set::empty());
            return;
        }
        let i = self.first_end_after(x.start);
        let mut cur = x.start;
        let mut j = i;
        let ghost mut g: Seq<Range<usize>> = Seq::empty();
        assert(seq_points(g) =~= range_points(x.start..cur).difference(taken));
        while j < self.intervals.len()
            invariant_except_break
                i <= j <= s.len(),
                x.start <= cur < x.end,
                j == i ==> cur == x.start,
                j > i ==> cur == s[j - 1].end,
                forall|k: int| 0 <= k < j ==> (#[trigger] s[k]).end <= cur,
                g.len() > 0 ==> g[g.len() - 1].end < cur,
                seq_points(g) == range_points(x.start..cur).difference(taken),
            invariant
                s == self@,
                self.wf(),
                taken == self.points(),
                forall|k: int| i <= k < s.len() ==> (#[trigger] s[k]).end > x.start,
                forall|k: int| 0 <= k < i ==> (#[trigger] s[k]).end <= x.start,
                out@ == out0 + g,
                forall|k: int| 0 <= k < g.len() ==> (#[trigger] g[k]).start < g[k].end,
                forall|k: int| 0 <= k < g.len() - 1 ==> (#[trigger] g[k]).end < g[k + 1].start,
            ensures
                seq_points(g) == range_points(x).difference(taken),
            decreases s.len() - j,
        {
            proof {
                if j > i {
                    lemma_sorted_apart(s, j - 1, j as int);
                }
                lemma_free_before(s, j as int, cur);
            }
            let y_start = self.intervals[j].start;
            let y_end = self.intervals[j].end;
            let ghost g0 = g;
            if cur < y_start {
                let stop = if y_start < x.end { y_start } else { x.end };
                out.push(cur..stop);
                proof {
                    g = g.push(cur..stop);
                    assert(g =~= g0.insert(g0.len() as int, cur..stop));
                    lemma_points_insert(g0, g0.len() as int, cur..stop);
                    assert(range_points(cur..stop).difference(taken) =~= range_points(cur..stop));
                    lemma_free_split(x.start, cur, stop, taken);
                }
            } else {
                proof {
                    assert(range_points(cur..cur).difference(taken) =~= Set::empty());
                    lemma_free_split(x.start, cur, cur, taken);
                }
            }
            if y_end >= x.end {
                proof {
                    let stop = if cur < y_start { if y_start < x.end { y_start } else { x.end } } else { cur };
                    assert(range_points(stop..x.end).difference(taken) =~= Set::empty()) by {
                        assert forall|p: int| range_points(stop..x.end).contains(p) implies #[trigger] taken.contains(p) by {
                            assert(range_points(s[j as int]).contains(p));
                        }
                    }
                    lemma_free_split(x.start, stop, x.end, taken);
                    assert(range_points(x) =~= range_points(x.start..x.end));
                }
                break;
            }
            proof {
                assert(range_points(y_start..y_end).difference(taken) =~= Set::empty()) by {
                    assert forall|p: int| range_points(y_start..y_end).contains(p) implies #[trigger] taken.contains(p) by {
                        assert(range_points(s[j as int]).contains(p));
                    }
                }
                if cur < y_start {
                    lemma_free_split(x.start, cur, y_start, taken);
                } else {
                    lemma_free_split(x.start, cur, y_end, taken);
                    assert(range_points(cur..y_end).difference(taken) =~= Set::empty()) by {
                        assert forall|p: int| range_points(cur..y_end).contains(p) implies #[trigger] taken.contains(p) by {
                            assert(range_points(s[j as int]).contains(p));
                        }
                    }
                }
            }
            cur = y_end;
            j = j + 1;
        }
        proof {
            assert(out@.subrange(0, out0.len() as int) =~= out0);
            assert(out@.skip(out0.len() as int) =~= g);
        }
    }

    /// The stored ranges, in increasing order.
    pub fn intervals(&self) -> (r: &[Range<usize>])
        ensures
            r@ == self@,
    {
        self.intervals.as_slice()
    }
}

/// The range from `interval.start`, emptied if it ends before it starts.
fn normalize(interval: Range<usize>) -> (r: Range<usize>)
    ensures
        r.start == interval.start,
        r.end == if interval.end < interval.start { interval.start } else { interval.end },
{
    let end = if interval.end < interval.start { interval.start } else { interval.end };
    interval.start..end
}

} // verus!
