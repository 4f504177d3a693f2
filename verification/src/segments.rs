//! Horizontal line-segment detection over a row of booleans: maximal runs
//! of set cells, runs joined across small gaps (accumulating their votes),
//! and a filter on vote count and length.

use vstd::prelude::*;

verus! {

/// A candidate line segment `[start, end)` supported by `vote` set cells.
#[derive(Debug, Clone, Copy, PartialEq, Eq, Structural)]
pub struct Segment {
    pub vote: u32,
    pub start: i32,
    pub end: i32,
}

impl Segment {
    /// A single-cell segment at `i`.
    pub fn new(i: i32) -> (r: Segment)
        requires
            i < i32::MAX,
        ensures
            r == (Segment { vote: 1u32, start: i, end: (i + 1) as i32 }),
    {
        Segment { vote: 1, start: i, end: i + 1 }
    }

    /// The segment covers a non-empty range and is supported by at most one
    /// vote per covered cell.
    pub open spec fn wf(self) -> bool {
        0 <= self.start < self.end && self.vote <= self.end - self.start
    }

    /// The half-open range the segment covers.
    pub fn range(&self) -> (r: (i32, i32))
        ensures
            r == (self.start, self.end),
    {
        (self.start, self.end)
    }
}

/// `[a, b)` is a maximal run of set cells of `s`.
pub open spec fn is_run(s: Seq<bool>, a: int, b: int) -> bool {
    &&& 0 <= a < b <= s.len()
    &&& (forall|i: int| a <= i < b ==> s[i])
    &&& (a == 0 || !s[a - 1])
    &&& (b == s.len() || !s[b])
}

/// Some run of `r` covers index `i`.
pub open spec fn run_covers(r: Seq<(usize, usize)>, i: int) -> bool {
    exists|k: int| 0 <= k < r.len() && (#[trigger] r[k]).0 <= i < r[k].1
}

/// The maximal runs of set cells, in order: every entry is a maximal run,
/// they are disjoint and ordered, and every set cell lies in one.
pub fn true_segments(vs: &Vec<bool>) -> (r: Vec<(usize, usize)>)
    ensures
        forall|k: int| 0 <= k < r@.len() ==> is_run(vs@, (#[trigger] r@[k]).0 as int, r@[k].1 as int),
        forall|k: int, l: int| 0 <= k < l < r@.len() ==> (#[trigger] r@[k]).1 < (#[trigger] r@[l]).0,
        forall|i: int| 0 <= i < vs@.len() && vs@[i] ==> run_covers(r@, i),
{
    let mut r: Vec<(usize, usize)> = Vec::new();
    let mut start: Option<usize> = None;
    let mut i: usize = 0;
    while i < vs.len()
        invariant
            0 <= i <= vs@.len(),
            forall|k: int|
                0 <= k < r@.len() ==> is_run(vs@, (#[trigger] r@[k]).0 as int, r@[k].1 as int),
            forall|k: int, l: int|
                0 <= k < l < r@.len() ==> (#[trigger] r@[k]).1 < (#[trigger] r@[l]).0,
            forall|k: int| 0 <= k < r@.len() ==> (#[trigger] r@[k]).1 < i,
            match start {
                Some(st) => st < i && (forall|j: int| st <= j < i ==> vs@[j]) && (st == 0 || !vs@[st - 1]) && (forall|k: int| 0 <= k < r@.len() ==> (#[trigger] r@[k]).1 < st),
                None => forall|j: int| 0 <= j < i && vs@[j] ==> run_covers(r@, j),
            },
            match start {
                Some(st) => forall|j: int| 0 <= j < st && vs@[j] ==> run_covers(r@, j),
                None => true,
            },
        decreases vs@.len() - i,
    {
        if vs[i] {
            if start.is_none() {
                start = Some(i);
            }
        } else {
            match start {
                Some(st) => {
                    let ghost r0 = r@;
                    r.push((st, i));
                    proof {
                        assert(r@.drop_last() =~= r0);
                        assert(is_run(vs@, st as int, i as int));
                        assert forall|j: int| 0 <= j < i + 1 && vs@[j] implies run_covers(
                            r@,
                            j,
                        ) by {
                            if j < st {
                                let k = choose|k: int|
                                    0 <= k < r0.len() && (#[trigger] r0[k]).0 <= j < r0[k].1;
                                assert(r@[k] == r0[k]);
                            } else {
                                assert(r@[r@.len() - 1].0 <= j < r@[r@.len() - 1].1);
                            }
                        }
                    }
                    start = None;
                },
                None => {},
            }
        }
        i = i + 1;
    }
    match start {
        Some(st) => {
            let ghost r0 = r@;
            r.push((st, vs.len()));
            proof {
                assert(r@.drop_last() =~= r0);
                assert(is_run(vs@, st as int, vs@.len() as int));
                assert forall|j: int| 0 <= j < vs@.len() && vs@[j] implies run_covers(r@, j) by {
                    if j < st {
                        let k = choose|k: int|
                            0 <= k < r0.len() && (#[trigger] r0[k]).0 <= j < r0[k].1;
                        assert(r@[k] == r0[k]);
                    } else {
                        assert(r@[r@.len() - 1].0 <= j < r@[r@.len() - 1].1);
                    }
                }
            }
        },
        None => {},
    }
    r
}

/// The maximal runs of set cells as [`Segment`]s, each voted once per cell.
pub fn continuous_points(seq: &Vec<bool>) -> (r: Vec<Segment>)
    requires
        seq@.len() <= i32::MAX,
    ensures
        forall|k: int|
            0 <= k < r@.len() ==> is_run(seq@, (#[trigger] r@[k]).start as int, r@[k].end as int)
                && r@[k].vote == r@[k].end - r@[k].start && r@[k].wf(),
        forall|k: int, l: int|
            0 <= k < l < r@.len() ==> (#[trigger] r@[k]).end < (#[trigger] r@[l]).start,
        forall|i: int|
            0 <= i < seq@.len() && seq@[i] ==> exists|k: int|
                0 <= k < r@.len() && (#[trigger] r@[k]).start <= i < r@[k].end,
{
    let runs = true_segments(seq);
    let mut r: Vec<Segment> = Vec::new();
    let mut k: usize = 0;
    while k < runs.len()
        invariant
            0 <= k <= runs@.len(),
            r@.len() == k,
            seq@.len() <= i32::MAX,
            forall|j: int|
                0 <= j < runs@.len() ==> is_run(seq@, (#[trigger] runs@[j]).0 as int, runs@[j].1 as int),
            forall|j: int, l: int|
                0 <= j < l < runs@.len() ==> (#[trigger] runs@[j]).1 < (#[trigger] runs@[l]).0,
            forall|j: int|
                0 <= j < k ==> (#[trigger] r@[j]).start == runs@[j].0 && r@[j].end == runs@[j].1
                    && r@[j].vote == r@[j].end - r@[j].start,
        decreases runs@.len() - k,
    {
        let (a, b) = runs[k];
        let seg = Segment { vote: (b - a) as u32, start: a as i32, end: b as i32 };
        r.push(seg);
        k = k + 1;
    }
    proof {
        assert forall|i: int|
            0 <= i < seq@.len() && seq@[i] implies exists|kk: int|
            0 <= kk < r@.len() && (#[trigger] r@[kk]).start <= i < r@[kk].end by {
            assert(run_covers(runs@, i));
            let kk = choose|kk: int| 0 <= kk < runs@.len() && (#[trigger] runs@[kk]).0 <= i < runs@[kk].1;
            assert(r@[kk].start <= i < r@[kk].end);
        }
    }
    r
}

/// Two mergeable neighbours joined: one segment spanning both, carrying the
/// votes of both.
pub open spec fn merged(a: Segment, b: Segment) -> Segment {
    Segment { vote: (a.vote + b.vote) as u32, start: a.start, end: b.end }
}

/// The exact result of joining ordered segments whose gap is at most `g`,
/// left to right.
pub open spec fn join_spec(s: Seq<Segment>, g: int) -> Seq<Segment>
    decreases s.len(),
{
    if s.len() == 0 {
        Seq::empty()
    } else if s.len() == 1 {
        seq![s[0]]
    } else {
        let r = join_spec(s.drop_last(), g);
        if s.last().start - r.last().end <= g {
            r.drop_last().push(merged(r.last(), s.last()))
        } else {
            r.push(s.last())
        }
    }
}

/// Are the segments well formed, ordered, and non-overlapping?
pub open spec fn segments_ordered(s: Seq<Segment>) -> bool {
    &&& forall|k: int| 0 <= k < s.len() ==> (#[trigger] s[k]).wf()
    &&& forall|k: int, l: int| 0 <= k < l < s.len() ==> (#[trigger] s[k]).end <= (#[trigger] s[l]).start
}

/// Joins ordered segments separated by gaps of at most `max_line_gap`
/// cells, accumulating their votes, exactly as [`join_spec`] says.
pub fn join_segments(segments: Vec<Segment>, max_line_gap: i32) -> (r: Vec<Segment>)
    requires
        segments_ordered(segments@),
        max_line_gap >= 0,
    ensures
        r@ =~= join_spec(segments@, max_line_gap as int),
{
    let ghost s0 = segments@;
    let g = max_line_gap;
    let mut out: Vec<Segment> = Vec::new();
    let mut k: usize = 0;
    while k < segments.len()
        invariant
            0 <= k <= s0.len(),
            segments@ == s0,
            segments_ordered(s0),
            g == max_line_gap,
            g >= 0,
            out@ =~= join_spec(s0.take(k as int), g as int),
            k > 0 ==> out@.len() >= 1 && out@.last().end == s0[k - 1].end && out@.last().start
                >= 0 && out@.last().vote <= out@.last().end - out@.last().start && out@.last().start
                <= out@.last().end,
        decreases s0.len() - k,
    {
        let seg = segments[k];
        proof {
            assert(s0.take(k + 1).drop_last() =~= s0.take(k as int));
            assert(s0.take(k + 1).last() == s0[k as int]);
            assert(s0[k as int].wf());
            if k > 0 {
                assert(s0[k - 1].end <= s0[k as int].start);
            }
        }
        if out.len() == 0 {
            out.push(seg);
        } else {
            let last = out[out.len() - 1];
            if seg.start - last.end <= g {
                let ghost out0 = out@;
                let m = Segment { vote: last.vote + seg.vote, start: last.start, end: seg.end };
                let _ = out.pop();
                out.push(m);
                proof {
                    assert(out@ =~= out0.drop_last().push(m));
                    assert(m == merged(out0.last(), s0[k as int]));
                }
            } else {
                out.push(seg);
            }
        }
        k = k + 1;
    }
    proof {
        assert(s0.take(s0.len() as int) =~= s0);
    }
    out
}

/// Keeps the segments with at least `vote_threshold` votes and a length of
/// at least `min_line_len`, as ranges.
pub fn filter_segments(segments: &Vec<Segment>, vote_threshold: u32, min_line_len: i32) -> (r: Vec<
    (i32, i32),
>)
    requires
        forall|k: int| 0 <= k < segments@.len() ==> (#[trigger] segments@[k]).wf(),
    ensures
        r@ =~= segments@.filter(
            |s: Segment| s.vote >= vote_threshold && s.end - s.start >= min_line_len,
        ).map_values(|s: Segment| (s.start, s.end)),
{
    let ghost pred = |s: Segment| s.vote >= vote_threshold && s.end - s.start >= min_line_len;
    let mut r: Vec<(i32, i32)> = Vec::new();
    let mut k: usize = 0;
    proof {
        reveal(Seq::filter);
        assert(segments@.take(0) =~= Seq::<Segment>::empty());
    }
    while k < segments.len()
        invariant
            0 <= k <= segments@.len(),
            pred == (|s: Segment| s.vote >= vote_threshold && s.end - s.start >= min_line_len),
            forall|j: int| 0 <= j < segments@.len() ==> (#[trigger] segments@[j]).wf(),
            r@ =~= segments@.take(k as int).filter(pred).map_values(
                |s: Segment| (s.start, s.end),
            ),
        decreases segments@.len() - k,
    {
        proof {
            reveal(Seq::filter);
            assert(segments@.take(k + 1).drop_last() =~= segments@.take(k as int));
            assert(segments@.take(k + 1).last() == segments@[k as int]);
        }
        let seg = segments[k];
        if seg.vote >= vote_threshold && seg.end - seg.start >= min_line_len {
            let ghost r0 = r@;
            r.push((seg.start, seg.end));
            proof {
                assert(pred(segments@[k as int]));
                assert(segments@.take(k + 1).filter(pred) =~= segments@.take(k as int).filter(
                    pred,
                ).push(segments@[k as int]));
                assert(r@ =~= r0.push((seg.start, seg.end)));
            }
        } else {
            proof {
                assert(!pred(segments@[k as int]));
                assert(segments@.take(k + 1).filter(pred) =~= segments@.take(k as int).filter(
                    pred,
                ));
            }
        }
        k = k + 1;
    }
    proof {
        assert(segments@.take(segments@.len() as int) =~= segments@);
    }
    r
}

/// The parameters of the line finder.
#[derive(Debug, Clone, Copy)]
pub struct FindLineSegments {
    pub vote_threshold: u32,
    pub min_line_len: i32,
    pub max_line_gap: i32,
}

impl FindLineSegments {
    /// Finds line segments in a row of cells: maximal runs of set cells,
    /// joined across gaps of at most `max_line_gap`, kept when their votes
    /// and length reach the thresholds.
    pub fn find(&self, seq: &Vec<bool>) -> (r: Vec<(i32, i32)>)
        requires
            seq@.len() <= i32::MAX,
            self.max_line_gap >= 0,
        ensures
            exists|runs: Seq<Segment>|
                #[trigger] segment_decomposition(seq@, runs) && r@ =~= found_lines(
                    runs,
                    self.max_line_gap as int,
                    self.vote_threshold,
                    self.min_line_len,
                ),
    {
        find_line_segments(seq, self.vote_threshold, self.min_line_len, self.max_line_gap)
    }
}

/// What the line finder reports for the run decomposition `runs`: runs
/// joined across gaps of at most `g`, kept when votes and length reach the
/// thresholds, as ranges.
pub open spec fn found_lines(runs: Seq<Segment>, g: int, vote_threshold: u32, min_line_len: i32) -> Seq<(i32, i32)> {
    join_spec(runs, g).filter(
        |s: Segment| s.vote >= vote_threshold && s.end - s.start >= min_line_len,
    ).map_values(|s: Segment| (s.start, s.end))
}

/// `runs` is exactly the ordered maximal-run decomposition of `s`.
pub open spec fn segment_decomposition(s: Seq<bool>, runs: Seq<Segment>) -> bool {
    &&& forall|k: int|
        0 <= k < runs.len() ==> is_run(s, (#[trigger] runs[k]).start as int, runs[k].end as int)
            && runs[k].vote == runs[k].end - runs[k].start && runs[k].wf()
    &&& forall|k: int, l: int|
        0 <= k < l < runs.len() ==> (#[trigger] runs[k]).end < (#[trigger] runs[l]).start
    &&& forall|i: int|
        0 <= i < s.len() && s[i] ==> exists|k: int|
            0 <= k < runs.len() && (#[trigger] runs[k]).start <= i < runs[k].end
}

/// [`FindLineSegments::find`], as a free function.
pub fn find_line_segments(
    seq: &Vec<bool>,
    vote_threshold: u32,
    min_line_len: i32,
    max_line_gap: i32,
) -> (r: Vec<(i32, i32)>)
    requires
        seq@.len() <= i32::MAX,
        max_line_gap >= 0,
    ensures
        exists|runs: Seq<Segment>|
            #[trigger] segment_decomposition(seq@, runs) && r@ =~= found_lines(
                runs,
                max_line_gap as int,
                vote_threshold,
                min_line_len,
            ),
{
    let points = continuous_points(seq);
    let ghost runs = points@;
    proof {
        assert(segments_ordered(points@));
        assert(segment_decomposition(seq@, runs));
    }
    let joined = join_segments(points, max_line_gap);
    proof {
        lemma_join_keeps_wf(runs, max_line_gap as int);
    }
    let r = filter_segments(&joined, vote_threshold, min_line_len);
    proof {
        assert(r@ =~= found_lines(runs, max_line_gap as int, vote_threshold, min_line_len));
    }
    r
}

proof fn lemma_join_keeps_wf(s: Seq<Segment>, g: int)
    requires
        segments_ordered(s),
        g >= 0,
    ensures
        forall|k: int| 0 <= k < join_spec(s, g).len() ==> (#[trigger] join_spec(s, g)[k]).wf(),
        join_spec(s, g).len() <= s.len(),
        s.len() > 0 ==> join_spec(s, g).len() >= 1 && join_spec(s, g).last().end == s.last().end,
    decreases s.len(),
{
    let r = join_spec(s, g);
    if s.len() > 1 {
        assert forall|k: int, l: int|
            0 <= k < l < s.drop_last().len() implies (#[trigger] s.drop_last()[k]).end <= (
        #[trigger] s.drop_last()[l]).start by {
            assert(s[k].end <= s[l].start);
        }
        assert forall|k: int| 0 <= k < s.drop_last().len() implies (#[trigger] s.drop_last()[
            k]).wf() by {
            assert(s[k].wf());
        }
        lemma_join_keeps_wf(s.drop_last(), g);
        let rr = join_spec(s.drop_last(), g);
        assert(s.drop_last().last() == s[s.len() - 2]);
        assert(s[s.len() - 2].end <= s.last().start);
        assert(s.last().wf());
        if s.last().start - rr.last().end <= g {
            assert(merged(rr.last(), s.last()).wf());
            assert forall|k: int| 0 <= k < r.len() implies (#[trigger] r[k]).wf() by {
                if k < r.len() - 1 {
                    assert(r[k] == rr[k]);
                }
            }
        } else {
            assert forall|k: int| 0 <= k < r.len() implies (#[trigger] r[k]).wf() by {
                if k < r.len() - 1 {
                    assert(r[k] == rr[k]);
                }
            }
        }
    }
}

} // verus!
