//! Time-related types: durations and timestamps in exact rational seconds,
//! and frame positions (frame index plus timestamp) with a total order by
//! index.

use vstd::prelude::*;

use crate::rat::{lemma_same_value, rat_add, Rational, RAT_BOUND};

verus! {

/// A length of time, in exact rational seconds.
#[derive(Debug, Clone, Copy)]
pub struct Duration {
    dur: Rational,
}

impl Duration {
    pub closed spec fn rat(self) -> Rational {
        self.dur
    }

    pub open spec fn wf(self) -> bool {
        self.rat().wf()
    }

    pub fn new(dur: Rational) -> (r: Duration)
        requires
            dur.wf(),
        ensures
            r.rat() == dur,
    {
        Duration { dur }
    }

    pub fn as_ratio(&self) -> (r: Rational)
        ensures
            r == self.rat(),
    {
        self.dur
    }

    /// The duration in whole milliseconds, rounded towards zero.
    /// (Negative durations are excluded: rounding towards zero and flooring
    /// then differ.)
    pub fn as_msec(&self) -> (r: i64)
        requires
            self.wf(),
            self.rat().num >= 0,
            self.rat().num * 1000 / self.rat().den as int <= i64::MAX,
        ensures
            r == self.rat().num * 1000 / self.rat().den as int,
    {
        let wide = (self.dur.num as i128) * 1000;
        proof {
            assert(wide / (self.dur.den as i128) <= wide) by (nonlinear_arith)
                requires
                    wide >= 0,
                    self.dur.den > 0,
            ;
        }
        (wide / (self.dur.den as i128)) as i64
    }
}

/// Some well-formed, bounded rational denotes the exact sum of `a` and `b`:
/// the sum can be carried as a [`Rational`] at all.
pub open spec fn sum_in_range(a: Rational, b: Rational) -> bool {
    exists|u: Rational|
        u.wf() && u.bounded() && #[trigger] u.is_frac(
            a.num * b.den + b.num * a.den,
            a.den * b.den,
        )
}

/// A point in time, in exact rational seconds from the start of the stream.
#[derive(Debug, Clone, Copy)]
pub struct Timestamp {
    ts: Rational,
}

impl Timestamp {
    pub closed spec fn rat(self) -> Rational {
        self.ts
    }

    pub open spec fn wf(self) -> bool {
        self.rat().wf()
    }

    pub fn new(ts: Rational) -> (r: Timestamp)
        requires
            ts.wf(),
        ensures
            r.rat() == ts,
    {
        Timestamp { ts }
    }

    pub fn as_ratio(&self) -> (r: Rational)
        ensures
            r == self.rat(),
    {
        self.ts
    }

    /// The timestamp `dur` later than `self`. Returns `None` exactly when
    /// no bounded 64-bit rational denotes the sum.
    pub fn add_duration(&self, dur: &Duration) -> (r: Option<Timestamp>)
        requires
            self.wf(),
            dur.wf(),
            self.rat().bounded(),
            dur.rat().bounded(),
        ensures
            match r {
                Some(t) => t.wf() && t.rat().bounded() && t.rat().is_frac(
                    self.rat().num * dur.rat().den + dur.rat().num * self.rat().den,
                    self.rat().den * dur.rat().den,
                ),
                None => !sum_in_range(self.rat(), dur.rat()),
            },
    {
        let ghost raw_n = self.rat().num * dur.rat().den + dur.rat().num * self.rat().den;
        let ghost raw_d = self.rat().den * dur.rat().den;
        proof {
            assert(raw_d > 0) by (nonlinear_arith)
                requires
                    self.rat().den > 0,
                    dur.rat().den > 0,
                    raw_d == self.rat().den * dur.rat().den,
            ;
        }
        match rat_add(&self.ts, &dur.dur) {
            Some(sum) => {
                if -RAT_BOUND < sum.num && sum.num < RAT_BOUND && sum.den < RAT_BOUND {
                    Some(Timestamp { ts: sum })
                } else {
                    proof {
                        if sum_in_range(self.rat(), dur.rat()) {
                            let u = choose|u: Rational|
                                u.wf() && u.bounded() && #[trigger] u.is_frac(raw_n, raw_d);
                            lemma_same_value(sum, u, raw_n, raw_d);
                            assert(false);
                        }
                    }
                    None
                }
            },
            None => {
                proof {
                    if sum_in_range(self.rat(), dur.rat()) {
                        let u = choose|u: Rational|
                            u.wf() && u.bounded() && #[trigger] u.is_frac(raw_n, raw_d);
                        assert(false);
                    }
                }
                None
            },
        }
    }
}

/// The position of one frame in the stream: its index (dense from the start
/// of the run) and its timestamp. Ordered by index.
#[derive(Debug, Clone, Copy)]
pub struct FramePosition {
    pub idx: usize,
    pub ts: Timestamp,
}

impl FramePosition {
    pub open spec fn index_spec(self) -> nat {
        self.idx as nat
    }

    pub open spec fn timestamp_spec(self) -> Timestamp {
        self.ts
    }

    pub open spec fn wf(self) -> bool {
        self.timestamp_spec().wf()
    }

    pub fn new(idx: usize, ts: Timestamp) -> (r: FramePosition)
        requires
            ts.wf(),
        ensures
            r.index_spec() == idx,
            r.timestamp_spec() == ts,
    {
        FramePosition { idx, ts }
    }

    pub fn index(&self) -> (r: usize)
        ensures
            r == self.index_spec(),
    {
        self.idx
    }

    pub fn timestamp(&self) -> (r: Timestamp)
        ensures
            r == self.timestamp_spec(),
    {
        self.ts
    }

    /// The position of the following frame: the next index, one frame
    /// interval later. Returns `None` exactly when the index is already at
    /// its machine maximum or no bounded 64-bit rational denotes the next
    /// timestamp.
    pub fn next(&self, sec_per_frame: &Duration) -> (r: Option<FramePosition>)
        requires
            self.wf(),
            sec_per_frame.wf(),
            self.timestamp_spec().rat().bounded(),
            sec_per_frame.rat().bounded(),
        ensures
            match r {
                Some(p) => p.wf() && p.index_spec() == self.index_spec() + 1
                    && p.timestamp_spec().rat().bounded() && p.timestamp_spec().rat().is_frac(
                    self.timestamp_spec().rat().num * sec_per_frame.rat().den
                        + sec_per_frame.rat().num * self.timestamp_spec().rat().den,
                    self.timestamp_spec().rat().den * sec_per_frame.rat().den,
                ),
                None => self.index_spec() == usize::MAX || !sum_in_range(
                    self.timestamp_spec().rat(),
                    sec_per_frame.rat(),
                ),
            },
    {
        if self.idx == usize::MAX {
            return None;
        }
        match self.ts.add_duration(sec_per_frame) {
            Some(ts) => Some(FramePosition { idx: self.idx + 1, ts }),
            None => None,
        }
    }
}

} // verus!
