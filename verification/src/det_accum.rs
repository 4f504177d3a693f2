//! Detection hysteresis. One accumulator per component turns the per-frame
//! ternary detection signal into stable `Found`/`Absent` spans:
//!
//! - `Found`, or `Possible` immediately following a `Found` frame
//!   (continuity), opens or continues a span and reclassifies every buffered
//!   `Possible` frame as `Found`;
//! - a `Possible` frame with no such continuity is buffered, undecided,
//!   for at most [`EXPIRE_FRAMES`] frames, after which it resolves to
//!   `Absent`;
//! - `Absent` (or end of stream) resolves every buffered frame to `Absent`
//!   and closes the open span, if any.
//!
//! A frame is released (appears in the pending queue) only once its final
//! classification can no longer change; every received frame is released
//! exactly once, in frame order.

use vstd::prelude::*;

use crate::components::{AccumDetection, Detection};
use crate::time::FramePosition;

verus! {

/// How many frames a `Possible` frame may stay undecided: once a frame
/// lies this many frames behind the newest one, it resolves to `Absent`.
pub const EXPIRE_FRAMES: usize = 60;

/// A buffered, still undecided `Possible` frame, reclassified as `Found`.
pub open spec fn flush_found<P>(e: (FramePosition, Option<P>)) -> (usize, AccumDetection<P>) {
    (e.0.index_spec() as usize, AccumDetection::Found(e.1))
}

/// A buffered, still undecided `Possible` frame, resolved to `Absent`.
pub open spec fn flush_absent<P>(e: (FramePosition, Option<P>)) -> (usize, AccumDetection<P>) {
    (e.0.index_spec() as usize, AccumDetection::Absent)
}

/// How many buffered frames a new frame at index `now` expires. The buffer
/// is ordered by index, so the expired frames are exactly a prefix.
pub open spec fn num_expired<P>(s: Seq<(FramePosition, Option<P>)>, now: nat) -> int
    decreases s.len(),
{
    if s.len() == 0 {
        0
    } else if s[0].0.index_spec() + EXPIRE_FRAMES <= now {
        1 + num_expired(s.drop_first(), now)
    } else {
        0
    }
}

/// The hysteresis state machine for one component.
pub struct DetAccumulator<P> {
    pending: Vec<(usize, AccumDetection<P>)>,
    found_start: Option<FramePosition>,
    last_found: Option<usize>,
    possibles: Vec<(FramePosition, Option<P>)>,
    last_pos: Ghost<int>,
}

impl<P> DetAccumulator<P> {
    /// Resolved frames not yet handed downstream, in frame order.
    pub closed spec fn pending_seq(self) -> Seq<(usize, AccumDetection<P>)> {
        self.pending@
    }

    /// Buffered, still undecided `Possible` frames, in frame order.
    pub closed spec fn possibles_seq(self) -> Seq<(FramePosition, Option<P>)> {
        self.possibles@
    }

    /// Where the open span started, if one is open.
    pub closed spec fn found_start_spec(self) -> Option<FramePosition> {
        self.found_start
    }

    /// The index of the last frame whose raw detection was (or counted as)
    /// `Found`, if any.
    pub closed spec fn last_found_spec(self) -> Option<usize> {
        self.last_found
    }

    /// The index of the last frame received, or -1 before the first.
    pub closed spec fn last_index(self) -> int {
        self.last_pos@
    }

    /// Does the continuity rule promote a `Possible` frame at `idx` to
    /// `Found`? Yes exactly when the previous frame counted as `Found`.
    pub open spec fn promotes(self, idx: nat) -> bool {
        match self.last_found_spec() {
            Some(l) => idx > 0 && l == idx - 1,
            None => false,
        }
    }

    pub open spec fn wf(self) -> bool {
        &&& forall|i: int, j: int|
            0 <= i < j < self.pending_seq().len() ==> (#[trigger] self.pending_seq()[i]).0 < (
            #[trigger] self.pending_seq()[j]).0
        &&& forall|i: int, j: int|
            0 <= i < j < self.possibles_seq().len() ==> (#[trigger] self.possibles_seq()[i]).0.index_spec() < (#[trigger] self.possibles_seq()[j]).0.index_spec()
        &&& forall|i: int|
            0 <= i < self.pending_seq().len() ==> (#[trigger] self.pending_seq()[i]).0
                <= self.last_index()
        &&& forall|i: int|
            0 <= i < self.possibles_seq().len() ==> (#[trigger] self.possibles_seq()[i]).0.index_spec() <= self.last_index()
        &&& forall|i: int, j: int|
            0 <= i < self.pending_seq().len() && 0 <= j < self.possibles_seq().len() ==> (
            #[trigger] self.pending_seq()[i]).0 < (#[trigger] self.possibles_seq()[j]).0.index_spec()
        &&& forall|i: int|
            0 <= i < self.possibles_seq().len() ==> (#[trigger] self.possibles_seq()[i]).0.index_spec() + EXPIRE_FRAMES > self.last_index()
        &&& (self.found_start_spec() is Some ==> self.possibles_seq().len() == 0)
        &&& (match (self.found_start_spec(), self.last_found_spec()) {
            (Some(_), Some(l)) => l == self.last_index(),
            (Some(_), None) => false,
            _ => true,
        })
        &&& (match self.last_found_spec() {
            Some(l) => l <= self.last_index(),
            None => true,
        })
        &&& self.last_index() >= -1
    }

    pub fn new() -> (r: DetAccumulator<P>)
        ensures
            r.wf(),
            r.pending_seq() =~= Seq::<(usize, AccumDetection<P>)>::empty(),
            r.possibles_seq() =~= Seq::<(FramePosition, Option<P>)>::empty(),
            r.found_start_spec() is None,
            r.last_found_spec() is None,
            r.last_index() == -1,
    {
        DetAccumulator {
            pending: Vec::new(),
            found_start: None,
            last_found: None,
            possibles: Vec::new(),
            last_pos: Ghost(-1),
        }
    }

    /// Where the open span started, if one is open.
    pub fn span_start(&self) -> (r: Option<FramePosition>)
        ensures
            r == self.found_start_spec(),
    {
        self.found_start
    }

    /// How many `Possible` frames are buffered, still undecided.
    pub fn buffered(&self) -> (r: usize)
        ensures
            r == self.possibles_seq().len(),
    {
        self.possibles.len()
    }

    /// Is the resolved classification of the frame at `pos` ready to be
    /// handed downstream (as the next release in frame order)?
    pub fn handled(&self, pos: &FramePosition) -> (r: bool)
        ensures
            r == (self.pending_seq().len() > 0 && self.pending_seq()[0].0 == pos.index_spec()),
    {
        if self.pending.len() > 0 {
            self.pending[0].0 == pos.index()
        } else {
            false
        }
    }

    /// Hands the oldest resolved frame downstream.
    pub fn pop_packet(&mut self) -> (r: Option<(usize, AccumDetection<P>)>)
        requires
            old(self).wf(),
        ensures
            final(self).wf(),
            if old(self).pending_seq().len() > 0 {
                r matches Some(p) && p == old(self).pending_seq()[0] && final(self).pending_seq()
                    =~= old(self).pending_seq().drop_first()
            } else {
                r is None && final(self).pending_seq() =~= old(self).pending_seq()
            },
            final(self).possibles_seq() == old(self).possibles_seq(),
            final(self).found_start_spec() == old(self).found_start_spec(),
            final(self).last_found_spec() == old(self).last_found_spec(),
            final(self).last_index() == old(self).last_index(),
    {
        if self.pending.len() > 0 {
            let p = self.pending.remove(0);
            proof {
                assert forall|i: int, j: int|
                    0 <= i < j < self.pending@.len() implies (#[trigger] self.pending@[i]).0 < (
                #[trigger] self.pending@[j]).0 by {
                    assert(self.pending@[i] == old(self).pending@[i + 1]);
                    assert(self.pending@[j] == old(self).pending@[j + 1]);
                }
                assert forall|i: int|
                    0 <= i < self.pending@.len() implies (#[trigger] self.pending@[i]).0
                    <= self.last_index() by {
                    assert(self.pending@[i] == old(self).pending@[i + 1]);
                }
                assert forall|i: int, j: int|
                    0 <= i < self.pending@.len() && 0 <= j < self.possibles@.len() implies (
                #[trigger] self.pending@[i]).0 < (#[trigger] self.possibles@[j]).0.index_spec() by {
                    assert(self.pending@[i] == old(self).pending@[i + 1]);
                    assert((old(self).pending_seq()[i + 1]).0 < (old(self).possibles_seq()[j]).0.index_spec());
                }
                assert(self.possibles@ == old(self).possibles@);
                assert forall|i: int, j: int|
                    0 <= i < j < self.possibles@.len() implies (#[trigger] self.possibles@[i]).0.index_spec() < (#[trigger] self.possibles@[j]).0.index_spec() by {
                    assert((old(self).possibles_seq()[i]).0.index_spec() < (old(self).possibles_seq()[j]).0.index_spec());
                }
                assert forall|i: int|
                    0 <= i < self.possibles@.len() implies (#[trigger] self.possibles@[i]).0.index_spec() <= self.last_index() by {
                    assert((old(self).possibles_seq()[i]).0.index_spec() <= old(self).last_index());
                }
                assert forall|i: int|
                    0 <= i < self.possibles@.len() implies (#[trigger] self.possibles@[i]).0.index_spec() + EXPIRE_FRAMES > self.last_index() by {
                    assert((old(self).possibles_seq()[i]).0.index_spec() + EXPIRE_FRAMES > old(self).last_index());
                }
            }
            Some(p)
        } else {
            None
        }
    }

    /// Receives the raw detection of the frame at `pos` (frames arrive in
    /// strictly ascending index order). Returns the span that this frame
    /// closed, if it closed one: its start and its end (exclusive, at
    /// `pos`).
    pub fn receive_frame(&mut self, pos: FramePosition, det: Detection<P>) -> (r: Option<
        (FramePosition, FramePosition),
    >)
        requires
            old(self).wf(),
            old(self).last_index() == -1 || pos.index_spec() == old(self).last_index() + 1,
            pos.index_spec() > old(self).last_index(),
            pos.wf(),
        ensures
            final(self).wf(),
            final(self).last_index() == pos.index_spec(),
            match det {
                Detection::Found(payload) => final(self).after_found(*old(self), pos, payload) && r
                    is None,
                Detection::Possible(payload) => if old(self).promotes(pos.index_spec()) {
                    final(self).after_found(*old(self), pos, payload) && r is None
                } else {
                    final(self).after_possible(*old(self), pos, payload) && r is None
                },
                Detection::Absent => final(self).after_absent(*old(self), pos) && r == (match old(
                    self,
                ).found_start_spec() {
                    Some(start) => Some((start, pos)),
                    None => None::<(FramePosition, FramePosition)>,
                }),
            },
    {
        let promoted = match self.last_found {
            Some(l) => pos.index() > 0 && l == pos.index() - 1,
            None => false,
        };
        match det {
            Detection::Found(payload) => {
                self.handle_found(pos, payload);
                None
            },
            Detection::Possible(payload) => {
                if promoted {
                    self.handle_found(pos, payload);
                } else {
                    self.handle_possible(pos, payload);
                }
                None
            },
            Detection::Absent => self.handle_absent(pos),
        }
    }

    /// Receives the end-of-stream sentinel: every buffered frame resolves to
    /// `Absent` and the open span, if any, closes at `pos`.
    pub fn receive_end_of_frames(&mut self, pos: FramePosition) -> (r: Option<
        (FramePosition, FramePosition),
    >)
        requires
            old(self).wf(),
            pos.index_spec() > old(self).last_index(),
            pos.wf(),
        ensures
            final(self).wf(),
            final(self).last_index() == pos.index_spec(),
            final(self).after_absent(*old(self), pos),
            r == (match old(self).found_start_spec() {
                Some(start) => Some((start, pos)),
                None => None::<(FramePosition, FramePosition)>,
            }),
    {
        self.handle_absent(pos)
    }

    /// The state after a frame at `pos` counted as `Found`: the buffered
    /// frames are reclassified as `Found` and released, the frame itself is
    /// released as `Found`, and a span is open — since the earliest buffered
    /// frame if there was one, else since an already open start, else since
    /// `pos` itself.
    pub open spec fn after_found(
        self,
        prev: DetAccumulator<P>,
        pos: FramePosition,
        payload: Option<P>,
    ) -> bool {
        &&& self.pending_seq() =~= prev.pending_seq() + prev.possibles_seq().map_values(
            |e: (FramePosition, Option<P>)| flush_found(e),
        ) + seq![((pos.index_spec() as usize), AccumDetection::Found(payload))]
        &&& self.possibles_seq().len() == 0
        &&& self.last_found_spec() == Some(pos.index_spec() as usize)
        &&& self.found_start_spec() == (match prev.found_start_spec() {
            Some(start) => Some(start),
            None => if prev.possibles_seq().len() > 0 {
                Some(prev.possibles_seq()[0].0)
            } else {
                Some(pos)
            },
        })
    }

    /// The state after a `Possible` frame at `pos` that the continuity rule
    /// did not promote: the frame joins the buffer, and everything that
    /// `pos` pushes out of the expiry window is released as `Absent`.
    pub open spec fn after_possible(
        self,
        prev: DetAccumulator<P>,
        pos: FramePosition,
        payload: Option<P>,
    ) -> bool {
        let joined = prev.possibles_seq() + seq![(pos, payload)];
        let k = num_expired(joined, pos.index_spec());
        &&& self.pending_seq() =~= prev.pending_seq() + joined.take(k).map_values(
            |e: (FramePosition, Option<P>)| flush_absent(e),
        )
        &&& self.possibles_seq() =~= joined.skip(k)
        &&& self.last_found_spec() == prev.last_found_spec()
        &&& self.found_start_spec() == prev.found_start_spec()
    }

    /// The state after a frame at `pos` counted as `Absent` (or the stream
    /// ended there): every buffered frame and the frame itself are released
    /// as `Absent`, and no span is open any more.
    pub open spec fn after_absent(self, prev: DetAccumulator<P>, pos: FramePosition) -> bool {
        &&& self.pending_seq() =~= prev.pending_seq() + prev.possibles_seq().map_values(
            |e: (FramePosition, Option<P>)| flush_absent(e),
        ) + seq![((pos.index_spec() as usize), AccumDetection::Absent)]
        &&& self.possibles_seq().len() == 0
        &&& self.last_found_spec() == prev.last_found_spec()
        &&& self.found_start_spec() is None
    }

    fn handle_found(&mut self, pos: FramePosition, payload: Option<P>)
        requires
            old(self).wf(),
            pos.index_spec() > old(self).last_index(),
            pos.wf(),
        ensures
            final(self).wf(),
            final(self).last_index() == pos.index_spec(),
            final(self).after_found(*old(self), pos, payload),
    {
        self.last_found = Some(pos.index());
        if self.found_start.is_none() {
            if self.possibles.len() > 0 {
                self.found_start = Some(self.possibles[0].0);
            } else {
                self.found_start = Some(pos);
            }
        }
        let ghost poss0 = self.possibles@;
        let ghost pend0 = self.pending@;
        let ghost k: int = 0;
        while self.possibles.len() > 0
            invariant
                poss0 == old(self).possibles@,
                0 <= k <= poss0.len(),
                self.possibles@ =~= poss0.skip(k),
                self.pending@ =~= pend0 + poss0.take(k).map_values(
                    |e: (FramePosition, Option<P>)| flush_found(e),
                ),
                self.found_start == (match old(self).found_start {
                    Some(start) => Some(start),
                    None => if poss0.len() > 0 {
                        Some(poss0[0].0)
                    } else {
                        Some(pos)
                    },
                }),
                self.last_found == Some(pos.index_spec() as usize),
                self.last_pos == old(self).last_pos,
            decreases self.possibles@.len(),
        {
            proof {
                assert(poss0.skip(k)[0] == poss0[k]);
            }
            let e = self.possibles.remove(0);
            self.pending.push((e.0.index(), AccumDetection::Found(e.1)));
            proof {
                assert(poss0.skip(k).remove(0) =~= poss0.skip(k + 1));
                assert(poss0.take(k + 1).drop_last() =~= poss0.take(k));
                assert(poss0.take(k + 1).map_values(
                    |x: (FramePosition, Option<P>)| flush_found(x),
                ).drop_last() =~= poss0.take(k).map_values(
                    |x: (FramePosition, Option<P>)| flush_found(x),
                ));
                assert(poss0.take(k + 1).map_values(
                    |x: (FramePosition, Option<P>)| flush_found(x),
                ).last() == flush_found(poss0[k]));
                k = k + 1;
            }
        }
        proof {
            assert(k == poss0.len());
            assert(poss0.take(poss0.len() as int) =~= poss0);
        }
        self.pending.push((pos.index(), AccumDetection::Found(payload)));
        proof {
            self.last_pos@ = pos.index_spec() as int;
            let fl = poss0.map_values(|x: (FramePosition, Option<P>)| flush_found(x));
            assert(self.pending@ =~= pend0 + fl + seq![
                ((pos.index_spec() as usize), AccumDetection::Found(payload)),
            ]);
            let n0 = pend0.len() as int;
            let n1 = n0 + fl.len() as int;
            assert forall|i: int| 0 <= i < self.pending@.len() implies (#[trigger] self.pending@[i]).0 <= self.last_index() by {
                if i < n0 {
                    assert(self.pending@[i] == pend0[i]);
                    assert((old(self).pending_seq()[i]).0 <= old(self).last_index());
                } else if i < n1 {
                    assert(self.pending@[i] == fl[i - n0]);
                    assert(fl[i - n0] == flush_found(poss0[i - n0]));
                    assert((old(self).possibles_seq()[i - n0]).0.index_spec() <= old(
                        self,
                    ).last_index());
                }
            }
            assert forall|i: int, j: int|
                0 <= i < j < self.pending@.len() implies (#[trigger] self.pending@[i]).0 < (
            #[trigger] self.pending@[j]).0 by {
                if i < n0 {
                    assert(self.pending@[i] == pend0[i]);
                    assert((old(self).pending_seq()[i]).0 <= old(self).last_index());
                } else if i < n1 {
                    assert(self.pending@[i] == fl[i - n0]);
                    assert(fl[i - n0] == flush_found(poss0[i - n0]));
                    assert((old(self).possibles_seq()[i - n0]).0.index_spec() <= old(
                        self,
                    ).last_index());
                }
                if j < n0 {
                    assert(self.pending@[j] == pend0[j]);
                    assert((old(self).pending_seq()[i]).0 < (old(self).pending_seq()[j]).0);
                } else if j < n1 {
                    assert(self.pending@[j] == fl[j - n0]);
                    assert(fl[j - n0] == flush_found(poss0[j - n0]));
                    if i < n0 {
                        assert((old(self).pending_seq()[i]).0 < (old(self).possibles_seq()[j - n0]).0.index_spec());
                    } else {
                        assert((old(self).possibles_seq()[i - n0]).0.index_spec() < (old(
                            self,
                        ).possibles_seq()[j - n0]).0.index_spec());
                    }
                }
            }
        }
    }

    fn handle_possible(&mut self, pos: FramePosition, payload: Option<P>)
        requires
            old(self).wf(),
            pos.index_spec() > old(self).last_index(),
            old(self).last_index() == -1 || pos.index_spec() == old(self).last_index() + 1,
            !old(self).promotes(pos.index_spec()),
            pos.wf(),
        ensures
            final(self).wf(),
            final(self).last_index() == pos.index_spec(),
            final(self).after_possible(*old(self), pos, payload),
    {
        proof {
            assert(old(self).found_start_spec() is None);
        }
        self.possibles.push((pos, payload));
        let ghost joined = self.possibles@;
        let ghost pend0 = self.pending@;
        let ghost k: int = 0;
        let ghost now = pos.index_spec();
        proof {
            assert(joined =~= old(self).possibles@ + seq![(pos, payload)]);
            assert(joined.skip(0) =~= joined);
            assert forall|i: int, j: int|
                0 <= i < j < joined.len() implies (#[trigger] joined[i]).0.index_spec() < (
            #[trigger] joined[j]).0.index_spec() by {
                assert(joined[i] == old(self).possibles_seq()[i]);
                if j == joined.len() - 1 {
                    assert((old(self).possibles_seq()[i]).0.index_spec() <= old(
                        self,
                    ).last_index());
                } else {
                    assert((old(self).possibles_seq()[i]).0.index_spec() < (old(
                        self,
                    ).possibles_seq()[j]).0.index_spec());
                }
            }
            assert forall|i: int|
                0 <= i < joined.len() implies (#[trigger] joined[i]).0.index_spec() <= now by {
                if i < joined.len() - 1 {
                    assert(joined[i] == old(self).possibles_seq()[i]);
                    assert((old(self).possibles_seq()[i]).0.index_spec() <= old(
                        self,
                    ).last_index());
                }
            }
        }
        while self.possibles.len() > 0 && pos.index() - self.possibles[0].0.index()
            >= EXPIRE_FRAMES
            invariant
                0 <= k <= joined.len(),
                now == pos.index_spec(),
                self.possibles@ =~= joined.skip(k),
                self.pending@ =~= pend0 + joined.take(k).map_values(
                    |e: (FramePosition, Option<P>)| flush_absent(e),
                ),
                num_expired(joined, now) == k + num_expired(joined.skip(k), now),
                forall|i: int, j: int|
                    0 <= i < j < joined.len() ==> (#[trigger] joined[i]).0.index_spec() < (
                    #[trigger] joined[j]).0.index_spec(),
                forall|i: int| 0 <= i < joined.len() ==> (#[trigger] joined[i]).0.index_spec() <= now,
                self.found_start == old(self).found_start,
                self.last_found == old(self).last_found,
                self.last_pos == old(self).last_pos,
            decreases self.possibles@.len(),
        {
            proof {
                assert(joined.skip(k)[0] == joined[k]);
                assert(joined[k].0.index_spec() + EXPIRE_FRAMES <= now);
                assert(num_expired(joined.skip(k), now) == 1 + num_expired(
                    joined.skip(k).drop_first(),
                    now,
                ));
                assert(joined.skip(k).drop_first() =~= joined.skip(k + 1));
            }
            let e = self.possibles.remove(0);
            self.pending.push((e.0.index(), AccumDetection::Absent));
            proof {
                assert(joined.skip(k).remove(0) =~= joined.skip(k + 1));
                assert(joined.take(k + 1).drop_last() =~= joined.take(k));
                assert(joined.take(k + 1).map_values(
                    |x: (FramePosition, Option<P>)| flush_absent(x),
                ).drop_last() =~= joined.take(k).map_values(
                    |x: (FramePosition, Option<P>)| flush_absent(x),
                ));
                assert(joined.take(k + 1).map_values(
                    |x: (FramePosition, Option<P>)| flush_absent(x),
                ).last() == flush_absent(joined[k]));
                k = k + 1;
            }
        }
        proof {
            if k < joined.len() {
                assert(joined.skip(k)[0] == joined[k]);
                assert(joined[k].0.index_spec() + EXPIRE_FRAMES > now);
                assert(num_expired(joined.skip(k), now) == 0);
            }
            assert(num_expired(joined, now) == k);
            self.last_pos@ = now as int;
            let fl = joined.take(k).map_values(|x: (FramePosition, Option<P>)| flush_absent(x));
            let n0 = pend0.len() as int;
            assert forall|i: int, j: int|
                0 <= i < j < self.pending@.len() implies (#[trigger] self.pending@[i]).0 < (
            #[trigger] self.pending@[j]).0 by {
                if i < n0 {
                    assert(self.pending@[i] == pend0[i]);
                    assert((old(self).pending_seq()[i]).0 <= old(self).last_index());
                } else {
                    assert(self.pending@[i] == fl[i - n0]);
                    assert(fl[i - n0] == flush_absent(joined[i - n0]));
                }
                if j >= n0 {
                    assert(self.pending@[j] == fl[j - n0]);
                    assert(fl[j - n0] == flush_absent(joined[j - n0]));
                    if i < n0 {
                        if j - n0 < joined.len() - 1 {
                            assert(joined[j - n0] == old(self).possibles_seq()[j - n0]);
                            assert((old(self).pending_seq()[i]).0 < (old(self).possibles_seq()[j
                                - n0]).0.index_spec());
                        } else {
                            assert(joined[j - n0] == (pos, payload));
                        }
                    } else {
                        assert((joined[i - n0]).0.index_spec() < (joined[j - n0]).0.index_spec());
                    }
                } else {
                    assert(self.pending@[j] == pend0[j]);
                    assert((old(self).pending_seq()[i]).0 < (old(self).pending_seq()[j]).0);
                }
            }
            assert forall|i: int|
                0 <= i < self.pending@.len() implies (#[trigger] self.pending@[i]).0
                <= self.last_index() by {
                if i < n0 {
                    assert(self.pending@[i] == pend0[i]);
                    assert((old(self).pending_seq()[i]).0 <= old(self).last_index());
                } else {
                    assert(self.pending@[i] == fl[i - n0]);
                    assert(fl[i - n0] == flush_absent(joined[i - n0]));
                }
            }
            assert forall|i: int, j: int|
                0 <= i < self.pending@.len() && 0 <= j < self.possibles@.len() implies (
            #[trigger] self.pending@[i]).0 < (#[trigger] self.possibles@[j]).0.index_spec() by {
                assert(self.possibles@[j] == joined[k + j]);
                if i < n0 {
                    assert(self.pending@[i] == pend0[i]);
                    assert((old(self).pending_seq()[i]).0 <= old(self).last_index());
                    if k + j < joined.len() - 1 {
                        assert(joined[k + j] == old(self).possibles_seq()[k + j]);
                        assert((old(self).pending_seq()[i]).0 < (old(self).possibles_seq()[k
                            + j]).0.index_spec());
                    } else {
                        assert(joined[k + j] == (pos, payload));
                    }
                } else {
                    assert(self.pending@[i] == fl[i - n0]);
                    assert(fl[i - n0] == flush_absent(joined[i - n0]));
                    assert(i - n0 < k);
                    assert((joined[i - n0]).0.index_spec() < (joined[k + j]).0.index_spec());
                }
            }
            assert forall|j: int|
                0 <= j < self.possibles@.len() implies (#[trigger] self.possibles@[j]).0.index_spec() + EXPIRE_FRAMES > now by {
                assert(self.possibles@[j] == joined[k + j]);
                if k < joined.len() {
                    assert(joined[k + j].0.index_spec() >= joined[k].0.index_spec());
                }
            }
        }
    }

    fn handle_absent(&mut self, pos: FramePosition) -> (r: Option<(FramePosition, FramePosition)>)
        requires
            old(self).wf(),
            pos.index_spec() > old(self).last_index(),
            pos.wf(),
        ensures
            final(self).wf(),
            final(self).last_index() == pos.index_spec(),
            final(self).after_absent(*old(self), pos),
            r == (match old(self).found_start_spec() {
                Some(start) => Some((start, pos)),
                None => None::<(FramePosition, FramePosition)>,
            }),
    {
        let ghost poss0 = self.possibles@;
        let ghost pend0 = self.pending@;
        let ghost k: int = 0;
        while self.possibles.len() > 0
            invariant
                0 <= k <= poss0.len(),
                self.possibles@ =~= poss0.skip(k),
                self.pending@ =~= pend0 + poss0.take(k).map_values(
                    |e: (FramePosition, Option<P>)| flush_absent(e),
                ),
                self.found_start == old(self).found_start,
                self.last_found == old(self).last_found,
                self.last_pos == old(self).last_pos,
            decreases self.possibles@.len(),
        {
            proof {
                assert(poss0.skip(k)[0] == poss0[k]);
            }
            let e = self.possibles.remove(0);
            self.pending.push((e.0.index(), AccumDetection::Absent));
            proof {
                assert(poss0.skip(k).remove(0) =~= poss0.skip(k + 1));
                assert(poss0.take(k + 1).drop_last() =~= poss0.take(k));
                assert(poss0.take(k + 1).map_values(
                    |x: (FramePosition, Option<P>)| flush_absent(x),
                ).drop_last() =~= poss0.take(k).map_values(
                    |x: (FramePosition, Option<P>)| flush_absent(x),
                ));
                assert(poss0.take(k + 1).map_values(
                    |x: (FramePosition, Option<P>)| flush_absent(x),
                ).last() == flush_absent(poss0[k]));
                k = k + 1;
            }
        }
        proof {
            assert(k == poss0.len());
            assert(poss0.take(poss0.len() as int) =~= poss0);
        }
        self.pending.push((pos.index(), AccumDetection::Absent));
        let start = self.found_start;
        self.found_start = None;
        proof {
            self.last_pos@ = pos.index_spec() as int;
            let fl = poss0.map_values(|x: (FramePosition, Option<P>)| flush_absent(x));
            assert(self.pending@ =~= pend0 + fl + seq![
                ((pos.index_spec() as usize), AccumDetection::Absent),
            ]);
            let n0 = pend0.len() as int;
            let n1 = n0 + fl.len() as int;
            assert forall|i: int| 0 <= i < self.pending@.len() implies (#[trigger] self.pending@[i]).0 <= self.last_index() by {
                if i < n0 {
                    assert(self.pending@[i] == pend0[i]);
                    assert((old(self).pending_seq()[i]).0 <= old(self).last_index());
                } else if i < n1 {
                    assert(self.pending@[i] == fl[i - n0]);
                    assert(fl[i - n0] == flush_absent(poss0[i - n0]));
                    assert((old(self).possibles_seq()[i - n0]).0.index_spec() <= old(
                        self,
                    ).last_index());
                }
            }
            assert forall|i: int, j: int|
                0 <= i < j < self.pending@.len() implies (#[trigger] self.pending@[i]).0 < (
            #[trigger] self.pending@[j]).0 by {
                if i < n0 {
                    assert(self.pending@[i] == pend0[i]);
                    assert((old(self).pending_seq()[i]).0 <= old(self).last_index());
                } else if i < n1 {
                    assert(self.pending@[i] == fl[i - n0]);
                    assert(fl[i - n0] == flush_absent(poss0[i - n0]));
                    assert((old(self).possibles_seq()[i - n0]).0.index_spec() <= old(
                        self,
                    ).last_index());
                }
                if j < n0 {
                    assert(self.pending@[j] == pend0[j]);
                    assert((old(self).pending_seq()[i]).0 < (old(self).pending_seq()[j]).0);
                } else if j < n1 {
                    assert(self.pending@[j] == fl[j - n0]);
                    assert(fl[j - n0] == flush_absent(poss0[j - n0]));
                    if i < n0 {
                        assert((old(self).pending_seq()[i]).0 < (old(self).possibles_seq()[j - n0]).0.index_spec());
                    } else {
                        assert((old(self).possibles_seq()[i - n0]).0.index_spec() < (old(
                            self,
                        ).possibles_seq()[j - n0]).0.index_spec());
                    }
                }
            }
        }
        match start {
            Some(start) => Some((start, pos)),
            None => None,
        }
    }
}

proof fn lemma_strictly_inc_window(s: Seq<nat>, lo: int, hi: int)
    requires
        forall|i: int, j: int| 0 <= i < j < s.len() ==> #[trigger] s[i] < #[trigger] s[j],
        forall|i: int| 0 <= i < s.len() ==> lo < #[trigger] s[i] <= hi,
        lo <= hi,
    ensures
        s.len() <= hi - lo,
    decreases s.len(),
{
    if s.len() > 0 {
        assert forall|i: int, j: int|
            0 <= i < j < s.drop_last().len() implies #[trigger] s.drop_last()[i] < #[trigger] s.drop_last()[j] by {
            assert(s[i] < s[j]);
        }
        assert forall|i: int| 0 <= i < s.drop_last().len() implies lo < #[trigger] s.drop_last()[
            i] <= hi - 1 by {
            assert(s[i] < s[s.len() - 1]);
            assert(s[s.len() - 1] <= hi);
        }
        assert(lo < s[s.len() - 1]);
        lemma_strictly_inc_window(s.drop_last(), lo, hi - 1);
    }
}

/// The undecided buffer is bounded: at most [`EXPIRE_FRAMES`] `Possible`
/// frames are ever held, because anything older has been resolved to
/// `Absent`.
pub proof fn lemma_possible_buffer_bounded<P>(a: &DetAccumulator<P>)
    requires
        a.wf(),
    ensures
        a.possibles_seq().len() <= EXPIRE_FRAMES,
{
    let idxs = a.possibles_seq().map_values(|e: (FramePosition, Option<P>)| e.0.index_spec());
    assert forall|i: int, j: int| 0 <= i < j < idxs.len() implies #[trigger] idxs[i]
        < #[trigger] idxs[j] by {
        assert(idxs[i] == a.possibles_seq()[i].0.index_spec());
        assert(idxs[j] == a.possibles_seq()[j].0.index_spec());
        assert((a.possibles_seq()[i]).0.index_spec() < (a.possibles_seq()[j]).0.index_spec());
    }
    assert forall|i: int| 0 <= i < idxs.len() implies a.last_index() - EXPIRE_FRAMES
        < #[trigger] idxs[i] <= a.last_index() by {
        assert(idxs[i] == a.possibles_seq()[i].0.index_spec());
        assert((a.possibles_seq()[i]).0.index_spec() + EXPIRE_FRAMES > a.last_index());
        assert((a.possibles_seq()[i]).0.index_spec() <= a.last_index());
    }
    if a.possibles_seq().len() > 0 {
        lemma_strictly_inc_window(
            idxs,
            a.last_index() - EXPIRE_FRAMES as int,
            a.last_index(),
        );
    }
}

} // verus!
