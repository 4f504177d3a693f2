//! The two sequential accumulation stages of the pipeline.
//!
//! The detection stage drives one hysteresis accumulator per component in
//! lock-step against one shared pending-frame queue: a frame is released
//! downstream only once every component has resolved it, re-numbered with a
//! fresh dense sequence number. The text stage drives one text accumulator
//! per component, commits spans as they close, and advances a probe
//! position to emit one report row per probe interval whose decided state
//! changed.

use vstd::prelude::*;

use crate::components::{AccumDetection, Detection};
use crate::det_accum::{flush_absent, flush_found, num_expired, DetAccumulator, EXPIRE_FRAMES};
use crate::text_accum::{
    probe_available, probe_boundary, probe_synced, probe_text, AccumResult, ExtractedTexts,
    TextAccumulator,
};
use crate::time::{sum_in_range, Duration, FramePosition};

verus! {

/// A packet entering the detection stage: one frame with the raw detection
/// of every component, or the end-of-stream sentinel.
pub enum DetPacket<P, F> {
    Frame { pos: FramePosition, frame: F, results: Vec<Detection<P>> },
    EndOfFrames { pos: FramePosition },
}

/// A packet leaving the detection stage: one frame with every component's
/// resolved detection, or the end-of-stream sentinel.
pub enum ResolvedPacket<P, F> {
    Frame { pos: FramePosition, frame: F, results: Vec<AccumDetection<P>> },
    EndOfFrames { pos: FramePosition },
}

impl<P, F> ResolvedPacket<P, F> {
    pub fn position(&self) -> (r: FramePosition)
        ensures
            r == (match self {
                ResolvedPacket::Frame { pos, .. } => *pos,
                ResolvedPacket::EndOfFrames { pos } => *pos,
            }),
    {
        match self {
            ResolvedPacket::Frame { pos, .. } => *pos,
            ResolvedPacket::EndOfFrames { pos } => *pos,
        }
    }
}

/// What the accumulator of one component releases on receiving one frame:
/// the exact entries its transition appends to its pending queue.
pub open spec fn released_entries<P>(
    prev: DetAccumulator<P>,
    pos: FramePosition,
    det: Detection<P>,
) -> Seq<(usize, AccumDetection<P>)> {
    match det {
        Detection::Found(payload) => prev.possibles_seq().map_values(
            |e: (FramePosition, Option<P>)| flush_found(e),
        ) + seq![((pos.index_spec() as usize), AccumDetection::Found(payload))],
        Detection::Possible(payload) => if prev.promotes(pos.index_spec()) {
            prev.possibles_seq().map_values(|e: (FramePosition, Option<P>)| flush_found(e))
                + seq![((pos.index_spec() as usize), AccumDetection::Found(payload))]
        } else {
            let joined = prev.possibles_seq() + seq![(pos, payload)];
            joined.take(num_expired(joined, pos.index_spec())).map_values(
                |e: (FramePosition, Option<P>)| flush_absent(e),
            )
        },
        Detection::Absent => prev.possibles_seq().map_values(
            |e: (FramePosition, Option<P>)| flush_absent(e),
        ) + seq![((pos.index_spec() as usize), AccumDetection::Absent)],
    }
}

/// The per-component column of a stage output: the resolved detection each
/// released frame carries for component `c`, keyed by frame index.
pub open spec fn column<P, F>(out: Seq<(u64, ResolvedPacket<P, F>)>, c: int) -> Seq<
    (usize, AccumDetection<P>),
>
    decreases out.len(),
{
    if out.len() == 0 {
        Seq::empty()
    } else {
        column(out.drop_last(), c) + (match out.last().1 {
            ResolvedPacket::Frame { pos, results, .. } => seq![
                ((pos.index_spec() as usize), results[c]),
            ],
            ResolvedPacket::EndOfFrames { pos } => seq![((pos.index_spec() as usize), AccumDetection::Absent)],
        })
    }
}



proof fn lemma_num_expired_bounds<P>(s: Seq<(FramePosition, Option<P>)>, now: nat)
    ensures
        0 <= num_expired(s, now) <= s.len(),
    decreases s.len(),
{
    if s.len() > 0 && s[0].0.index_spec() + EXPIRE_FRAMES <= now {
        lemma_num_expired_bounds(s.drop_first(), now);
    }
}

proof fn lemma_column_len<P, F>(out: Seq<(u64, ResolvedPacket<P, F>)>, c: int)
    ensures
        column(out, c).len() == out.len(),
    decreases out.len(),
{
    if out.len() > 0 {
        lemma_column_len(out.drop_last(), c);
    }
}

/// The transition one accumulator makes on one frame's raw detection.
pub open spec fn det_transition<P>(
    prev: DetAccumulator<P>,
    pos: FramePosition,
    det: Detection<P>,
    cur: DetAccumulator<P>,
) -> bool {
    match det {
        Detection::Found(payload) => cur.after_found(prev, pos, payload),
        Detection::Possible(payload) => if prev.promotes(pos.index_spec()) {
            cur.after_found(prev, pos, payload)
        } else {
            cur.after_possible(prev, pos, payload)
        },
        Detection::Absent => cur.after_absent(prev, pos),
    }
}


/// The sequential detection-accumulation stage: one hysteresis accumulator
/// per component, driven in lock-step, and the shared queue of frames not
/// yet resolved by every component.
pub struct DetectionStage<P, F> {
    accums: Vec<DetAccumulator<P>>,
    pending: Vec<(FramePosition, Option<F>)>,
    emitted: u64,
    last_pos: Ghost<int>,
}

impl<P, F> DetectionStage<P, F> {
    pub closed spec fn accums_seq(self) -> Seq<DetAccumulator<P>> {
        self.accums@
    }

    /// Frames received but not yet released: every component must resolve a
    /// frame before it leaves this queue. The end-of-stream sentinel carries
    /// no frame.
    pub closed spec fn pending_seq(self) -> Seq<(FramePosition, Option<F>)> {
        self.pending@
    }

    /// The next output sequence number: how many packets this stage has
    /// released.
    pub closed spec fn emitted_spec(self) -> u64 {
        self.emitted
    }

    /// The index of the last frame received, or -1 before the first.
    pub closed spec fn last_index(self) -> int {
        self.last_pos@
    }

    pub open spec fn components(self) -> int {
        self.accums_seq().len() as int
    }

    /// The lock-step invariant: every received frame sits in exactly one
    /// place per component — resolved (a prefix of the shared queue, in
    /// order) or still buffered as `Possible` (the rest of the queue).
    pub closed spec fn aligned(self) -> bool {
        &&& self.accums_seq().len() > 0
        &&& forall|c: int| 0 <= c < self.components() ==> (#[trigger] self.accums_seq()[c]).wf()
        &&& forall|c: int|
            0 <= c < self.components() ==> (#[trigger] self.accums_seq()[c]).last_index()
                == self.last_index()
        &&& forall|c: int|
            0 <= c < self.components() ==> (#[trigger] self.accums_seq()[c]).pending_seq().len() + (
            #[trigger] self.accums_seq()[c]).possibles_seq().len() == self.pending_seq().len()
        &&& forall|c: int, i: int|
            0 <= c < self.components() && 0 <= i < self.accums_seq()[c].pending_seq().len() ==> ((
            #[trigger] self.accums_seq()[c]).pending_seq()[i]).0 == (#[trigger] self.pending_seq()[i]).0.index_spec()
        &&& forall|c: int, j: int|
            0 <= c < self.components() && 0 <= j < self.accums_seq()[c].possibles_seq().len()
                ==> ((#[trigger] self.accums_seq()[c]).possibles_seq()[j]).0 == (
            #[trigger] self.pending_seq()[self.accums_seq()[c].pending_seq().len() + j]).0
        &&& forall|i: int, j: int|
            0 <= i < j < self.pending_seq().len() ==> (#[trigger] self.pending_seq()[i]).0.index_spec() < (#[trigger] self.pending_seq()[j]).0.index_spec()
        &&& forall|i: int|
            0 <= i < self.pending_seq().len() ==> (#[trigger] self.pending_seq()[i]).0.index_spec()
                <= self.last_index()
        &&& self.last_index() >= -1
    }

    pub closed spec fn wf(self) -> bool {
        &&& self.aligned()
        &&& forall|i: int|
            0 <= i < self.pending_seq().len() ==> (#[trigger] self.pending_seq()[i]).1 is Some
    }

    pub fn new(components: usize) -> (r: DetectionStage<P, F>)
        requires
            components > 0,
        ensures
            r.wf(),
            r.components() == components,
            r.pending_seq() =~= Seq::<(FramePosition, Option<F>)>::empty(),
            r.emitted_spec() == 0,
            r.last_index() == -1,
    {
        let mut accums: Vec<DetAccumulator<P>> = Vec::new();
        let mut c: usize = 0;
        while c < components
            invariant
                0 <= c <= components,
                accums@.len() == c,
                forall|k: int| 0 <= k < c ==> (#[trigger] accums@[k]).wf(),
                forall|k: int|
                    0 <= k < c ==> (#[trigger] accums@[k]).pending_seq().len() == 0 && accums@[k].possibles_seq().len() == 0 && accums@[k].last_index() == -1,
            decreases components - c,
        {
            accums.push(DetAccumulator::new());
            c = c + 1;
        }
        DetectionStage { accums, pending: Vec::new(), emitted: 0, last_pos: Ghost(-1) }
    }

    /// Feeds one raw detection per component; `self.pending` already ends
    /// with the frame being fed.
    fn feed_frame(&mut self, pos: FramePosition, results: Vec<Detection<P>>)
        requires
            old(self).accums_seq().len() > 0,
            forall|c: int|
                0 <= c < old(self).components() ==> (#[trigger] old(self).accums_seq()[c]).wf(),
            forall|c: int|
                0 <= c < old(self).components() ==> (#[trigger] old(self).accums_seq()[c]).last_index() == old(self).last_index(),
            pos.index_spec() > old(self).last_index(),
            old(self).last_index() == -1 || pos.index_spec() == old(self).last_index() + 1,
            pos.wf(),
            results@.len() == old(self).components(),
        ensures
            final(self).accums_seq().len() == old(self).accums_seq().len(),
            final(self).pending_seq() == old(self).pending_seq(),
            final(self).emitted_spec() == old(self).emitted_spec(),
            final(self).last_index() == pos.index_spec(),
            forall|c: int|
                0 <= c < old(self).components() ==> (#[trigger] final(self).accums_seq()[c]).wf(),
            forall|c: int|
                0 <= c < old(self).components() ==> (#[trigger] final(self).accums_seq()[c]).last_index() == pos.index_spec(),
            forall|c: int|
                0 <= c < old(self).components() ==> det_transition(
                    old(self).accums_seq()[c],
                    pos,
                    results@[c],
                    #[trigger] final(self).accums_seq()[c],
                ),
    {
        let ghost results0 = results@;
        let ghost n = old(self).components();
        let mut dets = results;
        let mut c: usize = 0;
        while c < self.accums.len()
            invariant
                n == old(self).components(),
                n == results0.len(),
                self.accums@.len() == n,
                0 <= c <= n,
                dets@ =~= results0.skip(c as int),
                self.pending == old(self).pending,
                self.emitted == old(self).emitted,
                self.last_pos == old(self).last_pos,
                pos.index_spec() > old(self).last_index(),
                old(self).last_index() == -1 || pos.index_spec() == old(self).last_index() + 1,
                pos.wf(),
                forall|k: int| c <= k < n ==> #[trigger] self.accums@[k] == old(self).accums_seq()[k],
                forall|k: int|
                    c <= k < n ==> (#[trigger] self.accums@[k]).wf() && self.accums@[k].last_index()
                        == old(self).last_index(),
                forall|k: int| 0 <= k < c ==> (#[trigger] self.accums@[k]).wf(),
                forall|k: int|
                    0 <= k < c ==> (#[trigger] self.accums@[k]).last_index() == pos.index_spec(),
                forall|k: int|
                    0 <= k < c ==> det_transition(
                        old(self).accums_seq()[k],
                        pos,
                        results0[k],
                        #[trigger] self.accums@[k],
                    ),
            decreases n - c,
        {
            proof {
                assert(dets@[0] == results0[c as int]);
            }
            let det = dets.remove(0);
            let mut a = self.accums.remove(c);
            a.receive_frame(pos, det);
            self.accums.insert(c, a);
            proof {
                assert(dets@ =~= results0.skip(c + 1));
                assert(self.accums@[c as int].wf());
            }
            c = c + 1;
        }
        proof {
            self.last_pos@ = pos.index_spec() as int;
        }
    }

    /// Feeds the end-of-stream sentinel to every component; `self.pending`
    /// already ends with the sentinel.
    fn feed_end(&mut self, pos: FramePosition)
        requires
            old(self).accums_seq().len() > 0,
            forall|c: int|
                0 <= c < old(self).components() ==> (#[trigger] old(self).accums_seq()[c]).wf(),
            forall|c: int|
                0 <= c < old(self).components() ==> (#[trigger] old(self).accums_seq()[c]).last_index() == old(self).last_index(),
            pos.index_spec() > old(self).last_index(),
            pos.wf(),
        ensures
            final(self).accums_seq().len() == old(self).accums_seq().len(),
            final(self).pending_seq() == old(self).pending_seq(),
            final(self).emitted_spec() == old(self).emitted_spec(),
            final(self).last_index() == pos.index_spec(),
            forall|c: int|
                0 <= c < old(self).components() ==> (#[trigger] final(self).accums_seq()[c]).wf(),
            forall|c: int|
                0 <= c < old(self).components() ==> (#[trigger] final(self).accums_seq()[c]).last_index() == pos.index_spec(),
            forall|c: int|
                0 <= c < old(self).components() ==> (#[trigger] final(self).accums_seq()[c]).after_absent(old(self).accums_seq()[c], pos),
    {
        let ghost n = old(self).components();
        let mut c: usize = 0;
        while c < self.accums.len()
            invariant
                n == old(self).components(),
                self.accums@.len() == n,
                0 <= c <= n,
                self.pending == old(self).pending,
                self.emitted == old(self).emitted,
                self.last_pos == old(self).last_pos,
                pos.index_spec() > old(self).last_index(),
                pos.wf(),
                forall|k: int| c <= k < n ==> #[trigger] self.accums@[k] == old(self).accums_seq()[k],
                forall|k: int|
                    c <= k < n ==> (#[trigger] self.accums@[k]).wf() && self.accums@[k].last_index()
                        == old(self).last_index(),
                forall|k: int| 0 <= k < c ==> (#[trigger] self.accums@[k]).wf(),
                forall|k: int|
                    0 <= k < c ==> (#[trigger] self.accums@[k]).last_index() == pos.index_spec(),
                forall|k: int|
                    0 <= k < c ==> (#[trigger] self.accums@[k]).after_absent(
                        old(self).accums_seq()[k],
                        pos,
                    ),
            decreases n - c,
        {
            let mut a = self.accums.remove(c);
            a.receive_end_of_frames(pos);
            self.accums.insert(c, a);
            c = c + 1;
        }
        proof {
            self.last_pos@ = pos.index_spec() as int;
        }
    }
    /// Feeds one frame's raw detections to every component's accumulator,
    /// then releases every queued frame that all components have now
    /// resolved, tagged with fresh dense sequence numbers.
    pub fn process_frame(&mut self, pos: FramePosition, frame: F, results: Vec<Detection<P>>) -> (
        out: Vec<(u64, ResolvedPacket<P, F>)>)
        requires
            old(self).wf(),
            pos.index_spec() > old(self).last_index(),
            old(self).last_index() == -1 || pos.index_spec() == old(self).last_index() + 1,
            pos.wf(),
            results@.len() == old(self).components(),
            old(self).emitted_spec() + old(self).pending_seq().len() + 1 <= u64::MAX,
        ensures
            final(self).wf(),
            final(self).components() == old(self).components(),
            final(self).last_index() == pos.index_spec(),
            final(self).emitted_spec() == old(self).emitted_spec() + out@.len(),
            forall|k: int|
                0 <= k < out@.len() ==> (#[trigger] out@[k]).0 == old(self).emitted_spec() + k,
            out@.len() <= old(self).pending_seq().len() + 1,
            final(self).pending_seq() =~= (old(self).pending_seq() + seq![(pos, Some(frame))]).skip(out@.len() as int),
            forall|k: int|
                0 <= k < out@.len() ==> match (#[trigger] out@[k]).1 {
                    ResolvedPacket::Frame { pos: p, .. } => p == (old(self).pending_seq() + seq![(pos, Some(frame))])[k].0,
                    ResolvedPacket::EndOfFrames { .. } => false,
                },
            forall|c: int|
                0 <= c < old(self).components() ==> #[trigger] column(out@, c) + final(self).accums_seq()[c].pending_seq() =~= old(self).accums_seq()[c].pending_seq()
                    + released_entries(old(self).accums_seq()[c], pos, results@[c]),
            final(self).pending_seq().len() > 0 ==> exists|c: int|
                0 <= c < old(self).components() && (#[trigger] final(self).accums_seq()[c]).pending_seq().len() == 0,
    {
        let ghost results0 = results@;
        let ghost queue = old(self).pending_seq() + seq![(pos, Some(frame))];
        let ghost n = old(self).components();
        self.pending.push((pos, Some(frame)));
        proof {
            assert(self.pending@ =~= queue);
        }
        self.feed_frame(pos, results);
        proof {
            assert(queue.take(old(self).pending_seq().len() as int) =~= old(self).pending_seq());
            self.establish_alignment(queue, *old(self), pos, results0);
            assert forall|c: int|
                0 <= c < n implies (#[trigger] self.accums_seq()[c]).pending_seq()
                =~= old(self).accums_seq()[c].pending_seq() + released_entries(
                old(self).accums_seq()[c],
                pos,
                results0[c],
            ) by {}
        }
        let ghost fed = self.accums@.map_values(|a: DetAccumulator<P>| a.pending_seq());
        let out = self.drain(Ghost(queue), Ghost(fed));
        proof {
            assert forall|k: int| 0 <= k < queue.len() implies (#[trigger] queue[k]).1 is Some by {
                if k < queue.len() - 1 {
                    assert(old(self).pending_seq()[k].1 is Some);
                }
            }
            assert forall|k: int|
                0 <= k < out@.len() implies match (#[trigger] out@[k]).1 {
                ResolvedPacket::Frame { pos: p, .. } => p == queue[k].0,
                ResolvedPacket::EndOfFrames { .. } => false,
            } by {
                assert(queue[k].1 is Some);
            }
            assert forall|k: int|
                0 <= k < self.pending_seq().len() implies (#[trigger] self.pending_seq()[k]).1
                is Some by {
                assert(self.pending_seq()[k] == queue[k + out@.len()]);
            }
        }
        out
    }

    /// Receives the end-of-stream sentinel: every component resolves every
    /// still-buffered frame to `Absent`, and the whole queue is released,
    /// ending with the sentinel itself.
    pub fn process_end(&mut self, pos: FramePosition) -> (out: Vec<(u64, ResolvedPacket<P, F>)>)
        requires
            old(self).wf(),
            pos.index_spec() > old(self).last_index(),
            pos.wf(),
            old(self).emitted_spec() + old(self).pending_seq().len() + 1 <= u64::MAX,
        ensures
            final(self).wf(),
            final(self).components() == old(self).components(),
            final(self).last_index() == pos.index_spec(),
            final(self).pending_seq().len() == 0,
            out@.len() == old(self).pending_seq().len() + 1,
            final(self).emitted_spec() == old(self).emitted_spec() + out@.len(),
            forall|k: int|
                0 <= k < out@.len() ==> (#[trigger] out@[k]).0 == old(self).emitted_spec() + k,
            forall|k: int|
                0 <= k < out@.len() - 1 ==> match (#[trigger] out@[k]).1 {
                    ResolvedPacket::Frame { pos: p, .. } => p == old(self).pending_seq()[k].0,
                    ResolvedPacket::EndOfFrames { .. } => false,
                },
            out@.last().1 matches ResolvedPacket::EndOfFrames { pos: p } && p == pos,
            forall|c: int|
                0 <= c < old(self).components() ==> #[trigger] column(out@, c) =~= old(self).accums_seq()[c].pending_seq() + old(self).accums_seq()[c].possibles_seq().map_values(
                    |e: (FramePosition, Option<P>)| flush_absent(e),
                ) + seq![((pos.index_spec() as usize), AccumDetection::Absent)],
    {
        let ghost queue = old(self).pending_seq() + seq![(pos, None::<F>)];
        let ghost n = old(self).components();
        self.pending.push((pos, None));
        proof {
            assert(self.pending@ =~= queue);
        }
        self.feed_end(pos);
        proof {
            let dets = Seq::new(n as nat, |i: int| Detection::<P>::Absent);
            assert forall|c: int|
                0 <= c < n implies det_transition(
                old(self).accums_seq()[c],
                pos,
                dets[c],
                #[trigger] self.accums_seq()[c],
            ) by {
                assert(self.accums_seq()[c].after_absent(old(self).accums_seq()[c], pos));
            }
            assert(queue.take(old(self).pending_seq().len() as int) =~= old(self).pending_seq());
            self.establish_alignment(queue, *old(self), pos, dets);
            assert forall|c: int|
                0 <= c < n implies (#[trigger] self.accums_seq()[c]).pending_seq()
                =~= old(self).accums_seq()[c].pending_seq() + old(self).accums_seq()[
                c].possibles_seq().map_values(|e: (FramePosition, Option<P>)| flush_absent(e))
                + seq![((pos.index_spec() as usize), AccumDetection::Absent)] by {
                assert(self.accums_seq()[c].pending_seq() =~= old(self).accums_seq()[
                    c].pending_seq() + released_entries(old(self).accums_seq()[c], pos, dets[c]));
            }
        }
        let ghost fed = self.accums@.map_values(|a: DetAccumulator<P>| a.pending_seq());
        let out = self.drain(Ghost(queue), Ghost(fed));
        proof {
            assert forall|c: int| 0 <= c < n implies (#[trigger] self.accums_seq()[c]).pending_seq().len() == fed[c].len() - out@.len() by {
                lemma_column_len(out@, c);
                assert(column(out@, c) + self.accums_seq()[c].pending_seq() =~= fed[c]);
            }
            if self.pending@.len() > 0 {
                let c0 = choose|c0: int|
                    0 <= c0 < n && (#[trigger] self.accums_seq()[c0]).pending_seq().len() == 0;
                assert(fed[c0].len() == queue.len());
                assert(out@.len() == queue.len());
                assert(queue.skip(queue.len() as int).len() == 0);
                assert(false);
            }
            assert(out@.len() == queue.len());
            assert(out@.last() == out@[queue.len() - 1]);
            assert(queue[queue.len() - 1].1 is None);
            assert forall|k: int|
                0 <= k < out@.len() - 1 implies match (#[trigger] out@[k]).1 {
                ResolvedPacket::Frame { pos: p, .. } => p == old(self).pending_seq()[k].0,
                ResolvedPacket::EndOfFrames { .. } => false,
            } by {
                assert(queue[k].1 is Some);
                assert(queue[k] == old(self).pending_seq()[k]);
            }
            assert forall|c: int| 0 <= c < n implies #[trigger] column(out@, c) =~= old(self).accums_seq()[c].pending_seq() + old(self).accums_seq()[c].possibles_seq().map_values(
                |e: (FramePosition, Option<P>)| flush_absent(e),
            ) + seq![((pos.index_spec() as usize), AccumDetection::Absent)] by {
                assert(column(out@, c) + self.accums_seq()[c].pending_seq() =~= fed[c]);
                assert(self.accums_seq()[c].pending_seq().len() == 0);
                assert(column(out@, c) =~= fed[c]);
            }
        }
        out
    }


    /// After a push and a feed, the lock-step alignment holds again, and
    /// each accumulator's queue grew by exactly what its transition
    /// released.
    proof fn establish_alignment(
        &self,
        queue: Seq<(FramePosition, Option<F>)>,
        prev: DetectionStage<P, F>,
        pos: FramePosition,
        dets: Seq<Detection<P>>,
    )
        requires
            prev.aligned(),
            dets.len() == prev.components(),
            queue.len() == prev.pending_seq().len() + 1,
            queue.take(prev.pending_seq().len() as int) == prev.pending_seq(),
            queue.last().0 == pos,
            pos.index_spec() > prev.last_index(),
            self.pending_seq() == queue,
            self.accums_seq().len() == prev.accums_seq().len(),
            self.last_index() == pos.index_spec(),
            forall|c: int| 0 <= c < prev.components() ==> (#[trigger] self.accums_seq()[c]).wf(),
            forall|c: int|
                0 <= c < prev.components() ==> (#[trigger] self.accums_seq()[c]).last_index()
                    == pos.index_spec(),
            forall|c: int|
                0 <= c < prev.components() ==> det_transition(
                    prev.accums_seq()[c],
                    pos,
                    dets[c],
                    #[trigger] self.accums_seq()[c],
                ),
        ensures
            self.aligned(),
            forall|c: int|
                0 <= c < prev.components() ==> (#[trigger] self.accums_seq()[c]).pending_seq()
                    =~= prev.accums_seq()[c].pending_seq() + released_entries(
                    prev.accums_seq()[c],
                    pos,
                    dets[c],
                ),
    {
        let n = prev.components();
        let ql = prev.pending_seq().len() as int;
        assert forall|i: int| 0 <= i < ql implies queue[i] == prev.pending_seq()[i] by {
            assert(queue.take(ql)[i] == queue[i]);
        }
        // the queue stays strictly ordered and below the new last index
        assert forall|i: int, j: int|
            0 <= i < j < queue.len() implies (#[trigger] queue[i]).0.index_spec() < (
        #[trigger] queue[j]).0.index_spec() by {
            assert((prev.pending_seq()[i]).0.index_spec() <= prev.last_index());
            if j < ql {
                assert((prev.pending_seq()[i]).0.index_spec() < (prev.pending_seq()[
                    j]).0.index_spec());
            }
        }
        assert forall|i: int|
            0 <= i < queue.len() implies (#[trigger] queue[i]).0.index_spec()
            <= self.last_index() by {
            if i < ql {
                assert((prev.pending_seq()[i]).0.index_spec() <= prev.last_index());
            }
        }
        // per component: released entries, counts, and both alignments
        assert forall|c: int|
            0 <= c < n implies (#[trigger] self.accums_seq()[c]).pending_seq()
            =~= prev.accums_seq()[c].pending_seq() + released_entries(
            prev.accums_seq()[c],
            pos,
            dets[c],
        ) by {
            self.alignment_for(queue, prev, pos, dets, c);
        }
        assert forall|c: int|
            0 <= c < n implies (#[trigger] self.accums_seq()[c]).pending_seq().len() + (
        #[trigger] self.accums_seq()[c]).possibles_seq().len() == self.pending_seq().len() by {
            self.alignment_for(queue, prev, pos, dets, c);
        }
        assert forall|c: int, i: int|
            0 <= c < n && 0 <= i < self.accums_seq()[c].pending_seq().len() implies ((
        #[trigger] self.accums_seq()[c]).pending_seq()[i]).0 == (#[trigger] self.pending_seq()[
            i]).0.index_spec() by {
            self.alignment_for(queue, prev, pos, dets, c);
        }
        assert forall|c: int, j: int|
            0 <= c < n && 0 <= j < self.accums_seq()[c].possibles_seq().len() implies ((
        #[trigger] self.accums_seq()[c]).possibles_seq()[j]).0 == (#[trigger] self.pending_seq()[
            self.accums_seq()[c].pending_seq().len() + j]).0 by {
            self.alignment_for(queue, prev, pos, dets, c);
        }
    }

    /// The alignment facts for one component.
    proof fn alignment_for(
        &self,
        queue: Seq<(FramePosition, Option<F>)>,
        prev: DetectionStage<P, F>,
        pos: FramePosition,
        dets: Seq<Detection<P>>,
        c: int,
    )
        requires
            prev.aligned(),
            dets.len() == prev.components(),
            queue.len() == prev.pending_seq().len() + 1,
            queue.take(prev.pending_seq().len() as int) == prev.pending_seq(),
            queue.last().0 == pos,
            pos.index_spec() > prev.last_index(),
            self.pending_seq() == queue,
            self.accums_seq().len() == prev.accums_seq().len(),
            0 <= c < prev.components(),
            self.accums_seq()[c].wf(),
            det_transition(prev.accums_seq()[c], pos, dets[c], self.accums_seq()[c]),
        ensures
            self.accums_seq()[c].pending_seq() =~= prev.accums_seq()[c].pending_seq()
                + released_entries(prev.accums_seq()[c], pos, dets[c]),
            self.accums_seq()[c].pending_seq().len() + self.accums_seq()[c].possibles_seq().len()
                == queue.len(),
            forall|i: int|
                0 <= i < self.accums_seq()[c].pending_seq().len() ==> ((
                #[trigger] self.accums_seq()[c].pending_seq()[i])).0 == (queue[i]).0.index_spec(),
            forall|j: int|
                0 <= j < self.accums_seq()[c].possibles_seq().len() ==> ((
                #[trigger] self.accums_seq()[c].possibles_seq()[j])).0 == (queue[self.accums_seq()[c].pending_seq().len() + j]).0,
    {
        let ql = prev.pending_seq().len() as int;
        let pacc = prev.accums_seq()[c];
        let cur = self.accums_seq()[c];
        let pl = pacc.pending_seq().len() as int;
        let m = pacc.possibles_seq().len() as int;
        let d = dets[c];
        assert(pl + m == ql);
        assert forall|i: int| 0 <= i < ql implies queue[i] == prev.pending_seq()[i] by {
            assert(queue.take(ql)[i] == queue[i]);
        }
        assert forall|i: int| 0 <= i < pl implies ((#[trigger] pacc.pending_seq()[i])).0 == (
        queue[i]).0.index_spec() by {
            assert(((prev.accums_seq()[c]).pending_seq()[i]).0 == (prev.pending_seq()[
                i]).0.index_spec());
        }
        assert forall|j: int| 0 <= j < m implies ((#[trigger] pacc.possibles_seq()[j])).0 == (
        queue[pl + j]).0 by {
            assert(((prev.accums_seq()[c]).possibles_seq()[j]).0 == (prev.pending_seq()[pl
                + j]).0);
        }
        let rel = released_entries(pacc, pos, d);
        let fl_f = pacc.possibles_seq().map_values(|e: (FramePosition, Option<P>)| flush_found(e));
        let fl_a = pacc.possibles_seq().map_values(|e: (FramePosition, Option<P>)| flush_absent(e));
        if d is Found || (d is Possible && pacc.promotes(pos.index_spec())) {
            assert(cur.pending_seq() =~= pacc.pending_seq() + rel);
            assert(cur.possibles_seq().len() == 0);
            assert forall|i: int|
                0 <= i < cur.pending_seq().len() implies ((#[trigger] cur.pending_seq()[i])).0 == (
            queue[i]).0.index_spec() by {
                if i < pl {
                    assert(cur.pending_seq()[i] == pacc.pending_seq()[i]);
                } else if i < pl + m {
                    assert(rel[i - pl] == fl_f[i - pl]);
                    assert(fl_f[i - pl] == flush_found(pacc.possibles_seq()[i - pl]));
                } else {
                    assert(i == ql);
                    assert(rel[i - pl] == ((pos.index_spec() as usize),
                    AccumDetection::Found(d->Found_0)) || rel[i - pl] == ((
                    pos.index_spec() as usize), AccumDetection::Found(d->Possible_0)));
                }
            }
        } else if d is Possible {
            let payload = d->Possible_0;
            let joined = pacc.possibles_seq() + seq![(pos, payload)];
            let k = num_expired(joined, pos.index_spec());
            lemma_num_expired_bounds(joined, pos.index_spec());
            assert(cur.pending_seq() =~= pacc.pending_seq() + rel);
            assert(cur.possibles_seq() =~= joined.skip(k));
            assert forall|j: int| 0 <= j < joined.len() implies ((#[trigger] joined[j])).0 == (
            queue[pl + j]).0 by {
                if j < m {
                    assert(joined[j] == pacc.possibles_seq()[j]);
                } else {
                    assert(joined[j] == (pos, payload));
                    assert(queue[ql] == queue.last());
                }
            }
            assert forall|i: int|
                0 <= i < cur.pending_seq().len() implies ((#[trigger] cur.pending_seq()[i])).0 == (
            queue[i]).0.index_spec() by {
                if i < pl {
                    assert(cur.pending_seq()[i] == pacc.pending_seq()[i]);
                } else {
                    assert(rel[i - pl] == flush_absent(joined.take(k)[i - pl]));
                    assert(joined.take(k)[i - pl] == joined[i - pl]);
                }
            }
            assert forall|j: int|
                0 <= j < cur.possibles_seq().len() implies ((#[trigger] cur.possibles_seq()[
                j])).0 == (queue[cur.pending_seq().len() + j]).0 by {
                assert(cur.possibles_seq()[j] == joined[k + j]);
            }
        } else {
            assert(cur.pending_seq() =~= pacc.pending_seq() + rel);
            assert(cur.possibles_seq().len() == 0);
            assert forall|i: int|
                0 <= i < cur.pending_seq().len() implies ((#[trigger] cur.pending_seq()[i])).0 == (
            queue[i]).0.index_spec() by {
                if i < pl {
                    assert(cur.pending_seq()[i] == pacc.pending_seq()[i]);
                } else if i < pl + m {
                    assert(rel[i - pl] == fl_a[i - pl]);
                    assert(fl_a[i - pl] == flush_absent(pacc.possibles_seq()[i - pl]));
                } else {
                    assert(i == ql);
                }
            }
        }
    }

    /// Is the frame at the head of the queue resolved by every component?
    fn all_ready(&self) -> (r: bool)
        ensures
            r == (self.pending_seq().len() > 0 && forall|c: int|
                0 <= c < self.components() ==> (#[trigger] self.accums_seq()[c]).pending_seq().len() > 0 && self.accums_seq()[c].pending_seq()[0].0
                    == self.pending_seq()[0].0.index_spec()),
    {
        if self.pending.len() == 0 {
            return false;
        }
        let front_pos = self.pending[0].0;
        let mut c: usize = 0;
        while c < self.accums.len()
            invariant
                0 <= c <= self.accums@.len(),
                self.pending@.len() > 0,
                front_pos == self.pending@[0].0,
                forall|k: int|
                    0 <= k < c ==> (#[trigger] self.accums_seq()[k]).pending_seq().len() > 0
                        && self.accums_seq()[k].pending_seq()[0].0 == self.pending_seq()[0].0.index_spec(),
            decreases self.accums@.len() - c,
        {
            if !self.accums[c].handled(&front_pos) {
                proof {
                    assert(!(self.accums_seq()[c as int].pending_seq().len() > 0
                        && self.accums_seq()[c as int].pending_seq()[0].0 == self.pending_seq()[0].0.index_spec()));
                }
                return false;
            }
            c = c + 1;
        }
        true
    }

    /// Releases every queued frame that all components have resolved,
    /// numbering the packets densely from the current output count.
    fn drain(
        &mut self,
        Ghost(queue): Ghost<Seq<(FramePosition, Option<F>)>>,
        Ghost(fed): Ghost<Seq<Seq<(usize, AccumDetection<P>)>>>,
    ) -> (out: Vec<(u64, ResolvedPacket<P, F>)>)
        requires
            old(self).aligned(),
            queue == old(self).pending_seq(),
            fed.len() == old(self).components(),
            forall|c: int|
                0 <= c < fed.len() ==> #[trigger] fed[c] == old(self).accums_seq()[c].pending_seq(),
            forall|c: int, k: int|
                0 <= c < fed.len() && 0 <= k < fed[c].len() && k < queue.len() && (#[trigger] queue[k]).1
                    is None ==> (#[trigger] fed[c])[k] == ((queue[k].0.index_spec() as usize), AccumDetection::<P>::Absent),
            old(self).emitted_spec() + old(self).pending_seq().len() <= u64::MAX,
        ensures
            final(self).aligned(),
            final(self).components() == old(self).components(),
            final(self).last_index() == old(self).last_index(),
            final(self).emitted_spec() == old(self).emitted_spec() + out@.len(),
            forall|k: int|
                0 <= k < out@.len() ==> (#[trigger] out@[k]).0 == old(self).emitted_spec() + k,
            out@.len() <= queue.len(),
            final(self).pending_seq() =~= queue.skip(out@.len() as int),
            forall|k: int|
                0 <= k < out@.len() ==> match (#[trigger] out@[k]).1 {
                    ResolvedPacket::Frame { pos: p, .. } => queue[k].1 is Some && p == queue[k].0,
                    ResolvedPacket::EndOfFrames { pos: p } => queue[k].1 is None && p == queue[k].0,
                },
            forall|c: int|
                0 <= c < old(self).components() ==> #[trigger] column(out@, c) + final(self).accums_seq()[c].pending_seq() =~= fed[c],
            final(self).pending_seq().len() > 0 ==> exists|c: int|
                0 <= c < old(self).components() && (#[trigger] final(self).accums_seq()[c]).pending_seq().len() == 0,
    {
        let ghost n = old(self).components();
        let mut out: Vec<(u64, ResolvedPacket<P, F>)> = Vec::new();
        proof {
            assert(queue.skip(0) =~= queue);
            assert forall|c: int| 0 <= c < n implies #[trigger] column(out@, c) + self.accums_seq()[c].pending_seq() =~= fed[c] by {
                assert(column(out@, c) =~= Seq::<(usize, AccumDetection<P>)>::empty());
            }
        }
        while self.all_ready()
            invariant
                self.aligned(),
                n == self.components(),
                n == fed.len(),
                self.last_pos == old(self).last_pos,
                out@.len() <= queue.len(),
                self.pending_seq() =~= queue.skip(out@.len() as int),
                self.emitted == old(self).emitted_spec() + out@.len(),
                old(self).emitted_spec() + queue.len() <= u64::MAX,
                forall|k: int|
                    0 <= k < out@.len() ==> (#[trigger] out@[k]).0 == old(self).emitted_spec() + k,
                forall|k: int|
                    0 <= k < out@.len() ==> match (#[trigger] out@[k]).1 {
                        ResolvedPacket::Frame { pos: p, .. } => queue[k].1 is Some && p == queue[k].0,
                        ResolvedPacket::EndOfFrames { pos: p } => queue[k].1 is None && p == queue[k].0,
                    },
                forall|c: int|
                    0 <= c < n ==> #[trigger] column(out@, c) + self.accums_seq()[c].pending_seq() =~= fed[c],
                forall|c: int, k: int|
                    0 <= c < fed.len() && 0 <= k < fed[c].len() && k < queue.len() && (#[trigger] queue[k]).1
                        is None ==> (#[trigger] fed[c])[k] == ((queue[k].0.index_spec() as usize), AccumDetection::<P>::Absent),
                n == fed.len(),
            decreases self.pending@.len(),
        {
            let ghost d = out@.len() as int;
            let ghost stage0 = *self;
            proof {
                assert(self.pending_seq()[0] == queue[d]);
                assert(stage0.aligned());
            }
            let (fpos, ff) = self.pending.remove(0);
            let mut rs: Vec<AccumDetection<P>> = Vec::new();
            let mut c: usize = 0;
            while c < self.accums.len()
                invariant
                    0 <= c <= n,
                    n == self.accums@.len(),
                    n == fed.len(),
                    self.pending@ =~= stage0.pending_seq().drop_first(),
                    self.emitted == stage0.emitted_spec(),
                    self.last_pos == stage0.last_pos,
                    stage0.aligned(),
                    n == stage0.accums_seq().len(),
                    stage0.pending_seq().len() > 0,
                    fpos == stage0.pending_seq()[0].0,
                    rs@.len() == c,
                    forall|k: int|
                        0 <= k < n ==> (#[trigger] stage0.accums_seq()[k]).pending_seq().len() > 0,
                    forall|k: int|
                        c <= k < n ==> #[trigger] self.accums@[k] == stage0.accums_seq()[k],
                    forall|k: int|
                        0 <= k < c ==> (#[trigger] self.accums@[k]).pending_seq() =~= stage0.accums_seq()[k].pending_seq().drop_first(),
                    forall|k: int|
                        0 <= k < c ==> (#[trigger] self.accums@[k]).possibles_seq()
                            == stage0.accums_seq()[k].possibles_seq() && self.accums@[k].found_start_spec() == stage0.accums_seq()[k].found_start_spec()
                            && self.accums@[k].last_found_spec() == stage0.accums_seq()[k].last_found_spec() && self.accums@[k].last_index() == stage0.accums_seq()[k].last_index() && self.accums@[k].wf(),
                    forall|k: int|
                        0 <= k < c ==> #[trigger] rs@[k] == stage0.accums_seq()[k].pending_seq()[0].1,
                decreases n - c,
            {
                let mut a = self.accums.remove(c);
                proof {
                    assert(a == stage0.accums_seq()[c as int]);
                    assert(stage0.accums_seq()[c as int].wf());
                }
                let p = match a.pop_packet() {
                    Some(p) => p,
                    None => {
                        proof {
                            assert(false);
                        }
                        unreached()
                    },
                };
                self.accums.insert(c, a);
                rs.push(p.1);
                c = c + 1;
            }
            let pkt = match ff {
                Some(f) => ResolvedPacket::Frame { pos: fpos, frame: f, results: rs },
                None => ResolvedPacket::EndOfFrames { pos: fpos },
            };
            let seq_no = self.emitted;
            self.emitted = self.emitted + 1;
            let ghost out0 = out@;
            out.push((seq_no, pkt));
            proof {
                assert(out@.drop_last() =~= out0);
                assert forall|cc: int| 0 <= cc < n implies #[trigger] column(out@, cc)
                    + self.accums_seq()[cc].pending_seq() =~= fed[cc] by {
                    assert(rs@[cc] == stage0.accums_seq()[cc].pending_seq()[0].1);
                    assert((stage0.accums_seq()[cc].pending_seq()[0]).0 == fpos.index_spec());
                    assert(column(out0, cc) + stage0.accums_seq()[cc].pending_seq() =~= fed[cc]);
                    lemma_column_len(out0, cc);
                    assert(stage0.accums_seq()[cc].pending_seq()[0] == fed[cc][d]);
                    if queue[d].1 is Some {
                        assert(column(out@, cc) =~= column(out0, cc) + seq![
                            ((fpos.index_spec() as usize), rs@[cc]),
                        ]);
                        assert(stage0.accums_seq()[cc].pending_seq()[0] == ((
                        fpos.index_spec() as usize), rs@[cc]));
                    } else {
                        assert(fed[cc][d] == ((queue[d].0.index_spec() as usize),
                        AccumDetection::<P>::Absent));
                        assert(column(out@, cc) =~= column(out0, cc) + seq![
                            ((fpos.index_spec() as usize), AccumDetection::<P>::Absent),
                        ]);
                        assert(stage0.accums_seq()[cc].pending_seq()[0] == ((
                        fpos.index_spec() as usize), AccumDetection::<P>::Absent));
                    }
                    assert(seq![stage0.accums_seq()[cc].pending_seq()[0]]
                        + stage0.accums_seq()[cc].pending_seq().drop_first()
                        =~= stage0.accums_seq()[cc].pending_seq());
                }
                assert(self.pending_seq() =~= queue.skip(out@.len() as int)) by {
                    assert(queue.skip(d).drop_first() =~= queue.skip(d + 1));
                }
                // the stage invariant holds of the shifted queues
                assert forall|cc: int, i: int|
                    0 <= cc < n && 0 <= i < self.accums_seq()[cc].pending_seq().len() implies ((
                #[trigger] self.accums_seq()[cc]).pending_seq()[i]).0 == (
                #[trigger] self.pending_seq()[i]).0.index_spec() by {
                    assert(self.accums_seq()[cc].pending_seq()[i] == stage0.accums_seq()[
                        cc].pending_seq()[i + 1]);
                    assert((stage0.accums_seq()[cc].pending_seq()[i + 1]).0 == (
                    stage0.pending_seq()[i + 1]).0.index_spec());
                    assert(self.pending_seq()[i] == stage0.pending_seq()[i + 1]);
                }
                assert forall|cc: int, jj: int|
                    0 <= cc < n && 0 <= jj < self.accums_seq()[cc].possibles_seq().len() implies ((
                #[trigger] self.accums_seq()[cc]).possibles_seq()[jj]).0 == (
                #[trigger] self.pending_seq()[self.accums_seq()[cc].pending_seq().len() + jj]).0 by {
                    assert((stage0.accums_seq()[cc].possibles_seq()[jj]).0 == (
                    stage0.pending_seq()[stage0.accums_seq()[cc].pending_seq().len() + jj]).0);
                    assert(self.pending_seq()[self.accums_seq()[cc].pending_seq().len() + jj]
                        == stage0.pending_seq()[stage0.accums_seq()[cc].pending_seq().len() + jj]);
                }
                assert(self.aligned());
            }
        }
        proof {
            if self.pending@.len() > 0 {
                let c0 = choose|c0: int|
                    !(0 <= c0 < n ==> (#[trigger] self.accums_seq()[c0]).pending_seq().len() > 0
                        && self.accums_seq()[c0].pending_seq()[0].0 == self.pending_seq()[0].0.index_spec());
                assert(0 <= c0 < n);
                if self.accums_seq()[c0].pending_seq().len() > 0 {
                    assert((self.accums_seq()[c0].pending_seq()[0]).0 == (self.pending_seq()[0]).0.index_spec());
                    assert(false);
                }
            }
        }
        out
    }
}


/// One report row: the probe position at which the components' decided
/// state last changed, and the text then in effect for each component (the
/// empty string where none).
pub struct TsvRow {
    pub pos: FramePosition,
    pub texts: Vec<String>,
}

/// Why the text stage stopped short: advancing the probe position left the
/// machine range of timestamps.
#[derive(Debug, Clone, Copy, PartialEq, Eq, Structural)]
pub enum StageError {
    TimeOutOfRange,
}

/// What one packet produced downstream: per component the span it closed
/// (if any), and the report rows whose probe intervals completed.
pub struct TextStageOutput {
    pub spans: Vec<Option<AccumResult>>,
    pub rows: Vec<TsvRow>,
}



/// Feeding one frame keeps the probe synchronisation: the committed history
/// can only grow by one span ending at the fed position, which the probe has
/// not passed.
proof fn lemma_feed_keeps_probe_sync(
    prev: TextAccumulator,
    cur: TextAccumulator,
    pos: FramePosition,
    ck: int,
)
    requires
        probe_synced(prev, ck),
        cur.emitted_spec() == prev.emitted_spec(),
        cur.history_spec() == prev.history_spec() || cur.history_spec()
            =~= prev.history_spec().push(appended_span(cur)),
        cur.history_spec().len() > prev.history_spec().len() ==> (cur.history_spec().last()).end
            == pos,
        pos.index_spec() >= ck,
        0 <= prev.emitted_spec() <= prev.history_spec().len(),
    ensures
        probe_synced(cur, ck),
{
    reveal(probe_synced);
    assert forall|i: int|
        0 <= i < cur.emitted_spec() implies (#[trigger] cur.history_spec()[i]).end.index_spec()
        < ck by {
        assert((prev.history_spec()[i]).end.index_spec() < ck);
        if cur.history_spec() != prev.history_spec() {
            assert(cur.history_spec()[i] == prev.history_spec()[i]);
        }
    }
    if cur.emitted_spec() < cur.history_spec().len() {
        if cur.emitted_spec() < prev.history_spec().len() {
            if cur.history_spec() != prev.history_spec() {
                assert(cur.history_spec()[cur.emitted_spec()] == prev.history_spec()[
                    prev.emitted_spec()]);
            }
        } else {
            assert(cur.history_spec()[cur.emitted_spec()] == cur.history_spec().last());
        }
    }
}

/// The last committed span: what a feed appended, when it appended one.
spec fn appended_span(cur: TextAccumulator) -> AccumResult {
    cur.history_spec().last()
}

/// How one component's accumulator answers one fed frame: extracted texts
/// open (or extend) its span, no text closes it, committing the span the
/// close returns.
pub open spec fn fed_state(
    prev: TextAccumulator,
    det: Option<ExtractedTexts>,
    cur: TextAccumulator,
    span: Option<AccumResult>,
    pos: FramePosition,
) -> bool {
    match det {
        Some(texts) => cur.after_open(prev, pos, texts) && span is None,
        None => cur.after_close(prev, pos, span),
    }
}

/// The probe position row `j` was emitted at: the position the next row
/// saved, or — for the last row — the final `last_updated`.
pub open spec fn probe_of(rows: Seq<TsvRow>, j: int, end_lu: FramePosition) -> FramePosition {
    if j + 1 < rows.len() {
        rows[j + 1].pos
    } else {
        end_lu
    }
}

/// Some component has a span boundary exactly on probe `p`.
pub open spec fn any_probe_boundary(accums: Seq<TextAccumulator>, p: int) -> bool {
    exists|c: int| 0 <= c < accums.len() && probe_boundary(#[trigger] accums[c], p)
}

/// Some row was emitted at probe `k`.
pub open spec fn reported_at(rows: Seq<TsvRow>, end_lu: FramePosition, k: int) -> bool {
    exists|j: int| 0 <= j < rows.len() && (#[trigger] probe_of(rows, j, end_lu)).index_spec() == k
}

/// Row `j` is sound: emitted at a probe within the round, at which some
/// component had a span boundary, and carrying every component's committed
/// text in effect at that probe (the empty string where none).
pub open spec fn probe_row_ok(
    accums: Seq<TextAccumulator>,
    start_idx: int,
    end_idx: int,
    rows: Seq<TsvRow>,
    j: int,
    end_lu: FramePosition,
) -> bool {
    let p = probe_of(rows, j, end_lu).index_spec() as int;
    &&& start_idx <= p < end_idx
    &&& any_probe_boundary(accums, p)
    &&& rows[j].texts@.len() == accums.len()
    &&& forall|c: int|
        0 <= c < accums.len() ==> (#[trigger] rows[j].texts@[c])@ == probe_text(accums[c], p)
}

/// The complete report of one probe round, from `start_idx` up to but
/// excluding `end_idx`:
/// exactly one row per probed position at which the decided state changed —
/// none invented, none skipped, at strictly increasing probes — each row
/// carrying the probe position saved when the previous row was emitted
/// (`start_lu` for the first; the final `last_updated` is the last row's
/// probe), and the per-component texts in effect at its probe.
pub open spec fn rows_report(
    accums: Seq<TextAccumulator>,
    start_idx: int,
    start_lu: FramePosition,
    end_idx: int,
    end_lu: FramePosition,
    rows: Seq<TsvRow>,
) -> bool {
    &&& (rows.len() == 0 ==> end_lu == start_lu)
    &&& (rows.len() > 0 ==> rows[0].pos == start_lu)
    &&& forall|j: int|
        0 <= j < rows.len() ==> #[trigger] probe_row_ok(accums, start_idx, end_idx, rows, j, end_lu)
    &&& forall|j: int, l: int|
        0 <= j < l < rows.len() ==> (#[trigger] probe_of(rows, j, end_lu)).index_spec() < (
        #[trigger] probe_of(rows, l, end_lu)).index_spec()
    &&& forall|k: int|
        start_idx <= k < end_idx && #[trigger] any_probe_boundary(accums, k) ==> reported_at(
            rows,
            end_lu,
            k,
        )
}

/// The sequential text-accumulation stage: one text accumulator per
/// component, and the probe position for the row report, which advances one
/// frame interval at a time and only while every component is decided
/// there.
pub struct TextStage {
    accums: Vec<TextAccumulator>,
    check_pos: FramePosition,
    last_updated: FramePosition,
    sec_per_frame: Duration,
    frames: Ghost<nat>,
    last_pos: Ghost<int>,
}

impl TextStage {
    pub closed spec fn accums_seq(self) -> Seq<TextAccumulator> {
        self.accums@
    }

    pub open spec fn components(self) -> int {
        self.accums_seq().len() as int
    }

    /// The probe position: rows up to (excluding) it are settled.
    pub closed spec fn check_pos_spec(self) -> FramePosition {
        self.check_pos
    }

    /// The probe position at which the decided state last changed.
    pub closed spec fn last_updated_spec(self) -> FramePosition {
        self.last_updated
    }

    /// The index of the last frame received, or -1 before the first.
    pub closed spec fn last_index(self) -> int {
        self.last_pos@
    }

    /// How many frames this stage has received.
    pub closed spec fn frames_spec(self) -> nat {
        self.frames@
    }

    pub closed spec fn wf(self) -> bool {
        &&& self.accums_seq().len() > 0
        &&& forall|c: int| 0 <= c < self.components() ==> (#[trigger] self.accums_seq()[c]).wf()
        &&& forall|c: int|
            0 <= c < self.components() ==> (#[trigger] self.accums_seq()[c]).frames_spec()
                <= self.frames_spec()
        &&& forall|c: int|
            0 <= c < self.components() ==> (#[trigger] self.accums_seq()[c]).last_index()
                == self.last_index()
        &&& forall|c: int|
            0 <= c < self.components() ==> probe_synced(
                #[trigger] self.accums_seq()[c],
                self.check_pos_spec().index_spec() as int,
            )
        &&& self.check_pos.wf() && self.check_pos.timestamp_spec().rat().bounded()
        &&& self.last_updated.wf()
        &&& self.sec_per_frame.wf() && self.sec_per_frame.rat().bounded()
        &&& self.last_updated.index_spec() <= self.check_pos.index_spec()
        &&& self.last_index() >= -1
    }

    /// The frame interval the probe advances by.
    pub closed spec fn sec_per_frame_spec(self) -> Duration {
        self.sec_per_frame
    }

    /// The probe position, as seen by callers checking the preconditions.
    pub fn check_index(&self) -> (r: usize)
        ensures
            r == self.check_pos_spec().index_spec(),
    {
        self.check_pos.index()
    }

    /// Starts a run: the probe begins at the position of the first frame.
    pub fn new(components: usize, start: FramePosition, sec_per_frame: Duration) -> (r: TextStage)
        requires
            components > 0,
            start.wf(),
            start.timestamp_spec().rat().bounded(),
            sec_per_frame.wf(),
            sec_per_frame.rat().bounded(),
        ensures
            r.wf(),
            r.components() == components,
            r.check_pos_spec() == start,
            r.last_updated_spec() == start,
            r.last_index() == -1,
            r.frames_spec() == 0,
            forall|c: int|
                0 <= c < r.components() ==> (#[trigger] r.accums_seq()[c]).history_spec() =~= Seq::<
                    AccumResult,
                >::empty() && r.accums_seq()[c].found_start_spec() is None && r.accums_seq()[c].inners().len() == 0,
            forall|c: int|
                0 <= c < r.components() ==> (#[trigger] r.accums_seq()[c]).name_spec()
                    == crate::components::component_name_spec(c),
    {
        let mut accums: Vec<TextAccumulator> = Vec::new();
        let mut c: usize = 0;
        while c < components
            invariant
                0 <= c <= components,
                accums@.len() == c,
                forall|k: int| 0 <= k < c ==> (#[trigger] accums@[k]).wf(),
                forall|k: int|
                    0 <= k < c ==> (#[trigger] accums@[k]).history_spec() =~= Seq::<
                        AccumResult,
                    >::empty() && accums@[k].found_start_spec() is None && accums@[k].inners().len() == 0 && accums@[k].last_index() == -1 && accums@[k].frames_spec() == 0
                        && accums@[k].emitted_spec() == 0,
                forall|k: int|
                    0 <= k < c ==> (#[trigger] accums@[k]).name_spec()
                        == crate::components::component_name_spec(k),
            decreases components - c,
        {
            accums.push(TextAccumulator::new(component_name_string(c)));
            c = c + 1;
        }
        proof {
            reveal(probe_synced);
            assert forall|k: int| 0 <= k < accums@.len() implies probe_synced(
                #[trigger] accums@[k],
                start.index_spec() as int,
            ) by {
                assert(accums@[k].emitted_spec() == 0);
                assert(accums@[k].history_spec().len() == 0);
            }
        }
        TextStage {
            accums,
            check_pos: start,
            last_updated: start,
            sec_per_frame,
            frames: Ghost(0),
            last_pos: Ghost(-1),
        }
    }

    /// How many text slots component `c` carries.
    pub fn slot_count(&self, c: usize) -> (r: usize)
        requires
            c < self.components(),
        ensures
            r == self.accums_seq()[c as int].inners().len(),
    {
        self.accums[c].slot_count()
    }

    /// Receives one frame's per-component extraction results (text where
    /// the resolved detection was `Found`, nothing where it was `Absent`),
    /// commits the spans this closes, and advances the probe. Fails only
    /// when advancing the probe timestamp would leave the machine range.
    #[verifier::rlimit(100)]
    #[verifier::spinoff_prover]
    pub fn process_frame(&mut self, pos: FramePosition, results: Vec<Option<ExtractedTexts>>) -> (r:
        Result<TextStageOutput, StageError>)
        requires
            old(self).wf(),
            pos.index_spec() > old(self).last_index(),
            pos.index_spec() >= old(self).check_pos_spec().index_spec(),
            results@.len() == old(self).components(),
            old(self).frames_spec() < crate::text_accum::SLOT_INSERT_CAP,
            forall|c: int|
                0 <= c < old(self).components() ==> ((#[trigger] results@[c]) matches Some(texts)
                    ==> texts.wf() && (old(self).accums_seq()[c].inners().len() == 0 || old(self).accums_seq()[c].inners().len() == texts.result@.len())),
        ensures
            final(self).wf(),
            final(self).components() == old(self).components(),
            final(self).last_index() == pos.index_spec(),
            r matches Ok(out) ==> out.spans@.len() == old(self).components() && (forall|c: int|
                0 <= c < old(self).components() ==> fed_state(
                    old(self).accums_seq()[c],
                    results@[c],
                    #[trigger] final(self).accums_seq()[c],
                    out.spans@[c],
                    pos,
                )) && rows_report(
                final(self).accums_seq(),
                old(self).check_pos_spec().index_spec() as int,
                old(self).last_updated_spec(),
                final(self).check_pos_spec().index_spec() as int,
                final(self).last_updated_spec(),
                out.rows@,
            ) && (forall|k: int, c: int|
                old(self).check_pos_spec().index_spec() <= k < final(self).check_pos_spec().index_spec() && 0 <= c < old(self).components() ==> #[trigger] probe_available(
                    final(self).accums_seq()[c],
                    k,
                )) && (final(self).check_pos_spec().index_spec() > pos.index_spec() || exists|c: int|
                0 <= c < old(self).components() && !probe_available(
                    #[trigger] final(self).accums_seq()[c],
                    final(self).check_pos_spec().index_spec() as int,
                )) && final(self).check_pos_spec().index_spec() <= pos.index_spec() + 1,
            r matches Err(e) ==> final(self).check_pos_spec().index_spec() <= pos.index_spec() && (
            final(self).check_pos_spec().index_spec() == usize::MAX || !sum_in_range(
                final(self).check_pos_spec().timestamp_spec().rat(),
                old(self).sec_per_frame_spec().rat(),
            )),
    {
        let ghost n = old(self).components();
        let ghost results0 = results@;
        let mut spans: Vec<Option<AccumResult>> = Vec::new();
        let mut dets = results;
        let mut c: usize = 0;
        while c < self.accums.len()
            invariant
                old(self).wf(),
                pos.index_spec() > old(self).last_index(),
                old(self).frames_spec() < crate::text_accum::SLOT_INSERT_CAP,
                forall|k: int|
                    0 <= k < n ==> ((#[trigger] results0[k]) matches Some(texts) ==> texts.wf() && (
                    old(self).accums_seq()[k].inners().len() == 0 || old(self).accums_seq()[k].inners().len() == texts.result@.len())),
                n == old(self).components(),
                n == results0.len(),
                self.accums@.len() == n,
                0 <= c <= n,
                pos.index_spec() >= old(self).check_pos_spec().index_spec(),
                dets@ =~= results0.skip(c as int),
                spans@.len() == c,
                self.check_pos == old(self).check_pos,
                self.last_updated == old(self).last_updated,
                self.sec_per_frame == old(self).sec_per_frame,
                self.frames == old(self).frames,
                self.last_pos == old(self).last_pos,
                forall|k: int| c <= k < n ==> #[trigger] self.accums@[k] == old(self).accums_seq()[k],
                forall|k: int| 0 <= k < c ==> (#[trigger] self.accums@[k]).wf(),
                forall|k: int|
                    0 <= k < c ==> (#[trigger] self.accums@[k]).last_index() == pos.index_spec(),
                forall|k: int|
                    0 <= k < c ==> (#[trigger] self.accums@[k]).frames_spec() <= old(self).frames_spec() + 1,
                forall|k: int|
                    0 <= k < c ==> probe_synced(
                        #[trigger] self.accums@[k],
                        self.check_pos_spec().index_spec() as int,
                    ),
                forall|k: int|
                    0 <= k < c ==> fed_state(
                        old(self).accums_seq()[k],
                        results0[k],
                        #[trigger] self.accums@[k],
                        spans@[k],
                        pos,
                    ),
            decreases n - c,
        {
            proof {
                assert(dets@[0] == results0[c as int]);
                assert(self.accums@[c as int] == old(self).accums_seq()[c as int]);
                assert((old(self).accums_seq()[c as int]).wf());
                assert((old(self).accums_seq()[c as int]).frames_spec() <= old(
                    self,
                ).frames_spec());
                assert((old(self).accums_seq()[c as int]).last_index() == old(self).last_index());
            }
            let det = dets.remove(0);
            let ghost before = self.accums@;
            let ghost prev = self.accums@[c as int];
            let ghost ck = self.check_pos_spec().index_spec() as int;
            let mut a = self.accums.remove(c);
            let sp = match det {
                Some(texts) => {
                    a.receive_frame(pos, Some(&texts));
                    None
                },
                None => a.receive_frame(pos, None),
            };
            let ghost anew = a;
            let ghost spans0 = spans@;
            self.accums.insert(c, a);
            spans.push(sp);
            proof {
                assert(dets@ =~= results0.skip(c + 1));
                assert(self.accums@ =~= before.update(c as int, anew));
                assert(spans@.drop_last() =~= spans0);
                crate::text_accum::lemma_retained_are_history_tail(&prev);
                assert(spans@[c as int] == sp);
                if results0[c as int] is Some {
                    assert(anew.after_open(prev, pos, results0[c as int]->Some_0));
                    assert(spans@[c as int] is None);
                } else {
                    assert(anew.after_close(prev, pos, spans@[c as int]));
                }
                assert forall|k: int|
                    0 <= k < c + 1 implies fed_state(
                    old(self).accums_seq()[k],
                    results0[k],
                    #[trigger] self.accums@[k],
                    spans@[k],
                    pos,
                ) by {
                    if k < c {
                        assert(self.accums@[k] == before[k]);
                        assert(spans@[k] == spans0[k]);
                        assert(fed_state(
                            old(self).accums_seq()[k],
                            results0[k],
                            before[k],
                            spans0[k],
                            pos,
                        ));
                    } else {
                        assert(self.accums@[k] == anew);
                        assert(spans@[k] == sp);
                        if results0[k] is Some {
                            assert(anew.after_open(prev, pos, results0[k]->Some_0));
                        } else {
                            assert(anew.after_close(prev, pos, spans@[k]));
                        }
                    }
                }
                lemma_feed_keeps_probe_sync(prev, anew, pos, ck);
                assert(ck == self.check_pos_spec().index_spec() as int);
                assert forall|k: int| 0 <= k < c + 1 implies probe_synced(
                    #[trigger] self.accums@[k],
                    self.check_pos_spec().index_spec() as int,
                ) by {
                    if k < c {
                        assert(self.accums@[k] == before[k]);
                        assert(probe_synced(before[k], ck));
                    } else {
                        assert(self.accums@[k] == anew);
                        assert(probe_synced(anew, ck));
                    }
                }
            }
            c = c + 1;
        }
        proof {
            self.last_pos@ = pos.index_spec() as int;
            self.frames@ = self.frames@ + 1;
        }
        let rows = match self.advance_probe(pos) {
            Ok(rows) => rows,
            Err(e) => {
                return Err(e);
            },
        };
        Ok(TextStageOutput { spans, rows })
    }

    /// Receives the end-of-stream sentinel: every open span closes at `pos`
    /// and the probe drains up to it.
    pub fn process_end(&mut self, pos: FramePosition) -> (r: Result<
        TextStageOutput,
        StageError,
    >)
        requires
            old(self).wf(),
            pos.index_spec() > old(self).last_index(),
            pos.index_spec() >= old(self).check_pos_spec().index_spec(),
        ensures
            final(self).wf(),
            final(self).components() == old(self).components(),
            final(self).last_index() == pos.index_spec(),
            r matches Ok(out) ==> out.spans@.len() == old(self).components() && (forall|c: int|
                0 <= c < old(self).components() ==> (#[trigger] final(self).accums_seq()[c]).after_close(old(self).accums_seq()[c], pos, out.spans@[c]) && final(self).accums_seq()[c].eof_spec() == Some(pos)) && rows_report(
                final(self).accums_seq(),
                old(self).check_pos_spec().index_spec() as int,
                old(self).last_updated_spec(),
                final(self).check_pos_spec().index_spec() as int,
                final(self).last_updated_spec(),
                out.rows@,
            ) && (forall|k: int, c: int|
                old(self).check_pos_spec().index_spec() <= k < final(self).check_pos_spec().index_spec() && 0 <= c < old(self).components() ==> #[trigger] probe_available(
                    final(self).accums_seq()[c],
                    k,
                )) && (final(self).check_pos_spec().index_spec() > pos.index_spec() || exists|c: int|
                0 <= c < old(self).components() && !probe_available(
                    #[trigger] final(self).accums_seq()[c],
                    final(self).check_pos_spec().index_spec() as int,
                )) && final(self).check_pos_spec().index_spec() <= pos.index_spec() + 1,
            r matches Err(e) ==> final(self).check_pos_spec().index_spec() <= pos.index_spec() && (
            final(self).check_pos_spec().index_spec() == usize::MAX || !sum_in_range(
                final(self).check_pos_spec().timestamp_spec().rat(),
                old(self).sec_per_frame_spec().rat(),
            )),
    {
        let ghost n = old(self).components();
        let mut spans: Vec<Option<AccumResult>> = Vec::new();
        let mut c: usize = 0;
        while c < self.accums.len()
            invariant
                old(self).wf(),
                pos.index_spec() > old(self).last_index(),
                n == old(self).components(),
                self.accums@.len() == n,
                0 <= c <= n,
                pos.index_spec() >= old(self).check_pos_spec().index_spec(),
                spans@.len() == c,
                self.check_pos == old(self).check_pos,
                self.last_updated == old(self).last_updated,
                self.sec_per_frame == old(self).sec_per_frame,
                self.frames == old(self).frames,
                self.last_pos == old(self).last_pos,
                forall|k: int| c <= k < n ==> #[trigger] self.accums@[k] == old(self).accums_seq()[k],
                forall|k: int| 0 <= k < c ==> (#[trigger] self.accums@[k]).wf(),
                forall|k: int|
                    0 <= k < c ==> (#[trigger] self.accums@[k]).last_index() == pos.index_spec(),
                forall|k: int|
                    0 <= k < c ==> (#[trigger] self.accums@[k]).frames_spec() <= old(self).frames_spec(),
                forall|k: int|
                    0 <= k < c ==> probe_synced(
                        #[trigger] self.accums@[k],
                        self.check_pos_spec().index_spec() as int,
                    ),
                forall|k: int|
                    0 <= k < c ==> (#[trigger] self.accums@[k]).eof_spec() == Some(pos),
                forall|k: int|
                    0 <= k < c ==> (#[trigger] self.accums@[k]).after_close(
                        old(self).accums_seq()[k],
                        pos,
                        spans@[k],
                    ),
            decreases n - c,
        {
            proof {
                assert(self.accums@[c as int] == old(self).accums_seq()[c as int]);
                assert((old(self).accums_seq()[c as int]).wf());
                assert((old(self).accums_seq()[c as int]).last_index() == old(self).last_index());
            }
            let ghost before = self.accums@;
            let ghost prev = self.accums@[c as int];
            let ghost ck = self.check_pos_spec().index_spec() as int;
            let mut a = self.accums.remove(c);
            let sp = a.receive_end_of_frames(pos);
            let ghost anew = a;
            self.accums.insert(c, a);
            spans.push(sp);
            proof {
                assert(self.accums@ =~= before.update(c as int, anew));
                crate::text_accum::lemma_retained_are_history_tail(&prev);
                assert(anew.after_close(prev, pos, spans@[c as int]));
                lemma_feed_keeps_probe_sync(prev, anew, pos, ck);
                assert(ck == self.check_pos_spec().index_spec() as int);
                assert forall|k: int| 0 <= k < c + 1 implies probe_synced(
                    #[trigger] self.accums@[k],
                    self.check_pos_spec().index_spec() as int,
                ) by {
                    if k < c {
                        assert(self.accums@[k] == before[k]);
                        assert(probe_synced(before[k], ck));
                    } else {
                        assert(self.accums@[k] == anew);
                        assert(probe_synced(anew, ck));
                    }
                }
            }
            c = c + 1;
        }
        proof {
            self.last_pos@ = pos.index_spec() as int;
        }
        let rows = match self.advance_probe(pos) {
            Ok(rows) => rows,
            Err(e) => {
                return Err(e);
            },
        };
        Ok(TextStageOutput { spans, rows })
    }

    /// Is every component decided at the probe position (not straddling an
    /// open span that began at or after it)?
    fn all_available(&self) -> (r: bool)
        ensures
            r == forall|c: int|
                0 <= c < self.components() ==> ((#[trigger] self.accums_seq()[c]).eof_spec()
                    is Some || !(match self.accums_seq()[c].found_start_spec() {
                    Some(s) => s.index_spec() >= self.check_pos_spec().index_spec(),
                    None => false,
                })),
    {
        let mut c: usize = 0;
        while c < self.accums.len()
            invariant
                0 <= c <= self.accums@.len(),
                forall|k: int|
                    0 <= k < c ==> ((#[trigger] self.accums_seq()[k]).eof_spec() is Some || !(
                    match self.accums_seq()[k].found_start_spec() {
                        Some(s) => s.index_spec() >= self.check_pos_spec().index_spec(),
                        None => false,
                    })),
            decreases self.accums@.len() - c,
        {
            if !self.accums[c].prev_span_available(&self.check_pos) {
                return false;
            }
            c = c + 1;
        }
        true
    }

    /// The probe views of two like-sized accumulator rows that agree on
    /// their committed histories, end-of-stream marks and open spans agree,
    /// so a report over one holds over the other.
    proof fn lemma_report_transfers(
        a: Seq<TextAccumulator>,
        b: Seq<TextAccumulator>,
        start_idx: int,
        start_lu: FramePosition,
        end_idx: int,
        end_lu: FramePosition,
        rows: Seq<TsvRow>,
    )
        requires
            a.len() == b.len(),
            forall|c: int|
                0 <= c < a.len() ==> (#[trigger] a[c]).history_spec() == b[c].history_spec() && a[c].eof_spec() == b[c].eof_spec() && a[c].found_start_spec() == b[c].found_start_spec(),
            rows_report(a, start_idx, start_lu, end_idx, end_lu, rows),
        ensures
            rows_report(b, start_idx, start_lu, end_idx, end_lu, rows),
    {
        assert forall|p: int| any_probe_boundary(a, p) == #[trigger] any_probe_boundary(b, p) by {
            if any_probe_boundary(a, p) {
                let c = choose|c: int| 0 <= c < a.len() && probe_boundary(#[trigger] a[c], p);
                crate::text_accum::lemma_probe_views_agree(a[c], b[c], p);
                assert(probe_boundary(b[c], p));
            }
            if any_probe_boundary(b, p) {
                let c = choose|c: int| 0 <= c < b.len() && probe_boundary(#[trigger] b[c], p);
                crate::text_accum::lemma_probe_views_agree(a[c], b[c], p);
                assert(probe_boundary(a[c], p));
            }
        }
        assert forall|j2: int| 0 <= j2 < rows.len() implies #[trigger] probe_row_ok(
            b,
            start_idx,
            end_idx,
            rows,
            j2,
            end_lu,
        ) by {
            assert(probe_row_ok(a, start_idx, end_idx, rows, j2, end_lu));
            let p = probe_of(rows, j2, end_lu).index_spec() as int;
            assert forall|c: int| 0 <= c < b.len() implies (#[trigger] rows[j2].texts@[c])@
                == probe_text(b[c], p) by {
                crate::text_accum::lemma_probe_views_agree(a[c], b[c], p);
            }
        }
    }

    /// Advances the probe position one frame interval at a time, as long as
    /// it has not passed `pos` and every component is decided at it; emits
    /// one row whenever some component's decided state changed, per
    /// [`rows_report`].
    #[verifier::rlimit(100)]
    fn advance_probe(&mut self, pos: FramePosition) -> (r: Result<Vec<TsvRow>, StageError>)
        requires
            old(self).wf(),
        ensures
            final(self).wf(),
            final(self).components() == old(self).components(),
            final(self).last_index() == old(self).last_index(),
            final(self).frames_spec() == old(self).frames_spec(),
            final(self).sec_per_frame_spec() == old(self).sec_per_frame_spec(),
            forall|c: int|
                0 <= c < old(self).components() ==> (#[trigger] final(self).accums_seq()[c]).inners() == old(self).accums_seq()[c].inners() && final(self).accums_seq()[c].found_start_spec() == old(self).accums_seq()[c].found_start_spec() && final(self).accums_seq()[c].history_spec() == old(self).accums_seq()[c].history_spec()
                    && final(self).accums_seq()[c].eof_spec() == old(self).accums_seq()[c].eof_spec() && final(self).accums_seq()[c].name_spec() == old(self).accums_seq()[c].name_spec() && final(self).accums_seq()[c].frames_spec() == old(self).accums_seq()[c].frames_spec() && final(self).accums_seq()[c].last_index() == old(self).accums_seq()[c].last_index(),
            old(self).check_pos_spec().index_spec() <= final(self).check_pos_spec().index_spec(),
            final(self).check_pos_spec().index_spec() <= pos.index_spec() + 1 || final(self).check_pos_spec() == old(self).check_pos_spec(),
            final(self).last_updated_spec().index_spec() >= old(self).last_updated_spec().index_spec(),
            match r {
                Ok(rows) => rows_report(
                    final(self).accums_seq(),
                    old(self).check_pos_spec().index_spec() as int,
                    old(self).last_updated_spec(),
                    final(self).check_pos_spec().index_spec() as int,
                    final(self).last_updated_spec(),
                    rows@,
                ) && (forall|k: int, c: int|
                    old(self).check_pos_spec().index_spec() <= k < final(self).check_pos_spec().index_spec() && 0 <= c < old(self).components() ==> #[trigger] probe_available(
                        final(self).accums_seq()[c],
                        k,
                    )) && (final(self).check_pos_spec().index_spec() > pos.index_spec() || exists|c: int|
                    0 <= c < old(self).components() && !probe_available(
                        #[trigger] final(self).accums_seq()[c],
                        final(self).check_pos_spec().index_spec() as int,
                    )),
                Err(e) => final(self).check_pos_spec().index_spec() <= pos.index_spec() && (final(self).check_pos_spec().index_spec() == usize::MAX || !sum_in_range(
                    final(self).check_pos_spec().timestamp_spec().rat(),
                    old(self).sec_per_frame_spec().rat(),
                )),
            },
    {
        let ghost n = old(self).components();
        let ghost start_idx = old(self).check_pos_spec().index_spec() as int;
        let ghost start_lu = old(self).last_updated_spec();
        let ghost base = old(self).accums_seq();
        let mut rows: Vec<TsvRow> = Vec::new();
        while self.check_pos.index() <= pos.index() && self.all_available()
            invariant
                n == self.components(),
                n == old(self).components(),
                n == base.len(),
                n > 0,
                base == old(self).accums_seq(),
                self.wf(),
                self.last_pos == old(self).last_pos,
                self.frames == old(self).frames,
                self.sec_per_frame == old(self).sec_per_frame,
                start_idx == old(self).check_pos_spec().index_spec() as int,
                start_lu == old(self).last_updated_spec(),
                forall|c: int|
                    0 <= c < n ==> (#[trigger] self.accums_seq()[c]).inners() == base[c].inners() && self.accums_seq()[c].found_start_spec() == base[c].found_start_spec() && self.accums_seq()[c].history_spec() == base[c].history_spec()
                        && self.accums_seq()[c].eof_spec() == base[c].eof_spec() && self.accums_seq()[c].name_spec() == base[c].name_spec() && self.accums_seq()[c].frames_spec() == base[c].frames_spec() && self.accums_seq()[c].last_index() == base[c].last_index(),
                start_idx <= self.check_pos_spec().index_spec(),
                start_lu.index_spec() <= self.last_updated_spec().index_spec(),
                self.check_pos_spec().index_spec() <= pos.index_spec() + 1 || self.check_pos
                    == old(self).check_pos,
                rows_report(
                    base,
                    start_idx,
                    start_lu,
                    self.check_pos_spec().index_spec() as int,
                    self.last_updated,
                    rows@,
                ),
                forall|k: int, c: int|
                    start_idx <= k < self.check_pos_spec().index_spec() && 0 <= c < n
                        ==> #[trigger] probe_available(base[c], k),
            decreases pos.index_spec() + 1 - self.check_pos_spec().index_spec(),
        {
            let ghost kprobe = self.check_pos_spec().index_spec() as int;
            let ghost lu0 = self.last_updated;
            let ghost rows0 = rows@;
            proof {
                assert forall|c: int| 0 <= c < n implies #[trigger] probe_available(
                    base[c],
                    kprobe,
                ) by {
                    crate::text_accum::lemma_probe_views_agree(
                        self.accums_seq()[c],
                        base[c],
                        kprobe,
                    );
                }
            }
            let mut updated = false;
            let mut c: usize = 0;
            while c < self.accums.len()
                invariant
                    n == self.accums@.len(),
                    n == base.len(),
                    0 <= c <= n,
                    self.wf(),
                    kprobe == self.check_pos_spec().index_spec() as int,
                    forall|c2: int|
                        0 <= c2 < n ==> (#[trigger] self.accums_seq()[c2]).history_spec() == base[c2].history_spec() && self.accums_seq()[c2].eof_spec() == base[c2].eof_spec() && self.accums_seq()[c2].found_start_spec() == base[c2].found_start_spec(),
                    updated == exists|c2: int|
                        0 <= c2 < c && probe_boundary(#[trigger] base[c2], kprobe),
                decreases n - c,
            {
                proof {
                    assert((self.accums_seq()[c as int]).wf());
                    assert(probe_synced(self.accums_seq()[c as int], kprobe));
                }
                let ghost updated0 = updated;
                if self.accums[c].boundary_at(&self.check_pos) {
                    updated = true;
                    proof {
                        crate::text_accum::lemma_probe_views_agree(
                            self.accums_seq()[c as int],
                            base[c as int],
                            kprobe,
                        );
                        assert(probe_boundary(base[c as int], kprobe));
                    }
                } else {
                    proof {
                        crate::text_accum::lemma_probe_views_agree(
                            self.accums_seq()[c as int],
                            base[c as int],
                            kprobe,
                        );
                        if updated0 {
                            let c2 = choose|c2: int|
                                0 <= c2 < c && probe_boundary(#[trigger] base[c2], kprobe);
                            assert(probe_boundary(base[c2], kprobe));
                        }
                    }
                }
                c = c + 1;
            }
            proof {
                assert(updated == any_probe_boundary(base, kprobe));
            }
            if updated {
                let mut texts: Vec<String> = Vec::new();
                let mut c: usize = 0;
                while c < self.accums.len()
                    invariant
                        n == self.accums@.len(),
                        n == base.len(),
                        0 <= c <= n,
                        self.wf(),
                        kprobe == self.check_pos_spec().index_spec() as int,
                        forall|c2: int|
                            0 <= c2 < n ==> (#[trigger] self.accums_seq()[c2]).history_spec() == base[c2].history_spec() && self.accums_seq()[c2].eof_spec() == base[c2].eof_spec() && self.accums_seq()[c2].found_start_spec() == base[c2].found_start_spec(),
                        texts@.len() == c,
                        forall|c2: int|
                            0 <= c2 < c ==> (#[trigger] texts@[c2])@ == probe_text(
                                base[c2],
                                kprobe,
                            ),
                    decreases n - c,
                {
                    proof {
                        assert((self.accums_seq()[c as int]).wf());
                        assert(probe_synced(self.accums_seq()[c as int], kprobe));
                    }
                    let text = self.accums[c].text_at(&self.check_pos);
                    proof {
                        crate::text_accum::lemma_probe_views_agree(
                            self.accums_seq()[c as int],
                            base[c as int],
                            kprobe,
                        );
                    }
                    texts.push(text);
                    c = c + 1;
                }
                rows.push(TsvRow { pos: self.last_updated, texts });
                self.last_updated = self.check_pos;
                proof {
                    assert(rows@.drop_last() =~= rows0);
                    assert(rows@.last().pos == lu0);
                    assert forall|j2: int| 0 <= j2 < rows0.len() implies probe_of(
                        rows@,
                        j2,
                        self.last_updated,
                    ) == probe_of(rows0, j2, lu0) by {
                        if j2 + 1 < rows0.len() {
                            assert(rows@[j2 + 1] == rows0[j2 + 1]);
                        } else {
                            assert(rows@[j2 + 1].pos == lu0);
                        }
                    }
                    assert forall|j2: int| 0 <= j2 < rows@.len() implies #[trigger] probe_row_ok(
                        base,
                        start_idx,
                        kprobe + 1,
                        rows@,
                        j2,
                        self.last_updated,
                    ) by {
                        if j2 < rows0.len() {
                            assert(probe_row_ok(base, start_idx, kprobe, rows0, j2, lu0));
                        } else {
                            assert(probe_of(rows@, j2, self.last_updated) == self.last_updated);
                        }
                    }
                    assert forall|k: int|
                        start_idx <= k < kprobe + 1 && #[trigger] any_probe_boundary(base, k)
                            implies reported_at(rows@, self.last_updated, k) by {
                        if k < kprobe {
                            assert(reported_at(rows0, lu0, k));
                            let j2 = choose|j2: int|
                                0 <= j2 < rows0.len() && (#[trigger] probe_of(
                                    rows0,
                                    j2,
                                    lu0,
                                )).index_spec() == k;
                            assert(probe_of(rows@, j2, self.last_updated).index_spec() == k);
                        } else {
                            assert(probe_of(
                                rows@,
                                rows@.len() - 1,
                                self.last_updated,
                            ).index_spec() == k);
                        }
                    }
                    assert forall|j2: int, l2: int|
                        0 <= j2 < l2 < rows@.len() implies (#[trigger] probe_of(
                        rows@,
                        j2,
                        self.last_updated,
                    )).index_spec() < (#[trigger] probe_of(rows@, l2, self.last_updated)).index_spec() by {
                        if l2 < rows@.len() - 1 {
                            assert(probe_of(rows@, j2, self.last_updated) == probe_of(
                                rows0,
                                j2,
                                lu0,
                            ));
                            assert(probe_of(rows@, l2, self.last_updated) == probe_of(
                                rows0,
                                l2,
                                lu0,
                            ));
                        } else {
                            assert(probe_of(rows@, j2, self.last_updated) == probe_of(
                                rows0,
                                j2,
                                lu0,
                            ));
                            assert(probe_row_ok(base, start_idx, kprobe, rows0, j2, lu0));
                            assert(probe_of(rows@, l2, self.last_updated) == self.last_updated);
                        }
                    }
                    if rows0.len() == 0 {
                        assert(rows@[0].pos == lu0);
                        assert(lu0 == start_lu);
                    } else {
                        assert(rows@[0] == rows0[0]);
                    }
                }
            } else {
                proof {
                    assert forall|k: int|
                        start_idx <= k < kprobe + 1 && #[trigger] any_probe_boundary(base, k)
                            implies reported_at(rows@, self.last_updated, k) by {
                        if k == kprobe {
                            assert(!any_probe_boundary(base, kprobe));
                        }
                    }
                    assert forall|j2: int| 0 <= j2 < rows@.len() implies #[trigger] probe_row_ok(
                        base,
                        start_idx,
                        kprobe + 1,
                        rows@,
                        j2,
                        self.last_updated,
                    ) by {
                        assert(probe_row_ok(base, start_idx, kprobe, rows@, j2, self.last_updated));
                    }
                }
            }
            let next_pos = match self.check_pos.next(&self.sec_per_frame) {
                Some(p) => p,
                None => {
                    proof {
                        assert(self.check_pos_spec().index_spec() <= pos.index_spec());
                    }
                    return Err(StageError::TimeOutOfRange);
                },
            };
            self.check_pos = next_pos;
            let ghost cp = self.check_pos;
            let ghost luk = self.last_updated;
            let mut c: usize = 0;
            while c < self.accums.len()
                invariant
                    n == self.accums@.len(),
                    n == base.len(),
                    0 <= c <= n,
                    self.check_pos == cp,
                    self.last_updated == luk,
                    cp.index_spec() == kprobe + 1,
                    cp.wf() && cp.timestamp_spec().rat().bounded(),
                    luk.wf(),
                    luk.index_spec() <= cp.index_spec(),
                    self.sec_per_frame == old(self).sec_per_frame,
                    self.sec_per_frame.wf() && self.sec_per_frame.rat().bounded(),
                    self.last_pos == old(self).last_pos,
                    self.frames == old(self).frames,
                    self.last_index() >= -1,
                    forall|k: int| 0 <= k < n ==> (#[trigger] self.accums_seq()[k]).wf(),
                    forall|k: int|
                        0 <= k < n ==> (#[trigger] self.accums_seq()[k]).inners() == base[k].inners() && self.accums_seq()[k].found_start_spec() == base[k].found_start_spec() && self.accums_seq()[k].history_spec() == base[k].history_spec()
                            && self.accums_seq()[k].eof_spec() == base[k].eof_spec() && self.accums_seq()[k].name_spec() == base[k].name_spec() && self.accums_seq()[k].frames_spec() == base[k].frames_spec() && self.accums_seq()[k].last_index() == base[k].last_index(),
                    forall|k: int|
                        0 <= k < n ==> (#[trigger] self.accums_seq()[k]).frames_spec()
                            <= self.frames_spec(),
                    forall|k: int|
                        0 <= k < n ==> (#[trigger] self.accums_seq()[k]).last_index()
                            == self.last_index(),
                    forall|k: int|
                        0 <= k < c ==> probe_synced(
                            #[trigger] self.accums_seq()[k],
                            cp.index_spec() as int,
                        ),
                    forall|k: int|
                        c <= k < n ==> probe_synced(#[trigger] self.accums_seq()[k], kprobe),
                decreases n - c,
            {
                proof {
                    assert((self.accums_seq()[c as int]).wf());
                    assert(probe_synced(self.accums_seq()[c as int], kprobe));
                }
                let ghost before = self.accums@;
                let ghost a0 = self.accums@[c as int];
                let mut a = self.accums.remove(c);
                a.seek_result_to(&self.check_pos);
                let ghost anew = a;
                self.accums.insert(c, a);
                proof {
                    reveal(probe_synced);
                    assert(self.accums@ =~= before.update(c as int, anew));
                    let h = a0.history_spec();
                    let e0 = a0.emitted_spec();
                    let res0 = a0.results_seq();
                    let np = crate::text_accum::num_passed(res0, cp.index_spec());
                    crate::text_accum::lemma_num_passed(res0, cp.index_spec());
                    crate::text_accum::lemma_retained_are_history_tail(&a0);
                    assert(res0 =~= h.skip(e0));
                    assert(anew.emitted_spec() == e0 + np);
                    assert forall|i: int|
                        0 <= i < anew.emitted_spec() implies (#[trigger] anew.history_spec()[i]).end.index_spec() < cp.index_spec() by {
                        if i < e0 {
                            assert((h[i]).end.index_spec() < kprobe);
                        } else {
                            assert(res0[i - e0] == h[i]);
                            assert((res0[i - e0]).end.index_spec() < cp.index_spec());
                        }
                    }
                    if anew.emitted_spec() < anew.history_spec().len() {
                        assert(res0[np] == h[e0 + np]);
                        assert((res0[np]).end.index_spec() >= cp.index_spec());
                    }
                    assert(probe_synced(anew, cp.index_spec() as int));
                }
                c = c + 1;
            }
            proof {
                assert(self.wf());
                assert forall|k: int, c2: int|
                    start_idx <= k < cp.index_spec() && 0 <= c2 < n implies #[trigger] probe_available(
                    base[c2],
                    k,
                ) by {}
            }
        }
        proof {
            TextStage::lemma_report_transfers(
                base,
                self.accums_seq(),
                start_idx,
                start_lu,
                self.check_pos_spec().index_spec() as int,
                self.last_updated_spec(),
                rows@,
            );
            assert forall|k: int, c: int|
                start_idx <= k < self.check_pos_spec().index_spec() && 0 <= c < n
                    implies #[trigger] probe_available(self.accums_seq()[c], k) by {
                crate::text_accum::lemma_probe_views_agree(self.accums_seq()[c], base[c], k);
                assert(probe_available(base[c], k));
            }
            if self.check_pos_spec().index_spec() <= pos.index_spec() {
                let c0 = choose|c0: int|
                    !(0 <= c0 < n ==> ((#[trigger] self.accums_seq()[c0]).eof_spec() is Some || !(
                    match self.accums_seq()[c0].found_start_spec() {
                        Some(s) => s.index_spec() >= self.check_pos_spec().index_spec(),
                        None => false,
                    })));
                assert(!probe_available(
                    self.accums_seq()[c0],
                    self.check_pos_spec().index_spec() as int,
                ));
            }
        }
        Ok(rows)
    }
}

/// The stable name of the component numbered `i`, as an owned string
/// (matching [`crate::components::component_name`]).
fn component_name_string(i: usize) -> (r: String)
    ensures
        r@ == crate::components::component_name_spec(i as int),
{
    match i {
        0 => "main_item".to_owned(),
        1 => "side_item0".to_owned(),
        2 => "side_item1".to_owned(),
        3 => "side_item2".to_owned(),
        4 => "side_item3".to_owned(),
        5 => "side_item4".to_owned(),
        6 => "side_item5".to_owned(),
        7 => "side_item6".to_owned(),
        8 => "side_item7".to_owned(),
        9 => "side_item8".to_owned(),
        _ => "side_item9".to_owned(),
    }
}

} // verus!
