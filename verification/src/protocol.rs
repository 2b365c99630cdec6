//! The verified core of the consumer: a FIFO queue of pending frames and
//! the poll/acknowledge/commit protocol that refills it.
//!
//! The core never touches the broker itself. A driver owns the broker
//! session and, whenever [`FrameStreamCore::needs_poll`] says so, polls it
//! and reports the outcome: a successful poll hands the payloads of every
//! returned message-set to [`FrameStreamCore::handle_poll_success`], which
//! buffers them and answers with the exact sequence of broker calls the
//! driver must now make (one acknowledgment per message-set, in order, then
//! one commit); a failed poll is reported through
//! [`FrameStreamCore::record_poll_failure`], which terminates the stream
//! for good. Frames are drained one at a time, oldest first, through
//! [`FrameStreamCore::pop_frame`].

use vstd::prelude::*;
use vstd::seq_lib::lemma_flatten_concat;

verus! {

/// One call the driver must make against the broker, in the order given.
#[derive(Clone, Copy, Debug, PartialEq, Eq, Structural)]
pub enum BrokerCall {
    /// Mark the message-set at this index of the poll result as consumed.
    Acknowledge { set: usize },
    /// Durably commit every offset consumed so far.
    Commit,
}

/// The views of a sequence of frames.
pub open spec fn frame_views(frames: Seq<Vec<u8>>) -> Seq<Seq<u8>> {
    frames.map_values(|f: Vec<u8>| f@)
}

/// The views of a batch of message-sets, each message-set a sequence of
/// message payloads.
pub open spec fn set_views(batch: Seq<Vec<Vec<u8>>>) -> Seq<Seq<Seq<u8>>> {
    batch.map_values(|ms: Vec<Vec<u8>>| frame_views(ms@))
}

/// The broker calls owed after a poll that returned `n` message-sets: one
/// acknowledgment per message-set, in the order the broker returned them,
/// and a single commit after the last acknowledgment.
pub open spec fn ack_then_commit(n: nat) -> Seq<BrokerCall> {
    Seq::new(n, |i: int| BrokerCall::Acknowledge { set: i as usize }).push(BrokerCall::Commit)
}

/// The mathematical state of a frame stream: the frames not yet delivered,
/// oldest first, and whether a poll failure has terminated the stream.
pub struct StreamModel {
    /// Frames buffered but not yet delivered, oldest first.
    pub pending: Seq<Seq<u8>>,
    /// Whether a poll failure has terminated the stream.
    pub exhausted: bool,
}

impl StreamModel {
    /// The driver must poll exactly when no frame is buffered and the
    /// stream is still alive.
    pub open spec fn needs_refill(self) -> bool {
        self.pending.len() == 0 && !self.exhausted
    }

    /// What one read delivers: the oldest pending frame, or nothing.
    pub open spec fn read_result(self) -> Option<Seq<u8>> {
        if self.pending.len() > 0 {
            Some(self.pending.first())
        } else {
            None
        }
    }

    /// The state after one read.
    pub open spec fn read_step(self) -> StreamModel {
        if self.pending.len() > 0 {
            StreamModel { pending: self.pending.drop_first(), exhausted: self.exhausted }
        } else {
            self
        }
    }

    /// The state after `n` reads.
    pub open spec fn read_n(self, n: nat) -> StreamModel
        decreases n,
    {
        if n == 0 {
            self
        } else {
            self.read_step().read_n((n - 1) as nat)
        }
    }

    /// The frames that `n` successive reads deliver, in delivery order.
    pub open spec fn deliveries(self, n: nat) -> Seq<Seq<u8>>
        decreases n,
    {
        if n == 0 {
            Seq::empty()
        } else {
            match self.read_result() {
                Some(f) => seq![f] + self.read_step().deliveries((n - 1) as nat),
                None => self.read_step().deliveries((n - 1) as nat),
            }
        }
    }

    /// The state after one poll outcome: a successful poll appends the
    /// payloads of its message-sets, in message-set order and intra-set
    /// message order; a failure terminates the stream and buffers nothing.
    pub open spec fn poll_step(self, outcome: Option<Seq<Seq<Seq<u8>>>>) -> StreamModel {
        match outcome {
            Some(batch) => StreamModel {
                pending: self.pending + batch.flatten(),
                exhausted: self.exhausted,
            },
            None => StreamModel { pending: self.pending, exhausted: true },
        }
    }

    /// The state after a sequence of successful polls.
    pub open spec fn poll_batches(self, batches: Seq<Seq<Seq<Seq<u8>>>>) -> StreamModel
        decreases batches.len(),
    {
        if batches.len() == 0 {
            self
        } else {
            self.poll_step(Some(batches.first())).poll_batches(batches.drop_first())
        }
    }
}

/// The core state of the frame stream: the frames extracted from broker
/// message-sets but not yet delivered, and whether the stream has been
/// terminated by a poll failure.
pub struct FrameStreamCore {
    queue: Vec<Vec<u8>>,
    exhausted: bool,
}

impl FrameStreamCore {
    /// The pending frames, oldest first.
    pub closed spec fn pending(self) -> Seq<Seq<u8>> {
        frame_views(self.queue@)
    }

    /// Whether a poll failure has terminated the stream.
    pub closed spec fn is_exhausted(self) -> bool {
        self.exhausted
    }

    /// The mathematical state this core realises.
    pub open spec fn model(self) -> StreamModel {
        StreamModel { pending: self.pending(), exhausted: self.is_exhausted() }
    }

    /// A fresh core: no pending frames, stream alive.
    pub fn new() -> (c: Self)
        ensures
            c.model() == (StreamModel { pending: Seq::<Seq<u8>>::empty(), exhausted: false }),
    {
        let c = FrameStreamCore { queue: Vec::new(), exhausted: false };
        proof {
            assert(c.pending() =~= Seq::<Seq<u8>>::empty());
        }
        c
    }

    /// Whether the driver must poll the broker before a frame can be
    /// delivered: the queue is empty and the stream is still alive.
    pub fn needs_poll(&self) -> (b: bool)
        ensures
            b == self.model().needs_refill(),
    {
        self.queue.len() == 0 && !self.exhausted
    }

    /// Appends one message-set's payloads, in order, to the pending queue.
    fn absorb_message_set(&mut self, payloads: Vec<Vec<u8>>)
        ensures
            final(self).pending() == old(self).pending() + frame_views(payloads@),
            final(self).is_exhausted() == old(self).is_exhausted(),
    {
        let mut p = payloads;
        proof {
            assert(frame_views(self.queue@ + p@) =~= frame_views(self.queue@) + frame_views(p@));
        }
        self.queue.append(&mut p);
    }

    /// Buffers a successful poll's message-sets and returns the broker
    /// calls now owed: an acknowledgment for each message-set, in the order
    /// the broker returned them, then a single commit.
    pub fn handle_poll_success(&mut self, batch: Vec<Vec<Vec<u8>>>) -> (calls: Vec<BrokerCall>)
        requires
            old(self).model().needs_refill(),
        ensures
            final(self).model() == old(self).model().poll_step(Some(set_views(batch@))),
            calls@ == ack_then_commit(batch@.len() as nat),
    {
        let ghost orig: Seq<Seq<Seq<u8>>> = set_views(batch@);
        let mut rest = batch;
        let n_sets = rest.len();
        proof {
            assert(orig.len() == n_sets as int);
        }
        let mut calls: Vec<BrokerCall> = Vec::new();
        let mut idx: usize = 0;
        while rest.len() > 0
            invariant
                idx + rest.len() == orig.len(),
                orig.len() <= usize::MAX,
                set_views(rest@) =~= orig.skip(idx as int),
                self.pending() =~= old(self).pending() + orig.take(idx as int).flatten(),
                self.is_exhausted() == old(self).is_exhausted(),
                calls@ =~= Seq::new(idx as nat, |i: int| BrokerCall::Acknowledge { set: i as usize }),
            decreases rest.len(),
        {
            let ghost rest_before = rest@;
            let set = rest.remove(0);
            proof {
                assert(set_views(rest@) =~= set_views(rest_before).drop_first());
                assert(set_views(rest_before).drop_first() =~= orig.skip(idx as int + 1));
                assert(set_views(rest_before)[0] == frame_views(rest_before[0]@));
                assert(orig.skip(idx as int)[0] == orig[idx as int]);
                assert(frame_views(set@) == orig[idx as int]);
            }
            self.absorb_message_set(set);
            calls.push(BrokerCall::Acknowledge { set: idx });
            proof {
                orig.lemma_take_succ_push(idx as int);
                orig.take(idx as int).lemma_flatten_push(orig[idx as int]);
                assert(calls@ =~= Seq::new(
                    (idx + 1) as nat,
                    |i: int| BrokerCall::Acknowledge { set: i as usize },
                ));
            }
            idx = idx + 1;
        }
        proof {
            assert(orig.take(idx as int) =~= orig);
        }
        calls.push(BrokerCall::Commit);
        proof {
            assert(final(self).model() =~= old(self).model().poll_step(Some(orig)));
        }
        calls
    }

    /// Records that a poll failed: the stream is terminated and no frame
    /// will ever be buffered or delivered again.
    pub fn record_poll_failure(&mut self)
        requires
            old(self).model().needs_refill(),
        ensures
            final(self).model() == old(self).model().poll_step(None),
    {
        self.exhausted = true;
    }

    /// Delivers the oldest pending frame, or reports that none is buffered.
    pub fn pop_frame(&mut self) -> (r: Option<Vec<u8>>)
        ensures
            final(self).model() == old(self).model().read_step(),
            (match r {
                Some(f) => old(self).model().read_result() == Some(f@),
                None => old(self).model().read_result() is None,
            }),
    {
        if self.queue.len() > 0 {
            let f = self.queue.remove(0);
            proof {
                assert(self.pending() =~= old(self).pending().drop_first());
            }
            Some(f)
        } else {
            proof {
                assert(self.model() =~= old(self).model().read_step());
            }
            None
        }
    }
}

/// For any sequence of successful polls, the frames made deliverable are
/// exactly the concatenation of every message-set's payloads, in
/// message-set order and intra-set message order.
pub proof fn lemma_frames_are_poll_concatenation(m: StreamModel, batches: Seq<Seq<Seq<Seq<u8>>>>)
    ensures
        m.poll_batches(batches).pending == m.pending + batches.flatten().flatten(),
        m.poll_batches(batches).exhausted == m.exhausted,
    decreases batches.len(),
{
    if batches.len() == 0 {
        assert(batches.flatten() =~= Seq::<Seq<Seq<u8>>>::empty());
        assert(m.pending + batches.flatten().flatten() =~= m.pending);
    } else {
        let first = batches.first();
        let rest = batches.drop_first();
        let stepped = m.poll_step(Some(first));
        lemma_frames_are_poll_concatenation(stepped, rest);
        lemma_flatten_concat(first, rest.flatten());
        assert(batches =~= seq![first] + rest);
        lemma_flatten_concat(seq![first], rest);
        assert(seq![first].flatten() =~= first + Seq::<Seq<Seq<u8>>>::empty());
        assert(seq![first].flatten() =~= first);
        assert(batches.flatten() =~= first + rest.flatten());
        assert(m.poll_batches(batches).pending =~= m.pending + batches.flatten().flatten());
    }
}

/// Reads deliver the buffered frames in FIFO order, none reordered, none
/// dropped, none duplicated: `n` successive reads deliver exactly the first
/// `n` pending frames, and the rest stay pending, in order. Together with
/// [`lemma_frames_are_poll_concatenation`] this says that the frames a
/// caller receives are exactly the concatenation of every polled
/// message-set's payloads.
pub proof fn lemma_reads_deliver_in_order(m: StreamModel, n: nat)
    requires
        n <= m.pending.len(),
    ensures
        m.deliveries(n) == m.pending.take(n as int),
        m.read_n(n).pending == m.pending.skip(n as int),
        m.read_n(n).exhausted == m.exhausted,
    decreases n,
{
    if n == 0 {
        assert(m.deliveries(n) =~= m.pending.take(0));
        assert(m.pending.skip(0) =~= m.pending);
    } else {
        let stepped = m.read_step();
        lemma_reads_deliver_in_order(stepped, (n - 1) as nat);
        assert(m.deliveries(n) =~= m.pending.take(n as int));
        assert(stepped.pending.skip(n - 1) =~= m.pending.skip(n as int));
    }
}

/// The broker calls owed after a poll of `n` message-sets acknowledge each
/// message-set exactly once, in the order the broker returned them, and
/// commit exactly once, after the last acknowledgment.
pub proof fn lemma_ack_before_commit(n: nat)
    ensures
        ack_then_commit(n).len() == n + 1,
        forall|i: int|
            0 <= i < n ==> ack_then_commit(n)[i] == (BrokerCall::Acknowledge { set: i as usize }),
        ack_then_commit(n)[n as int] == BrokerCall::Commit,
{
}

/// While the consumer is refilling, a poll whose message-sets carry no
/// messages delivers nothing and leaves the consumer refilling: it polls
/// again rather than report end-of-stream.
pub proof fn lemma_empty_batch_polls_again(m: StreamModel, batch: Seq<Seq<Seq<u8>>>)
    requires
        m.needs_refill(),
        batch.flatten().len() == 0,
    ensures
        m.poll_step(Some(batch)).needs_refill(),
        m.poll_step(Some(batch)).read_result() is None,
{
}

/// Once a poll failure has terminated the stream, exhaustion is permanent:
/// the consumer never polls again, and every subsequent read delivers
/// nothing and leaves the state unchanged.
pub proof fn lemma_exhaustion_permanent(m: StreamModel, n: nat)
    requires
        m.needs_refill(),
    ensures
        !m.poll_step(None).needs_refill(),
        m.poll_step(None).read_n(n) == m.poll_step(None),
        m.poll_step(None).read_n(n).read_result() is None,
    decreases n,
{
    let t = m.poll_step(None);
    if n > 0 {
        assert(t.read_step() == t);
        lemma_exhaustion_permanent(m, (n - 1) as nat);
    }
}

} // verus!
