//! The causal delivery gate.
//!
//! A message that has come in over the transport is held back until its
//! light-cone delay has passed. The layer is a queue of pending packets in
//! ascending order of their deadlines; packets with the same deadline stay
//! in the order in which they were ingested. Time is a count of nanoseconds
//! on a monotonic clock that the caller reads.

use std::collections::VecDeque;
use vstd::prelude::*;
use crate::protocol::ProtocolMessage;

verus! {

/// A message together with the earliest instant at which it may be
/// released.
#[derive(Debug)]
pub struct PendingPacket {
    /// Nanoseconds on the layer's clock.
    pub available_at: u128,
    /// The message held back.
    pub msg: ProtocolMessage,
}

/// No packet of `q` has an earlier deadline than a packet before it.
pub open spec fn ascending(q: Seq<PendingPacket>) -> bool {
    forall|i: int, j: int| 0 <= i <= j < q.len() ==> q[i].available_at <= q[j].available_at
}

/// The number of packets at the front of `q` whose deadline is not after
/// `now`.
pub open spec fn due_count(q: Seq<PendingPacket>, now: u128) -> nat
    decreases q.len(),
{
    if q.len() == 0 || q[0].available_at > now {
        0
    } else {
        1 + due_count(q.drop_first(), now)
    }
}

/// The deadline of a message ingested at `now` with propagation delay
/// `delay`: their sum, or the largest instant where the sum is beyond it.
pub open spec fn deadline(now: u128, delay: u128) -> u128 {
    if now + delay > u128::MAX {
        u128::MAX
    } else {
        (now + delay) as u128
    }
}

/// The queue with `pkt` put behind every packet whose deadline is not after
/// its own.
pub open spec fn enqueue(q: Seq<PendingPacket>, pkt: PendingPacket) -> Seq<PendingPacket> {
    q.insert(due_count(q, pkt.available_at) as int, pkt)
}

/// The packets that a drain at `now` releases, in the order of release.
pub open spec fn released(q: Seq<PendingPacket>, now: u128) -> Seq<PendingPacket> {
    q.take(due_count(q, now) as int)
}

/// The packets that a drain at `now` leaves in the queue.
pub open spec fn retained(q: Seq<PendingPacket>, now: u128) -> Seq<PendingPacket> {
    q.skip(due_count(q, now) as int)
}

/// The messages of a sequence of packets.
pub open spec fn messages(q: Seq<PendingPacket>) -> Seq<ProtocolMessage> {
    q.map_values(|p: PendingPacket| p.msg)
}

/// `due_count` never counts more packets than there are.
pub proof fn lemma_due_count_bound(q: Seq<PendingPacket>, now: u128)
    ensures
        due_count(q, now) <= q.len(),
    decreases q.len(),
{
    if q.len() > 0 && q[0].available_at <= now {
        lemma_due_count_bound(q.drop_first(), now);
    }
}

/// In an ascending queue `due_count` splits the due packets from the rest:
/// every packet before the split is due, every packet from it on is not.
pub proof fn lemma_due_count_splits(q: Seq<PendingPacket>, now: u128)
    requires
        ascending(q),
    ensures
        due_count(q, now) <= q.len(),
        forall|i: int| 0 <= i < due_count(q, now) ==> (#[trigger] q[i]).available_at <= now,
        forall|i: int| due_count(q, now) <= i < q.len() ==> (#[trigger] q[i]).available_at > now,
    decreases q.len(),
{
    if q.len() > 0 {
        if q[0].available_at <= now {
            let rest = q.drop_first();
            assert forall|i: int, j: int| 0 <= i <= j < rest.len() implies rest[i].available_at
                <= rest[j].available_at by {
                assert(q[i + 1].available_at <= q[j + 1].available_at);
            }
            lemma_due_count_splits(rest, now);
            assert forall|i: int| 0 <= i < due_count(q, now) implies (#[trigger] q[i]).available_at
                <= now by {
                if i > 0 {
                    assert(rest[i - 1].available_at <= now);
                }
            }
            assert forall|i: int| due_count(q, now) <= i < q.len() implies (#[trigger] q[i]).available_at
                > now by {
                assert(rest[i - 1].available_at > now);
            }
        } else {
            assert forall|i: int| 0 <= i < q.len() implies (#[trigger] q[i]).available_at > now by {
                assert(q[0].available_at <= q[i].available_at);
            }
        }
    }
}

/// A position that splits the due packets from the rest is `due_count`.
pub proof fn lemma_split_is_due_count(q: Seq<PendingPacket>, now: u128, k: int)
    requires
        0 <= k <= q.len(),
        forall|i: int| 0 <= i < k ==> (#[trigger] q[i]).available_at <= now,
        k < q.len() ==> q[k].available_at > now,
    ensures
        due_count(q, now) == k,
    decreases q.len(),
{
    if q.len() > 0 && k > 0 {
        assert(q[0].available_at <= now);
        let rest = q.drop_first();
        assert forall|i: int| 0 <= i < k - 1 implies (#[trigger] rest[i]).available_at <= now by {
            assert(q[i + 1].available_at <= now);
        }
        lemma_split_is_due_count(rest, now, k - 1);
    }
}

/// Putting a packet into an ascending queue leaves it ascending.
pub proof fn lemma_enqueue_ascending(q: Seq<PendingPacket>, pkt: PendingPacket)
    requires
        ascending(q),
    ensures
        ascending(enqueue(q, pkt)),
        enqueue(q, pkt).len() == q.len() + 1,
{
    lemma_due_count_splits(q, pkt.available_at);
    let k = due_count(q, pkt.available_at) as int;
    let r = enqueue(q, pkt);
    assert forall|i: int, j: int| 0 <= i <= j < r.len() implies r[i].available_at
        <= r[j].available_at by {
        if i < k {
            assert(r[i] == q[i]);
        } else if i > k {
            assert(r[i] == q[i - 1]);
        }
        if j < k {
            assert(r[j] == q[j]);
        } else if j > k {
            assert(r[j] == q[j - 1]);
        }
    }
}

/// One call on the layer.
pub enum GateCall {
    /// `ingest` of `msg` at `now` with propagation delay `delay`.
    Ingest { now: u128, delay: u128, msg: ProtocolMessage },
    /// `drain` at `now`.
    Drain { now: u128 },
}

impl GateCall {
    /// The reading of the clock that the call was made with.
    pub open spec fn at(self) -> u128 {
        match self {
            GateCall::Ingest { now, .. } => now,
            GateCall::Drain { now } => now,
        }
    }
}

/// A packet that left the layer, with the instant of the drain that released
/// it.
pub struct Delivery {
    pub packet: PendingPacket,
    pub released_at: u128,
}

/// Where a sequence of calls leaves a layer that started empty: what is
/// still pending, and everything that was released, in the order of release.
pub struct GateTrace {
    pub pending: Seq<PendingPacket>,
    pub delivered: Seq<Delivery>,
}

/// The packets of `q`, each marked as released at `now`.
pub open spec fn deliveries(q: Seq<PendingPacket>, now: u128) -> Seq<Delivery> {
    q.map_values(|p: PendingPacket| Delivery { packet: p, released_at: now })
}

/// The layer after `calls`, starting empty.
pub open spec fn run(calls: Seq<GateCall>) -> GateTrace
    decreases calls.len(),
{
    if calls.len() == 0 {
        GateTrace { pending: Seq::empty(), delivered: Seq::empty() }
    } else {
        let before = run(calls.drop_last());
        match calls.last() {
            GateCall::Ingest { now, delay, msg } => GateTrace {
                pending: enqueue(
                    before.pending,
                    PendingPacket { available_at: deadline(now, delay), msg },
                ),
                delivered: before.delivered,
            },
            GateCall::Drain { now } => GateTrace {
                pending: retained(before.pending, now),
                delivered: before.delivered + deliveries(released(before.pending, now), now),
            },
        }
    }
}

/// The clock never runs backwards from one call to the next.
pub open spec fn clock_monotonic(calls: Seq<GateCall>) -> bool {
    forall|i: int, j: int| 0 <= i <= j < calls.len() ==> calls[i].at() <= calls[j].at()
}

/// What holds of a layer after any calls on a monotonic clock.
pub open spec fn orderly(t: GateTrace, last: u128) -> bool {
    &&& ascending(t.pending)
    &&& forall|i: int, j: int|
        0 <= i <= j < t.delivered.len() ==> t.delivered[i].packet.available_at
            <= t.delivered[j].packet.available_at
    &&& forall|i: int|
        0 <= i < t.delivered.len() ==> (#[trigger] t.delivered[i]).packet.available_at
            <= t.delivered[i].released_at <= last
    &&& forall|i: int, j: int|
        0 <= i < t.delivered.len() && 0 <= j < t.pending.len() ==> (#[trigger] t.delivered[i]).packet.available_at
            <= (#[trigger] t.pending[j]).available_at
}

/// After any calls on a monotonic clock the layer is orderly.
pub proof fn lemma_run_orderly(calls: Seq<GateCall>)
    requires
        clock_monotonic(calls),
        calls.len() > 0,
    ensures
        orderly(run(calls), calls.last().at()),
    decreases calls.len(),
{
    let head = calls.drop_last();
    let before = run(head);
    let after = run(calls);
    let now = calls.last().at();
    assert forall|i: int, j: int| 0 <= i <= j < head.len() implies head[i].at() <= head[j].at() by {
        assert(calls[i].at() <= calls[j].at());
    }
    if head.len() > 0 {
        lemma_run_orderly(head);
        assert(head.last() == calls[head.len() - 1]);
        assert(calls[head.len() - 1].at() <= calls[calls.len() - 1].at());
    }
    let earlier = if head.len() > 0 {
        head.last().at()
    } else {
        now
    };
    assert(orderly(before, earlier));
    assert(earlier <= now);
    match calls.last() {
        GateCall::Ingest { now, delay, msg } => {
            let pkt = PendingPacket { available_at: deadline(now, delay), msg };
            lemma_enqueue_ascending(before.pending, pkt);
            lemma_due_count_bound(before.pending, pkt.available_at);
            let k = due_count(before.pending, pkt.available_at) as int;
            assert forall|i: int, j: int|
                0 <= i < after.delivered.len() && 0 <= j < after.pending.len() implies (#[trigger] after.delivered[i]).packet.available_at
                <= (#[trigger] after.pending[j]).available_at by {
                if j < k {
                    assert(after.pending[j] == before.pending[j]);
                } else if j > k {
                    assert(after.pending[j] == before.pending[j - 1]);
                }
            }
        },
        GateCall::Drain { now } => {
            let q = before.pending;
            lemma_due_count_splits(q, now);
            let k = due_count(q, now) as int;
            let out = deliveries(released(q, now), now);
            let n = before.delivered.len() as int;
            assert forall|i: int, j: int| 0 <= i <= j < after.pending.len() implies after.pending[i].available_at
                <= after.pending[j].available_at by {
                assert(q[i + k].available_at <= q[j + k].available_at);
            }
            assert forall|i: int|
                0 <= i < after.delivered.len() implies (#[trigger] after.delivered[i]).packet.available_at
                <= after.delivered[i].released_at <= now by {
                if i >= n {
                    assert(after.delivered[i] == out[i - n]);
                    assert(out[i - n].packet == q[i - n]);
                }
            }
            assert forall|i: int, j: int| 0 <= i <= j < after.delivered.len() implies after.delivered[i].packet.available_at
                <= after.delivered[j].packet.available_at by {
                if j >= n {
                    assert(after.delivered[j].packet == q[j - n]);
                    if i >= n {
                        assert(after.delivered[i].packet == q[i - n]);
                    } else {
                        assert(after.delivered[i] == before.delivered[i]);
                    }
                }
            }
            assert forall|i: int, j: int|
                0 <= i < after.delivered.len() && 0 <= j < after.pending.len() implies (#[trigger] after.delivered[i]).packet.available_at
                <= (#[trigger] after.pending[j]).available_at by {
                assert(after.pending[j] == q[j + k]);
                if i >= n {
                    assert(after.delivered[i].packet == q[i - n]);
                } else {
                    assert(after.delivered[i] == before.delivered[i]);
                }
            }
        },
    }
}

/// Whatever the calls, the queue stays in ascending order of deadline, and
/// nothing is released before its deadline.
pub proof fn lemma_run_punctual(calls: Seq<GateCall>)
    ensures
        ascending(run(calls).pending),
        forall|i: int|
            0 <= i < run(calls).delivered.len() ==> (#[trigger] run(calls).delivered[i]).packet.available_at
                <= run(calls).delivered[i].released_at,
    decreases calls.len(),
{
    if calls.len() > 0 {
        let before = run(calls.drop_last());
        let after = run(calls);
        lemma_run_punctual(calls.drop_last());
        match calls.last() {
            GateCall::Ingest { now, delay, msg } => {
                lemma_enqueue_ascending(
                    before.pending,
                    PendingPacket { available_at: deadline(now, delay), msg },
                );
            },
            GateCall::Drain { now } => {
                let q = before.pending;
                lemma_due_count_splits(q, now);
                let k = due_count(q, now) as int;
                let n = before.delivered.len() as int;
                let out = deliveries(released(q, now), now);
                assert forall|i: int, j: int| 0 <= i <= j < after.pending.len() implies after.pending[i].available_at
                    <= after.pending[j].available_at by {
                    assert(q[i + k].available_at <= q[j + k].available_at);
                }
                assert forall|i: int|
                    0 <= i < after.delivered.len() implies (#[trigger] after.delivered[i]).packet.available_at
                    <= after.delivered[i].released_at by {
                    if i >= n {
                        assert(after.delivered[i] == out[i - n]);
                        assert(out[i - n].packet == q[i - n]);
                    } else {
                        assert(after.delivered[i] == before.delivered[i]);
                    }
                }
            },
        }
    }
}

/// Release order: in any sequence of calls on a monotonic clock, a
/// message released before another has a deadline that is not later.
pub proof fn lemma_release_order(calls: Seq<GateCall>, i: int, j: int)
    requires
        clock_monotonic(calls),
        0 <= i <= j < run(calls).delivered.len(),
    ensures
        run(calls).delivered[i].packet.available_at <= run(calls).delivered[j].packet.available_at,
{
    if calls.len() > 0 {
        lemma_run_orderly(calls);
    }
}

/// No early release: in any sequence of calls, every message that was
/// released had its deadline at or before the instant of the drain that
/// released it.
pub proof fn lemma_no_early_release(calls: Seq<GateCall>, i: int)
    requires
        0 <= i < run(calls).delivered.len(),
    ensures
        run(calls).delivered[i].packet.available_at <= run(calls).delivered[i].released_at,
{
    lemma_run_punctual(calls);
}

/// The light-cone layer: the queue of messages that are held back.
pub struct PhysicsLayer {
    buffer: VecDeque<PendingPacket>,
}

impl View for PhysicsLayer {
    type V = Seq<PendingPacket>;

    /// The pending packets in the order in which they will be released.
    closed spec fn view(&self) -> Seq<PendingPacket> {
        self.buffer@
    }
}

impl PhysicsLayer {
    /// The queue is in ascending order of deadlines.
    #[verifier::type_invariant]
    spec fn in_order(self) -> bool {
        ascending(self.buffer@)
    }

    /// An empty layer.
    pub fn new() -> (layer: Self)
        ensures
            layer@.len() == 0,
    {
        PhysicsLayer { buffer: VecDeque::new() }
    }

    /// The number of messages held back.
    pub fn len(&self) -> (n: usize)
        ensures
            n == self@.len(),
    {
        self.buffer.len()
    }

    /// The earliest deadline among the messages held back, if there is one.
    pub fn next_deadline(&self) -> (r: Option<u128>)
        ensures
            ascending(self@),
            self@.len() == 0 ==> r is None,
            self@.len() > 0 ==> r == Some(self@[0].available_at),
            forall|i: int| 0 <= i < self@.len() ==> r->0 <= (#[trigger] self@[i]).available_at,
    {
        proof {
            use_type_invariant(self);
        }
        if self.buffer.len() == 0 {
            None
        } else {
            Some(self.buffer[0].available_at)
        }
    }

    /// Schedules `msg`, received at `now`, for release once `delay`
    /// nanoseconds have passed.
    ///
    /// The deadline is `now + delay`, held at the largest instant where the
    /// sum is beyond it. The message goes behind every pending message whose
    /// deadline is not later, so equal deadlines keep the order of ingest.
    /// Its place is found by bisection.
    pub fn ingest(&mut self, msg: ProtocolMessage, now: u128, delay: u128)
        ensures
            ascending(old(self)@),
            ascending(final(self)@),
            final(self)@ == enqueue(
                old(self)@,
                (PendingPacket { available_at: deadline(now, delay), msg }),
            ),
            final(self)@.len() == old(self)@.len() + 1,
    {
        let available_at = if delay > u128::MAX - now {
            u128::MAX
        } else {
            now + delay
        };
        let pkt = PendingPacket { available_at, msg };
        proof {
            use_type_invariant(&*self);
        }
        let mut queue: VecDeque<PendingPacket> = VecDeque::new();
        std::mem::swap(&mut queue, &mut self.buffer);
        let ghost q = queue@;
        // Bisection for the first packet with a later deadline.
        let mut lo: usize = 0;
        let mut hi: usize = queue.len();
        while lo < hi
            invariant
                0 <= lo <= hi <= queue.len(),
                queue@ == q,
                ascending(q),
                forall|i: int| 0 <= i < lo ==> (#[trigger] q[i]).available_at <= available_at,
                forall|i: int| hi <= i < q.len() ==> (#[trigger] q[i]).available_at > available_at,
            decreases hi - lo,
        {
            let mid = lo + (hi - lo) / 2;
            if queue[mid].available_at <= available_at {
                assert forall|i: int| 0 <= i < mid + 1 implies (#[trigger] q[i]).available_at
                    <= available_at by {
                    assert(q[i].available_at <= q[mid as int].available_at);
                }
                lo = mid + 1;
            } else {
                assert forall|i: int| mid <= i < q.len() implies (#[trigger] q[i]).available_at
                    > available_at by {
                    assert(q[mid as int].available_at <= q[i].available_at);
                }
                hi = mid;
            }
        }
        let pos = lo;
        proof {
            lemma_split_is_due_count(q, available_at, pos as int);
            lemma_enqueue_ascending(q, pkt);
        }
        queue.insert(pos, pkt);
        self.buffer = queue;
    }

    /// Removes and returns, in ascending order of deadline, every message
    /// whose deadline is not after `now`.
    ///
    /// No message with a later deadline is returned, and none that is due is
    /// kept.
    pub fn drain(&mut self, now: u128) -> (ready: Vec<ProtocolMessage>)
        ensures
            ascending(old(self)@),
            ascending(final(self)@),
            ready@ == messages(released(old(self)@, now)),
            final(self)@ == retained(old(self)@, now),
            ready@.len() + final(self)@.len() == old(self)@.len(),
            forall|i: int| 0 <= i < ready@.len() ==> (#[trigger] old(self)@[i]).available_at <= now,
            forall|i: int| 0 <= i < final(self)@.len() ==> (#[trigger] final(self)@[i]).available_at > now,
    {
        proof {
            use_type_invariant(&*self);
        }
        let mut queue: VecDeque<PendingPacket> = VecDeque::new();
        std::mem::swap(&mut queue, &mut self.buffer);
        let ghost q = queue@;
        let mut ready: Vec<ProtocolMessage> = Vec::new();
        proof {
            lemma_due_count_splits(q, now);
            assert(messages(q.take(0)) =~= Seq::<ProtocolMessage>::empty());
            assert(q.skip(0) =~= q);
        }
        while queue.len() > 0 && queue[0].available_at <= now
            invariant
                ascending(q),
                ready@.len() <= due_count(q, now) <= q.len(),
                forall|i: int| 0 <= i < due_count(q, now) ==> (#[trigger] q[i]).available_at <= now,
                forall|i: int| due_count(q, now) <= i < q.len() ==> (#[trigger] q[i]).available_at > now,
                ready@ == messages(q.take(ready@.len() as int)),
                queue@ == q.skip(ready@.len() as int),
            decreases queue@.len(),
        {
            let ghost n = ready@.len() as int;
            assert(queue@[0] == q[n]);
            assert(n < due_count(q, now));
            match queue.pop_front() {
                Some(pkt) => {
                    ready.push(pkt.msg);
                },
                None => {},
            }
            proof {
                assert(queue@ =~= q.skip(n + 1));
                assert(ready@ =~= messages(q.take(n + 1)));
            }
        }
        proof {
            let n = ready@.len() as int;
            if n < due_count(q, now) {
                assert(queue@.len() > 0);
                assert(queue@[0] == q[n]);
            }
            assert forall|i: int, j: int| 0 <= i <= j < queue@.len() implies queue@[i].available_at
                <= queue@[j].available_at by {
                assert(q[i + n].available_at <= q[j + n].available_at);
            }
        }
        self.buffer = queue;
        ready
    }

    /// The same as [`PhysicsLayer::drain`], under the name that says what
    /// comes out: the messages that have arrived.
    pub fn drain_arrived(&mut self, now: u128) -> (ready: Vec<ProtocolMessage>)
        ensures
            ascending(old(self)@),
            ascending(final(self)@),
            ready@ == messages(released(old(self)@, now)),
            final(self)@ == retained(old(self)@, now),
            ready@.len() + final(self)@.len() == old(self)@.len(),
            forall|i: int| 0 <= i < ready@.len() ==> (#[trigger] old(self)@[i]).available_at <= now,
            forall|i: int| 0 <= i < final(self)@.len() ==> (#[trigger] final(self)@[i]).available_at > now,
    {
        self.drain(now)
    }
}

} // verus!
