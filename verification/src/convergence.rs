//! Convergence: what a replica holds in the end does not depend on the
//! order in which the events reached it.
//!
//! A replica that is offered a collection of events admits every event
//! whose ancestors are all at hand and keeps the others waiting. Two
//! replicas that started alike and were offered the same events, in any
//! order and any number of times, end with the same resident events, the
//! same edges, the same frontier and the same orphans, provided that no two
//! different events carry the same hash.

use vstd::prelude::*;
use crate::dag::DagError;
use crate::event::{EventHash, EventView};
use crate::model::{all_well_formed, lemma_parents_resident, lemma_pass, lemma_settle, ReplicaView};

verus! {

impl ReplicaView {
    /// `e` is held: resident under its hash, or waiting among the orphans.
    pub open spec fn holds(self, e: EventView) -> bool {
        (self.dag.resident(e.hash) && self.dag.events[e.hash] == e) || self.orphans.contains(e)
    }

    /// An event with hash `h` is resident or waiting.
    pub open spec fn knows(self, h: EventHash) -> bool {
        self.dag.resident(h) || self.has_orphan(h)
    }
}

/// `e` is held by `r` or is among the events of `batch`.
pub open spec fn in_play(r: ReplicaView, batch: Seq<EventView>, e: EventView) -> bool {
    r.holds(e) || batch.contains(e)
}

/// No two different events in play carry the same hash.
pub open spec fn distinct_hashes(r: ReplicaView, batch: Seq<EventView>) -> bool {
    forall|x: EventView, y: EventView|
        #[trigger] in_play(r, batch, x) && #[trigger] in_play(r, batch, y) && x.hash == y.hash
            ==> x == y
}

/// A pass only moves events from the orphans into the DAG: whatever is
/// held after it was held before it.
pub proof fn lemma_pass_provenance(r: ReplicaView, e: EventView)
    requires
        r.sound(),
        r.pass().holds(e),
    ensures
        r.holds(e),
    decreases r.orphans.len(),
{
    if r.orphans.len() > 0 {
        let last = r.orphans.last();
        let front = ReplicaView { dag: r.dag, orphans: r.orphans.drop_last() };
        let before = front.pass();
        assert forall|i: int| 0 <= i < front.orphans.len() implies (#[trigger] front.orphans[i]).well_formed() by {
            assert(r.orphans[i].well_formed());
        }
        lemma_pass(front);
        assert(r.orphans.contains(last)) by {
            assert(r.orphans[r.orphans.len() - 1] == last);
        }
        if before.holds(e) {
            lemma_pass_provenance(front, e);
            if front.orphans.contains(e) {
                let i = choose|i: int| 0 <= i < front.orphans.len() && front.orphans[i] == e;
                assert(r.orphans[i] == e);
            }
        } else {
            match before.dag.verdict(last) {
                Ok(()) => {
                    assert(e == last);
                },
                Err(DagError::MissingParent) => {
                    let kept = before.orphans.push(last);
                    let i = choose|i: int| 0 <= i < kept.len() && kept[i] == e;
                    if i < before.orphans.len() {
                        assert(before.orphans[i] == e);
                        assert(before.orphans.contains(e));
                    }
                    assert(e == last);
                },
                Err(DagError::Duplicate) => {},
            }
        }
    }
}

/// A pass loses nothing: a hash that was resident or waiting before it is
/// resident or waiting after it.
pub proof fn lemma_pass_conserves(r: ReplicaView, h: EventHash)
    requires
        r.sound(),
        r.knows(h),
    ensures
        r.pass().knows(h),
    decreases r.orphans.len(),
{
    lemma_pass(r);
    if r.dag.resident(h) {
        assert(r.pass().dag.resident(h));
    } else if r.orphans.len() > 0 {
        let last = r.orphans.last();
        let front = ReplicaView { dag: r.dag, orphans: r.orphans.drop_last() };
        let before = front.pass();
        assert forall|i: int| 0 <= i < front.orphans.len() implies (#[trigger] front.orphans[i]).well_formed() by {
            assert(r.orphans[i].well_formed());
        }
        lemma_pass(front);
        let i = choose|i: int| 0 <= i < r.orphans.len() && (#[trigger] r.orphans[i]).hash == h;
        if i < front.orphans.len() {
            assert(front.orphans[i].hash == h);
            assert(front.knows(h));
            lemma_pass_conserves(front, h);
            if before.has_orphan(h) {
                let j = choose|j: int|
                    0 <= j < before.orphans.len() && (#[trigger] before.orphans[j]).hash == h;
                match before.dag.verdict(last) {
                    Ok(()) => {
                        assert(r.pass().orphans[j].hash == h);
                    },
                    Err(DagError::MissingParent) => {
                        assert(r.pass().orphans[j].hash == h);
                    },
                    Err(DagError::Duplicate) => {},
                }
            }
        } else {
            assert(last.hash == h);
            match before.dag.verdict(last) {
                Ok(()) => {},
                Err(DagError::MissingParent) => {
                    assert(r.pass().orphans[before.orphans.len() as int].hash == h);
                },
                Err(DagError::Duplicate) => {},
            }
        }
    }
}

/// Settling only moves events from the orphans into the DAG.
pub proof fn lemma_settle_provenance(r: ReplicaView, e: EventView)
    requires
        r.sound(),
        r.settle().holds(e),
    ensures
        r.holds(e),
    decreases r.orphans.len(),
{
    let after = r.pass();
    lemma_pass(r);
    if after.orphans.len() < r.orphans.len() {
        lemma_settle_provenance(after, e);
    }
    lemma_pass_provenance(r, e);
}

/// Settling loses nothing.
pub proof fn lemma_settle_conserves(r: ReplicaView, h: EventHash)
    requires
        r.sound(),
        r.knows(h),
    ensures
        r.settle().knows(h),
    decreases r.orphans.len(),
{
    let after = r.pass();
    lemma_pass(r);
    lemma_pass_conserves(r, h);
    if after.orphans.len() < r.orphans.len() {
        lemma_settle_conserves(after, h);
    }
}

/// Whatever is held after an event was offered was held before, or is the
/// event offered.
pub proof fn lemma_absorb_provenance(r: ReplicaView, offered: EventView, e: EventView)
    requires
        r.sound(),
        offered.well_formed(),
        r.absorb(offered).holds(e),
    ensures
        r.holds(e) || e == offered,
{
    match r.dag.verdict(offered) {
        Ok(()) => {
            let mid = ReplicaView { dag: r.dag.accept(offered), orphans: r.orphans };
            crate::model::lemma_accept_well_formed(r.dag, offered);
            lemma_settle_provenance(mid, e);
        },
        Err(DagError::MissingParent) => {
            if !r.has_orphan(offered.hash) {
                let kept = r.orphans.push(offered);
                if kept.contains(e) {
                    let i = choose|i: int| 0 <= i < kept.len() && kept[i] == e;
                    if i < r.orphans.len() {
                        assert(r.orphans[i] == e);
                    }
                }
            }
        },
        Err(DagError::Duplicate) => {},
    }
}

/// Offering an event loses nothing, and the event offered is resident or
/// waiting afterwards.
pub proof fn lemma_absorb_conserves(r: ReplicaView, offered: EventView, h: EventHash)
    requires
        r.sound(),
        offered.well_formed(),
        r.knows(h) || h == offered.hash,
    ensures
        r.absorb(offered).knows(h),
{
    match r.dag.verdict(offered) {
        Ok(()) => {
            let mid = ReplicaView { dag: r.dag.accept(offered), orphans: r.orphans };
            crate::model::lemma_accept_well_formed(r.dag, offered);
            if r.has_orphan(h) {
                let i = choose|i: int| 0 <= i < r.orphans.len() && (#[trigger] r.orphans[i]).hash == h;
                assert(mid.orphans[i].hash == h);
            }
            assert(mid.knows(h));
            lemma_settle_conserves(mid, h);
        },
        Err(DagError::MissingParent) => {
            if !r.has_orphan(offered.hash) {
                let kept = r.orphans.push(offered);
                if r.has_orphan(h) {
                    let i = choose|i: int|
                        0 <= i < r.orphans.len() && (#[trigger] r.orphans[i]).hash == h;
                    assert(kept[i].hash == h);
                } else if !r.dag.resident(h) {
                    assert(kept[r.orphans.len() as int].hash == h);
                }
            }
        },
        Err(DagError::Duplicate) => {},
    }
}

/// Whatever is held after a batch was offered was held before, or is an
/// event of the batch.
pub proof fn lemma_absorb_all_provenance(r: ReplicaView, batch: Seq<EventView>, e: EventView)
    requires
        r.sound(),
        r.settled(),
        all_well_formed(batch),
        r.absorb_all(batch).holds(e),
    ensures
        in_play(r, batch, e),
    decreases batch.len(),
{
    if batch.len() > 0 {
        let front = batch.drop_last();
        let mid = r.absorb_all(front);
        assert forall|i: int| 0 <= i < front.len() implies (#[trigger] front[i]).well_formed() by {
            assert(batch[i].well_formed());
        }
        crate::model::lemma_absorb_all(r, front);
        lemma_absorb_provenance(mid, batch.last(), e);
        if mid.holds(e) {
            lemma_absorb_all_provenance(r, front, e);
            if front.contains(e) {
                let i = choose|i: int| 0 <= i < front.len() && front[i] == e;
                assert(batch[i] == e);
            }
        } else {
            assert(batch[batch.len() - 1] == e);
        }
    }
}

/// Offering a batch loses nothing, and every event of the batch is
/// resident or waiting afterwards.
pub proof fn lemma_absorb_all_conserves(r: ReplicaView, batch: Seq<EventView>, h: EventHash)
    requires
        r.sound(),
        r.settled(),
        all_well_formed(batch),
        r.knows(h) || exists|i: int| 0 <= i < batch.len() && (#[trigger] batch[i]).hash == h,
    ensures
        r.absorb_all(batch).knows(h),
    decreases batch.len(),
{
    if batch.len() > 0 {
        let front = batch.drop_last();
        let mid = r.absorb_all(front);
        assert forall|i: int| 0 <= i < front.len() implies (#[trigger] front[i]).well_formed() by {
            assert(batch[i].well_formed());
        }
        crate::model::lemma_absorb_all(r, front);
        if r.knows(h) {
            lemma_absorb_all_conserves(r, front, h);
        } else {
            let i = choose|i: int| 0 <= i < batch.len() && (#[trigger] batch[i]).hash == h;
            if i < front.len() {
                assert(front[i].hash == h);
                lemma_absorb_all_conserves(r, front, h);
            }
        }
        lemma_absorb_conserves(mid, batch.last(), h);
    }
}

/// `a` and `b` hold the same events, whatever their order and number.
pub open spec fn same_events(a: Seq<EventView>, b: Seq<EventView>) -> bool {
    forall|e: EventView| a.contains(e) <==> b.contains(e)
}

/// What two runs from one start have in common: a sound and settled start,
/// well-formed events, the same events in both batches, and no two
/// different events in play with the same hash.
pub open spec fn comparable(r: ReplicaView, first: Seq<EventView>, second: Seq<EventView>) -> bool {
    &&& r.sound()
    &&& r.settled()
    &&& all_well_formed(first)
    &&& all_well_formed(second)
    &&& same_events(first, second)
    &&& distinct_hashes(r, first)
}

/// Being comparable is symmetric in the two batches.
pub proof fn lemma_comparable_symmetric(r: ReplicaView, first: Seq<EventView>, second: Seq<EventView>)
    requires
        comparable(r, first, second),
    ensures
        comparable(r, second, first),
{
    assert forall|x: EventView, y: EventView|
        #[trigger] in_play(r, second, x) && #[trigger] in_play(r, second, y) && x.hash
            == y.hash implies x == y by {
        assert(in_play(r, first, x));
        assert(in_play(r, first, y));
    }
}

/// An event that is held by `r` or is in the batch is known in the end.
proof fn lemma_in_play_is_known(r: ReplicaView, batch: Seq<EventView>, e: EventView)
    requires
        r.sound(),
        r.settled(),
        all_well_formed(batch),
        in_play(r, batch, e),
    ensures
        r.absorb_all(batch).knows(e.hash),
{
    if r.orphans.contains(e) {
        let i = choose|i: int| 0 <= i < r.orphans.len() && r.orphans[i] == e;
        assert(r.orphans[i].hash == e.hash);
        assert(r.has_orphan(e.hash));
    }
    if batch.contains(e) {
        let i = choose|i: int| 0 <= i < batch.len() && batch[i] == e;
        assert(batch[i].hash == e.hash);
    }
    lemma_absorb_all_conserves(r, batch, e.hash);
}

/// The event admitted at position `i` of the first run is resident, with
/// the same content, at the end of the second.
pub proof fn lemma_admitted_in_both(r: ReplicaView, first: Seq<EventView>, second: Seq<EventView>, i: int)
    requires
        comparable(r, first, second),
        0 <= i < r.absorb_all(first).dag.order.len(),
    ensures
        ({
            let f1 = r.absorb_all(first);
            let f2 = r.absorb_all(second);
            let h = f1.dag.order[i];
            f2.dag.resident(h) && f2.dag.events[h] == f1.dag.events[h]
        }),
    decreases i,
{
    let f1 = r.absorb_all(first);
    let f2 = r.absorb_all(second);
    crate::model::lemma_absorb_all(r, first);
    crate::model::lemma_absorb_all(r, second);
    let h = f1.dag.order[i];
    assert(f1.dag.order.contains(h));
    assert(f1.dag.resident(h));
    let e = f1.dag.events[h];
    assert(e.hash == h);
    if !r.dag.resident(h) {
        assert(f1.holds(e));
        lemma_absorb_all_provenance(r, first, e);
        assert(in_play(r, first, e));
        assert(in_play(r, second, e));
        lemma_in_play_is_known(r, second, e);
        assert forall|p: EventHash| e.parents.contains(p) implies f2.dag.resident(p) by {
            assert(f1.dag.links(f1.dag.order[i], p));
            assert(f1.dag.admitted_before(p, i));
            let j = choose|j: int| 0 <= j < i && f1.dag.admitted_at(p, j);
            lemma_admitted_in_both(r, first, second, j);
        }
        if f2.dag.resident(h) {
            let other = f2.dag.events[h];
            assert(f2.holds(other));
            lemma_absorb_all_provenance(r, second, other);
            assert(in_play(r, first, other));
        } else {
            let k = choose|k: int| 0 <= k < f2.orphans.len() && (#[trigger] f2.orphans[k]).hash == h;
            let o = f2.orphans[k];
            assert(f2.orphans.contains(o));
            assert(f2.holds(o));
            lemma_absorb_all_provenance(r, second, o);
            assert(in_play(r, first, o));
            assert(o == e);
            assert(f2.dag.missing_parent(f2.orphans[k]));
            let p = choose|p: EventHash| o.parents.contains(p) && !f2.dag.resident(p);
            assert(f2.dag.resident(p));
        }
    }
}

/// Every event that is resident at the end of the first run is resident,
/// with the same content, at the end of the second.
pub proof fn lemma_resident_in_both(r: ReplicaView, first: Seq<EventView>, second: Seq<EventView>, h: EventHash)
    requires
        comparable(r, first, second),
        r.absorb_all(first).dag.resident(h),
    ensures
        r.absorb_all(second).dag.resident(h),
        r.absorb_all(second).dag.events[h] == r.absorb_all(first).dag.events[h],
{
    let f1 = r.absorb_all(first);
    crate::model::lemma_absorb_all(r, first);
    assert(f1.dag.order.contains(h));
    let i = choose|i: int| 0 <= i < f1.dag.order.len() && f1.dag.order[i] == h;
    lemma_admitted_in_both(r, first, second, i);
}

/// Every orphan at the end of the first run is an orphan at the end of the
/// second.
pub proof fn lemma_orphan_in_both(r: ReplicaView, first: Seq<EventView>, second: Seq<EventView>, e: EventView)
    requires
        comparable(r, first, second),
        r.absorb_all(first).orphans.contains(e),
    ensures
        r.absorb_all(second).orphans.contains(e),
{
    let f1 = r.absorb_all(first);
    let f2 = r.absorb_all(second);
    crate::model::lemma_absorb_all(r, first);
    crate::model::lemma_absorb_all(r, second);
    lemma_comparable_symmetric(r, first, second);
    assert(f1.holds(e));
    lemma_absorb_all_provenance(r, first, e);
    let at = choose|at: int| 0 <= at < f1.orphans.len() && f1.orphans[at] == e;
    assert(f1.dag.missing_parent(f1.orphans[at]));
    let missing = choose|p: EventHash| e.parents.contains(p) && !f1.dag.resident(p);
    if f2.dag.resident(e.hash) {
        lemma_resident_in_both(r, second, first, e.hash);
        let other = f2.dag.events[e.hash];
        assert(f2.holds(other));
        lemma_absorb_all_provenance(r, second, other);
        assert(in_play(r, first, other));
        assert(other == e);
        assert(f1.dag.links(e.hash, missing));
        lemma_parents_resident(f1.dag, e.hash, missing);
    }
    assert(in_play(r, second, e));
    lemma_in_play_is_known(r, second, e);
    let k = choose|k: int| 0 <= k < f2.orphans.len() && (#[trigger] f2.orphans[k]).hash == e.hash;
    let o = f2.orphans[k];
    assert(f2.orphans.contains(o));
    assert(f2.holds(o));
    lemma_absorb_all_provenance(r, second, o);
    assert(in_play(r, first, o));
    assert(o == e);
}

/// Convergence: two runs from one start that were offered the same events,
/// in any order and any number of times, end with the same resident events,
/// the same edges, the same frontier and the same orphans.
pub proof fn lemma_convergence(r: ReplicaView, first: Seq<EventView>, second: Seq<EventView>)
    requires
        comparable(r, first, second),
    ensures
        r.absorb_all(first).dag.events == r.absorb_all(second).dag.events,
        r.absorb_all(first).dag.edges == r.absorb_all(second).dag.edges,
        r.absorb_all(first).dag.heads.to_set() == r.absorb_all(second).dag.heads.to_set(),
        same_events(r.absorb_all(first).orphans, r.absorb_all(second).orphans),
{
    let f1 = r.absorb_all(first);
    let f2 = r.absorb_all(second);
    crate::model::lemma_absorb_all(r, first);
    crate::model::lemma_absorb_all(r, second);
    lemma_comparable_symmetric(r, first, second);
    assert forall|h: EventHash| #[trigger]
        f1.dag.events.contains_key(h) <==> f2.dag.events.contains_key(h) by {
        if f1.dag.resident(h) {
            lemma_resident_in_both(r, first, second, h);
        }
        if f2.dag.resident(h) {
            lemma_resident_in_both(r, second, first, h);
        }
    }
    assert forall|h: EventHash| f1.dag.events.contains_key(h) implies #[trigger] f1.dag.events[h]
        == f2.dag.events[h] by {
        lemma_resident_in_both(r, first, second, h);
    }
    assert(f1.dag.events =~= f2.dag.events);
    assert forall|c: EventHash, p: EventHash| f1.dag.edges.contains((c, p)) <==> f2.dag.edges.contains(
        (c, p),
    ) by {
        assert(f1.dag.links(c, p) <==> f2.dag.links(c, p));
    }
    assert(f1.dag.edges =~= f2.dag.edges) by {
        assert forall|pair: (EventHash, EventHash)| f1.dag.edges.contains(pair) <==> f2.dag.edges.contains(
            pair,
        ) by {
            assert(f1.dag.edges.contains((pair.0, pair.1)) <==> f2.dag.edges.contains((pair.0, pair.1)));
        }
    }
    assert forall|h: EventHash| f1.dag.heads.to_set().contains(h) <==> f2.dag.heads.to_set().contains(
        h,
    ) by {
        assert(f1.dag.heads.contains(h) <==> f1.dag.resident(h) && !f1.dag.has_child(h));
        assert(f2.dag.heads.contains(h) <==> f2.dag.resident(h) && !f2.dag.has_child(h));
        if f1.dag.has_child(h) {
            let c = choose|c: EventHash| f1.dag.links(c, h);
            assert(f2.dag.links(c, h));
        }
        if f2.dag.has_child(h) {
            let c = choose|c: EventHash| f2.dag.links(c, h);
            assert(f1.dag.links(c, h));
        }
    }
    assert(f1.dag.heads.to_set() =~= f2.dag.heads.to_set());
    assert forall|e: EventView| f1.orphans.contains(e) <==> f2.orphans.contains(e) by {
        if f1.orphans.contains(e) {
            lemma_orphan_in_both(r, first, second, e);
        }
        if f2.orphans.contains(e) {
            lemma_orphan_in_both(r, second, first, e);
        }
    }
}

} // verus!
