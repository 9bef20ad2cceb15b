//! The DAG as a mathematical value, and what holds of it.
//!
//! A [`DagView`] is the set of resident events keyed by hash, the edge set,
//! the heads in the order in which they became heads, and the order in which
//! the events were admitted. Admission is a function on such values; the
//! invariants of the store are stated and proved here once, for every
//! sequence of admissions.

use vstd::prelude::*;
use crate::dag::DagError;
use crate::event::{EventHash, EventView, OperationView};

verus! {

/// The elements of `s` that do not occur in `drop`, in their order.
pub open spec fn retain_absent(s: Seq<EventHash>, drop: Seq<EventHash>) -> Seq<EventHash>
    decreases s.len(),
{
    if s.len() == 0 {
        Seq::empty()
    } else if drop.contains(s.last()) {
        retain_absent(s.drop_last(), drop)
    } else {
        retain_absent(s.drop_last(), drop).push(s.last())
    }
}

/// Each event of `batch` has its parents in canonical order and its hash
/// in keeping with its content.
pub open spec fn all_well_formed(batch: Seq<EventView>) -> bool {
    forall|i: int| 0 <= i < batch.len() ==> (#[trigger] batch[i]).well_formed()
}

/// Mathematical value of the DAG.
pub struct DagView {
    /// The resident events, each under its hash.
    pub events: Map<EventHash, EventView>,
    /// The edges `(child, parent)`.
    pub edges: Set<(EventHash, EventHash)>,
    /// The concurrency frontier.
    pub heads: Seq<EventHash>,
    /// The hashes of the resident events in the order of their admission.
    pub order: Seq<EventHash>,
}

impl DagView {
    /// `h` is the hash of a resident event.
    pub open spec fn resident(self, h: EventHash) -> bool {
        self.events.contains_key(h)
    }

    /// The resident event `child` lists `parent` among its parents.
    pub open spec fn links(self, child: EventHash, parent: EventHash) -> bool {
        self.events.contains_key(child) && self.events[child].parents.contains(parent)
    }

    /// Some resident event lists `h` among its parents.
    pub open spec fn has_child(self, h: EventHash) -> bool {
        exists|c: EventHash| self.links(c, h)
    }

    /// `h` was admitted at position `i`.
    pub open spec fn admitted_at(self, h: EventHash, i: int) -> bool {
        0 <= i < self.order.len() && self.order[i] == h
    }

    /// `h` was admitted before position `i`.
    pub open spec fn admitted_before(self, h: EventHash, i: int) -> bool {
        exists|j: int| 0 <= j < i && self.admitted_at(h, j)
    }

    /// Some parent of `e` is not resident.
    pub open spec fn missing_parent(self, e: EventView) -> bool {
        exists|p: EventHash| e.parents.contains(p) && !self.resident(p)
    }

    /// The invariants of the store.
    ///
    /// Every event stands under its own hash, which is the digest of its
    /// content, has its parents in canonical order, and was admitted exactly
    /// once;
    /// every parent of an event was admitted before it; the edges are the
    /// parent links; the heads are the resident events without a child, each
    /// once; the first event admitted is the genesis.
    pub open spec fn well_formed(self) -> bool {
        &&& self.order.no_duplicates()
        &&& forall|h: EventHash|
            #![trigger self.order.contains(h)]
            #![trigger self.resident(h)]
            self.order.contains(h) <==> self.resident(h)
        &&& forall|h: EventHash|
            self.resident(h) ==> (#[trigger] self.events[h]).hash == h && self.events[h].well_formed()
        &&& forall|i: int, p: EventHash|
            0 <= i < self.order.len() && self.links(#[trigger] self.order[i], p)
                ==> #[trigger] self.admitted_before(p, i)
        &&& forall|c: EventHash, p: EventHash|
            #![trigger self.edges.contains((c, p))]
            #![trigger self.links(c, p)]
            self.edges.contains((c, p)) <==> self.links(c, p)
        &&& self.heads.no_duplicates()
        &&& forall|h: EventHash|
            #![trigger self.heads.contains(h)]
            #![trigger self.has_child(h)]
            self.heads.contains(h) <==> self.resident(h) && !self.has_child(h)
        &&& self.order.len() > 0
        &&& self.events[self.order[0]].payload == OperationView::Genesis
    }

    /// The DAG that holds `genesis` and nothing else.
    pub open spec fn initial(genesis: EventView) -> DagView {
        DagView {
            events: Map::empty().insert(genesis.hash, genesis),
            edges: Set::empty(),
            heads: seq![genesis.hash],
            order: seq![genesis.hash],
        }
    }

    /// The DAG after `e` was admitted: the event and its edges are added,
    /// its parents leave the heads, and its hash becomes the last head.
    pub open spec fn accept(self, e: EventView) -> DagView {
        DagView {
            events: self.events.insert(e.hash, e),
            edges: self.edges.union(
                Set::new(|pair: (EventHash, EventHash)| pair.0 == e.hash && e.parents.contains(pair.1)),
            ),
            heads: retain_absent(self.heads, e.parents).push(e.hash),
            order: self.order.push(e.hash),
        }
    }

    /// What offering `e` gives: `MissingParent` where a parent is not
    /// resident, else `Duplicate` where the hash is resident, else admission.
    pub open spec fn verdict(self, e: EventView) -> Result<(), DagError> {
        if self.missing_parent(e) {
            Err(DagError::MissingParent)
        } else if self.resident(e.hash) {
            Err(DagError::Duplicate)
        } else {
            Ok(())
        }
    }

    /// The DAG after `e` was offered: changed only where `e` is admitted.
    pub open spec fn offer(self, e: EventView) -> DagView {
        if self.verdict(e) is Ok {
            self.accept(e)
        } else {
            self
        }
    }

    /// The DAG after each event of `batch` was offered in turn.
    pub open spec fn offer_all(self, batch: Seq<EventView>) -> DagView
        decreases batch.len(),
    {
        if batch.len() == 0 {
            self
        } else {
            self.offer_all(batch.drop_last()).offer(batch.last())
        }
    }

    /// `path` leads from a resident event through parent links: each element
    /// but the first is a parent of the one before it.
    pub open spec fn parent_chain(self, path: Seq<EventHash>) -> bool {
        &&& path.len() >= 2
        &&& forall|i: int| 0 <= i < path.len() - 1 ==> self.links(#[trigger] path[i], path[i + 1])
    }

    /// `a` is reached from `h` by one or more parent links.
    pub open spec fn is_ancestor(self, a: EventHash, h: EventHash) -> bool {
        exists|path: Seq<EventHash>| #[trigger]
            self.parent_chain(path) && path.first() == h && path.last() == a
    }

    /// The transitive parents of `h`.
    pub open spec fn transitive_parents(self, h: EventHash) -> Set<EventHash> {
        Set::new(|a: EventHash| self.is_ancestor(a, h))
    }

    /// The causal closure of `h`: the event itself and its transitive
    /// parents, as far as they are resident.
    pub open spec fn causal_closure(self, h: EventHash) -> Set<EventHash> {
        Set::new(|a: EventHash| self.resident(a) && (a == h || self.is_ancestor(a, h)))
    }
}

/// What `retain_absent` keeps: the elements of `s` that `drop` lacks.
pub proof fn lemma_retain_absent_contains(s: Seq<EventHash>, drop: Seq<EventHash>, h: EventHash)
    ensures
        retain_absent(s, drop).contains(h) <==> s.contains(h) && !drop.contains(h),
    decreases s.len(),
{
    if s.len() > 0 {
        let r = retain_absent(s.drop_last(), drop);
        lemma_retain_absent_contains(s.drop_last(), drop, h);
        if s.contains(h) {
            let i = choose|i: int| 0 <= i < s.len() && s[i] == h;
            if i < s.len() - 1 {
                assert(s.drop_last()[i] == h);
            }
        }
        if s.drop_last().contains(h) {
            let i = choose|i: int| 0 <= i < s.drop_last().len() && s.drop_last()[i] == h;
            assert(s[i] == h);
        }
        if !drop.contains(s.last()) {
            let out = r.push(s.last());
            if out.contains(h) {
                let i = choose|i: int| 0 <= i < out.len() && out[i] == h;
                if i < r.len() {
                    assert(r[i] == h);
                }
            }
            if r.contains(h) {
                let i = choose|i: int| 0 <= i < r.len() && r[i] == h;
                assert(out[i] == h);
            }
            if h == s.last() {
                assert(out[r.len() as int] == h);
                assert(s[s.len() - 1] == h);
            }
        }
    }
}

/// `retain_absent` keeps a sequence free of duplicates so.
pub proof fn lemma_retain_absent_no_duplicates(s: Seq<EventHash>, drop: Seq<EventHash>)
    requires
        s.no_duplicates(),
    ensures
        retain_absent(s, drop).no_duplicates(),
    decreases s.len(),
{
    if s.len() > 0 {
        let r = retain_absent(s.drop_last(), drop);
        lemma_retain_absent_no_duplicates(s.drop_last(), drop);
        if !drop.contains(s.last()) {
            lemma_retain_absent_contains(s.drop_last(), drop, s.last());
            if s.drop_last().contains(s.last()) {
                let i = choose|i: int| 0 <= i < s.drop_last().len() && s.drop_last()[i] == s.last();
                assert(s[i] == s[s.len() - 1]);
            }
            assert(!r.contains(s.last()));
            let out = r.push(s.last());
            assert forall|i: int, j: int| 0 <= i < out.len() && 0 <= j < out.len() && i != j implies out[i]
                != out[j] by {
                if i < r.len() && j >= r.len() {
                    assert(r.contains(out[i]));
                } else if j < r.len() && i >= r.len() {
                    assert(r.contains(out[j]));
                }
            }
        }
    }
}

/// The DAG that holds only a parentless genesis is well formed.
pub proof fn lemma_initial_well_formed(genesis: EventView)
    requires
        genesis.parents.len() == 0,
        genesis.payload == OperationView::Genesis,
        genesis.well_formed(),
    ensures
        DagView::initial(genesis).well_formed(),
{
    let v = DagView::initial(genesis);
    let g = genesis.hash;
    assert(v.order[0] == g);
    assert forall|h: EventHash|
        #![trigger v.order.contains(h)]
        #![trigger v.resident(h)]
        v.order.contains(h) <==> v.resident(h) by {
        if v.resident(h) {
            assert(v.order[0] == h);
        }
    }
    assert forall|h: EventHash| !v.has_child(h) by {
        if v.has_child(h) {
            let c = choose|c: EventHash| v.links(c, h);
            assert(v.events[c].parents.contains(h));
        }
    }
    assert forall|h: EventHash|
        #![trigger v.heads.contains(h)]
        #![trigger v.has_child(h)]
        v.heads.contains(h) <==> v.resident(h) && !v.has_child(h) by {
        if v.resident(h) {
            assert(v.heads[0] == h);
        }
    }
    assert forall|i: int, p: EventHash|
        0 <= i < v.order.len() && v.links(#[trigger] v.order[i], p) implies #[trigger] v.admitted_before(
        p,
        i,
    ) by {
        assert(v.events[g].parents.contains(p));
    }
    assert forall|c: EventHash, p: EventHash|
        #![trigger v.edges.contains((c, p))]
        #![trigger v.links(c, p)]
        v.edges.contains((c, p)) <==> v.links(c, p) by {
        if v.links(c, p) {
            assert(v.events[g].parents.contains(p));
        }
    }
}

/// Admission keeps the invariants: where every parent of `e` is resident
/// and its hash is not, the DAG with `e` admitted is well formed.
pub proof fn lemma_accept_well_formed(v: DagView, e: EventView)
    requires
        v.well_formed(),
        e.well_formed(),
        v.verdict(e) is Ok,
    ensures
        v.accept(e).well_formed(),
{
    let w = v.accept(e);
    let n = v.order.len() as int;
    assert(!v.missing_parent(e));
    assert(!v.resident(e.hash));
    assert forall|p: EventHash| e.parents.contains(p) implies v.resident(p) && p != e.hash by {
        if !v.resident(p) {
            assert(e.parents.contains(p) && !v.resident(p));
        }
    }
    // No resident event lists the newcomer: parents are admitted before
    // their children, and the newcomer was not admitted.
    assert forall|c: EventHash| v.resident(c) implies !v.events[c].parents.contains(e.hash) by {
        if v.events[c].parents.contains(e.hash) {
            assert(v.order.contains(c));
            let i = choose|i: int| 0 <= i < v.order.len() && v.order[i] == c;
            assert(v.links(v.order[i], e.hash));
            assert(v.admitted_before(e.hash, i));
            let j = choose|j: int| 0 <= j < i && v.admitted_at(e.hash, j);
            assert(v.order.contains(e.hash));
        }
    }
    assert(!v.order.contains(e.hash));
    assert(w.order.no_duplicates()) by {
        assert forall|i: int, j: int| 0 <= i < w.order.len() && 0 <= j < w.order.len() && i != j implies w.order[i]
            != w.order[j] by {
            if i < n && j >= n {
                assert(v.order.contains(w.order[i]));
            } else if j < n && i >= n {
                assert(v.order.contains(w.order[j]));
            }
        }
    }
    assert forall|h: EventHash|
        #![trigger w.order.contains(h)]
        #![trigger w.resident(h)]
        w.order.contains(h) <==> w.resident(h) by {
        if w.order.contains(h) {
            let i = choose|i: int| 0 <= i < w.order.len() && w.order[i] == h;
            if i < n {
                assert(v.order.contains(h));
            }
        }
        if w.resident(h) {
            if h == e.hash {
                assert(w.order[n] == h);
            } else {
                assert(v.order.contains(h));
                let i = choose|i: int| 0 <= i < v.order.len() && v.order[i] == h;
                assert(w.order[i] == h);
            }
        }
    }
    assert forall|h: EventHash| w.resident(h) implies (#[trigger] w.events[h]).hash == h
        && w.events[h].well_formed() by {
        if h != e.hash {
            assert(v.events[h].hash == h);
        }
    }
    assert forall|i: int, p: EventHash|
        0 <= i < w.order.len() && w.links(#[trigger] w.order[i], p) implies #[trigger] w.admitted_before(
        p,
        i,
    ) by {
        if i < n {
            let c = v.order[i];
            assert(v.order.contains(c));
            assert(c != e.hash);
            assert(v.links(v.order[i], p));
            assert(v.admitted_before(p, i));
            let j = choose|j: int| 0 <= j < i && v.admitted_at(p, j);
            assert(w.admitted_at(p, j));
        } else {
            assert(e.parents.contains(p));
            assert(v.order.contains(p));
            let j = choose|j: int| 0 <= j < v.order.len() && v.order[j] == p;
            assert(w.admitted_at(p, j));
        }
    }
    assert forall|c: EventHash, p: EventHash|
        #![trigger w.edges.contains((c, p))]
        #![trigger w.links(c, p)]
        w.edges.contains((c, p)) <==> w.links(c, p) by {
        if c == e.hash {
            assert(!v.links(c, p));
            assert(!v.edges.contains((c, p)));
        } else {
            assert(v.edges.contains((c, p)) <==> v.links(c, p));
        }
    }
    lemma_retain_absent_no_duplicates(v.heads, e.parents);
    let kept = retain_absent(v.heads, e.parents);
    lemma_retain_absent_contains(v.heads, e.parents, e.hash);
    assert(!v.heads.contains(e.hash));
    assert(w.heads.no_duplicates()) by {
        assert forall|i: int, j: int| 0 <= i < w.heads.len() && 0 <= j < w.heads.len() && i != j implies w.heads[i]
            != w.heads[j] by {
            if i < kept.len() && j >= kept.len() {
                assert(kept.contains(w.heads[i]));
            } else if j < kept.len() && i >= kept.len() {
                assert(kept.contains(w.heads[j]));
            }
        }
    }
    assert forall|h: EventHash|
        #![trigger w.heads.contains(h)]
        #![trigger w.has_child(h)]
        w.heads.contains(h) <==> w.resident(h) && !w.has_child(h) by {
        lemma_retain_absent_contains(v.heads, e.parents, h);
        if w.heads.contains(h) {
            let i = choose|i: int| 0 <= i < w.heads.len() && w.heads[i] == h;
            if i < kept.len() {
                assert(kept.contains(h));
                assert(v.heads.contains(h));
                assert(v.resident(h) && !v.has_child(h));
                if w.has_child(h) {
                    let c = choose|c: EventHash| w.links(c, h);
                    if c != e.hash {
                        assert(v.links(c, h));
                    }
                }
            } else {
                if w.has_child(h) {
                    let c = choose|c: EventHash| w.links(c, h);
                    if c != e.hash {
                        assert(v.resident(c));
                    }
                }
            }
        }
        if w.resident(h) && !w.has_child(h) {
            if h == e.hash {
                assert(w.heads[kept.len() as int] == h);
            } else {
                assert(v.resident(h));
                if v.has_child(h) {
                    let c = choose|c: EventHash| v.links(c, h);
                    assert(c != e.hash);
                    assert(w.links(c, h));
                }
                assert(v.heads.contains(h));
                if e.parents.contains(h) {
                    assert(w.links(e.hash, h));
                }
                assert(kept.contains(h));
                let i = choose|i: int| 0 <= i < kept.len() && kept[i] == h;
                assert(w.heads[i] == h);
            }
        }
    }
    assert(w.order[0] == v.order[0]);
    assert(v.order.contains(v.order[0]));
}

/// Offering an event keeps the invariants, whatever the verdict.
pub proof fn lemma_offer_well_formed(v: DagView, e: EventView)
    requires
        v.well_formed(),
        e.well_formed(),
    ensures
        v.offer(e).well_formed(),
{
    if v.verdict(e) is Ok {
        lemma_accept_well_formed(v, e);
    }
}

/// Offering a batch keeps the invariants.
pub proof fn lemma_offer_all_well_formed(v: DagView, batch: Seq<EventView>)
    requires
        v.well_formed(),
        all_well_formed(batch),
    ensures
        v.offer_all(batch).well_formed(),
    decreases batch.len(),
{
    if batch.len() > 0 {
        assert forall|i: int| 0 <= i < batch.drop_last().len() implies (#[trigger] batch.drop_last()[i]).well_formed() by {
            assert(batch[i].well_formed());
        }
        lemma_offer_all_well_formed(v, batch.drop_last());
        lemma_offer_well_formed(v.offer_all(batch.drop_last()), batch.last());
    }
}

/// Monotonic growth, one step: offering an event removes no resident event,
/// changes none, and removes no edge.
pub proof fn lemma_offer_grows(v: DagView, e: EventView)
    requires
        v.well_formed(),
    ensures
        forall|h: EventHash|
            v.resident(h) ==> v.offer(e).resident(h) && v.offer(e).events[h] == v.events[h],
        v.edges.subset_of(v.offer(e).edges),
        forall|i: int| 0 <= i < v.order.len() ==> v.offer(e).order[i] == v.order[i],
        v.order.len() <= v.offer(e).order.len(),
{
}

/// Monotonic growth: after any sequence of offers, every event that was
/// resident is resident and unchanged, and every edge is still there.
pub proof fn lemma_monotonic_growth(v: DagView, batch: Seq<EventView>)
    requires
        v.well_formed(),
        all_well_formed(batch),
    ensures
        forall|h: EventHash|
            v.resident(h) ==> v.offer_all(batch).resident(h) && v.offer_all(batch).events[h]
                == v.events[h],
        v.edges.subset_of(v.offer_all(batch).edges),
    decreases batch.len(),
{
    if batch.len() > 0 {
        let mid = v.offer_all(batch.drop_last());
        assert forall|i: int| 0 <= i < batch.drop_last().len() implies (#[trigger] batch.drop_last()[i]).well_formed() by {
            assert(batch[i].well_formed());
        }
        lemma_monotonic_growth(v, batch.drop_last());
        lemma_offer_all_well_formed(v, batch.drop_last());
        lemma_offer_grows(mid, batch.last());
    }
}

/// Head correctness: in a well-formed DAG the heads are exactly the
/// resident events that no resident event lists as a parent.
pub proof fn lemma_heads_are_frontier(v: DagView)
    requires
        v.well_formed(),
    ensures
        v.heads.to_set() == Set::new(
            |h: EventHash|
                v.resident(h) && forall|c: EventHash|
                    v.resident(c) ==> !v.events[c].parents.contains(h),
        ),
        v.heads.no_duplicates(),
{
    let frontier = Set::new(
        |h: EventHash|
            v.resident(h) && forall|c: EventHash| v.resident(c) ==> !v.events[c].parents.contains(h),
    );
    assert forall|h: EventHash| v.heads.to_set().contains(h) <==> frontier.contains(h) by {
        assert(v.heads.contains(h) <==> v.resident(h) && !v.has_child(h));
        if v.has_child(h) {
            let c = choose|c: EventHash| v.links(c, h);
            assert(v.resident(c) && v.events[c].parents.contains(h));
        }
        if v.resident(h) && !v.has_child(h) {
            assert forall|c: EventHash| v.resident(c) implies !v.events[c].parents.contains(h) by {
                if v.events[c].parents.contains(h) {
                    assert(v.links(c, h));
                }
            }
        }
    }
    assert(v.heads.to_set() =~= frontier);
}

/// Head correctness for every sequence of admissions: starting from a
/// genesis and offering any events in turn, the heads are the frontier.
pub proof fn lemma_heads_after_any_sequence(genesis: EventView, batch: Seq<EventView>)
    requires
        genesis.parents.len() == 0,
        genesis.payload == OperationView::Genesis,
        genesis.well_formed(),
        all_well_formed(batch),
    ensures
        ({
            let v = DagView::initial(genesis).offer_all(batch);
            &&& v.well_formed()
            &&& forall|h: EventHash|
                #![trigger v.heads.contains(h)]
                v.heads.contains(h) <==> v.resident(h) && !v.has_child(h)
        }),
{
    lemma_initial_well_formed(genesis);
    lemma_offer_all_well_formed(DagView::initial(genesis), batch);
}

/// Along parent links the position of admission strictly falls: the last
/// element of a chain that starts at position `i` was admitted before `i`.
pub proof fn lemma_chain_descends(v: DagView, path: Seq<EventHash>, i: int)
    requires
        v.well_formed(),
        v.parent_chain(path),
        v.admitted_at(path.first(), i),
    ensures
        v.admitted_before(path.last(), i),
    decreases path.len(),
{
    assert(v.links(path[0], path[1]));
    assert(v.links(v.order[i], path[1]));
    assert(v.admitted_before(path[1], i));
    let j = choose|j: int| 0 <= j < i && v.admitted_at(path[1], j);
    if path.len() == 2 {
        assert(path.last() == path[1]);
    } else {
        let rest = path.drop_first();
        assert forall|k: int| 0 <= k < rest.len() - 1 implies v.links(#[trigger] rest[k], rest[k + 1]) by {
            assert(v.links(path[k + 1], path[k + 2]));
        }
        assert(rest.first() == path[1]);
        assert(rest.last() == path.last());
        lemma_chain_descends(v, rest, j);
        let k = choose|k: int| 0 <= k < j && v.admitted_at(path.last(), k);
        assert(0 <= k < i && v.admitted_at(path.last(), k));
    }
}

/// Acyclicity: in a well-formed DAG no resident event is among its own
/// transitive parents.
pub proof fn lemma_acyclic(v: DagView, h: EventHash)
    requires
        v.well_formed(),
        v.resident(h),
    ensures
        !v.transitive_parents(h).contains(h),
{
    if v.is_ancestor(h, h) {
        let path = choose|path: Seq<EventHash>| #[trigger]
            v.parent_chain(path) && path.first() == h && path.last() == h;
        assert(v.order.contains(h));
        let i = choose|i: int| 0 <= i < v.order.len() && v.order[i] == h;
        lemma_chain_descends(v, path, i);
        let j = choose|j: int| 0 <= j < i && v.admitted_at(h, j);
        assert(v.order[i] == v.order[j]);
    }
}

/// Every transitive parent of a resident event is resident.
pub proof fn lemma_ancestors_resident(v: DagView, a: EventHash, h: EventHash)
    requires
        v.well_formed(),
        v.is_ancestor(a, h),
    ensures
        v.resident(h),
        v.resident(a),
{
    let path = choose|path: Seq<EventHash>| #[trigger]
        v.parent_chain(path) && path.first() == h && path.last() == a;
    assert(v.links(path[0], path[1]));
    assert(v.order.contains(h));
    let i = choose|i: int| 0 <= i < v.order.len() && v.order[i] == h;
    lemma_chain_descends(v, path, i);
    let j = choose|j: int| 0 <= j < i && v.admitted_at(a, j);
    assert(v.order.contains(a));
}

/// A parent of a resident event is resident.
pub proof fn lemma_parents_resident(v: DagView, c: EventHash, p: EventHash)
    requires
        v.well_formed(),
        v.links(c, p),
    ensures
        v.resident(p),
{
    assert(v.resident(c));
    assert(v.order.contains(c));
    let i = choose|i: int| 0 <= i < v.order.len() && v.order[i] == c;
    assert(v.links(v.order[i], p));
    assert(v.admitted_before(p, i));
    let j = choose|j: int| 0 <= j < i && v.admitted_at(p, j);
    assert(v.order.contains(p));
}

/// Only a resident event has a causal closure.
pub proof fn lemma_closure_of_stranger(v: DagView, h: EventHash)
    requires
        !v.resident(h),
    ensures
        v.causal_closure(h) == Set::<EventHash>::empty(),
{
    assert forall|a: EventHash| !v.causal_closure(h).contains(a) by {
        if v.is_ancestor(a, h) {
            let path = choose|path: Seq<EventHash>| #[trigger]
                v.parent_chain(path) && path.first() == h && path.last() == a;
            assert(v.links(path[0], path[1]));
        }
    }
    assert(v.causal_closure(h) =~= Set::<EventHash>::empty());
}

/// The causal closure is closed under parent links.
pub proof fn lemma_closure_step(v: DagView, h: EventHash, a: EventHash, p: EventHash)
    requires
        v.well_formed(),
        v.causal_closure(h).contains(a),
        v.links(a, p),
    ensures
        v.causal_closure(h).contains(p),
{
    lemma_parents_resident(v, a, p);
    if a == h {
        let path = seq![h, p];
        assert(v.parent_chain(path) && path.first() == h && path.last() == p);
    } else {
        let upto = choose|path: Seq<EventHash>| #[trigger]
            v.parent_chain(path) && path.first() == h && path.last() == a;
        let path = upto.push(p);
        assert forall|i: int| 0 <= i < path.len() - 1 implies v.links(#[trigger] path[i], path[i + 1]) by {
            if i < upto.len() - 1 {
                assert(v.links(upto[i], upto[i + 1]));
            }
        }
        assert(v.parent_chain(path) && path.first() == h && path.last() == p);
    }
}

/// A set that is closed under parent links holds every element of a chain
/// that starts in it.
pub proof fn lemma_chain_within(v: DagView, path: Seq<EventHash>, s: Set<EventHash>, k: int)
    requires
        v.parent_chain(path),
        s.contains(path.first()),
        forall|x: EventHash, p: EventHash| s.contains(x) && #[trigger] v.links(x, p) ==> s.contains(p),
        0 <= k < path.len(),
    ensures
        s.contains(path[k]),
    decreases k,
{
    if k > 0 {
        lemma_chain_within(v, path, s, k - 1);
        assert(v.links(path[k - 1], path[k]));
    }
}

/// A set that holds `h` and is closed under parent links holds the causal
/// closure of `h`.
pub proof fn lemma_closure_covered(v: DagView, h: EventHash, s: Set<EventHash>)
    requires
        s.contains(h),
        forall|x: EventHash, p: EventHash| s.contains(x) && #[trigger] v.links(x, p) ==> s.contains(p),
    ensures
        v.causal_closure(h).subset_of(s),
{
    assert forall|a: EventHash| v.causal_closure(h).contains(a) implies s.contains(a) by {
        if a != h {
            let path = choose|path: Seq<EventHash>| #[trigger]
                v.parent_chain(path) && path.first() == h && path.last() == a;
            lemma_chain_within(v, path, s, path.len() - 1);
        }
    }
}

/// A sequence without duplicates whose elements all occur in another is
/// not the longer of the two.
pub proof fn lemma_distinct_within(s: Seq<EventHash>, t: Seq<EventHash>)
    requires
        s.no_duplicates(),
        forall|i: int| 0 <= i < s.len() ==> t.contains(#[trigger] s[i]),
    ensures
        s.len() <= t.len(),
{
    s.unique_seq_to_set();
    t.lemma_cardinality_of_set();
    vstd::seq_lib::seq_to_set_is_finite(t);
    assert(s.to_set().subset_of(t.to_set())) by {
        assert forall|x: EventHash| s.to_set().contains(x) implies t.to_set().contains(x) by {
            let i = choose|i: int| 0 <= i < s.len() && s[i] == x;
            assert(t.contains(s[i]));
        }
    }
    vstd::set_lib::lemma_len_subset(s.to_set(), t.to_set());
}

/// Offering an event that is already resident changes nothing.
pub proof fn lemma_readmission_is_idle(v: DagView, e: EventView)
    requires
        v.resident(e.hash),
    ensures
        v.offer(e) == v,
        v.verdict(e) is Err,
{
}

/// What a replica holds: its DAG, and the orphans, events that were offered
/// while a parent of theirs was missing, in the order in which they came.
pub struct ReplicaView {
    pub dag: DagView,
    pub orphans: Seq<EventView>,
}

impl ReplicaView {
    /// An orphan with hash `h` is waiting.
    pub open spec fn has_orphan(self, h: EventHash) -> bool {
        exists|i: int| 0 <= i < self.orphans.len() && (#[trigger] self.orphans[i]).hash == h
    }

    /// One pass over the orphans, in their order: each is offered to the
    /// DAG as it stands by then. An orphan that is admitted leaves the
    /// orphans, and so does one that is resident by now; one with a parent
    /// still missing stays.
    pub open spec fn pass(self) -> ReplicaView
        decreases self.orphans.len(),
    {
        if self.orphans.len() == 0 {
            self
        } else {
            let e = self.orphans.last();
            let before = (ReplicaView { dag: self.dag, orphans: self.orphans.drop_last() }).pass();
            match before.dag.verdict(e) {
                Ok(()) => ReplicaView { dag: before.dag.accept(e), orphans: before.orphans },
                Err(DagError::MissingParent) => ReplicaView {
                    dag: before.dag,
                    orphans: before.orphans.push(e),
                },
                Err(DagError::Duplicate) => before,
            }
        }
    }

    /// Passes over the orphans, repeated until one lets no orphan go.
    pub open spec fn settle(self) -> ReplicaView
        decreases self.orphans.len(),
    {
        let after = self.pass();
        if after.orphans.len() < self.orphans.len() {
            after.settle()
        } else {
            after
        }
    }

    /// The replica after `e` was offered. Where `e` is admitted, the orphans
    /// that waited for it, and those that waited for them, are admitted
    /// too. Where a parent of `e` is missing, `e` joins the orphans, unless
    /// an orphan with its hash is waiting already. Where `e` is resident,
    /// nothing changes.
    pub open spec fn absorb(self, e: EventView) -> ReplicaView {
        match self.dag.verdict(e) {
            Ok(()) => (ReplicaView { dag: self.dag.accept(e), orphans: self.orphans }).settle(),
            Err(DagError::MissingParent) => if self.has_orphan(e.hash) {
                self
            } else {
                ReplicaView { dag: self.dag, orphans: self.orphans.push(e) }
            },
            Err(DagError::Duplicate) => self,
        }
    }

    /// The replica after each event of `batch` was offered in turn.
    pub open spec fn absorb_all(self, batch: Seq<EventView>) -> ReplicaView
        decreases batch.len(),
    {
        if batch.len() == 0 {
            self
        } else {
            self.absorb_all(batch.drop_last()).absorb(batch.last())
        }
    }

    /// `later` has grown out of `self` by admissions alone: the DAG is well
    /// formed, and the events admitted before are the first of its order.
    pub open spec fn grown_into(self, later: ReplicaView) -> bool {
        &&& later.dag.well_formed()
        &&& self.dag.order.len() <= later.dag.order.len()
        &&& later.dag.order.take(self.dag.order.len() as int) == self.dag.order
        &&& forall|h: EventHash|
            self.dag.resident(h) ==> later.dag.resident(h) && later.dag.events[h]
                == self.dag.events[h]
        &&& self.dag.edges.subset_of(later.dag.edges)
    }

    /// No orphan could be admitted as the DAG stands: each has a parent
    /// that is not resident.
    pub open spec fn settled(self) -> bool {
        forall|i: int|
            0 <= i < self.orphans.len() ==> self.dag.missing_parent(#[trigger] self.orphans[i])
    }

    /// The DAG meets its invariants, and every orphan has its parents in
    /// canonical order and its hash in keeping with its content.
    pub open spec fn sound(self) -> bool {
        &&& self.dag.well_formed()
        &&& all_well_formed(self.orphans)
    }
}

/// Accepting an event grows the replica.
pub proof fn lemma_accept_grows(v: DagView, e: EventView, orphans: Seq<EventView>, kept: Seq<EventView>)
    requires
        v.well_formed(),
        e.well_formed(),
        v.verdict(e) is Ok,
    ensures
        (ReplicaView { dag: v, orphans }).grown_into(ReplicaView { dag: v.accept(e), orphans: kept }),
{
    lemma_accept_well_formed(v, e);
    assert(v.accept(e).order.take(v.order.len() as int) =~= v.order);
}

/// Growth is transitive.
pub proof fn lemma_grown_transitive(a: ReplicaView, b: ReplicaView, c: ReplicaView)
    requires
        a.grown_into(b),
        b.grown_into(c),
    ensures
        a.grown_into(c),
{
    assert(c.dag.order.take(a.dag.order.len() as int) =~= a.dag.order) by {
        assert forall|i: int| 0 <= i < a.dag.order.len() implies c.dag.order[i] == a.dag.order[i] by {
            assert(b.dag.order.take(a.dag.order.len() as int)[i] == a.dag.order[i]);
            assert(c.dag.order.take(b.dag.order.len() as int)[i] == b.dag.order[i]);
        }
    }
}

/// A pass grows the replica and lets no orphan in.
pub proof fn lemma_pass(r: ReplicaView)
    requires
        r.sound(),
    ensures
        r.grown_into(r.pass()),
        r.pass().sound(),
        r.pass().orphans.len() <= r.orphans.len(),
        r.pass().orphans.len() == r.orphans.len() ==> r.pass() == r && r.settled(),
    decreases r.orphans.len(),
{
    if r.orphans.len() == 0 {
        assert(r.dag.order.take(r.dag.order.len() as int) =~= r.dag.order);
    } else {
        let e = r.orphans.last();
        let front = ReplicaView { dag: r.dag, orphans: r.orphans.drop_last() };
        let before = front.pass();
        assert(e.well_formed());
        assert forall|i: int| 0 <= i < front.orphans.len() implies (#[trigger] front.orphans[i]).well_formed() by {
            assert(r.orphans[i].well_formed());
        }
        lemma_pass(front);
        assert(r.dag.order.take(r.dag.order.len() as int) =~= r.dag.order);
        match before.dag.verdict(e) {
            Ok(()) => {
                lemma_accept_grows(before.dag, e, before.orphans, before.orphans);
                lemma_grown_transitive(front, before, r.pass());
            },
            Err(DagError::MissingParent) => {
                assert forall|i: int| 0 <= i < r.pass().orphans.len() implies (#[trigger] r.pass().orphans[i]).well_formed() by {
                    if i < before.orphans.len() {
                        assert(before.orphans[i].well_formed());
                    }
                }
                if r.pass().orphans.len() == r.orphans.len() {
                    assert(before == front);
                    assert(r.pass().orphans =~= r.orphans);
                    assert forall|i: int| 0 <= i < r.orphans.len() implies r.dag.missing_parent(
                        #[trigger] r.orphans[i],
                    ) by {
                        if i < front.orphans.len() {
                            assert(front.orphans[i] == r.orphans[i]);
                        }
                    }
                }
            },
            Err(DagError::Duplicate) => {},
        }
    }
}

/// Settling grows the replica and leaves it settled.
pub proof fn lemma_settle(r: ReplicaView)
    requires
        r.sound(),
    ensures
        r.grown_into(r.settle()),
        r.settle().sound(),
        r.settle().settled(),
        r.settle().orphans.len() <= r.orphans.len(),
    decreases r.orphans.len(),
{
    let after = r.pass();
    lemma_pass(r);
    if after.orphans.len() < r.orphans.len() {
        lemma_settle(after);
        lemma_grown_transitive(r, after, after.settle());
    }
}

/// A settled replica stays settled when an event joins the orphans whose
/// parent is missing, and when nothing changes.
pub proof fn lemma_absorb(r: ReplicaView, e: EventView)
    requires
        r.sound(),
        r.settled(),
        e.well_formed(),
    ensures
        r.grown_into(r.absorb(e)),
        r.absorb(e).sound(),
        r.absorb(e).settled(),
{
    assert(r.dag.order.take(r.dag.order.len() as int) =~= r.dag.order);
    match r.dag.verdict(e) {
        Ok(()) => {
            let mid = ReplicaView { dag: r.dag.accept(e), orphans: r.orphans };
            lemma_accept_grows(r.dag, e, r.orphans, r.orphans);
            lemma_settle(mid);
            lemma_grown_transitive(r, mid, mid.settle());
        },
        Err(DagError::MissingParent) => {
            if !r.has_orphan(e.hash) {
                let next = ReplicaView { dag: r.dag, orphans: r.orphans.push(e) };
                assert forall|i: int| 0 <= i < next.orphans.len() implies next.dag.missing_parent(
                    #[trigger] next.orphans[i],
                ) && next.orphans[i].well_formed() by {
                    if i < r.orphans.len() {
                        assert(next.orphans[i] == r.orphans[i]);
                    }
                }
            }
        },
        Err(DagError::Duplicate) => {},
    }
}

/// Whatever is offered to a settled replica, it grows by admissions alone
/// and stays settled: no event that could be admitted is left waiting.
pub proof fn lemma_absorb_all(r: ReplicaView, batch: Seq<EventView>)
    requires
        r.sound(),
        r.settled(),
        all_well_formed(batch),
    ensures
        r.grown_into(r.absorb_all(batch)),
        r.absorb_all(batch).sound(),
        r.absorb_all(batch).settled(),
    decreases batch.len(),
{
    if batch.len() == 0 {
        assert(r.dag.order.take(r.dag.order.len() as int) =~= r.dag.order);
    } else {
        let mid = r.absorb_all(batch.drop_last());
        assert forall|i: int| 0 <= i < batch.drop_last().len() implies (#[trigger] batch.drop_last()[i]).well_formed() by {
            assert(batch[i].well_formed());
        }
        lemma_absorb_all(r, batch.drop_last());
        lemma_absorb(mid, batch.last());
        lemma_grown_transitive(r, mid, mid.absorb(batch.last()));
    }
}

} // verus!
