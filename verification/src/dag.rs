//! The append-only event DAG.
//!
//! Events live as nodes of a stable graph, edges point from a child to each
//! of its parents, a hash map finds the node of a hash, and the heads are
//! the events that no resident event has parented yet. Admission only adds:
//! no node, edge or index entry is ever removed or changed.

use vstd::prelude::*;
use crate::event::{
    contains_hash,
    copy_hashes,
    Event,
    EventHash,
    EventId,
    EventView,
    Operation,
};
use crate::ident::fresh_id;
use crate::model::{
    lemma_accept_well_formed,
    lemma_closure_covered,
    lemma_closure_of_stranger,
    lemma_closure_step,
    lemma_distinct_within,
    lemma_initial_well_formed,
    lemma_parents_resident,
    retain_absent,
    DagView,
};
use crate::spacetime::SpacetimeCoord;
use crate::store::{
    graph_add_edge,
    graph_add_node,
    graph_edges,
    graph_empty,
    graph_node,
    graph_nodes,
    graph_targets,
    index_contains,
    index_empty,
    index_entries,
    index_get,
    index_insert,
    EventGraph,
    HashIndex,
};

verus! {

/// Why an event was not admitted.
#[derive(Clone, Copy, Debug, PartialEq, Eq, Structural)]
pub enum DagError {
    /// A parent of the event is not resident.
    MissingParent,
    /// The event's hash is already resident.
    Duplicate,
}

impl DagError {
    /// The error in words.
    pub fn message(&self) -> (text: String)
        ensures
            *self == DagError::MissingParent ==> text@ == "Missing parent event"@,
            *self == DagError::Duplicate ==> text@ == "Duplicate event"@,
    {
        match self {
            DagError::MissingParent => "Missing parent event".to_owned(),
            DagError::Duplicate => "Duplicate event".to_owned(),
        }
    }
}

/// What the graph and the index hold, side by side.
pub struct Backing {
    /// The graph's nodes by handle.
    pub nodes: Map<int, Event>,
    /// The graph's edges as pairs of handles `(child, parent)`.
    pub edges: Set<(int, int)>,
    /// The index: the handle of each hash.
    pub index: Map<EventHash, int>,
}

/// The edges from node `n` to the node of each hash of `parents`.
pub open spec fn edges_from(n: int, index: Map<EventHash, int>, parents: Seq<EventHash>) -> Set<
    (int, int),
> {
    Set::new(
        |pair: (int, int)|
            pair.0 == n && exists|j: int|
                0 <= j < parents.len() && index.contains_key(#[trigger] parents[j]) && pair.1
                    == index[parents[j]],
    )
}

impl Backing {
    /// The index and the nodes are in one-to-one correspondence, and the
    /// edges are the parent links between nodes.
    pub open spec fn consistent(self) -> bool {
        &&& forall|h: EventHash| #[trigger]
            self.index.contains_key(h) ==> self.nodes.contains_key(self.index[h])
                && self.nodes[self.index[h]]@.hash == h
        &&& forall|i: int| #[trigger]
            self.nodes.contains_key(i) ==> self.index.contains_key(self.nodes[i]@.hash)
                && self.index[self.nodes[i]@.hash] == i
        &&& forall|a: int, b: int| #[trigger]
            self.edges.contains((a, b)) <==> self.nodes.contains_key(a) && self.nodes.contains_key(
                b,
            ) && self.nodes[a]@.parents.contains(self.nodes[b]@.hash)
    }

    /// The resident events by hash.
    pub open spec fn events(self) -> Map<EventHash, EventView> {
        Map::new(|h: EventHash| self.index.contains_key(h), |h: EventHash| self.nodes[self.index[h]]@)
    }

    /// The edges as pairs of hashes `(child, parent)`.
    pub open spec fn edge_pairs(self) -> Set<(EventHash, EventHash)> {
        Set::new(
            |pair: (EventHash, EventHash)|
                self.index.contains_key(pair.0) && self.index.contains_key(pair.1)
                    && self.edges.contains((self.index[pair.0], self.index[pair.1])),
        )
    }

    /// The value of the DAG that stands on this backing.
    pub open spec fn as_view(self, heads: Seq<EventHash>, order: Seq<EventHash>) -> DagView {
        DagView { events: self.events(), edges: self.edge_pairs(), heads, order }
    }

    /// The backing after `event` was stored under the vacant handle `n`
    /// with an edge to each of its parents.
    pub open spec fn with_event(self, n: int, event: Event) -> Backing {
        Backing {
            nodes: self.nodes.insert(n, event),
            edges: self.edges.union(edges_from(n, self.index, event@.parents)),
            index: self.index.insert(event@.hash, n),
        }
    }
}

/// Storing an admissible event keeps the backing consistent, and the value on
/// top of it is the old value with the event accepted.
proof fn lemma_with_event(b: Backing, heads: Seq<EventHash>, order: Seq<EventHash>, n: int, event: Event)
    requires
        b.consistent(),
        b.as_view(heads, order).well_formed(),
        b.as_view(heads, order).verdict(event@) is Ok,
        !b.nodes.contains_key(n),
    ensures
        b.with_event(n, event).consistent(),
        b.with_event(n, event).events() == b.events().insert(event@.hash, event@),
        b.with_event(n, event).edge_pairs() == b.as_view(heads, order).accept(event@).edges,
{
    let v = b.as_view(heads, order);
    let c = b.with_event(n, event);
    let hash = event@.hash;
    let parents = event@.parents;
    assert(!v.missing_parent(event@));
    assert(!v.resident(hash));
    assert(!b.index.contains_key(hash));
    assert forall|p: EventHash| parents.contains(p) implies b.index.contains_key(p) && p != hash by {
        if !v.resident(p) {
            assert(event@.parents.contains(p) && !v.resident(p));
        }
    }
    // A parent of a resident event is resident.
    assert forall|i: int, p: EventHash|
        b.nodes.contains_key(i) && b.nodes[i]@.parents.contains(p) implies b.index.contains_key(
        p,
    ) by {
        let ch = b.nodes[i]@.hash;
        assert(b.index.contains_key(ch));
        assert(v.resident(ch));
        assert(v.events[ch] == b.nodes[i]@);
        assert(v.order.contains(ch));
        let k = choose|k: int| 0 <= k < v.order.len() && v.order[k] == ch;
        assert(v.links(v.order[k], p));
        assert(v.admitted_before(p, k));
        let j = choose|j: int| 0 <= j < k && v.admitted_at(p, j);
        assert(v.order.contains(p));
        assert(v.resident(p));
    }
    assert forall|h: EventHash| #[trigger]
        c.index.contains_key(h) implies c.nodes.contains_key(c.index[h]) && c.nodes[c.index[h]]@.hash
        == h by {
        if h != hash {
            assert(b.index.contains_key(h));
        }
    }
    assert forall|i: int| #[trigger]
        c.nodes.contains_key(i) implies c.index.contains_key(c.nodes[i]@.hash) && c.index[c.nodes[i]@.hash]
        == i by {
        if i != n {
            assert(b.nodes.contains_key(i));
        }
    }
    assert forall|x: int, y: int| #[trigger]
        c.edges.contains((x, y)) <==> c.nodes.contains_key(x) && c.nodes.contains_key(y)
            && c.nodes[x]@.parents.contains(c.nodes[y]@.hash) by {
        if c.edges.contains((x, y)) {
            if b.edges.contains((x, y)) {
                assert(b.nodes.contains_key(x) && b.nodes.contains_key(y));
            } else {
                assert(edges_from(n, b.index, parents).contains((x, y)));
                let j = choose|j: int|
                    0 <= j < parents.len() && b.index.contains_key(#[trigger] parents[j]) && y
                        == b.index[parents[j]];
                assert(parents.contains(parents[j]));
            }
        }
        if c.nodes.contains_key(x) && c.nodes.contains_key(y) && c.nodes[x]@.parents.contains(
            c.nodes[y]@.hash,
        ) {
            if x == n {
                let p = c.nodes[y]@.hash;
                assert(parents.contains(p));
                assert(y != n);
                assert(b.nodes.contains_key(y));
                let j = choose|j: int| 0 <= j < parents.len() && parents[j] == p;
                assert(y == b.index[parents[j]]);
                assert(edges_from(n, b.index, parents).contains((x, y)));
            } else {
                assert(b.nodes.contains_key(x));
                if y == n {
                    assert(b.nodes[x]@.parents.contains(hash));
                    assert(b.index.contains_key(hash));
                }
                assert(b.nodes.contains_key(y));
                assert(b.edges.contains((x, y)));
            }
        }
    }
    assert(c.events() =~= b.events().insert(hash, event@)) by {
        assert forall|h: EventHash| c.events().contains_key(h) implies c.events()[h] == b.events().insert(
            hash,
            event@,
        )[h] by {
            if h != hash {
                assert(b.index.contains_key(h));
            }
        }
    }
    let target = v.accept(event@).edges;
    assert forall|pair: (EventHash, EventHash)| c.edge_pairs().contains(pair) <==> target.contains(
        pair,
    ) by {
        let (ch, p) = pair;
        if c.edge_pairs().contains(pair) {
            assert(c.edges.contains((c.index[ch], c.index[p])));
            if ch == hash {
                assert(c.nodes[n]@.parents.contains(c.nodes[c.index[p]]@.hash));
                assert(parents.contains(p));
            } else {
                assert(b.index.contains_key(ch));
                assert(b.nodes[b.index[ch]]@.parents.contains(p));
                assert(b.index.contains_key(p));
                assert(b.edges.contains((b.index[ch], b.index[p])));
                assert(b.edge_pairs().contains(pair));
            }
        }
        if target.contains(pair) {
            if b.edge_pairs().contains(pair) {
                assert(b.edges.contains((b.index[ch], b.index[p])));
                assert(c.edges.contains((c.index[ch], c.index[p])));
            } else {
                assert(ch == hash && parents.contains(p));
                assert(b.index.contains_key(p));
                assert(c.nodes[c.index[p]]@.hash == p);
                assert(c.edges.contains((n, c.index[p])));
            }
        }
    }
    assert(c.edge_pairs() =~= target);
}

/// The hashes of a sequence of events.
pub open spec fn hashes_of(events: Seq<Event>) -> Seq<EventHash> {
    events.map_values(|e: Event| e@.hash)
}

/// `t` is among `handles`.
pub open spec fn has_handle(handles: Seq<usize>, t: int) -> bool {
    exists|at: int| 0 <= at < handles.len() && handles[at] as int == t
}

/// What a walk from `h` along the edges has found so far: the nodes at
/// `handles`, each once, with copies of their events in `out`; the first is
/// the node of `h`, and every one of them lies in the causal closure of `h`.
pub open spec fn found_so_far(b: Backing, v: DagView, h: EventHash, handles: Seq<usize>, out: Seq<Event>) -> bool {
    &&& handles.len() == out.len()
    &&& handles.len() > 0
    &&& b.index.contains_key(h)
    &&& handles[0] as int == b.index[h]
    &&& handles.no_duplicates()
    &&& forall|i: int|
        0 <= i < handles.len() ==> {
            &&& b.nodes.contains_key(#[trigger] handles[i] as int)
            &&& out[i]@ == b.nodes[handles[i] as int]@
            &&& v.causal_closure(h).contains(b.nodes[handles[i] as int]@.hash)
        }
}

/// The target of an edge that leaves a node of the walk is a node, and its
/// event lies in the closure.
proof fn lemma_found_one_more(
    b: Backing,
    v: DagView,
    h: EventHash,
    handles: Seq<usize>,
    out: Seq<Event>,
    i: int,
    target: int,
)
    requires
        b.consistent(),
        v.well_formed(),
        v.events == b.events(),
        found_so_far(b, v, h, handles, out),
        0 <= i < handles.len(),
        b.edges.contains((handles[i] as int, target)),
    ensures
        b.nodes.contains_key(target),
        v.causal_closure(h).contains(b.nodes[target]@.hash),
{
    let a = handles[i] as int;
    assert(b.nodes.contains_key(a));
    let from = b.nodes[a]@.hash;
    let to = b.nodes[target]@.hash;
    assert(b.index.contains_key(from) && b.index[from] == a);
    assert(v.events[from] == b.nodes[a]@);
    assert(v.links(from, to));
    lemma_closure_step(v, h, from, to);
}

/// With one more node the walk is still what `found_so_far` says, and it is
/// no longer than the DAG is large.
proof fn lemma_found_extends(
    b: Backing,
    v: DagView,
    h: EventHash,
    handles: Seq<usize>,
    out: Seq<Event>,
    i: int,
    target: usize,
    event: Event,
)
    requires
        b.consistent(),
        v.well_formed(),
        v.events == b.events(),
        found_so_far(b, v, h, handles, out),
        0 <= i < handles.len(),
        b.nodes.contains_key(target as int),
        v.causal_closure(h).contains(b.nodes[target as int]@.hash),
        !has_handle(handles, target as int),
        event@ == b.nodes[target as int]@,
    ensures
        found_so_far(b, v, h, handles.push(target), out.push(event)),
        handles.len() + 1 <= v.order.len(),
{
    let more = handles.push(target);
    assert forall|x: int, y: int| 0 <= x < more.len() && 0 <= y < more.len() && x != y implies more[x]
        != more[y] by {
        if x < handles.len() && y < handles.len() {
            assert(handles[x] != handles[y]);
        } else if x < handles.len() {
            assert(handles[x] as int != target as int);
        } else if y < handles.len() {
            assert(handles[y] as int != target as int);
        }
    }
    assert forall|j: int| 0 <= j < more.len() implies {
        &&& b.nodes.contains_key(#[trigger] more[j] as int)
        &&& out.push(event)[j]@ == b.nodes[more[j] as int]@
        &&& v.causal_closure(h).contains(b.nodes[more[j] as int]@.hash)
    } by {
        if j < handles.len() {
            assert(more[j] == handles[j]);
        }
    }
    lemma_walk_bounded(b, v, h, more, out.push(event));
}

/// A walk holds each node once, so it holds no more nodes than the DAG has
/// events.
proof fn lemma_walk_bounded(b: Backing, v: DagView, h: EventHash, handles: Seq<usize>, out: Seq<Event>)
    requires
        b.consistent(),
        v.well_formed(),
        v.events == b.events(),
        found_so_far(b, v, h, handles, out),
    ensures
        handles.len() <= v.order.len(),
{
    let seen = Seq::new(handles.len(), |i: int| b.nodes[handles[i] as int]@.hash);
    assert forall|x: int, y: int| 0 <= x < seen.len() && 0 <= y < seen.len() && x != y implies seen[x]
        != seen[y] by {
        assert(b.nodes.contains_key(handles[x] as int));
        assert(b.nodes.contains_key(handles[y] as int));
        assert(handles[x] != handles[y]);
    }
    assert forall|i: int| 0 <= i < seen.len() implies v.order.contains(#[trigger] seen[i]) by {
        assert(b.nodes.contains_key(handles[i] as int));
        assert(v.resident(seen[i]));
    }
    lemma_distinct_within(seen, v.order);
}

/// A walk that has followed every edge of every node it holds has found
/// the causal closure, each event once.
proof fn lemma_found_all(b: Backing, v: DagView, h: EventHash, handles: Seq<usize>, out: Seq<Event>)
    requires
        b.consistent(),
        v.well_formed(),
        v.events == b.events(),
        found_so_far(b, v, h, handles, out),
        forall|i: int, t: int|
            0 <= i < handles.len() && b.edges.contains((#[trigger] handles[i] as int, t))
                ==> #[trigger] has_handle(handles, t),
    ensures
        hashes_of(out).no_duplicates(),
        hashes_of(out).to_set() == v.causal_closure(h),
        forall|i: int| 0 <= i < out.len() ==> (#[trigger] out[i])@ == v.events[out[i]@.hash],
        out.len() > 0 && out[0]@.hash == h,
{
    let seen = hashes_of(out);
    assert forall|i: int| 0 <= i < out.len() implies seen[i] == b.nodes[handles[i] as int]@.hash
        && (#[trigger] out[i])@ == v.events[out[i]@.hash] by {
        let a = handles[i] as int;
        assert(b.nodes.contains_key(a));
        assert(out[i]@ == b.nodes[a]@);
        assert(b.index.contains_key(b.nodes[a]@.hash) && b.index[b.nodes[a]@.hash] == a);
    }
    assert forall|x: int, y: int| 0 <= x < seen.len() && 0 <= y < seen.len() && x != y implies seen[x]
        != seen[y] by {
        assert(b.nodes.contains_key(handles[x] as int));
        assert(b.nodes.contains_key(handles[y] as int));
        assert(handles[x] != handles[y]);
    }
    let found = seen.to_set();
    assert(b.nodes.contains_key(handles[0] as int));
    assert(seen[0] == h);
    assert(found.contains(h)) by {
        assert(seen.contains(seen[0]));
    }
    assert forall|x: EventHash, p: EventHash| found.contains(x) && #[trigger] v.links(x, p) implies found.contains(
        p,
    ) by {
        let i = choose|i: int| 0 <= i < seen.len() && seen[i] == x;
        let a = handles[i] as int;
        assert(b.nodes.contains_key(a));
        lemma_parents_resident(v, x, p);
        let t = b.index[p];
        assert(b.index.contains_key(x) && b.index[x] == a);
        assert(v.events[x] == b.nodes[a]@);
        assert(b.nodes.contains_key(t) && b.nodes[t]@.hash == p);
        assert(b.edges.contains((a, t)));
        assert(has_handle(handles, t));
        let at = choose|at: int| 0 <= at < handles.len() && handles[at] as int == t;
        assert(seen[at] == p);
        assert(seen.contains(p));
    }
    lemma_closure_covered(v, h, found);
    assert forall|x: EventHash| found.contains(x) implies v.causal_closure(h).contains(x) by {
        let i = choose|i: int| 0 <= i < seen.len() && seen[i] == x;
        assert(b.nodes.contains_key(handles[i] as int));
    }
    assert(found =~= v.causal_closure(h));
}

/// Whether `t` occurs in `handles`.
fn contains_handle(handles: &Vec<usize>, t: usize) -> (r: bool)
    ensures
        r == has_handle(handles@, t as int),
{
    let mut i: usize = 0;
    while i < handles.len()
        invariant
            0 <= i <= handles.len(),
            forall|j: int| 0 <= j < i ==> handles@[j] != t,
        decreases handles.len() - i,
    {
        if handles[i] == t {
            return true;
        }
        i = i + 1;
    }
    false
}

/// Append-only DAG of events with its concurrency frontier.
pub struct SpacetimeDAG {
    /// Nodes are events; edges point from a child to its parents.
    graph: EventGraph,
    /// Finds the node of a hash.
    index_map: HashIndex,
    /// The events without a resident child, in the order they became heads.
    heads: Vec<EventHash>,
    /// The hashes in the order of admission.
    order: Ghost<Seq<EventHash>>,
}

impl View for SpacetimeDAG {
    type V = DagView;

    closed spec fn view(&self) -> DagView {
        self.backing().as_view(self.heads@, self.order@)
    }
}

impl SpacetimeDAG {
    /// What the two collections hold.
    pub closed spec fn backing(&self) -> Backing {
        Backing {
            nodes: graph_nodes(self.graph),
            edges: graph_edges(self.graph),
            index: index_entries(self.index_map),
        }
    }

    /// The store is in order: graph and index agree with each other, and
    /// the value they stand for meets the invariants of [`DagView`].
    pub closed spec fn wf(&self) -> bool {
        &&& self.backing().consistent()
        &&& self@.well_formed()
    }

    /// A store in order stands for a well-formed value.
    pub proof fn lemma_view_well_formed(&self)
        requires
            self.wf(),
        ensures
            self@.well_formed(),
    {
    }

    /// A new DAG that holds one genesis event with a freshly drawn
    /// identifier, at the origin, without parents.
    pub fn new() -> (dag: Self)
        ensures
            dag.wf(),
            dag@.heads.len() == 1,
            dag@ == DagView::initial(dag@.events[dag@.heads[0]]),
            dag@.events[dag@.heads[0]].is_genesis(),
    {
        SpacetimeDAG::with_genesis_id(fresh_id())
    }

    /// A new DAG whose genesis event has the identifier given.
    pub fn with_genesis_id(id: EventId) -> (dag: Self)
        ensures
            dag.wf(),
            dag@.heads.len() == 1,
            dag@ == DagView::initial(dag@.events[dag@.heads[0]]),
            dag@.events[dag@.heads[0]].is_genesis(),
            dag@.events[dag@.heads[0]].id == id,
    {
        let genesis = Event::with_id(id, Vec::new(), SpacetimeCoord::origin(), Operation::Genesis);
        let ghost g = genesis@;
        let hash = genesis.hash;
        proof {
            if g.parents.len() > 0 {
                assert(g.parents.contains(g.parents[0]));
                assert(Seq::<EventHash>::empty().contains(g.parents[0]));
            }
        }
        let mut graph = graph_empty();
        let mut index_map = index_empty();
        let node = graph_add_node(&mut graph, genesis);
        index_insert(&mut index_map, hash, node);
        let mut heads: Vec<EventHash> = Vec::new();
        heads.push(hash);
        let ghost first = Seq::<EventHash>::empty().push(hash);
        let dag = SpacetimeDAG { graph, index_map, heads, order: Ghost(first) };
        proof {
            let b = dag.backing();
            assert(b.events() =~= Map::empty().insert(hash, g));
            assert(b.edge_pairs() =~= Set::empty());
            assert(dag@.heads =~= seq![hash]);
            assert(dag@ == DagView::initial(g));
            lemma_initial_well_formed(g);
            assert forall|x: int, y: int| #[trigger]
                b.edges.contains((x, y)) <==> b.nodes.contains_key(x) && b.nodes.contains_key(y)
                    && b.nodes[x]@.parents.contains(b.nodes[y]@.hash) by {
                if b.nodes.contains_key(x) && b.nodes.contains_key(y) && b.nodes[x]@.parents.contains(
                    b.nodes[y]@.hash,
                ) {
                    assert(g.parents.contains(hash));
                }
            }
        }
        dag
    }

    /// What offering `event` would give, without offering it.
    pub fn verdict(&self, event: &Event) -> (r: Result<(), DagError>)
        ensures
            r == self@.verdict(event@),
    {
        let ghost v = self@;
        let mut i: usize = 0;
        while i < event.parents.len()
            invariant
                0 <= i <= event.parents.len(),
                v == self@,
                forall|j: int| 0 <= j < i ==> v.resident(#[trigger] event.parents@[j]),
            decreases event.parents.len() - i,
        {
            if !index_contains(&self.index_map, &event.parents[i]) {
                proof {
                    let p = event.parents@[i as int];
                    assert(event@.parents.contains(p) && !v.resident(p));
                }
                return Err(DagError::MissingParent);
            }
            i = i + 1;
        }
        proof {
            if v.missing_parent(event@) {
                let p = choose|p: EventHash| event@.parents.contains(p) && !v.resident(p);
                let j = choose|j: int| 0 <= j < event.parents@.len() && event.parents@[j] == p;
                assert(v.resident(event.parents@[j]));
            }
        }
        if index_contains(&self.index_map, &event.hash) {
            return Err(DagError::Duplicate);
        }
        Ok(())
    }

    /// Offers an event to the DAG.
    ///
    /// Returns `MissingParent` where some parent of the event is not
    /// resident, else `Duplicate` where its hash is resident; in both cases
    /// the DAG is as it was. Otherwise the event becomes a node with an edge
    /// to each parent, its parents leave the heads, and its hash is appended
    /// to them.
    pub fn add_event(&mut self, event: Event) -> (r: Result<(), DagError>)
        requires
            old(self).wf(),
        ensures
            final(self).wf(),
            r == old(self)@.verdict(event@),
            final(self)@ == old(self)@.offer(event@),
    {
        let ghost v0 = self@;
        let ghost b0 = self.backing();
        proof {
            use_type_invariant(&event);
        }
        let mut i: usize = 0;
        while i < event.parents.len()
            invariant
                0 <= i <= event.parents.len(),
                *self == *old(self),
                self.wf(),
                b0 == self.backing(),
                v0 == self@,
                forall|j: int| 0 <= j < i ==> b0.index.contains_key(#[trigger] event.parents@[j]),
            decreases event.parents.len() - i,
        {
            if !index_contains(&self.index_map, &event.parents[i]) {
                proof {
                    let p = event.parents@[i as int];
                    assert(event@.parents.contains(p) && !v0.resident(p));
                }
                return Err(DagError::MissingParent);
            }
            i = i + 1;
        }
        proof {
            if v0.missing_parent(event@) {
                let p = choose|p: EventHash| event@.parents.contains(p) && !v0.resident(p);
                let j = choose|j: int| 0 <= j < event.parents@.len() && event.parents@[j] == p;
                assert(b0.index.contains_key(event.parents@[j]));
            }
        }
        if index_contains(&self.index_map, &event.hash) {
            return Err(DagError::Duplicate);
        }
        let event_hash = event.hash;
        let parents = copy_hashes(&event.parents);
        let ghost stored = event;
        let node = graph_add_node(&mut self.graph, event);
        index_insert(&mut self.index_map, event_hash, node);
        proof {
            lemma_with_event(b0, v0.heads, v0.order, node as int, stored);
            assert forall|p: EventHash| parents@.contains(p) implies b0.index.contains_key(p) && p
                != event_hash by {
                if !v0.resident(p) {
                    assert(stored@.parents.contains(p) && !v0.resident(p));
                }
            }
            assert(edges_from(node as int, b0.index, parents@.take(0)) =~= Set::empty());
        }
        let mut k: usize = 0;
        while k < parents.len()
            invariant
                0 <= k <= parents.len(),
                parents@ == stored@.parents,
                b0.consistent(),
                self.heads == old(self).heads,
                self.order == old(self).order,
                graph_nodes(self.graph) == b0.nodes.insert(node as int, stored),
                index_entries(self.index_map) == b0.index.insert(event_hash, node as int),
                graph_edges(self.graph) == b0.edges.union(
                    edges_from(node as int, b0.index, parents@.take(k as int)),
                ),
                forall|p: EventHash| parents@.contains(p) ==> b0.index.contains_key(p) && p != event_hash,
            decreases parents.len() - k,
        {
            let parent = parents[k];
            assert(parents@.contains(parent));
            match index_get(&self.index_map, &parent) {
                Some(target) => {
                    graph_add_edge(&mut self.graph, node, target);
                },
                None => {},
            }
            proof {
                let before = edges_from(node as int, b0.index, parents@.take(k as int));
                let after = edges_from(node as int, b0.index, parents@.take(k + 1));
                let added = (node as int, b0.index[parent]);
                assert forall|pair: (int, int)| after.contains(pair) <==> before.insert(added).contains(
                    pair,
                ) by {
                    if after.contains(pair) {
                        let j = choose|j: int|
                            0 <= j < parents@.take(k + 1).len() && b0.index.contains_key(
                                #[trigger] parents@.take(k + 1)[j],
                            ) && pair.1 == b0.index[parents@.take(k + 1)[j]];
                        if j < k {
                            assert(parents@.take(k as int)[j] == parents@.take(k + 1)[j]);
                        }
                    }
                    if before.contains(pair) {
                        let j = choose|j: int|
                            0 <= j < parents@.take(k as int).len() && b0.index.contains_key(
                                #[trigger] parents@.take(k as int)[j],
                            ) && pair.1 == b0.index[parents@.take(k as int)[j]];
                        assert(parents@.take(k + 1)[j] == parents@.take(k as int)[j]);
                    }
                    if pair == added {
                        assert(parents@.take(k + 1)[k as int] == parent);
                    }
                }
                assert(after =~= before.insert(added));
                assert(graph_edges(self.graph) =~= b0.edges.union(after));
            }
            k = k + 1;
        }
        assert(parents@.take(k as int) =~= parents@);
        assert(self.backing() == b0.with_event(node as int, stored));
        let mut kept: Vec<EventHash> = Vec::new();
        let mut h: usize = 0;
        assert(self.heads@.take(0) =~= Seq::<EventHash>::empty());
        while h < self.heads.len()
            invariant
                0 <= h <= self.heads.len(),
                self.heads == old(self).heads,
                self.order == old(self).order,
                parents@ == stored@.parents,
                self.backing() == b0.with_event(node as int, stored),
                kept@ == retain_absent(self.heads@.take(h as int), parents@),
            decreases self.heads.len() - h,
        {
            let head = self.heads[h];
            proof {
                let next = self.heads@.take(h + 1);
                assert(next.drop_last() =~= self.heads@.take(h as int));
                assert(next.last() == head);
            }
            if !contains_hash(&parents, &head) {
                kept.push(head);
            }
            h = h + 1;
        }
        assert(self.heads@.take(h as int) =~= self.heads@);
        kept.push(event_hash);
        self.heads = kept;
        self.order = Ghost(v0.order.push(event_hash));
        proof {
            lemma_accept_well_formed(v0, stored@);
            assert(self@ == v0.accept(stored@));
        }
        Ok(())
    }

    /// The current frontier: a copy of the heads.
    pub fn heads(&self) -> (r: Vec<EventHash>)
        ensures
            r@ == self@.heads,
    {
        copy_hashes(&self.heads)
    }

    /// Whether an event with this hash is resident.
    pub fn contains(&self, hash: &EventHash) -> (r: bool)
        ensures
            r == self@.resident(*hash),
    {
        index_contains(&self.index_map, hash)
    }

    /// The resident event with this hash, if there is one.
    pub fn get(&self, hash: &EventHash) -> (r: Option<&Event>)
        requires
            self.wf(),
        ensures
            r is Some <==> self@.resident(*hash),
            r is Some ==> r->0@ == self@.events[*hash] && r->0@.hash == *hash && r->0@.well_formed(),
    {
        match index_get(&self.index_map, hash) {
            Some(node) => Some(graph_node(&self.graph, node)),
            None => None,
        }
    }

    /// The events in the causal closure of `hash`: the event itself and all
    /// its transitive parents, each once, the event first. Empty where
    /// `hash` is not resident.
    pub fn events_in_causal_closure(&self, hash: &EventHash) -> (out: Vec<Event>)
        requires
            self.wf(),
        ensures
            hashes_of(out@).no_duplicates(),
            hashes_of(out@).to_set() == self@.causal_closure(*hash),
            forall|i: int|
                0 <= i < out@.len() ==> (#[trigger] out@[i])@ == self@.events[out@[i]@.hash],
            self@.resident(*hash) ==> out@.len() > 0 && out@[0]@.hash == *hash,
    {
        let ghost v = self@;
        let ghost b = self.backing();
        let ghost h = *hash;
        let mut out: Vec<Event> = Vec::new();
        let mut handles: Vec<usize> = Vec::new();
        match index_get(&self.index_map, hash) {
            None => {
                proof {
                    lemma_closure_of_stranger(v, h);
                    assert(hashes_of(out@).to_set() =~= Set::<EventHash>::empty());
                }
                return out;
            },
            Some(start) => {
                out.push(graph_node(&self.graph, start).clone());
                handles.push(start);
            },
        }
        let mut next: usize = 0;
        proof {
            assert(hashes_of(out@) =~= seq![h]);
            lemma_distinct_within(hashes_of(out@), v.order);
        }
        while next < handles.len()
            invariant
                self.wf(),
                v == self@,
                b == self.backing(),
                b.consistent(),
                v.well_formed(),
                h == *hash,
                found_so_far(b, v, h, handles@, out@),
                0 <= next <= handles@.len() <= v.order.len(),
                forall|i: int, t: int|
                    0 <= i < next && b.edges.contains((#[trigger] handles@[i] as int, t))
                        ==> #[trigger] has_handle(handles@, t),
            decreases v.order.len() - next,
        {
            let source = handles[next];
            let targets = graph_targets(&self.graph, source);
            let mut k: usize = 0;
            while k < targets.len()
                invariant
                    self.wf(),
                    v == self@,
                    b == self.backing(),
                    b.consistent(),
                    v.well_formed(),
                    h == *hash,
                    found_so_far(b, v, h, handles@, out@),
                    0 <= next < handles@.len() <= v.order.len(),
                    source == handles@[next as int],
                    0 <= k <= targets@.len(),
                    forall|j: int|
                        0 <= j < targets@.len() ==> b.edges.contains(
                            (source as int, #[trigger] targets@[j] as int),
                        ),
                    forall|i: int, t: int|
                        0 <= i < next && b.edges.contains((#[trigger] handles@[i] as int, t))
                            ==> #[trigger] has_handle(handles@, t),
                    forall|j: int| 0 <= j < k ==> has_handle(handles@, #[trigger] targets@[j] as int),
                decreases targets@.len() - k,
            {
                let target = targets[k];
                let ghost before = handles@;
                if !contains_handle(&handles, target) {
                    proof {
                        lemma_found_one_more(b, v, h, handles@, out@, next as int, target as int);
                    }
                    let event = graph_node(&self.graph, target).clone();
                    proof {
                        lemma_found_extends(b, v, h, handles@, out@, next as int, target, event);
                    }
                    out.push(event);
                    handles.push(target);
                }
                proof {
                    assert forall|i: int, t: int|
                        0 <= i < next && b.edges.contains((#[trigger] handles@[i] as int, t)) implies #[trigger] has_handle(
                        handles@,
                        t,
                    ) by {
                        assert(before[i] == handles@[i]);
                        assert(has_handle(before, t));
                        let at = choose|at: int| 0 <= at < before.len() && before[at] as int == t;
                        assert(handles@[at] as int == t);
                    }
                    assert forall|j: int| 0 <= j < k + 1 implies has_handle(
                        handles@,
                        #[trigger] targets@[j] as int,
                    ) by {
                        if j < k {
                            assert(has_handle(before, targets@[j] as int));
                            let at = choose|at: int|
                                0 <= at < before.len() && before[at] as int == targets@[j] as int;
                            assert(handles@[at] as int == targets@[j] as int);
                        } else if has_handle(before, target as int) {
                            let at = choose|at: int| 0 <= at < before.len() && before[at] as int == target as int;
                            assert(handles@[at] as int == target as int);
                        } else {
                            assert(handles@[handles@.len() - 1] as int == target as int);
                        }
                    }
                }
                k = k + 1;
            }
            proof {
                assert forall|i: int, t: int|
                    0 <= i < next + 1 && b.edges.contains((#[trigger] handles@[i] as int, t)) implies #[trigger] has_handle(
                    handles@,
                    t,
                ) by {
                    if i == next {
                        let j = choose|j: int| 0 <= j < targets@.len() && #[trigger] targets@[j] as int == t;
                        assert(has_handle(handles@, targets@[j] as int));
                    }
                }
            }
            next = next + 1;
        }
        proof {
            lemma_found_all(b, v, h, handles@, out@);
        }
        out
    }
}

} // verus!
