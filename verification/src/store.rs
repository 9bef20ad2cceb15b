//! Storage behind the DAG: a `petgraph` stable graph whose nodes are events,
//! and a `dashmap` map from content hash to node handle.
//!
//! Both collections are opaque to the verifier. Their contents are named by
//! the three functions below, and every call into them goes through one of
//! the wrappers of this file, whose contract is taken on trust.

use vstd::prelude::*;
use dashmap::DashMap;
use petgraph::graph::NodeIndex;
use petgraph::stable_graph::StableGraph;
use petgraph::Directed;
use crate::event::{Event, EventHash};

verus! {

/// `petgraph::stable_graph::StableGraph`, opaque to the verifier.
#[verifier::external_type_specification]
#[verifier::external_body]
#[verifier::reject_recursive_types(N)]
#[verifier::reject_recursive_types(E)]
#[verifier::reject_recursive_types(Ty)]
#[verifier::reject_recursive_types(Ix)]
pub struct ExStableGraph<N, E, Ty, Ix>(StableGraph<N, E, Ty, Ix>);

/// `petgraph::graph::NodeIndex`, the handle of a node.
#[verifier::external_type_specification]
#[verifier::external_body]
#[verifier::reject_recursive_types(Ix)]
pub struct ExNodeIndex<Ix>(NodeIndex<Ix>);

/// `petgraph::Directed`, the marker of directed edges.
#[verifier::external_type_specification]
#[verifier::external_body]
pub struct ExDirected(Directed);

/// `dashmap::DashMap`, opaque to the verifier.
#[verifier::external_type_specification]
#[verifier::external_body]
#[verifier::reject_recursive_types(K)]
#[verifier::reject_recursive_types(V)]
#[verifier::reject_recursive_types(S)]
pub struct ExDashMap<K, V, S>(DashMap<K, V, S>);

/// The graph of events: directed, edges without weight, handles as wide as
/// the machine's addresses so that the graph has no node or edge limit of
/// its own.
pub type EventGraph = StableGraph<Event, (), Directed, usize>;

/// The map from an event's hash to the handle of its node.
pub type HashIndex = DashMap<EventHash, NodeIndex<usize>>;

/// The nodes that the graph holds: each occupied handle with its event.
pub uninterp spec fn graph_nodes(g: EventGraph) -> Map<int, Event>;

/// The edges that the graph holds, each as the pair of handles
/// `(source, target)`; parallel edges count once.
pub uninterp spec fn graph_edges(g: EventGraph) -> Set<(int, int)>;

/// The entries that the map holds: each key with the handle stored under it.
pub uninterp spec fn index_entries(m: HashIndex) -> Map<EventHash, int>;

/// Makes a graph with `StableGraph::with_capacity(0, 0)`.
///
/// Trusted: the new graph has no node and no edge.
#[verifier::external_body]
pub(crate) fn graph_empty() -> (g: EventGraph)
    ensures
        graph_nodes(g) == (Map::<int, Event>::empty()),
        graph_edges(g) == Set::<(int, int)>::empty(),
{
    StableGraph::with_capacity(0, 0)
}

/// Adds a node with `StableGraph::add_node` and hands back its handle.
///
/// Trusted: the handle was not in use, the node now stands under it with the
/// event given, and no other node and no edge has changed. With handles of
/// type `usize` the call has no limit at which it panics.
#[verifier::external_body]
pub(crate) fn graph_add_node(g: &mut EventGraph, event: Event) -> (handle: usize)
    ensures
        !graph_nodes(*old(g)).contains_key(handle as int),
        graph_nodes(*final(g)) == graph_nodes(*old(g)).insert(handle as int, event),
        graph_edges(*final(g)) == graph_edges(*old(g)),
{
    g.add_node(event).index()
}

/// Adds an edge from `source` to `target` with `StableGraph::add_edge`.
///
/// Trusted: the edge is now in the graph, and no node and no other edge has
/// changed. The call panics where either handle is vacant, which the
/// precondition rules out.
#[verifier::external_body]
pub(crate) fn graph_add_edge(g: &mut EventGraph, source: usize, target: usize)
    requires
        graph_nodes(*old(g)).contains_key(source as int),
        graph_nodes(*old(g)).contains_key(target as int),
    ensures
        graph_nodes(*final(g)) == graph_nodes(*old(g)),
        graph_edges(*final(g)) == graph_edges(*old(g)).insert((source as int, target as int)),
{
    g.add_edge(NodeIndex::new(source), NodeIndex::new(target), ());
}

/// Reads the event of a node by indexing the graph with its handle.
///
/// Trusted: the result is the event held under the handle. Indexing panics
/// where the handle is vacant, which the precondition rules out.
#[verifier::external_body]
pub(crate) fn graph_node(g: &EventGraph, handle: usize) -> (event: &Event)
    requires
        graph_nodes(*g).contains_key(handle as int),
    ensures
        *event == graph_nodes(*g)[handle as int],
{
    &g[NodeIndex::new(handle)]
}

/// Lists the targets of the edges that leave a node, with
/// `StableGraph::neighbors`.
///
/// Trusted: a handle is in the list exactly where the graph holds an edge
/// from `source` to it. Nothing is claimed of the order of the list, nor of
/// how often a handle occurs in it.
#[verifier::external_body]
pub(crate) fn graph_targets(g: &EventGraph, source: usize) -> (targets: Vec<usize>)
    ensures
        forall|t: int|
            graph_edges(*g).contains((source as int, t)) <==> exists|k: int|
                0 <= k < targets@.len() && #[trigger] targets@[k] as int == t,
{
    g.neighbors(NodeIndex::new(source)).map(|n| n.index()).collect()
}

/// Makes a map with `DashMap::new`.
///
/// Trusted: the new map has no entry.
#[verifier::external_body]
pub(crate) fn index_empty() -> (m: HashIndex)
    ensures
        index_entries(m) == (Map::<EventHash, int>::empty()),
{
    DashMap::new()
}

/// Stores `handle` under `key` with `DashMap::insert`.
///
/// Trusted: the entry for `key` is now `handle`, and every other entry is as
/// it was. The map is taken by unique reference although the outside method
/// would do with a shared one, so that the change is visible to the verifier.
#[verifier::external_body]
pub(crate) fn index_insert(m: &mut HashIndex, key: EventHash, handle: usize)
    ensures
        index_entries(*final(m)) == index_entries(*old(m)).insert(key, handle as int),
{
    m.insert(key, NodeIndex::new(handle));
}

/// Asks `DashMap::contains_key` whether `key` has an entry.
///
/// Trusted: the answer is whether the map holds an entry under `key`.
#[verifier::external_body]
pub(crate) fn index_contains(m: &HashIndex, key: &EventHash) -> (found: bool)
    ensures
        found == index_entries(*m).contains_key(*key),
{
    m.contains_key(key)
}

/// Looks `key` up with `DashMap::get` and copies the handle out.
///
/// Trusted: the result is the handle stored under `key`, or `None` where the
/// map holds no entry for it.
#[verifier::external_body]
pub(crate) fn index_get(m: &HashIndex, key: &EventHash) -> (found: Option<usize>)
    ensures
        found is Some <==> index_entries(*m).contains_key(*key),
        found is Some ==> found->0 as int == index_entries(*m)[*key],
{
    m.get(key).map(|entry| entry.index())
}

} // verus!
