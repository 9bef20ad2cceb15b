//! A cluster of replicas in one process: what travels between them, and
//! the register of where each of them stands.

use std::collections::HashMap;
use vstd::prelude::*;
use vstd::bytes::*;
use crate::event::{Event, EventHash};
use crate::spacetime::SpacetimeCoord;

verus! {

broadcast use vstd::std_specs::hash::group_hash_axioms;

/// Identifier of a replica: 16 bytes.
pub type NodeId = [u8; 16];

/// What replicas send each other.
#[derive(Debug)]
pub enum NetworkPacket {
    /// Events for the receiver to take in, ancestors first.
    Gossip(Vec<Event>),
    /// Hashes that the sender asks for.
    AntiEntropyRequest(Vec<EventHash>),
}

/// A packet on its way from one replica to another.
#[derive(Debug)]
pub struct Message {
    pub sender: NodeId,
    pub receiver: NodeId,
    /// Coordinate time at which the packet was sent, in nanoseconds.
    pub send_time: u128,
    pub payload: NetworkPacket,
}

/// Why a message cannot be routed.
#[derive(Clone, Copy, Debug, PartialEq, Eq, Structural)]
pub enum RouteError {
    /// The sender is not registered.
    UnknownSender,
    /// The sender is registered, the receiver is not.
    UnknownReceiver,
}

impl RouteError {
    /// The error in words.
    pub fn message(&self) -> (text: String)
        ensures
            *self == RouteError::UnknownSender ==> text@ == "Unknown sender"@,
            *self == RouteError::UnknownReceiver ==> text@ == "Unknown receiver"@,
    {
        match self {
            RouteError::UnknownSender => "Unknown sender".to_owned(),
            RouteError::UnknownReceiver => "Unknown receiver".to_owned(),
        }
    }
}

/// The two ends of a route: where the sender stands and where the receiver
/// stands.
#[derive(Clone, Copy, Debug, PartialEq, Eq, Structural)]
pub struct Route {
    pub from: SpacetimeCoord,
    pub to: SpacetimeCoord,
}

/// The number under which an identifier is kept in the register.
pub open spec fn register_key(id: NodeId) -> u128 {
    spec_u128_from_le_bytes(id@)
}

/// Different identifiers are kept under different numbers.
pub proof fn lemma_register_key_injective(a: NodeId, b: NodeId)
    requires
        register_key(a) == register_key(b),
    ensures
        a == b,
{
    lemma_auto_spec_u128_to_from_le_bytes();
    assert(spec_u128_to_le_bytes(spec_u128_from_le_bytes(a@)) == a@);
    assert(spec_u128_to_le_bytes(spec_u128_from_le_bytes(b@)) == b@);
    assert(a =~= b);
}

/// The two ends of the route from `sender` to `receiver` in a register: an
/// error where the sender is not registered, else an error where the
/// receiver is not, else where the two of them stand.
pub open spec fn route_in(
    register: Map<NodeId, SpacetimeCoord>,
    sender: NodeId,
    receiver: NodeId,
) -> Result<Route, RouteError> {
    if !register.contains_key(sender) {
        Err(RouteError::UnknownSender)
    } else if !register.contains_key(receiver) {
        Err(RouteError::UnknownReceiver)
    } else {
        Ok(Route { from: register[sender], to: register[receiver] })
    }
}

/// The register of a cluster: where each replica stands.
pub struct Cluster {
    nodes: HashMap<u128, SpacetimeCoord>,
}

impl View for Cluster {
    type V = Map<NodeId, SpacetimeCoord>;

    /// The position of each registered replica.
    closed spec fn view(&self) -> Map<NodeId, SpacetimeCoord> {
        Map::new(
            |id: NodeId| self.nodes@.contains_key(register_key(id)),
            |id: NodeId| self.nodes@[register_key(id)],
        )
    }
}

impl Cluster {
    /// A cluster without replicas.
    pub fn new() -> (cluster: Self)
        ensures
            cluster@ == Map::<NodeId, SpacetimeCoord>::empty(),
    {
        let cluster = Cluster { nodes: HashMap::new() };
        assert(cluster@ =~= Map::<NodeId, SpacetimeCoord>::empty());
        cluster
    }

    /// Registers a replica, or moves a registered one to `coords`.
    pub fn register_node(&mut self, id: NodeId, coords: SpacetimeCoord)
        ensures
            final(self)@ == old(self)@.insert(id, coords),
    {
        let key = u128_from_le_bytes(id.as_slice());
        self.nodes.insert(key, coords);
        proof {
            assert forall|other: NodeId| #[trigger]
                self@.contains_key(other) <==> old(self)@.insert(id, coords).contains_key(other) by {
                if register_key(other) == register_key(id) {
                    lemma_register_key_injective(other, id);
                }
            }
            assert forall|other: NodeId| self@.contains_key(other) implies #[trigger] self@[other]
                == old(self)@.insert(id, coords)[other] by {
                if register_key(other) == register_key(id) {
                    lemma_register_key_injective(other, id);
                }
            }
            assert(self@ =~= old(self)@.insert(id, coords));
        }
    }

    /// Finds the two ends of the route that `msg` takes: an error where the
    /// sender is not registered, else an error where the receiver is not,
    /// else where the two of them stand.
    pub fn route_message(&self, msg: &Message) -> (r: Result<Route, RouteError>)
        ensures
            r == route_in(self@, msg.sender, msg.receiver),
    {
        let sender = u128_from_le_bytes(msg.sender.as_slice());
        let receiver = u128_from_le_bytes(msg.receiver.as_slice());
        let from = match self.nodes.get(&sender) {
            Some(coords) => *coords,
            None => {
                return Err(RouteError::UnknownSender);
            },
        };
        match self.nodes.get(&receiver) {
            Some(coords) => Ok(Route { from, to: *coords }),
            None => Err(RouteError::UnknownReceiver),
        }
    }
}

} // verus!
