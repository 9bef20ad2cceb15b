//! The messages that replicas exchange.

use vstd::prelude::*;
use crate::event::{Event, EventView};

verus! {

/// One message on the wire.
#[derive(Debug)]
pub enum ProtocolMessage {
    /// An event for the receiver to take in.
    Gossip(Event),
    /// The sender's position: the bit patterns of its x, y and z in meters.
    Hello { coords: (u64, u64, u64) },
}

/// Mathematical value of a [`ProtocolMessage`].
pub enum ProtocolMessageView {
    Gossip(EventView),
    Hello { coords: (u64, u64, u64) },
}

impl View for ProtocolMessage {
    type V = ProtocolMessageView;

    open spec fn view(&self) -> ProtocolMessageView {
        match self {
            ProtocolMessage::Gossip(event) => ProtocolMessageView::Gossip(event@),
            ProtocolMessage::Hello { coords } => ProtocolMessageView::Hello { coords: *coords },
        }
    }
}

impl Clone for ProtocolMessage {
    fn clone(&self) -> (r: Self)
        ensures
            r@ == self@,
    {
        match self {
            ProtocolMessage::Gossip(event) => ProtocolMessage::Gossip(event.clone()),
            ProtocolMessage::Hello { coords } => ProtocolMessage::Hello { coords: *coords },
        }
    }
}

} // verus!
