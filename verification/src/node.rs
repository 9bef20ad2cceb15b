//! The replica's decisions: authoring an event on top of the current heads,
//! composing the gossip that carries it, and taking in the events that
//! arrive.

use vstd::prelude::*;
use vstd::string::*;
use crate::dag::SpacetimeDAG;
use crate::event::{
    authored,
    canonical_parents,
    copy_hashes,
    same_hash,
    Event,
    EventHash,
    EventId,
    EventView,
    Operation,
    OperationView,
};
use crate::ident::{fresh_id, is_random_uuid};
use crate::dag::DagError;
use crate::model::{
    all_well_formed,
    lemma_absorb,
    lemma_accept_well_formed,
    lemma_pass,
    lemma_settle,
    DagView,
    ReplicaView,
};
use crate::physics::{messages, released, retained, PhysicsLayer};
use crate::protocol::ProtocolMessage;
use crate::simulation::{Message, NetworkPacket, NodeId};
use crate::spacetime::SpacetimeCoord;

verus! {

/// The lower-case hexadecimal digit of a value below sixteen.
pub open spec fn hex_char(n: int) -> char {
    if n == 0 {
        '0'
    } else if n == 1 {
        '1'
    } else if n == 2 {
        '2'
    } else if n == 3 {
        '3'
    } else if n == 4 {
        '4'
    } else if n == 5 {
        '5'
    } else if n == 6 {
        '6'
    } else if n == 7 {
        '7'
    } else if n == 8 {
        '8'
    } else if n == 9 {
        '9'
    } else if n == 10 {
        'a'
    } else if n == 11 {
        'b'
    } else if n == 12 {
        'c'
    } else if n == 13 {
        'd'
    } else if n == 14 {
        'e'
    } else {
        'f'
    }
}

/// The bytes of `bytes` in hexadecimal, two digits each, high digit first.
pub open spec fn hex_text(bytes: Seq<u8>) -> Seq<char>
    decreases bytes.len(),
{
    if bytes.len() == 0 {
        Seq::empty()
    } else {
        hex_text(bytes.drop_last()).push(hex_char(bytes.last() as int / 16)).push(
            hex_char(bytes.last() as int % 16),
        )
    }
}

/// The one-character text of a hexadecimal digit.
fn hex_digit(n: u8) -> (s: &'static str)
    requires
        n < 16,
    ensures
        s@ == seq![hex_char(n as int)],
{
    proof {
        reveal_strlit("0");
        reveal_strlit("1");
        reveal_strlit("2");
        reveal_strlit("3");
        reveal_strlit("4");
        reveal_strlit("5");
        reveal_strlit("6");
        reveal_strlit("7");
        reveal_strlit("8");
        reveal_strlit("9");
        reveal_strlit("a");
        reveal_strlit("b");
        reveal_strlit("c");
        reveal_strlit("d");
        reveal_strlit("e");
        reveal_strlit("f");
    }
    let s = match n {
        0 => "0",
        1 => "1",
        2 => "2",
        3 => "3",
        4 => "4",
        5 => "5",
        6 => "6",
        7 => "7",
        8 => "8",
        9 => "9",
        10 => "a",
        11 => "b",
        12 => "c",
        13 => "d",
        14 => "e",
        _ => "f",
    };
    assert(s@ =~= seq![hex_char(n as int)]);
    s
}

/// Writes a hash as 64 lower-case hexadecimal digits.
pub fn fmt_hash(hash: &EventHash) -> (text: String)
    ensures
        text@ == hex_text(hash@),
        text@.len() == 64,
{
    let mut text = String::new();
    let mut i: usize = 0;
    assert(hash@.take(0) =~= Seq::<u8>::empty());
    while i < 32
        invariant
            0 <= i <= 32,
            text@ == hex_text(hash@.take(i as int)),
            text@.len() == 2 * i,
        decreases 32 - i,
    {
        let b = hash[i];
        text.append(hex_digit(b / 16));
        text.append(hex_digit(b % 16));
        proof {
            let next = hash@.take(i + 1);
            assert(next.drop_last() =~= hash@.take(i as int));
            assert(next.last() == b);
            assert(text@ =~= hex_text(next));
        }
        i = i + 1;
    }
    assert(hash@.take(32) =~= hash@);
    text
}

/// What the application asks of a replica.
#[derive(Debug)]
pub enum NodeCommand {
    /// Author an event that carries `payload`, at the replica's own position
    /// and at the coordinate time `now_ns`, the reading of the local clock.
    CreateEvent { now_ns: u128, payload: Operation },
}

/// The values of a sequence of events.
pub open spec fn event_views(events: Seq<Event>) -> Seq<EventView> {
    events.map_values(|e: Event| e@)
}

/// The gossip that carries `e`: the events of its parents, in the order of
/// the parents, then `e` itself.
pub open spec fn gossip_for(v: DagView, e: EventView) -> Seq<EventView> {
    e.parents.map_values(|p: EventHash| v.events[p]).push(e)
}

/// `m` takes the gossip `events` from `sender` to `receiver`, sent at
/// `send_time`.
pub open spec fn carries(
    m: Message,
    sender: NodeId,
    receiver: NodeId,
    send_time: u128,
    events: Seq<EventView>,
) -> bool {
    &&& m.sender == sender
    &&& m.receiver == receiver
    &&& m.send_time == send_time
    &&& m.payload matches NetworkPacket::Gossip(sent)
    &&& event_views(sent@) == events
}

/// The events that the `Gossip` messages of `msgs` carry, in their order.
pub open spec fn gossiped(msgs: Seq<ProtocolMessage>) -> Seq<EventView>
    decreases msgs.len(),
{
    if msgs.len() == 0 {
        Seq::empty()
    } else {
        match msgs.last() {
            ProtocolMessage::Gossip(event) => gossiped(msgs.drop_last()).push(event@),
            ProtocolMessage::Hello { .. } => gossiped(msgs.drop_last()),
        }
    }
}

/// A copy of `events`.
pub fn copy_events(events: &Vec<Event>) -> (out: Vec<Event>)
    ensures
        event_views(out@) == event_views(events@),
{
    let mut out: Vec<Event> = Vec::new();
    let mut i: usize = 0;
    while i < events.len()
        invariant
            0 <= i <= events.len(),
            out@.len() == i,
            forall|j: int| 0 <= j < i ==> out@[j]@ == events@[j]@,
        decreases events.len() - i,
    {
        out.push(events[i].clone());
        i = i + 1;
    }
    assert(event_views(out@) =~= event_views(events@));
    out
}

/// A replica: its identity, its DAG, the orphans that wait for a parent,
/// where it stands, and whom it tells.
pub struct Node {
    pub id: NodeId,
    pub dag: SpacetimeDAG,
    /// Events that were offered while a parent of theirs was missing, in
    /// the order in which they came.
    pub orphans: Vec<Event>,
    /// Where the replica stands. Events are authored at its spatial
    /// components; its time component is not read.
    pub coords: SpacetimeCoord,
    pub peers: Vec<NodeId>,
}

/// What the replica holds: its DAG and its orphans. Identity, position and
/// peers are plain fields and are spoken of by name.
impl View for Node {
    type V = ReplicaView;

    open spec fn view(&self) -> ReplicaView {
        ReplicaView { dag: self.dag@, orphans: event_views(self.orphans@) }
    }
}

impl Node {
    /// The DAG is in order, and every orphan is an event in keeping with
    /// its content.
    pub open spec fn sound(&self) -> bool {
        &&& self.dag.wf()
        &&& all_well_formed(self@.orphans)
    }

    /// The replica is sound, and no orphan could be admitted as the DAG
    /// stands.
    pub open spec fn wf(&self) -> bool {
        &&& self.sound()
        &&& self@.settled()
    }

    /// Identity, position and peers are the same in `self` and `other`.
    pub open spec fn same_station(&self, other: &Node) -> bool {
        &&& self.id == other.id
        &&& self.coords == other.coords
        &&& self.peers == other.peers
    }

    /// Where the replica stands at coordinate time `now_ns`: its own spatial
    /// position, at that time.
    pub open spec fn position_at(self, now_ns: u128) -> SpacetimeCoord {
        SpacetimeCoord {
            t: now_ns,
            x_bits: self.coords.x_bits,
            y_bits: self.coords.y_bits,
            z_bits: self.coords.z_bits,
        }
    }

    /// What authoring with identifier `event_id` at coordinate time `now_ns`
    /// does to a replica that was `before` and is `after`, and what it hands
    /// back.
    ///
    /// The event stands at the replica's own position at time `now_ns`,
    /// takes the heads as its parents and is offered like any other. Where
    /// it is admitted, one message for each peer, sent at `now_ns`, carries
    /// the events of its parents and then the event itself; where it is not,
    /// the replica is as it was and the verdict is the error.
    pub open spec fn authoring(
        self,
        before: ReplicaView,
        after: ReplicaView,
        event_id: EventId,
        now_ns: u128,
        payload: OperationView,
        r: Result<Vec<Message>, DagError>,
    ) -> bool {
        let e = authored(event_id, before.dag.heads, self.position_at(now_ns), payload);
        &&& after == before.absorb(e)
        &&& match r {
            Ok(out) => {
                &&& before.dag.verdict(e) is Ok
                &&& out@.len() == self.peers@.len()
                &&& forall|i: int|
                    0 <= i < out@.len() ==> carries(
                        #[trigger] out@[i],
                        self.id,
                        self.peers@[i],
                        now_ns,
                        gossip_for(before.dag, e),
                    )
            },
            Err(err) => before.dag.verdict(e) == Err::<(), DagError>(err) && err
                == DagError::Duplicate,
        }
    }

    /// A replica with a new DAG of its own and no orphans.
    pub fn new(id: NodeId, coords: SpacetimeCoord, peers: Vec<NodeId>) -> (node: Node)
        ensures
            node.id == id,
            node.coords == coords,
            node.peers == peers,
            node.wf(),
            node@.orphans.len() == 0,
            node@.dag.heads.len() == 1,
            node@.dag == DagView::initial(node@.dag.events[node@.dag.heads[0]]),
            node@.dag.events[node@.dag.heads[0]].is_genesis(),
    {
        Node { id, dag: SpacetimeDAG::new(), orphans: Vec::new(), coords, peers }
    }

    /// Whether an orphan with this hash is waiting.
    pub fn has_orphan(&self, hash: &EventHash) -> (r: bool)
        ensures
            r == self@.has_orphan(*hash),
    {
        let mut i: usize = 0;
        while i < self.orphans.len()
            invariant
                0 <= i <= self.orphans.len(),
                forall|j: int| 0 <= j < i ==> self.orphans@[j].hash != *hash,
            decreases self.orphans.len() - i,
        {
            if same_hash(&self.orphans[i].hash, hash) {
                assert(self@.orphans[i as int].hash == *hash);
                return true;
            }
            i = i + 1;
        }
        proof {
            if self@.has_orphan(*hash) {
                let i = choose|i: int|
                    0 <= i < self@.orphans.len() && (#[trigger] self@.orphans[i]).hash == *hash;
                assert(self.orphans@[i].hash != *hash);
            }
        }
        false
    }

    /// One pass over the orphans: each is offered to the DAG as it stands
    /// by then. The hashes of those admitted are appended to `log`.
    fn pass(&mut self, log: &mut Vec<EventHash>)
        requires
            old(self).sound(),
        ensures
            final(self).sound(),
            final(self).same_station(old(self)),
            final(self)@ == old(self)@.pass(),
            final(log)@ == old(log)@ + final(self)@.dag.order.skip(old(self)@.dag.order.len() as int),
    {
        let ghost start = self@;
        let ghost log0 = log@;
        let mut waiting: Vec<Event> = Vec::new();
        std::mem::swap(&mut waiting, &mut self.orphans);
        let ghost views = event_views(waiting@);
        proof {
            self.dag.lemma_view_well_formed();
            assert(views.take(0) =~= Seq::<EventView>::empty());
            assert(event_views(self.orphans@) =~= Seq::<EventView>::empty());
            assert(self@ == (ReplicaView { dag: start.dag, orphans: views.take(0) }));
            assert(start.dag.order.skip(start.dag.order.len() as int) =~= Seq::<EventHash>::empty());
            assert(log@ =~= log0 + start.dag.order.skip(start.dag.order.len() as int));
        }
        for orphan in it: waiting
            invariant
                it.seq() == waiting@,
                views == event_views(waiting@),
                views == start.orphans,
                all_well_formed(views),
                self.sound(),
                self.same_station(old(self)),
                self@ == (ReplicaView { dag: start.dag, orphans: views.take(it.index()) }).pass(),
                start.dag.order.len() <= self@.dag.order.len(),
                log@ == log0 + self@.dag.order.skip(start.dag.order.len() as int),
        {
            let ghost front = ReplicaView { dag: start.dag, orphans: views.take(it.index()) };
            let ghost next = ReplicaView { dag: start.dag, orphans: views.take(it.index() + 1) };
            let ghost now = self@;
            proof {
                assert(next.orphans.drop_last() =~= front.orphans);
                assert(next.orphans.last() == orphan@);
                assert(views[it.index()].well_formed());
                self.dag.lemma_view_well_formed();
            }
            match self.dag.verdict(&orphan) {
                Ok(()) => {
                    log.push(orphan.hash);
                    let _ = self.dag.add_event(orphan);
                    proof {
                        assert(self@.dag.order.skip(start.dag.order.len() as int) =~= now.dag.order.skip(
                            start.dag.order.len() as int,
                        ).push(orphan.hash));
                    }
                },
                Err(DagError::MissingParent) => {
                    let ghost o = orphan@;
                    self.orphans.push(orphan);
                    proof {
                        assert(event_views(self.orphans@) =~= now.orphans.push(o));
                        assert forall|i: int| 0 <= i < self@.orphans.len() implies (#[trigger] self@.orphans[i]).well_formed() by {
                            if i < now.orphans.len() {
                                assert(now.orphans[i].well_formed());
                            }
                        }
                    }
                },
                Err(DagError::Duplicate) => {},
            }
        }
        proof {
            assert(views.take(waiting@.len() as int) =~= views);
        }
    }

    /// Passes over the orphans until one lets no orphan go. The hashes of
    /// the orphans admitted are appended to `log`.
    fn settle(&mut self, log: &mut Vec<EventHash>)
        requires
            old(self).sound(),
        ensures
            final(self).wf(),
            final(self).same_station(old(self)),
            final(self)@ == old(self)@.settle(),
            final(log)@ == old(log)@ + final(self)@.dag.order.skip(old(self)@.dag.order.len() as int),
    {
        let ghost start = self@;
        let ghost log0 = log@;
        proof {
            self.dag.lemma_view_well_formed();
            lemma_settle(start);
            assert(start.dag.order.skip(start.dag.order.len() as int) =~= Seq::<EventHash>::empty());
            assert(log@ =~= log0 + start.dag.order.skip(start.dag.order.len() as int));
            assert(start.dag.order.take(start.dag.order.len() as int) =~= start.dag.order);
        }
        loop
            invariant
                self.sound(),
                self.same_station(old(self)),
                self@.settle() == start.settle(),
                start.grown_into(self@),
                log@ == log0 + self@.dag.order.skip(start.dag.order.len() as int),
            ensures
                self.wf(),
                self.same_station(old(self)),
                self@ == start.settle(),
                log@ == log0 + self@.dag.order.skip(start.dag.order.len() as int),
            decreases self.orphans@.len(),
        {
            let ghost now = self@;
            let ghost logged = log@;
            let count = self.orphans.len();
            proof {
                self.dag.lemma_view_well_formed();
                lemma_pass(now);
            }
            self.pass(log);
            proof {
                crate::model::lemma_grown_transitive(start, now, self@);
                let n0 = start.dag.order.len() as int;
                let n1 = now.dag.order.len() as int;
                assert(self@.dag.order.take(n1) == now.dag.order);
                assert(self@.dag.order.skip(n0) =~= now.dag.order.skip(n0) + self@.dag.order.skip(n1)) by {
                    assert forall|i: int| 0 <= i < n1 - n0 implies self@.dag.order.skip(n0)[i]
                        == now.dag.order.skip(n0)[i] by {
                        assert(self@.dag.order.take(n1)[i + n0] == now.dag.order[i + n0]);
                    }
                }
            }
            if self.orphans.len() >= count {
                break;
            }
        }
    }

    /// Offers one event. Where it is admitted, the orphans that waited for
    /// it are admitted after it; where a parent is missing, it joins the
    /// orphans. The hashes of the events admitted are appended to `log`.
    pub fn absorb(&mut self, event: Event, log: &mut Vec<EventHash>)
        requires
            old(self).wf(),
        ensures
            final(self).wf(),
            final(self).same_station(old(self)),
            final(self)@ == old(self)@.absorb(event@),
            old(self)@.grown_into(final(self)@),
            final(log)@ == old(log)@ + final(self)@.dag.order.skip(old(self)@.dag.order.len() as int),
    {
        let ghost start = self@;
        let ghost log0 = log@;
        proof {
            use_type_invariant(&event);
            self.dag.lemma_view_well_formed();
            lemma_absorb(start, event@);
            assert(start.dag.order.skip(start.dag.order.len() as int) =~= Seq::<EventHash>::empty());
            assert(log@ =~= log0 + start.dag.order.skip(start.dag.order.len() as int));
        }
        match self.dag.verdict(&event) {
            Ok(()) => {
                log.push(event.hash);
                let ghost e = event@;
                let _ = self.dag.add_event(event);
                let ghost mid = self@;
                proof {
                    lemma_accept_well_formed(start.dag, e);
                    assert(mid.dag.order.skip(start.dag.order.len() as int) =~= seq![e.hash]);
                }
                self.settle(log);
                proof {
                    lemma_settle(mid);
                    let n0 = start.dag.order.len() as int;
                    let n1 = mid.dag.order.len() as int;
                    assert(self@.dag.order.take(n1) == mid.dag.order);
                    assert(self@.dag.order.skip(n0) =~= mid.dag.order.skip(n0) + self@.dag.order.skip(n1)) by {
                        assert(self@.dag.order.take(n1)[n0] == mid.dag.order[n0]);
                    }
                }
            },
            Err(DagError::MissingParent) => {
                if !self.has_orphan(&event.hash) {
                    let ghost before = self.orphans@;
                    let ghost e = event@;
                    self.orphans.push(event);
                    proof {
                        assert(event_views(self.orphans@) =~= event_views(before).push(e));
                    }
                }
            },
            Err(DagError::Duplicate) => {},
        }
    }

    /// Offers each event of `events` in turn, as [`Node::absorb`] does.
    /// Returns the hashes of the events that were admitted, in the order of
    /// their admission.
    pub fn handle_gossip(&mut self, events: Vec<Event>) -> (admitted: Vec<EventHash>)
        requires
            old(self).wf(),
        ensures
            final(self).wf(),
            final(self).same_station(old(self)),
            final(self)@ == old(self)@.absorb_all(event_views(events@)),
            old(self)@.grown_into(final(self)@),
            admitted@ == final(self)@.dag.order.skip(old(self)@.dag.order.len() as int),
    {
        let ghost start = self@;
        let ghost views = event_views(events@);
        let mut admitted: Vec<EventHash> = Vec::new();
        proof {
            self.dag.lemma_view_well_formed();
            assert(views.take(0) =~= Seq::<EventView>::empty());
            assert(start.dag.order.skip(start.dag.order.len() as int) =~= Seq::<EventHash>::empty());
            assert(start.dag.order.take(start.dag.order.len() as int) =~= start.dag.order);
        }
        for event in it: events
            invariant
                it.seq() == events@,
                views == event_views(events@),
                self.wf(),
                self.same_station(old(self)),
                self@ == start.absorb_all(views.take(it.index())),
                start.grown_into(self@),
                admitted@ == self@.dag.order.skip(start.dag.order.len() as int),
        {
            let ghost now = self@;
            proof {
                let next = views.take(it.index() + 1);
                assert(next.drop_last() =~= views.take(it.index()));
                assert(next.last() == event@);
            }
            self.absorb(event, &mut admitted);
            proof {
                crate::model::lemma_grown_transitive(start, now, self@);
                let n0 = start.dag.order.len() as int;
                let n1 = now.dag.order.len() as int;
                assert(self@.dag.order.take(n1) == now.dag.order);
                assert(self@.dag.order.skip(n0) =~= now.dag.order.skip(n0) + self@.dag.order.skip(n1)) by {
                    assert forall|i: int| 0 <= i < n1 - n0 implies self@.dag.order.skip(n0)[i]
                        == now.dag.order.skip(n0)[i] by {
                        assert(self@.dag.order.take(n1)[i + n0] == now.dag.order[i + n0]);
                    }
                }
            }
        }
        proof {
            assert(views.take(events@.len() as int) =~= views);
        }
        admitted
    }

    /// Takes in what the light-cone layer has released: the event of each
    /// `Gossip` is offered in the order of release, a `Hello` is passed
    /// over. Returns the hashes of the events that were admitted.
    pub fn admit_released(&mut self, msgs: Vec<ProtocolMessage>) -> (admitted: Vec<EventHash>)
        requires
            old(self).wf(),
        ensures
            final(self).wf(),
            final(self).same_station(old(self)),
            final(self)@ == old(self)@.absorb_all(gossiped(msgs@)),
            old(self)@.grown_into(final(self)@),
            admitted@ == final(self)@.dag.order.skip(old(self)@.dag.order.len() as int),
    {
        let mut events: Vec<Event> = Vec::new();
        proof {
            assert(msgs@.take(0) =~= Seq::<ProtocolMessage>::empty());
            assert(event_views(events@) =~= gossiped(msgs@.take(0)));
        }
        for msg in it: msgs
            invariant
                it.seq() == msgs@,
                event_views(events@) == gossiped(msgs@.take(it.index())),
        {
            let ghost sofar = events@;
            proof {
                let next = msgs@.take(it.index() + 1);
                assert(next.drop_last() =~= msgs@.take(it.index()));
                assert(next.last() == msg);
            }
            match msg {
                ProtocolMessage::Gossip(event) => {
                    let ghost e = event@;
                    events.push(event);
                    proof {
                        assert(event_views(events@) =~= event_views(sofar).push(e));
                    }
                },
                ProtocolMessage::Hello { .. } => {},
            }
        }
        proof {
            assert(msgs@.take(msgs@.len() as int) =~= msgs@);
        }
        self.handle_gossip(events)
    }

    /// One tick of the release cycle: drains from `layer` what is due at
    /// `now` and offers the released events. Returns the hashes of the
    /// events that were admitted.
    pub fn release(&mut self, layer: &mut PhysicsLayer, now: u128) -> (admitted: Vec<EventHash>)
        requires
            old(self).wf(),
        ensures
            final(self).wf(),
            final(self).same_station(old(self)),
            final(layer)@ == retained(old(layer)@, now),
            final(self)@ == old(self)@.absorb_all(gossiped(messages(released(old(layer)@, now)))),
            old(self)@.grown_into(final(self)@),
            admitted@ == final(self)@.dag.order.skip(old(self)@.dag.order.len() as int),
    {
        let ready = layer.drain_arrived(now);
        self.admit_released(ready)
    }

    /// Takes in one inbound message: gossip is offered event by event,
    /// anything else is left aside. Returns the hashes of the events that
    /// were admitted.
    pub fn handle_message(&mut self, msg: Message) -> (admitted: Vec<EventHash>)
        requires
            old(self).wf(),
        ensures
            final(self).wf(),
            final(self).same_station(old(self)),
            old(self)@.grown_into(final(self)@),
            admitted@ == final(self)@.dag.order.skip(old(self)@.dag.order.len() as int),
            match msg.payload {
                NetworkPacket::Gossip(events) => final(self)@ == old(self)@.absorb_all(
                    event_views(events@),
                ),
                NetworkPacket::AntiEntropyRequest(_) => final(self)@ == old(self)@,
            },
    {
        match msg.payload {
            NetworkPacket::Gossip(events) => self.handle_gossip(events),
            NetworkPacket::AntiEntropyRequest(_) => {
                proof {
                    self.dag.lemma_view_well_formed();
                    let v = self@.dag;
                    assert(v.order.skip(v.order.len() as int) =~= Seq::<EventHash>::empty());
                    assert(v.order.take(v.order.len() as int) =~= v.order);
                }
                Vec::new()
            },
        }
    }

    /// Carries out one command of the application.
    pub fn handle_command(&mut self, cmd: NodeCommand) -> (r: Result<Vec<Message>, DagError>)
        requires
            old(self).wf(),
        ensures
            final(self).wf(),
            final(self).same_station(old(self)),
            match cmd {
                NodeCommand::CreateEvent { now_ns, payload } => exists|event_id: EventId|
                    is_random_uuid(event_id@) && old(self).authoring(
                        old(self)@,
                        final(self)@,
                        event_id,
                        now_ns,
                        payload@,
                        r,
                    ),
            },
    {
        match cmd {
            NodeCommand::CreateEvent { now_ns, payload } => self.create_event(now_ns, payload),
        }
    }

    /// Authors an event with a freshly drawn identifier, at the replica's own
    /// position and at the coordinate time `now_ns`, on top of the current
    /// heads; admits it, and composes the gossip for every peer.
    ///
    /// Whatever identifier was drawn, the outcome is the one that
    /// [`Node::create_event_with_id`] gives for it.
    pub fn create_event(&mut self, now_ns: u128, payload: Operation) -> (r: Result<
        Vec<Message>,
        DagError,
    >)
        requires
            old(self).wf(),
        ensures
            final(self).wf(),
            final(self).same_station(old(self)),
            exists|event_id: EventId|
                is_random_uuid(event_id@) && old(self).authoring(
                    old(self)@,
                    final(self)@,
                    event_id,
                    now_ns,
                    payload@,
                    r,
                ),
    {
        let event_id = fresh_id();
        let r = self.create_event_with_id(event_id, now_ns, payload);
        assert(old(self).authoring(old(self)@, self@, event_id, now_ns, payload@, r));
        r
    }

    /// Authors the event with the identifier given, at the replica's own
    /// position and at the coordinate time `now_ns`, on top of the current
    /// heads; admits it, and composes the gossip for every peer.
    pub fn create_event_with_id(
        &mut self,
        event_id: EventId,
        now_ns: u128,
        payload: Operation,
    ) -> (r: Result<Vec<Message>, DagError>)
        requires
            old(self).wf(),
        ensures
            final(self).wf(),
            final(self).same_station(old(self)),
            old(self).authoring(old(self)@, final(self)@, event_id, now_ns, payload@, r),
    {
        let ghost start = self@;
        let ghost before = self.dag@;
        let coords = SpacetimeCoord {
            t: now_ns,
            x_bits: self.coords.x_bits,
            y_bits: self.coords.y_bits,
            z_bits: self.coords.z_bits,
        };
        assert(coords == old(self).position_at(now_ns));
        proof {
            self.dag.lemma_view_well_formed();
        }
        let parents = canonical_parents(self.dag.heads());
        let ghost e = authored(event_id, before.heads, coords, payload@);
        proof {
            assert forall|p: EventHash| e.parents.contains(p) implies before.resident(p) by {
                assert(parents@.contains(p));
                assert(before.heads.contains(p));
            }
            if before.missing_parent(e) {
                let p = choose|p: EventHash| e.parents.contains(p) && !before.resident(p);
                assert(before.resident(p));
            }
        }
        let mut gossip: Vec<Event> = Vec::new();
        let mut i: usize = 0;
        while i < parents.len()
            invariant
                0 <= i <= parents.len(),
                self.dag.wf(),
                self.dag@ == before,
                parents@ == e.parents,
                forall|p: EventHash| e.parents.contains(p) ==> before.resident(p),
                gossip@.len() == i,
                forall|j: int| 0 <= j < i ==> (#[trigger] gossip@[j])@ == before.events[parents@[j]],
            decreases parents.len() - i,
        {
            assert(e.parents.contains(parents@[i as int]));
            match self.dag.get(&parents[i]) {
                Some(parent) => {
                    gossip.push(parent.clone());
                },
                None => {},
            }
            i = i + 1;
        }
        let event = Event::with_id(event_id, copy_hashes(&parents), coords, payload);
        proof {
            crate::event::lemma_canonical_order(parents@, parents@);
            assert(event@ == e);
        }
        gossip.push(event.clone());
        assert(event_views(gossip@) =~= gossip_for(before, e));
        match self.dag.verdict(&event) {
            Ok(()) => {},
            Err(err) => {
                return Err(err);
            },
        }
        let mut log: Vec<EventHash> = Vec::new();
        self.absorb(event, &mut log);
        let mut out: Vec<Message> = Vec::new();
        let mut k: usize = 0;
        while k < self.peers.len()
            invariant
                0 <= k <= self.peers.len(),
                self.wf(),
                self.same_station(old(self)),
                self@ == start.absorb(e),
                event_views(gossip@) == gossip_for(before, e),
                out@.len() == k,
                forall|j: int|
                    0 <= j < k ==> carries(
                        #[trigger] out@[j],
                        self.id,
                        self.peers@[j],
                        now_ns,
                        gossip_for(before, e),
                    ),
            decreases self.peers.len() - k,
        {
            out.push(
                Message {
                    sender: self.id,
                    receiver: self.peers[k],
                    send_time: now_ns,
                    payload: NetworkPacket::Gossip(copy_events(&gossip)),
                },
            );
            k = k + 1;
        }
        Ok(out)
    }
}

} // verus!
