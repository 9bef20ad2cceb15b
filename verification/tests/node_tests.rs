use minkowski_kv::dag::SpacetimeDAG;
use minkowski_kv::event::{Event, EventHash, Operation};
use minkowski_kv::node::{fmt_hash, Node, NodeCommand};
use minkowski_kv::simulation::{Cluster, Message, NetworkPacket, Route, RouteError};
use minkowski_kv::physics::PhysicsLayer;
use minkowski_kv::protocol::ProtocolMessage;
use minkowski_kv::spacetime::SpacetimeCoord;

fn coord(t: u128, x: f64, y: f64, z: f64) -> SpacetimeCoord {
    SpacetimeCoord { t, x_bits: x.to_bits(), y_bits: y.to_bits(), z_bits: z.to_bits() }
}

fn gossip_of(m: &Message) -> &Vec<Event> {
    match &m.payload {
        NetworkPacket::Gossip(events) => events,
        _ => panic!("not a gossip"),
    }
}

fn hashes(events: &[Event]) -> Vec<EventHash> {
    events.iter().map(|e| e.hash()).collect()
}

#[test]
fn hashes_are_written_as_lower_case_hex() {
    let mut h = [0u8; 32];
    h[0] = 0x00;
    h[1] = 0x0f;
    h[2] = 0xa0;
    h[3] = 0xff;
    h[4] = 0x9c;
    h[31] = 0x01;
    let text = fmt_hash(&h);
    assert_eq!(text, "000fa0ff9c000000000000000000000000000000000000000000000000000001");
    assert_eq!(text.len(), 64);
    let all: Vec<u8> = (0u8..32).map(|i| i * 8 + 3).collect();
    let mut arr = [0u8; 32];
    arr.copy_from_slice(&all);
    let expected: String = all.iter().map(|b| format!("{:02x}", b)).collect();
    assert_eq!(fmt_hash(&arr), expected);
}

#[test]
fn a_new_node_has_a_dag_of_its_own() {
    let node = Node::new([1u8; 16], coord(0, 300.0, 0.0, 0.0), vec![[2u8; 16]]);
    assert_eq!(node.id, [1u8; 16]);
    assert_eq!(node.peers, vec![[2u8; 16]]);
    assert_eq!(node.coords, coord(0, 300.0, 0.0, 0.0));
    assert_eq!(node.dag.heads().len(), 1);
    assert!(node.orphans.is_empty());
}

#[test]
fn authoring_parents_the_heads_and_tells_every_peer() {
    let mut node = Node::new([1u8; 16], coord(5, 1.0, 2.0, 3.0), vec![[2u8; 16], [3u8; 16]]);
    let g = node.dag.heads()[0];
    let out = node
        .create_event_with_id([7u8; 16], 42, Operation::Put("k".to_string(), vec![1]))
        .expect("the heads are resident");
    let at = coord(42, 1.0, 2.0, 3.0);
    let expected = Event::with_id([7u8; 16], vec![g], at, Operation::Put("k".to_string(), vec![1]));
    assert_eq!(node.dag.get(&expected.hash()).expect("the event is resident").coords(), at);
    assert_eq!(node.coords, coord(5, 1.0, 2.0, 3.0));
    assert_eq!(node.dag.heads(), vec![expected.hash()]);
    assert_eq!(out.len(), 2);
    for (i, m) in out.iter().enumerate() {
        assert_eq!(m.sender, [1u8; 16]);
        assert_eq!(m.receiver, node.peers[i]);
        assert_eq!(m.send_time, 42);
        assert_eq!(hashes(gossip_of(m)), vec![g, expected.hash()]);
    }
}

#[test]
fn gossip_carries_the_parents_before_the_event() {
    let mut node = Node::new([1u8; 16], SpacetimeCoord::origin(), vec![[2u8; 16]]);
    let g = node.dag.heads()[0];
    let a = Event::with_id([10u8; 16], vec![g], coord(1, 0.0, 0.0, 0.0), Operation::Merge);
    let b = Event::with_id([11u8; 16], vec![g], coord(1, 0.0, 0.0, 0.0), Operation::Merge);
    let (ha, hb) = (a.hash(), b.hash());
    assert_eq!(node.handle_gossip(vec![a, b]), vec![ha, hb]);
    let out = node.create_event_with_id([12u8; 16], 2, Operation::Merge).unwrap();
    let mut parents = vec![ha, hb];
    parents.sort();
    let sent = hashes(gossip_of(&out[0]));
    assert_eq!(sent.len(), 3);
    assert_eq!(sent[..2].to_vec(), parents);
    let event = &gossip_of(&out[0])[2];
    assert_eq!(event.parents().to_vec(), parents);
    assert_eq!(node.dag.heads(), vec![event.hash()]);
}

#[test]
fn a_peer_takes_in_what_was_gossiped() {
    let mut earth = Node::new([1u8; 16], SpacetimeCoord::origin(), vec![[2u8; 16]]);
    let first = earth.create_event(1, Operation::Put("a".to_string(), vec![1])).unwrap();
    let second = earth.create_event(2, Operation::Delete("a".to_string())).unwrap();
    let mut mars = Node::new([2u8; 16], coord(0, 300.0, 0.0, 0.0), vec![[1u8; 16]]);
    let own_genesis = mars.dag.heads()[0];

    // Earth's genesis is unknown on Mars: the first event has to wait.
    let mut events = gossip_of(&first[0]).clone();
    let foreign_genesis = events.remove(0);
    let first_hash = events[0].hash();
    assert!(mars.handle_gossip(events).is_empty());
    assert_eq!(mars.dag.heads(), vec![own_genesis]);
    assert_eq!(hashes(&mars.orphans), vec![first_hash]);
    assert!(mars.has_orphan(&first_hash));

    // With the ancestor admitted, the one that waited follows it.
    let genesis_hash = foreign_genesis.hash();
    let mut all = vec![foreign_genesis];
    all.extend(gossip_of(&second[0]).clone());
    let second_hash = all[2].hash();
    assert_eq!(mars.handle_gossip(all), vec![genesis_hash, first_hash, second_hash]);
    assert_eq!(mars.dag.heads(), vec![own_genesis, earth.dag.heads()[0]]);
    assert!(mars.orphans.is_empty());

    // Offered again, nothing is admitted and nothing changes.
    let again = Message {
        sender: [1u8; 16],
        receiver: [2u8; 16],
        send_time: 2,
        payload: NetworkPacket::Gossip(gossip_of(&second[0]).clone()),
    };
    assert!(mars.handle_message(again).is_empty());
    assert_eq!(mars.dag.heads(), vec![own_genesis, earth.dag.heads()[0]]);
    assert!(mars.orphans.is_empty());
}

#[test]
fn orphans_are_admitted_once_their_ancestors_are() {
    let mut node = Node::new([1u8; 16], SpacetimeCoord::origin(), Vec::new());
    let g = node.dag.heads()[0];
    let a = Event::with_id([10u8; 16], vec![g], coord(1, 0.0, 0.0, 0.0), Operation::Merge);
    let b = Event::with_id([11u8; 16], vec![a.hash()], coord(2, 0.0, 0.0, 0.0), Operation::Merge);
    let c = Event::with_id([12u8; 16], vec![b.hash(), a.hash()], coord(3, 0.0, 0.0, 0.0), Operation::Merge);
    let d = Event::with_id([13u8; 16], vec![[0xeeu8; 32]], coord(4, 0.0, 0.0, 0.0), Operation::Merge);
    let (ha, hb, hc, hd) = (a.hash(), b.hash(), c.hash(), d.hash());

    assert!(node.handle_gossip(vec![c.clone(), d.clone(), b.clone()]).is_empty());
    assert_eq!(hashes(&node.orphans), vec![hc, hd, hb]);
    assert_eq!(node.dag.heads(), vec![g]);

    // The same orphan is not kept twice.
    assert!(node.handle_gossip(vec![c, b.clone()]).is_empty());
    assert_eq!(hashes(&node.orphans), vec![hc, hd, hb]);

    // The missing ancestor lets both of its descendants in; the stranger's child stays.
    assert_eq!(node.handle_gossip(vec![a]), vec![ha, hb, hc]);
    assert_eq!(hashes(&node.orphans), vec![hd]);
    assert_eq!(node.dag.heads(), vec![hc]);
    assert!(node.dag.contains(&hb));
    assert!(!node.dag.contains(&hd));

    // What is resident by now is no orphan any more.
    assert!(node.handle_gossip(vec![b, d]).is_empty());
    assert_eq!(hashes(&node.orphans), vec![hd]);
}

#[test]
fn authoring_lets_in_the_orphans_that_waited_for_the_new_event() {
    let mut node = Node::new([1u8; 16], SpacetimeCoord::origin(), vec![[2u8; 16]]);
    let g = node.dag.heads()[0];
    let at = coord(1, 0.0, 0.0, 0.0);
    let expected = Event::with_id([7u8; 16], vec![g], at, Operation::Merge);
    let child = Event::with_id([8u8; 16], vec![expected.hash()], coord(2, 0.0, 0.0, 0.0), Operation::Merge);
    let hc = child.hash();
    assert!(node.handle_gossip(vec![child]).is_empty());
    let out = node.create_event_with_id([7u8; 16], 1, Operation::Merge).unwrap();
    assert_eq!(hashes(gossip_of(&out[0])), vec![g, expected.hash()]);
    assert_eq!(node.dag.heads(), vec![hc]);
    assert!(node.orphans.is_empty());
}

#[test]
fn an_anti_entropy_request_changes_nothing() {
    let mut node = Node::new([1u8; 16], SpacetimeCoord::origin(), Vec::new());
    let before = node.dag.heads();
    let msg = Message {
        sender: [2u8; 16],
        receiver: [1u8; 16],
        send_time: 0,
        payload: NetworkPacket::AntiEntropyRequest(vec![[0u8; 32]]),
    };
    assert!(node.handle_message(msg).is_empty());
    assert_eq!(node.dag.heads(), before);
}

#[test]
fn a_command_authors_an_event() {
    let mut node = Node::new([1u8; 16], coord(0, 300.0, -4.0, 0.5), vec![[2u8; 16]]);
    let g = node.dag.heads()[0];
    let out = node
        .handle_command(NodeCommand::CreateEvent { now_ns: 9, payload: Operation::Merge })
        .unwrap();
    assert_eq!(out.len(), 1);
    let sent = gossip_of(&out[0]);
    assert_eq!(sent.len(), 2);
    assert_eq!(sent[0].hash(), g);
    assert_eq!(sent[1].parents().to_vec(), vec![g]);
    assert_eq!(sent[1].coords(), coord(9, 300.0, -4.0, 0.5));
    assert_eq!(sent[1].id()[6] >> 4, 4);
    assert_eq!(node.dag.heads(), vec![sent[1].hash()]);
    assert_eq!(out[0].send_time, 9);
}

#[test]
fn a_node_without_peers_tells_nobody() {
    let mut node = Node::new([1u8; 16], SpacetimeCoord::origin(), Vec::new());
    let out = node.create_event(1, Operation::Merge).unwrap();
    assert!(out.is_empty());
    assert_eq!(node.dag.heads().len(), 1);
}

#[test]
fn released_gossip_is_admitted_in_order_of_release() {
    let mut node = Node::new([1u8; 16], SpacetimeCoord::origin(), Vec::new());
    let g = node.dag.heads()[0];
    let a = Event::with_id([10u8; 16], vec![g], coord(1, 0.0, 0.0, 0.0), Operation::Merge);
    let b = Event::with_id([11u8; 16], vec![a.hash()], coord(2, 0.0, 0.0, 0.0), Operation::Merge);
    let (ha, hb) = (a.hash(), b.hash());
    let mut layer = PhysicsLayer::new();
    // The child is due before its parent: it is released first and has to wait.
    layer.ingest(ProtocolMessage::Gossip(b.clone()), 0, 10);
    layer.ingest(ProtocolMessage::Hello { coords: (0, 0, 0) }, 0, 15);
    layer.ingest(ProtocolMessage::Gossip(a), 0, 20);
    assert!(node.release(&mut layer, 5).is_empty());
    assert_eq!(layer.len(), 3);
    assert!(node.release(&mut layer, 15).is_empty());
    assert_eq!(layer.len(), 1);
    assert_eq!(hashes(&node.orphans), vec![hb]);
    assert_eq!(node.release(&mut layer, 20), vec![ha, hb]);
    assert_eq!(layer.len(), 0);
    assert_eq!(node.dag.heads(), vec![hb]);
    assert!(node.orphans.is_empty());
    assert!(node.admit_released(vec![ProtocolMessage::Gossip(b)]).is_empty());
    assert_eq!(node.dag.heads(), vec![hb]);
}

#[test]
fn a_route_needs_both_ends_registered() {
    let earth = [1u8; 16];
    let mut mars = [1u8; 16];
    mars[15] = 2;
    let msg = |sender, receiver| Message {
        sender,
        receiver,
        send_time: 0,
        payload: NetworkPacket::Gossip(Vec::new()),
    };
    let mut cluster = Cluster::new();
    assert_eq!(cluster.route_message(&msg(earth, mars)), Err(RouteError::UnknownSender));
    cluster.register_node(mars, coord(0, 1000.0, 0.0, 0.0));
    assert_eq!(cluster.route_message(&msg(earth, mars)), Err(RouteError::UnknownSender));
    assert_eq!(cluster.route_message(&msg(mars, earth)), Err(RouteError::UnknownReceiver));
    cluster.register_node(earth, coord(0, 0.0, 0.0, 0.0));
    assert_eq!(
        cluster.route_message(&msg(earth, mars)),
        Ok(Route { from: coord(0, 0.0, 0.0, 0.0), to: coord(0, 1000.0, 0.0, 0.0) })
    );
    cluster.register_node(earth, coord(5, 1.0, 2.0, 3.0));
    assert_eq!(
        cluster.route_message(&msg(earth, earth)),
        Ok(Route { from: coord(5, 1.0, 2.0, 3.0), to: coord(5, 1.0, 2.0, 3.0) })
    );
    assert_eq!(RouteError::UnknownSender.message(), "Unknown sender");
    assert_eq!(RouteError::UnknownReceiver.message(), "Unknown receiver");
}

fn replica(genesis: u8) -> Node {
    Node {
        id: [1u8; 16],
        dag: SpacetimeDAG::with_genesis_id([genesis; 16]),
        orphans: Vec::new(),
        coords: SpacetimeCoord::origin(),
        peers: Vec::new(),
    }
}

fn sorted(mut hashes: Vec<EventHash>) -> Vec<EventHash> {
    hashes.sort();
    hashes
}

#[test]
fn replicas_converge_whatever_the_order_of_arrival() {
    let mut first = replica(0);
    let mut second = replica(0);
    let g = first.dag.heads()[0];
    let a = Event::with_id([10u8; 16], vec![g], coord(1, 0.0, 0.0, 0.0), Operation::Merge);
    let b = Event::with_id([11u8; 16], vec![g], coord(1, 5.0, 0.0, 0.0), Operation::Merge);
    let c = Event::with_id([12u8; 16], vec![a.hash(), b.hash()], coord(2, 0.0, 0.0, 0.0), Operation::Merge);
    let d = Event::with_id([13u8; 16], vec![c.hash()], coord(3, 0.0, 0.0, 0.0), Operation::Merge);
    let e = Event::with_id([14u8; 16], vec![b.hash()], coord(3, 5.0, 0.0, 0.0), Operation::Merge);
    let lost = Event::with_id([15u8; 16], vec![[0x99u8; 32], d.hash()], coord(4, 0.0, 0.0, 0.0), Operation::Merge);
    let all = vec![a.clone(), b.clone(), c.clone(), d.clone(), e.clone(), lost.clone()];

    let in_order = first.handle_gossip(all.clone());
    assert_eq!(in_order, vec![a.hash(), b.hash(), c.hash(), d.hash(), e.hash()]);

    let shuffled = vec![lost.clone(), d.clone(), e.clone(), c.clone(), d.clone(), b.clone(), lost.clone(), a.clone(), e.clone()];
    let out_of_order = second.handle_gossip(shuffled);
    assert_eq!(sorted(out_of_order), sorted(in_order));

    assert_eq!(sorted(first.dag.heads()), sorted(second.dag.heads()));
    assert_eq!(sorted(first.dag.heads()), sorted(vec![d.hash(), e.hash()]));
    for ev in &all {
        assert_eq!(first.dag.contains(&ev.hash()), second.dag.contains(&ev.hash()));
        assert_eq!(
            sorted(hashes(&first.dag.events_in_causal_closure(&ev.hash()))),
            sorted(hashes(&second.dag.events_in_causal_closure(&ev.hash())))
        );
    }
    assert_eq!(hashes(&first.orphans), vec![lost.hash()]);
    assert_eq!(hashes(&second.orphans), vec![lost.hash()]);
}

#[test]
fn an_event_is_authored_where_the_replica_stands() {
    let home = coord(7, 1000.0, -2.5, 3.0e8);
    let mut node = Node::new([1u8; 16], home, vec![[2u8; 16]]);
    let out = node.create_event(123_456_789, Operation::Put("k".to_string(), vec![1])).unwrap();
    let event = &gossip_of(&out[0])[1];
    assert_eq!(event.coords(), coord(123_456_789, 1000.0, -2.5, 3.0e8));
    assert_eq!(out[0].send_time, 123_456_789);
    let resident = node.dag.get(&event.hash()).unwrap();
    assert_eq!(f64::from_bits(resident.coords().x_bits), 1000.0);
    assert_eq!(f64::from_bits(resident.coords().y_bits), -2.5);
    assert_eq!(f64::from_bits(resident.coords().z_bits), 3.0e8);
    assert_eq!(resident.coords().t, 123_456_789);
    assert_eq!(node.coords, home);
}
