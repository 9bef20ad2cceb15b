use minkowski_kv::event::{Event, Operation};
use minkowski_kv::physics::PhysicsLayer;
use minkowski_kv::protocol::ProtocolMessage;
use minkowski_kv::simulation::{Cluster, Message, NetworkPacket};
use minkowski_kv::spacetime::SpacetimeCoord;

fn hello(n: u64) -> ProtocolMessage {
    ProtocolMessage::Hello { coords: (n, 0, 0) }
}

fn tag(msg: &ProtocolMessage) -> u64 {
    match msg {
        ProtocolMessage::Hello { coords } => coords.0,
        ProtocolMessage::Gossip(_) => u64::MAX,
    }
}

fn tags(msgs: &[ProtocolMessage]) -> Vec<u64> {
    msgs.iter().map(tag).collect()
}

#[test]
fn gate_holds_a_message_until_its_delay_has_passed() {
    // c = 100 m/s and 1000 m of separation: ten seconds of delay.
    let delay_ns: u128 = 10_000_000_000;
    let mut gate = PhysicsLayer::new();
    let event = Event::with_id([1u8; 16], Vec::new(), SpacetimeCoord::origin(), Operation::Merge);
    let hash = event.hash();
    gate.ingest(ProtocolMessage::Gossip(event), 0, delay_ns);
    assert!(gate.drain_arrived(0).is_empty());
    assert!(gate.drain_arrived(delay_ns - 1).is_empty());
    assert_eq!(gate.len(), 1);
    let out = gate.drain_arrived(delay_ns);
    assert_eq!(out.len(), 1);
    match &out[0] {
        ProtocolMessage::Gossip(e) => assert_eq!(e.hash(), hash),
        _ => panic!("another message came out"),
    }
    assert_eq!(gate.len(), 0);
    assert!(gate.drain_arrived(u128::MAX).is_empty());
}

#[test]
fn messages_come_out_in_ascending_order_of_deadline() {
    let mut gate = PhysicsLayer::new();
    gate.ingest(hello(1), 0, 50);
    gate.ingest(hello(2), 0, 10);
    gate.ingest(hello(3), 5, 30);
    gate.ingest(hello(4), 6, 0);
    assert_eq!(gate.next_deadline(), Some(6));
    assert_eq!(tags(&gate.drain(100)), vec![4, 2, 3, 1]);
}

#[test]
fn equal_deadlines_keep_the_order_of_ingest() {
    let mut gate = PhysicsLayer::new();
    gate.ingest(hello(1), 0, 20);
    gate.ingest(hello(2), 10, 10);
    gate.ingest(hello(3), 20, 0);
    gate.ingest(hello(4), 0, 10);
    gate.ingest(hello(5), 5, 15);
    assert_eq!(tags(&gate.drain(20)), vec![4, 1, 2, 3, 5]);
}

#[test]
fn drain_releases_exactly_what_is_due() {
    let mut gate = PhysicsLayer::new();
    gate.ingest(hello(1), 0, 10);
    gate.ingest(hello(2), 0, 20);
    gate.ingest(hello(3), 0, 30);
    assert!(gate.drain(9).is_empty());
    assert_eq!(tags(&gate.drain(10)), vec![1]);
    assert_eq!(gate.next_deadline(), Some(20));
    assert_eq!(tags(&gate.drain(29)), vec![2]);
    assert_eq!(gate.len(), 1);
    assert_eq!(tags(&gate.drain(30)), vec![3]);
    assert_eq!(gate.next_deadline(), None);
}

#[test]
fn a_deadline_beyond_the_clock_is_held_at_its_end() {
    let mut gate = PhysicsLayer::new();
    gate.ingest(hello(1), u128::MAX - 5, 10);
    gate.ingest(hello(2), 7, u128::MAX);
    gate.ingest(hello(3), 1, 1);
    assert_eq!(tags(&gate.drain(u128::MAX - 1)), vec![3]);
    assert_eq!(gate.next_deadline(), Some(u128::MAX));
    assert_eq!(tags(&gate.drain(u128::MAX)), vec![1, 2]);
}

#[test]
fn releases_over_many_drains_never_go_back_in_deadline() {
    let mut gate = PhysicsLayer::new();
    let mut released: Vec<(u128, u128)> = Vec::new();
    let mut deadlines: Vec<u128> = vec![0; 200];
    let mut now: u128 = 0;
    for i in 0u64..200 {
        now += (i as u128 * 7) % 13;
        let delay = (i as u128 * 31) % 97;
        deadlines[i as usize] = now + delay;
        gate.ingest(hello(i), now, delay);
        if i % 5 == 0 {
            for m in gate.drain_arrived(now) {
                released.push((deadlines[tag(&m) as usize], now));
            }
        }
    }
    for m in gate.drain_arrived(now + 1000) {
        released.push((deadlines[tag(&m) as usize], now + 1000));
    }
    assert_eq!(released.len(), 200);
    for pair in released.windows(2) {
        assert!(pair[0].0 <= pair[1].0);
    }
    for (deadline, at) in &released {
        assert!(deadline <= at);
    }
}

#[test]
fn mars_delay() {
    // Light is slowed to 100 m/s to keep the delay at a human scale.
    let c: f64 = 100.0;

    let earth_id = [1u8; 16];
    let mars_id = [2u8; 16];

    let earth_coords = SpacetimeCoord { t: 0, x_bits: 0.0f64.to_bits(), y_bits: 0.0f64.to_bits(), z_bits: 0.0f64.to_bits() };
    let mars_coords = SpacetimeCoord { t: 0, x_bits: 1000.0f64.to_bits(), y_bits: 0.0f64.to_bits(), z_bits: 0.0f64.to_bits() };

    let mut cluster = Cluster::new();
    cluster.register_node(earth_id, earth_coords);
    cluster.register_node(mars_id, mars_coords);

    let msg = Message {
        sender: earth_id,
        receiver: mars_id,
        send_time: 0,
        payload: NetworkPacket::Gossip(vec![]),
    };

    let route = cluster.route_message(&msg).expect("routing should succeed");
    let dx = f64::from_bits(route.to.x_bits) - f64::from_bits(route.from.x_bits);
    let dy = f64::from_bits(route.to.y_bits) - f64::from_bits(route.from.y_bits);
    let dz = f64::from_bits(route.to.z_bits) - f64::from_bits(route.from.z_bits);
    let distance = (dx * dx + dy * dy + dz * dz).sqrt();
    let delay_ns = (distance / c * 1e9) as u128;
    assert_eq!(delay_ns, 10_000_000_000);

    let second: u128 = 1_000_000_000;
    let mut layer = PhysicsLayer::new();
    layer.ingest(hello(7), 0, delay_ns);

    let early = layer.drain_arrived(second);
    assert!(early.is_empty(), "Message should not arrive before light delay");

    let received = layer.drain_arrived(11 * second);
    assert!(!received.is_empty(), "Message should arrive after simulated delay");
    assert_eq!(tags(&received), vec![7]);
}
