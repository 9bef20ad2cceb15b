use minkowski_kv::event::{
    canonical_parents, contains_hash, hash_order, same_hash, Event, EventHash, HashOrder, Operation,
};
use minkowski_kv::spacetime::{CausalOrder, Separation, SpacetimeCoord};

fn coord(t: u128, x: f64, y: f64, z: f64) -> SpacetimeCoord {
    SpacetimeCoord { t, x_bits: x.to_bits(), y_bits: y.to_bits(), z_bits: z.to_bits() }
}

fn hash_of_byte(b: u8) -> EventHash {
    [b; 32]
}

#[test]
fn hash_is_blake3_of_the_canonical_bytes() {
    let id = [7u8; 16];
    let p1 = hash_of_byte(1);
    let p2 = hash_of_byte(2);
    let c = coord(258, 1.5, -2.0, 0.0);
    let e = Event::with_id(id, vec![p2, p1], c, Operation::Put("k".to_string(), vec![9, 8]));

    let mut bytes: Vec<u8> = Vec::new();
    bytes.extend_from_slice(&id);
    bytes.extend_from_slice(&p1);
    bytes.extend_from_slice(&p2);
    bytes.extend_from_slice(&[2, 1, 0, 0, 0, 0, 0, 0, 0, 0, 0, 0, 0, 0, 0, 0]);
    bytes.extend_from_slice(&[0, 0, 0, 0, 0, 0, 0xf8, 0x3f]);
    bytes.extend_from_slice(&[0, 0, 0, 0, 0, 0, 0, 0xc0]);
    bytes.extend_from_slice(&[0, 0, 0, 0, 0, 0, 0, 0]);
    bytes.extend_from_slice(&[0, 1, 0, 0, 0, 0, 0, 0, 0, b'k', 2, 0, 0, 0, 0, 0, 0, 0, 9, 8]);
    let expected = *blake3::hash(&bytes).as_bytes();

    assert_eq!(e.hash(), expected);
    assert_ne!(&e.hash()[..], &bytes[..32]);
    assert_eq!(e.parents().to_vec(), vec![p1, p2]);
}

#[test]
fn hash_of_empty_genesis_content_is_the_known_digest() {
    let mut bytes: Vec<u8> = vec![0u8; 16];
    bytes.extend_from_slice(&[0u8; 16]);
    bytes.extend_from_slice(&[0u8; 24]);
    bytes.push(3);
    let e = Event::with_id([0u8; 16], Vec::new(), SpacetimeCoord::origin(), Operation::Genesis);
    assert_eq!(e.hash(), *blake3::hash(&bytes).as_bytes());
    assert_eq!(
        Event::compute_hash(&[0u8; 16], &Vec::new(), &SpacetimeCoord::origin(), &Operation::Genesis),
        e.hash()
    );
}

#[test]
fn equal_content_gives_equal_hash() {
    let parents = vec![hash_of_byte(3), hash_of_byte(1)];
    let a = Event::with_id([1u8; 16], parents.clone(), coord(5, 1.0, 2.0, 3.0), Operation::Delete("x".to_string()));
    let b = Event::with_id([1u8; 16], parents, coord(5, 1.0, 2.0, 3.0), Operation::Delete("x".to_string()));
    assert_eq!(a.hash(), b.hash());
}

#[test]
fn each_content_field_enters_the_hash() {
    let base = Event::with_id([1u8; 16], vec![hash_of_byte(1)], coord(5, 1.0, 2.0, 3.0), Operation::Merge);
    let other_id = Event::with_id([2u8; 16], vec![hash_of_byte(1)], coord(5, 1.0, 2.0, 3.0), Operation::Merge);
    let other_parent = Event::with_id([1u8; 16], vec![hash_of_byte(2)], coord(5, 1.0, 2.0, 3.0), Operation::Merge);
    let other_t = Event::with_id([1u8; 16], vec![hash_of_byte(1)], coord(6, 1.0, 2.0, 3.0), Operation::Merge);
    let other_x = Event::with_id([1u8; 16], vec![hash_of_byte(1)], coord(5, 1.5, 2.0, 3.0), Operation::Merge);
    let other_op = Event::with_id([1u8; 16], vec![hash_of_byte(1)], coord(5, 1.0, 2.0, 3.0), Operation::Genesis);
    assert_ne!(base.hash(), other_id.hash());
    assert_ne!(base.hash(), other_parent.hash());
    assert_ne!(base.hash(), other_t.hash());
    assert_ne!(base.hash(), other_x.hash());
    assert_ne!(base.hash(), other_op.hash());
}

#[test]
fn parent_order_and_repeats_do_not_change_the_event() {
    let a = Event::with_id(
        [4u8; 16],
        vec![hash_of_byte(9), hash_of_byte(2), hash_of_byte(9), hash_of_byte(5)],
        SpacetimeCoord::origin(),
        Operation::Merge,
    );
    let b = Event::with_id(
        [4u8; 16],
        vec![hash_of_byte(2), hash_of_byte(5), hash_of_byte(9)],
        SpacetimeCoord::origin(),
        Operation::Merge,
    );
    assert_eq!(a.parents().to_vec(), vec![hash_of_byte(2), hash_of_byte(5), hash_of_byte(9)]);
    assert_eq!(a.parents().to_vec(), b.parents().to_vec());
    assert_eq!(a.hash(), b.hash());
}

#[test]
fn new_draws_a_version_four_identifier() {
    let e = Event::new(Vec::new(), SpacetimeCoord::origin(), Operation::Genesis);
    assert_eq!(e.id()[6] >> 4, 4);
    assert_eq!(e.id()[8] >> 6, 2);
    let again = Event::with_id(e.id(), Vec::new(), SpacetimeCoord::origin(), Operation::Genesis);
    assert_eq!(again.hash(), e.hash());
}

#[test]
fn new_draws_distinct_identifiers() {
    let a = Event::new(Vec::new(), SpacetimeCoord::origin(), Operation::Merge);
    let b = Event::new(Vec::new(), SpacetimeCoord::origin(), Operation::Merge);
    assert_ne!(a.id(), b.id());
    assert_ne!(a.hash(), b.hash());
    assert!(!a.same_event(&b));
    assert!(a.same_event(&a.clone()));
}

#[test]
fn events_are_the_same_by_identifier_alone() {
    let a = Event::with_id([3u8; 16], Vec::new(), coord(1, 0.0, 0.0, 0.0), Operation::Merge);
    let b = Event::with_id([3u8; 16], vec![hash_of_byte(1)], coord(2, 1.0, 0.0, 0.0), Operation::Genesis);
    let c = Event::with_id([5u8; 16], Vec::new(), coord(1, 0.0, 0.0, 0.0), Operation::Merge);
    assert!(a.same_event(&b));
    assert!(!a.same_event(&c));
    assert!(a == b);
    assert!(a != c);
}

#[test]
fn events_compare_by_their_coordinates() {
    let a = Event::with_id([3u8; 16], Vec::new(), coord(1, 0.0, 0.0, 0.0), Operation::Merge);
    let b = Event::with_id([4u8; 16], Vec::new(), coord(2, 0.0, 0.0, 0.0), Operation::Merge);
    assert_eq!(a.partial_compare(&b, Separation::Timelike), CausalOrder::Less);
    assert_eq!(b.partial_compare(&a, Separation::Timelike), CausalOrder::Greater);
    assert_eq!(a.partial_compare(&b, Separation::Spacelike), CausalOrder::Incomparable);
}

#[test]
fn clone_keeps_every_field() {
    let e = Event::with_id(
        [8u8; 16],
        vec![hash_of_byte(1), hash_of_byte(2)],
        coord(77, 1.0, 2.0, 3.0),
        Operation::Put("key".to_string(), vec![1, 2, 3]),
    );
    let c = e.clone();
    assert_eq!(c.id(), e.id());
    assert_eq!(c.parents().to_vec(), e.parents().to_vec());
    assert_eq!(c.coords(), e.coords());
    assert_eq!(c.hash(), e.hash());
    match c.payload() {
        Operation::Put(k, v) => {
            assert_eq!(k, "key");
            assert_eq!(*v, vec![1, 2, 3]);
        }
        _ => panic!("the operation changed"),
    }
}

#[test]
fn hashes_order_by_their_first_different_byte() {
    let mut a = [0u8; 32];
    let mut b = [0u8; 32];
    assert_eq!(hash_order(&a, &b), HashOrder::Same);
    assert!(same_hash(&a, &b));
    a[31] = 1;
    assert_eq!(hash_order(&a, &b), HashOrder::Above);
    assert_eq!(hash_order(&b, &a), HashOrder::Below);
    b[0] = 1;
    assert_eq!(hash_order(&a, &b), HashOrder::Below);
    assert!(!same_hash(&a, &b));
    a[0] = 200;
    assert_eq!(hash_order(&a, &b), HashOrder::Above);
}

#[test]
fn canonical_parents_sorts_and_removes_repeats() {
    let out = canonical_parents(vec![hash_of_byte(5), hash_of_byte(1), hash_of_byte(5), hash_of_byte(3), hash_of_byte(1)]);
    assert_eq!(out, vec![hash_of_byte(1), hash_of_byte(3), hash_of_byte(5)]);
    assert!(canonical_parents(Vec::new()).is_empty());
    assert!(contains_hash(&out, &hash_of_byte(3)));
    assert!(!contains_hash(&out, &hash_of_byte(4)));
}

#[test]
fn compute_hash_takes_the_parents_as_a_set() {
    let id = [7u8; 16];
    let c = coord(258, 1.5, -2.0, 0.0);
    let op = Operation::Delete("k".to_string());
    let ascending = vec![hash_of_byte(1), hash_of_byte(2), hash_of_byte(9)];
    let shuffled = vec![hash_of_byte(9), hash_of_byte(1), hash_of_byte(2), hash_of_byte(9), hash_of_byte(1)];
    let e = Event::with_id(id, shuffled.clone(), c, Operation::Delete("k".to_string()));
    assert_eq!(Event::compute_hash(&id, &ascending, &c, &op), e.hash());
    assert_eq!(Event::compute_hash(&id, &shuffled, &c, &op), e.hash());

    let mut bytes: Vec<u8> = Vec::new();
    bytes.extend_from_slice(&id);
    for p in &ascending {
        bytes.extend_from_slice(p);
    }
    bytes.extend_from_slice(&258u128.to_le_bytes());
    bytes.extend_from_slice(&1.5f64.to_le_bytes());
    bytes.extend_from_slice(&(-2.0f64).to_le_bytes());
    bytes.extend_from_slice(&0.0f64.to_le_bytes());
    bytes.extend_from_slice(&[1, 1, 0, 0, 0, 0, 0, 0, 0, b'k']);
    assert_eq!(Event::compute_hash(&id, &shuffled, &c, &op), *blake3::hash(&bytes).as_bytes());
}
