//! Immutable, content-addressed events.
//!
//! An event is an identifier, a set of parent hashes, a spacetime coordinate
//! and an operation, together with the digest of their canonical byte
//! encoding. The parent set is held as a vector in strictly ascending
//! byte-wise order, which is the order in which it is hashed and sent.

use vstd::prelude::*;
use vstd::bytes::*;
use vstd::utf8::*;
use vstd::string::*;
use crate::hashing::{blake3_digest, digest};
use crate::ident::{fresh_id, is_random_uuid};
use crate::spacetime::{CausalOrder, Separation, SpacetimeCoord, causal_order};

verus! {

/// Content address of an event: a 32-byte digest.
pub type EventHash = [u8; 32];

/// Identifier of an event: 16 bytes.
pub type EventId = [u8; 16];

/// What an event does to the store.
#[derive(Debug)]
pub enum Operation {
    /// Insert or overwrite a key with a value.
    Put(String, Vec<u8>),
    /// Remove a key.
    Delete(String),
    /// Application-defined join of concurrent branches.
    Merge,
    /// The root marker.
    Genesis,
}

/// Mathematical value of an [`Operation`].
pub enum OperationView {
    Put(Seq<char>, Seq<u8>),
    Delete(Seq<char>),
    Merge,
    Genesis,
}

impl View for Operation {
    type V = OperationView;

    open spec fn view(&self) -> OperationView {
        match self {
            Operation::Put(key, value) => OperationView::Put(key@, value@),
            Operation::Delete(key) => OperationView::Delete(key@),
            Operation::Merge => OperationView::Merge,
            Operation::Genesis => OperationView::Genesis,
        }
    }
}

impl Clone for Operation {
    fn clone(&self) -> (r: Self)
        ensures
            r@ == self@,
    {
        match self {
            Operation::Put(key, value) => {
                let copy = value.clone();
                assert(copy@ =~= value@);
                Operation::Put(key.clone(), copy)
            },
            Operation::Delete(key) => Operation::Delete(key.clone()),
            Operation::Merge => Operation::Merge,
            Operation::Genesis => Operation::Genesis,
        }
    }
}

/// An immutable record of one mutation.
///
/// An event is made by [`Event::new`] or [`Event::with_id`] and read through
/// its accessors; no field can be changed afterwards. Every event therefore
/// has its parents in canonical order and carries the digest of its content.
#[derive(Debug)]
pub struct Event {
    /// Random identifier; part of the hashed content.
    pub(crate) id: EventId,
    /// Hashes of the direct causal predecessors, strictly ascending.
    pub(crate) parents: Vec<EventHash>,
    /// Where and when the event was authored.
    pub(crate) coords: SpacetimeCoord,
    /// The operation carried.
    pub(crate) payload: Operation,
    /// Digest of the canonical encoding of the four fields above.
    pub(crate) hash: EventHash,
}

/// Mathematical value of an [`Event`].
pub struct EventView {
    pub id: EventId,
    pub parents: Seq<EventHash>,
    pub coords: SpacetimeCoord,
    pub payload: OperationView,
    pub hash: EventHash,
}

impl View for Event {
    type V = EventView;

    open(crate) spec fn view(&self) -> EventView {
        EventView {
            id: self.id,
            parents: self.parents@,
            coords: self.coords,
            payload: self.payload@,
            hash: self.hash,
        }
    }
}

/// Byte-wise lexicographic order on hashes: `a` is below `b` when, at the
/// first position where they differ, `a` holds the smaller byte.
pub open spec fn hash_lt(a: EventHash, b: EventHash) -> bool {
    exists|k: int| differ_first_at(a, b, k)
}

/// `a` and `b` agree before position `k`, and `a` is smaller there.
pub open spec fn differ_first_at(a: EventHash, b: EventHash, k: int) -> bool {
    &&& 0 <= k < 32
    &&& a[k] < b[k]
    &&& forall|j: int| 0 <= j < k ==> a[j] == b[j]
}

/// Every earlier element is below every later one.
pub open spec fn strictly_ascending(s: Seq<EventHash>) -> bool {
    forall|i: int, j: int| 0 <= i < j < s.len() ==> hash_lt(#[trigger] s[i], #[trigger] s[j])
}

/// `s` and `t` hold the same hashes, whatever their order and number.
pub open spec fn same_elements(s: Seq<EventHash>, t: Seq<EventHash>) -> bool {
    forall|h: EventHash| s.contains(h) <==> t.contains(h)
}

/// The hashes of `s` in canonical order: strictly ascending, each once.
pub open spec fn canonical_order(s: Seq<EventHash>) -> Seq<EventHash> {
    choose|t: Seq<EventHash>| strictly_ascending(t) && same_elements(t, s)
}

/// The event that is built from an identifier, a collection of parents, a
/// coordinate and an operation: the parents in canonical order, the hash
/// derived from the content.
pub open spec fn authored(
    id: EventId,
    parents: Seq<EventHash>,
    coords: SpacetimeCoord,
    payload: OperationView,
) -> EventView {
    let sorted = canonical_order(parents);
    EventView { id, parents: sorted, coords, payload, hash: content_digest(id, sorted, coords, payload) }
}

/// The hashes of `parents`, 32 bytes each, one after another.
pub open spec fn concat_hashes(parents: Seq<EventHash>) -> Seq<u8>
    decreases parents.len(),
{
    if parents.len() == 0 {
        Seq::empty()
    } else {
        concat_hashes(parents.drop_last()) + parents.last()@
    }
}

/// A length or count as eight little-endian bytes.
pub open spec fn length_prefix(n: nat) -> Seq<u8> {
    spec_u64_to_le_bytes(n as u64)
}

/// Canonical encoding of an operation: a tag byte, then for `Put` the key
/// and the value and for `Delete` the key, each behind its length.
pub open spec fn payload_bytes(op: OperationView) -> Seq<u8> {
    match op {
        OperationView::Put(key, value) => seq![0u8] + length_prefix(encode_utf8(key).len())
            + encode_utf8(key) + length_prefix(value.len()) + value,
        OperationView::Delete(key) => seq![1u8] + length_prefix(encode_utf8(key).len())
            + encode_utf8(key),
        OperationView::Merge => seq![2u8],
        OperationView::Genesis => seq![3u8],
    }
}

/// Canonical encoding of a coordinate: `t` as 16 little-endian bytes, then
/// the three spatial components as 8 little-endian bytes each.
pub open spec fn coord_bytes(c: SpacetimeCoord) -> Seq<u8> {
    spec_u128_to_le_bytes(c.t) + spec_u64_to_le_bytes(c.x_bits) + spec_u64_to_le_bytes(c.y_bits)
        + spec_u64_to_le_bytes(c.z_bits)
}

/// The bytes that are hashed: identifier, parents in the order given,
/// coordinate, operation.
pub open spec fn canonical_bytes(
    id: EventId,
    parents: Seq<EventHash>,
    coords: SpacetimeCoord,
    payload: OperationView,
) -> Seq<u8> {
    id@ + concat_hashes(parents) + coord_bytes(coords) + payload_bytes(payload)
}

/// The content address of the four fields.
pub open spec fn content_digest(
    id: EventId,
    parents: Seq<EventHash>,
    coords: SpacetimeCoord,
    payload: OperationView,
) -> EventHash {
    blake3_digest(canonical_bytes(id, parents, coords, payload))
}

impl EventView {
    /// The stored hash is the digest of the other four fields.
    pub open spec fn hash_consistent(self) -> bool {
        self.hash == content_digest(self.id, self.parents, self.coords, self.payload)
    }

    /// A root event: no parents, at the origin, marked `Genesis`, with the
    /// hash in keeping with the content.
    pub open spec fn is_genesis(self) -> bool {
        &&& self.parents.len() == 0
        &&& self.coords == (SpacetimeCoord { t: 0, x_bits: 0, y_bits: 0, z_bits: 0 })
        &&& self.payload == OperationView::Genesis
        &&& self.hash_consistent()
    }

    /// Parents in canonical order and the hash in keeping with the content.
    pub open spec fn well_formed(self) -> bool {
        &&& strictly_ascending(self.parents)
        &&& self.hash_consistent()
    }
}

/// How two hashes stand to each other byte-wise.
#[derive(Clone, Copy, Debug, PartialEq, Eq, Structural)]
pub enum HashOrder {
    Below,
    Same,
    Above,
}

/// `hash_lt` is transitive.
pub proof fn lemma_hash_lt_transitive(a: EventHash, b: EventHash, c: EventHash)
    requires
        hash_lt(a, b),
        hash_lt(b, c),
    ensures
        hash_lt(a, c),
{
    let k1 = choose|k: int| differ_first_at(a, b, k);
    let k2 = choose|k: int| differ_first_at(b, c, k);
    let k = if k1 <= k2 { k1 } else { k2 };
    assert(differ_first_at(a, c, k));
}

/// No hash is below itself, and no two hashes are below each other.
pub proof fn lemma_hash_lt_asymmetric(a: EventHash, b: EventHash)
    requires
        hash_lt(a, b),
    ensures
        a != b,
        !hash_lt(b, a),
{
    let k1 = choose|k: int| differ_first_at(a, b, k);
    if hash_lt(b, a) {
        let k2 = choose|k: int| differ_first_at(b, a, k);
        if k1 < k2 {
            assert(b[k1] == a[k1]);
        } else if k2 < k1 {
            assert(a[k2] == b[k2]);
        }
    }
}

/// Two strictly ascending sequences with the same elements are the same
/// sequence: a set of hashes has one canonical order.
pub proof fn lemma_ascending_unique(s: Seq<EventHash>, t: Seq<EventHash>)
    requires
        strictly_ascending(s),
        strictly_ascending(t),
        same_elements(s, t),
    ensures
        s == t,
    decreases s.len(),
{
    if s.len() == 0 {
        if t.len() > 0 {
            assert(t.contains(t[0]));
        }
        assert(s =~= t);
    } else {
        assert(s.contains(s[0]));
        assert(t.len() > 0);
        assert(t.contains(t[0]));
        // The least elements coincide.
        let i = choose|i: int| 0 <= i < t.len() && t[i] == s[0];
        let j = choose|j: int| 0 <= j < s.len() && s[j] == t[0];
        if i > 0 {
            assert(hash_lt(t[0], t[i]));
            if j > 0 {
                assert(hash_lt(s[0], s[j]));
                lemma_hash_lt_asymmetric(t[0], t[i]);
            } else {
                lemma_hash_lt_asymmetric(t[0], t[i]);
            }
        }
        assert(t[0] == s[0]);
        let s_rest = s.drop_first();
        let t_rest = t.drop_first();
        assert forall|h: EventHash| s_rest.contains(h) <==> t_rest.contains(h) by {
            if s_rest.contains(h) {
                let p = choose|p: int| 0 <= p < s_rest.len() && s_rest[p] == h;
                assert(s[p + 1] == h);
                assert(hash_lt(s[0], s[p + 1]));
                lemma_hash_lt_asymmetric(s[0], h);
                assert(s.contains(h));
                let q = choose|q: int| 0 <= q < t.len() && t[q] == h;
                assert(q > 0);
                assert(t_rest[q - 1] == h);
            }
            if t_rest.contains(h) {
                let p = choose|p: int| 0 <= p < t_rest.len() && t_rest[p] == h;
                assert(t[p + 1] == h);
                assert(hash_lt(t[0], t[p + 1]));
                lemma_hash_lt_asymmetric(t[0], h);
                assert(t.contains(h));
                let q = choose|q: int| 0 <= q < s.len() && s[q] == h;
                assert(q > 0);
                assert(s_rest[q - 1] == h);
            }
        }
        assert forall|a: int, b: int| 0 <= a < b < s_rest.len() implies hash_lt(
            #[trigger] s_rest[a],
            #[trigger] s_rest[b],
        ) by {
            assert(hash_lt(s[a + 1], s[b + 1]));
        }
        assert forall|a: int, b: int| 0 <= a < b < t_rest.len() implies hash_lt(
            #[trigger] t_rest[a],
            #[trigger] t_rest[b],
        ) by {
            assert(hash_lt(t[a + 1], t[b + 1]));
        }
        lemma_ascending_unique(s_rest, t_rest);
        assert(s =~= seq![s[0]] + s_rest);
        assert(t =~= seq![t[0]] + t_rest);
    }
}

/// A strictly ascending sequence with the elements of `s` is the canonical
/// order of `s`.
pub proof fn lemma_canonical_order(s: Seq<EventHash>, t: Seq<EventHash>)
    requires
        strictly_ascending(t),
        same_elements(t, s),
    ensures
        canonical_order(s) == t,
{
    let c = canonical_order(s);
    assert(strictly_ascending(c) && same_elements(c, s));
    lemma_ascending_unique(c, t);
}

/// Compares two hashes byte by byte.
pub fn hash_order(a: &EventHash, b: &EventHash) -> (r: HashOrder)
    ensures
        r == HashOrder::Below <==> hash_lt(*a, *b),
        r == HashOrder::Same <==> *a == *b,
        r == HashOrder::Above <==> hash_lt(*b, *a),
{
    let mut i: usize = 0;
    while i < 32
        invariant
            0 <= i <= 32,
            forall|j: int| 0 <= j < i ==> a[j] == b[j],
        decreases 32 - i,
    {
        if a[i] < b[i] {
            proof {
                assert(differ_first_at(*a, *b, i as int));
                lemma_hash_lt_asymmetric(*a, *b);
            }
            return HashOrder::Below;
        }
        if a[i] > b[i] {
            proof {
                assert(differ_first_at(*b, *a, i as int));
                lemma_hash_lt_asymmetric(*b, *a);
            }
            return HashOrder::Above;
        }
        i = i + 1;
    }
    proof {
        assert(*a =~= *b);
        if hash_lt(*a, *b) {
            lemma_hash_lt_asymmetric(*a, *b);
        }
    }
    HashOrder::Same
}

/// Whether two hashes are the same 32 bytes.
pub fn same_hash(a: &EventHash, b: &EventHash) -> (r: bool)
    ensures
        r == (*a == *b),
{
    hash_order(a, b) == HashOrder::Same
}

/// Whether `h` occurs in `hashes`.
pub fn contains_hash(hashes: &Vec<EventHash>, h: &EventHash) -> (r: bool)
    ensures
        r == hashes@.contains(*h),
{
    let mut i: usize = 0;
    while i < hashes.len()
        invariant
            0 <= i <= hashes.len(),
            forall|j: int| 0 <= j < i ==> hashes@[j] != *h,
        decreases hashes.len() - i,
    {
        if same_hash(&hashes[i], h) {
            return true;
        }
        i = i + 1;
    }
    false
}

/// A copy of `hashes`.
pub fn copy_hashes(hashes: &Vec<EventHash>) -> (out: Vec<EventHash>)
    ensures
        out@ == hashes@,
{
    let mut out: Vec<EventHash> = Vec::new();
    let mut i: usize = 0;
    while i < hashes.len()
        invariant
            0 <= i <= hashes.len(),
            out@ == hashes@.take(i as int),
        decreases hashes.len() - i,
    {
        out.push(hashes[i]);
        assert(out@ =~= hashes@.take(i + 1));
        i = i + 1;
    }
    assert(hashes@.take(i as int) =~= hashes@);
    out
}

/// Puts a collection of hashes into canonical form: strictly ascending,
/// each hash once.
pub fn canonical_parents(input: Vec<EventHash>) -> (out: Vec<EventHash>)
    ensures
        out@ == canonical_order(input@),
        strictly_ascending(out@),
        same_elements(out@, input@),
        strictly_ascending(input@) ==> out@ == input@,
{
    let mut out: Vec<EventHash> = Vec::new();
    let mut i: usize = 0;
    while i < input.len()
        invariant
            0 <= i <= input.len(),
            strictly_ascending(out@),
            forall|h: EventHash| out@.contains(h) <==> input@.take(i as int).contains(h),
        decreases input.len() - i,
    {
        let x = input[i];
        let mut p: usize = 0;
        let mut found = false;
        while p < out.len()
            invariant_except_break
                !found,
            invariant
                0 <= p <= out.len(),
                forall|q: int| 0 <= q < p ==> hash_lt(out@[q], x),
            ensures
                0 <= p <= out.len(),
                forall|q: int| 0 <= q < p ==> hash_lt(out@[q], x),
                found ==> p < out.len() && out@[p as int] == x,
                !found && p < out.len() ==> hash_lt(x, out@[p as int]),
            decreases out.len() - p,
        {
            let o = hash_order(&out[p], &x);
            if o == HashOrder::Same {
                found = true;
                break;
            }
            if o == HashOrder::Above {
                break;
            }
            p = p + 1;
        }
        let ghost before = out@;
        let ghost seen = input@.take(i as int);
        let ghost seen_next = input@.take(i + 1);
        proof {
            assert(seen_next =~= seen.push(x));
        }
        if !found {
            out.insert(p, x);
            proof {
                let after = out@;
                assert forall|a: int, b: int| 0 <= a < b < after.len() implies hash_lt(
                    #[trigger] after[a],
                    #[trigger] after[b],
                ) by {
                    if b < p {
                        assert(after[a] == before[a] && after[b] == before[b]);
                    } else if b == p {
                        assert(after[a] == before[a]);
                    } else if a < p {
                        assert(after[a] == before[a] && after[b] == before[b - 1]);
                        if b - 1 > p {
                            assert(hash_lt(before[p as int], before[b - 1]));
                        }
                        lemma_hash_lt_transitive(before[a], x, before[p as int]);
                        if b - 1 > p {
                            lemma_hash_lt_transitive(before[a], before[p as int], before[b - 1]);
                        }
                    } else if a == p {
                        assert(after[b] == before[b - 1]);
                        if b - 1 > p {
                            assert(hash_lt(before[p as int], before[b - 1]));
                            lemma_hash_lt_transitive(x, before[p as int], before[b - 1]);
                        }
                    } else {
                        assert(after[a] == before[a - 1] && after[b] == before[b - 1]);
                    }
                }
                assert forall|h: EventHash| after.contains(h) <==> seen_next.contains(h) by {
                    if after.contains(h) {
                        let q = choose|q: int| 0 <= q < after.len() && after[q] == h;
                        if q < p {
                            assert(before[q] == h);
                            assert(before.contains(h));
                        } else if q > p {
                            assert(before[q - 1] == h);
                            assert(before.contains(h));
                        }
                        if h != x {
                            let r = choose|r: int| 0 <= r < seen.len() && seen[r] == h;
                            assert(seen_next[r] == h);
                        } else {
                            assert(seen_next[i as int] == h);
                        }
                    }
                    if seen_next.contains(h) {
                        let r = choose|r: int| 0 <= r < seen_next.len() && seen_next[r] == h;
                        if r < i {
                            assert(seen[r] == h);
                            assert(seen.contains(h));
                            assert(before.contains(h));
                            let q = choose|q: int| 0 <= q < before.len() && before[q] == h;
                            if q < p {
                                assert(after[q] == h);
                            } else {
                                assert(after[q + 1] == h);
                            }
                        } else {
                            assert(after[p as int] == h);
                        }
                    }
                }
            }
        } else {
            proof {
                assert(before.contains(x));
                assert forall|h: EventHash| before.contains(h) <==> seen_next.contains(h) by {
                    if before.contains(h) {
                        if h != x {
                            let r = choose|r: int| 0 <= r < seen.len() && seen[r] == h;
                            assert(seen_next[r] == h);
                        } else {
                            assert(seen_next[i as int] == h);
                        }
                    }
                    if seen_next.contains(h) {
                        let r = choose|r: int| 0 <= r < seen_next.len() && seen_next[r] == h;
                        if r < i {
                            assert(seen[r] == h);
                            assert(seen.contains(h));
                        }
                    }
                }
            }
        }
        i = i + 1;
    }
    proof {
        assert(input@.take(i as int) =~= input@);
        if strictly_ascending(input@) {
            lemma_ascending_unique(out@, input@);
        }
        lemma_canonical_order(input@, out@);
    }
    out
}

/// Appends `src` to `buf`.
pub fn append_bytes(buf: &mut Vec<u8>, src: &[u8])
    ensures
        final(buf)@ == old(buf)@ + src@,
{
    buf.extend_from_slice(src);
    assert(buf@ =~= old(buf)@ + src@);
}

/// Appends `n` as a length prefix: eight little-endian bytes.
pub fn append_length(buf: &mut Vec<u8>, n: usize)
    ensures
        final(buf)@ == old(buf)@ + length_prefix(n as nat),
{
    let bytes = u64_to_le_bytes(n as u64);
    append_bytes(buf, bytes.as_slice());
}

/// Appends the canonical encoding of `op` to `buf`.
pub fn write_payload(buf: &mut Vec<u8>, op: &Operation)
    ensures
        final(buf)@ == old(buf)@ + payload_bytes(op@),
{
    match op {
        Operation::Put(key, value) => {
            let kb = key.as_str().as_bytes();
            buf.push(0u8);
            append_length(buf, kb.len());
            append_bytes(buf, kb);
            append_length(buf, value.len());
            append_bytes(buf, value.as_slice());
            assert(buf@ =~= old(buf)@ + payload_bytes(op@));
        },
        Operation::Delete(key) => {
            let kb = key.as_str().as_bytes();
            buf.push(1u8);
            append_length(buf, kb.len());
            append_bytes(buf, kb);
            assert(buf@ =~= old(buf)@ + payload_bytes(op@));
        },
        Operation::Merge => {
            buf.push(2u8);
            assert(buf@ =~= old(buf)@ + payload_bytes(op@));
        },
        Operation::Genesis => {
            buf.push(3u8);
            assert(buf@ =~= old(buf)@ + payload_bytes(op@));
        },
    }
}

/// Appends the canonical encoding of `c` to `buf`.
pub fn write_coords(buf: &mut Vec<u8>, c: &SpacetimeCoord)
    ensures
        final(buf)@ == old(buf)@ + coord_bytes(*c),
{
    let t = u128_to_le_bytes(c.t);
    let x = u64_to_le_bytes(c.x_bits);
    let y = u64_to_le_bytes(c.y_bits);
    let z = u64_to_le_bytes(c.z_bits);
    append_bytes(buf, t.as_slice());
    append_bytes(buf, x.as_slice());
    append_bytes(buf, y.as_slice());
    append_bytes(buf, z.as_slice());
    assert(buf@ =~= old(buf)@ + coord_bytes(*c));
}

/// Appends each hash of `hashes`, in order, to `buf`.
pub fn write_hashes(buf: &mut Vec<u8>, hashes: &Vec<EventHash>)
    ensures
        final(buf)@ == old(buf)@ + concat_hashes(hashes@),
{
    let mut i: usize = 0;
    assert(hashes@.take(0) =~= Seq::<EventHash>::empty());
    assert(buf@ =~= old(buf)@ + concat_hashes(hashes@.take(0)));
    while i < hashes.len()
        invariant
            0 <= i <= hashes.len(),
            buf@ == old(buf)@ + concat_hashes(hashes@.take(i as int)),
        decreases hashes.len() - i,
    {
        append_bytes(buf, hashes[i].as_slice());
        proof {
            let next = hashes@.take(i + 1);
            assert(next.drop_last() =~= hashes@.take(i as int));
            assert(next.last() == hashes@[i as int]);
            assert(buf@ =~= old(buf)@ + concat_hashes(next));
        }
        i = i + 1;
    }
    assert(hashes@.take(i as int) =~= hashes@);
}

impl PartialEq for Event {
    /// Events are the same event when their identifiers are equal.
    fn eq(&self, other: &Event) -> (r: bool) {
        self.same_event(other)
    }
}

impl vstd::std_specs::cmp::PartialEqSpecImpl for Event {
    open spec fn obeys_eq_spec() -> bool {
        true
    }

    open spec fn eq_spec(&self, other: &Event) -> bool {
        self@.id == other@.id
    }
}

impl Clone for Event {
    fn clone(&self) -> (r: Self)
        ensures
            r@ == self@,
    {
        proof {
            use_type_invariant(self);
        }
        let parents = copy_hashes(&self.parents);
        Event {
            id: self.id,
            parents,
            coords: self.coords,
            payload: self.payload.clone(),
            hash: self.hash,
        }
    }
}

impl Event {
    /// Parents in canonical order and the hash in keeping with the content.
    #[verifier::type_invariant]
    pub open(crate) spec fn in_keeping(self) -> bool {
        self@.well_formed()
    }

    /// The identifier.
    pub fn id(&self) -> (id: EventId)
        ensures
            id == self@.id,
            self@.well_formed(),
    {
        proof {
            use_type_invariant(self);
        }
        self.id
    }

    /// The hashes of the direct causal predecessors, strictly ascending.
    pub fn parents(&self) -> (parents: &Vec<EventHash>)
        ensures
            parents@ == self@.parents,
            self@.well_formed(),
    {
        proof {
            use_type_invariant(self);
        }
        &self.parents
    }

    /// Where and when the event was authored.
    pub fn coords(&self) -> (coords: SpacetimeCoord)
        ensures
            coords == self@.coords,
            self@.well_formed(),
    {
        proof {
            use_type_invariant(self);
        }
        self.coords
    }

    /// The operation carried.
    pub fn payload(&self) -> (payload: &Operation)
        ensures
            payload@ == self@.payload,
            self@.well_formed(),
    {
        proof {
            use_type_invariant(self);
        }
        &self.payload
    }

    /// The content address: the digest of the canonical encoding of
    /// identifier, parents, coordinate and operation.
    pub fn hash(&self) -> (hash: EventHash)
        ensures
            hash == self@.hash,
            self@.well_formed(),
    {
        proof {
            use_type_invariant(self);
        }
        self.hash
    }

    /// Builds an event with a freshly drawn identifier.
    ///
    /// The parents are put into canonical order; the hash is the digest of
    /// the canonical encoding. Whatever identifier was drawn, the event is
    /// the one that [`Event::with_id`] builds from it.
    pub fn new(parents: Vec<EventHash>, coords: SpacetimeCoord, payload: Operation) -> (e: Event)
        ensures
            e@ == authored(e@.id, parents@, coords, payload@),
            is_random_uuid(e@.id@),
            e@.well_formed(),
            same_elements(e@.parents, parents@),
            strictly_ascending(parents@) ==> e@.parents == parents@,
    {
        let id = fresh_id();
        Event::with_id(id, parents, coords, payload)
    }

    /// Builds the event that has the given identifier.
    ///
    /// The result is a function of the four arguments: the parents as a set,
    /// in canonical order, and the hash derived from the content.
    pub fn with_id(id: EventId, parents: Vec<EventHash>, coords: SpacetimeCoord, payload: Operation) -> (e: Event)
        ensures
            e@ == authored(id, parents@, coords, payload@),
            e@.well_formed(),
            same_elements(e@.parents, parents@),
            strictly_ascending(parents@) ==> e@.parents == parents@,
    {
        let parents = canonical_parents(parents);
        let hash = Event::digest_in_order(&id, &parents, &coords, &payload);
        Event { id, parents, coords, payload, hash }
    }

    /// The content address of an event with these four fields: the digest of
    /// the canonical encoding, in which the parents stand in ascending
    /// byte-wise order, each once, whatever their order and number in
    /// `parents`.
    pub fn compute_hash(
        id: &EventId,
        parents: &Vec<EventHash>,
        coords: &SpacetimeCoord,
        payload: &Operation,
    ) -> (h: EventHash)
        ensures
            h == content_digest(*id, canonical_order(parents@), *coords, payload@),
            h == authored(*id, parents@, *coords, payload@).hash,
    {
        let sorted = canonical_parents(copy_hashes(parents));
        Event::digest_in_order(id, &sorted, coords, payload)
    }

    /// Digest of the encoding of the four content fields, with the parents
    /// in the order given.
    fn digest_in_order(
        id: &EventId,
        parents: &Vec<EventHash>,
        coords: &SpacetimeCoord,
        payload: &Operation,
    ) -> (h: EventHash)
        ensures
            h == content_digest(*id, parents@, *coords, payload@),
    {
        let mut buf: Vec<u8> = Vec::new();
        append_bytes(&mut buf, id.as_slice());
        write_hashes(&mut buf, parents);
        write_coords(&mut buf, coords);
        write_payload(&mut buf, payload);
        assert(buf@ =~= canonical_bytes(*id, parents@, *coords, payload@));
        digest(buf.as_slice())
    }

    /// Events are the same event when their identifiers are equal.
    pub fn same_event(&self, other: &Event) -> (r: bool)
        ensures
            r == (self@.id == other@.id),
    {
        let mut i: usize = 0;
        while i < 16
            invariant
                0 <= i <= 16,
                forall|j: int| 0 <= j < i ==> self.id[j] == other.id[j],
            decreases 16 - i,
        {
            if self.id[i] != other.id[i] {
                return false;
            }
            i = i + 1;
        }
        assert(self.id =~= other.id);
        true
    }

    /// Compares two events by their coordinates in the causal partial order,
    /// given the sign of the interval between the coordinates.
    pub fn partial_compare(&self, other: &Event, separation: Separation) -> (r: CausalOrder)
        ensures
            r == causal_order(self@.coords, other@.coords, separation),
    {
        self.coords.partial_compare(&other.coords, separation)
    }
}

/// Equal content gives an equal hash: two events whose hashes are in keeping
/// with their content, and that agree on identifier, parents, coordinate and
/// operation, carry the same 32 bytes.
pub proof fn lemma_hash_deterministic(a: EventView, b: EventView)
    requires
        a.hash_consistent(),
        b.hash_consistent(),
        a.id == b.id,
        a.parents == b.parents,
        a.coords == b.coords,
        a.payload == b.payload,
    ensures
        a.hash == b.hash,
{
}

} // verus!
