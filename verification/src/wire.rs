//! The wire format of messages.
//!
//! A message is a tag byte and a body. `Gossip` (tag 0) carries an event:
//! the 16 bytes of its identifier, the count of its parents as eight
//! little-endian bytes, the parents at 32 bytes each, the coordinate, and
//! the operation as it is hashed. `Hello` (tag 1) carries three spatial
//! components of eight little-endian bytes each. The hash of an event is
//! not sent: the receiver derives it from the content.

use vstd::prelude::*;
use vstd::bytes::*;
use vstd::slice::*;
use vstd::utf8::*;
use crate::event::{
    append_bytes,
    append_length,
    authored,
    concat_hashes,
    coord_bytes,
    length_prefix,
    payload_bytes,
    write_coords,
    write_hashes,
    write_payload,
    Event,
    EventHash,
    EventId,
    EventView,
    Operation,
    OperationView,
};
use crate::protocol::{ProtocolMessage, ProtocolMessageView};
use crate::spacetime::SpacetimeCoord;
use crate::text::text_from_utf8;

verus! {

/// Why bytes were not taken for a message.
#[derive(Clone, Copy, Debug, PartialEq, Eq, Structural)]
pub enum WireError {
    /// The bytes are not the encoding of a message: they end too early,
    /// carry an unknown tag, or hold a key that is not UTF-8.
    Malformed,
}

/// The encoding of an event: identifier, parent count, parents, coordinate,
/// operation.
pub open spec fn event_bytes(e: EventView) -> Seq<u8> {
    e.id@ + length_prefix(e.parents.len()) + concat_hashes(e.parents) + coord_bytes(e.coords)
        + payload_bytes(e.payload)
}

/// The encoding of a message: its tag, then its body.
pub open spec fn message_bytes(m: ProtocolMessageView) -> Seq<u8> {
    match m {
        ProtocolMessageView::Gossip(e) => seq![0u8] + event_bytes(e),
        ProtocolMessageView::Hello { coords } => seq![1u8] + spec_u64_to_le_bytes(coords.0)
            + spec_u64_to_le_bytes(coords.1) + spec_u64_to_le_bytes(coords.2),
    }
}

/// Appends the encoding of `e` to `buf`.
pub fn write_event(buf: &mut Vec<u8>, e: &Event)
    ensures
        final(buf)@ == old(buf)@ + event_bytes(e@),
{
    append_bytes(buf, e.id.as_slice());
    append_length(buf, e.parents.len());
    write_hashes(buf, &e.parents);
    write_coords(buf, &e.coords);
    write_payload(buf, &e.payload);
    assert(buf@ =~= old(buf)@ + event_bytes(e@));
}

/// The encoding of `e`.
pub fn encode_event(e: &Event) -> (out: Vec<u8>)
    ensures
        out@ == event_bytes(e@),
{
    let mut out: Vec<u8> = Vec::new();
    write_event(&mut out, e);
    assert(out@ =~= event_bytes(e@));
    out
}

/// The encoding of `msg`.
pub fn encode_message(msg: &ProtocolMessage) -> (out: Vec<u8>)
    ensures
        out@ == message_bytes(msg@),
{
    let mut out: Vec<u8> = Vec::new();
    match msg {
        ProtocolMessage::Gossip(e) => {
            out.push(0u8);
            write_event(&mut out, e);
            assert(out@ =~= message_bytes(msg@));
        },
        ProtocolMessage::Hello { coords } => {
            out.push(1u8);
            let x = u64_to_le_bytes(coords.0);
            let y = u64_to_le_bytes(coords.1);
            let z = u64_to_le_bytes(coords.2);
            append_bytes(&mut out, x.as_slice());
            append_bytes(&mut out, y.as_slice());
            append_bytes(&mut out, z.as_slice());
            assert(out@ =~= message_bytes(msg@));
        },
    }
    out
}

/// The identifier whose bytes are `b`.
pub open spec fn id_from(b: Seq<u8>) -> EventId {
    choose|a: EventId| a@ == b
}

/// The hash whose bytes are `b`.
pub open spec fn hash_from(b: Seq<u8>) -> EventHash {
    choose|a: EventHash| a@ == b
}

/// Reading eight bytes as a little-endian number: the number and what
/// follows it.
pub open spec fn parse_u64(b: Seq<u8>) -> Option<(u64, Seq<u8>)> {
    if b.len() >= 8 {
        Some((spec_u64_from_le_bytes(b.take(8)), b.skip(8)))
    } else {
        None
    }
}

/// Reading sixteen bytes as a little-endian number.
pub open spec fn parse_u128(b: Seq<u8>) -> Option<(u128, Seq<u8>)> {
    if b.len() >= 16 {
        Some((spec_u128_from_le_bytes(b.take(16)), b.skip(16)))
    } else {
        None
    }
}

/// Reading an identifier: sixteen raw bytes.
pub open spec fn parse_id(b: Seq<u8>) -> Option<(EventId, Seq<u8>)> {
    if b.len() >= 16 {
        Some((id_from(b.take(16)), b.skip(16)))
    } else {
        None
    }
}

/// Reading `n` hashes of 32 bytes each.
pub open spec fn parse_hashes(b: Seq<u8>, n: nat) -> Option<(Seq<EventHash>, Seq<u8>)> {
    if b.len() >= 32 * n {
        Some((Seq::new(n, |i: int| hash_from(b.subrange(32 * i, 32 * i + 32))), b.skip(32 * (n as int))))
    } else {
        None
    }
}

/// Reading a block of bytes behind its length.
pub open spec fn parse_block(b: Seq<u8>) -> Option<(Seq<u8>, Seq<u8>)> {
    match parse_u64(b) {
        Some((n, rest)) => if n <= rest.len() {
            Some((rest.take(n as int), rest.skip(n as int)))
        } else {
            None
        },
        None => None,
    }
}

/// Reading a key: a block of bytes that is well-formed UTF-8.
pub open spec fn parse_text(b: Seq<u8>) -> Option<(Seq<char>, Seq<u8>)> {
    match parse_block(b) {
        Some((raw, rest)) => if valid_utf8(raw) {
            Some((decode_utf8(raw), rest))
        } else {
            None
        },
        None => None,
    }
}

/// Reading an operation: the tag, then what the tag asks for.
pub open spec fn parse_payload(b: Seq<u8>) -> Option<(OperationView, Seq<u8>)> {
    if b.len() == 0 {
        None
    } else if b[0] == 0 {
        match parse_text(b.skip(1)) {
            Some((key, rest)) => match parse_block(rest) {
                Some((value, rest)) => Some((OperationView::Put(key, value), rest)),
                None => None,
            },
            None => None,
        }
    } else if b[0] == 1 {
        match parse_text(b.skip(1)) {
            Some((key, rest)) => Some((OperationView::Delete(key), rest)),
            None => None,
        }
    } else if b[0] == 2 {
        Some((OperationView::Merge, b.skip(1)))
    } else if b[0] == 3 {
        Some((OperationView::Genesis, b.skip(1)))
    } else {
        None
    }
}

/// Reading a coordinate: `t`, then x, y and z.
pub open spec fn parse_coords(b: Seq<u8>) -> Option<(SpacetimeCoord, Seq<u8>)> {
    match parse_u128(b) {
        Some((t, rest)) => match parse_u64(rest) {
            Some((x_bits, rest)) => match parse_u64(rest) {
                Some((y_bits, rest)) => match parse_u64(rest) {
                    Some((z_bits, rest)) => Some((SpacetimeCoord { t, x_bits, y_bits, z_bits }, rest)),
                    None => None,
                },
                None => None,
            },
            None => None,
        },
        None => None,
    }
}

/// Reading an event. The parents are taken as a set and put into canonical
/// order; the hash is derived from the content that was read.
pub open spec fn parse_event(b: Seq<u8>) -> Option<(EventView, Seq<u8>)> {
    match parse_id(b) {
        Some((id, rest)) => match parse_u64(rest) {
            Some((count, rest)) => match parse_hashes(rest, count as nat) {
                Some((parents, rest)) => match parse_coords(rest) {
                    Some((coords, rest)) => match parse_payload(rest) {
                        Some((payload, rest)) => Some((authored(id, parents, coords, payload), rest)),
                        None => None,
                    },
                    None => None,
                },
                None => None,
            },
            None => None,
        },
        None => None,
    }
}

/// Reading a message: the message and the bytes that follow it, or `None`
/// where the bytes do not begin with the encoding of a message.
pub open spec fn parse_message(b: Seq<u8>) -> Option<(ProtocolMessageView, Seq<u8>)> {
    if b.len() == 0 {
        None
    } else if b[0] == 0 {
        match parse_event(b.skip(1)) {
            Some((e, rest)) => Some((ProtocolMessageView::Gossip(e), rest)),
            None => None,
        }
    } else if b[0] == 1 {
        match parse_u64(b.skip(1)) {
            Some((x, rest)) => match parse_u64(rest) {
                Some((y, rest)) => match parse_u64(rest) {
                    Some((z, rest)) => Some((ProtocolMessageView::Hello { coords: (x, y, z) }, rest)),
                    None => None,
                },
                None => None,
            },
            None => None,
        }
    } else {
        None
    }
}

/// The lengths of `op` fit the eight bytes of a length prefix.
pub open spec fn payload_fits(op: OperationView) -> bool {
    match op {
        OperationView::Put(key, value) => encode_utf8(key).len() <= u64::MAX && value.len()
            <= u64::MAX,
        OperationView::Delete(key) => encode_utf8(key).len() <= u64::MAX,
        _ => true,
    }
}

/// `m` is a message that the format can carry unchanged: its lengths fit
/// their prefixes, and the event of a `Gossip` has its parents in canonical
/// order and its hash in keeping with its content.
pub open spec fn encodable(m: ProtocolMessageView) -> bool {
    match m {
        ProtocolMessageView::Gossip(e) => e.well_formed() && e.parents.len() <= u64::MAX
            && payload_fits(e.payload),
        ProtocolMessageView::Hello { .. } => true,
    }
}

/// A number that was written is read back, and the bytes behind it are
/// what is left.
pub proof fn lemma_u64_round_trip(x: u64, tail: Seq<u8>)
    ensures
        parse_u64(spec_u64_to_le_bytes(x) + tail) == Some((x, tail)),
{
    lemma_auto_spec_u64_to_from_le_bytes();
    let b = spec_u64_to_le_bytes(x) + tail;
    assert(b.take(8) =~= spec_u64_to_le_bytes(x));
    assert(b.skip(8) =~= tail);
}

/// The same for a number of sixteen bytes.
pub proof fn lemma_u128_round_trip(x: u128, tail: Seq<u8>)
    ensures
        parse_u128(spec_u128_to_le_bytes(x) + tail) == Some((x, tail)),
{
    lemma_auto_spec_u128_to_from_le_bytes();
    let b = spec_u128_to_le_bytes(x) + tail;
    assert(b.take(16) =~= spec_u128_to_le_bytes(x));
    assert(b.skip(16) =~= tail);
}

/// A block that was written behind its length is read back.
pub proof fn lemma_block_round_trip(block: Seq<u8>, tail: Seq<u8>)
    requires
        block.len() <= u64::MAX,
    ensures
        parse_block(length_prefix(block.len()) + block + tail) == Some((block, tail)),
{
    let b = length_prefix(block.len()) + block + tail;
    assert(b =~= length_prefix(block.len()) + (block + tail));
    lemma_u64_round_trip(block.len() as u64, block + tail);
    assert((block + tail).take(block.len() as int) =~= block);
    assert((block + tail).skip(block.len() as int) =~= tail);
}

/// A key that was written is read back.
pub proof fn lemma_text_round_trip(key: Seq<char>, tail: Seq<u8>)
    requires
        encode_utf8(key).len() <= u64::MAX,
    ensures
        parse_text(length_prefix(encode_utf8(key).len()) + encode_utf8(key) + tail) == Some(
            (key, tail),
        ),
{
    lemma_block_round_trip(encode_utf8(key), tail);
    encode_utf8_valid_utf8(key);
    encode_utf8_decode_utf8(key);
}

/// An operation that was written is read back.
pub proof fn lemma_payload_round_trip(op: OperationView, tail: Seq<u8>)
    requires
        payload_fits(op),
    ensures
        parse_payload(payload_bytes(op) + tail) == Some((op, tail)),
{
    let b = payload_bytes(op) + tail;
    match op {
        OperationView::Put(key, value) => {
            let kb = encode_utf8(key);
            let after_key = length_prefix(value.len()) + value + tail;
            assert(b.skip(1) =~= length_prefix(kb.len()) + kb + after_key);
            lemma_text_round_trip(key, after_key);
            lemma_block_round_trip(value, tail);
        },
        OperationView::Delete(key) => {
            let kb = encode_utf8(key);
            assert(b.skip(1) =~= length_prefix(kb.len()) + kb + tail);
            lemma_text_round_trip(key, tail);
        },
        OperationView::Merge => {
            assert(b.skip(1) =~= tail);
        },
        OperationView::Genesis => {
            assert(b.skip(1) =~= tail);
        },
    }
}

/// A coordinate that was written is read back.
pub proof fn lemma_coords_round_trip(c: SpacetimeCoord, tail: Seq<u8>)
    ensures
        parse_coords(coord_bytes(c) + tail) == Some((c, tail)),
{
    let b = coord_bytes(c) + tail;
    let zs = spec_u64_to_le_bytes(c.z_bits) + tail;
    let ys = spec_u64_to_le_bytes(c.y_bits) + zs;
    let xs = spec_u64_to_le_bytes(c.x_bits) + ys;
    assert(b =~= spec_u128_to_le_bytes(c.t) + xs);
    lemma_u128_round_trip(c.t, xs);
    lemma_u64_round_trip(c.x_bits, ys);
    lemma_u64_round_trip(c.y_bits, zs);
    lemma_u64_round_trip(c.z_bits, tail);
}

/// Each hash takes 32 bytes of the concatenation, at 32 times its position.
pub proof fn lemma_concat_hashes_layout(hashes: Seq<EventHash>)
    ensures
        concat_hashes(hashes).len() == 32 * hashes.len(),
        forall|i: int|
            0 <= i < hashes.len() ==> concat_hashes(hashes).subrange(32 * i, 32 * i + 32)
                == (#[trigger] hashes[i])@,
    decreases hashes.len(),
{
    if hashes.len() > 0 {
        let front = hashes.drop_last();
        lemma_concat_hashes_layout(front);
        let all = concat_hashes(hashes);
        assert forall|i: int| 0 <= i < hashes.len() implies all.subrange(32 * i, 32 * i + 32)
            == (#[trigger] hashes[i])@ by {
            if i < front.len() {
                assert(all.subrange(32 * i, 32 * i + 32) =~= concat_hashes(front).subrange(
                    32 * i,
                    32 * i + 32,
                ));
                assert(front[i] == hashes[i]);
            } else {
                assert(all.subrange(32 * i, 32 * i + 32) =~= hashes.last()@);
            }
        }
    }
}

/// Hashes that were written are read back.
pub proof fn lemma_hashes_round_trip(hashes: Seq<EventHash>, tail: Seq<u8>)
    ensures
        parse_hashes(concat_hashes(hashes) + tail, hashes.len()) == Some((hashes, tail)),
{
    lemma_concat_hashes_layout(hashes);
    let b = concat_hashes(hashes) + tail;
    let n = hashes.len();
    let read = Seq::new(n, |i: int| hash_from(b.subrange(32 * i, 32 * i + 32)));
    assert forall|i: int| 0 <= i < n implies read[i] == hashes[i] by {
        assert(b.subrange(32 * i, 32 * i + 32) =~= concat_hashes(hashes).subrange(32 * i, 32 * i + 32));
        let chosen = hash_from(hashes[i]@);
        assert(chosen@ == hashes[i]@);
        assert(chosen =~= hashes[i]);
    }
    assert(read =~= hashes);
    assert(b.skip(32 * (n as int)) =~= tail);
}

/// An event that was written is read back with its parents in canonical
/// order and its hash derived from its content, whatever bytes follow.
pub proof fn lemma_event_read_back(raw: EventView, tail: Seq<u8>)
    requires
        raw.parents.len() <= u64::MAX,
        payload_fits(raw.payload),
    ensures
        parse_event(event_bytes(raw) + tail) == Some(
            (authored(raw.id, raw.parents, raw.coords, raw.payload), tail),
        ),
{
    let b = event_bytes(raw) + tail;
    let after_coords = payload_bytes(raw.payload) + tail;
    let after_parents = coord_bytes(raw.coords) + after_coords;
    let after_count = concat_hashes(raw.parents) + after_parents;
    let after_id = length_prefix(raw.parents.len()) + after_count;
    assert(b =~= raw.id@ + after_id);
    assert(b.take(16) =~= raw.id@);
    assert(b.skip(16) =~= after_id);
    let chosen = id_from(raw.id@);
    assert(chosen@ == raw.id@);
    assert(chosen =~= raw.id);
    lemma_u64_round_trip(raw.parents.len() as u64, after_count);
    lemma_hashes_round_trip(raw.parents, after_parents);
    lemma_coords_round_trip(raw.coords, after_coords);
    lemma_payload_round_trip(raw.payload, tail);
}

/// A well-formed event whose lengths fit comes out of its own encoding
/// unchanged, hash included.
pub proof fn lemma_event_round_trip(e: EventView, tail: Seq<u8>)
    requires
        e.well_formed(),
        e.parents.len() <= u64::MAX,
        payload_fits(e.payload),
    ensures
        parse_event(event_bytes(e) + tail) == Some((e, tail)),
{
    lemma_event_read_back(e, tail);
    crate::event::lemma_canonical_order(e.parents, e.parents);
}

/// The message that stands for `raw` once it is read: the same, but for the
/// event of a `Gossip`, whose parents are put into canonical order and
/// whose hash is derived from its content.
pub open spec fn as_read(raw: ProtocolMessageView) -> ProtocolMessageView {
    match raw {
        ProtocolMessageView::Gossip(e) => ProtocolMessageView::Gossip(
            authored(e.id, e.parents, e.coords, e.payload),
        ),
        ProtocolMessageView::Hello { coords } => ProtocolMessageView::Hello { coords },
    }
}

/// The lengths of `raw` fit their prefixes.
pub open spec fn lengths_fit(raw: ProtocolMessageView) -> bool {
    match raw {
        ProtocolMessageView::Gossip(e) => e.parents.len() <= u64::MAX && payload_fits(e.payload),
        ProtocolMessageView::Hello { .. } => true,
    }
}

/// `b` is the encoding of `raw`, whose lengths fit, followed by `rest`.
pub open spec fn begins_with(b: Seq<u8>, raw: ProtocolMessageView, rest: Seq<u8>) -> bool {
    &&& lengths_fit(raw)
    &&& b == message_bytes(raw) + rest
}

/// `b` begins with the encoding of `raw`, `rest` follows it, and `m` is
/// what `raw` is read as.
pub open spec fn was_written(b: Seq<u8>, raw: ProtocolMessageView, m: ProtocolMessageView, rest: Seq<u8>) -> bool {
    &&& begins_with(b, raw, rest)
    &&& m == as_read(raw)
}

/// What was written is read: the encoding of any message whose lengths fit
/// is taken for that message, with the parents of an event in canonical
/// order and its hash derived, whatever bytes follow.
pub proof fn lemma_written_is_read(raw: ProtocolMessageView, tail: Seq<u8>)
    requires
        lengths_fit(raw),
    ensures
        parse_message(message_bytes(raw) + tail) == Some((as_read(raw), tail)),
{
    let b = message_bytes(raw) + tail;
    match raw {
        ProtocolMessageView::Gossip(e) => {
            assert(b.skip(1) =~= event_bytes(e) + tail);
            lemma_event_read_back(e, tail);
        },
        ProtocolMessageView::Hello { coords } => {
            let zs = spec_u64_to_le_bytes(coords.2) + tail;
            let ys = spec_u64_to_le_bytes(coords.1) + zs;
            assert(b.skip(1) =~= spec_u64_to_le_bytes(coords.0) + ys);
            lemma_u64_round_trip(coords.0, ys);
            lemma_u64_round_trip(coords.1, zs);
            lemma_u64_round_trip(coords.2, tail);
        },
    }
}

/// Round trip: a message that the format can carry unchanged is read back
/// from its own encoding, whatever bytes follow.
pub proof fn lemma_message_round_trip(m: ProtocolMessageView, tail: Seq<u8>)
    requires
        encodable(m),
    ensures
        parse_message(message_bytes(m) + tail) == Some((m, tail)),
{
    lemma_written_is_read(m, tail);
    match m {
        ProtocolMessageView::Gossip(e) => {
            crate::event::lemma_canonical_order(e.parents, e.parents);
        },
        ProtocolMessageView::Hello { .. } => {},
    }
}

/// An array whose first `k` bytes are those of `s`.
pub open spec fn array_with<const N: usize>(s: Seq<u8>, k: nat) -> [u8; N]
    decreases k,
{
    if k == 0 {
        arbitrary()
    } else {
        vstd::array::spec_array_update(array_with::<N>(s, (k - 1) as nat), k - 1, s[k - 1])
    }
}

/// `array_with` holds the first `k` bytes of `s`.
pub proof fn lemma_array_with<const N: usize>(s: Seq<u8>, k: nat)
    requires
        s.len() == N,
        k <= N,
    ensures
        forall|i: int| 0 <= i < k ==> array_with::<N>(s, k)@[i] == s[i],
    decreases k,
{
    if k > 0 {
        lemma_array_with::<N>(s, (k - 1) as nat);
    }
}

/// Sixteen bytes are the bytes of an identifier.
pub proof fn lemma_id_from(s: Seq<u8>)
    requires
        s.len() == 16,
    ensures
        id_from(s)@ == s,
{
    let a = array_with::<16>(s, 16);
    lemma_array_with::<16>(s, 16);
    assert(a@ =~= s);
}

/// Thirty-two bytes are the bytes of a hash.
pub proof fn lemma_hash_from(s: Seq<u8>)
    requires
        s.len() == 32,
    ensures
        hash_from(s)@ == s,
{
    let a = array_with::<32>(s, 32);
    lemma_array_with::<32>(s, 32);
    assert(a@ =~= s);
}

/// What was read as a number was written as that number.
pub proof fn lemma_u64_was_written(b: Seq<u8>)
    requires
        parse_u64(b) is Some,
    ensures
        ({
            let (x, rest) = parse_u64(b).unwrap();
            b == spec_u64_to_le_bytes(x) + rest
        }),
{
    lemma_auto_spec_u64_to_from_le_bytes();
    let (x, rest) = parse_u64(b).unwrap();
    assert(spec_u64_to_le_bytes(spec_u64_from_le_bytes(b.take(8))) == b.take(8));
    assert(b =~= b.take(8) + b.skip(8));
}

/// The same for a number of sixteen bytes.
pub proof fn lemma_u128_was_written(b: Seq<u8>)
    requires
        parse_u128(b) is Some,
    ensures
        ({
            let (x, rest) = parse_u128(b).unwrap();
            b == spec_u128_to_le_bytes(x) + rest
        }),
{
    lemma_auto_spec_u128_to_from_le_bytes();
    assert(spec_u128_to_le_bytes(spec_u128_from_le_bytes(b.take(16))) == b.take(16));
    assert(b =~= b.take(16) + b.skip(16));
}

/// What was read as a block was written as that block behind its length.
pub proof fn lemma_block_was_written(b: Seq<u8>)
    requires
        parse_block(b) is Some,
    ensures
        ({
            let (block, rest) = parse_block(b).unwrap();
            &&& block.len() <= u64::MAX
            &&& b == length_prefix(block.len()) + block + rest
        }),
{
    lemma_u64_was_written(b);
    let (n, after) = parse_u64(b).unwrap();
    let (block, rest) = parse_block(b).unwrap();
    assert(after =~= block + rest);
    assert(b =~= length_prefix(block.len()) + block + rest);
}

/// What was read as a key was written as that key.
pub proof fn lemma_text_was_written(b: Seq<u8>)
    requires
        parse_text(b) is Some,
    ensures
        ({
            let (key, rest) = parse_text(b).unwrap();
            &&& encode_utf8(key).len() <= u64::MAX
            &&& b == length_prefix(encode_utf8(key).len()) + encode_utf8(key) + rest
        }),
{
    lemma_block_was_written(b);
    let (raw, rest) = parse_block(b).unwrap();
    decode_utf8_encode_utf8(raw);
}

/// What was read as an operation was written as that operation.
pub proof fn lemma_payload_was_written(b: Seq<u8>)
    requires
        parse_payload(b) is Some,
    ensures
        ({
            let (op, rest) = parse_payload(b).unwrap();
            &&& payload_fits(op)
            &&& b == payload_bytes(op) + rest
        }),
{
    let (op, rest) = parse_payload(b).unwrap();
    assert(b =~= seq![b[0]] + b.skip(1));
    if b[0] == 0 {
        lemma_text_was_written(b.skip(1));
        let (key, after_key) = parse_text(b.skip(1)).unwrap();
        lemma_block_was_written(after_key);
        let kb = encode_utf8(key);
        let (value, _) = parse_block(after_key).unwrap();
        assert(b =~= seq![0u8] + length_prefix(kb.len()) + kb + length_prefix(value.len()) + value
            + rest);
    } else if b[0] == 1 {
        lemma_text_was_written(b.skip(1));
        let (key, _) = parse_text(b.skip(1)).unwrap();
        let kb = encode_utf8(key);
        assert(b =~= seq![1u8] + length_prefix(kb.len()) + kb + rest);
    } else if b[0] == 2 {
        assert(b =~= seq![2u8] + rest);
    } else {
        assert(b =~= seq![3u8] + rest);
    }
}

/// What was read as a coordinate was written as that coordinate.
pub proof fn lemma_coords_were_written(b: Seq<u8>)
    requires
        parse_coords(b) is Some,
    ensures
        ({
            let (c, rest) = parse_coords(b).unwrap();
            b == coord_bytes(c) + rest
        }),
{
    let (c, rest) = parse_coords(b).unwrap();
    lemma_u128_was_written(b);
    let (t, after_t) = parse_u128(b).unwrap();
    lemma_u64_was_written(after_t);
    let (x, after_x) = parse_u64(after_t).unwrap();
    lemma_u64_was_written(after_x);
    let (y, after_y) = parse_u64(after_x).unwrap();
    lemma_u64_was_written(after_y);
    assert(b =~= coord_bytes(c) + rest);
}

/// What was read as hashes was written as those hashes.
pub proof fn lemma_hashes_were_written(b: Seq<u8>, n: nat)
    requires
        parse_hashes(b, n) is Some,
    ensures
        ({
            let (hashes, rest) = parse_hashes(b, n).unwrap();
            &&& hashes.len() == n
            &&& b == concat_hashes(hashes) + rest
        }),
{
    let (hashes, rest) = parse_hashes(b, n).unwrap();
    lemma_concat_hashes_layout(hashes);
    let joined = concat_hashes(hashes);
    assert forall|k: int| 0 <= k < joined.len() implies joined[k] == b[k] by {
        let i = k / 32;
        let piece = joined.subrange(32 * i, 32 * i + 32);
        assert(piece == hashes[i]@);
        lemma_hash_from(b.subrange(32 * i, 32 * i + 32));
        assert(piece[k - 32 * i] == joined[k]);
        assert(b.subrange(32 * i, 32 * i + 32)[k - 32 * i] == b[k]);
    }
    assert(b =~= joined + rest);
}

/// `b` begins with the encoding of the event `raw`, `rest` follows it, and
/// `e` is what `raw` is read as.
pub open spec fn event_was_written(b: Seq<u8>, raw: EventView, e: EventView, rest: Seq<u8>) -> bool {
    &&& raw.parents.len() <= u64::MAX
    &&& payload_fits(raw.payload)
    &&& b == event_bytes(raw) + rest
    &&& e == authored(raw.id, raw.parents, raw.coords, raw.payload)
}

/// The fields of an event, each written in front of what follows it, are
/// the encoding of the event in front of what follows the last.
pub proof fn lemma_event_bytes_nested(raw: EventView, rest: Seq<u8>)
    ensures
        event_bytes(raw) + rest == raw.id@ + (length_prefix(raw.parents.len()) + (concat_hashes(
            raw.parents,
        ) + (coord_bytes(raw.coords) + (payload_bytes(raw.payload) + rest)))),
{
    assert(event_bytes(raw) + rest =~= raw.id@ + (length_prefix(raw.parents.len()) + (concat_hashes(
        raw.parents,
    ) + (coord_bytes(raw.coords) + (payload_bytes(raw.payload) + rest)))));
}

/// What was read as an event was written as an event.
pub proof fn lemma_event_was_written(b: Seq<u8>)
    requires
        parse_event(b) is Some,
    ensures
        ({
            let (e, rest) = parse_event(b).unwrap();
            exists|raw: EventView| event_was_written(b, raw, e, rest)
        }),
{
    let (e, rest) = parse_event(b).unwrap();
    let (id, after_id) = parse_id(b).unwrap();
    let (count, after_count) = parse_u64(after_id).unwrap();
    let (parents, after_parents) = parse_hashes(after_count, count as nat).unwrap();
    let (coords, after_coords) = parse_coords(after_parents).unwrap();
    let (payload, after_payload) = parse_payload(after_coords).unwrap();
    assert(after_payload == rest);
    assert(b == id@ + after_id) by {
        lemma_id_from(b.take(16));
        assert(b =~= b.take(16) + b.skip(16));
    }
    assert(after_id == length_prefix(parents.len()) + after_count && parents.len() <= u64::MAX) by {
        lemma_u64_was_written(after_id);
        lemma_hashes_were_written(after_count, count as nat);
    }
    assert(after_count == concat_hashes(parents) + after_parents) by {
        lemma_hashes_were_written(after_count, count as nat);
    }
    assert(after_parents == coord_bytes(coords) + after_coords) by {
        lemma_coords_were_written(after_parents);
    }
    assert(after_coords == payload_bytes(payload) + rest && payload_fits(payload)) by {
        lemma_payload_was_written(after_coords);
    }
    let raw = EventView { id, parents, coords, payload, hash: arbitrary() };
    lemma_event_bytes_nested(raw, rest);
    assert(event_was_written(b, raw, e, rest));
}

/// Nothing is read that was not written: where bytes are taken for a
/// message, they begin with the encoding of a message whose lengths fit, and
/// what was read is that message with its parents in canonical order and its
/// hash derived.
pub proof fn lemma_read_was_written(b: Seq<u8>)
    requires
        parse_message(b) is Some,
    ensures
        ({
            let (m, rest) = parse_message(b).unwrap();
            exists|raw: ProtocolMessageView| was_written(b, raw, m, rest)
        }),
{
    let (m, rest) = parse_message(b).unwrap();
    let body = b.skip(1);
    assert(b =~= seq![b[0]] + body);
    if b[0] == 0 {
        lemma_event_was_written(body);
        let (e, _) = parse_event(body).unwrap();
        let raw_event = choose|raw: EventView| event_was_written(body, raw, e, rest);
        let raw = ProtocolMessageView::Gossip(raw_event);
        assert(b =~= message_bytes(raw) + rest);
        assert(was_written(b, raw, m, rest));
    } else {
        let (x, after_x) = parse_u64(body).unwrap();
        let (y, after_y) = parse_u64(after_x).unwrap();
        let (z, after_z) = parse_u64(after_y).unwrap();
        assert(body == spec_u64_to_le_bytes(x) + after_x) by {
            lemma_u64_was_written(body);
        }
        assert(after_x == spec_u64_to_le_bytes(y) + after_y) by {
            lemma_u64_was_written(after_x);
        }
        assert(after_y == spec_u64_to_le_bytes(z) + rest) by {
            lemma_u64_was_written(after_y);
        }
        let raw = ProtocolMessageView::Hello { coords: (x, y, z) };
        assert(b =~= message_bytes(raw) + rest);
        assert(was_written(b, raw, m, rest));
    }
}

/// `got` is what reading at a position of `bytes` gave, `want` what the
/// format says of the bytes from that position on: the same value, and the
/// position moved to where the rest begins.
pub open spec fn agrees<T>(got: Option<(T, usize)>, want: Option<(T, Seq<u8>)>, bytes: Seq<u8>) -> bool {
    match (got, want) {
        (Some((value, next)), Some((wanted, rest))) => {
            &&& value == wanted
            &&& next <= bytes.len()
            &&& bytes.skip(next as int) == rest
        },
        (None, None) => true,
        _ => false,
    }
}

/// The same as [`agrees`] for a value that is read into a type with a view:
/// the view of what was read is what the format says.
pub open spec fn agrees_view<T: View>(
    got: Option<(T, usize)>,
    want: Option<(T::V, Seq<u8>)>,
    bytes: Seq<u8>,
) -> bool {
    match (got, want) {
        (Some((value, next)), Some((wanted, rest))) => {
            &&& value@ == wanted
            &&& next <= bytes.len()
            &&& bytes.skip(next as int) == rest
        },
        (None, None) => true,
        _ => false,
    }
}

/// Reads eight little-endian bytes at `pos`.
pub fn read_u64(bytes: &[u8], pos: usize) -> (r: Option<(u64, usize)>)
    requires
        pos <= bytes@.len(),
    ensures
        agrees(r, parse_u64(bytes@.skip(pos as int)), bytes@),
{
    if bytes.len() - pos < 8 {
        None
    } else {
        let v = u64_from_le_bytes(slice_subrange(bytes, pos, pos + 8));
        proof {
            assert(bytes@.skip(pos as int).take(8) =~= bytes@.subrange(pos as int, pos + 8));
            assert(bytes@.skip(pos as int).skip(8) =~= bytes@.skip(pos + 8));
        }
        Some((v, pos + 8))
    }
}

/// Reads sixteen little-endian bytes at `pos`.
pub fn read_u128(bytes: &[u8], pos: usize) -> (r: Option<(u128, usize)>)
    requires
        pos <= bytes@.len(),
    ensures
        agrees(r, parse_u128(bytes@.skip(pos as int)), bytes@),
{
    if bytes.len() - pos < 16 {
        None
    } else {
        let v = u128_from_le_bytes(slice_subrange(bytes, pos, pos + 16));
        proof {
            assert(bytes@.skip(pos as int).take(16) =~= bytes@.subrange(pos as int, pos + 16));
            assert(bytes@.skip(pos as int).skip(16) =~= bytes@.skip(pos + 16));
        }
        Some((v, pos + 16))
    }
}

/// Reads an identifier at `pos`.
pub fn read_id(bytes: &[u8], pos: usize) -> (r: Option<(EventId, usize)>)
    requires
        pos <= bytes@.len(),
    ensures
        agrees(r, parse_id(bytes@.skip(pos as int)), bytes@),
{
    if bytes.len() - pos < 16 {
        None
    } else {
        let mut id: EventId = [0u8;16];
        let mut i: usize = 0;
        while i < 16
            invariant
                0 <= i <= 16,
                pos + 16 <= bytes@.len() <= usize::MAX,
                forall|j: int| 0 <= j < i ==> id[j] == bytes@[pos + j],
            decreases 16 - i,
        {
            id[i] = bytes[pos + i];
            i = i + 1;
        }
        proof {
            let want = bytes@.skip(pos as int).take(16);
            assert(id@ =~= want);
            let chosen = id_from(want);
            assert(chosen@ == want);
            assert(chosen =~= id);
            assert(bytes@.skip(pos as int).skip(16) =~= bytes@.skip(pos + 16));
        }
        Some((id, pos + 16))
    }
}

/// Reads the 32 bytes of a hash at `pos`.
fn read_hash(bytes: &[u8], pos: usize) -> (h: EventHash)
    requires
        pos + 32 <= bytes@.len(),
    ensures
        h == hash_from(bytes@.subrange(pos as int, pos + 32)),
{
    let mut h: EventHash = [0u8;32];
    let mut i: usize = 0;
    assert(bytes.len() == bytes@.len());
    while i < 32
        invariant
            0 <= i <= 32,
            pos + 32 <= bytes@.len() <= usize::MAX,
            forall|j: int| 0 <= j < i ==> h[j] == bytes@[pos + j],
        decreases 32 - i,
    {
        h[i] = bytes[pos + i];
        i = i + 1;
    }
    proof {
        let want = bytes@.subrange(pos as int, pos + 32);
        assert(h@ =~= want);
        let chosen = hash_from(want);
        assert(chosen@ == want);
        assert(chosen =~= h);
    }
    h
}

/// Reads `n` hashes at `pos`.
pub fn read_hashes(bytes: &[u8], pos: usize, n: u64) -> (r: Option<(Vec<EventHash>, usize)>)
    requires
        pos <= bytes@.len(),
    ensures
        agrees_view(r, parse_hashes(bytes@.skip(pos as int), n as nat), bytes@),
{
    let room = bytes.len() - pos;
    if n > (room / 32) as u64 {
        return None;
    }
    let count = n as usize;
    let ghost b = bytes@.skip(pos as int);
    let mut out: Vec<EventHash> = Vec::new();
    let mut i: usize = 0;
    while i < count
        invariant
            0 <= i <= count,
            count == n,
            pos + 32 * count <= bytes@.len() <= usize::MAX,
            b == bytes@.skip(pos as int),
            out@.len() == i,
            forall|j: int| 0 <= j < i ==> out@[j] == hash_from(b.subrange(32 * j, 32 * j + 32)),
        decreases count - i,
    {
        let h = read_hash(bytes, pos + 32 * i);
        proof {
            assert(bytes@.subrange(pos + 32 * i, pos + 32 * i + 32) =~= b.subrange(32 * i, 32 * i + 32));
        }
        out.push(h);
        i = i + 1;
    }
    proof {
        assert(out@ =~= Seq::new(n as nat, |i: int| hash_from(b.subrange(32 * i, 32 * i + 32))));
        assert(b.skip(32 * (n as int)) =~= bytes@.skip(pos + 32 * count));
    }
    Some((out, pos + 32 * count))
}

/// Reads a block of bytes behind its length at `pos`.
pub fn read_block(bytes: &[u8], pos: usize) -> (r: Option<(Vec<u8>, usize)>)
    requires
        pos <= bytes@.len(),
    ensures
        agrees_view(r, parse_block(bytes@.skip(pos as int)), bytes@),
{
    match read_u64(bytes, pos) {
        None => None,
        Some((n, start)) => {
            if n > (bytes.len() - start) as u64 {
                None
            } else {
                let len = n as usize;
                let block = slice_to_vec(slice_subrange(bytes, start, start + len));
                proof {
                    let rest = bytes@.skip(start as int);
                    assert(rest.take(n as int) =~= bytes@.subrange(start as int, start + len));
                    assert(rest.skip(n as int) =~= bytes@.skip(start + len));
                }
                Some((block, start + len))
            }
        },
    }
}

/// Reads a key at `pos`.
pub fn read_text(bytes: &[u8], pos: usize) -> (r: Option<(String, usize)>)
    requires
        pos <= bytes@.len(),
    ensures
        agrees_view(r, parse_text(bytes@.skip(pos as int)), bytes@),
{
    match read_block(bytes, pos) {
        None => None,
        Some((raw, next)) => {
            let ghost raw_bytes = raw@;
            match text_from_utf8(raw) {
                None => None,
                Some(text) => {
                    proof {
                        encode_utf8_decode_utf8(text@);
                    }
                    Some((text, next))
                },
            }
        },
    }
}

/// Reads an operation at `pos`.
pub fn read_payload(bytes: &[u8], pos: usize) -> (r: Option<(Operation, usize)>)
    requires
        pos <= bytes@.len(),
    ensures
        agrees_view(r, parse_payload(bytes@.skip(pos as int)), bytes@),
{
    if bytes.len() - pos == 0 {
        return None;
    }
    let tag = bytes[pos];
    proof {
        assert(bytes@.skip(pos as int)[0] == tag);
        assert(bytes@.skip(pos as int).skip(1) =~= bytes@.skip(pos + 1));
    }
    if tag == 0 {
        match read_text(bytes, pos + 1) {
            None => None,
            Some((key, next)) => match read_block(bytes, next) {
                None => None,
                Some((value, next)) => Some((Operation::Put(key, value), next)),
            },
        }
    } else if tag == 1 {
        match read_text(bytes, pos + 1) {
            None => None,
            Some((key, next)) => Some((Operation::Delete(key), next)),
        }
    } else if tag == 2 {
        Some((Operation::Merge, pos + 1))
    } else if tag == 3 {
        Some((Operation::Genesis, pos + 1))
    } else {
        None
    }
}

/// Reads a coordinate at `pos`.
pub fn read_coords(bytes: &[u8], pos: usize) -> (r: Option<(SpacetimeCoord, usize)>)
    requires
        pos <= bytes@.len(),
    ensures
        agrees(r, parse_coords(bytes@.skip(pos as int)), bytes@),
{
    match read_u128(bytes, pos) {
        None => None,
        Some((t, next)) => match read_u64(bytes, next) {
            None => None,
            Some((x_bits, next)) => match read_u64(bytes, next) {
                None => None,
                Some((y_bits, next)) => match read_u64(bytes, next) {
                    None => None,
                    Some((z_bits, next)) => Some((SpacetimeCoord { t, x_bits, y_bits, z_bits }, next)),
                },
            },
        },
    }
}

/// Reads an event at `pos`.
pub fn read_event(bytes: &[u8], pos: usize) -> (r: Option<(Event, usize)>)
    requires
        pos <= bytes@.len(),
    ensures
        agrees_view(r, parse_event(bytes@.skip(pos as int)), bytes@),
{
    match read_id(bytes, pos) {
        None => None,
        Some((id, next)) => match read_u64(bytes, next) {
            None => None,
            Some((count, next)) => match read_hashes(bytes, next, count) {
                None => None,
                Some((parents, next)) => match read_coords(bytes, next) {
                    None => None,
                    Some((coords, next)) => match read_payload(bytes, next) {
                        None => None,
                        Some((payload, next)) => Some(
                            (Event::with_id(id, parents, coords, payload), next),
                        ),
                    },
                },
            },
        },
    }
}

/// Decodes the event that `bytes` begin with.
///
/// Succeeds exactly where the bytes begin with the encoding of an event;
/// bytes behind it are passed over.
pub fn decode_event(bytes: &[u8]) -> (r: Result<Event, WireError>)
    ensures
        match parse_event(bytes@) {
            Some((e, _)) => r is Ok && r->Ok_0@ == e,
            None => r == Err::<Event, WireError>(WireError::Malformed),
        },
{
    assert(bytes@.skip(0) =~= bytes@);
    match read_event(bytes, 0) {
        Some((e, _)) => Ok(e),
        None => Err(WireError::Malformed),
    }
}

/// Decodes the message that `bytes` begin with.
///
/// Succeeds exactly where the bytes begin with the encoding of a message;
/// bytes behind it are passed over. The event of a `Gossip` comes out with
/// its parents in canonical order and its hash derived from the content.
pub fn decode_message(bytes: &[u8]) -> (r: Result<ProtocolMessage, WireError>)
    ensures
        match parse_message(bytes@) {
            Some((m, _)) => r is Ok && r->Ok_0@ == m,
            None => r == Err::<ProtocolMessage, WireError>(WireError::Malformed),
        },
        match r {
            Ok(m) => exists|raw: ProtocolMessageView, rest: Seq<u8>| was_written(bytes@, raw, m@, rest),
            Err(_) => forall|raw: ProtocolMessageView, rest: Seq<u8>|
                !#[trigger] begins_with(bytes@, raw, rest),
        },
{
    proof {
        if parse_message(bytes@) is Some {
            lemma_read_was_written(bytes@);
        } else {
            assert forall|raw: ProtocolMessageView, rest: Seq<u8>|
                !#[trigger] begins_with(bytes@, raw, rest) by {
                if begins_with(bytes@, raw, rest) {
                    lemma_written_is_read(raw, rest);
                }
            }
        }
    }
    if bytes.len() == 0 {
        return Err(WireError::Malformed);
    }
    let tag = bytes[0];
    if tag == 0 {
        match read_event(bytes, 1) {
            Some((e, _)) => Ok(ProtocolMessage::Gossip(e)),
            None => Err(WireError::Malformed),
        }
    } else if tag == 1 {
        match read_u64(bytes, 1) {
            None => Err(WireError::Malformed),
            Some((x, next)) => match read_u64(bytes, next) {
                None => Err(WireError::Malformed),
                Some((y, next)) => match read_u64(bytes, next) {
                    None => Err(WireError::Malformed),
                    Some((z, _)) => Ok(ProtocolMessage::Hello { coords: (x, y, z) }),
                },
            },
        }
    } else {
        Err(WireError::Malformed)
    }
}

} // verus!
