//! Networked nodes: a node's state is written as its 16-bit object id and
//! its values, each as the type the node's script gives for it. A datagram
//! after its tick header holds such updates one after another.
use vstd::prelude::*;

use crate::bits::{
    bits_append, bits_extend_u16, bits_get, bits_len, bits_new, bits_of, field,
    lemma_field_of_concat, lemma_small_powers, lemma_value_bits_value, read_field, value_bits, Packet,
};
use crate::messages::{all_fit, decode_all, encode_all, lemma_decode_all_encode_all, views};
use crate::netnodes::common::DGRAM_HEADER_SIZE;
use crate::serializer::{
    decode_with_known_type, decoded_form, encode_with_known_type, fits, length_fits, spec_decode, NetValue, NetValueView,
    NetworkedValueTypes, TypeCodeError,
};

verus! {

/// Bits of an object's id at the start of its update.
pub const OBJECT_HEADER_SIZE: usize = 16;

/// The most values a node's script is asked types for.
pub const MAX_NETWORKED_VALUES: i64 = 1000;

/// Reading a script's answers in turn: the types read so far, the error of
/// the answer that named no type, and whether reading has stopped (at that
/// answer or at `-1`).
pub open spec fn scan_codes(codes: Seq<i64>) -> (Seq<NetworkedValueTypes>, Option<TypeCodeError>, bool)
    decreases codes.len(),
{
    if codes.len() == 0 {
        (Seq::empty(), None, false)
    } else {
        let (ts, err, stopped) = scan_codes(codes.drop_last());
        let c = codes.last();
        if stopped {
            (ts, err, stopped)
        } else if c == -1 {
            (ts, None, true)
        } else {
            match NetworkedValueTypes::from_code(c) {
                Some(t) => (ts.push(t), None, false),
                None => (ts, Some(TypeCodeError::Nonexistent(c)), true),
            }
        }
    }
}

/// The types that a script's answers for indices `0, 1, ...` name: those
/// before its first `-1`, and at most a thousand; an error with the first
/// answer before that which names no type.
pub open spec fn spec_types_from_codes(codes: Seq<i64>) -> Result<Seq<NetworkedValueTypes>, TypeCodeError> {
    let n = if codes.len() < MAX_NETWORKED_VALUES { codes.len() as int } else { MAX_NETWORKED_VALUES as int };
    match scan_codes(codes.take(n)) {
        (ts, Some(e), _) => Err(e),
        (ts, None, _) => Ok(ts),
    }
}

/// Once reading has stopped, later answers change nothing.
proof fn lemma_scan_stopped(codes: Seq<i64>, i: int, j: int)
    requires
        0 <= i <= j <= codes.len(),
        scan_codes(codes.take(i)).2,
    ensures
        scan_codes(codes.take(j)) == scan_codes(codes.take(i)),
    decreases j - i,
{
    if j > i {
        lemma_scan_stopped(codes, i, j - 1);
        assert(codes.take(j).drop_last() =~= codes.take(j - 1));
    }
}

/// The types that a script's answers name, as `spec_types_from_codes` says.
pub fn types_from_codes(codes: &Vec<i64>) -> (r: Result<Vec<NetworkedValueTypes>, TypeCodeError>)
    ensures
        match r {
            Ok(ts) => spec_types_from_codes(codes@) == Ok::<Seq<NetworkedValueTypes>, TypeCodeError>(ts@),
            Err(e) => spec_types_from_codes(codes@) == Err::<Seq<NetworkedValueTypes>, TypeCodeError>(e),
        },
{
    let n: usize = if codes.len() < 1000 { codes.len() } else { 1000 };
    let ghost m = if codes@.len() < MAX_NETWORKED_VALUES { codes@.len() as int } else { MAX_NETWORKED_VALUES as int };
    assert(n == m);
    let ghost cs = codes@.take(m);
    assert(cs.take(m) =~= cs);
    let mut values: Vec<NetworkedValueTypes> = Vec::new();
    let mut i: usize = 0;
    assert(cs.take(0) =~= Seq::<i64>::empty());
    while i < n
        invariant_except_break
            scan_codes(cs.take(i as int)) == (values@, None::<TypeCodeError>, false),
        invariant
            n == m,
            m <= codes@.len(),
            cs == codes@.take(m),
            cs.take(m) == cs,
            m == (if codes@.len() < MAX_NETWORKED_VALUES { codes@.len() as int } else { MAX_NETWORKED_VALUES as int }),
            i <= n,
        ensures
            scan_codes(cs).0 == values@,
            scan_codes(cs).1 is None,
        decreases n - i,
    {
        let code = codes[i];
        proof {
            assert(cs.take(i + 1).drop_last() =~= cs.take(i as int));
            assert(cs.take(i + 1).last() == code);
        }
        if code == -1 {
            proof {
                lemma_scan_stopped(cs, i + 1, m);
                assert(cs.take(m) =~= cs);
            }
            break;
        }
        match NetworkedValueTypes::try_from(code) {
            Ok(t) => values.push(t),
            Err(e) => {
                proof {
                    assert(scan_codes(cs.take(i + 1)) == (values@, Some(e), true));
                    lemma_scan_stopped(cs, i + 1, m);
                    assert(cs.take(m) =~= cs);
                    assert(scan_codes(cs) == (values@, Some(e), true));
                }
                return Err(e);
            },
        }
        i = i + 1;
    }
    Ok(values)
}

/// Whether the node's script is asked again after the answers `codes` (for
/// indices `0, 1, ...`): not after a `-1`, nor after a number that names no
/// type, nor after a thousand answers.
pub open spec fn asks_again(codes: Seq<i64>) -> bool {
    &&& codes.len() < MAX_NETWORKED_VALUES
    &&& forall|i: int| 0 <= i < codes.len() ==> #[trigger] codes[i] != -1
        && NetworkedValueTypes::from_code(codes[i]) is Some
}

/// The index the node's script is asked the type of next, after its answers
/// `codes` for indices `0, 1, ...`: the next index, or none when asking is
/// over (see `asks_again`). The types are then `types_from_codes(codes)`,
/// whose error names the answer that named no type.
pub fn next_value_type_index(codes: &Vec<i64>) -> (r: Option<i64>)
    ensures
        r == (if asks_again(codes@) { Some(codes@.len() as i64) } else { None::<i64> }),
{
    if codes.len() >= 1000 {
        return None;
    }
    let mut i: usize = 0;
    while i < codes.len()
        invariant
            i <= codes.len() < MAX_NETWORKED_VALUES,
            forall|j: int| 0 <= j < i ==> #[trigger] codes@[j] != -1
                && NetworkedValueTypes::from_code(codes@[j]) is Some,
        decreases codes.len() - i,
    {
        let c = codes[i];
        if c == -1 || NetworkedValueTypes::try_from(c).is_err() {
            return None;
        }
        i = i + 1;
    }
    Some(codes.len() as i64)
}

/// The bits of a node's update: its object id, then its values.
pub open spec fn spec_byte_data(objectid: u16, vs: Seq<NetValueView>, ts: Seq<NetworkedValueTypes>) -> Seq<bool> {
    value_bits(objectid as nat, 16) + encode_all(vs, ts.take(vs.len() as int))
}

/// Writes a node's update from its values and their types. There must be a
/// type for each value, and each value must be convertible to it, as
/// `requires` asks.
pub fn get_byte_data(objectid: u16, values: &Vec<NetValue>, types: &Vec<NetworkedValueTypes>) -> (r: Packet)
    requires
        values.len() <= types.len(),
        all_fit(views(values@), types@.take(values.len() as int)),
    ensures
        bits_of(r) == spec_byte_data(objectid, views(values@), types@),
{
    let mut byte_data = bits_new();
    bits_extend_u16(&mut byte_data, objectid);
    let ghost head = value_bits(objectid as nat, 16);
    assert(bits_of(byte_data) =~= head);
    let ghost ts = types@.take(values.len() as int);
    let mut k: usize = 0;
    while k < values.len()
        invariant
            k <= values.len(),
            values.len() <= types.len(),
            ts == types@.take(values.len() as int),
            all_fit(views(values@), ts),
            bits_of(byte_data) == head + encode_all(views(values@).take(k as int), ts.take(k as int)),
        decreases values.len() - k,
    {
        assert(fits(views(values@)[k as int], ts[k as int]));
        let part = encode_with_known_type(&values[k], types[k]);
        bits_append(&mut byte_data, &part);
        proof {
            let vs = views(values@).take(k + 1);
            let tk = ts.take(k + 1);
            assert(vs.drop_last() =~= views(values@).take(k as int));
            assert(tk.drop_last() =~= ts.take(k as int));
            assert(vs.last() == values@[k as int]@);
        }
        k = k + 1;
    }
    assert(views(values@).take(values.len() as int) =~= views(values@));
    assert(ts.take(values.len() as int) =~= ts);
    byte_data
}

/// The values of types `ts` read one after another from index `p`, or
/// nothing when one cannot be read; with the index where reading stopped.
pub open spec fn decode_values(s: Seq<bool>, p: int, ts: Seq<NetworkedValueTypes>) -> (Option<Seq<NetValueView>>, int)
    decreases ts.len(),
{
    if ts.len() == 0 {
        (Some(Seq::empty()), p)
    } else {
        let (prev, q) = decode_values(s, p, ts.drop_last());
        match prev {
            None => (None, q),
            Some(vs) => match spec_decode(s, q, ts.last()) {
                (Some(v), q2) => (Some(vs.push(v)), q2),
                (None, q2) => (None, q2),
            },
        }
    }
}

pub open spec fn opt_views(r: Option<Vec<NetValue>>) -> Option<Seq<NetValueView>> {
    match r {
        Some(vs) => Some(views(vs@)),
        None => None,
    }
}

/// Reads a node's values, one for each of its types, from `*pointer`; gives
/// nothing when one cannot be read (the pointer then stays where that read
/// left it).
pub fn update_networked_values(pointer: &mut usize, data: &Packet, types: &Vec<NetworkedValueTypes>) -> (r: Option<Vec<NetValue>>)
    ensures
        decode_values(bits_of(*data), *old(pointer) as int, types@) == (opt_views(r), *final(pointer) as int),
{
    let ghost start = *pointer as int;
    let mut values: Vec<NetValue> = Vec::new();
    while values.len() < types.len()
        invariant
            values.len() <= types.len(),
            start == *old(pointer) as int,
            decode_values(bits_of(*data), start, types@.take(values.len() as int)) == (
                Some(views(values@)),
                *pointer as int,
            ),
        decreases types.len() - values.len(),
    {
        let ghost k = values.len() as int;
        let ghost before = views(values@);
        proof {
            assert(types@.take(k + 1).drop_last() =~= types@.take(k));
            assert(types@.take(k + 1).last() == types@[k]);
        }
        match decode_with_known_type(data, pointer, types[values.len()]) {
            Some(value) => {
                values.push(value);
                assert(views(values@) =~= before.push(values@.last()@));
            },
            None => {
                proof {
                    lemma_decode_values_failed(bits_of(*data), start, types@, k + 1);
                }
                return None;
            },
        }
    }
    assert(types@.take(types.len() as int) =~= types@);
    Some(values)
}

/// Reading values one after another gives what `decode_all` gives, where that
/// reads them all.
proof fn lemma_decode_values_of_all(s: Seq<bool>, p: int, ts: Seq<NetworkedValueTypes>)
    requires
        decode_all(s, p, ts) is Some,
    ensures
        decode_values(s, p, ts) == (Some(decode_all(s, p, ts).unwrap().0), decode_all(s, p, ts).unwrap().1),
    decreases ts.len(),
{
    if ts.len() > 0 {
        lemma_decode_values_of_all(s, p, ts.drop_last());
    }
}

/// Law: a node's update, between any bits before and after it, holds its
/// object id first; its values, read from just after that id with the node's
/// types, come back in their decoded forms, and reading ends where the update
/// ends.
pub proof fn lemma_node_data_roundtrip(
    before: Seq<bool>,
    objectid: u16,
    vs: Seq<NetValueView>,
    ts: Seq<NetworkedValueTypes>,
    after: Seq<bool>,
)
    requires
        all_fit(vs, ts),
        forall|i: int| 0 <= i < vs.len() ==> #[trigger] length_fits(vs[i]),
    ensures
        field(before + spec_byte_data(objectid, vs, ts) + after, before.len() as int, OBJECT_HEADER_SIZE as int)
            == objectid,
        decode_values(
            before + spec_byte_data(objectid, vs, ts) + after,
            before.len() + OBJECT_HEADER_SIZE,
            ts,
        ) == (
            Some(Seq::new(vs.len(), |i: int| decoded_form(vs[i], ts[i]))),
            (before.len() + spec_byte_data(objectid, vs, ts).len()) as int,
        ),
{
    let head = value_bits(objectid as nat, 16);
    lemma_small_powers();
    lemma_value_bits_value(objectid as nat, 16);
    assert(ts.take(vs.len() as int) =~= ts);
    let body = encode_all(vs, ts);
    let whole = before + spec_byte_data(objectid, vs, ts) + after;
    assert(whole =~= before + head + (body + after));
    lemma_field_of_concat(before, head, body + after);
    assert(whole =~= (before + head) + body + after);
    lemma_decode_all_encode_all(before + head, vs, ts, after);
    lemma_decode_values_of_all(whole, (before + head).len() as int, ts);
}

// ---------------------------------------------------------------------------
// Updates in a datagram
// ---------------------------------------------------------------------------

/// A node as the update reader sees it: its object id and the types of its values.
pub struct NodeSchema {
    pub objectid: u16,
    pub types: Vec<NetworkedValueTypes>,
}

pub struct NodeSchemaView {
    pub objectid: u16,
    pub types: Seq<NetworkedValueTypes>,
}

impl View for NodeSchema {
    type V = NodeSchemaView;

    open spec fn view(&self) -> NodeSchemaView {
        NodeSchemaView { objectid: self.objectid, types: self.types@ }
    }
}

pub open spec fn schemas(nodes: Seq<NodeSchema>) -> Seq<NodeSchemaView> {
    nodes.map_values(|n: NodeSchema| n@)
}

/// The values read for one node; nothing when they could not be read.
pub struct ObjectUpdate {
    pub node: usize,
    pub values: Option<Vec<NetValue>>,
}

pub struct ObjectUpdateView {
    pub node: usize,
    pub values: Option<Seq<NetValueView>>,
}

pub open spec fn updates_view(us: Seq<ObjectUpdate>) -> Seq<ObjectUpdateView> {
    us.map_values(|u: ObjectUpdate| ObjectUpdateView { node: u.node, values: opt_views(u.values) })
}

/// Why reading a datagram's updates stopped.
#[derive(PartialEq, Eq, Structural, Debug, Copy, Clone)]
pub enum UpdatesEnd {
    /// Fewer bits than an object id are left.
    Exhausted,
    /// Object id 0 followed by zero bits only: the datagram's padding.
    Padding,
    /// Object id 0 followed by a set bit.
    ZeroId,
    /// No node has this object id.
    UnknownObject(u16),
}

/// The first node with object id `id`.
pub open spec fn find_node(nodes: Seq<NodeSchemaView>, id: u16) -> Option<int>
    decreases nodes.len(),
{
    if nodes.len() == 0 {
        None
    } else {
        match find_node(nodes.drop_last(), id) {
            Some(k) => Some(k),
            None => if nodes.last().objectid == id {
                Some(nodes.len() - 1)
            } else {
                None
            },
        }
    }
}

pub open spec fn all_zero_from(s: Seq<bool>, p: int) -> bool {
    forall|i: int| p <= i < s.len() ==> !s[i]
}

/// The updates read from index `p` of a datagram, and why reading stopped.
/// When `zero_is_padding` holds, object id 0 ends the updates.
pub open spec fn read_updates(s: Seq<bool>, p: int, nodes: Seq<NodeSchemaView>, zero_is_padding: bool) -> (Seq<ObjectUpdateView>, UpdatesEnd)
    decreases s.len() - p,
{
    if p + 16 > s.len() || p < 0 {
        (Seq::empty(), UpdatesEnd::Exhausted)
    } else {
        let id = field(s, p, 16) as u16;
        if zero_is_padding && id == 0 {
            (Seq::empty(), if all_zero_from(s, p + 16) { UpdatesEnd::Padding } else { UpdatesEnd::ZeroId })
        } else {
            match find_node(nodes, id) {
                None => (Seq::empty(), UpdatesEnd::UnknownObject(id)),
                Some(k) => {
                    let (vals, q) = decode_values(s, p + 16, nodes[k].types);
                    let here = ObjectUpdateView { node: k as usize, values: vals };
                    if q < p + 16 || q > s.len() {
                        (seq![here], UpdatesEnd::Exhausted)
                    } else {
                        let (rest, end) = read_updates(s, q, nodes, zero_is_padding);
                        (seq![here] + rest, end)
                    }
                },
            }
        }
    }
}

/// Reading values never moves the pointer back, nor past the end.
pub proof fn lemma_decode_values_advances(s: Seq<bool>, p: int, ts: Seq<NetworkedValueTypes>)
    requires
        p <= s.len(),
    ensures
        p <= decode_values(s, p, ts).1 <= s.len(),
    decreases ts.len(),
{
    if ts.len() > 0 {
        lemma_decode_values_advances(s, p, ts.drop_last());
    }
}

/// Once a value cannot be read, reading more types reads nothing more.
proof fn lemma_decode_values_failed(s: Seq<bool>, p: int, ts: Seq<NetworkedValueTypes>, k: int)
    requires
        0 <= k <= ts.len(),
        decode_values(s, p, ts.take(k)).0 is None,
    ensures
        decode_values(s, p, ts) == decode_values(s, p, ts.take(k)),
    decreases ts.len() - k,
{
    if k < ts.len() {
        assert(ts.take(k + 1).drop_last() =~= ts.take(k));
        lemma_decode_values_failed(s, p, ts, k + 1);
    } else {
        assert(ts.take(k) =~= ts);
    }
}

fn find_node_index(nodes: &Vec<NodeSchema>, id: u16) -> (r: Option<usize>)
    ensures
        r matches Some(k) ==> k < nodes.len(),
        match find_node(schemas(nodes@), id) {
            Some(k) => r == Some(k as usize),
            None => r is None,
        },
{
    let mut k: usize = 0;
    while k < nodes.len()
        invariant
            k <= nodes.len(),
            find_node(schemas(nodes@.take(k as int)), id) is None,
        decreases nodes.len() - k,
    {
        proof {
            assert(schemas(nodes@.take(k + 1)).drop_last() =~= schemas(nodes@.take(k as int)));
        }
        if nodes[k].objectid == id {
            proof {
                assert(schemas(nodes@.take(k + 1)) =~= schemas(nodes@).take(k + 1));
                lemma_find_node_prefix(schemas(nodes@), k as int + 1, id);
            }
            return Some(k);
        }
        k = k + 1;
    }
    assert(schemas(nodes@.take(nodes.len() as int)) =~= schemas(nodes@));
    None
}

proof fn lemma_find_node_range(nodes: Seq<NodeSchemaView>, id: u16)
    ensures
        find_node(nodes, id) matches Some(k) ==> 0 <= k < nodes.len() && nodes[k].objectid == id,
    decreases nodes.len(),
{
    if nodes.len() > 0 {
        lemma_find_node_range(nodes.drop_last(), id);
    }
}

/// A node found among the first `n` is the one found among all.
proof fn lemma_find_node_prefix(nodes: Seq<NodeSchemaView>, n: int, id: u16)
    requires
        0 < n <= nodes.len(),
        find_node(nodes.take(n), id) is Some,
    ensures
        find_node(nodes, id) == find_node(nodes.take(n), id),
    decreases nodes.len(),
{
    if n < nodes.len() {
        assert(nodes.drop_last().take(n) =~= nodes.take(n));
        lemma_find_node_prefix(nodes.drop_last(), n, id);
    } else {
        assert(nodes.take(n) =~= nodes);
    }
}

fn all_zero_after(packet: &Packet, p: usize) -> (r: bool)
    requires
        p <= bits_of(*packet).len(),
    ensures
        r == all_zero_from(bits_of(*packet), p as int),
{
    let len = bits_len(packet);
    let mut i = p;
    while i < len
        invariant
            p <= i <= len,
            len == bits_of(*packet).len(),
            forall|j: int| p <= j < i ==> !bits_of(*packet)[j],
        decreases len - i,
    {
        if bits_get(packet, i) {
            return false;
        }
        i = i + 1;
    }
    true
}

/// Reads the updates of a datagram after its tick header: for each object
/// id, the first node with that id reads its values; reading stops at the
/// end, at an unknown object id, and, when `zero_is_padding` holds, at
/// object id 0.
pub fn read_object_updates(packet: &Packet, nodes: &Vec<NodeSchema>, zero_is_padding: bool) -> (r: (Vec<ObjectUpdate>, UpdatesEnd))
    ensures
        read_updates(bits_of(*packet), DGRAM_HEADER_SIZE as int, schemas(nodes@), zero_is_padding) == (
            updates_view(r.0@),
            r.1,
        ),
{
    let len = bits_len(packet);
    if len < DGRAM_HEADER_SIZE {
        return (Vec::new(), UpdatesEnd::Exhausted);
    }
    let mut pointer: usize = DGRAM_HEADER_SIZE;
    let mut updates: Vec<ObjectUpdate> = Vec::new();
    let ghost s = bits_of(*packet);
    let ghost whole = read_updates(s, DGRAM_HEADER_SIZE as int, schemas(nodes@), zero_is_padding);
    proof {
        lemma_small_powers();
    }
    loop
        invariant
            len == s.len(),
            pointer <= len,
            s == bits_of(*packet),
            whole == read_updates(s, DGRAM_HEADER_SIZE as int, schemas(nodes@), zero_is_padding),
            whole.0 == updates_view(updates@) + read_updates(s, pointer as int, schemas(nodes@), zero_is_padding).0,
            whole.1 == read_updates(s, pointer as int, schemas(nodes@), zero_is_padding).1,
        decreases len - pointer,
    {
        assert(updates_view(updates@) + Seq::<ObjectUpdateView>::empty() =~= updates_view(updates@));
        proof {
            lemma_small_powers();
        }
        if len - pointer < OBJECT_HEADER_SIZE {
            return (updates, UpdatesEnd::Exhausted);
        }
        let id = read_field(packet, pointer, OBJECT_HEADER_SIZE) as u16;
        let after_id = pointer + OBJECT_HEADER_SIZE;
        if zero_is_padding && id == 0 {
            if all_zero_after(packet, after_id) {
                return (updates, UpdatesEnd::Padding);
            }
            return (updates, UpdatesEnd::ZeroId);
        }
        let k = match find_node_index(nodes, id) {
            Some(k) => k,
            None => {
                return (updates, UpdatesEnd::UnknownObject(id));
            },
        };
        let mut q = after_id;
        let values = update_networked_values(&mut q, packet, &nodes[k].types);
        proof {
            lemma_find_node_range(schemas(nodes@), id);
            lemma_decode_values_advances(s, after_id as int, nodes@[k as int].types@);
            assert(schemas(nodes@)[k as int] == nodes@[k as int]@);
        }
        let ghost before = updates_view(updates@);
        updates.push(ObjectUpdate { node: k, values });
        proof {
            assert(updates_view(updates@) =~= before.push(updates_view(updates@).last()));
            let here = updates_view(updates@).last();
            let rest = read_updates(s, q as int, schemas(nodes@), zero_is_padding).0;
            assert(read_updates(s, pointer as int, schemas(nodes@), zero_is_padding).0 =~= seq![here]
                + rest);
            assert(before + (seq![here] + rest) =~= before.push(here) + rest);
        }
        pointer = q;
    }
}

} // verus!
