//! Reliable messages: a packet holds a 16-bit message id and then the values
//! of the message, each written as the type the handler's script gives for it.
use vstd::prelude::*;

use crate::bits::{bits_append, bits_extend_u16, bits_len, bits_new, bits_of, value_bits, Packet};
use crate::serializer::{
    decode_with_known_type, decoded_form, encode_with_known_type, fits, lemma_decode_encode,
    length_fits, spec_decode, spec_encode, NetValue, NetValueView, NetworkedValueTypes, TypeCodeError,
};

verus! {

/// Bits of the message id at the start of a message.
pub const MESSAGE_HEADER_SIZE: usize = 16;

pub open spec fn views(vs: Seq<NetValue>) -> Seq<NetValueView> {
    vs.map_values(|v: NetValue| v@)
}

pub open spec fn positions(ts: Seq<NetworkedValueTypes>) -> Seq<i64> {
    ts.map_values(|t: NetworkedValueTypes| t.spec_position())
}

/// The values of types `ts` read one after another from index `p`, and the
/// index after the last; nothing if one of them cannot be read.
pub open spec fn decode_all(s: Seq<bool>, p: int, ts: Seq<NetworkedValueTypes>) -> Option<(Seq<NetValueView>, int)>
    decreases ts.len(),
{
    if ts.len() == 0 {
        Some((Seq::empty(), p))
    } else {
        match decode_all(s, p, ts.drop_last()) {
            None => None,
            Some((vs, q)) => match spec_decode(s, q, ts.last()) {
                (Some(v), q2) => Some((vs.push(v), q2)),
                (None, _) => None,
            },
        }
    }
}

/// The bits of values `vs` written one after another as types `ts`.
pub open spec fn encode_all(vs: Seq<NetValueView>, ts: Seq<NetworkedValueTypes>) -> Seq<bool>
    decreases vs.len(),
{
    if vs.len() == 0 || ts.len() == 0 {
        Seq::empty()
    } else {
        encode_all(vs.drop_last(), ts.drop_last()) + spec_encode(vs.last(), ts.last())
    }
}

/// The types that the numbers `codes` name, where each names one.
pub open spec fn types_of(codes: Seq<i64>) -> Seq<NetworkedValueTypes> {
    codes.map_values(|c: i64| NetworkedValueTypes::from_code(c).unwrap())
}

pub open spec fn all_codes_valid(codes: Seq<i64>) -> bool {
    forall|i: int| 0 <= i < codes.len() ==> (#[trigger] NetworkedValueTypes::from_code(codes[i])) is Some
}

/// Whether each value can be written as the type its number names.
pub open spec fn all_fit(vs: Seq<NetValueView>, ts: Seq<NetworkedValueTypes>) -> bool {
    vs.len() == ts.len() && forall|i: int| 0 <= i < vs.len() ==> #[trigger] fits(vs[i], ts[i])
}

/// The packet of a message: empty when the numbers of types do not match the
/// values, or one of them names no type; else the id and the values.
pub open spec fn spec_generate_packet(vs: Seq<NetValueView>, codes: Seq<i64>, message_id: u16) -> Seq<bool> {
    if vs.len() != codes.len() || !all_codes_valid(codes) {
        Seq::empty()
    } else {
        value_bits(message_id as nat, 16) + encode_all(vs, types_of(codes))
    }
}

/// Writes a message: its id, then each value as the type its number names.
/// Writing a value that cannot be converted to its type panics, which
/// `requires` leaves out.
pub fn generate_packet(values: &Vec<NetValue>, types: &Vec<i64>, message_id: u16) -> (r: Packet)
    requires
        values.len() == types.len() && all_codes_valid(types@) ==> all_fit(
            views(values@),
            types_of(types@),
        ),
    ensures
        bits_of(r) == spec_generate_packet(views(values@), types@, message_id),
{
    if values.len() != types.len() {
        return bits_new();
    }
    let mut kinds: Vec<NetworkedValueTypes> = Vec::new();
    let mut i: usize = 0;
    while i < types.len()
        invariant
            i <= types.len(),
            kinds@.len() == i,
            forall|j: int| 0 <= j < i ==> (#[trigger] NetworkedValueTypes::from_code(types@[j])) == Some(kinds@[j]),
        decreases types.len() - i,
    {
        match NetworkedValueTypes::try_from(types[i]) {
            Ok(t) => kinds.push(t),
            Err(_) => {
                assert(!all_codes_valid(types@)) by {
                    assert(NetworkedValueTypes::from_code(types@[i as int]) is None);
                }
                return bits_new();
            },
        }
        i = i + 1;
    }
    assert(all_codes_valid(types@));
    assert(kinds@ =~= types_of(types@));
    let mut packet = bits_new();
    bits_extend_u16(&mut packet, message_id);
    let ghost head = value_bits(message_id as nat, 16);
    assert(bits_of(packet) =~= head);
    let mut k: usize = 0;
    while k < values.len()
        invariant
            k <= values.len(),
            values.len() == kinds.len(),
            kinds@ == types_of(types@),
            all_fit(views(values@), types_of(types@)),
            bits_of(packet) == head + encode_all(views(values@).take(k as int), kinds@.take(k as int)),
        decreases values.len() - k,
    {
        assert(fits(views(values@)[k as int], kinds@[k as int]));
        let part = encode_with_known_type(&values[k], kinds[k]);
        bits_append(&mut packet, &part);
        proof {
            let vs = views(values@).take(k + 1);
            let ts = kinds@.take(k + 1);
            assert(vs.drop_last() =~= views(values@).take(k as int));
            assert(ts.drop_last() =~= kinds@.take(k as int));
            assert(vs.last() == values@[k as int]@);
        }
        k = k + 1;
    }
    assert(views(values@).take(values.len() as int) =~= views(values@));
    assert(kinds@.take(values.len() as int) =~= kinds@);
    packet
}

/// What reading one value at `p` as the type the script's number `code`
/// names gives, and the index after it: an error when the number names no
/// type (the index stays), else the value, or nothing when it cannot be read.
pub open spec fn spec_read_value(s: Seq<bool>, p: int, code: i64) -> (Result<Option<NetValueView>, TypeCodeError>, int) {
    match NetworkedValueTypes::from_code(code) {
        None => (
            Err(
                if code == -1 {
                    TypeCodeError::InvalidType
                } else {
                    TypeCodeError::Nonexistent(code)
                },
            ),
            p,
        ),
        Some(t) => {
            let (v, q) = spec_decode(s, p, t);
            (Ok(v), q)
        },
    }
}

pub open spec fn read_view(r: Result<Option<NetValue>, TypeCodeError>) -> Result<Option<NetValueView>, TypeCodeError> {
    match r {
        Ok(Some(v)) => Ok(Some(v@)),
        Ok(None) => Ok(None),
        Err(e) => Err(e),
    }
}

/// Reads one value at `*pointer` as the type the script's number `code`
/// names (see `spec_read_value`).
pub fn read_value(packet: &Packet, pointer: &mut usize, code: i64) -> (r: Result<Option<NetValue>, TypeCodeError>)
    ensures
        (read_view(r), *final(pointer) as int) == spec_read_value(bits_of(*packet), *old(pointer) as int, code),
{
    match NetworkedValueTypes::try_from(code) {
        Ok(t) => Ok(decode_with_known_type(packet, pointer, t)),
        Err(e) => Err(e),
    }
}

/// The values read from `p` with the types that the numbers `codes` name, one
/// after another: the values, the positions of their types in the enum, and
/// where reading stands; nothing when a number names no type or a value
/// cannot be read.
pub open spec fn read_with_codes(s: Seq<bool>, p: int, codes: Seq<i64>) -> Option<(Seq<NetValueView>, Seq<i64>, int)>
    decreases codes.len(),
{
    if codes.len() == 0 {
        Some((Seq::empty(), Seq::empty(), p))
    } else {
        match read_with_codes(s, p, codes.drop_last()) {
            None => None,
            Some((vs, cs, q)) => match spec_read_value(s, q, codes.last()) {
                (Ok(Some(v)), q2) => Some(
                    (vs.push(v), cs.push(NetworkedValueTypes::from_code(codes.last()).unwrap().spec_position()), q2),
                ),
                _ => None,
            },
        }
    }
}

/// The value read just before: the last of `vs`, or nil before the first.
pub open spec fn previous_of(vs: Seq<NetValueView>) -> NetValueView {
    if vs.len() == 0 {
        NetValueView::Nil
    } else {
        vs.last()
    }
}

/// What `handle_message` gives for the script's answers `a`, and where
/// reading ends: the message ends at `-1` or where the packet's bits run
/// out; a number that names no type, a value that cannot be read, or more
/// values than an `i64` counts give nothing.
pub open spec fn spec_handle_message(s: Seq<bool>, p: int, a: Seq<i64>) -> Option<(Seq<NetValueView>, Seq<i64>)> {
    if a.len() > 0 && a.last() == -1 {
        match read_with_codes(s, p, a.drop_last()) {
            Some((vs, cs, _)) => Some((vs, cs)),
            None => None,
        }
    } else {
        match read_with_codes(s, p, a) {
            Some((vs, cs, q)) => if q >= s.len() && a.len() <= i64::MAX {
                Some((vs, cs))
            } else {
                None
            },
            None => None,
        }
    }
}

/// Where reading ends for the script's answers `a`.
pub open spec fn handle_message_end(s: Seq<bool>, p: int, a: Seq<i64>) -> int {
    if a.len() == 0 {
        p
    } else {
        match read_with_codes(s, p, a.drop_last()) {
            Some((_, _, q)) => if a.last() == -1 {
                q
            } else {
                spec_read_value(s, q, a.last()).1
            },
            None => p,
        }
    }
}

pub open spec fn opt_message_view(r: Option<(Vec<NetValue>, Vec<i64>)>) -> Option<(Seq<NetValueView>, Seq<i64>)> {
    match r {
        Some((vs, cs)) => Some((views(vs@), cs@)),
        None => None,
    }
}

/// What reading a message asks for next: the type of the value at an index,
/// or nothing more, with what was read (`None` when the message could not be
/// read).
pub enum MessageStep {
    Ask(i64),
    Done(Option<(Vec<NetValue>, Vec<i64>)>),
}

/// A message being read. The script is asked for the type of each value in
/// turn, with the value's index and the value read just before it (nil
/// before the first); each answer is handed to `answer`, which reads that
/// value. `read` holds nil and then the values read so far, `types` the
/// positions of their types, `pointer` where reading stands; `start` is where
/// the message's values began and `answers` the script's answers so far.
pub struct MessageReader {
    pub pointer: usize,
    pub read: Vec<NetValue>,
    pub types: Vec<i64>,
    pub start: Ghost<int>,
    pub answers: Ghost<Seq<i64>>,
}

impl MessageReader {
    /// A reader that is waiting for the answer to its question number
    /// `answers.len()`: what it read agrees with the answers so far, bits are
    /// left, and that number fits an `i64`.
    pub open spec fn wf(&self, s: Seq<bool>) -> bool {
        &&& self.read@.len() == self.answers@.len() + 1
        &&& self.read@[0]@ == NetValueView::Nil
        &&& read_with_codes(s, self.start@, self.answers@) == Some(
            (views(self.read@.drop_first()), self.types@, self.pointer as int),
        )
        &&& self.pointer < s.len()
        &&& self.answers@.len() < i64::MAX
    }

    /// Begins reading a message's values at `pointer`. With no bits left it
    /// asks nothing and gives no values; otherwise it asks for the type at
    /// index 0.
    pub fn start(packet: &Packet, pointer: usize) -> (r: (MessageReader, MessageStep))
        ensures
            r.0.start@ == pointer as int,
            r.0.answers@ == Seq::<i64>::empty(),
            r.0.pointer == pointer,
            match r.1 {
                MessageStep::Ask(i) => i == 0 && r.0.wf(bits_of(*packet)),
                MessageStep::Done(d) => pointer >= bits_of(*packet).len() && opt_message_view(d)
                    == spec_handle_message(bits_of(*packet), pointer as int, Seq::empty()),
            },
    {
        let mut read: Vec<NetValue> = Vec::new();
        read.push(NetValue::Nil);
        let reader = MessageReader {
            pointer,
            read,
            types: Vec::new(),
            start: Ghost(pointer as int),
            answers: Ghost(Seq::empty()),
        };
        assert(reader.read@.drop_first() =~= Seq::<NetValue>::empty());
        assert(views(reader.read@.drop_first()) =~= Seq::<NetValueView>::empty());
        if pointer < bits_len(packet) {
            (reader, MessageStep::Ask(0))
        } else {
            (reader, MessageStep::Done(Some((Vec::new(), Vec::new()))))
        }
    }

    /// The value handed to the script with the next question: the last
    /// value read, or nil before the first.
    pub fn previous(&self) -> (r: &NetValue)
        requires
            self.read@.len() >= 1,
            self.read@[0]@ == NetValueView::Nil,
        ensures
            r@ == previous_of(views(self.read@.drop_first())),
    {
        let n = self.read.len();
        if n > 1 {
            assert(views(self.read@.drop_first()).last() == self.read@[n - 1]@);
        }
        &self.read[n - 1]
    }

    /// Takes the script's answer to the last question and reads that value.
    /// The message ends at `-1` or where the bits run out; a number that names
    /// no type or a value that cannot be read ends it with nothing. Whatever
    /// the answers, the end is what `spec_handle_message` gives for them and
    /// the pointer stands at `handle_message_end`; otherwise the next question
    /// is for the next index.
    pub fn answer(&mut self, packet: &Packet, code: i64) -> (r: MessageStep)
        requires
            old(self).wf(bits_of(*packet)),
        ensures
            final(self).answers@ == old(self).answers@.push(code),
            final(self).start@ == old(self).start@,
            match r {
                MessageStep::Ask(i) => i == final(self).answers@.len() && code != -1 && final(self).wf(
                    bits_of(*packet),
                ),
                MessageStep::Done(d) => opt_message_view(d) == spec_handle_message(
                    bits_of(*packet),
                    old(self).start@,
                    final(self).answers@,
                ) && final(self).pointer == handle_message_end(
                    bits_of(*packet),
                    old(self).start@,
                    final(self).answers@,
                ),
            },
    {
        let ghost s = bits_of(*packet);
        let ghost before = self.answers@;
        let ghost start = self.start@;
        proof {
            self.answers = Ghost(before.push(code));
            assert(self.answers@.drop_last() =~= before);
        }
        if code == -1 {
            let mut values: Vec<NetValue> = Vec::new();
            std::mem::swap(&mut values, &mut self.read);
            values.remove(0);
            let mut types: Vec<i64> = Vec::new();
            std::mem::swap(&mut types, &mut self.types);
            assert(values@ =~= old(self).read@.drop_first());
            return MessageStep::Done(Some((values, types)));
        }
        let mut pointer = self.pointer;
        let value = match read_value(packet, &mut pointer, code) {
            Ok(Some(v)) => v,
            _ => {
                self.pointer = pointer;
                return MessageStep::Done(None);
            },
        };
        self.pointer = pointer;
        let position = match NetworkedValueTypes::try_from(code) {
            Ok(t) => t.position(),
            Err(_) => 0,
        };
        let ghost old_read = self.read@;
        self.read.push(value);
        self.types.push(position);
        proof {
            assert(self.read@.drop_first() =~= old_read.drop_first().push(self.read@.last()));
            assert(views(self.read@.drop_first()) =~= views(old_read.drop_first()).push(self.read@.last()@));
        }
        let count: usize = self.read.len() - 1;
        if pointer >= bits_len(packet) || count as u64 >= 0x7fff_ffff_ffff_ffffu64 {
            let mut values: Vec<NetValue> = Vec::new();
            std::mem::swap(&mut values, &mut self.read);
            values.remove(0);
            let mut types: Vec<i64> = Vec::new();
            std::mem::swap(&mut types, &mut self.types);
            assert(values@ =~= old_read.push(value).drop_first());
            return MessageStep::Done(if pointer >= bits_len(packet) { Some((values, types)) } else { None });
        }
        MessageStep::Ask(count as i64)
    }
}

// ---------------------------------------------------------------------------
// Laws
// ---------------------------------------------------------------------------

/// Values written one after another, between any bits before and after them,
/// are read back one after another in their decoded forms.
pub proof fn lemma_decode_all_encode_all(
    before: Seq<bool>,
    vs: Seq<NetValueView>,
    ts: Seq<NetworkedValueTypes>,
    after: Seq<bool>,
)
    requires
        all_fit(vs, ts),
        forall|i: int| 0 <= i < vs.len() ==> #[trigger] length_fits(vs[i]),
    ensures
        decode_all(before + encode_all(vs, ts) + after, before.len() as int, ts) == Some(
            (
                Seq::new(vs.len(), |i: int| decoded_form(vs[i], ts[i])),
                (before.len() + encode_all(vs, ts).len()) as int,
            ),
        ),
    decreases vs.len(),
{
    let whole = before + encode_all(vs, ts) + after;
    if vs.len() == 0 {
        assert(Seq::new(vs.len(), |i: int| decoded_form(vs[i], ts[i])) =~= Seq::<NetValueView>::empty());
    } else {
        let vs0 = vs.drop_last();
        let ts0 = ts.drop_last();
        let last = spec_encode(vs.last(), ts.last());
        assert(fits(vs[vs.len() - 1], ts[ts.len() - 1]));
        assert(length_fits(vs[vs.len() - 1]));
        assert forall|i: int| 0 <= i < vs0.len() implies #[trigger] fits(vs0[i], ts0[i]) by {
            assert(fits(vs[i], ts[i]));
        }
        assert forall|i: int| 0 <= i < vs0.len() implies #[trigger] length_fits(vs0[i]) by {
            assert(length_fits(vs[i]));
        }
        assert(whole =~= before + encode_all(vs0, ts0) + (last + after));
        lemma_decode_all_encode_all(before, vs0, ts0, last + after);
        assert(whole =~= (before + encode_all(vs0, ts0)) + last + after);
        lemma_decode_encode(before + encode_all(vs0, ts0), vs.last(), ts.last(), after);
        assert(Seq::new(vs0.len(), |i: int| decoded_form(vs0[i], ts0[i])).push(
            decoded_form(vs.last(), ts.last()),
        ) =~= Seq::new(vs.len(), |i: int| decoded_form(vs[i], ts[i])));
    }
}

/// Law: the values of a generated message are read back, in their decoded
/// forms, from just after its id when each is read as the type its number names.
pub proof fn lemma_message_roundtrip(vs: Seq<NetValueView>, codes: Seq<i64>, message_id: u16)
    requires
        vs.len() == codes.len(),
        all_codes_valid(codes),
        all_fit(vs, types_of(codes)),
        forall|i: int| 0 <= i < vs.len() ==> #[trigger] length_fits(vs[i]),
    ensures
        decode_all(spec_generate_packet(vs, codes, message_id), MESSAGE_HEADER_SIZE as int, types_of(codes))
            == Some(
            (
                Seq::new(vs.len(), |i: int| decoded_form(vs[i], types_of(codes)[i])),
                spec_generate_packet(vs, codes, message_id).len() as int,
            ),
        ),
{
    let head = value_bits(message_id as nat, 16);
    crate::bits::lemma_value_bits_len(message_id as nat, 16);
    let body = encode_all(vs, types_of(codes));
    assert(spec_generate_packet(vs, codes, message_id) =~= head + body + Seq::<bool>::empty());
    lemma_decode_all_encode_all(head, vs, types_of(codes), Seq::empty());
}

/// The values written first are a prefix of what a run of values writes.
proof fn lemma_encode_all_prefix(vs: Seq<NetValueView>, ts: Seq<NetworkedValueTypes>, i: int)
    requires
        vs.len() == ts.len(),
        0 <= i <= vs.len(),
    ensures
        encode_all(vs, ts) =~= encode_all(vs.take(i), ts.take(i)) + encode_all(vs, ts).skip(
            encode_all(vs.take(i), ts.take(i)).len() as int,
        ),
    decreases vs.len() - i,
{
    if i == vs.len() {
        assert(vs.take(i) =~= vs);
        assert(ts.take(i) =~= ts);
    } else {
        lemma_encode_all_prefix(vs, ts, i + 1);
        assert(vs.take(i + 1).drop_last() =~= vs.take(i));
        assert(ts.take(i + 1).drop_last() =~= ts.take(i));
    }
}

/// Reading with numbers that each name a type is reading with those types,
/// the positions of the types given beside the values.
proof fn lemma_read_with_codes_decode_all(s: Seq<bool>, p: int, codes: Seq<i64>)
    requires
        all_codes_valid(codes),
    ensures
        read_with_codes(s, p, codes) == match decode_all(s, p, types_of(codes)) {
            Some((vs, q)) => Some((vs, positions(types_of(codes)), q)),
            None => None,
        },
    decreases codes.len(),
{
    if codes.len() > 0 {
        let c0 = codes.drop_last();
        assert(all_codes_valid(c0)) by {
            assert forall|i: int| 0 <= i < c0.len() implies (#[trigger] NetworkedValueTypes::from_code(c0[i])) is Some by {
                assert(NetworkedValueTypes::from_code(codes[i]) is Some);
            }
        }
        lemma_read_with_codes_decode_all(s, p, c0);
        assert(NetworkedValueTypes::from_code(codes[codes.len() - 1]) is Some);
        assert(types_of(codes).drop_last() =~= types_of(c0));
        assert(positions(types_of(codes)) =~= positions(types_of(c0)).push(
            NetworkedValueTypes::from_code(codes.last()).unwrap().spec_position(),
        ));
    }
}

/// Law: reading a generated message from just after its id, with the numbers
/// the message was written with as the script's answers, gives after the
/// first `i` answers the first `i` values in their decoded forms and the
/// positions of their types, standing just after them. So the script is
/// asked for index `i` with the decoded value `i - 1` beside it.
pub proof fn lemma_generated_prefix_read(vs: Seq<NetValueView>, codes: Seq<i64>, message_id: u16, i: int)
    requires
        vs.len() == codes.len(),
        all_codes_valid(codes),
        all_fit(vs, types_of(codes)),
        forall|j: int| 0 <= j < vs.len() ==> #[trigger] length_fits(vs[j]),
        0 <= i <= vs.len(),
    ensures
        read_with_codes(spec_generate_packet(vs, codes, message_id), MESSAGE_HEADER_SIZE as int, codes.take(i))
            == Some(
            (
                Seq::new(i as nat, |j: int| decoded_form(vs[j], types_of(codes)[j])),
                positions(types_of(codes)).take(i),
                MESSAGE_HEADER_SIZE + encode_all(vs.take(i), types_of(codes).take(i)).len(),
            ),
        ),
{
    let ts = types_of(codes);
    let head = value_bits(message_id as nat, 16);
    crate::bits::lemma_value_bits_len(message_id as nat, 16);
    let s = spec_generate_packet(vs, codes, message_id);
    lemma_encode_all_prefix(vs, ts, i);
    let first = encode_all(vs.take(i), ts.take(i));
    let rest = encode_all(vs, ts).skip(first.len() as int);
    assert(s =~= head + first + rest);
    let vi = vs.take(i);
    let ti = ts.take(i);
    assert(all_fit(vi, ti)) by {
        assert forall|j: int| 0 <= j < vi.len() implies #[trigger] fits(vi[j], ti[j]) by {
            assert(fits(vs[j], ts[j]));
        }
    }
    assert forall|j: int| 0 <= j < vi.len() implies #[trigger] length_fits(vi[j]) by {
        assert(length_fits(vs[j]));
    }
    lemma_decode_all_encode_all(head, vi, ti, rest);
    let ci = codes.take(i);
    assert(all_codes_valid(ci)) by {
        assert forall|j: int| 0 <= j < ci.len() implies (#[trigger] NetworkedValueTypes::from_code(ci[j])) is Some by {
            assert(NetworkedValueTypes::from_code(codes[j]) is Some);
        }
    }
    assert(types_of(ci) =~= ti);
    lemma_read_with_codes_decode_all(s, MESSAGE_HEADER_SIZE as int, ci);
    assert(positions(ti) =~= positions(ts).take(i));
    assert(Seq::new(vi.len(), |j: int| decoded_form(vi[j], ti[j])) =~= Seq::new(
        i as nat,
        |j: int| decoded_form(vs[j], ts[j]),
    ));
}

/// Law: a generated message is read back from just after its id when the
/// script answers with the numbers it was written with, then `-1`: the
/// values in their decoded forms, the positions of their types, and reading
/// ends at the end of the packet. Answering without the `-1` gives the same
/// once the last value ends the packet.
pub proof fn lemma_handle_generated_message(vs: Seq<NetValueView>, codes: Seq<i64>, message_id: u16)
    requires
        vs.len() == codes.len(),
        all_codes_valid(codes),
        all_fit(vs, types_of(codes)),
        forall|j: int| 0 <= j < vs.len() ==> #[trigger] length_fits(vs[j]),
    ensures
        spec_handle_message(spec_generate_packet(vs, codes, message_id), MESSAGE_HEADER_SIZE as int, codes.push(-1i64))
            == Some(
            (Seq::new(vs.len(), |j: int| decoded_form(vs[j], types_of(codes)[j])), positions(types_of(codes))),
        ),
        handle_message_end(spec_generate_packet(vs, codes, message_id), MESSAGE_HEADER_SIZE as int, codes.push(-1i64))
            == spec_generate_packet(vs, codes, message_id).len(),
        0 < codes.len() <= i64::MAX ==> spec_handle_message(
            spec_generate_packet(vs, codes, message_id),
            MESSAGE_HEADER_SIZE as int,
            codes,
        ) == Some(
            (Seq::new(vs.len(), |j: int| decoded_form(vs[j], types_of(codes)[j])), positions(types_of(codes))),
        ),
{
    let n = vs.len() as int;
    let ts = types_of(codes);
    lemma_generated_prefix_read(vs, codes, message_id, n);
    assert(codes.take(n) =~= codes);
    assert(vs.take(n) =~= vs);
    assert(ts.take(n) =~= ts);
    assert(positions(ts).take(n) =~= positions(ts));
    assert(codes.push(-1i64).drop_last() =~= codes);
    crate::bits::lemma_value_bits_len(message_id as nat, 16);
    assert(spec_generate_packet(vs, codes, message_id).len() == MESSAGE_HEADER_SIZE + encode_all(vs, ts).len());
    if 0 < codes.len() {
        assert(codes.len() > 0 && codes.last() != -1) by {
            assert(NetworkedValueTypes::from_code(codes[n - 1]) is Some);
        }
    }
}

} // verus!
