//! Splitting stream chunks into messages in the `butteryfly` networking: a
//! message is its total length in bytes, prefix included, as 64 bits,
//! then its message id (16 bits) and values. A chunk may end inside a
//! message; what was received of it waits in the stream's entry until the
//! next chunk.
//!
//! The entry keeps the message's length in bits once its prefix has arrived,
//! whether the prefix came in one chunk or was completed from the entry, so
//! that how a stream is cut into chunks never changes what is delivered (see
//! `lemma_chunk_reassembly`).
use vstd::prelude::*;

use crate::bits::{
    bits_append, bits_len, bits_new, bits_of, bits_slice, field, lemma_small_powers, read_field,
    two_pow, Packet,
};
use crate::bits::{bits_extend_u16, bits_extend_u32, bits_extend_u64, bits_extend_u8, bits_push, value_bits};
use crate::netnodes::common::{datagram_counts, kept_datagrams, packet_bits, scan_datagrams};
use crate::netnodes::internal::{indices_bits};
use crate::serializer::bytes_bits;

verus! {

/// What was received of a message that a chunk did not finish.
pub struct IncompleteMessage {
    pub length: Option<u64>,
    pub data: Packet,
}

pub struct IncompleteView {
    pub length: Option<u64>,
    pub data: Seq<bool>,
}

impl View for IncompleteMessage {
    type V = IncompleteView;

    open spec fn view(&self) -> IncompleteView {
        IncompleteView { length: self.length, data: bits_of(self.data) }
    }
}

pub open spec fn entry_view(e: Option<IncompleteMessage>) -> Option<IncompleteView> {
    match e {
        Some(m) => Some(m@),
        None => None,
    }
}

/// Why the splitting of a chunk stops, after which the stream cannot be
/// read on: a length whose bit count overflows, a stored length below what was
/// received, no bits left to receive, or a message too short for its id.
#[derive(PartialEq, Eq, Structural, Debug, Copy, Clone)]
pub enum FrameError {
    LengthOverflow,
    LengthBelowReceived,
    NothingRemaining,
    ShortMessage,
}

/// The messages completed by a chunk, in order, and the error that stopped
/// the splitting, if one did.
pub struct ChunkOutcome {
    pub messages: Vec<Packet>,
    pub error: Option<FrameError>,
}

/// The result of splitting as values: the messages, the stream's entry
/// afterwards, and the error.
pub struct SplitView {
    pub messages: Seq<Seq<bool>>,
    pub entry: Option<IncompleteView>,
    pub error: Option<FrameError>,
}

/// Bits in a message's length prefix.
pub const LENGTH_PREFIX_BITS: usize = 64;

/// Bits of a message before its values: length prefix and message id.
pub const MESSAGE_START_BITS: usize = 80;

pub open spec fn no_messages() -> Seq<Seq<bool>> {
    Seq::empty()
}

/// Splits the part of a chunk from `pos`, with no message pending before it.
pub open spec fn split_fresh(c: Seq<bool>, pos: int) -> SplitView
    decreases c.len() - pos,
{
    if pos >= c.len() {
        SplitView { messages: no_messages(), entry: None, error: None }
    } else if c.len() - pos < 64 {
        SplitView {
            messages: no_messages(),
            entry: Some(IncompleteView { length: None, data: c.subrange(pos, c.len() as int) }),
            error: None,
        }
    } else {
        let raw = field(c, pos, 64);
        if 8 * raw >= two_pow(64) {
            SplitView { messages: no_messages(), entry: None, error: Some(FrameError::LengthOverflow) }
        } else if c.len() - pos < 8 * raw {
            SplitView {
                messages: no_messages(),
                entry: Some(
                    IncompleteView { length: Some((8 * raw) as u64), data: c.subrange(pos, c.len() as int) },
                ),
                error: None,
            }
        } else if 8 * raw < 80 {
            SplitView { messages: no_messages(), entry: None, error: Some(FrameError::ShortMessage) }
        } else {
            let rest = split_fresh(c, pos + 8 * raw);
            SplitView {
                messages: seq![c.subrange(pos, pos + 8 * raw)] + rest.messages,
                entry: rest.entry,
                error: rest.error,
            }
        }
    }
}

/// Splits a chunk that arrives while the message `inc` waits.
pub open spec fn split_continued(inc: IncompleteView, c: Seq<bool>) -> SplitView {
    let missing: int = if inc.data.len() >= 64 {
        0
    } else {
        64 - inc.data.len()
    };
    if c.len() < missing {
        SplitView {
            messages: no_messages(),
            entry: Some(IncompleteView { length: inc.length, data: inc.data + c }),
            error: None,
        }
    } else {
        let data: Seq<bool> = match inc.length {
            Some(_) => inc.data,
            None => inc.data + c.subrange(0, missing),
        };
        let start: int = match inc.length {
            Some(_) => 0,
            None => missing,
        };
        let overflow = inc.length is None && 8 * field(data, 0, 64) >= two_pow(64);
        let bits: int = match inc.length {
            Some(x) => x as int,
            None => (8 * field(data, 0, 64)) as int,
        };
        let stored: u64 = bits as u64;
        if overflow {
            SplitView { messages: no_messages(), entry: None, error: Some(FrameError::LengthOverflow) }
        } else if bits < data.len() {
            SplitView {
                messages: no_messages(),
                entry: Some(IncompleteView { length: Some(stored), data: data }),
                error: Some(FrameError::LengthBelowReceived),
            }
        } else if bits == data.len() {
            SplitView {
                messages: no_messages(),
                entry: Some(IncompleteView { length: Some(stored), data: data }),
                error: Some(FrameError::NothingRemaining),
            }
        } else if bits - data.len() > c.len() - start {
            SplitView {
                messages: no_messages(),
                entry: Some(
                    IncompleteView { length: Some(stored), data: data + c.subrange(start, c.len() as int) },
                ),
                error: None,
            }
        } else {
            let remaining = bits - data.len();
            let message = data + c.subrange(start, start + remaining);
            if message.len() < 80 {
                SplitView {
                    messages: no_messages(),
                    entry: Some(IncompleteView { length: Some(stored), data: message }),
                    error: Some(FrameError::ShortMessage),
                }
            } else {
                let rest = split_fresh(c, start + remaining);
                SplitView {
                    messages: seq![message] + rest.messages,
                    entry: rest.entry,
                    error: rest.error,
                }
            }
        }
    }
}

/// What splitting `chunk` does, given the stream's entry.
pub open spec fn spec_handle_stream_chunk(entry: Option<IncompleteView>, chunk: Seq<bool>) -> SplitView {
    if chunk.len() == 0 {
        SplitView { messages: no_messages(), entry: entry, error: None }
    } else {
        match entry {
            None => split_fresh(chunk, 0),
            Some(inc) => split_continued(inc, chunk),
        }
    }
}

pub open spec fn packets_view(ps: Seq<Packet>) -> Seq<Seq<bool>> {
    ps.map_values(|p: Packet| bits_of(p))
}

/// Splits the chunk from `pos` with no message pending.
fn split_fresh_from(chunk: &Packet, from: usize, messages: &mut Vec<Packet>) -> (r: (Option<IncompleteMessage>, Option<FrameError>))
    requires
        from <= bits_of(*chunk).len(),
    ensures
        ({
            let v = split_fresh(bits_of(*chunk), from as int);
            &&& packets_view(final(messages)@) == packets_view(old(messages)@) + v.messages
            &&& entry_view(r.0) == v.entry
            &&& r.1 == v.error
        }),
{
    let len = bits_len(chunk);
    let mut pos = from;
    let ghost start_messages = packets_view(messages@);
    let ghost start_pos = pos as int;
    proof {
        lemma_small_powers();
    }
    loop
        invariant
            len == bits_of(*chunk).len(),
            pos <= len,
            start_pos == from,
            start_messages == packets_view(old(messages)@),
            two_pow(64) == 0x1_0000_0000_0000_0000,
            ({
                let whole = split_fresh(bits_of(*chunk), start_pos);
                let here = split_fresh(bits_of(*chunk), pos as int);
                &&& whole.entry == here.entry
                &&& whole.error == here.error
                &&& start_messages + whole.messages == packets_view(messages@) + here.messages
            }),
        decreases len - pos,
    {
        assert(packets_view(messages@) + no_messages() =~= packets_view(messages@));
        if pos == len {
            return (None, None);
        }
        if len - pos < LENGTH_PREFIX_BITS {
            let data = bits_slice(chunk, pos, len);
            return (Some(IncompleteMessage { length: None, data }), None);
        }
        let raw = read_field(chunk, pos, LENGTH_PREFIX_BITS);
        if raw >= 0x2000_0000_0000_0000 {
            return (None, Some(FrameError::LengthOverflow));
        }
        let bits = raw * 8;
        if ((len - pos) as u64) < bits {
            let data = bits_slice(chunk, pos, len);
            return (Some(IncompleteMessage { length: Some(bits), data }), None);
        }
        if bits < 80 {
            return (None, Some(FrameError::ShortMessage));
        }
        let end = pos + bits as usize;
        let message = bits_slice(chunk, pos, end);
        let ghost before = packets_view(messages@);
        messages.push(message);
        proof {
            assert(packets_view(messages@) =~= before.push(bits_of(message)));
            let here = split_fresh(bits_of(*chunk), pos as int);
            let next = split_fresh(bits_of(*chunk), end as int);
            assert(here.messages =~= seq![bits_of(message)] + next.messages);
            assert(before + here.messages =~= before.push(bits_of(message)) + next.messages);
        }
        pos = end;
    }
}

/// Splits a stream chunk into the messages it completes. `entry` is the
/// stream's waiting message, if any, and holds afterwards what waits for the
/// next chunk.
pub fn handle_stream_chunk(stream_chunk: &Packet, entry: &mut Option<IncompleteMessage>) -> (r: ChunkOutcome)
    ensures
        ({
            let v = spec_handle_stream_chunk(entry_view(*old(entry)), bits_of(*stream_chunk));
            &&& packets_view(r.messages@) == v.messages
            &&& entry_view(*final(entry)) == v.entry
            &&& r.error == v.error
        }),
{
    let len = bits_len(stream_chunk);
    let mut messages: Vec<Packet> = Vec::new();
    proof {
        lemma_small_powers();
        assert(packets_view(messages@) =~= no_messages());
    }
    if len == 0 {
        return ChunkOutcome { messages, error: None };
    }
    let taken = entry.take();
    match taken {
        None => {
            let (e, err) = split_fresh_from(stream_chunk, 0, &mut messages);
            *entry = e;
            assert(packets_view(messages@) =~= no_messages() + split_fresh(bits_of(*stream_chunk), 0).messages);
            ChunkOutcome { messages, error: err }
        },
        Some(inc) => {
            let IncompleteMessage { length, data } = inc;
            let mut data = data;
            let have = bits_len(&data);
            let missing: usize = if have >= LENGTH_PREFIX_BITS {
                0
            } else {
                LENGTH_PREFIX_BITS - have
            };
            if len < missing {
                bits_append(&mut data, stream_chunk);
                *entry = Some(IncompleteMessage { length, data });
                return ChunkOutcome { messages, error: None };
            }
            let (stored, bits, start): (u64, u64, usize) = match length {
                Some(x) => (x, x, 0),
                None => {
                    let head = bits_slice(stream_chunk, 0, missing);
                    bits_append(&mut data, &head);
                    let raw = read_field(&data, 0, LENGTH_PREFIX_BITS);
                    if raw >= 0x2000_0000_0000_0000 {
                        *entry = None;
                        return ChunkOutcome { messages, error: Some(FrameError::LengthOverflow) };
                    }
                    (raw * 8, raw * 8, missing)
                },
            };
            let have = bits_len(&data);
            if bits < have as u64 {
                *entry = Some(IncompleteMessage { length: Some(stored), data });
                return ChunkOutcome { messages, error: Some(FrameError::LengthBelowReceived) };
            }
            if bits == have as u64 {
                *entry = Some(IncompleteMessage { length: Some(stored), data });
                return ChunkOutcome { messages, error: Some(FrameError::NothingRemaining) };
            }
            let remaining = bits - have as u64;
            if remaining > (len - start) as u64 {
                let tail = bits_slice(stream_chunk, start, len);
                bits_append(&mut data, &tail);
                *entry = Some(IncompleteMessage { length: Some(stored), data });
                return ChunkOutcome { messages, error: None };
            }
            let end = start + remaining as usize;
            let tail = bits_slice(stream_chunk, start, end);
            bits_append(&mut data, &tail);
            if bits_len(&data) < MESSAGE_START_BITS {
                *entry = Some(IncompleteMessage { length: Some(stored), data });
                return ChunkOutcome { messages, error: Some(FrameError::ShortMessage) };
            }
            messages.push(data);
            let ghost first = packets_view(messages@);
            let (e, err) = split_fresh_from(stream_chunk, end, &mut messages);
            *entry = e;
            ChunkOutcome { messages, error: err }
        },
    }
}

// ---------------------------------------------------------------------------
// Datagrams
// ---------------------------------------------------------------------------

/// The tick after the datagrams `ps` came in at `tick`: one more, then one
/// more again when none applies within two ticks, then one less when more
/// than one in 25 was late. (Ticks wrap around.)
pub open spec fn spec_next_tick(tick: i8, ps: Seq<Seq<bool>>) -> i8 {
    let t1 = tick.wrapping_add(1);
    let (total, late, soon) = datagram_counts(t1, ps);
    let t2 = if !soon {
        t1.wrapping_add(1)
    } else {
        t1
    };
    if late * 25 > total {
        t2.wrapping_sub(1)
    } else {
        t2
    }
}

/// Law: handling a tick's datagrams moves the tick on by none, one or two
/// (counted wrapping around).
pub proof fn lemma_tick_steps(tick: i8, ps: Seq<Seq<bool>>)
    ensures
        0 <= spec_next_tick(tick, ps).wrapping_sub(tick) <= 2,
{
}

/// The message id of a complete message, after its length prefix; a message
/// too short for one has none.
pub fn framed_message_id(message: &Packet) -> (r: Option<u16>)
    ensures
        bits_of(*message).len() < MESSAGE_START_BITS ==> r is None,
        bits_of(*message).len() >= MESSAGE_START_BITS ==> r == Some(field(bits_of(*message), 64, 16) as u16),
{
    if bits_len(message) < MESSAGE_START_BITS {
        None
    } else {
        proof {
            lemma_small_powers();
        }
        Some(read_field(message, LENGTH_PREFIX_BITS, 16) as u16)
    }
}

/// Handles the datagrams that came in during a tick: moves the tick on as
/// `spec_next_tick` says, and gives the datagrams to keep until their tick,
/// by index, each with the tick on which it applies.
pub fn handle_datagrams(tick_number: &mut i8, packets: &Vec<Packet>) -> (r: Vec<(usize, i8)>)
    ensures
        *final(tick_number) == spec_next_tick(*old(tick_number), packet_bits(packets@)),
        r@ == kept_datagrams(old(tick_number).wrapping_add(1), packet_bits(packets@)),
{
    *tick_number = tick_number.wrapping_add(1);
    let (total, late, soon, kept) = scan_datagrams(*tick_number, packets);
    if !soon {
        *tick_number = tick_number.wrapping_add(1);
    }
    if (late as u128) * 25 > total as u128 {
        *tick_number = tick_number.wrapping_sub(1);
    }
    kept
}

// ---------------------------------------------------------------------------
// Internal messages
// ---------------------------------------------------------------------------

/// An internal message: a client's 40-byte identifier,
/// or an id given to a networked node or message handler at a path.
pub enum InternalMessage {
    ClientId([u8; 40]),
    NetNodeId((u16, Vec<u32>)),
    MessageHandlerId((u16, Vec<u32>)),
}

pub enum InternalMessageView {
    ClientId(Seq<u8>),
    NetNodeId(u16, Seq<u32>),
    MessageHandlerId(u16, Seq<u32>),
}

impl View for InternalMessage {
    type V = InternalMessageView;

    open spec fn view(&self) -> InternalMessageView {
        match self {
            InternalMessage::ClientId(id) => InternalMessageView::ClientId(id@),
            InternalMessage::NetNodeId((id, path)) => InternalMessageView::NetNodeId(*id, path@),
            InternalMessage::MessageHandlerId((id, path)) => InternalMessageView::MessageHandlerId(*id, path@),
        }
    }
}

/// The packet sent on stream 0 for an internal message: a client id is its
/// 40 bytes and 8 zero bytes (whole 64-bit words of the id padded with 14
/// zero bytes); an id assignment is a flag (set for a networked node), the
/// id in 16 bits, the path's length in 64 bits and each index in 32 bits.
pub open spec fn spec_internal_packet(m: InternalMessageView) -> Seq<bool> {
    match m {
        InternalMessageView::ClientId(id) => bytes_bits(id) + value_bits(0, 64),
        InternalMessageView::NetNodeId(id, path) => seq![true] + value_bits(id as nat, 16) + value_bits(
            path.len(),
            64,
        ) + indices_bits(path),
        InternalMessageView::MessageHandlerId(id, path) => seq![false] + value_bits(id as nat, 16)
            + value_bits(path.len(), 64) + indices_bits(path),
    }
}

fn extend_indices(packet: &mut Packet, path: &Vec<u32>)
    ensures
        bits_of(*final(packet)) == bits_of(*old(packet)) + value_bits(path@.len(), 64) + indices_bits(path@),
{
    bits_extend_u64(packet, path.len() as u64);
    let ghost head = bits_of(*packet);
    let mut i: usize = 0;
    while i < path.len()
        invariant
            i <= path.len(),
            bits_of(*packet) == head + indices_bits(path@.take(i as int)),
        decreases path.len() - i,
    {
        bits_extend_u32(packet, path[i]);
        proof {
            assert(path@.take(i + 1).drop_last() =~= path@.take(i as int));
        }
        i = i + 1;
    }
    assert(path@.take(path.len() as int) =~= path@);
}

/// The packet to send on stream 0 for an internal message (see
/// `spec_internal_packet`).
pub fn send_internal_message(message: InternalMessage) -> (r: Packet)
    ensures
        bits_of(r) == spec_internal_packet(message@),
{
    let mut packet = bits_new();
    match message {
        InternalMessage::ClientId(id) => {
            let mut i: usize = 0;
            while i < 40
                invariant
                    i <= 40,
                    bits_of(packet) == bytes_bits(id@.take(i as int)),
                decreases 40 - i,
            {
                bits_extend_u8(&mut packet, id[i]);
                proof {
                    assert(id@.take(i + 1).drop_last() =~= id@.take(i as int));
                }
                i = i + 1;
            }
            assert(id@.take(40) =~= id@);
            bits_extend_u64(&mut packet, 0);
        },
        InternalMessage::NetNodeId((node_id, path)) => {
            bits_push(&mut packet, true);
            bits_extend_u16(&mut packet, node_id);
            extend_indices(&mut packet, &path);
            assert(bits_of(packet) =~= seq![true] + value_bits(node_id as nat, 16) + value_bits(
                path@.len(),
                64,
            ) + indices_bits(path@));
        },
        InternalMessage::MessageHandlerId((handler_id, path)) => {
            bits_push(&mut packet, false);
            bits_extend_u16(&mut packet, handler_id);
            extend_indices(&mut packet, &path);
            assert(bits_of(packet) =~= seq![false] + value_bits(handler_id as nat, 16) + value_bits(
                path@.len(),
                64,
            ) + indices_bits(path@));
        },
    }
    packet
}

// ---------------------------------------------------------------------------
// The chunking law
// ---------------------------------------------------------------------------

/// The complete messages of a stream, each whole with
/// its prefix (its total length in bytes, 64 bits).
pub open spec fn stream_frames(s: Seq<bool>) -> Seq<Seq<bool>>
    decreases s.len(),
{
    if s.len() < 64 {
        Seq::empty()
    } else {
        let l = 8 * field(s, 0, 64);
        if l < 80 || l > s.len() {
            Seq::empty()
        } else {
            seq![s.subrange(0, l as int)] + stream_frames(s.subrange(l as int, s.len() as int))
        }
    }
}

/// Whether every message of a stream whose prefix has arrived is well
/// formed: long enough for its id, with a length whose bit count fits 64
/// bits. The last message may be unfinished.
pub open spec fn frames_ok(s: Seq<bool>) -> bool
    decreases s.len(),
{
    if s.len() < 64 {
        true
    } else {
        let l = 8 * field(s, 0, 64);
        &&& l < two_pow(64)
        &&& 80 <= l
        &&& (l > s.len() || frames_ok(s.subrange(l as int, s.len() as int)))
    }
}

/// The bits a stream's entry holds of its waiting message.
pub open spec fn pending(e: Option<IncompleteView>) -> Seq<bool> {
    match e {
        None => Seq::empty(),
        Some(inc) => inc.data,
    }
}

/// An entry as a stream with well-formed messages leaves it: a message
/// whose prefix has not all arrived, or one whose length (in bits) is known
/// and not yet reached.
pub open spec fn good_entry(e: Option<IncompleteView>) -> bool {
    match e {
        None => true,
        Some(inc) => match inc.length {
            None => 0 < inc.data.len() < 64,
            Some(l) => 64 <= inc.data.len() < l && l == 8 * field(inc.data, 0, 64),
        },
    }
}

/// The messages delivered when `chunks` arrive one after another from entry `e`.
pub open spec fn run_chunks(e: Option<IncompleteView>, chunks: Seq<Seq<bool>>) -> Seq<Seq<bool>>
    decreases chunks.len(),
{
    if chunks.len() == 0 {
        Seq::empty()
    } else {
        let v = spec_handle_stream_chunk(e, chunks[0]);
        v.messages + run_chunks(v.entry, chunks.drop_first())
    }
}

/// Whether no chunk of `chunks`, arriving one after another from entry `e`,
/// stops with an error.
pub open spec fn run_without_error(e: Option<IncompleteView>, chunks: Seq<Seq<bool>>) -> bool
    decreases chunks.len(),
{
    if chunks.len() == 0 {
        true
    } else {
        let v = spec_handle_stream_chunk(e, chunks[0]);
        v.error is None && run_without_error(v.entry, chunks.drop_first())
    }
}

pub open spec fn flatten_chunks(chunks: Seq<Seq<bool>>) -> Seq<bool>
    decreases chunks.len(),
{
    if chunks.len() == 0 {
        Seq::empty()
    } else {
        chunks[0] + flatten_chunks(chunks.drop_first())
    }
}

proof fn lemma_field_prefix(a: Seq<bool>, b: Seq<bool>, p: int, w: int)
    requires
        0 <= p,
        0 <= w,
        p + w <= a.len(),
    ensures
        field(a + b, p, w) == field(a, p, w),
{
    assert((a + b).subrange(p, p + w) =~= a.subrange(p, p + w));
}

/// Splitting a chunk from `pos` with nothing waiting: with `rest` arriving
/// after it, the messages delivered and those of what then waits make up
/// the messages of the stream from `pos`.
proof fn lemma_split_fresh_frames(c: Seq<bool>, pos: int, rest: Seq<bool>)
    requires
        0 <= pos <= c.len(),
        frames_ok(c.subrange(pos, c.len() as int) + rest),
    ensures
        ({
            let v = split_fresh(c, pos);
            &&& v.error is None
            &&& good_entry(v.entry)
            &&& frames_ok(pending(v.entry) + rest)
            &&& stream_frames(c.subrange(pos, c.len() as int) + rest) == v.messages + stream_frames(
                pending(v.entry) + rest,
            )
        }),
    decreases c.len() - pos,
{
    lemma_small_powers();
    let t = c.subrange(pos, c.len() as int);
    if pos >= c.len() {
        assert(t + rest =~= rest);
        assert(Seq::<Seq<bool>>::empty() + stream_frames(rest) =~= stream_frames(rest));
    } else if c.len() - pos < 64 {
        assert(no_messages() + stream_frames(t + rest) =~= stream_frames(t + rest));
    } else {
        let raw = field(c, pos, 64);
        assert(field(t + rest, 0, 64) == raw) by {
            lemma_field_prefix(t, rest, 0, 64);
            assert(t.subrange(0, 64) =~= c.subrange(pos, pos + 64));
        }
        if c.len() - pos < 8 * raw {
            assert(field(t, 0, 64) == raw) by {
                assert(t.subrange(0, 64) =~= c.subrange(pos, pos + 64));
            }
            assert(no_messages() + stream_frames(t + rest) =~= stream_frames(t + rest));
        } else {
            let l = 8 * raw;
            let next = pos + l;
            let tr = t + rest;
            assert(tr.subrange(0, l as int) =~= c.subrange(pos, next));
            assert(tr.subrange(l as int, tr.len() as int) =~= c.subrange(next, c.len() as int) + rest);
            lemma_split_fresh_frames(c, next, rest);
            let v2 = split_fresh(c, next);
            assert(seq![c.subrange(pos, next)] + (v2.messages + stream_frames(pending(v2.entry) + rest))
                =~= (seq![c.subrange(pos, next)] + v2.messages) + stream_frames(pending(v2.entry) + rest));
        }
    }
}

/// One chunk: with `rest` arriving after it, the messages it delivers and
/// those of what then waits make up the messages of all that waited and came.
proof fn lemma_chunk_step(e: Option<IncompleteView>, c: Seq<bool>, rest: Seq<bool>)
    requires
        good_entry(e),
        frames_ok(pending(e) + c + rest),
    ensures
        ({
            let v = spec_handle_stream_chunk(e, c);
            &&& v.error is None
            &&& good_entry(v.entry)
            &&& frames_ok(pending(v.entry) + rest)
            &&& stream_frames(pending(e) + c + rest) == v.messages + stream_frames(pending(v.entry) + rest)
        }),
{
    lemma_small_powers();
    let v = spec_handle_stream_chunk(e, c);
    let all = pending(e) + c + rest;
    if c.len() == 0 {
        assert(pending(e) + c + rest =~= pending(e) + rest);
        assert(no_messages() + stream_frames(pending(e) + rest) =~= stream_frames(pending(e) + rest));
    } else {
        match e {
            None => {
                assert(c.subrange(0, c.len() as int) =~= c);
                assert(pending(e) + c + rest =~= c.subrange(0, c.len() as int) + rest);
                lemma_split_fresh_frames(c, 0, rest);
            },
            Some(inc) => {
                let d = inc.data;
                let missing: int = if d.len() >= 64 {
                    0
                } else {
                    64 - d.len()
                };
                if c.len() < missing {
                    assert(all =~= (d + c) + rest);
                    assert(no_messages() + stream_frames(all) =~= stream_frames(all));
                } else {
                    let data: Seq<bool> = match inc.length {
                        Some(_) => d,
                        None => d + c.subrange(0, missing),
                    };
                    let start: int = match inc.length {
                        Some(_) => 0,
                        None => missing,
                    };
                    assert(all.subrange(0, 64) =~= data.subrange(0, 64));
                    assert(field(all, 0, 64) == field(data, 0, 64));
                    if inc.length is None {
                        assert(d + c =~= data + c.subrange(missing, c.len() as int));
                        lemma_field_prefix(data, c.subrange(missing, c.len() as int), 0, 64);
                    }
                    let bits: int = (8 * field(data, 0, 64)) as int;
                    let remaining = bits - data.len();
                    assert(data + c.subrange(start, c.len() as int) + rest =~= all);
                    if remaining > c.len() - start {
                        let w = data + c.subrange(start, c.len() as int);
                        assert(w.subrange(0, 64) =~= data.subrange(0, 64));
                        assert(all =~= w + rest);
                        assert(no_messages() + stream_frames(all) =~= stream_frames(all));
                    } else {
                        let message = data + c.subrange(start, start + remaining);
                        assert(all.subrange(0, bits) =~= message);
                        assert(all.subrange(bits, all.len() as int) =~= c.subrange(start + remaining, c.len() as int) + rest);
                        lemma_split_fresh_frames(c, start + remaining, rest);
                        let v2 = split_fresh(c, start + remaining);
                        assert(seq![message] + (v2.messages + stream_frames(pending(v2.entry) + rest))
                            =~= (seq![message] + v2.messages) + stream_frames(pending(v2.entry) + rest));
                    }
                }
            },
        }
    }
}

/// What an entry of a stream with well-formed messages holds is never a
/// complete message.
proof fn lemma_good_entry_no_frame(e: Option<IncompleteView>)
    requires
        good_entry(e),
    ensures
        stream_frames(pending(e)) == Seq::<Seq<bool>>::empty(),
{
}

proof fn lemma_run_chunks(e: Option<IncompleteView>, chunks: Seq<Seq<bool>>)
    requires
        good_entry(e),
        frames_ok(pending(e) + flatten_chunks(chunks)),
    ensures
        run_chunks(e, chunks) == stream_frames(pending(e) + flatten_chunks(chunks)),
        run_without_error(e, chunks),
    decreases chunks.len(),
{
    if chunks.len() == 0 {
        assert(pending(e) + flatten_chunks(chunks) =~= pending(e));
        lemma_good_entry_no_frame(e);
    } else {
        let c = chunks[0];
        let later = flatten_chunks(chunks.drop_first());
        assert(pending(e) + flatten_chunks(chunks) =~= pending(e) + c + later);
        lemma_chunk_step(e, c, later);
        let v = spec_handle_stream_chunk(e, c);
        lemma_run_chunks(v.entry, chunks.drop_first());
    }
}

/// Law: when every message of the stream is well formed (see `frames_ok`),
/// the messages delivered are exactly the complete messages of the stream,
/// in order, however it is split into chunks.
/// No chunk of such a stream stops with an error.
pub proof fn lemma_chunk_reassembly(chunks: Seq<Seq<bool>>)
    requires
        frames_ok(flatten_chunks(chunks)),
    ensures
        run_chunks(None, chunks) == stream_frames(flatten_chunks(chunks)),
        run_without_error(None, chunks),
{
    assert(pending(None) + flatten_chunks(chunks) =~= flatten_chunks(chunks));
    lemma_run_chunks(None, chunks);
}

/// Law: two ways of cutting the same well-formed stream into chunks deliver
/// the same messages, in the same order, as the whole stream in one chunk.
pub proof fn lemma_chunking_irrelevant(a: Seq<Seq<bool>>, b: Seq<Seq<bool>>)
    requires
        flatten_chunks(a) == flatten_chunks(b),
        frames_ok(flatten_chunks(a)),
    ensures
        run_chunks(None, a) == run_chunks(None, b),
        run_chunks(None, a) == run_chunks(None, seq![flatten_chunks(a)]),
{
    lemma_chunk_reassembly(a);
    lemma_chunk_reassembly(b);
    let whole = seq![flatten_chunks(a)];
    assert(whole.drop_first() =~= Seq::<Seq<bool>>::empty());
    assert(flatten_chunks(whole.drop_first()) == Seq::<bool>::empty());
    assert(flatten_chunks(whole) == whole[0] + flatten_chunks(whole.drop_first()));
    assert(flatten_chunks(whole) =~= flatten_chunks(a));
    lemma_chunk_reassembly(whole);
}

} // verus!
