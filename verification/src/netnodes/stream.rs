//! Reassembly of messages from a reliable stream.
//!
//! On a stream each message is sent as its length in bytes (64 bits) followed
//! by its bytes. The receiver asks the connection for as many bytes as it
//! still needs, one read at a time, and hands what it got to
//! `handle_stream`, which says whether to wait for more data, to read again,
//! or that a message is complete.
use vstd::prelude::*;

use crate::bits::{
    bits_append, bits_clear, bits_len, bits_new, bits_of, bits_value, field, lemma_small_powers,
    lemma_value_bits_len, lemma_value_bits_mod, lemma_value_bits_split, lemma_value_bits_value,
    read_field, two_pow, value_bits, Packet,
};
use crate::netnodes::networker::{padded, spec_stream_bytes};
use crate::serializer::{bytes_bits, lemma_bytes_bits_byte, lemma_bytes_bits_len};

verus! {

/// The partly received message of a stream: its length in bytes once the
/// 64 bits of the length have arrived, and the bits received since.
pub struct StreamAssembly {
    pub length: Option<u64>,
    pub data: Packet,
}

/// What `handle_stream` decides after a read.
pub enum StreamEvent {
    /// The read got less than was asked for: wait until the stream is readable again.
    Wait,
    /// The length is complete: read the message's bytes now.
    Continue,
    /// A message is complete; the stream starts on the next one.
    Message(Packet),
    /// A frame is complete but too short for a message id: it is dropped, and
    /// the stream starts on the next one.
    Dropped,
}

pub enum StreamEventView {
    Wait,
    Continue,
    Message(Seq<bool>),
    Dropped,
}

impl View for StreamEvent {
    type V = StreamEventView;

    open spec fn view(&self) -> StreamEventView {
        match self {
            StreamEvent::Wait => StreamEventView::Wait,
            StreamEvent::Continue => StreamEventView::Continue,
            StreamEvent::Message(p) => StreamEventView::Message(bits_of(*p)),
            StreamEvent::Dropped => StreamEventView::Dropped,
        }
    }
}

/// A stream's state as values: the length, once known, and the bits since.
pub struct AssemblyView {
    pub length: Option<u64>,
    pub data: Seq<bool>,
}

impl View for StreamAssembly {
    type V = AssemblyView;

    open spec fn view(&self) -> AssemblyView {
        AssemblyView { length: self.length, data: bits_of(self.data) }
    }
}

impl AssemblyView {
    /// Whole bytes only, fewer than the 64 bits of a length while it is
    /// unknown, and fewer than the message's bytes once it is known (or none).
    pub open spec fn wf(self) -> bool {
        &&& self.data.len() % 8 == 0
        &&& match self.length {
            None => self.data.len() < 64,
            Some(l) => self.data.len() < 8 * l || self.data.len() == 0,
        }
    }

    /// How many bytes to ask the stream for next.
    pub open spec fn wanted(self) -> int {
        match self.length {
            None => 8 - self.data.len() / 8,
            Some(l) => l - self.data.len() / 8,
        }
    }

    /// All that this state has received of the stream and not yet delivered.
    pub open spec fn pending(self) -> Seq<bool> {
        match self.length {
            None => self.data,
            Some(l) => value_bits(l as nat, 64) + self.data,
        }
    }
}

/// The state of a stream on which nothing has been received.
pub open spec fn initial_assembly() -> AssemblyView {
    AssemblyView { length: None, data: Seq::empty() }
}

/// Bits of the message id that every message starts with.
pub const MESSAGE_ID_BITS: usize = 16;

/// What a read of `chunk` does to the state `st`: a complete frame too short
/// for a message id is dropped.
pub open spec fn spec_handle_stream(st: AssemblyView, chunk: Seq<bool>) -> (StreamEventView, AssemblyView) {
    let d = st.data + chunk;
    match st.length {
        None => if d.len() == 64 {
            (StreamEventView::Continue, AssemblyView { length: Some(field(d, 0, 64) as u64), data: Seq::empty() })
        } else {
            (StreamEventView::Wait, AssemblyView { length: None, data: d })
        },
        Some(l) => if d.len() == 8 * l {
            if d.len() < MESSAGE_ID_BITS {
                (StreamEventView::Dropped, initial_assembly())
            } else {
                (StreamEventView::Message(d), initial_assembly())
            }
        } else {
            (StreamEventView::Wait, AssemblyView { length: Some(l), data: d })
        },
    }
}

impl StreamAssembly {
    pub fn new() -> (r: StreamAssembly)
        ensures
            r@ == initial_assembly(),
    {
        StreamAssembly { length: None, data: bits_new() }
    }

    /// How many bytes the next read asks for.
    pub fn bytes_wanted(&self) -> (r: u64)
        requires
            self@.wf(),
        ensures
            r == self@.wanted(),
    {
        let have = (bits_len(&self.data) / 8) as u64;
        match self.length {
            None => 8 - have,
            Some(l) => l - have,
        }
    }
}

/// Takes what a read of the stream got (whole bytes, no more than were
/// asked for) and decides what comes next.
pub fn handle_stream(assembly: &mut StreamAssembly, chunk: &Packet) -> (r: StreamEvent)
    requires
        old(assembly)@.wf(),
        bits_of(*chunk).len() % 8 == 0,
        bits_of(*chunk).len() <= 8 * old(assembly)@.wanted(),
    ensures
        final(assembly)@.wf(),
        spec_handle_stream(old(assembly)@, bits_of(*chunk)) == (r@, final(assembly)@),
{
    bits_append(&mut assembly.data, chunk);
    let n = bits_len(&assembly.data);
    match assembly.length {
        None => {
            if n == 64 {
                proof {
                    lemma_small_powers();
                }
                let l = read_field(&assembly.data, 0, 64);
                assembly.length = Some(l);
                bits_clear(&mut assembly.data);
                StreamEvent::Continue
            } else {
                StreamEvent::Wait
            }
        },
        Some(l) => {
            if (n / 8) as u64 == l && n < MESSAGE_ID_BITS {
                bits_clear(&mut assembly.data);
                assembly.length = None;
                StreamEvent::Dropped
            } else if (n / 8) as u64 == l {
                let mut message = bits_new();
                std::mem::swap(&mut message, &mut assembly.data);
                assembly.length = None;
                StreamEvent::Message(message)
            } else {
                StreamEvent::Wait
            }
        },
    }
}

/// The message id at the start of a message; a message shorter than an id
/// has none.
pub fn message_handler_id(message: &Packet) -> (r: Option<u16>)
    ensures
        bits_of(*message).len() < 16 ==> r is None,
        bits_of(*message).len() >= 16 ==> r == Some(field(bits_of(*message), 0, 16) as u16),
{
    if bits_len(message) < 16 {
        None
    } else {
        proof {
            lemma_small_powers();
        }
        Some(read_field(message, 0, 16) as u16)
    }
}

// ---------------------------------------------------------------------------
// The reassembly law
// ---------------------------------------------------------------------------

/// The complete messages of a stream: each is a 64-bit length in bytes and
/// that many bytes. A frame too short for a message id is no message, nor is
/// an unfinished frame at the end.
pub open spec fn parse_frames(s: Seq<bool>) -> Seq<Seq<bool>>
    decreases s.len(),
{
    if s.len() < 64 {
        Seq::empty()
    } else {
        let l = field(s, 0, 64) as int;
        if s.len() < 64 + 8 * l {
            Seq::empty()
        } else {
            let rest = parse_frames(s.subrange(64 + 8 * l, s.len() as int));
            if 8 * l < 16 {
                rest
            } else {
                seq![s.subrange(64, 64 + 8 * l)] + rest
            }
        }
    }
}

/// The bits of all chunks, in order.
pub open spec fn flatten(chunks: Seq<Seq<bool>>) -> Seq<bool>
    decreases chunks.len(),
{
    if chunks.len() == 0 {
        Seq::empty()
    } else {
        chunks[0] + flatten(chunks.drop_first())
    }
}

/// The messages delivered when the reads of a stream get `chunks`, one after
/// another, from state `st`.
pub open spec fn run_stream(st: AssemblyView, chunks: Seq<Seq<bool>>) -> Seq<Seq<bool>>
    decreases chunks.len(),
{
    if chunks.len() == 0 {
        Seq::empty()
    } else {
        let (ev, next) = spec_handle_stream(st, chunks[0]);
        let rest = run_stream(next, chunks.drop_first());
        match ev {
            StreamEventView::Message(m) => seq![m] + rest,
            _ => rest,
        }
    }
}

/// Whether each read got whole bytes and no more than it asked for.
pub open spec fn reads_fit(st: AssemblyView, chunks: Seq<Seq<bool>>) -> bool
    decreases chunks.len(),
{
    if chunks.len() == 0 {
        true
    } else {
        &&& chunks[0].len() % 8 == 0
        &&& chunks[0].len() <= 8 * st.wanted()
        &&& reads_fit(spec_handle_stream(st, chunks[0]).1, chunks.drop_first())
    }
}

/// The bits of a number below `2^w` written in `w` bits give back those bits.
pub proof fn lemma_bits_value_bits(s: Seq<bool>)
    ensures
        value_bits(bits_value(s), s.len()) == s,
    decreases s.len(),
{
    if s.len() > 0 {
        lemma_bits_value_bits(s.drop_first());
        assert(value_bits(bits_value(s), s.len()) =~= s);
    }
}

proof fn lemma_step_preserves_wf(st: AssemblyView, chunk: Seq<bool>)
    requires
        st.wf(),
        chunk.len() % 8 == 0,
        chunk.len() <= 8 * st.wanted(),
    ensures
        spec_handle_stream(st, chunk).1.wf(),
{
}

/// One read: the messages of all that was pending and read are the message
/// it delivers, if any, and then the messages of what is pending after it.
proof fn lemma_step_frames(st: AssemblyView, chunk: Seq<bool>, rest: Seq<bool>)
    requires
        st.wf(),
        chunk.len() % 8 == 0,
        chunk.len() <= 8 * st.wanted(),
    ensures
        ({
            let (ev, next) = spec_handle_stream(st, chunk);
            parse_frames(st.pending() + chunk + rest) == match ev {
                StreamEventView::Message(m) => seq![m] + parse_frames(next.pending() + rest),
                _ => parse_frames(next.pending() + rest),
            }
        }),
{
    lemma_small_powers();
    let d = st.data + chunk;
    let (ev, next) = spec_handle_stream(st, chunk);
    match st.length {
        None => {
            if d.len() == 64 {
                let l = field(d, 0, 64);
                lemma_field_bound_64(d);
                assert(d.subrange(0, 64) =~= d);
                lemma_bits_value_bits(d);
                assert(next.pending() =~= value_bits(l, 64));
                assert(next.pending() =~= d);
            }
            assert(st.pending() + chunk + rest =~= next.pending() + rest);
        },
        Some(l) => {
            lemma_value_bits_len(l as nat, 64);
            if d.len() == 8 * l {
                let all = st.pending() + chunk + rest;
                assert(all =~= value_bits(l as nat, 64) + d + rest);
                lemma_value_bits_value(l as nat, 64);
                assert(all.subrange(0, 64) =~= value_bits(l as nat, 64));
                assert(all.subrange(64, 64 + 8 * l) =~= d);
                assert(all.subrange(64 + 8 * l, all.len() as int) =~= rest);
                assert(next.pending() + rest =~= rest);
            } else {
                assert(st.pending() + chunk + rest =~= next.pending() + rest);
            }
        },
    }
}

proof fn lemma_field_bound_64(d: Seq<bool>)
    requires
        d.len() == 64,
    ensures
        field(d, 0, 64) < 0x1_0000_0000_0000_0000,
{
    lemma_small_powers();
    crate::bits::lemma_field_bound(d, 0, 64);
}

/// The messages delivered from a state are those of what it holds pending
/// followed by all that the reads get.
pub proof fn lemma_run_stream(st: AssemblyView, chunks: Seq<Seq<bool>>)
    requires
        st.wf(),
        reads_fit(st, chunks),
    ensures
        run_stream(st, chunks) == parse_frames(st.pending() + flatten(chunks)),
    decreases chunks.len(),
{
    if chunks.len() == 0 {
        assert(st.pending() + flatten(chunks) =~= st.pending());
        lemma_pending_has_no_frame(st);
    } else {
        let (ev, next) = spec_handle_stream(st, chunks[0]);
        lemma_step_preserves_wf(st, chunks[0]);
        lemma_run_stream(next, chunks.drop_first());
        lemma_step_frames(st, chunks[0], flatten(chunks.drop_first()));
        assert(st.pending() + flatten(chunks) =~= st.pending() + chunks[0] + flatten(
            chunks.drop_first(),
        ));
    }
}

/// What a state holds pending is never a complete message.
proof fn lemma_pending_has_no_frame(st: AssemblyView)
    requires
        st.wf(),
    ensures
        parse_frames(st.pending()) == Seq::<Seq<bool>>::empty(),
{
    lemma_small_powers();
    match st.length {
        None => {
            assert(st.pending().len() < 64);
            assert(parse_frames(st.pending()) == Seq::<Seq<bool>>::empty());
        },
        Some(l) => {
            let p = st.pending();
            lemma_value_bits_len(l as nat, 64);
            lemma_value_bits_value(l as nat, 64);
            assert(p.subrange(0, 64) =~= value_bits(l as nat, 64));
            if l == 0 {
                assert(p.len() == 64);
                assert(p.subrange(64, p.len() as int) =~= Seq::<bool>::empty());
                assert(parse_frames(Seq::<bool>::empty()) == Seq::<Seq<bool>>::empty());
                assert(field(p, 0, 64) == 0);
            } else {
                assert(p.len() < 64 + 8 * l);
            }
        },
    }
}

/// Law: however a stream's bytes are split among the reads (each getting
/// whole bytes, no more than asked for), the messages delivered are exactly
/// the complete messages of the bytes sent, in order (frames too short for a
/// message id are dropped on both sides).
pub proof fn lemma_stream_reassembly(chunks: Seq<Seq<bool>>)
    requires
        reads_fit(initial_assembly(), chunks),
    ensures
        run_stream(initial_assembly(), chunks) == parse_frames(flatten(chunks)),
{
    lemma_run_stream(initial_assembly(), chunks);
    assert(initial_assembly().pending() + flatten(chunks) =~= flatten(chunks));
}

// ---------------------------------------------------------------------------
// What a sender puts on a stream
// ---------------------------------------------------------------------------

/// The 8 bytes of a message's length prefix, least significant first.
pub fn length_prefix(n: u64) -> (r: [u8; 8])
    ensures
        bytes_bits(r@) == value_bits(n as nat, 64),
{
    let mut r = [0u8; 8];
    let mut v = n;
    let mut i: usize = 0;
    proof {
        assert(bytes_bits(r@.take(0)) + value_bits(v as nat, 64) =~= value_bits(n as nat, 64));
        assert(two_pow(0) == 1);
        assert((8 * i) as nat == 0);
        assert(n as nat / 1 == n as nat);
    }
    while i < 8
        invariant
            i <= 8,
            v as nat == n as nat / two_pow((8 * i) as nat),
            bytes_bits(r@.take(i as int)) + value_bits(v as nat, (64 - 8 * i) as nat) == value_bits(
                n as nat,
                64,
            ),
        decreases 8 - i,
    {
        let ghost before = r@;
        r[i] = (v % 256) as u8;
        proof {
            lemma_small_powers();
            let w = (64 - 8 * (i + 1)) as nat;
            assert((64 - 8 * i) as nat == 8 + w);
            lemma_value_bits_split(v as nat, 8, w);
            lemma_value_bits_mod(v as nat, 8);
            assert(r@.take(i as int) =~= before.take(i as int));
            assert(r@.take(i + 1).drop_last() =~= r@.take(i as int));
            assert(r@.take(i + 1).last() == (v % 256) as u8);
            assert(bytes_bits(r@.take(i + 1)) =~= bytes_bits(r@.take(i as int)) + value_bits(
                (v % 256) as nat,
                8,
            ));
            crate::bits::lemma_two_pow_pos((8 * i) as nat);
            vstd::arithmetic::div_mod::lemma_div_denominator(n as int, two_pow((8 * i) as nat) as int, 256);
            lemma_two_pow_add((8 * i) as nat, 8);
        }
        v = v / 256;
        i = i + 1;
    }
    proof {
        assert(r@.take(8) =~= r@);
        assert(value_bits(v as nat, 0) =~= Seq::<bool>::empty());
        assert(bytes_bits(r@) + Seq::<bool>::empty() =~= bytes_bits(r@));
    }
    r
}

proof fn lemma_two_pow_add(a: nat, b: nat)
    ensures
        two_pow(a + b) == two_pow(a) * two_pow(b),
    decreases b,
{
    if b == 0 {
        assert(two_pow(0) == 1);
        assert(a + b == a);
    } else {
        lemma_two_pow_add(a, (b - 1) as nat);
        assert((a + b - 1) as nat == a + (b - 1) as nat);
        assert(two_pow(a + b) == 2 * two_pow((a + b - 1) as nat));
        assert(two_pow(b) == 2 * two_pow((b - 1) as nat));
        assert(two_pow(a) * (2 * two_pow((b - 1) as nat)) == 2 * (two_pow(a) * two_pow((b - 1) as nat)))
            by (nonlinear_arith);
    }
}

/// The bits of a packet's stream bytes are its bits padded to whole bytes.
pub proof fn lemma_stream_bytes_bits(s: Seq<bool>)
    ensures
        bytes_bits(spec_stream_bytes(s)) == padded(s, 8),
{
    let b = spec_stream_bytes(s);
    let ps = padded(s, 8);
    lemma_bytes_bits_len(b);
    let n = s.len();
    assert(ps.len() == 8 * ((n + 7) / 8)) by {
        assert(n == 8 * (n / 8) + n % 8);
        if n % 8 == 0 {
            assert((n + 7) / 8 == n / 8);
        } else {
            assert((n + 7) / 8 == n / 8 + 1);
        }
    }
    assert forall|i: int| 0 <= i < ps.len() implies #[trigger] bytes_bits(b)[i] == ps[i] by {
        let k = i / 8;
        assert(0 <= k < b.len());
        lemma_bytes_bits_byte(b, k);
        lemma_small_powers();
        crate::bits::lemma_field_bound(ps, 8 * k, 8);
        lemma_bits_value_bits(ps.subrange(8 * k, 8 * k + 8));
        assert(b[k] as nat == field(ps, 8 * k, 8));
        assert(bytes_bits(b).subrange(8 * k, 8 * k + 8)[i - 8 * k] == bytes_bits(b)[i]);
        assert(ps.subrange(8 * k, 8 * k + 8)[i - 8 * k] == ps[i]);
    }
    assert(bytes_bits(b) =~= ps);
}

/// What a sender writes on a stream for messages `ps`: for each, the length
/// of its bytes in 64 bits, then its bytes.
pub open spec fn stream_wire(ps: Seq<Seq<bool>>) -> Seq<bool>
    decreases ps.len(),
{
    if ps.len() == 0 {
        Seq::empty()
    } else {
        let b = spec_stream_bytes(ps[0]);
        value_bits(b.len(), 64) + bytes_bits(b) + stream_wire(ps.drop_first())
    }
}

proof fn lemma_frame_then_rest(m: nat, x: Seq<bool>, rest: Seq<bool>)
    requires
        m < 0x1_0000_0000_0000_0000,
        x.len() == 8 * m,
        x.len() >= 16,
    ensures
        parse_frames(value_bits(m, 64) + x + rest) == seq![x] + parse_frames(rest),
{
    lemma_small_powers();
    lemma_value_bits_value(m, 64);
    let all = value_bits(m, 64) + x + rest;
    assert(all.subrange(0, 64) =~= value_bits(m, 64));
    assert(all.subrange(64, 64 + 8 * m as int) =~= x);
    assert(all.subrange(64 + 8 * m as int, all.len() as int) =~= rest);
}

/// Law: the messages a sender writes on a stream (each at least a message id
/// long and with fewer than `2^64` bytes) are exactly the messages of the stream, each padded with
/// zero bits to whole bytes, in order. With `lemma_stream_reassembly`,
/// `handle_stream` delivers them so however the stream is split.
pub proof fn lemma_stream_delivers(ps: Seq<Seq<bool>>)
    requires
        forall|i: int| 0 <= i < ps.len() ==> 16 <= (#[trigger] ps[i]).len() < 0x1_0000_0000_0000_0000,
    ensures
        parse_frames(stream_wire(ps)) == ps.map_values(|s: Seq<bool>| padded(s, 8)),
    decreases ps.len(),
{
    if ps.len() == 0 {
        assert(ps.map_values(|s: Seq<bool>| padded(s, 8)) =~= Seq::<Seq<bool>>::empty());
    } else {
        let b = spec_stream_bytes(ps[0]);
        lemma_stream_bytes_bits(ps[0]);
        lemma_bytes_bits_len(b);
        assert(ps[0].len() < 0x1_0000_0000_0000_0000);
        assert forall|i: int| 0 <= i < ps.drop_first().len() implies 16 <= (#[trigger] ps.drop_first()[i]).len()
            < 0x1_0000_0000_0000_0000 by {
            assert(ps.drop_first()[i] == ps[i + 1]);
        }
        lemma_stream_delivers(ps.drop_first());
        lemma_frame_then_rest(b.len(), bytes_bits(b), stream_wire(ps.drop_first()));
        assert(ps.map_values(|s: Seq<bool>| padded(s, 8)) =~= seq![padded(ps[0], 8)]
            + ps.drop_first().map_values(|s: Seq<bool>| padded(s, 8)));
    }
}

/// Law: whatever reads a receiver makes of a stream a sender wrote (each
/// read getting whole bytes, no more than asked for), it is handed each
/// message once, in the order written, padded with zero bits to whole bytes.
pub proof fn lemma_stream_end_to_end(ps: Seq<Seq<bool>>, chunks: Seq<Seq<bool>>)
    requires
        forall|i: int| 0 <= i < ps.len() ==> 16 <= (#[trigger] ps[i]).len() < 0x1_0000_0000_0000_0000,
        flatten(chunks) == stream_wire(ps),
        reads_fit(initial_assembly(), chunks),
    ensures
        run_stream(initial_assembly(), chunks) == ps.map_values(|s: Seq<bool>| padded(s, 8)),
{
    lemma_stream_reassembly(chunks);
    lemma_stream_delivers(ps);
}

} // verus!
