//! The connection handler's decisions: the state of each peer, which new
//! connections a server accepts, how long a misbehaving address is blocked,
//! and how packets are turned into the bytes the connection carries and back.
use vstd::prelude::*;

use crate::bits::{bits_extend_u8, bits_len, bits_new, bits_of, field, lemma_small_powers, read_field, Packet};
use crate::netnodes::internal::NetNodesError;
use crate::serializer::bytes_bits;

verus! {

/// The most clients a server keeps connections with.
pub const MAX_CLIENT_CONNECTIONS: usize = 256;

/// The largest datagram, in bytes, that the socket layer sends.
pub const MAX_DATAGRAM_SIZE: usize = 1350;

/// Where a connection with a peer stands.
#[derive(Debug, Clone, Copy, PartialEq, Eq, Structural)]
pub enum PeerState {
    AwaitingConnection,
    Connected,
    Disconnected,
}

/// A server's peer after an update. A peer still connecting is dropped when
/// its address is blocked, dropped (and its address blocked again) when its
/// connection closed, and connected when the connection is established (this
/// last check wins). A connected peer is dropped when its connection closed.
/// Gives the new state and whether the address's block is to be renewed.
pub open spec fn spec_next_server_peer_state(state: PeerState, blocked: bool, closed: bool, established: bool) -> (PeerState, bool) {
    match state {
        PeerState::AwaitingConnection => {
            let s1 = if blocked {
                PeerState::Disconnected
            } else {
                state
            };
            let s2 = if closed {
                PeerState::Disconnected
            } else {
                s1
            };
            let s3 = if established {
                PeerState::Connected
            } else {
                s2
            };
            (s3, closed)
        },
        PeerState::Connected => (
            if closed {
                PeerState::Disconnected
            } else {
                state
            },
            false,
        ),
        PeerState::Disconnected => (state, false),
    }
}

/// The next state of a server's peer (see `spec_next_server_peer_state`).
pub fn next_server_peer_state(state: PeerState, blocked: bool, closed: bool, established: bool) -> (r: (PeerState, bool))
    ensures
        r == spec_next_server_peer_state(state, blocked, closed, established),
{
    match state {
        PeerState::AwaitingConnection => {
            let mut s = state;
            if blocked {
                s = PeerState::Disconnected;
            }
            if closed {
                s = PeerState::Disconnected;
            }
            if established {
                s = PeerState::Connected;
            }
            (s, closed)
        },
        PeerState::Connected => {
            if closed {
                (PeerState::Disconnected, false)
            } else {
                (state, false)
            }
        },
        PeerState::Disconnected => (state, false),
    }
}

/// A client's connection with the server after an update: as for a server's
/// peer without blocking; a connection already lost is an error.
pub fn next_client_peer_state(state: PeerState, closed: bool, established: bool) -> (r: Result<PeerState, NetNodesError>)
    ensures
        state == PeerState::Disconnected ==> r == Err::<PeerState, NetNodesError>(NetNodesError::Disconnected),
        state != PeerState::Disconnected ==> r == Ok::<PeerState, NetNodesError>(
            spec_next_server_peer_state(state, false, closed, established).0,
        ),
{
    match state {
        PeerState::AwaitingConnection => {
            let mut s = state;
            if closed {
                s = PeerState::Disconnected;
            }
            if established {
                s = PeerState::Connected;
            }
            Ok(s)
        },
        PeerState::Connected => {
            if closed {
                Ok(PeerState::Disconnected)
            } else {
                Ok(state)
            }
        },
        PeerState::Disconnected => Err(NetNodesError::Disconnected),
    }
}

/// Why a server does not take a packet from an unknown connection.
#[derive(Debug, Clone, Copy, PartialEq, Eq, Structural)]
pub enum ConnectionRefusal {
    NotInitial,
    UnsupportedVersion,
    Blocked,
    TooManyConnections,
}

/// The answer to a packet that starts a new connection (see `admit_new_connection`).
pub open spec fn spec_admit(is_initial: bool, version_supported: bool, blocked: bool, connections: nat) -> Result<(), ConnectionRefusal> {
    if !is_initial {
        Err(ConnectionRefusal::NotInitial)
    } else if !version_supported {
        Err(ConnectionRefusal::UnsupportedVersion)
    } else if blocked {
        Err(ConnectionRefusal::Blocked)
    } else if connections >= MAX_CLIENT_CONNECTIONS {
        Err(ConnectionRefusal::TooManyConnections)
    } else {
        Ok(())
    }
}

/// Whether a server takes a packet that starts a new connection: it must be
/// an initial packet of the supported version, from an address that is not
/// blocked, while fewer than the most connections are open; the first failed
/// condition, in that order, is the refusal.
pub fn admit_new_connection(is_initial: bool, version_supported: bool, blocked: bool, connections: usize) -> (r: Result<(), ConnectionRefusal>)
    ensures
        r == spec_admit(is_initial, version_supported, blocked, connections as nat),
{
    if !is_initial {
        return Err(ConnectionRefusal::NotInitial);
    }
    if !version_supported {
        return Err(ConnectionRefusal::UnsupportedVersion);
    }
    if blocked {
        return Err(ConnectionRefusal::Blocked);
    }
    if connections >= MAX_CLIENT_CONNECTIONS {
        return Err(ConnectionRefusal::TooManyConnections);
    }
    Ok(())
}

/// A block on an address after another offence: the first lasts a second;
/// the `n`th lasts `n * n` seconds. Gives the count and the seconds. The
/// count is one more than before, which must fit a `u32` for the square to
/// fit a `u64` (squaring a larger count overflows).
pub fn block_penalty(previous: Option<u64>) -> (r: (u64, u64))
    requires
        previous matches Some(c) ==> c < u32::MAX,
    ensures
        match previous {
            None => r == (1u64, 1u64),
            Some(c) => r.0 == c + 1 && r.1 == (c + 1) * (c + 1),
        },
{
    match previous {
        None => (1, 1),
        Some(c) => {
            let n = c + 1;
            assert(n * n <= u32::MAX * u32::MAX) by (nonlinear_arith)
                requires
                    n <= u32::MAX,
            ;
            (n, n * n)
        },
    }
}

/// Which peers are reported: the connected ones, and also those still
/// connecting when asked. Gives their indices, in order.
pub fn get_peers(states: &Vec<PeerState>, include_connecting: bool) -> (r: Vec<usize>)
    ensures
        r@ == peer_indices(states@, include_connecting),
{
    let mut r: Vec<usize> = Vec::new();
    let mut i: usize = 0;
    while i < states.len()
        invariant
            i <= states.len(),
            r@ == peer_indices(states@.take(i as int), include_connecting),
        decreases states.len() - i,
    {
        assert(states@.take(i + 1).drop_last() =~= states@.take(i as int));
        if states[i] == PeerState::Connected || include_connecting {
            r.push(i);
        }
        i = i + 1;
    }
    assert(states@.take(states.len() as int) =~= states@);
    r
}

pub open spec fn peer_indices(states: Seq<PeerState>, include_connecting: bool) -> Seq<usize>
    decreases states.len(),
{
    if states.len() == 0 {
        Seq::empty()
    } else {
        let r = peer_indices(states.drop_last(), include_connecting);
        if states.last() == PeerState::Connected || include_connecting {
            r.push((states.len() - 1) as usize)
        } else {
            r
        }
    }
}

// ---------------------------------------------------------------------------
// Bits and bytes
// ---------------------------------------------------------------------------

/// The bits of a packet padded with zero bits to a multiple of `unit`.
pub open spec fn padded(s: Seq<bool>, unit: nat) -> Seq<bool> {
    s + Seq::new(((unit as int - (s.len() % unit) as int) % (unit as int)) as nat, |i: int| false)
}

/// The bytes a stream carries for a packet: its bits padded to whole bytes,
/// each byte least significant bit first.
pub open spec fn spec_stream_bytes(s: Seq<bool>) -> Seq<u8> {
    Seq::new(((s.len() + 7) / 8) as nat, |k: int| field(padded(s, 8), 8 * k, 8) as u8)
}

/// The bytes a datagram carries for a packet: its bits padded to whole
/// 64-bit words.
pub open spec fn spec_datagram_bytes(s: Seq<bool>) -> Seq<u8> {
    Seq::new((8 * ((s.len() + 63) / 64)) as nat, |k: int| field(padded(s, 64), 8 * k, 8) as u8)
}

/// Reads byte `k` of the packet padded with zero bits.
fn padded_byte(data: &Packet, len: usize, k: usize) -> (r: u8)
    requires
        len == bits_of(*data).len(),
        8 * k < len,
    ensures
        r == field(padded(bits_of(*data), 8), 8 * k, 8) as u8,
{
    proof {
        lemma_small_powers();
    }
    let start = 8 * k;
    let width = if len - start >= 8 {
        8
    } else {
        len - start
    };
    let v = read_field(data, start, width);
    proof {
        lemma_padded_field(bits_of(*data), 8, 8 * k as int, width as int);
    }
    v as u8
}

/// A byte read past the end of the bits, in the zero padding, is the bits
/// that are there, zero-extended.
proof fn lemma_padded_field(s: Seq<bool>, unit: nat, p: int, w: int)
    requires
        unit == 8,
        0 <= p,
        p % 8 == 0,
        1 <= w <= 8,
        p + w <= s.len(),
        w == 8 || p + w == s.len(),
    ensures
        field(padded(s, unit), p, 8) == field(s, p, w),
{
    let ps = padded(s, unit);
    assert(ps.len() >= p + 8) by {
        assert(s.len() - p < 8 ==> (8 - s.len() % 8) % 8 == 8 - (s.len() - p)) by {
            assert((s.len() - p) % 8 == s.len() % 8) by {
                vstd::arithmetic::div_mod::lemma_mod_sub_multiples_vanish(s.len() as int, 8);
                assert(p == 8 * (p / 8));
                vstd::arithmetic::div_mod::lemma_mod_multiples_vanish(-(p / 8), s.len() as int, 8);
            }
        }
    }
    let a = ps.subrange(p, p + 8);
    let b = s.subrange(p, p + w);
    assert(a =~= b + Seq::new((8 - w) as nat, |i: int| false));
    lemma_value_of_zero_tail(b, (8 - w) as nat);
}

pub proof fn lemma_value_of_zero_tail(b: Seq<bool>, n: nat)
    ensures
        crate::bits::bits_value(b + Seq::new(n, |i: int| false)) == crate::bits::bits_value(b),
    decreases b.len(), n,
{
    let z = Seq::new(n, |i: int| false);
    if b.len() == 0 {
        assert(b + z =~= z);
        if n > 0 {
            assert(z.drop_first() =~= Seq::new((n - 1) as nat, |i: int| false));
            lemma_value_of_zero_tail(b, (n - 1) as nat);
            assert(b + Seq::new((n - 1) as nat, |i: int| false) =~= Seq::new((n - 1) as nat, |i: int| false));
        }
    } else {
        assert((b + z).drop_first() =~= b.drop_first() + z);
        lemma_value_of_zero_tail(b.drop_first(), n);
    }
}

/// The bytes a stream carries for a packet (see `spec_stream_bytes`).
pub fn stream_bytes(data: &Packet) -> (r: Vec<u8>)
    ensures
        r@ == spec_stream_bytes(bits_of(*data)),
{
    let len = bits_len(data);
    let n = len / 8 + if len % 8 == 0 {
        0
    } else {
        1
    };
    let mut out: Vec<u8> = Vec::new();
    let mut k: usize = 0;
    while k < n
        invariant
            len == bits_of(*data).len(),
            n == (len + 7) / 8,
            k <= n,
            out@ == Seq::new(k as nat, |j: int| field(padded(bits_of(*data), 8), 8 * j, 8) as u8),
        decreases n - k,
    {
        let b = padded_byte(data, len, k);
        out.push(b);
        k = k + 1;
        assert(out@ =~= Seq::new(k as nat, |j: int| field(padded(bits_of(*data), 8), 8 * j, 8) as u8));
    }
    out
}

/// Turns bytes received in whole 64-bit words into bits; bytes that are not
/// whole words are an invalid datagram.
pub fn packet_to_bits(buf: &Vec<u8>) -> (r: Result<Packet, NetNodesError>)
    ensures
        buf.len() % 8 != 0 ==> r == Err::<Packet, NetNodesError>(NetNodesError::InvalidDatagram),
        buf.len() % 8 == 0 ==> (r matches Ok(p) && bits_of(p) == bytes_bits(buf@)),
{
    if buf.len() % 8 != 0 {
        return Err(NetNodesError::InvalidDatagram);
    }
    let p = bytes_to_bits(buf, buf.len());
    assert(buf@.take(buf.len() as int) =~= buf@);
    Ok(p)
}

/// The bits of the first `n` bytes, 8 per byte, each least significant bit first.
pub fn bytes_to_bits(buf: &Vec<u8>, n: usize) -> (r: Packet)
    requires
        n <= buf.len(),
    ensures
        bits_of(r) == bytes_bits(buf@.take(n as int)),
{
    let mut p = bits_new();
    let mut i: usize = 0;
    while i < n
        invariant
            i <= n,
            n <= buf.len(),
            bits_of(p) == bytes_bits(buf@.take(i as int)),
        decreases n - i,
    {
        bits_extend_u8(&mut p, buf[i]);
        proof {
            assert(buf@.take(i + 1).drop_last() =~= buf@.take(i as int));
        }
        i = i + 1;
    }
    p
}

// ---------------------------------------------------------------------------
// Pacing
// ---------------------------------------------------------------------------

/// The most packets the sending side holds back for pacing.
pub const PACKET_QUEUE_CAPACITY: usize = 1024;

/// The longest a packet may be held back for pacing, in nanoseconds (17 ms).
pub const MAX_PACING_DELAY_NANOS: u128 = 17_000_000;

/// What the sending side does with a packet the connection wants sent at
/// some time.
#[derive(Debug, Clone, Copy, PartialEq, Eq, Structural)]
pub enum PacingDecision {
    /// Its time has come: send it now.
    SendNow,
    /// Too many packets wait, or it would wait too long: drop it and tell
    /// the connection that it is pacing too much.
    DropAndNotify,
    /// Hold it back until its time.
    Delay,
}

/// Decides for a packet whose send time is `delay_nanos` from now (zero when
/// it has come), with `queued` packets held back already.
pub fn pacing_decision(delay_nanos: u128, queued: usize) -> (r: PacingDecision)
    ensures
        r == (if delay_nanos == 0 {
            PacingDecision::SendNow
        } else if queued > PACKET_QUEUE_CAPACITY || delay_nanos > MAX_PACING_DELAY_NANOS {
            PacingDecision::DropAndNotify
        } else {
            PacingDecision::Delay
        }),
{
    if delay_nanos == 0 {
        PacingDecision::SendNow
    } else if queued > PACKET_QUEUE_CAPACITY || delay_nanos > MAX_PACING_DELAY_NANOS {
        PacingDecision::DropAndNotify
    } else {
        PacingDecision::Delay
    }
}

/// What happens to a server's table of connections: a connection closes, or
/// a packet arrives that would start one (whether it is an initial packet,
/// of a supported version, from a blocked address).
pub enum PeerEvent {
    Closed,
    NewConnection(bool, bool, bool),
}

/// The number of open connections after `events`, from `n`: a closed
/// connection leaves the table, an admitted one joins it.
pub open spec fn connections_after(n: nat, events: Seq<PeerEvent>) -> nat
    decreases events.len(),
{
    if events.len() == 0 {
        n
    } else {
        let m = match events[0] {
            PeerEvent::Closed => if n > 0 { (n - 1) as nat } else { 0 },
            PeerEvent::NewConnection(i, v, b) => if spec_admit(i, v, b, n) is Ok { n + 1 } else { n },
        };
        connections_after(m, events.drop_first())
    }
}

/// Law: a server that admits connections as `admit_new_connection` says
/// never has more than `MAX_CLIENT_CONNECTIONS` open.
pub proof fn lemma_connections_bounded(n: nat, events: Seq<PeerEvent>)
    requires
        n <= MAX_CLIENT_CONNECTIONS,
    ensures
        connections_after(n, events) <= MAX_CLIENT_CONNECTIONS,
    decreases events.len(),
{
    if events.len() > 0 {
        let m = match events[0] {
            PeerEvent::Closed => if n > 0 { (n - 1) as nat } else { 0 },
            PeerEvent::NewConnection(i, v, b) => if spec_admit(i, v, b, n) is Ok { n + 1 } else { n },
        };
        lemma_connections_bounded(m, events.drop_first());
    }
}

} // verus!
