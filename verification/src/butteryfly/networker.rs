//! The connection handler decisions of the `butteryfly` networking, where
//! they differ from those of `netnodes`: no protocol version check on new connections, a first
//! block that expires at once, and a client that must not be updated after
//! its connection is lost. Streams and datagrams carry a packet's bits in
//! whole 64-bit words, and a stream message's length counts its prefix.
use vstd::prelude::*;

use crate::bits::{bits_len, bits_of, field, lemma_small_powers, read_field, Packet};
use crate::netnodes::networker::{
    lemma_value_of_zero_tail, padded, spec_datagram_bytes, spec_next_server_peer_state, ConnectionRefusal, PeerState,
    MAX_CLIENT_CONNECTIONS,
};

verus! {

/// Whether a server takes a packet that starts a new connection: it must be
/// an initial packet, from an address that is not blocked, while fewer than
/// the most connections are open; the first failed condition is the refusal.
pub fn admit_new_connection(is_initial: bool, blocked: bool, connections: usize) -> (r: Result<(), ConnectionRefusal>)
    ensures
        r == (if !is_initial {
            Err(ConnectionRefusal::NotInitial)
        } else if blocked {
            Err(ConnectionRefusal::Blocked)
        } else if connections >= MAX_CLIENT_CONNECTIONS {
            Err(ConnectionRefusal::TooManyConnections)
        } else {
            Ok(())
        }),
{
    if !is_initial {
        return Err(ConnectionRefusal::NotInitial);
    }
    if blocked {
        return Err(ConnectionRefusal::Blocked);
    }
    if connections >= MAX_CLIENT_CONNECTIONS {
        return Err(ConnectionRefusal::TooManyConnections);
    }
    Ok(())
}

/// A block on an address after another offence: the first expires at once;
/// the `n`th lasts `n * n` seconds. Gives the count and the seconds.
pub fn block_penalty(previous: Option<u64>) -> (r: (u64, u64))
    requires
        previous matches Some(c) ==> c < u32::MAX,
    ensures
        match previous {
            None => r == (1u64, 0u64),
            Some(c) => r.0 == c + 1 && r.1 == (c + 1) * (c + 1),
        },
{
    match previous {
        None => (1, 0),
        Some(c) => {
            let n = c + 1;
            assert(n * n <= u32::MAX * u32::MAX) by (nonlinear_arith)
                requires
                    n <= u32::MAX,
            ;
            (n, n * n)
        },
    }
}

/// A client's connection with the server after an update (the connection
/// must not be lost already: updating it then is left unimplemented).
pub fn next_client_peer_state(state: PeerState, closed: bool, established: bool) -> (r: PeerState)
    requires
        state != PeerState::Disconnected,
    ensures
        r == spec_next_server_peer_state(state, false, closed, established).0,
{
    let mut s = state;
    match state {
        PeerState::AwaitingConnection => {
            if closed {
                s = PeerState::Disconnected;
            }
            if established {
                s = PeerState::Connected;
            }
        },
        _ => {
            if closed {
                s = PeerState::Disconnected;
            }
        },
    }
    s
}

/// The bytes a stream or datagram carries for a packet: its bits padded to
/// whole 64-bit words, each byte least significant bit first.
pub fn packet_bytes(data: &Packet) -> (r: Vec<u8>)
    ensures
        r@ == spec_datagram_bytes(bits_of(*data)),
{
    let len = bits_len(data);
    let words = len / 64 + if len % 64 == 0 {
        0
    } else {
        1
    };
    let n = 8 * words;
    let mut out: Vec<u8> = Vec::new();
    let mut k: usize = 0;
    while k < n
        invariant
            len == bits_of(*data).len(),
            words == (len + 63) / 64,
            n == 8 * words,
            k <= n,
            out@ == Seq::new(k as nat, |j: int| field(padded(bits_of(*data), 64), 8 * j, 8) as u8),
        decreases n - k,
    {
        let b = padded_word_byte(data, len, k);
        out.push(b);
        k = k + 1;
        assert(out@ =~= Seq::new(k as nat, |j: int| field(padded(bits_of(*data), 64), 8 * j, 8) as u8));
    }
    out
}

/// Byte `k` of the packet padded to whole words: the bits there, with zero
/// bits past the end.
fn padded_word_byte(data: &Packet, len: usize, k: usize) -> (r: u8)
    requires
        len == bits_of(*data).len(),
        k < 8 * ((len + 63) / 64),
    ensures
        r == field(padded(bits_of(*data), 64), 8 * k, 8) as u8,
{
    proof {
        lemma_small_powers();
        lemma_padded_word_len(bits_of(*data));
    }
    let start = 8 * k;
    if start >= len {
        proof {
            lemma_zero_padding_byte(bits_of(*data), 8 * k as int);
        }
        return 0;
    }
    let width = if len - start >= 8 {
        8
    } else {
        len - start
    };
    let v = read_field(data, start, width);
    proof {
        lemma_padded_word_field(bits_of(*data), 8 * k as int, width as int);
    }
    v as u8
}

proof fn lemma_padded_word_len(s: Seq<bool>)
    ensures
        padded(s, 64).len() == 64 * ((s.len() + 63) / 64),
{
    let n = s.len();
    assert(n == 64 * (n / 64) + n % 64);
    if n % 64 == 0 {
        assert((n + 63) / 64 == n / 64);
    } else {
        assert((n + 63) / 64 == n / 64 + 1);
    }
}

proof fn lemma_zero_padding_byte(s: Seq<bool>, p: int)
    requires
        s.len() <= p,
        p + 8 <= padded(s, 64).len(),
    ensures
        field(padded(s, 64), p, 8) == 0,
{
    let z = padded(s, 64).subrange(p, p + 8);
    assert(z =~= Seq::<bool>::empty() + Seq::new(8, |i: int| false));
    lemma_zero_value(8);
}

proof fn lemma_zero_value(n: nat)
    ensures
        crate::bits::bits_value(Seq::new(n, |i: int| false)) == 0,
    decreases n,
{
    if n > 0 {
        assert(Seq::new(n, |i: int| false).drop_first() =~= Seq::new((n - 1) as nat, |i: int| false));
        lemma_zero_value((n - 1) as nat);
    }
}

proof fn lemma_padded_word_field(s: Seq<bool>, p: int, w: int)
    requires
        0 <= p,
        1 <= w <= 8,
        p + w <= s.len(),
        w == 8 || p + w == s.len(),
        p + 8 <= padded(s, 64).len(),
    ensures
        field(padded(s, 64), p, 8) == field(s, p, w),
{
    let a = padded(s, 64).subrange(p, p + 8);
    let b = s.subrange(p, p + w);
    assert(a =~= b + Seq::new((8 - w) as nat, |i: int| false));
    lemma_value_of_zero_tail(b, (8 - w) as nat);
}

/// The size a stream message's prefix holds: its own 8 bytes and the
/// message's.
pub fn stream_size_field(data_len: usize) -> (r: u64)
    requires
        data_len + 8 <= u64::MAX,
    ensures
        r == data_len + 8,
{
    8 + data_len as u64
}

} // verus!
