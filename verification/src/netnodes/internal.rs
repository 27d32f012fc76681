//! Internal messages, which a server sends with message id 0: a client's id,
//! and the ids assigned to networked nodes and message handlers, which are
//! named by the path of child indices from the scene root.
use vstd::prelude::*;

use crate::bits::{
    bits_extend_u16, bits_extend_u32, bits_extend_u8, bits_get, bits_len, bits_new, bits_of,
    bits_push, field, lemma_field_of_concat, lemma_small_powers, lemma_value_bits_len,
    lemma_value_bits_value, read_field, value_bits, Packet,
};
use crate::serializer::{bytes_bits, BYTES2, BYTES4};

verus! {

/// The errors of the networking layer.
#[derive(PartialEq, Eq, Structural, Debug, Copy, Clone)]
pub enum NetNodesError {
    NotSupported,
    PeerNotFound,
    Disconnected,
    BufferFull,
    InvalidDatagramLength,
    InvalidDatagram,
    ThreadPanic,
    QuicheError,
    SocketError,
}

/// An internal message. A node is named by its path: the index of each
/// child on the way from the scene root.
pub enum InternalMessage {
    ClientId([u8; 8]),
    NetNodeIdAssign((u16, Vec<u32>)),
    MessageHandlerIdAssign((u16, Vec<u32>)),
}

pub enum InternalMessageView {
    ClientId(Seq<u8>),
    NetNodeIdAssign(u16, Seq<u32>),
    MessageHandlerIdAssign(u16, Seq<u32>),
}

impl View for InternalMessage {
    type V = InternalMessageView;

    open spec fn view(&self) -> InternalMessageView {
        match self {
            InternalMessage::ClientId(id) => InternalMessageView::ClientId(id@),
            InternalMessage::NetNodeIdAssign((id, path)) => InternalMessageView::NetNodeIdAssign(*id, path@),
            InternalMessage::MessageHandlerIdAssign((id, path)) => InternalMessageView::MessageHandlerIdAssign(
                *id,
                path@,
            ),
        }
    }
}

/// The bits of a path: its length in 32 bits, then each index in 32 bits.
pub open spec fn path_bits(path: Seq<u32>) -> Seq<bool> {
    value_bits((path.len() as u32) as nat, 32) + indices_bits(path)
}

pub open spec fn indices_bits(path: Seq<u32>) -> Seq<bool>
    decreases path.len(),
{
    if path.len() == 0 {
        Seq::empty()
    } else {
        indices_bits(path.drop_last()) + value_bits(path.last() as nat, 32)
    }
}

/// The packet of an internal message: the id 0 in 16 bits, then for a client
/// id its bytes, and for an id assignment a flag (set for a networked node),
/// the id in 16 bits and the node's path.
pub open spec fn spec_generate_internal_message(m: InternalMessageView) -> Seq<bool> {
    value_bits(0, 16) + match m {
        InternalMessageView::ClientId(id) => bytes_bits(id),
        InternalMessageView::NetNodeIdAssign(id, path) => seq![true] + value_bits(id as nat, 16)
            + path_bits(path),
        InternalMessageView::MessageHandlerIdAssign(id, path) => seq![false] + value_bits(
            id as nat,
            16,
        ) + path_bits(path),
    }
}

/// The `n` indices of a path read from index `p`.
pub open spec fn read_indices(s: Seq<bool>, p: int, n: nat) -> Seq<u32> {
    Seq::new(n, |k: int| field(s, p + 32 * k, 32) as u32)
}

/// What reading an id assignment at index `p` gives, and the index after it.
/// A packet too short for the flag, id and path length, or for the path's
/// indices, is refused as too short.
pub open spec fn spec_decode_internal_message(s: Seq<bool>, p: int) -> (Result<InternalMessageView, NetNodesError>, int) {
    if s.len() < p + 1 + 16 + 32 {
        (Err(NetNodesError::InvalidDatagramLength), p)
    } else {
        let n = field(s, p + 17, 32);
        if s.len() < p + 49 + 32 * n {
            (Err(NetNodesError::InvalidDatagramLength), p + 49)
        } else {
            let id = field(s, p + 1, 16) as u16;
            let path = read_indices(s, p + 49, n);
            (
                Ok(
                    if s[p] {
                        InternalMessageView::NetNodeIdAssign(id, path)
                    } else {
                        InternalMessageView::MessageHandlerIdAssign(id, path)
                    },
                ),
                p + 49 + 32 * n,
            )
        }
    }
}

fn extend_path(packet: &mut Packet, path: &Vec<u32>)
    ensures
        bits_of(*final(packet)) == bits_of(*old(packet)) + path_bits(path@),
{
    let ghost start = bits_of(*packet);
    bits_extend_u32(packet, path.len() as u32);
    let ghost head = bits_of(*packet);
    let mut i: usize = 0;
    while i < path.len()
        invariant
            i <= path.len(),
            bits_of(*packet) == head + indices_bits(path@.take(i as int)),
        decreases path.len() - i,
    {
        bits_extend_u32(packet, path[i]);
        proof {
            assert(path@.take(i + 1).drop_last() =~= path@.take(i as int));
        }
        i = i + 1;
    }
    assert(path@.take(path.len() as int) =~= path@);
}

/// Writes an internal message.
pub fn generate_internal_message(message: InternalMessage) -> (r: Packet)
    ensures
        bits_of(r) == spec_generate_internal_message(message@),
{
    let mut packet = bits_new();
    bits_extend_u16(&mut packet, 0);
    let ghost head = bits_of(packet);
    match message {
        InternalMessage::ClientId(id) => {
            let mut i: usize = 0;
            while i < 8
                invariant
                    i <= 8,
                    bits_of(packet) == head + bytes_bits(id@.take(i as int)),
                decreases 8 - i,
            {
                bits_extend_u8(&mut packet, id[i]);
                proof {
                    assert(id@.take(i + 1).drop_last() =~= id@.take(i as int));
                }
                i = i + 1;
            }
            assert(id@.take(8) =~= id@);
        },
        InternalMessage::NetNodeIdAssign((node_id, path)) => {
            bits_push(&mut packet, true);
            bits_extend_u16(&mut packet, node_id);
            extend_path(&mut packet, &path);
            assert(bits_of(packet) =~= head + (seq![true] + value_bits(node_id as nat, 16)
                + path_bits(path@)));
        },
        InternalMessage::MessageHandlerIdAssign((handler_id, path)) => {
            bits_push(&mut packet, false);
            bits_extend_u16(&mut packet, handler_id);
            extend_path(&mut packet, &path);
            assert(bits_of(packet) =~= head + (seq![false] + value_bits(handler_id as nat, 16)
                + path_bits(path@)));
        },
    }
    packet
}

/// Reads an id assignment at `*pointer` (the bits after the message id) and
/// moves the pointer past it. Which node the path names is for the caller to
/// find in its scene tree.
pub fn decode_internal_message(packet: &Packet, pointer: &mut usize) -> (r: Result<InternalMessage, NetNodesError>)
    ensures
        ({
            let (res, q) = spec_decode_internal_message(bits_of(*packet), *old(pointer) as int);
            &&& *final(pointer) == q
            &&& match r {
                Ok(m) => res == Ok::<InternalMessageView, NetNodesError>(m@),
                Err(e) => res == Err::<InternalMessageView, NetNodesError>(e),
            }
        }),
{
    let len = bits_len(packet);
    let p = *pointer;
    if p > len || len - p < 1 + BYTES2 + BYTES4 {
        return Err(NetNodesError::InvalidDatagramLength);
    }
    proof {
        lemma_small_powers();
    }
    let is_netnode = bits_get(packet, p);
    let node_id = read_field(packet, p + 1, BYTES2) as u16;
    let path_length = read_field(packet, p + 1 + BYTES2, BYTES4);
    let q = p + 1 + BYTES2 + BYTES4;
    *pointer = q;
    if path_length as usize > (len - q) / BYTES4 {
        return Err(NetNodesError::InvalidDatagramLength);
    }
    let n = path_length as usize;
    let mut path: Vec<u32> = Vec::new();
    let mut k: usize = 0;
    while k < n
        invariant
            k <= n,
            len == bits_of(*packet).len(),
            q + 32 * n <= len,
            path@ == read_indices(bits_of(*packet), q as int, k as nat),
        decreases n - k,
    {
        let segment = read_field(packet, q + BYTES4 * k, BYTES4);
        proof {
            lemma_small_powers();
        }
        path.push(segment as u32);
        k = k + 1;
        assert(path@ =~= read_indices(bits_of(*packet), q as int, k as nat));
    }
    *pointer = q + BYTES4 * n;
    if is_netnode {
        Ok(InternalMessage::NetNodeIdAssign((node_id, path)))
    } else {
        Ok(InternalMessage::MessageHandlerIdAssign((node_id, path)))
    }
}

// ---------------------------------------------------------------------------
// Laws
// ---------------------------------------------------------------------------

pub proof fn lemma_indices_bits_len(path: Seq<u32>)
    ensures
        indices_bits(path).len() == 32 * path.len(),
    decreases path.len(),
{
    if path.len() > 0 {
        lemma_indices_bits_len(path.drop_last());
        lemma_value_bits_len(path.last() as nat, 32);
    }
}

proof fn lemma_indices_bits_index(path: Seq<u32>, k: int)
    requires
        0 <= k < path.len(),
    ensures
        indices_bits(path).subrange(32 * k, 32 * k + 32) == value_bits(path[k] as nat, 32),
    decreases path.len(),
{
    lemma_indices_bits_len(path.drop_last());
    lemma_value_bits_len(path.last() as nat, 32);
    let a = indices_bits(path.drop_last());
    let b = value_bits(path.last() as nat, 32);
    if k == path.len() - 1 {
        assert((a + b).subrange(32 * k, 32 * k + 32) =~= b);
    } else {
        lemma_indices_bits_index(path.drop_last(), k);
        assert((a + b).subrange(32 * k, 32 * k + 32) =~= a.subrange(32 * k, 32 * k + 32));
    }
}

/// Law: an id assignment written as an internal message is read back from
/// just after its message id, whatever follows it, and the read ends where
/// the message ends.
pub proof fn lemma_internal_message_roundtrip(m: InternalMessageView, after: Seq<bool>)
    requires
        m matches InternalMessageView::NetNodeIdAssign(_, path) ==> path.len() < 0x1_0000_0000,
        m matches InternalMessageView::MessageHandlerIdAssign(_, path) ==> path.len() < 0x1_0000_0000,
        !(m is ClientId),
    ensures
        spec_decode_internal_message(spec_generate_internal_message(m) + after, 16) == (
            Ok::<InternalMessageView, NetNodesError>(m),
            spec_generate_internal_message(m).len() as int,
        ),
{
    lemma_small_powers();
    let (flag, id, path) = match m {
        InternalMessageView::NetNodeIdAssign(id, path) => (true, id, path),
        InternalMessageView::MessageHandlerIdAssign(id, path) => (false, id, path),
        InternalMessageView::ClientId(_) => (false, 0u16, Seq::empty()),
    };
    let h = value_bits(0, 16);
    let idb = value_bits(id as nat, 16);
    let lb = value_bits(path.len(), 32);
    let ib = indices_bits(path);
    lemma_value_bits_len(0, 16);
    lemma_value_bits_value(id as nat, 16);
    lemma_value_bits_value(path.len(), 32);
    lemma_indices_bits_len(path);
    let s = spec_generate_internal_message(m) + after;
    assert(s =~= h + seq![flag] + idb + lb + ib + after);
    assert(s[16] == flag);
    assert(s =~= (h + seq![flag]) + idb + (lb + ib + after));
    lemma_field_of_concat(h + seq![flag], idb, lb + ib + after);
    assert(s =~= (h + seq![flag] + idb) + lb + (ib + after));
    lemma_field_of_concat(h + seq![flag] + idb, lb, ib + after);
    let pre = h + seq![flag] + idb + lb;
    assert(s =~= pre + ib + after);
    assert forall|k: int| 0 <= k < path.len() implies #[trigger] read_indices(s, 65, path.len())[k]
        == path[k] by {
        lemma_indices_bits_index(path, k);
        lemma_value_bits_value(path[k] as nat, 32);
        assert(s.subrange(65 + 32 * k, 65 + 32 * k + 32) =~= ib.subrange(32 * k, 32 * k + 32));
    }
    assert(read_indices(s, 65, path.len()) =~= path);
}

} // verus!
