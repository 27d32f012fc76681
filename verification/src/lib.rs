//! The verified core of ButterflyVR's Rust modules: the bit-level wire
//! format of the networking layer (values, messages, node updates, stream
//! framing, datagram ticks), the per-tick sending decisions of its client and
//! server, the checker of downloaded content packs and the grammar of their
//! text scenes, a double-ended queue, password hashing with Argon2id, and the
//! records of a pack cache.
use vstd::prelude::*;

pub mod bits;
pub mod butteryfly;
pub mod lru;
pub mod messages;
pub mod netnodes;
pub mod password;
pub mod pck;
pub mod queue;
pub mod scene_grammar;
pub mod serializer;

verus! {

} // verus!
