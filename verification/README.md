# butterflyvr

The logic of ButterflyVR's Rust modules as a Verus library, with the Godot
extension around it.

- `src/` is the verified library. Every function there has a contract that
  Verus proves, and the laws of the library (round trips of the wire format,
  reassembly of streams however they are cut, the order of priorities, the
  accounting of a tick's bandwidth, the stability of the scene grammar on a
  growing buffer, the queue's behaviour) stand there as proof functions.
  - `bits`, `serializer`, `messages`: packets of bits, values written as the
    type a script gives, and reliable messages.
  - `butteryfly`, `netnodes`: the two networking modules: stream framing,
    datagrams and their ticks, internal messages, the connection handler's
    decisions, and the client's and server's sending turns.
  - `pck`, `scene_grammar`: the content pack checker and the grammar of a
    property value in a text scene.
  - `queue`, `password`, `lru`: the queue, Argon2id hashing through the
    `argon2` crate, and the keys and records of the pack cache.
- `tests/` runs the library on concrete values.
- `app/` is the Godot extension: the classes scripts use, file and network
  I/O (quiche, boring, tokio, agones, zstd, moka), and the conversions between
  Godot values and the library's.
