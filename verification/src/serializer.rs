//! How a networked value is written into a packet and read back from it.
//!
//! A value is written in the form its type names: a bool as one bit, an
//! integer as 8, 16 or 64 bits, a float as the 32 bits of its IEEE pattern, a
//! vector as three such floats, and a string or byte array as a 32-bit length
//! followed by its bytes, 8 bits each. Every number is written least
//! significant bit first.
use vstd::prelude::*;

use crate::bits::{
    bits_extend_u16, bits_extend_u32, bits_extend_u64, bits_extend_u8, bits_get, bits_len,
    bits_new, bits_of, bits_push, bits_value, field, lemma_field_bound, lemma_field_of_concat,
    lemma_small_powers, lemma_value_bits_value, read_field, two_pow, value_bits, Packet,
};
use crate::pck::{is_utf8, utf8_valid};

verus! {

/// Bits in a byte.
pub const BYTE: usize = 8;

/// Bits in two bytes.
pub const BYTES2: usize = 16;

/// Bits in four bytes.
pub const BYTES4: usize = 32;

/// Bits in eight bytes.
pub const BYTES8: usize = 64;

/// All possible ways a value can be encoded for the network.
#[derive(PartialEq, Eq, Structural, Debug, Copy, Clone)]
pub enum NetworkedValueTypes {
    Nil,
    Bool,
    Unsigned8,
    Unsigned16,
    Signed64,
    Float32,
    Vector3,
    String,
    ByteArray,
}

/// Why a number names no type: `-1` is the code of no type, and any other
/// number outside the table names none.
#[derive(PartialEq, Eq, Structural, Debug, Copy, Clone)]
pub enum TypeCodeError {
    InvalidType,
    Nonexistent(i64),
}

impl NetworkedValueTypes {
    /// The type that a script's number names.
    pub open spec fn from_code(value: i64) -> Option<NetworkedValueTypes> {
        if value == -2 {
            Some(NetworkedValueTypes::Nil)
        } else if value == 0 {
            Some(NetworkedValueTypes::Bool)
        } else if value == 1 {
            Some(NetworkedValueTypes::Unsigned8)
        } else if value == 2 {
            Some(NetworkedValueTypes::Unsigned16)
        } else if value == 3 {
            Some(NetworkedValueTypes::Signed64)
        } else if value == 4 {
            Some(NetworkedValueTypes::Float32)
        } else if value == 5 {
            Some(NetworkedValueTypes::Vector3)
        } else if value == 6 {
            Some(NetworkedValueTypes::String)
        } else if value == 7 {
            Some(NetworkedValueTypes::ByteArray)
        } else {
            None
        }
    }

    /// Reads a script's number as a type.
    pub fn try_from(value: i64) -> (r: Result<NetworkedValueTypes, TypeCodeError>)
        ensures
            match NetworkedValueTypes::from_code(value) {
                Some(t) => r == Ok::<NetworkedValueTypes, TypeCodeError>(t),
                None => r == Err::<NetworkedValueTypes, TypeCodeError>(
                    if value == -1 {
                        TypeCodeError::InvalidType
                    } else {
                        TypeCodeError::Nonexistent(value)
                    },
                ),
            },
    {
        match value {
            -2 => Ok(NetworkedValueTypes::Nil),
            -1 => Err(TypeCodeError::InvalidType),
            0 => Ok(NetworkedValueTypes::Bool),
            1 => Ok(NetworkedValueTypes::Unsigned8),
            2 => Ok(NetworkedValueTypes::Unsigned16),
            3 => Ok(NetworkedValueTypes::Signed64),
            4 => Ok(NetworkedValueTypes::Float32),
            5 => Ok(NetworkedValueTypes::Vector3),
            6 => Ok(NetworkedValueTypes::String),
            7 => Ok(NetworkedValueTypes::ByteArray),
            _ => Err(TypeCodeError::Nonexistent(value)),
        }
    }

    /// The position of the type in the enum's declaration, the number that a
    /// cast of the type to `i64` gives.
    pub open spec fn spec_position(self) -> i64 {
        match self {
            NetworkedValueTypes::Nil => 0,
            NetworkedValueTypes::Bool => 1,
            NetworkedValueTypes::Unsigned8 => 2,
            NetworkedValueTypes::Unsigned16 => 3,
            NetworkedValueTypes::Signed64 => 4,
            NetworkedValueTypes::Float32 => 5,
            NetworkedValueTypes::Vector3 => 6,
            NetworkedValueTypes::String => 7,
            NetworkedValueTypes::ByteArray => 8,
        }
    }

    /// The position of the type in the enum's declaration.
    pub fn position(self) -> (r: i64)
        ensures
            r == self.spec_position(),
    {
        match self {
            NetworkedValueTypes::Nil => 0,
            NetworkedValueTypes::Bool => 1,
            NetworkedValueTypes::Unsigned8 => 2,
            NetworkedValueTypes::Unsigned16 => 3,
            NetworkedValueTypes::Signed64 => 4,
            NetworkedValueTypes::Float32 => 5,
            NetworkedValueTypes::Vector3 => 6,
            NetworkedValueTypes::String => 7,
            NetworkedValueTypes::ByteArray => 8,
        }
    }
}

/// A value as a script hands it over. Floats are held by their IEEE bit
/// pattern; a string by its UTF-8 bytes; an array of integers (`Ints`) is what a
/// script passes for a byte array, and `Bytes` is what a decoded one gives.
#[derive(Debug)]
pub enum NetValue {
    Nil,
    Bool(bool),
    Int(i64),
    Float(u32),
    Vector3(u32, u32, u32),
    Str(Vec<u8>),
    Ints(Vec<i64>),
    Bytes(Vec<u8>),
}

/// The view of a `NetValue`.
pub enum NetValueView {
    Nil,
    Bool(bool),
    Int(i64),
    Float(u32),
    Vector3(u32, u32, u32),
    Str(Seq<u8>),
    Ints(Seq<i64>),
    Bytes(Seq<u8>),
}

impl View for NetValue {
    type V = NetValueView;

    open spec fn view(&self) -> NetValueView {
        match self {
            NetValue::Nil => NetValueView::Nil,
            NetValue::Bool(b) => NetValueView::Bool(*b),
            NetValue::Int(x) => NetValueView::Int(*x),
            NetValue::Float(f) => NetValueView::Float(*f),
            NetValue::Vector3(x, y, z) => NetValueView::Vector3(*x, *y, *z),
            NetValue::Str(s) => NetValueView::Str(s@),
            NetValue::Ints(xs) => NetValueView::Ints(xs@),
            NetValue::Bytes(b) => NetValueView::Bytes(b@),
        }
    }
}

pub open spec fn opt_view(v: Option<NetValue>) -> Option<NetValueView> {
    match v {
        Some(x) => Some(x@),
        None => None,
    }
}

/// Whether a value can be written as type `t`: the conversion from the
/// script's value to what the type writes succeeds.
pub open spec fn fits(v: NetValueView, t: NetworkedValueTypes) -> bool {
    match t {
        NetworkedValueTypes::Nil => true,
        NetworkedValueTypes::Bool => v is Bool,
        NetworkedValueTypes::Unsigned8 => v matches NetValueView::Int(x) && 0 <= x <= 255,
        NetworkedValueTypes::Unsigned16 => v matches NetValueView::Int(x) && 0 <= x <= 65535,
        NetworkedValueTypes::Signed64 => v is Int,
        NetworkedValueTypes::Float32 => v is Float,
        NetworkedValueTypes::Vector3 => v is Vector3,
        NetworkedValueTypes::String => v is Str,
        NetworkedValueTypes::ByteArray => v is Ints,
    }
}

/// The byte that an integer of a script's byte array becomes: itself when it
/// is one, else 0.
pub open spec fn byte_of(x: i64) -> u8 {
    if 0 <= x <= 255 {
        x as u8
    } else {
        0
    }
}

/// The bits of a byte string, 8 per byte, each byte least significant bit first.
pub open spec fn bytes_bits(s: Seq<u8>) -> Seq<bool>
    decreases s.len(),
{
    if s.len() == 0 {
        Seq::empty()
    } else {
        bytes_bits(s.drop_last()) + value_bits(s.last() as nat, 8)
    }
}

/// The bits that writing `v` as type `t` gives.
pub open spec fn spec_encode(v: NetValueView, t: NetworkedValueTypes) -> Seq<bool> {
    match (t, v) {
        (NetworkedValueTypes::Bool, NetValueView::Bool(b)) => seq![b],
        (NetworkedValueTypes::Unsigned8, NetValueView::Int(x)) => value_bits(x as nat, 8),
        (NetworkedValueTypes::Unsigned16, NetValueView::Int(x)) => value_bits(x as nat, 16),
        (NetworkedValueTypes::Signed64, NetValueView::Int(x)) => value_bits((x as u64) as nat, 64),
        (NetworkedValueTypes::Float32, NetValueView::Float(f)) => value_bits(f as nat, 32),
        (NetworkedValueTypes::Vector3, NetValueView::Vector3(x, y, z)) => value_bits(x as nat, 32)
            + value_bits(y as nat, 32) + value_bits(z as nat, 32),
        (NetworkedValueTypes::String, NetValueView::Str(s)) => value_bits(
            (s.len() as u32) as nat,
            32,
        ) + bytes_bits(s),
        (NetworkedValueTypes::ByteArray, NetValueView::Ints(xs)) => value_bits(
            (xs.len() as u32) as nat,
            32,
        ) + bytes_bits(xs.map_values(|x: i64| byte_of(x))),
        _ => Seq::empty(),
    }
}

/// The `n` bytes written from index `p` of `s`.
pub open spec fn read_bytes(s: Seq<bool>, p: int, n: nat) -> Seq<u8> {
    Seq::new(n, |k: int| field(s, p + 8 * k, 8) as u8)
}

/// What reading a value of type `t` at index `p` of `s` gives, and the index
/// after it. A string or byte array whose bytes run past the end gives nothing,
/// but its length has been read: the index has moved past the length.
pub open spec fn spec_decode(s: Seq<bool>, p: int, t: NetworkedValueTypes) -> (Option<NetValueView>, int) {
    match t {
        NetworkedValueTypes::Nil => (Some(NetValueView::Nil), p),
        NetworkedValueTypes::Bool => if p + 1 > s.len() {
            (None, p)
        } else {
            (Some(NetValueView::Bool(s[p])), p + 1)
        },
        NetworkedValueTypes::Unsigned8 => if p + 8 > s.len() {
            (None, p)
        } else {
            (Some(NetValueView::Int(field(s, p, 8) as i64)), p + 8)
        },
        NetworkedValueTypes::Unsigned16 => if p + 16 > s.len() {
            (None, p)
        } else {
            (Some(NetValueView::Int(field(s, p, 16) as i64)), p + 16)
        },
        NetworkedValueTypes::Signed64 => if p + 64 > s.len() {
            (None, p)
        } else {
            (Some(NetValueView::Int((field(s, p, 64) as u64) as i64)), p + 64)
        },
        NetworkedValueTypes::Float32 => if p + 32 > s.len() {
            (None, p)
        } else {
            (Some(NetValueView::Float(field(s, p, 32) as u32)), p + 32)
        },
        NetworkedValueTypes::Vector3 => if p + 96 > s.len() {
            (None, p)
        } else {
            (
                Some(
                    NetValueView::Vector3(
                        field(s, p, 32) as u32,
                        field(s, p + 32, 32) as u32,
                        field(s, p + 64, 32) as u32,
                    ),
                ),
                p + 96,
            )
        },
        NetworkedValueTypes::String => if p + 32 > s.len() {
            (None, p)
        } else if p + 32 + 8 * field(s, p, 32) <= s.len() {
            let b = read_bytes(s, p + 32, field(s, p, 32));
            (
                Some(NetValueView::Str(if utf8_valid(b) { b } else { Seq::empty() })),
                p + 32 + 8 * field(s, p, 32),
            )
        } else {
            (None, p + 32)
        },
        NetworkedValueTypes::ByteArray => if p + 32 > s.len() {
            (None, p)
        } else if p + 32 + 8 * field(s, p, 32) <= s.len() {
            (
                Some(NetValueView::Bytes(read_bytes(s, p + 32, field(s, p, 32)))),
                p + 32 + 8 * field(s, p, 32),
            )
        } else {
            (None, p + 32)
        },
    }
}

/// What a value written as type `t` reads back as: a byte array comes back
/// as bytes, out-of-range integers as 0, and a string that is not UTF-8 as the
/// empty string; every other value comes back as it was.
pub open spec fn decoded_form(v: NetValueView, t: NetworkedValueTypes) -> NetValueView {
    match (t, v) {
        (NetworkedValueTypes::Nil, _) => NetValueView::Nil,
        (NetworkedValueTypes::String, NetValueView::Str(s)) => NetValueView::Str(
            if utf8_valid(s) {
                s
            } else {
                Seq::empty()
            },
        ),
        (NetworkedValueTypes::ByteArray, NetValueView::Ints(xs)) => NetValueView::Bytes(
            xs.map_values(|x: i64| byte_of(x)),
        ),
        _ => v,
    }
}

/// Whether the length of a string or byte array fits the 32-bit length field.
pub open spec fn length_fits(v: NetValueView) -> bool {
    match v {
        NetValueView::Str(s) => s.len() < 0x1_0000_0000,
        NetValueView::Ints(xs) => xs.len() < 0x1_0000_0000,
        _ => true,
    }
}

// ---------------------------------------------------------------------------
// Lemmas
// ---------------------------------------------------------------------------

pub proof fn lemma_bytes_bits_len(s: Seq<u8>)
    ensures
        bytes_bits(s).len() == 8 * s.len(),
    decreases s.len(),
{
    if s.len() > 0 {
        lemma_bytes_bits_len(s.drop_last());
        crate::bits::lemma_value_bits_len(s.last() as nat, 8);
    }
}

/// Byte `k` of a byte string is read back from bits `8k` to `8k + 8` of its bits.
pub proof fn lemma_bytes_bits_byte(s: Seq<u8>, k: int)
    requires
        0 <= k < s.len(),
    ensures
        bytes_bits(s).subrange(8 * k, 8 * k + 8) == value_bits(s[k] as nat, 8),
    decreases s.len(),
{
    lemma_bytes_bits_len(s.drop_last());
    crate::bits::lemma_value_bits_len(s.last() as nat, 8);
    let a = bytes_bits(s.drop_last());
    let b = value_bits(s.last() as nat, 8);
    if k == s.len() - 1 {
        assert((a + b).subrange(8 * k, 8 * k + 8) =~= b);
    } else {
        lemma_bytes_bits_byte(s.drop_last(), k);
        assert((a + b).subrange(8 * k, 8 * k + 8) =~= a.subrange(8 * k, 8 * k + 8));
    }
}

/// The bytes written into the middle of a packet are read back.
pub proof fn lemma_read_bytes_back(a: Seq<bool>, s: Seq<u8>, c: Seq<bool>)
    ensures
        read_bytes(a + bytes_bits(s) + c, a.len() as int, s.len()) == s,
{
    lemma_bytes_bits_len(s);
    let whole = a + bytes_bits(s) + c;
    assert forall|k: int| 0 <= k < s.len() implies #[trigger] read_bytes(whole, a.len() as int, s.len())[k] == s[k] by {
        lemma_bytes_bits_byte(s, k);
        lemma_small_powers();
        lemma_value_bits_value(s[k] as nat, 8);
        assert(whole.subrange(a.len() + 8 * k, a.len() + 8 * k + 8) =~= bytes_bits(s).subrange(
            8 * k,
            8 * k + 8,
        ));
    }
    assert(read_bytes(whole, a.len() as int, s.len()) =~= s);
}

pub proof fn lemma_i64_u64_i64(x: i64)
    ensures
        ((x as u64) as i64) == x,
{
    assert(((x as u64) as i64) == x) by (bit_vector);
}

/// Law: a value written as type `t` into any packet, between any bits before
/// and after it, is read back at the index where it was written, in its
/// decoded form, and the read ends where the written bits end.
pub proof fn lemma_decode_encode(
    before: Seq<bool>,
    v: NetValueView,
    t: NetworkedValueTypes,
    after: Seq<bool>,
)
    requires
        fits(v, t),
        length_fits(v),
    ensures
        spec_decode(before + spec_encode(v, t) + after, before.len() as int, t) == (
            Some(decoded_form(v, t)),
            (before.len() + spec_encode(v, t).len()) as int,
        ),
{
    let p = before.len() as int;
    let e = spec_encode(v, t);
    let s = before + e + after;
    lemma_small_powers();
    match (t, v) {
        (NetworkedValueTypes::Nil, _) => {
            assert(e =~= Seq::<bool>::empty());
        },
        (NetworkedValueTypes::Bool, NetValueView::Bool(b)) => {
            assert(s[p] == b);
        },
        (NetworkedValueTypes::Unsigned8, NetValueView::Int(x)) => {
            lemma_value_bits_value(x as nat, 8);
            lemma_field_of_concat(before, e, after);
        },
        (NetworkedValueTypes::Unsigned16, NetValueView::Int(x)) => {
            lemma_value_bits_value(x as nat, 16);
            lemma_field_of_concat(before, e, after);
        },
        (NetworkedValueTypes::Signed64, NetValueView::Int(x)) => {
            lemma_value_bits_value((x as u64) as nat, 64);
            lemma_field_of_concat(before, e, after);
            lemma_i64_u64_i64(x);
        },
        (NetworkedValueTypes::Float32, NetValueView::Float(f)) => {
            lemma_value_bits_value(f as nat, 32);
            lemma_field_of_concat(before, e, after);
        },
        (NetworkedValueTypes::Vector3, NetValueView::Vector3(x, y, z)) => {
            let ex = value_bits(x as nat, 32);
            let ey = value_bits(y as nat, 32);
            let ez = value_bits(z as nat, 32);
            lemma_value_bits_value(x as nat, 32);
            lemma_value_bits_value(y as nat, 32);
            lemma_value_bits_value(z as nat, 32);
            assert(s =~= before + ex + (ey + ez + after));
            lemma_field_of_concat(before, ex, ey + ez + after);
            assert(s =~= (before + ex) + ey + (ez + after));
            lemma_field_of_concat(before + ex, ey, ez + after);
            assert(s =~= (before + ex + ey) + ez + after);
            lemma_field_of_concat(before + ex + ey, ez, after);
        },
        (NetworkedValueTypes::String, NetValueView::Str(b)) => {
            let n = b.len();
            let lb = value_bits(n, 32);
            lemma_value_bits_value(n, 32);
            lemma_bytes_bits_len(b);
            assert(s =~= before + lb + (bytes_bits(b) + after));
            lemma_field_of_concat(before, lb, bytes_bits(b) + after);
            assert(s =~= (before + lb) + bytes_bits(b) + after);
            lemma_read_bytes_back(before + lb, b, after);
        },
        (NetworkedValueTypes::ByteArray, NetValueView::Ints(xs)) => {
            let b = xs.map_values(|x: i64| byte_of(x));
            let n = xs.len();
            let lb = value_bits(n, 32);
            lemma_value_bits_value(n, 32);
            lemma_bytes_bits_len(b);
            assert(s =~= before + lb + (bytes_bits(b) + after));
            lemma_field_of_concat(before, lb, bytes_bits(b) + after);
            assert(s =~= (before + lb) + bytes_bits(b) + after);
            lemma_read_bytes_back(before + lb, b, after);
        },
        _ => {},
    }
}

// ---------------------------------------------------------------------------
// Writing and reading
// ---------------------------------------------------------------------------

/// Appends the bytes of `s`, 8 bits each.
fn extend_bytes(packet: &mut Packet, s: &Vec<u8>)
    ensures
        bits_of(*final(packet)) == bits_of(*old(packet)) + bytes_bits(s@),
{
    let ghost start = bits_of(*packet);
    let mut i: usize = 0;
    while i < s.len()
        invariant
            i <= s.len(),
            bits_of(*packet) == start + bytes_bits(s@.take(i as int)),
        decreases s.len() - i,
    {
        bits_extend_u8(packet, s[i]);
        proof {
            assert(s@.take(i + 1).drop_last() =~= s@.take(i as int));
            assert(s@.take(i + 1).last() == s@[i as int]);
        }
        i = i + 1;
    }
    assert(s@.take(s.len() as int) =~= s@);
}

/// Writes a value as the given type. The script's value must be convertible to
/// what the type writes (`fits`): a conversion that fails panics, which
/// `requires` leaves out.
pub fn encode_with_known_type(object: &NetValue, object_type: NetworkedValueTypes) -> (r: Packet)
    requires
        fits(object@, object_type),
    ensures
        bits_of(r) == spec_encode(object@, object_type),
{
    let mut bitvec = bits_new();
    match (object_type, object) {
        (NetworkedValueTypes::Bool, NetValue::Bool(b)) => {
            bits_push(&mut bitvec, *b);
            assert(bits_of(bitvec) =~= seq![*b]);
        },
        (NetworkedValueTypes::Unsigned8, NetValue::Int(x)) => {
            bits_extend_u8(&mut bitvec, *x as u8);
            assert(bits_of(bitvec) =~= value_bits(*x as nat, 8));
        },
        (NetworkedValueTypes::Unsigned16, NetValue::Int(x)) => {
            bits_extend_u16(&mut bitvec, *x as u16);
            assert(bits_of(bitvec) =~= value_bits(*x as nat, 16));
        },
        (NetworkedValueTypes::Signed64, NetValue::Int(x)) => {
            bits_extend_u64(&mut bitvec, *x as u64);
            assert(bits_of(bitvec) =~= value_bits((*x as u64) as nat, 64));
        },
        (NetworkedValueTypes::Float32, NetValue::Float(f)) => {
            bits_extend_u32(&mut bitvec, *f);
            assert(bits_of(bitvec) =~= value_bits(*f as nat, 32));
        },
        (NetworkedValueTypes::Vector3, NetValue::Vector3(x, y, z)) => {
            bits_extend_u32(&mut bitvec, *x);
            bits_extend_u32(&mut bitvec, *y);
            bits_extend_u32(&mut bitvec, *z);
            assert(bits_of(bitvec) =~= value_bits(*x as nat, 32) + value_bits(*y as nat, 32)
                + value_bits(*z as nat, 32));
        },
        (NetworkedValueTypes::String, NetValue::Str(s)) => {
            let length = s.len() as u32;
            bits_extend_u32(&mut bitvec, length);
            extend_bytes(&mut bitvec, s);
            assert(bits_of(bitvec) =~= value_bits((s@.len() as u32) as nat, 32) + bytes_bits(s@));
        },
        (NetworkedValueTypes::ByteArray, NetValue::Ints(xs)) => {
            let length = xs.len() as u32;
            bits_extend_u32(&mut bitvec, length);
            let mut bytes: Vec<u8> = Vec::new();
            let mut i: usize = 0;
            while i < xs.len()
                invariant
                    i <= xs.len(),
                    bytes@ == xs@.take(i as int).map_values(|x: i64| byte_of(x)),
                decreases xs.len() - i,
            {
                let x = xs[i];
                let b: u8 = if 0 <= x && x <= 255 {
                    x as u8
                } else {
                    0
                };
                bytes.push(b);
                i = i + 1;
                assert(bytes@ =~= xs@.take(i as int).map_values(|x: i64| byte_of(x)));
            }
            assert(xs@.take(xs.len() as int) =~= xs@);
            extend_bytes(&mut bitvec, &bytes);
            assert(bits_of(bitvec) =~= value_bits((xs@.len() as u32) as nat, 32) + bytes_bits(
                xs@.map_values(|x: i64| byte_of(x)),
            ));
        },
        _ => {
            assert(bits_of(bitvec) =~= spec_encode(object@, object_type));
        },
    }
    bitvec
}

/// Reads `n` bytes written from index `p`.
fn read_byte_run(data: &Packet, p: usize, n: usize) -> (r: Vec<u8>)
    requires
        p + 8 * n <= bits_of(*data).len(),
    ensures
        r@ == read_bytes(bits_of(*data), p as int, n as nat),
{
    let len = bits_len(data);
    let mut out: Vec<u8> = Vec::new();
    let mut k: usize = 0;
    while k < n
        invariant
            k <= n,
            len == bits_of(*data).len(),
            p + 8 * n <= bits_of(*data).len(),
            out@ == read_bytes(bits_of(*data), p as int, k as nat),
        decreases n - k,
    {
        let b = read_field(data, p + 8 * k, 8);
        proof {
            lemma_small_powers();
        }
        out.push(b as u8);
        k = k + 1;
        assert(out@ =~= read_bytes(bits_of(*data), p as int, k as nat));
    }
    out
}

/// Reads a value of the given type at `*pointer` and moves the pointer past
/// what was read (for a string or byte array that runs past the end, past its
/// length only).
pub fn decode_with_known_type(data: &Packet, pointer: &mut usize, object_type: NetworkedValueTypes) -> (r: Option<NetValue>)
    ensures
        spec_decode(bits_of(*data), *old(pointer) as int, object_type) == (
            opt_view(r),
            *final(pointer) as int,
        ),
{
    let len = bits_len(data);
    let p = *pointer;
    proof {
        lemma_small_powers();
    }
    let fits_width = |w: usize| -> (b: bool)
        ensures
            b == (p + w <= len),
        { p <= len && len - p >= w };
    match object_type {
        NetworkedValueTypes::Nil => Some(NetValue::Nil),
        NetworkedValueTypes::Bool => {
            if !fits_width(1) {
                return None;
            }
            let b = bits_get(data, p);
            *pointer = p + 1;
            Some(NetValue::Bool(b))
        },
        NetworkedValueTypes::Unsigned8 => {
            if !fits_width(BYTE) {
                return None;
            }
            let x = read_field(data, p, BYTE);
            *pointer = p + BYTE;
            Some(NetValue::Int(x as i64))
        },
        NetworkedValueTypes::Unsigned16 => {
            if !fits_width(BYTES2) {
                return None;
            }
            let x = read_field(data, p, BYTES2);
            *pointer = p + BYTES2;
            Some(NetValue::Int(x as i64))
        },
        NetworkedValueTypes::Signed64 => {
            if !fits_width(BYTES8) {
                return None;
            }
            let x = read_field(data, p, BYTES8);
            *pointer = p + BYTES8;
            Some(NetValue::Int(x as i64))
        },
        NetworkedValueTypes::Float32 => {
            if !fits_width(BYTES4) {
                return None;
            }
            let x = read_field(data, p, BYTES4);
            *pointer = p + BYTES4;
            Some(NetValue::Float(x as u32))
        },
        NetworkedValueTypes::Vector3 => {
            if !fits_width(BYTES4 * 3) {
                return None;
            }
            let x = read_field(data, p, BYTES4);
            let y = read_field(data, p + BYTES4, BYTES4);
            let z = read_field(data, p + 2 * BYTES4, BYTES4);
            *pointer = p + 3 * BYTES4;
            Some(NetValue::Vector3(x as u32, y as u32, z as u32))
        },
        NetworkedValueTypes::String | NetworkedValueTypes::ByteArray => {
            if !fits_width(BYTES4) {
                return None;
            }
            let length = read_field(data, p, BYTES4);
            let q = p + BYTES4;
            *pointer = q;
            if (length as usize) <= (len - q) / BYTE {
                let n = length as usize;
                let bytes = read_byte_run(data, q, n);
                *pointer = q + n * BYTE;
                match object_type {
                    NetworkedValueTypes::String => {
                        if is_utf8(bytes.as_slice()) {
                            Some(NetValue::Str(bytes))
                        } else {
                            Some(NetValue::Str(Vec::new()))
                        }
                    },
                    _ => Some(NetValue::Bytes(bytes)),
                }
            } else {
                None
            }
        },
    }
}

} // verus!
