//! Packets as sequences of bits, held in a `bitvec::vec::BitVec<u64, Lsb0>`.
//!
//! A packet is modelled by the sequence of its bits, index 0 first. Numbers are
//! written least significant bit first (the `Lsb0` order), so a field of width
//! `w` at index `p` holds the number whose bit `i` is the packet's bit `p + i`.
use vstd::prelude::*;

use bitvec::field::BitField;
use bitvec::order::Lsb0;
use bitvec::vec::BitVec;
use bitvec::view::BitView;

verus! {

/// A packet of bits. It holds a `BitVec<u64, Lsb0>`, whose declaration as an
/// outside type Verus refuses (its bounds name traits of `bitvec`); so the
/// vector stands in a field that Verus does not see, and `bits_of` names what
/// it holds.
#[verifier::external_body]
pub struct Packet {
    raw: BitVec<u64, Lsb0>,
}

/// The bits that a packet holds, index 0 first.
pub uninterp spec fn bits_of(v: Packet) -> Seq<bool>;

/// `2` to the power `w`.
pub open spec fn two_pow(w: nat) -> nat
    decreases w,
{
    if w == 0 {
        1
    } else {
        2 * two_pow((w - 1) as nat)
    }
}

/// The `w` low bits of `v`, least significant first.
pub open spec fn value_bits(v: nat, w: nat) -> Seq<bool>
    decreases w,
{
    if w == 0 {
        Seq::empty()
    } else {
        seq![v % 2 == 1] + value_bits(v / 2, (w - 1) as nat)
    }
}

/// The number whose bits, least significant first, are `s`.
pub open spec fn bits_value(s: Seq<bool>) -> nat
    decreases s.len(),
{
    if s.len() == 0 {
        0
    } else {
        (if s[0] { 1nat } else { 0nat }) + 2 * bits_value(s.drop_first())
    }
}

/// The number held by the field of width `w` at index `p` of `s`.
pub open spec fn field(s: Seq<bool>, p: int, w: int) -> nat {
    bits_value(s.subrange(p, p + w))
}

pub proof fn lemma_value_bits_len(v: nat, w: nat)
    ensures
        value_bits(v, w).len() == w,
    decreases w,
{
    if w > 0 {
        lemma_value_bits_len(v / 2, (w - 1) as nat);
    }
}

pub proof fn lemma_two_pow_pos(w: nat)
    ensures
        two_pow(w) >= 1,
    decreases w,
{
    if w > 0 {
        lemma_two_pow_pos((w - 1) as nat);
    }
}

/// A number below `2^w` is given back by its `w` low bits.
pub proof fn lemma_value_bits_value(v: nat, w: nat)
    requires
        v < two_pow(w),
    ensures
        bits_value(value_bits(v, w)) == v,
        value_bits(v, w).len() == w,
    decreases w,
{
    lemma_value_bits_len(v, w);
    if w > 0 {
        let rest = value_bits(v / 2, (w - 1) as nat);
        lemma_value_bits_value(v / 2, (w - 1) as nat);
        assert((seq![v % 2 == 1] + rest).drop_first() =~= rest);
    }
}

/// The number held by `w` bits is below `2^w`.
pub proof fn lemma_bits_value_bound(s: Seq<bool>)
    ensures
        bits_value(s) < two_pow(s.len()),
    decreases s.len(),
{
    if s.len() > 0 {
        lemma_bits_value_bound(s.drop_first());
    }
}

/// A field of width `w` holds a number below `2^w`.
pub proof fn lemma_field_bound(s: Seq<bool>, p: int, w: int)
    requires
        0 <= p,
        0 <= w,
        p + w <= s.len(),
    ensures
        field(s, p, w) < two_pow(w as nat),
{
    lemma_bits_value_bound(s.subrange(p, p + w));
}

pub proof fn lemma_small_powers()
    ensures
        two_pow(8) == 256,
        two_pow(16) == 0x1_0000,
        two_pow(32) == 0x1_0000_0000,
        two_pow(64) == 0x1_0000_0000_0000_0000,
{
    reveal_with_fuel(two_pow, 65);
}

/// A field read back from a sequence that holds `mid` at index `a.len()`.
pub proof fn lemma_field_of_concat(a: Seq<bool>, mid: Seq<bool>, b: Seq<bool>)
    ensures
        field(a + mid + b, a.len() as int, mid.len() as int) == bits_value(mid),
{
    assert((a + mid + b).subrange(a.len() as int, (a.len() + mid.len()) as int) =~= mid);
}

/// The low `a + b` bits of `v` are its low `a` bits, then the low `b` bits
/// of what is above them.
#[verifier::spinoff_prover]
pub proof fn lemma_value_bits_split(v: nat, a: nat, b: nat)
    ensures
        value_bits(v, a + b) == value_bits(v, a) + value_bits(v / two_pow(a), b),
    decreases a,
{
    if a == 0 {
        assert(two_pow(0) == 1);
        assert(v / two_pow(a) == v);
        assert(value_bits(v, 0) + value_bits(v, b) =~= value_bits(v, b));
    } else {
        let a1 = (a - 1) as nat;
        lemma_value_bits_split(v / 2, a1, b);
        lemma_two_pow_pos(a1);
        vstd::arithmetic::div_mod::lemma_div_denominator(v as int, 2, two_pow(a1) as int);
        assert(two_pow(a) == 2 * two_pow(a1));
        assert((v / 2) / two_pow(a1) == v / two_pow(a));
        assert((a + b - 1) as nat == a1 + b);
        assert(value_bits(v, a + b) == seq![v % 2 == 1] + value_bits(v / 2, a1 + b));
        assert(value_bits(v, a) == seq![v % 2 == 1] + value_bits(v / 2, a1));
        assert(value_bits(v, a + b) =~= value_bits(v, a) + value_bits(v / two_pow(a), b));
    }
}

/// The low `a` bits of `v` depend only on `v` modulo `2^a`.
pub proof fn lemma_value_bits_mod(v: nat, a: nat)
    ensures
        value_bits(v % two_pow(a), a) == value_bits(v, a),
    decreases a,
{
    lemma_two_pow_pos(a);
    if a > 0 {
        let p = two_pow((a - 1) as nat);
        lemma_two_pow_pos((a - 1) as nat);
        vstd::arithmetic::div_mod::lemma_mod_breakdown(v as int, 2, p as int);
        lemma_value_bits_mod(v / 2, (a - 1) as nat);
        let m = v % two_pow(a);
        assert(m % 2 == v % 2);
        assert(m / 2 == (v / 2) % p);
    }
}

// ---------------------------------------------------------------------------
// Trusted operations of `BitVec`
// ---------------------------------------------------------------------------

/// Calls `BitVec::new`: an empty packet.
#[verifier::external_body]
pub(crate) fn bits_new() -> (r: Packet)
    ensures
        bits_of(r) == Seq::<bool>::empty(),
{
    Packet { raw: BitVec::new() }
}

/// Calls `BitVec::len`: the number of bits.
#[verifier::external_body]
pub(crate) fn bits_len(v: &Packet) -> (r: usize)
    ensures
        r == bits_of(*v).len(),
{
    v.raw.len()
}

/// Indexes a `BitVec`: the bit at `i`. Indexing panics past the end, which
/// `requires` leaves out.
#[verifier::external_body]
pub(crate) fn bits_get(v: &Packet, i: usize) -> (r: bool)
    requires
        i < bits_of(*v).len(),
    ensures
        r == bits_of(*v)[i as int],
{
    v.raw[i]
}

/// Calls `BitVec::push`: appends one bit.
#[verifier::external_body]
pub(crate) fn bits_push(v: &mut Packet, b: bool)
    ensures
        bits_of(*final(v)) == bits_of(*old(v)).push(b),
{
    v.raw.push(b)
}

/// Calls `BitVec::clear`: removes every bit.
#[verifier::external_body]
pub(crate) fn bits_clear(v: &mut Packet)
    ensures
        bits_of(*final(v)) == Seq::<bool>::empty(),
{
    v.raw.clear()
}

/// Calls `BitVec::extend_from_bitslice`: appends the bits of `other`.
#[verifier::external_body]
pub(crate) fn bits_append(v: &mut Packet, other: &Packet)
    ensures
        bits_of(*final(v)) == bits_of(*old(v)) + bits_of(*other),
{
    v.raw.extend_from_bitslice(other.raw.as_bitslice())
}

/// Calls `BitSlice::to_bitvec` on the bits from `start` up to `end`; slicing
/// panics out of bounds, which `requires` leaves out.
#[verifier::external_body]
pub(crate) fn bits_slice(v: &Packet, start: usize, end: usize) -> (r: Packet)
    requires
        start <= end <= bits_of(*v).len(),
    ensures
        bits_of(r) == bits_of(*v).subrange(start as int, end as int),
{
    Packet { raw: v.raw[start..end].to_bitvec() }
}

/// Calls `BitField::load_le::<u64>` on the `width` bits at `start`: with the
/// `Lsb0` order the loaded number has bit `i` equal to the slice's bit `i`.
/// The call panics on an empty slice or one wider than 64 bits, and slicing
/// panics out of bounds: `requires` leaves those out.
#[verifier::external_body]
pub(crate) fn bits_load(v: &Packet, start: usize, width: usize) -> (r: u64)
    requires
        1 <= width <= 64,
        start + width <= bits_of(*v).len(),
    ensures
        r == field(bits_of(*v), start as int, width as int),
{
    v.raw[start..start + width].load_le::<u64>()
}

/// Appends the bits of `x` through `BitView::view_bits::<Lsb0>`: its eight
/// bits, least significant first.
#[verifier::external_body]
pub(crate) fn bits_extend_u8(v: &mut Packet, x: u8)
    ensures
        bits_of(*final(v)) == bits_of(*old(v)) + value_bits(x as nat, 8),
{
    v.raw.extend(x.view_bits::<Lsb0>())
}

/// Appends the sixteen bits of `x`, least significant first.
#[verifier::external_body]
pub(crate) fn bits_extend_u16(v: &mut Packet, x: u16)
    ensures
        bits_of(*final(v)) == bits_of(*old(v)) + value_bits(x as nat, 16),
{
    v.raw.extend(x.view_bits::<Lsb0>())
}

/// Appends the thirty-two bits of `x`, least significant first.
#[verifier::external_body]
pub(crate) fn bits_extend_u32(v: &mut Packet, x: u32)
    ensures
        bits_of(*final(v)) == bits_of(*old(v)) + value_bits(x as nat, 32),
{
    v.raw.extend(x.view_bits::<Lsb0>())
}

/// Appends the sixty-four bits of `x`, least significant first.
#[verifier::external_body]
pub(crate) fn bits_extend_u64(v: &mut Packet, x: u64)
    ensures
        bits_of(*final(v)) == bits_of(*old(v)) + value_bits(x as nat, 64),
{
    v.raw.extend(x.view_bits::<Lsb0>())
}

/// Reads the field of width `width` at `start` (at most 64 bits).
pub(crate) fn read_field(v: &Packet, start: usize, width: usize) -> (r: u64)
    requires
        1 <= width <= 64,
        start + width <= bits_of(*v).len(),
    ensures
        r == field(bits_of(*v), start as int, width as int),
        r < two_pow(width as nat),
{
    proof {
        lemma_field_bound(bits_of(*v), start as int, width as int);
    }
    bits_load(v, start, width)
}

impl Packet {
    /// A packet with no bits.
    pub fn new() -> (r: Packet)
        ensures
            bits_of(r) == Seq::<bool>::empty(),
    {
        bits_new()
    }

    /// A packet holding the given bits, index 0 first.
    pub fn from_bools(bits: &Vec<bool>) -> (r: Packet)
        ensures
            bits_of(r) == bits@,
    {
        let mut r = bits_new();
        let mut i: usize = 0;
        while i < bits.len()
            invariant
                i <= bits.len(),
                bits_of(r) == bits@.take(i as int),
            decreases bits.len() - i,
        {
            bits_push(&mut r, bits[i]);
            assert(bits@.take(i + 1) =~= bits@.take(i as int).push(bits@[i as int]));
            i = i + 1;
        }
        assert(bits@.take(bits.len() as int) =~= bits@);
        r
    }

    /// The packet's bits, index 0 first.
    pub fn to_bools(&self) -> (r: Vec<bool>)
        ensures
            r@ == bits_of(*self),
    {
        let n = bits_len(self);
        let mut r: Vec<bool> = Vec::new();
        let mut i: usize = 0;
        while i < n
            invariant
                i <= n,
                n == bits_of(*self).len(),
                r@ == bits_of(*self).take(i as int),
            decreases n - i,
        {
            r.push(bits_get(self, i));
            assert(bits_of(*self).take(i + 1) =~= bits_of(*self).take(i as int).push(bits_of(*self)[i as int]));
            i = i + 1;
        }
        assert(bits_of(*self).take(n as int) =~= bits_of(*self));
        r
    }

    /// The number of bits.
    pub fn len(&self) -> (r: usize)
        ensures
            r == bits_of(*self).len(),
    {
        bits_len(self)
    }

    /// A packet holding the same bits.
    pub fn copy(&self) -> (r: Packet)
        ensures
            bits_of(r) == bits_of(*self),
    {
        let n = bits_len(self);
        assert(bits_of(*self).subrange(0, n as int) =~= bits_of(*self));
        bits_slice(self, 0, n)
    }
}

} // verus!
