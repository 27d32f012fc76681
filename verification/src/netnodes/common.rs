//! Datagrams: each starts with the 8-bit tick on which its updates apply. On
//! every tick the receiver counts the datagrams that came in, keeps those
//! that apply later, and moves its own tick to stay a little behind the
//! sender's.
use vstd::prelude::*;

use crate::bits::{bits_len, bits_of, field, lemma_small_powers, read_field, Packet};

verus! {

/// Bits of a datagram's header: the tick on which it applies.
pub const DGRAM_HEADER_SIZE: usize = 8;

/// The tick on which a datagram applies (its first 8 bits, as a signed number).
pub open spec fn apply_tick(p: Seq<bool>) -> i8 {
    (field(p, 0, 8) as u8) as i8
}

/// How many ticks after `tick` a datagram for `apply` applies, wrapping around.
pub open spec fn relative_tick(apply: i8, tick: i8) -> i8 {
    apply.wrapping_sub(tick)
}

/// Counts of the datagrams `ps` at tick `tick`: those with a header, those
/// among them that are late (apply now or earlier), and whether one applies
/// within the next two ticks.
pub open spec fn datagram_counts(tick: i8, ps: Seq<Seq<bool>>) -> (nat, nat, bool)
    decreases ps.len(),
{
    if ps.len() == 0 {
        (0, 0, false)
    } else {
        let (total, late, soon) = datagram_counts(tick, ps.drop_last());
        let p = ps.last();
        if p.len() < 8 {
            (total, late, soon)
        } else if relative_tick(apply_tick(p), tick) <= 0 {
            (total + 1, late + 1, soon)
        } else {
            (total + 1, late, soon || relative_tick(apply_tick(p), tick) <= 2)
        }
    }
}

/// The datagrams kept, by index, with the tick on which each applies: those
/// with a header that are not late.
pub open spec fn kept_datagrams(tick: i8, ps: Seq<Seq<bool>>) -> Seq<(usize, i8)>
    decreases ps.len(),
{
    if ps.len() == 0 {
        Seq::empty()
    } else {
        let p = ps.last();
        let before = kept_datagrams(tick, ps.drop_last());
        if p.len() >= 8 && relative_tick(apply_tick(p), tick) > 0 {
            before.push(((ps.len() - 1) as usize, apply_tick(p)))
        } else {
            before
        }
    }
}

pub open spec fn packet_bits(ps: Seq<Packet>) -> Seq<Seq<bool>> {
    ps.map_values(|p: Packet| bits_of(p))
}

/// The tick after the datagrams `ps` came in at `tick`: one more, then one
/// more again when some came in, none late and none applying within two
/// ticks, then one less when more than one in 25 was late.
pub open spec fn spec_next_tick(tick: i8, ps: Seq<Seq<bool>>) -> i8 {
    let t1 = tick.wrapping_add(1);
    let (total, late, soon) = datagram_counts(t1, ps);
    let t2 = if !soon && total > 0 && late == 0 {
        t1.wrapping_add(1)
    } else {
        t1
    };
    if late * 25 > total {
        t2.wrapping_sub(1)
    } else {
        t2
    }
}

/// Law: handling a tick's datagrams moves the tick on by none, one or two
/// (counted wrapping around).
pub proof fn lemma_tick_steps(tick: i8, ps: Seq<Seq<bool>>)
    ensures
        0 <= spec_next_tick(tick, ps).wrapping_sub(tick) <= 2,
{
}

/// Reads the tick of each datagram and counts it, from the datagram at
/// index `from` on; gives the counts at the end and the kept datagrams.
pub(crate) fn scan_datagrams(tick: i8, packets: &Vec<Packet>) -> (r: (usize, usize, bool, Vec<(usize, i8)>))
    ensures
        ({
            let (total, late, soon) = datagram_counts(tick, packet_bits(packets@));
            &&& r.0 == total
            &&& r.1 == late
            &&& r.2 == soon
            &&& r.3@ == kept_datagrams(tick, packet_bits(packets@))
        }),
{
    let mut total: usize = 0;
    let mut late: usize = 0;
    let mut soon = false;
    let mut kept: Vec<(usize, i8)> = Vec::new();
    let mut i: usize = 0;
    while i < packets.len()
        invariant
            i <= packets.len(),
            total <= i,
            late <= total,
            ({
                let (t, l, s) = datagram_counts(tick, packet_bits(packets@.take(i as int)));
                &&& total == t
                &&& late == l
                &&& soon == s
                &&& kept@ == kept_datagrams(tick, packet_bits(packets@.take(i as int)))
            }),
        decreases packets.len() - i,
    {
        let p = &packets[i];
        proof {
            let ps = packet_bits(packets@.take(i + 1));
            assert(ps.drop_last() =~= packet_bits(packets@.take(i as int)));
            assert(ps.last() == bits_of(packets@[i as int]));
        }
        if bits_len(p) >= DGRAM_HEADER_SIZE {
            proof {
                lemma_small_powers();
            }
            let apply = (read_field(p, 0, 8) as u8) as i8;
            let relative = apply.wrapping_sub(tick);
            total = total + 1;
            if relative <= 0 {
                late = late + 1;
            } else {
                if relative <= 2 {
                    soon = true;
                }
                kept.push((i, apply));
            }
        }
        i = i + 1;
    }
    assert(packets@.take(packets.len() as int) =~= packets@);
    (total, late, soon, kept)
}

/// Handles the datagrams that came in during a tick: moves the tick on as
/// `spec_next_tick` says, and gives the datagrams to keep until their tick,
/// by index, each with the tick on which it applies.
pub fn handle_datagrams(tick_number: &mut i8, packets: &Vec<Packet>) -> (r: Vec<(usize, i8)>)
    ensures
        *final(tick_number) == spec_next_tick(*old(tick_number), packet_bits(packets@)),
        r@ == kept_datagrams(old(tick_number).wrapping_add(1), packet_bits(packets@)),
{
    *tick_number = tick_number.wrapping_add(1);
    let (total, late, soon, kept) = scan_datagrams(*tick_number, packets);
    if !soon && total > 0 && late == 0 {
        *tick_number = tick_number.wrapping_add(1);
    }
    if (late as u128) * 25 > total as u128 {
        *tick_number = tick_number.wrapping_sub(1);
    }
    kept
}

} // verus!
