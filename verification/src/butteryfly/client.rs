//! The client's per-tick sending in the `butteryfly` networking:
//! queued messages are taken off the queue as long as the bandwidth lasts
//! (the first that does not fit is dropped), then datagrams with the updates
//! of the nodes it owns, in the order they are kept.
//!
//! Sending is a loop: `start_send`, then `send_step` until it gives `None`.
use vstd::prelude::*;

use crate::bits::{bits_append, bits_extend_u8, bits_len, bits_new, bits_of, value_bits, Packet};
use crate::butteryfly::server::{
    find_payload, grown, has_payload, min_usize, payload_of, payload_views, same_key,
    MINIMUM_CONNECTION_BANDWIDTH, PACKET_MAX_SIZE_THRESHOLD,
};
use crate::netnodes::client::{
    lemma_without_first_owned, owned_covered, queue_view, without_first_owned, ClientSendView,
};

verus! {

/// The client's own sending state: queued messages, the nodes it owns with
/// their priorities, its budget and its datagram tick.
pub struct NetNodeClient {
    pub message_buffer: Vec<(Packet, u64)>,
    pub owned_nodes: Vec<(u64, i64)>,
    pub bandwidth_budget_per_tick: usize,
    pub current_tick: i8,
}

impl View for NetNodeClient {
    type V = ClientSendView;

    open spec fn view(&self) -> ClientSendView {
        ClientSendView {
            buffer: queue_view(self.message_buffer@),
            owned: self.owned_nodes@,
            budget: self.bandwidth_budget_per_tick,
            tick: self.current_tick,
        }
    }
}

/// Where the client's turn at sending is: queued messages, then datagrams.
pub enum TurnStage {
    Messages,
    Sync,
    Finished,
}

/// The client's turn at sending: its stage, the bandwidth left this tick,
/// and the largest datagram the connection takes.
pub struct TurnCursor {
    pub stage: TurnStage,
    pub remaining: usize,
    pub max_dgram: usize,
}

pub struct TurnCursorView {
    pub stage: TurnStage,
    pub remaining: usize,
    pub max_dgram: usize,
}

impl View for TurnCursor {
    type V = TurnCursorView;

    open spec fn view(&self) -> TurnCursorView {
        TurnCursorView { stage: self.stage, remaining: self.remaining, max_dgram: self.max_dgram }
    }
}

/// What to send next: a message taken off the queue, with its stream, or a
/// datagram.
pub enum TurnAction {
    Message(Packet, u64),
    Datagram(Packet),
}

pub enum TurnActionView {
    Message(Seq<bool>, u64),
    Datagram(Seq<bool>),
}

impl View for TurnAction {
    type V = TurnActionView;

    open spec fn view(&self) -> TurnActionView {
        match self {
            TurnAction::Message(p, s) => TurnActionView::Message(bits_of(*p), *s),
            TurnAction::Datagram(p) => TurnActionView::Datagram(bits_of(*p)),
        }
    }
}

pub open spec fn opt_turn_action(a: Option<TurnAction>) -> Option<TurnActionView> {
    match a {
        Some(x) => Some(x@),
        None => None,
    }
}

/// Filling a datagram from the owned nodes in order: a node with a nonzero
/// priority is added and its priority set to 0 while it fits under `limit`;
/// the first that does not fit stops the filling.
pub open spec fn fill_in_order(owned: Seq<(u64, i64)>, ps: Seq<(u64, Seq<bool>)>, limit: int, acc: Seq<bool>) -> (Seq<(u64, i64)>, Seq<bool>)
    decreases owned.len(),
{
    if owned.len() == 0 {
        (owned, acc)
    } else {
        let (node, priority) = owned[0];
        if priority == 0 {
            let (rest, packet) = fill_in_order(owned.drop_first(), ps, limit, acc);
            (seq![owned[0]] + rest, packet)
        } else {
            let tmp = payload_of(ps, node);
            if tmp.len() + acc.len() > limit {
                (owned, acc)
            } else {
                let (rest, packet) = fill_in_order(owned.drop_first(), ps, limit, acc + tmp);
                (seq![(node, 0i64)] + rest, packet)
            }
        }
    }
}

pub struct TurnStepView {
    pub action: Option<TurnActionView>,
    pub client: ClientSendView,
    pub cursor: TurnCursorView,
}

/// A step of the sync stage.
pub open spec fn spec_turn_sync(c: ClientSendView, cur: TurnCursorView, ps: Seq<(u64, Seq<bool>)>) -> TurnStepView {
    if cur.remaining <= 80 {
        TurnStepView {
            action: None,
            client: ClientSendView { budget: grown(c.budget), ..c },
            cursor: TurnCursorView { stage: TurnStage::Finished, ..cur },
        }
    } else {
        let t = c.tick.wrapping_add(1);
        let header = value_bits((t as u8) as nat, 8);
        let limit = min_usize(cur.remaining, cur.max_dgram);
        let (owned, packet) = fill_in_order(c.owned, ps, limit, header);
        let c2 = ClientSendView { owned: owned, tick: t, ..c };
        if packet.len() > 8 {
            TurnStepView {
                action: Some(TurnActionView::Datagram(packet)),
                client: c2,
                cursor: TurnCursorView { remaining: (cur.remaining - packet.len()) as usize, ..cur },
            }
        } else {
            TurnStepView {
                action: None,
                client: c2,
                cursor: TurnCursorView { stage: TurnStage::Finished, ..cur },
            }
        }
    }
}

/// A step of the client's turn.
pub open spec fn spec_turn_step(c: ClientSendView, cur: TurnCursorView, ps: Seq<(u64, Seq<bool>)>) -> TurnStepView {
    match cur.stage {
        TurnStage::Messages => if c.buffer.len() > 0 && cur.remaining >= c.buffer[0].0.len() {
            TurnStepView {
                action: Some(TurnActionView::Message(c.buffer[0].0, c.buffer[0].1)),
                client: ClientSendView { buffer: c.buffer.drop_first(), ..c },
                cursor: TurnCursorView { remaining: (cur.remaining - c.buffer[0].0.len()) as usize, ..cur },
            }
        } else {
            spec_turn_sync(
                ClientSendView {
                    buffer: if c.buffer.len() > 0 {
                        c.buffer.drop_first()
                    } else {
                        c.buffer
                    },
                    ..c
                },
                TurnCursorView { stage: TurnStage::Sync, ..cur },
                ps,
            )
        },
        TurnStage::Sync => spec_turn_sync(c, cur, ps),
        TurnStage::Finished => TurnStepView { action: None, client: c, cursor: cur },
    }
}

proof fn lemma_fill_in_order(owned: Seq<(u64, i64)>, ps: Seq<(u64, Seq<bool>)>, limit: int, acc: Seq<bool>)
    ensures
        ({
            let (o, p) = fill_in_order(owned, ps, limit, acc);
            &&& o.len() == owned.len()
            &&& forall|i: int| 0 <= i < owned.len() ==> (#[trigger] o[i]).0 == owned[i].0
            &&& p.len() >= acc.len()
            &&& (p.len() == acc.len() || p.len() <= limit)
        }),
    decreases owned.len(),
{
    if owned.len() > 0 {
        let (node, priority) = owned[0];
        let tmp = payload_of(ps, node);
        lemma_fill_in_order(owned.drop_first(), ps, limit, acc);
        lemma_fill_in_order(owned.drop_first(), ps, limit, acc + tmp);
        let (o1, _) = fill_in_order(owned.drop_first(), ps, limit, acc);
        let (o2, _) = fill_in_order(owned.drop_first(), ps, limit, acc + tmp);
        assert forall|i: int| 0 < i < owned.len() implies (seq![owned[0]] + o1)[i] == o1[i - 1] by {}
        assert forall|i: int| 0 < i < owned.len() implies (seq![(node, 0i64)] + o2)[i] == o2[i - 1] by {}
    }
}

/// Fills a datagram from the owned nodes, in order.
fn fill_nodes_in_order(owned: &mut Vec<(u64, i64)>, payloads: &Vec<(u64, Packet)>, limit: usize, packet: &mut Packet)
    requires
        owned_covered(payload_views(payloads@), old(owned)@),
    ensures
        fill_in_order(old(owned)@, payload_views(payloads@), limit as int, bits_of(*old(packet))) == (
            final(owned)@,
            bits_of(*final(packet)),
        ),
{
    let ghost ps = payload_views(payloads@);
    let ghost orig = owned@;
    let ghost acc0 = bits_of(*packet);
    let mut i: usize = 0;
    proof {
        assert(orig.skip(0) =~= orig);
        assert(owned@.take(0) + orig =~= orig);
    }
    while i < owned.len()
        invariant
            orig == old(owned)@,
            acc0 == bits_of(*old(packet)),
            i <= owned.len(),
            owned@.len() == orig.len(),
            ps == payload_views(payloads@),
            owned_covered(ps, orig),
            forall|j: int| i <= j < orig.len() ==> owned@[j] == orig[j],
            ({
                let whole = fill_in_order(orig, ps, limit as int, acc0);
                let here = fill_in_order(orig.skip(i as int), ps, limit as int, bits_of(*packet));
                &&& whole.0 == owned@.take(i as int) + here.0
                &&& whole.1 == here.1
            }),
        decreases owned.len() - i,
    {
        let ghost before = owned@;
        let ghost acc = bits_of(*packet);
        let (node, priority) = owned[i];
        assert(orig.skip(i as int)[0] == orig[i as int]);
        assert(orig.skip(i as int).drop_first() =~= orig.skip(i + 1));
        if priority != 0 {
            assert(has_payload(ps, orig[i as int].0));
            let k = find_payload(payloads, node);
            let tl = bits_len(&payloads[k].1) as u128;
            let pl = bits_len(packet) as u128;
            if tl + pl > limit as u128 {
                proof {
                    assert(owned@.take(i as int) + orig.skip(i as int) =~= owned@);
                }
                return;
            }
            bits_append(packet, &payloads[k].1);
            owned.set(i, (node, 0i64));
            proof {
                let here = fill_in_order(orig.skip(i + 1), ps, limit as int, bits_of(*packet));
                assert(owned@.take(i + 1) =~= before.take(i as int).push((node, 0i64)));
                assert(before.take(i as int) + (seq![(node, 0i64)] + here.0) =~= owned@.take(i + 1) + here.0);
            }
        } else {
            proof {
                let here = fill_in_order(orig.skip(i + 1), ps, limit as int, acc);
                assert(owned@.take(i + 1) =~= before.take(i as int).push(orig[i as int]));
                assert(before.take(i as int) + (seq![orig[i as int]] + here.0) =~= owned@.take(i + 1) + here.0);
            }
        }
        i = i + 1;
    }
    proof {
        assert(orig.skip(i as int) =~= Seq::<(u64, i64)>::empty());
        assert(owned@.take(i as int) =~= owned@);
        assert(owned@ + Seq::<(u64, i64)>::empty() =~= owned@);
    }
}

impl NetNodeClient {
    /// A client with nothing queued and no owned nodes.
    pub fn new() -> (r: NetNodeClient)
        ensures
            r@.buffer.len() == 0,
            r@.owned.len() == 0,
            r@.budget == 0,
            r@.tick == 0,
    {
        NetNodeClient {
            message_buffer: Vec::new(),
            owned_nodes: Vec::new(),
            bandwidth_budget_per_tick: 0,
            current_tick: 0,
        }
    }

    /// Registers a networked node: when its owner is this client (the
    /// owner's id is the client's UUID), it is synced from here, with no
    /// priority yet; otherwise nothing changes.
    pub fn register_node(&mut self, node: u64, owner_id: &Vec<u8>, uuid: &Vec<u8>)
        ensures
            final(self)@ == (if owner_id@ == uuid@ {
                ClientSendView { owned: old(self)@.owned.push((node, 0i64)), ..old(self)@ }
            } else {
                old(self)@
            }),
    {
        if same_key(owner_id, uuid) {
            self.owned_nodes.push((node, 0));
        }
    }

    /// Stops syncing an owned node: its first entry leaves the owned nodes.
    pub fn remove_owned_node(&mut self, node: u64)
        ensures
            final(self)@ == (ClientSendView { owned: without_first_owned(old(self)@.owned, node), ..old(self)@ }),
    {
        let mut k: usize = 0;
        while k < self.owned_nodes.len()
            invariant
                k <= self.owned_nodes.len(),
                self.owned_nodes@ == old(self).owned_nodes@,
                self.message_buffer@ == old(self).message_buffer@,
                self.bandwidth_budget_per_tick == old(self).bandwidth_budget_per_tick,
                self.current_tick == old(self).current_tick,
                forall|j: int| 0 <= j < k ==> self.owned_nodes@[j].0 != node,
            decreases self.owned_nodes.len() - k,
        {
            if self.owned_nodes[k].0 == node {
                proof {
                    lemma_without_first_owned(self.owned_nodes@, node, k as int);
                }
                self.owned_nodes.remove(k);
                return;
            }
            k = k + 1;
        }
        proof {
            lemma_without_first_owned(self.owned_nodes@, node, k as int);
        }
    }

    /// Queues a message for the server, on the given stream.
    pub fn queue_message(&mut self, message: Packet, stream: u64)
        ensures
            final(self)@ == (ClientSendView { buffer: old(self)@.buffer.push((bits_of(message), stream)), ..old(self)@ }),
    {
        self.message_buffer.push((message, stream));
        assert(queue_view(self.message_buffer@) =~= queue_view(old(self).message_buffer@).push(
            (bits_of(message), stream),
        ));
    }

    /// Starts the turn: the budget is raised to the minimum, then halved
    /// while the connection is pacing, and all of it is left to spend.
    pub fn start_send(&mut self, max_dgram: usize, pacing: bool) -> (r: TurnCursor)
        ensures
            ({
                let b1 = if old(self)@.budget < MINIMUM_CONNECTION_BANDWIDTH {
                    MINIMUM_CONNECTION_BANDWIDTH
                } else {
                    old(self)@.budget
                };
                let b2 = if pacing {
                    b1 / 2
                } else {
                    b1
                };
                &&& final(self)@ == ClientSendView { budget: b2, ..old(self)@ }
                &&& r@ == TurnCursorView { stage: TurnStage::Messages, remaining: b2, max_dgram: max_dgram }
            }),
    {
        if self.bandwidth_budget_per_tick < MINIMUM_CONNECTION_BANDWIDTH {
            self.bandwidth_budget_per_tick = MINIMUM_CONNECTION_BANDWIDTH;
        }
        if pacing {
            self.bandwidth_budget_per_tick = self.bandwidth_budget_per_tick / 2;
        }
        TurnCursor { stage: TurnStage::Messages, remaining: self.bandwidth_budget_per_tick, max_dgram }
    }

    fn take_front(&mut self) -> (r: (Packet, u64))
        requires
            old(self).message_buffer.len() > 0,
        ensures
            (bits_of(r.0), r.1) == old(self)@.buffer[0],
            final(self)@ == (ClientSendView { buffer: old(self)@.buffer.drop_first(), ..old(self)@ }),
    {
        let ghost before = queue_view(self.message_buffer@);
        let r = self.message_buffer.remove(0);
        assert(queue_view(self.message_buffer@) =~= before.drop_first());
        r
    }

    fn sync(&mut self, cursor: &mut TurnCursor, payloads: &Vec<(u64, Packet)>) -> (r: Option<TurnAction>)
        requires
            owned_covered(payload_views(payloads@), old(self)@.owned),
        ensures
            ({
                let v = spec_turn_sync(old(self)@, old(cursor)@, payload_views(payloads@));
                &&& opt_turn_action(r) == v.action
                &&& final(self)@ == v.client
                &&& final(cursor)@ == v.cursor
            }),
            owned_covered(payload_views(payloads@), final(self)@.owned),
    {
        if cursor.remaining <= PACKET_MAX_SIZE_THRESHOLD {
            self.bandwidth_budget_per_tick = self.bandwidth_budget_per_tick.wrapping_add(
                self.bandwidth_budget_per_tick / 10,
            );
            cursor.stage = TurnStage::Finished;
            return None;
        }
        self.current_tick = self.current_tick.wrapping_add(1);
        let mut packet = bits_new();
        bits_extend_u8(&mut packet, self.current_tick as u8);
        let limit = if cursor.remaining < cursor.max_dgram {
            cursor.remaining
        } else {
            cursor.max_dgram
        };
        proof {
            crate::bits::lemma_value_bits_len((self.current_tick as u8) as nat, 8);
            assert(bits_of(packet) =~= value_bits((self.current_tick as u8) as nat, 8));
            lemma_fill_in_order(self.owned_nodes@, payload_views(payloads@), limit as int, bits_of(packet));
        }
        let ghost owned0 = self.owned_nodes@;
        fill_nodes_in_order(&mut self.owned_nodes, payloads, limit, &mut packet);
        proof {
            assert forall|i: int| 0 <= i < self.owned_nodes@.len() implies has_payload(
                payload_views(payloads@),
                (#[trigger] self.owned_nodes@[i]).0,
            ) by {
                assert(self.owned_nodes@[i].0 == owned0[i].0);
            }
        }
        let n = bits_len(&packet);
        if n > 8 {
            cursor.remaining = cursor.remaining - n;
            Some(TurnAction::Datagram(packet))
        } else {
            cursor.stage = TurnStage::Finished;
            None
        }
    }

    /// The next thing to send (see `spec_turn_step`). An update must be
    /// given for every owned node.
    pub fn send_step(&mut self, cursor: &mut TurnCursor, payloads: &Vec<(u64, Packet)>) -> (r: Option<TurnAction>)
        requires
            owned_covered(payload_views(payloads@), old(self)@.owned),
        ensures
            ({
                let v = spec_turn_step(old(self)@, old(cursor)@, payload_views(payloads@));
                &&& opt_turn_action(r) == v.action
                &&& final(self)@ == v.client
                &&& final(cursor)@ == v.cursor
            }),
            owned_covered(payload_views(payloads@), final(self)@.owned),
    {
        match cursor.stage {
            TurnStage::Messages => {
                if self.message_buffer.len() > 0 {
                    let (message, stream) = self.take_front();
                    let size = bits_len(&message);
                    if cursor.remaining >= size {
                        cursor.remaining = cursor.remaining - size;
                        return Some(TurnAction::Message(message, stream));
                    }
                }
                cursor.stage = TurnStage::Sync;
                self.sync(cursor, payloads)
            },
            TurnStage::Sync => self.sync(cursor, payloads),
            TurnStage::Finished => None,
        }
    }
}

/// The updates of the owned nodes that a fill sent, in order: those whose
/// priority was nonzero in `before` and is zero in `after`.
pub open spec fn sent_bits(ps: Seq<(u64, Seq<bool>)>, before: Seq<(u64, i64)>, after: Seq<(u64, i64)>) -> Seq<bool>
    decreases before.len(),
{
    if before.len() == 0 || after.len() == 0 {
        Seq::empty()
    } else {
        (if before[0].1 != 0 && after[0].1 == 0 {
            payload_of(ps, before[0].0)
        } else {
            Seq::empty()
        }) + sent_bits(ps, before.drop_first(), after.drop_first())
    }
}

proof fn lemma_sent_bits_unchanged(ps: Seq<(u64, Seq<bool>)>, owned: Seq<(u64, i64)>)
    ensures
        sent_bits(ps, owned, owned) == Seq::<bool>::empty(),
    decreases owned.len(),
{
    if owned.len() > 0 {
        lemma_sent_bits_unchanged(ps, owned.drop_first());
        assert(Seq::<bool>::empty() + Seq::<bool>::empty() =~= Seq::<bool>::empty());
    }
}

/// A fill leaves every node of priority 0 as it was, and what it adds to the
/// datagram are exactly the updates of the nodes it sent, in order.
proof fn lemma_fill_sends(owned: Seq<(u64, i64)>, ps: Seq<(u64, Seq<bool>)>, limit: int, acc: Seq<bool>)
    ensures
        ({
            let (o, p) = fill_in_order(owned, ps, limit, acc);
            &&& o.len() == owned.len()
            &&& forall|i: int| 0 <= i < owned.len() && owned[i].1 == 0 ==> #[trigger] o[i] == owned[i]
            &&& p == acc + sent_bits(ps, owned, o)
        }),
    decreases owned.len(),
{
    if owned.len() == 0 {
        assert(acc + Seq::<bool>::empty() =~= acc);
    } else {
        let (node, priority) = owned[0];
        let tmp = payload_of(ps, node);
        if priority == 0 {
            lemma_fill_sends(owned.drop_first(), ps, limit, acc);
            let (rest, packet) = fill_in_order(owned.drop_first(), ps, limit, acc);
            let o = seq![owned[0]] + rest;
            assert(o.drop_first() =~= rest);
            assert(forall|i: int| 0 < i < owned.len() ==> o[i] == rest[i - 1]);
            assert(forall|i: int| 0 < i < owned.len() ==> owned[i] == owned.drop_first()[i - 1]);
            assert(sent_bits(ps, owned, o) =~= sent_bits(ps, owned.drop_first(), rest));
        } else if tmp.len() + acc.len() > limit {
            lemma_sent_bits_unchanged(ps, owned);
            assert(acc + Seq::<bool>::empty() =~= acc);
        } else {
            lemma_fill_sends(owned.drop_first(), ps, limit, acc + tmp);
            let (rest, packet) = fill_in_order(owned.drop_first(), ps, limit, acc + tmp);
            let o = seq![(node, 0i64)] + rest;
            assert(o.drop_first() =~= rest);
            assert(forall|i: int| 0 < i < owned.len() ==> o[i] == rest[i - 1]);
            assert(forall|i: int| 0 < i < owned.len() ==> owned[i] == owned.drop_first()[i - 1]);
            assert(sent_bits(ps, owned, o) =~= tmp + sent_bits(ps, owned.drop_first(), rest));
            assert(acc + tmp + sent_bits(ps, owned.drop_first(), rest) =~= acc + sent_bits(ps, owned, o));
        }
    }
}

/// Law: a step of the client's turn changes no owned node of priority 0, and
/// a datagram it sends is the client's new tick (as a byte) followed by the
/// updates of exactly the nodes whose priority it set from nonzero to 0, in
/// the order they are kept: a node that has not changed is not sent.
pub proof fn lemma_turn_sends_changed_nodes(c: ClientSendView, cur: TurnCursorView, ps: Seq<(u64, Seq<bool>)>)
    ensures
        ({
            let v = spec_turn_step(c, cur, ps);
            &&& v.client.owned.len() == c.owned.len()
            &&& forall|i: int| 0 <= i < c.owned.len() && c.owned[i].1 == 0 ==> #[trigger] v.client.owned[i]
                == c.owned[i]
            &&& v.action matches Some(TurnActionView::Datagram(p)) ==> p == value_bits((v.client.tick as u8) as nat, 8)
                + sent_bits(ps, c.owned, v.client.owned)
        }),
{
    let t = c.tick.wrapping_add(1);
    let header = value_bits((t as u8) as nat, 8);
    let limit = min_usize(cur.remaining, cur.max_dgram);
    lemma_fill_sends(c.owned, ps, limit, header);
}

} // verus!
