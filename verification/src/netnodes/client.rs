//! The client's per-tick sending in the `netnodes` networking:
//! queued messages first, as long as the bandwidth lasts (a message whose
//! send fails stays at the front and is tried again), then datagrams with the
//! updates of the nodes it owns, highest priority first.
//!
//! Sending is a loop: `start_send`, then `send_step` until it gives `None`;
//! after each message it gives, the caller reports with `message_sent`
//! whether the connection took it.
use vstd::prelude::*;

use crate::bits::{bits_append, bits_extend_u8, bits_len, bits_new, bits_of, value_bits, Packet};
use crate::butteryfly::server::{
    find_payload, grown, has_payload, min_usize, payload_of, payload_views, MINIMUM_CONNECTION_BANDWIDTH,
    PACKET_MAX_SIZE_THRESHOLD,
};

verus! {

/// The client's own sending state. Owned nodes are kept in ascending order
/// of priority, each with its key and its accumulated priority.
pub struct NetNodeClient {
    pub message_buffer: Vec<(Packet, u64)>,
    pub owned_nodes: Vec<(u64, i64)>,
    pub bandwidth_budget_per_tick: usize,
    pub current_tick: i8,
}

pub struct ClientSendView {
    pub buffer: Seq<(Seq<bool>, u64)>,
    pub owned: Seq<(u64, i64)>,
    pub budget: usize,
    pub tick: i8,
}

pub open spec fn queue_view(b: Seq<(Packet, u64)>) -> Seq<(Seq<bool>, u64)> {
    b.map_values(|m: (Packet, u64)| (bits_of(m.0), m.1))
}

impl View for NetNodeClient {
    type V = ClientSendView;

    open spec fn view(&self) -> ClientSendView {
        ClientSendView {
            buffer: queue_view(self.message_buffer@),
            owned: self.owned_nodes@,
            budget: self.bandwidth_budget_per_tick,
            tick: self.current_tick,
        }
    }
}

pub enum ClientStage {
    Messages,
    AwaitingResult,
    Sync,
    Finished,
}

/// The client's turn at sending: its stage, the bandwidth left, the largest
/// datagram, and whether the bandwidth ran short.
pub struct ClientCursor {
    pub stage: ClientStage,
    pub remaining: usize,
    pub max_dgram: usize,
    pub capacity_reached: bool,
}

pub struct ClientCursorView {
    pub stage: ClientStage,
    pub remaining: usize,
    pub max_dgram: usize,
    pub capacity_reached: bool,
}

impl View for ClientCursor {
    type V = ClientCursorView;

    open spec fn view(&self) -> ClientCursorView {
        ClientCursorView {
            stage: self.stage,
            remaining: self.remaining,
            max_dgram: self.max_dgram,
            capacity_reached: self.capacity_reached,
        }
    }
}

/// What to send next: the message at the front of the queue, or a datagram.
pub enum ClientAction {
    SendFrontMessage,
    Datagram(Packet),
}

pub enum ClientActionView {
    SendFrontMessage,
    Datagram(Seq<bool>),
}

impl View for ClientAction {
    type V = ClientActionView;

    open spec fn view(&self) -> ClientActionView {
        match self {
            ClientAction::SendFrontMessage => ClientActionView::SendFrontMessage,
            ClientAction::Datagram(p) => ClientActionView::Datagram(bits_of(*p)),
        }
    }
}

pub open spec fn opt_client_action(a: Option<ClientAction>) -> Option<ClientActionView> {
    match a {
        Some(x) => Some(x@),
        None => None,
    }
}

/// Filling a datagram from the owned nodes, highest priority first: a node
/// with a nonzero priority is added and its priority set to 0 while it fits
/// the largest datagram and the bandwidth; the first that does not fit stops
/// the filling, and one that fits the datagram but not the bandwidth marks
/// the bandwidth as short. Gives the nodes, the packet and whether the
/// bandwidth ran short.
pub open spec fn fill_owned(
    owned: Seq<(u64, i64)>,
    ps: Seq<(u64, Seq<bool>)>,
    max_dgram: int,
    remaining: int,
    acc: Seq<bool>,
) -> (Seq<(u64, i64)>, Seq<bool>, bool)
    decreases owned.len(),
{
    if owned.len() == 0 {
        (owned, acc, false)
    } else {
        let (node, priority) = owned.last();
        if priority == 0 {
            let (rest, packet, short) = fill_owned(owned.drop_last(), ps, max_dgram, remaining, acc);
            (rest.push(owned.last()), packet, short)
        } else {
            let tmp = payload_of(ps, node);
            if tmp.len() + acc.len() > max_dgram {
                (owned, acc, false)
            } else if tmp.len() + acc.len() > remaining {
                (owned, acc, true)
            } else {
                let (rest, packet, short) = fill_owned(owned.drop_last(), ps, max_dgram, remaining, acc + tmp);
                (rest.push((node, 0i64)), packet, short)
            }
        }
    }
}

/// The owned nodes without the first entry for `node`.
pub open spec fn without_first_owned(owned: Seq<(u64, i64)>, node: u64) -> Seq<(u64, i64)>
    decreases owned.len(),
{
    if owned.len() == 0 {
        owned
    } else if owned[0].0 == node {
        owned.drop_first()
    } else {
        seq![owned[0]] + without_first_owned(owned.drop_first(), node)
    }
}

pub proof fn lemma_without_first_owned(s: Seq<(u64, i64)>, node: u64, k: int)
    requires
        0 <= k <= s.len(),
        forall|j: int| 0 <= j < k ==> s[j].0 != node,
        k < s.len() ==> s[k].0 == node,
    ensures
        without_first_owned(s, node) == (if k < s.len() {
            s.remove(k)
        } else {
            s
        }),
    decreases k,
{
    if k == 0 {
        if s.len() > 0 {
            assert(s.remove(0) =~= s.drop_first());
        }
    } else {
        let d = s.drop_first();
        assert forall|j: int| 0 <= j < k - 1 implies d[j].0 != node by {
            assert(d[j] == s[j + 1]);
        }
        lemma_without_first_owned(d, node, k - 1);
        if k < s.len() {
            assert(seq![s[0]] + d.remove(k - 1) =~= s.remove(k));
        } else {
            assert(seq![s[0]] + d =~= s);
        }
    }
}

pub open spec fn owned_covered(ps: Seq<(u64, Seq<bool>)>, owned: Seq<(u64, i64)>) -> bool {
    forall|i: int| 0 <= i < owned.len() ==> has_payload(ps, (#[trigger] owned[i]).0)
}

pub struct ClientStepView {
    pub action: Option<ClientActionView>,
    pub client: ClientSendView,
    pub cursor: ClientCursorView,
}

/// A step of the client's turn.
pub open spec fn spec_client_step(c: ClientSendView, cur: ClientCursorView, ps: Seq<(u64, Seq<bool>)>) -> ClientStepView {
    match cur.stage {
        ClientStage::Messages => if c.buffer.len() > 0 && cur.remaining >= c.buffer[0].0.len() {
            ClientStepView {
                action: Some(ClientActionView::SendFrontMessage),
                client: c,
                cursor: ClientCursorView {
                    stage: ClientStage::AwaitingResult,
                    remaining: (cur.remaining - c.buffer[0].0.len()) as usize,
                    ..cur
                },
            }
        } else {
            spec_client_sync(
                c,
                ClientCursorView {
                    stage: ClientStage::Sync,
                    capacity_reached: cur.capacity_reached || c.buffer.len() > 0,
                    ..cur
                },
                ps,
            )
        },
        ClientStage::Sync => spec_client_sync(c, cur, ps),
        _ => ClientStepView { action: None, client: c, cursor: cur },
    }
}

/// A step of the sync stage.
pub open spec fn spec_client_sync(c: ClientSendView, cur: ClientCursorView, ps: Seq<(u64, Seq<bool>)>) -> ClientStepView {
    let finish = ClientStepView {
        action: None,
        client: ClientSendView {
            budget: if cur.capacity_reached {
                grown(c.budget)
            } else {
                c.budget
            },
            ..c
        },
        cursor: ClientCursorView { stage: ClientStage::Finished, ..cur },
    };
    if cur.remaining <= 80 {
        finish
    } else {
        let header = value_bits((c.tick as u8) as nat, 8);
        let (owned, packet, short) = fill_owned(c.owned, ps, cur.max_dgram as int, cur.remaining as int, header);
        let c2 = ClientSendView { owned: owned, ..c };
        let cur2 = ClientCursorView { capacity_reached: cur.capacity_reached || short, ..cur };
        if packet.len() > 8 {
            ClientStepView {
                action: Some(ClientActionView::Datagram(packet)),
                client: c2,
                cursor: ClientCursorView { remaining: (cur.remaining - packet.len()) as usize, ..cur2 },
            }
        } else {
            ClientStepView {
                action: None,
                client: ClientSendView {
                    budget: if cur2.capacity_reached {
                        grown(c.budget)
                    } else {
                        c.budget
                    },
                    ..c2
                },
                cursor: ClientCursorView { stage: ClientStage::Finished, ..cur2 },
            }
        }
    }
}

proof fn lemma_fill_owned(owned: Seq<(u64, i64)>, ps: Seq<(u64, Seq<bool>)>, max_dgram: int, remaining: int, acc: Seq<bool>)
    ensures
        ({
            let (o, p, _) = fill_owned(owned, ps, max_dgram, remaining, acc);
            &&& o.len() == owned.len()
            &&& forall|i: int| 0 <= i < owned.len() ==> (#[trigger] o[i]).0 == owned[i].0
            &&& p.len() >= acc.len()
            &&& (p.len() == acc.len() || p.len() <= remaining)
        }),
    decreases owned.len(),
{
    if owned.len() > 0 {
        let (node, priority) = owned.last();
        let tmp = payload_of(ps, node);
        lemma_fill_owned(owned.drop_last(), ps, max_dgram, remaining, acc);
        lemma_fill_owned(owned.drop_last(), ps, max_dgram, remaining, acc + tmp);
    }
}

/// Fills a datagram from the owned nodes, highest priority (last) first.
fn fill_owned_nodes(owned: &mut Vec<(u64, i64)>, payloads: &Vec<(u64, Packet)>, max_dgram: usize, remaining: usize, packet: &mut Packet) -> (short: bool)
    requires
        owned_covered(payload_views(payloads@), old(owned)@),
    ensures
        fill_owned(old(owned)@, payload_views(payloads@), max_dgram as int, remaining as int, bits_of(*old(packet)))
            == (final(owned)@, bits_of(*final(packet)), short),
{
    let ghost ps = payload_views(payloads@);
    let ghost orig = owned@;
    let ghost acc0 = bits_of(*packet);
    let mut i = owned.len();
    proof {
        let whole = fill_owned(orig, ps, max_dgram as int, remaining as int, acc0);
        assert(orig.take(owned.len() as int) =~= orig);
        assert(owned@.skip(owned.len() as int) =~= Seq::<(u64, i64)>::empty());
        assert(whole.0 + Seq::<(u64, i64)>::empty() =~= whole.0);
    }
    while i > 0
        invariant
            orig == old(owned)@,
            acc0 == bits_of(*old(packet)),
            i <= owned.len(),
            owned@.len() == orig.len(),
            ps == payload_views(payloads@),
            owned_covered(ps, orig),
            forall|j: int| 0 <= j < i ==> owned@[j] == orig[j],
            ({
                let whole = fill_owned(orig, ps, max_dgram as int, remaining as int, acc0);
                let here = fill_owned(orig.take(i as int), ps, max_dgram as int, remaining as int, bits_of(*packet));
                &&& whole.0 == here.0 + owned@.skip(i as int)
                &&& whole.1 == here.1
                &&& whole.2 == here.2
            }),
        decreases i,
    {
        let ghost i0 = i as int;
        let ghost acc = bits_of(*packet);
        let ghost before = owned@;
        i = i - 1;
        let (node, priority) = owned[i];
        assert(orig.take(i0).drop_last() =~= orig.take(i as int));
        assert(orig.take(i0).last() == orig[i as int]);
        if priority != 0 {
            assert(has_payload(ps, orig[i as int].0));
            let k = find_payload(payloads, node);
            let tl = bits_len(&payloads[k].1) as u128;
            let pl = bits_len(packet) as u128;
            if tl + pl > max_dgram as u128 {
                proof {
                    lemma_take_skip_join(orig, before, i0);
                }
                return false;
            }
            if tl + pl > remaining as u128 {
                proof {
                    lemma_take_skip_join(orig, before, i0);
                }
                return true;
            }
            bits_append(packet, &payloads[k].1);
            owned.set(i, (node, 0i64));
            proof {
                let here = fill_owned(orig.take(i as int), ps, max_dgram as int, remaining as int, bits_of(*packet));
                assert(owned@.skip(i as int) =~= seq![(node, 0i64)] + before.skip(i0));
                assert(here.0.push((node, 0i64)) + before.skip(i0) =~= here.0 + owned@.skip(i as int));
            }
        } else {
            proof {
                let here = fill_owned(orig.take(i as int), ps, max_dgram as int, remaining as int, acc);
                assert(owned@.skip(i as int) =~= seq![orig[i as int]] + before.skip(i0));
                assert(here.0.push(orig[i as int]) + before.skip(i0) =~= here.0 + owned@.skip(i as int));
            }
        }
    }
    assert(orig.take(0) =~= Seq::<(u64, i64)>::empty());
    assert(owned@.skip(0) =~= owned@);
    false
}

/// Stopping at position `n`: what was left untouched before it and what was
/// filled from it on make up the list.
proof fn lemma_take_skip_join(orig: Seq<(u64, i64)>, cur: Seq<(u64, i64)>, n: int)
    requires
        0 <= n <= orig.len(),
        cur.len() == orig.len(),
        forall|j: int| 0 <= j < n ==> cur[j] == orig[j],
    ensures
        orig.take(n) + cur.skip(n) == cur,
{
    assert(orig.take(n) + cur.skip(n) =~= cur);
}

impl NetNodeClient {
    pub fn new() -> (r: NetNodeClient)
        ensures
            r@.buffer.len() == 0,
            r@.owned.len() == 0,
            r@.budget == 0,
            r@.tick == 0,
    {
        NetNodeClient {
            message_buffer: Vec::new(),
            owned_nodes: Vec::new(),
            bandwidth_budget_per_tick: 0,
            current_tick: 0,
        }
    }

    /// Stops syncing an owned node: its first entry leaves the owned nodes.
    pub fn remove_owned_node(&mut self, node: u64)
        ensures
            final(self)@ == (ClientSendView { owned: without_first_owned(old(self)@.owned, node), ..old(self)@ }),
    {
        let mut k: usize = 0;
        while k < self.owned_nodes.len()
            invariant
                k <= self.owned_nodes.len(),
                self.owned_nodes@ == old(self).owned_nodes@,
                self.message_buffer@ == old(self).message_buffer@,
                self.bandwidth_budget_per_tick == old(self).bandwidth_budget_per_tick,
                self.current_tick == old(self).current_tick,
                forall|j: int| 0 <= j < k ==> self.owned_nodes@[j].0 != node,
            decreases self.owned_nodes.len() - k,
        {
            if self.owned_nodes[k].0 == node {
                proof {
                    lemma_without_first_owned(self.owned_nodes@, node, k as int);
                }
                self.owned_nodes.remove(k);
                return;
            }
            k = k + 1;
        }
        proof {
            lemma_without_first_owned(self.owned_nodes@, node, k as int);
        }
    }

    /// Queues a message for the server, on the given stream.
    pub fn queue_message(&mut self, message: Packet, stream: u64)
        ensures
            final(self)@ == (ClientSendView { buffer: old(self)@.buffer.push((bits_of(message), stream)), ..old(self)@ }),
    {
        self.message_buffer.push((message, stream));
        assert(queue_view(self.message_buffer@) =~= queue_view(old(self).message_buffer@).push(
            (bits_of(message), stream),
        ));
    }

    /// Starts the turn: the tick moves on (wrapping), the budget is raised
    /// to the minimum, then halved while the connection is pacing, and all
    /// of it is left to spend.
    pub fn start_send(&mut self, max_dgram: usize, pacing: bool) -> (r: ClientCursor)
        ensures
            ({
                let b1 = if old(self)@.budget < MINIMUM_CONNECTION_BANDWIDTH {
                    MINIMUM_CONNECTION_BANDWIDTH
                } else {
                    old(self)@.budget
                };
                let b2 = if pacing {
                    b1 / 2
                } else {
                    b1
                };
                &&& final(self)@ == ClientSendView { budget: b2, tick: old(self)@.tick.wrapping_add(1), ..old(self)@ }
                &&& r@ == ClientCursorView {
                    stage: ClientStage::Messages,
                    remaining: b2,
                    max_dgram: max_dgram,
                    capacity_reached: false,
                }
            }),
    {
        self.current_tick = self.current_tick.wrapping_add(1);
        if self.bandwidth_budget_per_tick < MINIMUM_CONNECTION_BANDWIDTH {
            self.bandwidth_budget_per_tick = MINIMUM_CONNECTION_BANDWIDTH;
        }
        if pacing {
            self.bandwidth_budget_per_tick = self.bandwidth_budget_per_tick / 2;
        }
        ClientCursor {
            stage: ClientStage::Messages,
            remaining: self.bandwidth_budget_per_tick,
            max_dgram,
            capacity_reached: false,
        }
    }

    fn sync(&mut self, cursor: &mut ClientCursor, payloads: &Vec<(u64, Packet)>) -> (r: Option<ClientAction>)
        requires
            owned_covered(payload_views(payloads@), old(self)@.owned),
        ensures
            ({
                let v = spec_client_sync(old(self)@, old(cursor)@, payload_views(payloads@));
                &&& opt_client_action(r) == v.action
                &&& final(self)@ == v.client
                &&& final(cursor)@ == v.cursor
            }),
            owned_covered(payload_views(payloads@), final(self)@.owned),
    {
        if cursor.remaining <= PACKET_MAX_SIZE_THRESHOLD {
            if cursor.capacity_reached {
                self.bandwidth_budget_per_tick = self.bandwidth_budget_per_tick.wrapping_add(
                    self.bandwidth_budget_per_tick / 10,
                );
            }
            cursor.stage = ClientStage::Finished;
            return None;
        }
        let mut packet = bits_new();
        bits_extend_u8(&mut packet, self.current_tick as u8);
        proof {
            crate::bits::lemma_value_bits_len((self.current_tick as u8) as nat, 8);
            assert(bits_of(packet) =~= value_bits((self.current_tick as u8) as nat, 8));
            lemma_fill_owned(self.owned_nodes@, payload_views(payloads@), cursor.max_dgram as int, cursor.remaining as int, bits_of(packet));
        }
        let ghost owned0 = self.owned_nodes@;
        let short = fill_owned_nodes(&mut self.owned_nodes, payloads, cursor.max_dgram, cursor.remaining, &mut packet);
        proof {
            assert forall|i: int| 0 <= i < self.owned_nodes@.len() implies has_payload(
                payload_views(payloads@),
                (#[trigger] self.owned_nodes@[i]).0,
            ) by {
                assert(self.owned_nodes@[i].0 == owned0[i].0);
            }
        }
        if short {
            cursor.capacity_reached = true;
        }
        let n = bits_len(&packet);
        if n > 8 {
            cursor.remaining = cursor.remaining - n;
            Some(ClientAction::Datagram(packet))
        } else {
            if cursor.capacity_reached {
                self.bandwidth_budget_per_tick = self.bandwidth_budget_per_tick.wrapping_add(
                    self.bandwidth_budget_per_tick / 10,
                );
            }
            cursor.stage = ClientStage::Finished;
            None
        }
    }

    /// The next thing to send (see `spec_client_step`). An update must be
    /// given for every owned node.
    pub fn send_step(&mut self, cursor: &mut ClientCursor, payloads: &Vec<(u64, Packet)>) -> (r: Option<ClientAction>)
        requires
            owned_covered(payload_views(payloads@), old(self)@.owned),
        ensures
            ({
                let v = spec_client_step(old(self)@, old(cursor)@, payload_views(payloads@));
                &&& opt_client_action(r) == v.action
                &&& final(self)@ == v.client
                &&& final(cursor)@ == v.cursor
            }),
            owned_covered(payload_views(payloads@), final(self)@.owned),
    {
        match cursor.stage {
            ClientStage::Messages => {
                if self.message_buffer.len() > 0 {
                    let size = bits_len(&self.message_buffer[0].0);
                    if cursor.remaining >= size {
                        cursor.remaining = cursor.remaining - size;
                        cursor.stage = ClientStage::AwaitingResult;
                        return Some(ClientAction::SendFrontMessage);
                    }
                    cursor.capacity_reached = true;
                }
                cursor.stage = ClientStage::Sync;
                self.sync(cursor, payloads)
            },
            ClientStage::Sync => self.sync(cursor, payloads),
            _ => None,
        }
    }

    /// Reports whether the connection took the front message: if it did,
    /// the message leaves the queue; either way the turn goes on with the
    /// next message.
    pub fn message_sent(&mut self, cursor: &mut ClientCursor, sent: bool)
        requires
            old(self)@.buffer.len() > 0,
        ensures
            final(self)@ == (ClientSendView {
                buffer: if sent {
                    old(self)@.buffer.drop_first()
                } else {
                    old(self)@.buffer
                },
                ..old(self)@
            }),
            final(cursor)@ == (ClientCursorView { stage: ClientStage::Messages, ..old(cursor)@ }),
    {
        if sent {
            let ghost before = queue_view(self.message_buffer@);
            self.message_buffer.remove(0);
            assert(queue_view(self.message_buffer@) =~= before.drop_first());
        }
        cursor.stage = ClientStage::Messages;
    }
}

// ---------------------------------------------------------------------------
// Priorities
// ---------------------------------------------------------------------------

/// `x` put into the list `sorted` after every entry whose priority is not
/// above its own.
pub open spec fn insert_by_priority(sorted: Seq<(u64, i64)>, x: (u64, i64)) -> Seq<(u64, i64)>
    decreases sorted.len(),
{
    if sorted.len() == 0 || sorted.last().1 <= x.1 {
        sorted.push(x)
    } else {
        insert_by_priority(sorted.drop_last(), x).push(sorted.last())
    }
}

/// The entries sorted by ascending priority, entries of equal priority in
/// the order they had (a stable sort).
pub open spec fn sort_by_priority(s: Seq<(u64, i64)>) -> Seq<(u64, i64)>
    decreases s.len(),
{
    if s.len() == 0 {
        s
    } else {
        insert_by_priority(sort_by_priority(s.drop_last()), s.last())
    }
}

/// Each priority after adding the script's increment for its node (wrapping
/// around).
pub open spec fn accumulated(s: Seq<(u64, i64)>, increments: Seq<i64>) -> Seq<(u64, i64)> {
    Seq::new(s.len(), |i: int| (s[i].0, s[i].1.wrapping_add(increments[i])))
}

pub open spec fn sorted_by_priority(s: Seq<(u64, i64)>) -> bool {
    forall|i: int, j: int| 0 <= i < j < s.len() ==> s[i].1 <= s[j].1
}

/// Inserts `x` into a vector kept in ascending order of priority.
fn insert_sorted(v: &mut Vec<(u64, i64)>, x: (u64, i64))
    ensures
        final(v)@ == insert_by_priority(old(v)@, x),
{
    let mut i = v.len();
    proof {
        assert(old(v)@.take(i as int) =~= old(v)@);
        assert(old(v)@.skip(i as int) =~= Seq::<(u64, i64)>::empty());
        assert(insert_by_priority(old(v)@, x) + Seq::<(u64, i64)>::empty() =~= insert_by_priority(old(v)@, x));
    }
    while i > 0 && v[i - 1].1 > x.1
        invariant
            i <= v.len(),
            v@ == old(v)@,
            insert_by_priority(old(v)@, x) == insert_by_priority(old(v)@.take(i as int), x) + old(v)@.skip(i as int),
        decreases i,
    {
        proof {
            let t = old(v)@.take(i as int);
            assert(t.drop_last() =~= old(v)@.take(i - 1));
            assert(t.last() == old(v)@[i - 1]);
            assert(insert_by_priority(old(v)@.take(i - 1), x).push(old(v)@[i - 1]) + old(v)@.skip(i as int)
                =~= insert_by_priority(old(v)@.take(i - 1), x) + old(v)@.skip(i - 1));
        }
        i = i - 1;
    }
    proof {
        let t = old(v)@.take(i as int);
        if i > 0 {
            assert(t.last() == old(v)@[i - 1]);
        }
        assert(insert_by_priority(t, x) == t.push(x));
    }
    v.insert(i, x);
    proof {
        assert(old(v)@.insert(i as int, x) =~= old(v)@.take(i as int).push(x) + old(v)@.skip(i as int));
    }
}

/// Adds each owned node's increment to its priority (wrapping around), then
/// sorts the nodes by ascending priority, keeping the order of equal ones.
pub fn tick_priorities(owned_nodes: &mut Vec<(u64, i64)>, increments: &Vec<i64>)
    requires
        increments.len() == old(owned_nodes).len(),
    ensures
        final(owned_nodes)@ == sort_by_priority(accumulated(old(owned_nodes)@, increments@)),
{
    let ghost acc = accumulated(owned_nodes@, increments@);
    let mut sorted: Vec<(u64, i64)> = Vec::new();
    let mut i: usize = 0;
    while i < owned_nodes.len()
        invariant
            i <= owned_nodes.len(),
            owned_nodes@ == old(owned_nodes)@,
            increments.len() == owned_nodes.len(),
            acc == accumulated(old(owned_nodes)@, increments@),
            sorted@ == sort_by_priority(acc.take(i as int)),
        decreases owned_nodes.len() - i,
    {
        let (node, priority) = owned_nodes[i];
        let entry = (node, priority.wrapping_add(increments[i]));
        assert(entry == acc[i as int]);
        insert_sorted(&mut sorted, entry);
        proof {
            assert(acc.take(i + 1).drop_last() =~= acc.take(i as int));
        }
        i = i + 1;
    }
    assert(acc.take(owned_nodes.len() as int) =~= acc);
    *owned_nodes = sorted;
}

proof fn lemma_insert_sorted_keeps_order(s: Seq<(u64, i64)>, x: (u64, i64))
    requires
        sorted_by_priority(s),
    ensures
        sorted_by_priority(insert_by_priority(s, x)),
        insert_by_priority(s, x).len() == s.len() + 1,
        insert_by_priority(s, x).to_multiset() == s.to_multiset().insert(x),
    decreases s.len(),
{
    broadcast use vstd::multiset::group_multiset_axioms, vstd::seq_lib::group_to_multiset_ensures;
    if s.len() == 0 || s.last().1 <= x.1 {
        let r = s.push(x);
        assert forall|i: int, j: int| 0 <= i < j < r.len() implies r[i].1 <= r[j].1 by {
            if j == s.len() && s.len() > 0 {
                assert(s[i].1 <= s.last().1);
            }
        }
    } else {
        let d = s.drop_last();
        assert(sorted_by_priority(d));
        lemma_insert_sorted_keeps_order(d, x);
        let m = insert_by_priority(d, x);
        let r = m.push(s.last());
        assert forall|i: int, j: int| 0 <= i < j < r.len() implies r[i].1 <= r[j].1 by {
            if j == m.len() {
                lemma_multiset_member_bound(d, x, m, s.last().1, i);
            }
        }
        assert(s =~= d.push(s.last()));
    }
}

/// Every entry of `insert_by_priority(d, x)` has a priority no greater than
/// `bound` when every entry of `d` and `x` do.
proof fn lemma_multiset_member_bound(d: Seq<(u64, i64)>, x: (u64, i64), m: Seq<(u64, i64)>, bound: i64, i: int)
    requires
        m == insert_by_priority(d, x),
        forall|k: int| 0 <= k < d.len() ==> d[k].1 <= bound,
        x.1 <= bound,
        0 <= i < m.len(),
        m.to_multiset() == d.to_multiset().insert(x),
    ensures
        m[i].1 <= bound,
{
    broadcast use vstd::multiset::group_multiset_axioms, vstd::seq_lib::group_to_multiset_ensures;
    assert(m.to_multiset().count(m[i]) > 0);
    if m[i] != x {
        assert(d.to_multiset().count(m[i]) > 0);
        assert(d.contains(m[i]));
    }
}

/// Law: the priorities after a tick are in ascending order, and are the
/// accumulated priorities rearranged.
pub proof fn lemma_tick_priorities_sorted(s: Seq<(u64, i64)>)
    ensures
        sorted_by_priority(sort_by_priority(s)),
        sort_by_priority(s).to_multiset() == s.to_multiset(),
    decreases s.len(),
{
    broadcast use vstd::multiset::group_multiset_axioms, vstd::seq_lib::group_to_multiset_ensures;
    if s.len() > 0 {
        lemma_tick_priorities_sorted(s.drop_last());
        lemma_insert_sorted_keeps_order(sort_by_priority(s.drop_last()), s.last());
        assert(s =~= s.drop_last().push(s.last()));
    }
}

/// The updates of the owned nodes that a fill sent, the last entry first:
/// those whose priority was nonzero in `before` and is zero in `after`.
pub open spec fn sent_bits_from_end(ps: Seq<(u64, Seq<bool>)>, before: Seq<(u64, i64)>, after: Seq<(u64, i64)>) -> Seq<bool>
    decreases before.len(),
{
    if before.len() == 0 || after.len() == 0 {
        Seq::empty()
    } else {
        (if before.last().1 != 0 && after.last().1 == 0 {
            payload_of(ps, before.last().0)
        } else {
            Seq::empty()
        }) + sent_bits_from_end(ps, before.drop_last(), after.drop_last())
    }
}

proof fn lemma_sent_bits_from_end_unchanged(ps: Seq<(u64, Seq<bool>)>, owned: Seq<(u64, i64)>)
    ensures
        sent_bits_from_end(ps, owned, owned) == Seq::<bool>::empty(),
    decreases owned.len(),
{
    if owned.len() > 0 {
        lemma_sent_bits_from_end_unchanged(ps, owned.drop_last());
        assert(Seq::<bool>::empty() + Seq::<bool>::empty() =~= Seq::<bool>::empty());
    }
}

/// A fill leaves every node of priority 0 as it was, and what it adds to the
/// datagram are exactly the updates of the nodes it sent, the last first.
proof fn lemma_fill_owned_sends(
    owned: Seq<(u64, i64)>,
    ps: Seq<(u64, Seq<bool>)>,
    max_dgram: int,
    remaining: int,
    acc: Seq<bool>,
)
    ensures
        ({
            let (o, p, _) = fill_owned(owned, ps, max_dgram, remaining, acc);
            &&& o.len() == owned.len()
            &&& forall|i: int| 0 <= i < owned.len() && owned[i].1 == 0 ==> #[trigger] o[i] == owned[i]
            &&& p == acc + sent_bits_from_end(ps, owned, o)
        }),
    decreases owned.len(),
{
    if owned.len() == 0 {
        assert(acc + Seq::<bool>::empty() =~= acc);
    } else {
        let (node, priority) = owned.last();
        let tmp = payload_of(ps, node);
        let n = owned.len() - 1;
        if priority == 0 {
            lemma_fill_owned_sends(owned.drop_last(), ps, max_dgram, remaining, acc);
            let (rest, packet, short) = fill_owned(owned.drop_last(), ps, max_dgram, remaining, acc);
            let o = rest.push(owned.last());
            assert(o.drop_last() =~= rest);
            assert(forall|i: int| 0 <= i < n ==> o[i] == rest[i]);
            assert(forall|i: int| 0 <= i < n ==> owned[i] == owned.drop_last()[i]);
            assert(sent_bits_from_end(ps, owned, o) =~= sent_bits_from_end(ps, owned.drop_last(), rest));
        } else if tmp.len() + acc.len() > max_dgram || tmp.len() + acc.len() > remaining {
            lemma_sent_bits_from_end_unchanged(ps, owned);
            assert(acc + Seq::<bool>::empty() =~= acc);
        } else {
            lemma_fill_owned_sends(owned.drop_last(), ps, max_dgram, remaining, acc + tmp);
            let (rest, packet, short) = fill_owned(owned.drop_last(), ps, max_dgram, remaining, acc + tmp);
            let o = rest.push((node, 0i64));
            assert(o.drop_last() =~= rest);
            assert(forall|i: int| 0 <= i < n ==> o[i] == rest[i]);
            assert(forall|i: int| 0 <= i < n ==> owned[i] == owned.drop_last()[i]);
            assert(sent_bits_from_end(ps, owned, o) =~= tmp + sent_bits_from_end(ps, owned.drop_last(), rest));
            assert(acc + tmp + sent_bits_from_end(ps, owned.drop_last(), rest) =~= acc + sent_bits_from_end(
                ps,
                owned,
                o,
            ));
        }
    }
}

/// Law: a step of the client's turn changes no owned node of priority 0, and
/// a datagram it sends is the client's tick (as a byte) followed by the
/// updates of exactly the nodes whose priority it set from nonzero to 0, the
/// last entry first: a node that has not changed is not sent.
pub proof fn lemma_client_sends_changed_nodes(c: ClientSendView, cur: ClientCursorView, ps: Seq<(u64, Seq<bool>)>)
    ensures
        ({
            let v = spec_client_step(c, cur, ps);
            &&& v.client.owned.len() == c.owned.len()
            &&& forall|i: int| 0 <= i < c.owned.len() && c.owned[i].1 == 0 ==> #[trigger] v.client.owned[i]
                == c.owned[i]
            &&& v.action matches Some(ClientActionView::Datagram(p)) ==> p == value_bits((c.tick as u8) as nat, 8)
                + sent_bits_from_end(ps, c.owned, v.client.owned)
        }),
{
    let header = value_bits((c.tick as u8) as nat, 8);
    lemma_fill_owned_sends(c.owned, ps, cur.max_dgram as int, cur.remaining as int, header);
}

} // verus!
