//! The server's per-tick decisions for each client: how much it may send,
//! which queued messages go out, and which nodes' updates fill each datagram.
//!
//! A client that joins first receives every queued message (event sync),
//! then every networked node once (object sync), and from then on the nodes
//! whose priority has grown highest. The bandwidth budget grows by a tenth
//! whenever a tick uses nearly all of it and is halved while the connection
//! is pacing.
//!
//! Sending is a loop of `send_step` calls: each gives the next thing to send,
//! which the caller sends before asking for the next, reporting the result of
//! a message's send to `message_sent`; `None` ends the client's turn. A
//! client's position in the message queue moves only past a message whose
//! send succeeded. Nodes are named by keys that the caller chooses, and each
//! node's update bits (`get_byte_data`) are handed in with its key.
use vstd::prelude::*;

use crate::pck::{lemma_pow256_mono, pow256};
use crate::bits::{bits_append, bits_extend_u8, bits_len, bits_new, bits_of, value_bits, Packet};
use crate::netnodes::internal::{
    generate_internal_message, spec_generate_internal_message, InternalMessage,
    InternalMessageView,
};

verus! {

/// Bandwidth, in bits, below which no more datagrams are filled in a tick.
pub const PACKET_MAX_SIZE_THRESHOLD: usize = 80;

/// The least budget, in bits per tick, of a connection.
pub const MINIMUM_CONNECTION_BANDWIDTH: usize = 512;

/// The budget, in bits per tick, of a client just accepted.
pub const INITIAL_CLIENT_BANDWIDTH: usize = 8000;

/// Bits of a datagram's header (the tick).
pub const DGRAM_HEADER_BITS: usize = 8;

/// Bits counted for a node's id when deciding whether its update fits.
pub const OBJECT_ID_BITS: usize = 16;

/// A node's accumulated priority for a client. Entries are kept in
/// ascending order of `(priority, tiebreak)`; the tiebreak is random.
#[derive(Clone, Copy, Debug)]
pub struct PriorityEntry {
    pub priority: i64,
    pub tiebreak: [u8; 16],
    pub node: u64,
}

/// Where a connected client is in its synchronisation.
pub enum ClientSubState {
    EventSync,
    ObjectSync(Vec<u64>),
    Connected,
}

pub enum SubStateView {
    EventSync,
    ObjectSync(Seq<u64>),
    Connected,
}

/// A client whose identity the server has accepted.
pub struct ConnectedClient {
    pub uuid: [u8; 16],
    pub state: ClientSubState,
    pub bandwidth_budget_per_tick: usize,
    pub message_buffer_position: usize,
    pub priorities: Vec<PriorityEntry>,
    pub tick_number: i8,
}

pub struct ClientView {
    pub uuid: Seq<u8>,
    pub state: SubStateView,
    pub budget: usize,
    pub position: usize,
    pub priorities: Seq<PriorityEntry>,
    pub tick_number: i8,
}

impl View for ClientSubState {
    type V = SubStateView;

    open spec fn view(&self) -> SubStateView {
        match self {
            ClientSubState::EventSync => SubStateView::EventSync,
            ClientSubState::ObjectSync(v) => SubStateView::ObjectSync(v@),
            ClientSubState::Connected => SubStateView::Connected,
        }
    }
}

impl View for ConnectedClient {
    type V = ClientView;

    open spec fn view(&self) -> ClientView {
        ClientView {
            uuid: self.uuid@,
            state: self.state@,
            budget: self.bandwidth_budget_per_tick,
            position: self.message_buffer_position,
            priorities: self.priorities@,
            tick_number: self.tick_number,
        }
    }
}

impl ConnectedClient {
    /// A client just accepted: event sync from the first queued message, with
    /// the initial budget and no priorities.
    pub fn new(uuid: [u8; 16]) -> (r: ConnectedClient)
        ensures
            r@.uuid == uuid@,
            r@.state == SubStateView::EventSync,
            r@.budget == INITIAL_CLIENT_BANDWIDTH,
            r@.position == 0,
            r@.priorities.len() == 0,
            r@.tick_number == 0,
    {
        ConnectedClient {
            uuid,
            state: ClientSubState::EventSync,
            bandwidth_budget_per_tick: INITIAL_CLIENT_BANDWIDTH,
            message_buffer_position: 0,
            priorities: Vec::new(),
            tick_number: 0,
        }
    }
}

/// Where a client's turn at sending is: queued messages (waiting for the
/// result of a message's send in between), then datagrams.
pub enum SendStage {
    Messages,
    AwaitingResult,
    Sync,
    Finished,
}

/// A client's turn at sending: its stage, the bandwidth left this tick, and
/// the largest datagram the connection takes.
pub struct SendCursor {
    pub stage: SendStage,
    pub remaining: usize,
    pub max_dgram: usize,
}

/// What to send next: the queued message at an index of the server's
/// message buffer, or a datagram.
pub enum SendAction {
    Message(usize),
    Datagram(Packet),
}

pub enum SendActionView {
    Message(usize),
    Datagram(Seq<bool>),
}

impl View for SendAction {
    type V = SendActionView;

    open spec fn view(&self) -> SendActionView {
        match self {
            SendAction::Message(i) => SendActionView::Message(*i),
            SendAction::Datagram(p) => SendActionView::Datagram(bits_of(*p)),
        }
    }
}

pub open spec fn opt_action_view(a: Option<SendAction>) -> Option<SendActionView> {
    match a {
        Some(x) => Some(x@),
        None => None,
    }
}

/// Node updates as values: each node's key with its bits.
pub open spec fn payload_views(ps: Seq<(u64, Packet)>) -> Seq<(u64, Seq<bool>)> {
    ps.map_values(|e: (u64, Packet)| (e.0, bits_of(e.1)))
}

/// The bits of the first update given for `node`.
pub open spec fn payload_of(ps: Seq<(u64, Seq<bool>)>, node: u64) -> Seq<bool>
    decreases ps.len(),
{
    if ps.len() == 0 {
        Seq::empty()
    } else if ps[0].0 == node {
        ps[0].1
    } else {
        payload_of(ps.drop_first(), node)
    }
}

pub open spec fn has_payload(ps: Seq<(u64, Seq<bool>)>, node: u64) -> bool {
    exists|i: int| 0 <= i < ps.len() && (#[trigger] ps[i]).0 == node
}

/// Whether an update is given for every node the client's state or the
/// node list names.
pub open spec fn payloads_cover(ps: Seq<(u64, Seq<bool>)>, c: ClientView, nodes: Seq<u64>) -> bool {
    &&& forall|i: int| 0 <= i < nodes.len() ==> has_payload(ps, #[trigger] nodes[i])
    &&& forall|i: int| 0 <= i < c.priorities.len() ==> has_payload(ps, (#[trigger] c.priorities[i]).node)
    &&& (c.state matches SubStateView::ObjectSync(objs) ==> forall|i: int|
        0 <= i < objs.len() ==> has_payload(ps, #[trigger] objs[i]))
}

/// Object sync fills a datagram from the end of its list: each node whose
/// update still fits under `limit` is added and taken off the list; the
/// first that does not fit stops the filling.
pub open spec fn fill_from_stack(objs: Seq<u64>, ps: Seq<(u64, Seq<bool>)>, limit: int, acc: Seq<bool>) -> (Seq<u64>, Seq<bool>)
    decreases objs.len(),
{
    if objs.len() == 0 {
        (objs, acc)
    } else {
        let tmp = payload_of(ps, objs.last());
        if tmp.len() + acc.len() > limit {
            (objs, acc)
        } else {
            fill_from_stack(objs.drop_last(), ps, limit, acc + tmp)
        }
    }
}

/// Priority sync fills a datagram going down the priorities from the
/// highest: each node with a nonzero priority whose update and id still fit
/// under `limit` is added and its priority set to 0; one that does not fit is
/// passed over.
pub open spec fn fill_from_priorities(es: Seq<PriorityEntry>, ps: Seq<(u64, Seq<bool>)>, limit: int, acc: Seq<bool>) -> (Seq<PriorityEntry>, Seq<bool>)
    decreases es.len(),
{
    if es.len() == 0 {
        (es, acc)
    } else {
        let e = es.last();
        let tmp = payload_of(ps, e.node);
        if e.priority != 0 && tmp.len() + acc.len() + 16 <= limit {
            let (rest, packet) = fill_from_priorities(es.drop_last(), ps, limit, acc + tmp);
            (rest.push(PriorityEntry { priority: 0, tiebreak: e.tiebreak, node: e.node }), packet)
        } else {
            let (rest, packet) = fill_from_priorities(es.drop_last(), ps, limit, acc);
            (rest.push(e), packet)
        }
    }
}

pub open spec fn grown(budget: usize) -> usize {
    budget.wrapping_add(budget / 10)
}

pub struct CursorView {
    pub stage: SendStage,
    pub remaining: usize,
    pub max_dgram: usize,
}

impl View for SendCursor {
    type V = CursorView;

    open spec fn view(&self) -> CursorView {
        CursorView { stage: self.stage, remaining: self.remaining, max_dgram: self.max_dgram }
    }
}

pub open spec fn min_usize(a: usize, b: usize) -> int {
    if a < b {
        a as int
    } else {
        b as int
    }
}

/// The outcome of a step: what to send, and the client, cursor and server
/// tick afterwards.
pub struct StepView {
    pub action: Option<SendActionView>,
    pub client: ClientView,
    pub cursor: CursorView,
    pub tick: i8,
}

/// A step of the sync stage: a datagram from the object-sync list while it
/// lasts, else from the priorities, highest first; after a fill from the
/// priorities they are put back in order of key (the sent ones at 0).
pub open spec fn spec_sync_step(c: ClientView, cur: CursorView, ps: Seq<(u64, Seq<bool>)>, tick: i8) -> StepView {
    if cur.remaining <= 80 {
        StepView {
            action: None,
            client: ClientView { budget: grown(c.budget), ..c },
            cursor: CursorView { stage: SendStage::Finished, ..cur },
            tick: tick,
        }
    } else {
        let t = tick.wrapping_add(1);
        let header = value_bits((t as u8) as nat, 8);
        let limit = min_usize(cur.remaining, cur.max_dgram);
        match c.state {
            SubStateView::ObjectSync(objs) => {
                let (left, packet) = fill_from_stack(objs, ps, limit, header);
                StepView {
                    action: Some(SendActionView::Datagram(packet)),
                    client: ClientView {
                        state: if left.len() == 0 {
                            SubStateView::Connected
                        } else {
                            SubStateView::ObjectSync(left)
                        },
                        ..c
                    },
                    cursor: CursorView { remaining: (cur.remaining - packet.len()) as usize, ..cur },
                    tick: t,
                }
            },
            _ => {
                let (filled, packet) = fill_from_priorities(c.priorities, ps, limit, header);
                let es = sort_by_key(filled.reverse());
                if packet.len() > 8 {
                    StepView {
                        action: Some(SendActionView::Datagram(packet)),
                        client: ClientView { priorities: es, ..c },
                        cursor: CursorView { remaining: (cur.remaining - packet.len()) as usize, ..cur },
                        tick: t,
                    }
                } else {
                    StepView {
                        action: None,
                        client: ClientView { priorities: es, ..c },
                        cursor: CursorView { stage: SendStage::Finished, ..cur },
                        tick: t,
                    }
                }
            },
        }
    }
}

/// A step of a client's turn. `sizes` are the bit lengths of the server's
/// queued messages, `nodes` its networked nodes (what object sync starts
/// from), `ps` the nodes' updates, `tick` the server's datagram tick.
pub open spec fn spec_send_step(c: ClientView, cur: CursorView, sizes: Seq<usize>, nodes: Seq<u64>, ps: Seq<(u64, Seq<bool>)>, tick: i8) -> StepView {
    match cur.stage {
        SendStage::Finished | SendStage::AwaitingResult => StepView { action: None, client: c, cursor: cur, tick: tick },
        SendStage::Messages => if sizes.len() > c.position && cur.remaining >= sizes[c.position as int] {
            StepView {
                action: Some(SendActionView::Message(c.position)),
                client: c,
                cursor: CursorView {
                    stage: SendStage::AwaitingResult,
                    remaining: (cur.remaining - sizes[c.position as int]) as usize,
                    ..cur
                },
                tick: tick,
            }
        } else if c.state is EventSync {
            if sizes.len() == c.position {
                spec_sync_step(
                    ClientView { state: SubStateView::ObjectSync(nodes), ..c },
                    CursorView { stage: SendStage::Sync, ..cur },
                    ps,
                    tick,
                )
            } else {
                StepView {
                    action: None,
                    client: ClientView { budget: grown(c.budget), ..c },
                    cursor: CursorView { stage: SendStage::Finished, ..cur },
                    tick: tick,
                }
            }
        } else {
            spec_sync_step(c, CursorView { stage: SendStage::Sync, ..cur }, ps, tick)
        },
        SendStage::Sync => spec_sync_step(c, cur, ps, tick),
    }
}

/// Starts a client's turn: the budget is raised to the minimum, then halved
/// while the connection is pacing, and all of it is left to spend.
pub fn start_send(client: &mut ConnectedClient, max_dgram: usize, pacing: bool) -> (r: SendCursor)
    ensures
        ({
            let b1 = if old(client)@.budget < MINIMUM_CONNECTION_BANDWIDTH {
                MINIMUM_CONNECTION_BANDWIDTH
            } else {
                old(client)@.budget
            };
            let b2 = if pacing {
                b1 / 2
            } else {
                b1
            };
            &&& final(client)@ == ClientView { budget: b2, ..old(client)@ }
            &&& r@ == CursorView { stage: SendStage::Messages, remaining: b2, max_dgram: max_dgram }
        }),
{
    if client.bandwidth_budget_per_tick < MINIMUM_CONNECTION_BANDWIDTH {
        client.bandwidth_budget_per_tick = MINIMUM_CONNECTION_BANDWIDTH;
    }
    if pacing {
        client.bandwidth_budget_per_tick = client.bandwidth_budget_per_tick / 2;
    }
    SendCursor { stage: SendStage::Messages, remaining: client.bandwidth_budget_per_tick, max_dgram }
}

pub(crate) fn find_payload(payloads: &Vec<(u64, Packet)>, node: u64) -> (r: usize)
    requires
        has_payload(payload_views(payloads@), node),
    ensures
        r < payloads.len(),
        bits_of(payloads@[r as int].1) == payload_of(payload_views(payloads@), node),
{
    let ghost ps = payload_views(payloads@);
    assert(ps.skip(0) =~= ps);
    let mut i: usize = 0;
    while i < payloads.len()
        invariant
            i <= payloads.len(),
            ps == payload_views(payloads@),
            has_payload(ps.skip(i as int), node),
            payload_of(ps, node) == payload_of(ps.skip(i as int), node),
        decreases payloads.len() - i,
    {
        let ghost rest = ps.skip(i as int);
        assert(rest[0] == (payloads@[i as int].0, bits_of(payloads@[i as int].1)));
        if payloads[i].0 == node {
            return i;
        }
        proof {
            assert(rest.drop_first() =~= ps.skip(i + 1));
            let k = choose|k: int| 0 <= k < rest.len() && (#[trigger] rest[k]).0 == node;
            assert(k != 0);
            assert(rest.drop_first()[k - 1] == rest[k]);
        }
        i = i + 1;
    }
    proof {
        let k = choose|k: int| 0 <= k < ps.skip(i as int).len() && (#[trigger] ps.skip(i as int)[k]).0 == node;
    }
    0
}

/// Fills a datagram from the object-sync list.
fn fill_stack(objs: &mut Vec<u64>, payloads: &Vec<(u64, Packet)>, limit: usize, packet: &mut Packet)
    requires
        forall|i: int| 0 <= i < old(objs).len() ==> has_payload(payload_views(payloads@), #[trigger] old(objs)@[i]),
        bits_of(*old(packet)).len() <= 8,
    ensures
        fill_from_stack(old(objs)@, payload_views(payloads@), limit as int, bits_of(*old(packet))) == (
            final(objs)@,
            bits_of(*final(packet)),
        ),
        bits_of(*final(packet)).len() <= bits_of(*old(packet)).len() || bits_of(*final(packet)).len() <= limit,
{
    let ghost ps = payload_views(payloads@);
    let ghost whole = fill_from_stack(objs@, ps, limit as int, bits_of(*packet));
    let ghost start_len = bits_of(*packet).len();
    loop
        invariant
            ps == payload_views(payloads@),
            whole == fill_from_stack(old(objs)@, ps, limit as int, bits_of(*old(packet))),
            start_len == bits_of(*old(packet)).len(),
            forall|i: int| 0 <= i < objs.len() ==> has_payload(ps, #[trigger] objs@[i]),
            whole == fill_from_stack(objs@, ps, limit as int, bits_of(*packet)),
            bits_of(*packet).len() <= start_len || bits_of(*packet).len() <= limit,
        decreases objs.len(),
    {
        if objs.len() == 0 {
            return;
        }
        let node = objs[objs.len() - 1];
        assert(has_payload(ps, objs@[objs.len() - 1]));
        let k = find_payload(payloads, node);
        let tl = bits_len(&payloads[k].1);
        let pl = bits_len(packet);
        if (tl as u128) + (pl as u128) > limit as u128 {
            return;
        }
        bits_append(packet, &payloads[k].1);
        let ghost before = objs@;
        objs.pop();
        assert(objs@ =~= before.drop_last());
    }
}

/// Fills a datagram from the priorities, highest first.
fn fill_priorities(es: &mut Vec<PriorityEntry>, payloads: &Vec<(u64, Packet)>, limit: usize, packet: &mut Packet)
    requires
        forall|i: int| 0 <= i < old(es).len() ==> has_payload(payload_views(payloads@), (#[trigger] old(es)@[i]).node),
    ensures
        fill_from_priorities(old(es)@, payload_views(payloads@), limit as int, bits_of(*old(packet))) == (
            final(es)@,
            bits_of(*final(packet)),
        ),
{
    let ghost ps = payload_views(payloads@);
    let ghost orig = es@;
    let ghost acc0 = bits_of(*packet);
    let mut i = es.len();
    proof {
        let whole = fill_from_priorities(orig, ps, limit as int, acc0);
        assert(orig.take(es.len() as int) =~= orig);
        assert(es@.skip(es.len() as int) =~= Seq::<PriorityEntry>::empty());
        assert(whole.0 + Seq::<PriorityEntry>::empty() =~= whole.0);
    }
    while i > 0
        invariant
            orig == old(es)@,
            acc0 == bits_of(*old(packet)),
            i <= es.len(),
            es@.len() == orig.len(),
            ps == payload_views(payloads@),
            forall|j: int| 0 <= j < orig.len() ==> has_payload(ps, (#[trigger] orig[j]).node),
            forall|j: int| 0 <= j < i ==> es@[j] == orig[j],
            ({
                let whole = fill_from_priorities(orig, ps, limit as int, acc0);
                let here = fill_from_priorities(orig.take(i as int), ps, limit as int, bits_of(*packet));
                &&& whole.0 == here.0 + es@.skip(i as int)
                &&& whole.1 == here.1
            }),
        decreases i,
    {
        let ghost i0 = i as int;
        let ghost acc = bits_of(*packet);
        let ghost es_before = es@;
        i = i - 1;
        let e = es[i];
        assert(e == orig[i as int]);
        assert(has_payload(ps, orig[i as int].node));
        assert(orig.take(i0).drop_last() =~= orig.take(i as int));
        assert(orig.take(i0).last() == orig[i as int]);
        if e.priority != 0 {
            let k = find_payload(payloads, e.node);
            let tl = bits_len(&payloads[k].1);
            let pl = bits_len(packet);
            if (tl as u128) + (pl as u128) + 16 <= limit as u128 {
                bits_append(packet, &payloads[k].1);
                es.set(i, PriorityEntry { priority: 0, tiebreak: e.tiebreak, node: e.node });
                proof {
                    let here = fill_from_priorities(orig.take(i as int), ps, limit as int, bits_of(*packet));
                    assert(es@.skip(i as int) =~= seq![PriorityEntry { priority: 0, tiebreak: e.tiebreak, node: e.node }]
                        + es_before.skip(i0));
                    assert(here.0.push(PriorityEntry { priority: 0, tiebreak: e.tiebreak, node: e.node })
                        + es_before.skip(i0) =~= here.0 + es@.skip(i as int));
                }
            } else {
                proof {
                    let here = fill_from_priorities(orig.take(i as int), ps, limit as int, acc);
                    assert(es@.skip(i as int) =~= seq![e] + es_before.skip(i0));
                    assert(here.0.push(e) + es_before.skip(i0) =~= here.0 + es@.skip(i as int));
                }
            }
        } else {
            proof {
                let here = fill_from_priorities(orig.take(i as int), ps, limit as int, acc);
                assert(es@.skip(i as int) =~= seq![e] + es_before.skip(i0));
                assert(here.0.push(e) + es_before.skip(i0) =~= here.0 + es@.skip(i as int));
            }
        }
    }
    assert(orig.take(0) =~= Seq::<PriorityEntry>::empty());
    assert(es@.skip(0) =~= es@);
}

proof fn lemma_fill_from_priorities_len(es: Seq<PriorityEntry>, ps: Seq<(u64, Seq<bool>)>, limit: int, acc: Seq<bool>)
    ensures
        fill_from_priorities(es, ps, limit, acc).1.len() == acc.len() || fill_from_priorities(es, ps, limit, acc).1.len() <= limit,
        fill_from_priorities(es, ps, limit, acc).1.len() >= acc.len(),
        fill_from_priorities(es, ps, limit, acc).0.len() == es.len(),
    decreases es.len(),
{
    if es.len() > 0 {
        let e = es.last();
        let tmp = payload_of(ps, e.node);
        lemma_fill_from_priorities_len(es.drop_last(), ps, limit, acc + tmp);
        lemma_fill_from_priorities_len(es.drop_last(), ps, limit, acc);
    }
}

proof fn lemma_priorities_keep_nodes(es: Seq<PriorityEntry>, ps: Seq<(u64, Seq<bool>)>, limit: int, acc: Seq<bool>)
    ensures
        forall|j: int| 0 <= j < es.len() ==> (#[trigger] fill_from_priorities(es, ps, limit, acc).0[j]).node == es[j].node,
    decreases es.len(),
{
    if es.len() > 0 {
        let e = es.last();
        let tmp = payload_of(ps, e.node);
        lemma_priorities_keep_nodes(es.drop_last(), ps, limit, acc + tmp);
        lemma_priorities_keep_nodes(es.drop_last(), ps, limit, acc);
        lemma_fill_from_priorities_len(es.drop_last(), ps, limit, acc + tmp);
        lemma_fill_from_priorities_len(es.drop_last(), ps, limit, acc);
    }
}

proof fn lemma_stack_suffix(objs: Seq<u64>, ps: Seq<(u64, Seq<bool>)>, limit: int, acc: Seq<bool>)
    ensures
        fill_from_stack(objs, ps, limit, acc).0 == objs.take(fill_from_stack(objs, ps, limit, acc).0.len() as int),
        fill_from_stack(objs, ps, limit, acc).0.len() <= objs.len(),
    decreases objs.len(),
{
    if objs.len() > 0 {
        let tmp = payload_of(ps, objs.last());
        if tmp.len() + acc.len() <= limit {
            lemma_stack_suffix(objs.drop_last(), ps, limit, acc + tmp);
            let r = fill_from_stack(objs.drop_last(), ps, limit, acc + tmp).0;
            assert(objs.drop_last().take(r.len() as int) =~= objs.take(r.len() as int));
        } else {
            assert(objs.take(objs.len() as int) =~= objs);
        }
    } else {
        assert(objs.take(0) =~= objs);
    }
}

/// A sync step leaves every node the client's state names with an update.
proof fn lemma_sync_keeps_cover(c: ClientView, cur: CursorView, ps: Seq<(u64, Seq<bool>)>, tick: i8, nodes: Seq<u64>)
    requires
        payloads_cover(ps, c, nodes),
    ensures
        payloads_cover(ps, spec_sync_step(c, cur, ps, tick).client, nodes),
{
    if cur.remaining > 80 {
        let t = tick.wrapping_add(1);
        let header = value_bits((t as u8) as nat, 8);
        let limit = min_usize(cur.remaining, cur.max_dgram);
        match c.state {
            SubStateView::ObjectSync(objs) => {
                lemma_stack_suffix(objs, ps, limit, header);
                let left = fill_from_stack(objs, ps, limit, header).0;
                assert forall|i: int| 0 <= i < left.len() implies has_payload(ps, #[trigger] left[i]) by {
                    assert(left[i] == objs[i]);
                }
            },
            _ => {
                lemma_priorities_keep_nodes(c.priorities, ps, limit, header);
                lemma_fill_from_priorities_len(c.priorities, ps, limit, header);
                let filled = fill_from_priorities(c.priorities, ps, limit, header).0;
                let rev = filled.reverse();
                let es = sort_by_key(rev);
                lemma_sort_by_key(rev);
                assert forall|i: int| 0 <= i < es.len() implies has_payload(ps, (#[trigger] es[i]).node) by {
                    assert(rev.contains(es[i]));
                    let k = choose|k: int| 0 <= k < rev.len() && rev[k] == es[i];
                    assert(rev[k] == filled[filled.len() - 1 - k]);
                    assert(filled[filled.len() - 1 - k].node == c.priorities[filled.len() - 1 - k].node);
                }
            },
        }
    }
}

/// The entries last first.
fn reversed(v: &Vec<PriorityEntry>) -> (r: Vec<PriorityEntry>)
    ensures
        r@ == v@.reverse(),
{
    let mut r: Vec<PriorityEntry> = Vec::new();
    let mut i: usize = v.len();
    while i > 0
        invariant
            i <= v.len(),
            r@ == v@.subrange(i as int, v.len() as int).reverse(),
        decreases i,
    {
        i = i - 1;
        r.push(v[i]);
        assert(r@ =~= v@.subrange(i as int, v.len() as int).reverse());
    }
    assert(v@.subrange(0, v.len() as int) =~= v@);
    r
}

fn copy_keys(v: &Vec<u64>) -> (r: Vec<u64>)
    ensures
        r@ == v@,
{
    let mut r: Vec<u64> = Vec::new();
    let mut i: usize = 0;
    while i < v.len()
        invariant
            i <= v.len(),
            r@ == v@.take(i as int),
        decreases v.len() - i,
    {
        r.push(v[i]);
        i = i + 1;
        assert(r@ =~= v@.take(i as int));
    }
    assert(v@.take(v.len() as int) =~= v@);
    r
}

/// One step of the sync stage.
fn sync_step(client: &mut ConnectedClient, cursor: &mut SendCursor, payloads: &Vec<(u64, Packet)>, current_tick: &mut i8) -> (r: Option<SendAction>)
    requires
        payloads_cover(payload_views(payloads@), old(client)@, Seq::empty()),
    ensures
        ({
            let v = spec_sync_step(old(client)@, old(cursor)@, payload_views(payloads@), *old(current_tick));
            &&& opt_action_view(r) == v.action
            &&& final(client)@ == v.client
            &&& final(cursor)@ == v.cursor
            &&& *final(current_tick) == v.tick
        }),
{
    if cursor.remaining <= PACKET_MAX_SIZE_THRESHOLD {
        client.bandwidth_budget_per_tick = client.bandwidth_budget_per_tick.wrapping_add(
            client.bandwidth_budget_per_tick / 10,
        );
        cursor.stage = SendStage::Finished;
        return None;
    }
    *current_tick = current_tick.wrapping_add(1);
    let mut packet = bits_new();
    bits_extend_u8(&mut packet, *current_tick as u8);
    proof {
        crate::bits::lemma_value_bits_len((*current_tick as u8) as nat, 8);
        assert(bits_of(packet) =~= value_bits((*current_tick as u8) as nat, 8));
    }
    let limit = if cursor.remaining < cursor.max_dgram {
        cursor.remaining
    } else {
        cursor.max_dgram
    };
    match &mut client.state {
        ClientSubState::ObjectSync(objs) => {
            fill_stack(objs, payloads, limit, &mut packet);
            let n = bits_len(&packet);
            if objs.len() == 0 {
                client.state = ClientSubState::Connected;
            }
            cursor.remaining = cursor.remaining - n;
            Some(SendAction::Datagram(packet))
        },
        _ => {
            proof {
                lemma_fill_from_priorities_len(client.priorities@, payload_views(payloads@), limit as int, bits_of(packet));
            }
            fill_priorities(&mut client.priorities, payloads, limit, &mut packet);
            let descending = reversed(&client.priorities);
            client.priorities = sort_priorities(&descending);
            let n = bits_len(&packet);
            if n > DGRAM_HEADER_BITS {
                cursor.remaining = cursor.remaining - n;
                Some(SendAction::Datagram(packet))
            } else {
                cursor.stage = SendStage::Finished;
                None
            }
        },
    }
}

/// The next thing to send in a client's turn (see `spec_send_step`).
/// `message_sizes` are the bit lengths of the server's queued messages,
/// `networked_nodes` the keys of its networked nodes, and `payloads` each
/// node's update; an update must be given for every node that the client's
/// state or `networked_nodes` names.
pub fn send_step(
    client: &mut ConnectedClient,
    cursor: &mut SendCursor,
    message_sizes: &Vec<usize>,
    networked_nodes: &Vec<u64>,
    payloads: &Vec<(u64, Packet)>,
    current_tick: &mut i8,
) -> (r: Option<SendAction>)
    requires
        payloads_cover(payload_views(payloads@), old(client)@, networked_nodes@),
    ensures
        ({
            let v = spec_send_step(
                old(client)@,
                old(cursor)@,
                message_sizes@,
                networked_nodes@,
                payload_views(payloads@),
                *old(current_tick),
            );
            &&& opt_action_view(r) == v.action
            &&& final(client)@ == v.client
            &&& final(cursor)@ == v.cursor
            &&& *final(current_tick) == v.tick
        }),
        payloads_cover(payload_views(payloads@), final(client)@, networked_nodes@),
{
    let ghost ps = payload_views(payloads@);
    match cursor.stage {
        SendStage::Finished | SendStage::AwaitingResult => None,
        SendStage::Messages => {
            let pos = client.message_buffer_position;
            if message_sizes.len() > pos && cursor.remaining >= message_sizes[pos] {
                cursor.remaining = cursor.remaining - message_sizes[pos];
                cursor.stage = SendStage::AwaitingResult;
                return Some(SendAction::Message(pos));
            }
            let event_sync = match client.state {
                ClientSubState::EventSync => true,
                _ => false,
            };
            if event_sync {
                if message_sizes.len() == pos {
                    client.state = ClientSubState::ObjectSync(copy_keys(networked_nodes));
                    cursor.stage = SendStage::Sync;
                    proof {
                        lemma_sync_keeps_cover(client@, cursor@, ps, *current_tick, networked_nodes@);
                    }
                    sync_step(client, cursor, payloads, current_tick)
                } else {
                    client.bandwidth_budget_per_tick = client.bandwidth_budget_per_tick.wrapping_add(
                        client.bandwidth_budget_per_tick / 10,
                    );
                    cursor.stage = SendStage::Finished;
                    None
                }
            } else {
                cursor.stage = SendStage::Sync;
                proof {
                    lemma_sync_keeps_cover(client@, cursor@, ps, *current_tick, networked_nodes@);
                }
                sync_step(client, cursor, payloads, current_tick)
            }
        },
        SendStage::Sync => {
            proof {
                lemma_sync_keeps_cover(client@, cursor@, ps, *current_tick, networked_nodes@);
            }
            sync_step(client, cursor, payloads, current_tick)
        },
    }
}

/// The client and cursor after the result of a message's send: see `message_sent`.
pub open spec fn spec_message_sent(c: ClientView, cur: CursorView, sent: bool) -> (ClientView, CursorView) {
    if sent {
        (ClientView { position: (c.position + 1) as usize, ..c }, CursorView { stage: SendStage::Messages, ..cur })
    } else {
        (c, CursorView { stage: SendStage::Finished, ..cur })
    }
}

/// Reports the result of sending the message that a step handed out: after
/// a successful send the client's position moves past it and the turn goes on
/// with the next message; after a failed one the position stays, so that the
/// message is sent again on a later turn, and this turn ends.
pub fn message_sent(client: &mut ConnectedClient, cursor: &mut SendCursor, sent: bool)
    requires
        sent ==> old(client)@.position < usize::MAX,
    ensures
        (final(client)@, final(cursor)@) == spec_message_sent(old(client)@, old(cursor)@, sent),
{
    if sent {
        client.message_buffer_position = client.message_buffer_position + 1;
        cursor.stage = SendStage::Messages;
    } else {
        cursor.stage = SendStage::Finished;
    }
}

// ---------------------------------------------------------------------------
// Clients and ids
// ---------------------------------------------------------------------------

/// Bytes of a client's identifier message on stream 0: an 8-byte length
/// prefix, then the 40-byte identifier.
pub const IDENTIFIER_MESSAGE_BYTES: usize = 48;

/// Where a client is in joining: reading its identifier, waiting for the
/// game to accept it, or accepted.
pub enum ClientState {
    AwaitingIdentifier(Vec<u8>),
    AwaitingUuid([u8; 40]),
    Connected(ConnectedClient),
}

pub enum ClientStateView {
    AwaitingIdentifier(Seq<u8>),
    AwaitingUuid(Seq<u8>),
    Connected(ClientView),
}

impl View for ClientState {
    type V = ClientStateView;

    open spec fn view(&self) -> ClientStateView {
        match self {
            ClientState::AwaitingIdentifier(d) => ClientStateView::AwaitingIdentifier(d@),
            ClientState::AwaitingUuid(id) => ClientStateView::AwaitingUuid(id@),
            ClientState::Connected(c) => ClientStateView::Connected(c@),
        }
    }
}

/// The server's own state. The clients are keyed by their connection id
/// (its bytes); each key occurs once. Nodes are named by the caller's keys.
pub struct NetNodeServer {
    pub clients: Vec<(Vec<u8>, ClientState)>,
    pub networked_nodes: Vec<u64>,
    pub message_buffer: Vec<(Packet, u64)>,
    pub current_tick: i8,
    pub last_netnode_id: u16,
    pub last_message_id: u16,
}

pub open spec fn client_keys(cs: Seq<(Vec<u8>, ClientState)>) -> Seq<Seq<u8>> {
    cs.map_values(|c: (Vec<u8>, ClientState)| c.0@)
}

pub open spec fn client_states(cs: Seq<(Vec<u8>, ClientState)>) -> Seq<ClientStateView> {
    cs.map_values(|c: (Vec<u8>, ClientState)| c.1@)
}

pub open spec fn buffer_view(b: Seq<(Packet, u64)>) -> Seq<(Seq<bool>, u64)> {
    b.map_values(|m: (Packet, u64)| (bits_of(m.0), m.1))
}

/// The ids a counter that stands at `last` has handed out: `1` to `last`.
/// A counter hands out each id once and never `0`, which the internal
/// messages use.
pub open spec fn issued_ids(last: u16) -> Set<u16> {
    Set::new(|k: u16| 1 <= k <= last)
}

pub open spec fn unique_keys(keys: Seq<Seq<u8>>) -> bool {
    forall|i: int, j: int| 0 <= i < j < keys.len() ==> keys[i] != keys[j]
}

impl NetNodeServer {
    /// The server's invariant: each client key occurs once.
    pub open spec fn wf(&self) -> bool {
        unique_keys(client_keys(self.clients@))
    }

    /// A server with no clients, nodes or messages.
    pub fn new() -> (r: NetNodeServer)
        ensures
            r.wf(),
            r.clients@.len() == 0,
            r.networked_nodes@.len() == 0,
            r.message_buffer@.len() == 0,
            r.current_tick == 0,
            r.last_netnode_id == 0,
            r.last_message_id == 0,
    {
        NetNodeServer {
            clients: Vec::new(),
            networked_nodes: Vec::new(),
            message_buffer: Vec::new(),
            current_tick: 0,
            last_netnode_id: 0,
            last_message_id: 0,
        }
    }

    /// Queues a message for every client, on the given stream.
    pub fn queue_message(&mut self, message: Packet, stream: u64)
        ensures
            buffer_view(final(self).message_buffer@) == buffer_view(old(self).message_buffer@).push(
                (bits_of(message), stream),
            ),
            final(self).clients@ == old(self).clients@,
            final(self).networked_nodes@ == old(self).networked_nodes@,
            final(self).current_tick == old(self).current_tick,
            final(self).last_netnode_id == old(self).last_netnode_id,
            final(self).last_message_id == old(self).last_message_id,
    {
        self.message_buffer.push((message, stream));
        assert(buffer_view(self.message_buffer@) =~= buffer_view(old(self).message_buffer@).push(
            (bits_of(message), stream),
        ));
    }

    /// The next object id: one more than the last. Running out of ids
    /// panics, which `requires` leaves out.
    pub fn get_next_object_id(&mut self) -> (r: u16)
        requires
            old(self).last_netnode_id < u16::MAX,
        ensures
            r != 0,
            !issued_ids(old(self).last_netnode_id).contains(r),
            issued_ids(final(self).last_netnode_id) == issued_ids(old(self).last_netnode_id).insert(r),
            r == old(self).last_netnode_id + 1,
            final(self).last_netnode_id == r,
            final(self).clients@ == old(self).clients@,
            final(self).networked_nodes@ == old(self).networked_nodes@,
            final(self).message_buffer@ == old(self).message_buffer@,
            final(self).current_tick == old(self).current_tick,
            final(self).last_message_id == old(self).last_message_id,
    {
        self.last_netnode_id = self.last_netnode_id + 1;
        assert(issued_ids(self.last_netnode_id) =~= issued_ids(old(self).last_netnode_id).insert(self.last_netnode_id));
        self.last_netnode_id
    }

    /// The next message id: one more than the last. Running out of ids
    /// panics, which `requires` leaves out.
    pub fn get_next_message_id(&mut self) -> (r: u16)
        requires
            old(self).last_message_id < u16::MAX,
        ensures
            r != 0,
            !issued_ids(old(self).last_message_id).contains(r),
            issued_ids(final(self).last_message_id) == issued_ids(old(self).last_message_id).insert(r),
            r == old(self).last_message_id + 1,
            final(self).last_message_id == r,
            final(self).clients@ == old(self).clients@,
            final(self).networked_nodes@ == old(self).networked_nodes@,
            final(self).message_buffer@ == old(self).message_buffer@,
            final(self).current_tick == old(self).current_tick,
            final(self).last_netnode_id == old(self).last_netnode_id,
    {
        self.last_message_id = self.last_message_id + 1;
        assert(issued_ids(self.last_message_id) =~= issued_ids(old(self).last_message_id).insert(self.last_message_id));
        self.last_message_id
    }

    /// Registers a networked node, found at `path` in the scene tree: gives
    /// it the next object id, queues the internal message that tells the
    /// clients, and adds it to the nodes. Gives the id.
    pub fn register_node(&mut self, node: u64, path: Vec<u32>) -> (r: u16)
        requires
            old(self).last_netnode_id < u16::MAX,
        ensures
            r != 0,
            !issued_ids(old(self).last_netnode_id).contains(r),
            issued_ids(final(self).last_netnode_id) == issued_ids(old(self).last_netnode_id).insert(r),
            r == old(self).last_netnode_id + 1,
            final(self).last_netnode_id == r,
            final(self).networked_nodes@ == old(self).networked_nodes@.push(node),
            buffer_view(final(self).message_buffer@) == buffer_view(old(self).message_buffer@).push(
                (spec_generate_internal_message(InternalMessageView::NetNodeIdAssign(r, path@)), 0u64),
            ),
            final(self).clients@ == old(self).clients@,
            final(self).current_tick == old(self).current_tick,
            final(self).last_message_id == old(self).last_message_id,
    {
        let id = self.get_next_object_id();
        let ghost p = path@;
        let message = generate_internal_message(InternalMessage::NetNodeIdAssign((id, path)));
        self.queue_message(message, 0);
        self.networked_nodes.push(node);
        id
    }

    /// Registers a message handler, found at `path` in the scene tree: gives
    /// it the next message id and queues the internal message that tells the
    /// clients. Gives the id.
    pub fn register_message(&mut self, path: Vec<u32>) -> (r: u16)
        requires
            old(self).last_message_id < u16::MAX,
        ensures
            r != 0,
            !issued_ids(old(self).last_message_id).contains(r),
            issued_ids(final(self).last_message_id) == issued_ids(old(self).last_message_id).insert(r),
            r == old(self).last_message_id + 1,
            final(self).last_message_id == r,
            buffer_view(final(self).message_buffer@) == buffer_view(old(self).message_buffer@).push(
                (spec_generate_internal_message(InternalMessageView::MessageHandlerIdAssign(r, path@)), 0u64),
            ),
            final(self).networked_nodes@ == old(self).networked_nodes@,
            final(self).clients@ == old(self).clients@,
            final(self).current_tick == old(self).current_tick,
            final(self).last_netnode_id == old(self).last_netnode_id,
    {
        let id = self.get_next_message_id();
        let message = generate_internal_message(InternalMessage::MessageHandlerIdAssign((id, path)));
        self.queue_message(message, 0);
        id
    }

    /// The bit lengths of the queued messages.
    pub fn message_sizes(&self) -> (r: Vec<usize>)
        ensures
            r@.len() == self.message_buffer@.len(),
            forall|i: int| 0 <= i < r@.len() ==> r@[i] == bits_of(#[trigger] self.message_buffer@[i].0).len(),
    {
        let mut r: Vec<usize> = Vec::new();
        let mut i: usize = 0;
        while i < self.message_buffer.len()
            invariant
                i <= self.message_buffer.len(),
                r@.len() == i,
                forall|j: int| 0 <= j < i ==> r@[j] == bits_of(#[trigger] self.message_buffer@[j].0).len(),
            decreases self.message_buffer.len() - i,
        {
            r.push(bits_len(&self.message_buffer[i].0));
            i = i + 1;
        }
        r
    }
}

/// Whether two keys hold the same bytes.
pub fn same_key(a: &Vec<u8>, b: &Vec<u8>) -> (r: bool)
    ensures
        r == (a@ == b@),
{
    if a.len() != b.len() {
        return false;
    }
    let mut i: usize = 0;
    while i < a.len()
        invariant
            i <= a.len(),
            a.len() == b.len(),
            forall|j: int| 0 <= j < i ==> a@[j] == b@[j],
        decreases a.len() - i,
    {
        if a[i] != b[i] {
            return false;
        }
        i = i + 1;
    }
    assert(a@ =~= b@);
    true
}

fn same_identifier(a: &[u8; 40], b: &[u8; 40]) -> (r: bool)
    ensures
        r == (a@ == b@),
{
    let mut i: usize = 0;
    while i < 40
        invariant
            i <= 40,
            forall|j: int| 0 <= j < i ==> a@[j] == b@[j],
        decreases 40 - i,
    {
        if a[i] != b[i] {
            return false;
        }
        i = i + 1;
    }
    assert(a@ =~= b@);
    true
}

/// How many bytes of the identifier message are still to be read.
pub open spec fn spec_identifier_wanted(st: ClientStateView) -> int {
    match st {
        ClientStateView::AwaitingIdentifier(d) => IDENTIFIER_MESSAGE_BYTES - d.len(),
        _ => 0,
    }
}

/// What reading `bytes` of the identifier message does: once all 48 bytes
/// are in, the client waits for the game to accept the 40 bytes after the
/// length prefix.
pub open spec fn spec_receive_identifier(st: ClientStateView, bytes: Seq<u8>) -> ClientStateView {
    match st {
        ClientStateView::AwaitingIdentifier(d) => if d.len() + bytes.len() >= IDENTIFIER_MESSAGE_BYTES {
            ClientStateView::AwaitingUuid((d + bytes).subrange(8, 48))
        } else {
            ClientStateView::AwaitingIdentifier(d + bytes)
        },
        _ => st,
    }
}

pub open spec fn identifier_state_ok(st: ClientStateView) -> bool {
    st matches ClientStateView::AwaitingIdentifier(d) ==> d.len() < IDENTIFIER_MESSAGE_BYTES
}

impl ClientState {
    /// A client that has just connected: nothing of its identifier read.
    pub fn new() -> (r: ClientState)
        ensures
            r@ == ClientStateView::AwaitingIdentifier(Seq::empty()),
    {
        ClientState::AwaitingIdentifier(Vec::new())
    }

    /// How many bytes of the identifier message to read next.
    pub fn identifier_wanted(&self) -> (r: usize)
        requires
            identifier_state_ok(self@),
        ensures
            r == spec_identifier_wanted(self@),
    {
        match self {
            ClientState::AwaitingIdentifier(d) => IDENTIFIER_MESSAGE_BYTES - d.len(),
            _ => 0,
        }
    }

    /// Takes the bytes a read of the identifier message got (no more than
    /// were asked for).
    pub fn receive_identifier(&mut self, bytes: &Vec<u8>)
        requires
            identifier_state_ok(old(self)@),
            bytes.len() <= spec_identifier_wanted(old(self)@),
        ensures
            final(self)@ == spec_receive_identifier(old(self)@, bytes@),
            identifier_state_ok(final(self)@),
    {
        match self {
            ClientState::AwaitingIdentifier(d) => {
                let mut i: usize = 0;
                let ghost d0 = d@;
                while i < bytes.len()
                    invariant
                        i <= bytes.len(),
                        d@ == d0 + bytes@.take(i as int),
                    decreases bytes.len() - i,
                {
                    d.push(bytes[i]);
                    i = i + 1;
                    assert(d@ =~= d0 + bytes@.take(i as int));
                }
                assert(bytes@.take(bytes.len() as int) =~= bytes@);
                if d.len() >= IDENTIFIER_MESSAGE_BYTES {
                    let mut id = [0u8; 40];
                    let mut k: usize = 0;
                    while k < 40
                        invariant
                            k <= 40,
                            d@.len() == IDENTIFIER_MESSAGE_BYTES,
                            forall|j: int| 0 <= j < k ==> id@[j] == d@[j + 8],
                        decreases 40 - k,
                    {
                        id[k] = d[k + 8];
                        k = k + 1;
                    }
                    assert(id@ =~= d@.subrange(8, 48));
                    *self = ClientState::AwaitingUuid(id);
                }
            },
            _ => {},
        }
    }
}

/// The identifier of the first client that waits to be accepted.
pub open spec fn first_unverified(states: Seq<ClientStateView>) -> Option<Seq<u8>>
    decreases states.len(),
{
    if states.len() == 0 {
        None
    } else {
        match states[0] {
            ClientStateView::AwaitingUuid(id) => Some(id),
            _ => first_unverified(states.drop_first()),
        }
    }
}

/// The index of the first client that waits to be accepted with `identifier`.
pub open spec fn find_awaiting(states: Seq<ClientStateView>, identifier: Seq<u8>) -> Option<int>
    decreases states.len(),
{
    if states.len() == 0 {
        None
    } else if states.last() == ClientStateView::AwaitingUuid(identifier) && find_awaiting(
        states.drop_last(),
        identifier,
    ) is None {
        Some(states.len() - 1)
    } else {
        find_awaiting(states.drop_last(), identifier)
    }
}

impl NetNodeServer {
    /// The identifier of a client that waits to be accepted (the first such
    /// in the clients' order), if there is one.
    pub fn get_unverified_client(&self) -> (r: Option<[u8; 40]>)
        ensures
            match first_unverified(client_states(self.clients@)) {
                Some(id) => r matches Some(x) && x@ == id,
                None => r is None,
            },
    {
        let mut i: usize = 0;
        assert(client_states(self.clients@).skip(0) =~= client_states(self.clients@));
        while i < self.clients.len()
            invariant
                i <= self.clients.len(),
                first_unverified(client_states(self.clients@)) == first_unverified(
                    client_states(self.clients@).skip(i as int),
                ),
            decreases self.clients.len() - i,
        {
            let ghost rest = client_states(self.clients@).skip(i as int);
            assert(rest.drop_first() =~= client_states(self.clients@).skip(i + 1));
            match &self.clients[i].1 {
                ClientState::AwaitingUuid(id) => {
                    return Some(*id);
                },
                _ => {},
            }
            i = i + 1;
        }
        None
    }

    /// Accepts the first client that waits with `identifier`: it becomes
    /// connected with the account `uuid`. Does nothing when none waits so.
    pub fn verify_client(&mut self, identifier: [u8; 40], uuid: [u8; 16])
        requires
            old(self).wf(),
        ensures
            final(self).wf(),
            client_keys(final(self).clients@) == client_keys(old(self).clients@),
            match find_awaiting(client_states(old(self).clients@), identifier@) {
                Some(k) => {
                    &&& final(self).clients@.len() == old(self).clients@.len()
                    &&& (forall|j: int| 0 <= j < old(self).clients@.len() && j != k ==> 
                        #[trigger] final(self).clients@[j].1@ == old(self).clients@[j].1@)
                    &&& final(self).clients@[k].1@ matches ClientStateView::Connected(c) && c.uuid == uuid@
                        && c.state == SubStateView::EventSync && c.budget == INITIAL_CLIENT_BANDWIDTH
                        && c.position == 0 && c.priorities.len() == 0 && c.tick_number == 0
                },
                None => client_states(final(self).clients@) == client_states(old(self).clients@),
            },
            final(self).networked_nodes@ == old(self).networked_nodes@,
            final(self).message_buffer@ == old(self).message_buffer@,
            final(self).current_tick == old(self).current_tick,
            final(self).last_netnode_id == old(self).last_netnode_id,
            final(self).last_message_id == old(self).last_message_id,
    {
        let ghost states = client_states(self.clients@);
        let mut i: usize = 0;
        while i < self.clients.len()
            invariant
                i <= self.clients.len(),
                *self == *old(self),
                old(self).wf(),
                states == client_states(self.clients@),
                find_awaiting(states.take(i as int), identifier@) is None,
            decreases self.clients.len() - i,
        {
            assert(states.take(i + 1).drop_last() =~= states.take(i as int));
            let found = match &self.clients[i].1 {
                ClientState::AwaitingUuid(id) => same_identifier(id, &identifier),
                _ => false,
            };
            if found {
                proof {
                    assert(states.take(i + 1).last() == ClientStateView::AwaitingUuid(identifier@));
                    lemma_find_awaiting_prefix(states, i as int + 1, identifier@);
                }
                let ghost before = self.clients@;
                let key = clone_key(&self.clients[i].0);
                self.clients.set(i, (key, ClientState::Connected(ConnectedClient::new(uuid))));
                proof {
                    assert(client_keys(self.clients@) =~= client_keys(before));
                }
                return;
            }
            i = i + 1;
        }
        assert(states.take(self.clients.len() as int) =~= states);
    }
}

fn clone_key(k: &Vec<u8>) -> (r: Vec<u8>)
    ensures
        r@ == k@,
{
    let mut r: Vec<u8> = Vec::new();
    let mut i: usize = 0;
    while i < k.len()
        invariant
            i <= k.len(),
            r@ == k@.take(i as int),
        decreases k.len() - i,
    {
        r.push(k[i]);
        i = i + 1;
        assert(r@ =~= k@.take(i as int));
    }
    assert(k@.take(k.len() as int) =~= k@);
    r
}

proof fn lemma_find_awaiting_prefix(states: Seq<ClientStateView>, n: int, id: Seq<u8>)
    requires
        0 < n <= states.len(),
        find_awaiting(states.take(n), id) is Some,
    ensures
        find_awaiting(states, id) == find_awaiting(states.take(n), id),
    decreases states.len(),
{
    if n < states.len() {
        assert(states.drop_last().take(n) =~= states.take(n));
        lemma_find_awaiting_prefix(states.drop_last(), n, id);
    } else {
        assert(states.take(n) =~= states);
    }
}

// ---------------------------------------------------------------------------
// Client list and node removal
// ---------------------------------------------------------------------------

pub open spec fn pair_views(cs: Seq<(Vec<u8>, ClientState)>) -> Seq<(Seq<u8>, ClientStateView)> {
    cs.map_values(|c: (Vec<u8>, ClientState)| (c.0@, c.1@))
}

/// The clients that are still among the connected peers, in order.
pub open spec fn retained(cs: Seq<(Seq<u8>, ClientStateView)>, peers: Seq<Seq<u8>>) -> Seq<(Seq<u8>, ClientStateView)>
    decreases cs.len(),
{
    if cs.len() == 0 {
        Seq::empty()
    } else {
        let r = retained(cs.drop_last(), peers);
        if peers.contains(cs.last().0) {
            r.push(cs.last())
        } else {
            r
        }
    }
}

/// The peers that are not yet clients, each once, in order.
pub open spec fn joined(keys: Seq<Seq<u8>>, peers: Seq<Seq<u8>>) -> Seq<Seq<u8>>
    decreases peers.len(),
{
    if peers.len() == 0 {
        Seq::empty()
    } else {
        let r = joined(keys, peers.drop_last());
        let p = peers.last();
        if keys.contains(p) || r.contains(p) {
            r
        } else {
            r.push(p)
        }
    }
}

pub open spec fn keys_of(cs: Seq<(Seq<u8>, ClientStateView)>) -> Seq<Seq<u8>> {
    cs.map_values(|c: (Seq<u8>, ClientStateView)| c.0)
}

/// The client list after the connected peers are known: clients that left
/// are dropped, and each new peer is added as a client that has just
/// connected.
pub open spec fn spec_update_client_list(cs: Seq<(Seq<u8>, ClientStateView)>, peers: Seq<Seq<u8>>) -> Seq<(Seq<u8>, ClientStateView)> {
    let kept = retained(cs, peers);
    kept + joined(keys_of(kept), peers).map_values(
        |k: Seq<u8>| (k, ClientStateView::AwaitingIdentifier(Seq::empty())),
    )
}

fn contains_key(keys: &Vec<Vec<u8>>, k: &Vec<u8>) -> (r: bool)
    ensures
        r == keys@.map_values(|x: Vec<u8>| x@).contains(k@),
{
    let ghost kv = keys@.map_values(|x: Vec<u8>| x@);
    let mut i: usize = 0;
    while i < keys.len()
        invariant
            i <= keys.len(),
            kv == keys@.map_values(|x: Vec<u8>| x@),
            forall|j: int| 0 <= j < i ==> kv[j] != k@,
        decreases keys.len() - i,
    {
        if same_key(&keys[i], k) {
            assert(kv[i as int] == k@);
            return true;
        }
        i = i + 1;
    }
    false
}

fn has_client(clients: &Vec<(Vec<u8>, ClientState)>, k: &Vec<u8>) -> (r: bool)
    ensures
        r == keys_of(pair_views(clients@)).contains(k@),
{
    let ghost kv = keys_of(pair_views(clients@));
    let mut i: usize = 0;
    while i < clients.len()
        invariant
            i <= clients.len(),
            kv == keys_of(pair_views(clients@)),
            forall|j: int| 0 <= j < i ==> kv[j] != k@,
        decreases clients.len() - i,
    {
        if same_key(&clients[i].0, k) {
            assert(kv[i as int] == k@);
            return true;
        }
        i = i + 1;
    }
    false
}

proof fn lemma_retained_keys_unique(cs: Seq<(Seq<u8>, ClientStateView)>, peers: Seq<Seq<u8>>)
    requires
        unique_keys(keys_of(cs)),
    ensures
        unique_keys(keys_of(retained(cs, peers))),
        forall|k: Seq<u8>| keys_of(retained(cs, peers)).contains(k) ==> keys_of(cs).contains(k),
    decreases cs.len(),
{
    if cs.len() > 0 {
        assert(keys_of(cs.drop_last()) =~= keys_of(cs).drop_last());
        lemma_retained_keys_unique(cs.drop_last(), peers);
        let r = retained(cs.drop_last(), peers);
        if peers.contains(cs.last().0) {
            assert(keys_of(r.push(cs.last())) =~= keys_of(r).push(cs.last().0));
            assert forall|k: Seq<u8>| keys_of(r).contains(k) implies k != cs.last().0 by {
                let j = choose|j: int| 0 <= j < keys_of(r).len() && keys_of(r)[j] == k;
                assert(keys_of(cs.drop_last()).contains(k));
                let m = choose|m: int| 0 <= m < keys_of(cs.drop_last()).len() && keys_of(cs.drop_last())[m] == k;
                assert(keys_of(cs)[m] == k);
                assert(keys_of(cs)[cs.len() - 1] == cs.last().0);
            }
            let kr = keys_of(r);
            assert forall|a: int, b: int| 0 <= a < b < kr.push(cs.last().0).len() implies kr.push(
                cs.last().0,
            )[a] != kr.push(cs.last().0)[b] by {
                if b == kr.len() {
                    assert(kr.contains(kr[a]));
                }
            }
            assert forall|k: Seq<u8>| keys_of(r.push(cs.last())).contains(k) implies keys_of(cs).contains(k) by {
                if k == cs.last().0 {
                    assert(keys_of(cs)[cs.len() - 1] == k);
                } else {
                    let j = choose|j: int| 0 <= j < keys_of(r.push(cs.last())).len() && keys_of(r.push(cs.last()))[j] == k;
                    assert(keys_of(r)[j] == k);
                    assert(keys_of(cs.drop_last()).contains(k));
                    let m = choose|m: int| 0 <= m < keys_of(cs.drop_last()).len() && keys_of(cs.drop_last())[m] == k;
                    assert(keys_of(cs)[m] == k);
                }
            }
        } else {
            assert forall|k: Seq<u8>| keys_of(r).contains(k) implies keys_of(cs).contains(k) by {
                assert(keys_of(cs.drop_last()).contains(k));
                let m = choose|m: int| 0 <= m < keys_of(cs.drop_last()).len() && keys_of(cs.drop_last())[m] == k;
                assert(keys_of(cs)[m] == k);
            }
        }
    }
}

impl NetNodeServer {
    /// Brings the client list in line with the connected peers: clients
    /// whose connection is gone are dropped, and each new peer becomes a
    /// client that has just connected.
    pub fn update_client_list(&mut self, peers: &Vec<Vec<u8>>)
        requires
            old(self).wf(),
        ensures
            final(self).wf(),
            pair_views(final(self).clients@) == spec_update_client_list(
                pair_views(old(self).clients@),
                peers@.map_values(|x: Vec<u8>| x@),
            ),
            final(self).networked_nodes@ == old(self).networked_nodes@,
            final(self).message_buffer@ == old(self).message_buffer@,
            final(self).current_tick == old(self).current_tick,
            final(self).last_netnode_id == old(self).last_netnode_id,
            final(self).last_message_id == old(self).last_message_id,
    {
        let ghost pv = peers@.map_values(|x: Vec<u8>| x@);
        let ghost orig = pair_views(self.clients@);
        let mut i: usize = 0;
        let mut n: usize = 0;
        proof {
            assert(keys_of(pair_views(self.clients@)) =~= client_keys(self.clients@));
            assert(orig.len() == self.clients.len());
        }
        while n < self.clients.len()
            invariant
                orig.len() <= usize::MAX,
                i <= orig.len(),
                n <= self.clients.len(),
                pair_views(self.clients@) == retained(orig.take(i as int), pv) + orig.skip(i as int),
                n == retained(orig.take(i as int), pv).len(),
                self.clients.len() - n == orig.len() - i,
                orig == pair_views(old(self).clients@),
                pv == peers@.map_values(|x: Vec<u8>| x@),
                self.networked_nodes@ == old(self).networked_nodes@,
                self.message_buffer@ == old(self).message_buffer@,
                self.current_tick == old(self).current_tick,
                self.last_netnode_id == old(self).last_netnode_id,
                self.last_message_id == old(self).last_message_id,
            decreases self.clients.len() - n,
        {
            assert(orig.take(i + 1).drop_last() =~= orig.take(i as int));
            assert(orig.take(i + 1).last() == orig[i as int]);
            assert(pair_views(self.clients@)[n as int] == orig[i as int]);
            let keep = contains_key(peers, &self.clients[n].0);
            let ghost before = pair_views(self.clients@);
            if keep {
                n = n + 1;
                proof {
                    assert(before =~= retained(orig.take(i + 1), pv) + orig.skip(i + 1));
                }
            } else {
                self.clients.remove(n);
                proof {
                    assert(pair_views(self.clients@) =~= before.remove(n as int));
                    assert(before.remove(n as int) =~= retained(orig.take(i + 1), pv) + orig.skip(i + 1));
                }
            }
            i = i + 1;
        }
        proof {
            assert(orig.skip(i as int) =~= Seq::<(Seq<u8>, ClientStateView)>::empty());
            assert(orig.take(i as int) =~= orig);
            assert(pair_views(self.clients@) =~= retained(orig, pv));
            assert(keys_of(orig) =~= client_keys(old(self).clients@));
            lemma_retained_keys_unique(orig, pv);
        }
        let ghost kept = retained(orig, pv);
        let mut j: usize = 0;
        while j < peers.len()
            invariant
                j <= peers.len(),
                pv == peers@.map_values(|x: Vec<u8>| x@),
                kept == retained(orig, pv),
                unique_keys(keys_of(pair_views(self.clients@))),
                pair_views(self.clients@) == kept + joined(keys_of(kept), pv.take(j as int)).map_values(
                    |k: Seq<u8>| (k, ClientStateView::AwaitingIdentifier(Seq::empty())),
                ),
                keys_of(pair_views(self.clients@)) == keys_of(kept) + joined(keys_of(kept), pv.take(j as int)),
                self.networked_nodes@ == old(self).networked_nodes@,
                self.message_buffer@ == old(self).message_buffer@,
                self.current_tick == old(self).current_tick,
                self.last_netnode_id == old(self).last_netnode_id,
                self.last_message_id == old(self).last_message_id,
            decreases peers.len() - j,
        {
            let ghost prev_joined = joined(keys_of(kept), pv.take(j as int));
            assert(pv.take(j + 1).drop_last() =~= pv.take(j as int));
            assert(pv.take(j + 1).last() == peers@[j as int]@);
            let present = has_client(&self.clients, &peers[j]);
            proof {
                let kc = keys_of(pair_views(self.clients@));
                assert(kc.contains(peers@[j as int]@) <==> (keys_of(kept).contains(peers@[j as int]@)
                    || prev_joined.contains(peers@[j as int]@))) by {
                    if kc.contains(peers@[j as int]@) {
                        let m = choose|m: int| 0 <= m < kc.len() && kc[m] == peers@[j as int]@;
                        if m < keys_of(kept).len() {
                            assert(keys_of(kept)[m] == kc[m]);
                        } else {
                            assert(prev_joined[m - keys_of(kept).len()] == kc[m]);
                        }
                    }
                    if keys_of(kept).contains(peers@[j as int]@) {
                        let m = choose|m: int| 0 <= m < keys_of(kept).len() && keys_of(kept)[m] == peers@[j as int]@;
                        assert(kc[m] == keys_of(kept)[m]);
                    }
                    if prev_joined.contains(peers@[j as int]@) {
                        let m = choose|m: int| 0 <= m < prev_joined.len() && prev_joined[m] == peers@[j as int]@;
                        assert(kc[m + keys_of(kept).len()] == prev_joined[m]);
                    }
                }
            }
            if !present {
                let ghost before = pair_views(self.clients@);
                let key = clone_key(&peers[j]);
                self.clients.push((key, ClientState::new()));
                proof {
                    let p = peers@[j as int]@;
                    assert(pair_views(self.clients@) =~= before.push((p, ClientStateView::AwaitingIdentifier(Seq::empty()))));
                    assert(keys_of(pair_views(self.clients@)) =~= keys_of(before).push(p));
                    let kc = keys_of(before);
                    assert forall|a: int, b: int| 0 <= a < b < kc.push(p).len() implies kc.push(p)[a] != kc.push(p)[b] by {
                        if b == kc.len() {
                            assert(kc[a] == kc.push(p)[a]);
                        }
                    }
                }
            }
            j = j + 1;
        }
        proof {
            assert(pv.take(peers.len() as int) =~= pv);
            assert(keys_of(pair_views(self.clients@)) =~= client_keys(self.clients@));
        }
    }
}

/// The priorities without those of `node`.
pub open spec fn without_node(es: Seq<PriorityEntry>, node: u64) -> Seq<PriorityEntry>
    decreases es.len(),
{
    if es.len() == 0 {
        Seq::empty()
    } else if es.last().node == node {
        without_node(es.drop_last(), node)
    } else {
        without_node(es.drop_last(), node).push(es.last())
    }
}

fn remove_node_priorities(es: &Vec<PriorityEntry>, node: u64) -> (r: Vec<PriorityEntry>)
    ensures
        r@ == without_node(es@, node),
{
    let mut r: Vec<PriorityEntry> = Vec::new();
    let mut i: usize = 0;
    while i < es.len()
        invariant
            i <= es.len(),
            r@ == without_node(es@.take(i as int), node),
        decreases es.len() - i,
    {
        assert(es@.take(i + 1).drop_last() =~= es@.take(i as int));
        if es[i].node != node {
            r.push(es[i]);
        }
        i = i + 1;
    }
    assert(es@.take(es.len() as int) =~= es@);
    r
}

/// The nodes without the first occurrence of `node`.
pub open spec fn without_first(nodes: Seq<u64>, node: u64) -> Seq<u64> {
    if nodes.contains(node) {
        let k = choose|k: int| 0 <= k < nodes.len() && nodes[k] == node && forall|j: int| 0 <= j < k ==> nodes[j] != node;
        nodes.remove(k)
    } else {
        nodes
    }
}

fn remove_first(nodes: &mut Vec<u64>, node: u64)
    ensures
        final(nodes)@ == without_first(old(nodes)@, node),
{
    let mut k: usize = 0;
    while k < nodes.len()
        invariant
            k <= nodes.len(),
            nodes@ == old(nodes)@,
            forall|j: int| 0 <= j < k ==> nodes@[j] != node,
        decreases nodes.len() - k,
    {
        if nodes[k] == node {
            let ghost ns = nodes@;
            nodes.remove(k);
            proof {
                assert(ns.contains(node));
                let c = choose|c: int| 0 <= c < ns.len() && ns[c] == node && forall|j: int| 0 <= j < c ==> ns[j] != node;
                if c < k {
                    assert(false);
                } else if c > k {
                    assert(ns[k as int] == node);
                    assert(false);
                }
            }
            return;
        }
        k = k + 1;
    }
    proof {
        assert(!nodes@.contains(node));
    }
}

impl NetNodeServer {
    /// Unregisters a networked node: every connected client forgets its
    /// priority, and it leaves the nodes.
    pub fn unregister_node(&mut self, node: u64)
        requires
            old(self).wf(),
        ensures
            final(self).wf(),
            client_keys(final(self).clients@) == client_keys(old(self).clients@),
            final(self).clients@.len() == old(self).clients@.len(),
            forall|i: int| 0 <= i < old(self).clients@.len() ==> match #[trigger] old(self).clients@[i].1@ {
                ClientStateView::Connected(c) => final(self).clients@[i].1@ == ClientStateView::Connected(
                    ClientView { priorities: without_node(c.priorities, node), ..c },
                ),
                other => final(self).clients@[i].1@ == other,
            },
            final(self).networked_nodes@ == without_first(old(self).networked_nodes@, node),
            final(self).message_buffer@ == old(self).message_buffer@,
            final(self).current_tick == old(self).current_tick,
            final(self).last_netnode_id == old(self).last_netnode_id,
            final(self).last_message_id == old(self).last_message_id,
    {
        let mut i: usize = 0;
        while i < self.clients.len()
            invariant
                i <= self.clients.len(),
                self.clients.len() == old(self).clients.len(),
                client_keys(self.clients@) == client_keys(old(self).clients@),
                forall|j: int| i <= j < self.clients@.len() ==> #[trigger] self.clients@[j] == old(self).clients@[j],
                forall|j: int| 0 <= j < i ==> match #[trigger] old(self).clients@[j].1@ {
                    ClientStateView::Connected(c) => self.clients@[j].1@ == ClientStateView::Connected(
                        ClientView { priorities: without_node(c.priorities, node), ..c },
                    ),
                    other => self.clients@[j].1@ == other,
                },
                self.networked_nodes@ == old(self).networked_nodes@,
                self.message_buffer@ == old(self).message_buffer@,
                self.current_tick == old(self).current_tick,
                self.last_netnode_id == old(self).last_netnode_id,
                self.last_message_id == old(self).last_message_id,
            decreases self.clients.len() - i,
        {
            let ghost before = self.clients@;
            let (key, state) = self.clients.remove(i);
            let new_state = match state {
                ClientState::Connected(c) => {
                    let priorities = remove_node_priorities(&c.priorities, node);
                    ClientState::Connected(ConnectedClient { priorities, ..c })
                },
                other => other,
            };
            self.clients.insert(i, (key, new_state));
            proof {
                assert forall|j: int| 0 <= j < self.clients@.len() && j != i implies self.clients@[j] == before[j] by {
                }
                assert(client_keys(self.clients@) =~= client_keys(before));
            }
            i = i + 1;
        }
        remove_first(&mut self.networked_nodes, node);
    }
}

// ---------------------------------------------------------------------------
// Priorities and due datagrams
// ---------------------------------------------------------------------------

/// A tiebreak's bytes read as a big-endian number; byte arrays compare in
/// this order.
pub open spec fn be_value(s: Seq<u8>) -> nat
    decreases s.len(),
{
    if s.len() == 0 {
        0
    } else {
        be_value(s.drop_last()) * 256 + s.last() as nat
    }
}

/// Whether entry `a` comes before entry `b`: by priority, then by tiebreak.
pub open spec fn key_lt(a: PriorityEntry, b: PriorityEntry) -> bool {
    a.priority < b.priority || (a.priority == b.priority && be_value(a.tiebreak@) < be_value(b.tiebreak@))
}

/// Whether two entries have the same key (priority and tiebreak).
pub open spec fn same_entry_key(a: PriorityEntry, b: PriorityEntry) -> bool {
    a.priority == b.priority && be_value(a.tiebreak@) == be_value(b.tiebreak@)
}

/// `x` put into `sorted` (ascending, no key twice) at its key's place; an
/// entry with the same key gives way to `x`.
pub open spec fn insert_by_key(sorted: Seq<PriorityEntry>, x: PriorityEntry) -> Seq<PriorityEntry>
    decreases sorted.len(),
{
    if sorted.len() == 0 || key_lt(sorted.last(), x) {
        sorted.push(x)
    } else if same_entry_key(sorted.last(), x) {
        sorted.drop_last().push(x)
    } else {
        insert_by_key(sorted.drop_last(), x).push(sorted.last())
    }
}

/// The entries in ascending order of key, as a map keyed by it holds them:
/// of entries with the same key, the one given last stays.
pub open spec fn sort_by_key(s: Seq<PriorityEntry>) -> Seq<PriorityEntry>
    decreases s.len(),
{
    if s.len() == 0 {
        s
    } else {
        insert_by_key(sort_by_key(s.drop_last()), s.last())
    }
}

/// The priorities after a tick's refresh: when the client's priorities do
/// not match the number of nodes, they start over at 0 for each node (with
/// the given random tiebreaks); then each priority grows by its node's
/// increment (wrapping around), and the entries are put in order of key.
pub open spec fn spec_tick_client_priorities(
    es: Seq<PriorityEntry>,
    nodes: Seq<u64>,
    tiebreaks: Seq<[u8; 16]>,
    increment: spec_fn(u64) -> i64,
) -> Seq<PriorityEntry> {
    let base = if es.len() != nodes.len() {
        sort_by_key(fresh_entries(nodes, tiebreaks))
    } else {
        es
    };
    sort_by_key(incremented(base, increment))
}

/// An entry of priority 0 for each node, with its tiebreak.
pub open spec fn fresh_entries(nodes: Seq<u64>, tiebreaks: Seq<[u8; 16]>) -> Seq<PriorityEntry> {
    Seq::new(nodes.len(), |i: int| PriorityEntry { priority: 0, tiebreak: tiebreaks[i], node: nodes[i] })
}

/// The entries with each priority grown by its node's increment.
pub open spec fn incremented(base: Seq<PriorityEntry>, increment: spec_fn(u64) -> i64) -> Seq<PriorityEntry> {
    Seq::new(
        base.len(),
        |i: int| PriorityEntry { priority: base[i].priority.wrapping_add(increment(base[i].node)), ..base[i] },
    )
}

pub open spec fn increment_of(increments: Seq<(u64, i64)>) -> spec_fn(u64) -> i64 {
    |node: u64| lookup_increment(increments, node)
}

/// The increment given first for `node`, or 0.
pub open spec fn lookup_increment(increments: Seq<(u64, i64)>, node: u64) -> i64
    decreases increments.len(),
{
    if increments.len() == 0 {
        0
    } else if increments[0].0 == node {
        increments[0].1
    } else {
        lookup_increment(increments.drop_first(), node)
    }
}

fn find_increment(increments: &Vec<(u64, i64)>, node: u64) -> (r: i64)
    ensures
        r == lookup_increment(increments@, node),
{
    let mut i: usize = 0;
    assert(increments@.skip(0) =~= increments@);
    while i < increments.len()
        invariant
            i <= increments.len(),
            lookup_increment(increments@, node) == lookup_increment(increments@.skip(i as int), node),
        decreases increments.len() - i,
    {
        assert(increments@.skip(i as int).drop_first() =~= increments@.skip(i + 1));
        if increments[i].0 == node {
            return increments[i].1;
        }
        i = i + 1;
    }
    0
}

proof fn lemma_be_value_bound(s: Seq<u8>)
    ensures
        be_value(s) < pow256(s.len()),
    decreases s.len(),
{
    if s.len() > 0 {
        let d = s.drop_last();
        lemma_be_value_bound(d);
        let v = be_value(d);
        let p = pow256(d.len());
        let b = s.last();
        assert(v * 256 + b < p * 256) by (nonlinear_arith)
            requires
                v < p,
                b < 256,
        ;
    }
}

/// A tiebreak as a number (see `be_value`).
fn tiebreak_value(t: &[u8; 16]) -> (r: u128)
    ensures
        r == be_value(t@),
{
    let mut v: u128 = 0;
    let mut i: usize = 0;
    proof {
        reveal_with_fuel(pow256, 16);
        assert(t@.take(0) =~= Seq::<u8>::empty());
    }
    while i < 16
        invariant
            i <= 16,
            t@.len() == 16,
            v == be_value(t@.take(i as int)),
        decreases 16 - i,
    {
        proof {
            lemma_be_value_bound(t@.take(i as int));
            lemma_pow256_mono(i as nat, 15);
            reveal_with_fuel(pow256, 16);
            assert(t@.take(i + 1).drop_last() =~= t@.take(i as int));
        }
        v = v * 256 + t[i] as u128;
        i = i + 1;
    }
    assert(t@.take(16) =~= t@);
    v
}

/// Whether entry `a` comes before entry `b` (see `key_lt`), and whether their
/// keys are the same.
fn key_order(a: &PriorityEntry, b: &PriorityEntry) -> (r: (bool, bool))
    ensures
        r.0 == key_lt(*a, *b),
        r.1 == same_entry_key(*a, *b),
{
    let ta = tiebreak_value(&a.tiebreak);
    let tb = tiebreak_value(&b.tiebreak);
    (a.priority < b.priority || (a.priority == b.priority && ta < tb), a.priority == b.priority && ta == tb)
}

/// Inserts `x` into entries kept in ascending order of key (see `insert_by_key`).
fn insert_entry(v: &mut Vec<PriorityEntry>, x: PriorityEntry)
    ensures
        final(v)@ == insert_by_key(old(v)@, x),
{
    let mut i = v.len();
    proof {
        assert(old(v)@.take(i as int) =~= old(v)@);
        assert(old(v)@.skip(i as int) =~= Seq::<PriorityEntry>::empty());
        assert(insert_by_key(old(v)@, x) + Seq::<PriorityEntry>::empty() =~= insert_by_key(old(v)@, x));
    }
    loop
        invariant
            i <= v.len(),
            v@ == old(v)@,
            insert_by_key(old(v)@, x) == insert_by_key(old(v)@.take(i as int), x) + old(v)@.skip(i as int),
        ensures
            i <= v.len(),
            v@ == old(v)@,
            insert_by_key(old(v)@, x) == insert_by_key(old(v)@.take(i as int), x) + old(v)@.skip(i as int),
            i == 0 || key_lt(old(v)@[i - 1], x),
        decreases i,
    {
        if i == 0 {
            break;
        }
        let (before, same) = key_order(&v[i - 1], &x);
        let ghost t = old(v)@.take(i as int);
        proof {
            assert(t.drop_last() =~= old(v)@.take(i - 1));
            assert(t.last() == old(v)@[i - 1]);
        }
        if before {
            break;
        }
        if same {
            proof {
                assert(insert_by_key(t, x) == old(v)@.take(i - 1).push(x));
                assert(old(v)@.take(i - 1).push(x) + old(v)@.skip(i as int) =~= old(v)@.update(i - 1, x));
            }
            v.set(i - 1, x);
            return;
        }
        proof {
            assert(insert_by_key(old(v)@.take(i - 1), x).push(old(v)@[i - 1]) + old(v)@.skip(i as int)
                =~= insert_by_key(old(v)@.take(i - 1), x) + old(v)@.skip(i - 1));
        }
        i = i - 1;
    }
    proof {
        let t = old(v)@.take(i as int);
        if i > 0 {
            assert(t.last() == old(v)@[i - 1]);
        }
        assert(insert_by_key(t, x) == t.push(x));
    }
    v.insert(i, x);
    proof {
        assert(old(v)@.insert(i as int, x) =~= old(v)@.take(i as int).push(x) + old(v)@.skip(i as int));
    }
}

/// The entries in ascending order of key, the last of each key staying
/// (see `sort_by_key`).
pub fn sort_priorities(es: &Vec<PriorityEntry>) -> (r: Vec<PriorityEntry>)
    ensures
        r@ == sort_by_key(es@),
{
    let mut sorted: Vec<PriorityEntry> = Vec::new();
    let mut i: usize = 0;
    while i < es.len()
        invariant
            i <= es.len(),
            sorted@ == sort_by_key(es@.take(i as int)),
        decreases es.len() - i,
    {
        insert_entry(&mut sorted, es[i]);
        proof {
            assert(es@.take(i + 1).drop_last() =~= es@.take(i as int));
            assert(es@.take(i + 1).last() == es@[i as int]);
        }
        i = i + 1;
    }
    assert(es@.take(es.len() as int) =~= es@);
    sorted
}

/// Whether the entries are in strictly ascending order of key.
pub open spec fn strictly_sorted(es: Seq<PriorityEntry>) -> bool {
    forall|i: int, j: int| 0 <= i < j < es.len() ==> key_lt(es[i], es[j])
}

#[verifier::spinoff_prover]
#[verifier::rlimit(40)]
proof fn lemma_insert_by_key(s: Seq<PriorityEntry>, x: PriorityEntry)
    requires
        strictly_sorted(s),
    ensures
        strictly_sorted(insert_by_key(s, x)),
        insert_by_key(s, x).contains(x),
        forall|k: int| 0 <= k < insert_by_key(s, x).len() ==> #[trigger] insert_by_key(s, x)[k] == x || s.contains(
            insert_by_key(s, x)[k],
        ),
        forall|k: int| 0 <= k < s.len() ==> insert_by_key(s, x).contains(#[trigger] s[k]) || same_entry_key(s[k], x),
    decreases s.len(),
{
    let r = insert_by_key(s, x);
    if s.len() == 0 || key_lt(s.last(), x) {
        assert(r[s.len() as int] == x);
        assert forall|i: int, j: int| 0 <= i < j < r.len() implies key_lt(r[i], r[j]) by {
            if j == s.len() as int && i < s.len() - 1 {
                assert(key_lt(s[i], s[s.len() - 1]));
            }
        }
        assert forall|k: int| 0 <= k < r.len() implies #[trigger] r[k] == x || s.contains(r[k]) by {
            if k < s.len() {
                assert(r[k] == s[k]);
            }
        }
        assert forall|k: int| 0 <= k < s.len() implies r.contains(#[trigger] s[k]) || same_entry_key(s[k], x) by {
            assert(r[k] == s[k]);
        }
    } else if same_entry_key(s.last(), x) {
        let d = s.drop_last();
        assert(r[d.len() as int] == x);
        assert forall|i: int, j: int| 0 <= i < j < r.len() implies key_lt(r[i], r[j]) by {
            if j == d.len() as int {
                assert(key_lt(s[i], s[s.len() - 1]));
            } else {
                assert(r[i] == s[i] && r[j] == s[j]);
            }
        }
        assert forall|k: int| 0 <= k < r.len() implies #[trigger] r[k] == x || s.contains(r[k]) by {
            if k < d.len() {
                assert(r[k] == s[k]);
            }
        }
        assert forall|k: int| 0 <= k < s.len() implies r.contains(#[trigger] s[k]) || same_entry_key(s[k], x) by {
            if k < d.len() {
                assert(r[k] == s[k]);
            }
        }
    } else {
        let d = s.drop_last();
        let l = s.last();
        assert(strictly_sorted(d)) by {
            assert forall|i: int, j: int| 0 <= i < j < d.len() implies key_lt(d[i], d[j]) by {
                assert(d[i] == s[i] && d[j] == s[j]);
            }
        }
        lemma_insert_by_key(d, x);
        let m = insert_by_key(d, x);
        assert(r == m.push(l));
        assert(key_lt(x, l));
        assert forall|k: int| 0 <= k < m.len() implies key_lt(#[trigger] m[k], l) by {
            if m[k] != x {
                assert(d.contains(m[k]));
                let w = choose|w: int| 0 <= w < d.len() && d[w] == m[k];
                assert(key_lt(s[w], s[s.len() - 1]));
            }
        }
        assert forall|i: int, j: int| 0 <= i < j < r.len() implies key_lt(r[i], r[j]) by {
            if j == m.len() as int {
                assert(key_lt(m[i], l));
            } else {
                assert(r[i] == m[i] && r[j] == m[j]);
            }
        }
        let wx = choose|w: int| 0 <= w < m.len() && m[w] == x;
        assert(r[wx] == x);
        assert forall|k: int| 0 <= k < r.len() implies #[trigger] r[k] == x || s.contains(r[k]) by {
            if k == m.len() as int {
                assert(s[s.len() - 1] == l);
            } else {
                assert(r[k] == m[k]);
                if m[k] != x {
                    assert(d.contains(m[k]));
                    let w = choose|w: int| 0 <= w < d.len() && d[w] == m[k];
                    assert(s[w] == m[k]);
                }
            }
        }
        assert forall|k: int| 0 <= k < s.len() implies r.contains(#[trigger] s[k]) || same_entry_key(s[k], x) by {
            if k == d.len() as int {
                assert(r[m.len() as int] == l);
            } else {
                assert(d[k] == s[k]);
                if m.contains(d[k]) {
                    let w = choose|w: int| 0 <= w < m.len() && m[w] == d[k];
                    assert(r[w] == m[w]);
                }
            }
        }
    }
}

/// Law: a client's priorities after a refresh are in strictly ascending
/// order of key (priority, then tiebreak); each is one of the entries given,
/// and every entry given has one of the same key among them (of entries with
/// equal keys, one stays).
#[verifier::spinoff_prover]
#[verifier::rlimit(40)]
pub proof fn lemma_sort_by_key(s: Seq<PriorityEntry>)
    ensures
        strictly_sorted(sort_by_key(s)),
        forall|k: int| 0 <= k < sort_by_key(s).len() ==> s.contains(#[trigger] sort_by_key(s)[k]),
        forall|k: int| 0 <= k < s.len() ==> exists|w: int|
            0 <= w < sort_by_key(s).len() && same_entry_key(#[trigger] s[k], sort_by_key(s)[w]),
    decreases s.len(),
{
    if s.len() > 0 {
        let d = s.drop_last();
        let x = s.last();
        lemma_sort_by_key(d);
        let t = sort_by_key(d);
        lemma_insert_by_key(t, x);
        let r = sort_by_key(s);
        assert(r == insert_by_key(t, x));
        assert forall|k: int| 0 <= k < r.len() implies s.contains(#[trigger] r[k]) by {
            if r[k] == x {
                assert(s[s.len() - 1] == x);
            } else {
                assert(t.contains(r[k]));
                let w = choose|w: int| 0 <= w < t.len() && t[w] == r[k];
                assert(d.contains(t[w]));
                let v = choose|v: int| 0 <= v < d.len() && d[v] == t[w];
                assert(s[v] == d[v]);
            }
        }
        assert forall|k: int| 0 <= k < s.len() implies exists|w: int|
            0 <= w < r.len() && same_entry_key(#[trigger] s[k], r[w]) by {
            let wx = choose|w: int| 0 <= w < r.len() && r[w] == x;
            if k == d.len() as int {
                assert(same_entry_key(s[k], r[wx]));
            } else {
                assert(s[k] == d[k]);
                let w = choose|w: int| 0 <= w < t.len() && same_entry_key(d[k], t[w]);
                if r.contains(t[w]) {
                    let v = choose|v: int| 0 <= v < r.len() && r[v] == t[w];
                    assert(same_entry_key(s[k], r[v]));
                } else {
                    assert(same_entry_key(t[w], x));
                    assert(same_entry_key(s[k], r[wx]));
                }
            }
        }
    }
}

/// Refreshes a connected client's priorities for a tick (see
/// `spec_tick_client_priorities`); `increments` gives each node's increment
/// from the node's script, and a node it does not name grows by 0.
pub fn tick_client_priorities(client: &mut ConnectedClient, nodes: &Vec<u64>, tiebreaks: &Vec<[u8; 16]>, increments: &Vec<(u64, i64)>)
    requires
        tiebreaks.len() == nodes.len(),
    ensures
        final(client)@ == (ClientView {
            priorities: spec_tick_client_priorities(old(client)@.priorities, nodes@, tiebreaks@, increment_of(increments@)),
            ..old(client)@
        }),
{
    let ghost f = increment_of(increments@);
    if client.priorities.len() != nodes.len() {
        let mut fresh: Vec<PriorityEntry> = Vec::new();
        let mut i: usize = 0;
        while i < nodes.len()
            invariant
                i <= nodes.len(),
                tiebreaks.len() == nodes.len(),
                fresh@ == Seq::new(i as nat, |k: int| PriorityEntry { priority: 0, tiebreak: tiebreaks@[k], node: nodes@[k] }),
            decreases nodes.len() - i,
        {
            fresh.push(PriorityEntry { priority: 0, tiebreak: tiebreaks[i], node: nodes[i] });
            i = i + 1;
            assert(fresh@ =~= Seq::new(i as nat, |k: int| PriorityEntry { priority: 0, tiebreak: tiebreaks@[k], node: nodes@[k] }));
        }
        assert(fresh@ =~= fresh_entries(nodes@, tiebreaks@));
        client.priorities = sort_priorities(&fresh);
    }
    let ghost base = client.priorities@;
    let ghost spec_base = if old(client)@.priorities.len() != nodes@.len() {
        sort_by_key(fresh_entries(nodes@, tiebreaks@))
    } else {
        old(client)@.priorities
    };
    assert(base == spec_base);
    let mut k: usize = 0;
    while k < client.priorities.len()
        invariant
            k <= client.priorities.len(),
            client.priorities@.len() == base.len(),
            f == increment_of(increments@),
            forall|j: int| k <= j < base.len() ==> client.priorities@[j] == base[j],
            forall|j: int| 0 <= j < k ==> client.priorities@[j] == (PriorityEntry {
                priority: base[j].priority.wrapping_add(f(base[j].node)),
                ..base[j]
            }),
            client.uuid == old(client).uuid,
            client.state@ == old(client).state@,
            client.bandwidth_budget_per_tick == old(client).bandwidth_budget_per_tick,
            client.message_buffer_position == old(client).message_buffer_position,
            client.tick_number == old(client).tick_number,
        decreases client.priorities.len() - k,
    {
        let e = client.priorities[k];
        let inc = find_increment(increments, e.node);
        client.priorities.set(k, PriorityEntry { priority: e.priority.wrapping_add(inc), tiebreak: e.tiebreak, node: e.node });
        k = k + 1;
    }
    proof {
        assert(client.priorities@ =~= incremented(base, f));
    }
    let ghost updated = client.priorities@;
    client.priorities = sort_priorities(&client.priorities);
    assert(updated == incremented(spec_base, f));
}

/// How many of the waiting datagrams, in ascending order of their apply
/// tick, are due at `tick`: those from the first whose tick is not later
/// than `tick` (counted wrapping around), up to the first that is later.
pub open spec fn due_count(apply_ticks: Seq<i8>, tick: i8) -> nat
    decreases apply_ticks.len(),
{
    if apply_ticks.len() == 0 || apply_ticks[0].wrapping_sub(tick) > 0 {
        0
    } else {
        1 + due_count(apply_ticks.drop_first(), tick)
    }
}

/// The number of waiting datagrams to apply now (see `due_count`).
pub fn count_due(apply_ticks: &Vec<i8>, tick: i8) -> (r: usize)
    ensures
        r == due_count(apply_ticks@, tick),
{
    let mut i: usize = 0;
    assert(apply_ticks@.skip(0) =~= apply_ticks@);
    while i < apply_ticks.len()
        invariant
            i <= apply_ticks.len(),
            due_count(apply_ticks@, tick) == i + due_count(apply_ticks@.skip(i as int), tick),
        decreases apply_ticks.len() - i,
    {
        assert(apply_ticks@.skip(i as int).drop_first() =~= apply_ticks@.skip(i + 1));
        if apply_ticks[i].wrapping_sub(tick) > 0 {
            return i;
        }
        i = i + 1;
    }
    i
}

// ---------------------------------------------------------------------------
// Laws of a client's turn
// ---------------------------------------------------------------------------

proof fn lemma_stack_fill_len(objs: Seq<u64>, ps: Seq<(u64, Seq<bool>)>, limit: int, acc: Seq<bool>)
    ensures
        fill_from_stack(objs, ps, limit, acc).1.len() == acc.len() || fill_from_stack(objs, ps, limit, acc).1.len() <= limit,
    decreases objs.len(),
{
    if objs.len() > 0 {
        let tmp = payload_of(ps, objs.last());
        if tmp.len() + acc.len() <= limit {
            lemma_stack_fill_len(objs.drop_last(), ps, limit, acc + tmp);
        }
    }
}

proof fn lemma_sync_accounting(c: ClientView, cur: CursorView, ps: Seq<(u64, Seq<bool>)>, tick: i8)
    ensures
        ({
            let v = spec_sync_step(c, cur, ps, tick);
            &&& v.client.position == c.position
            &&& !(v.action matches Some(SendActionView::Message(_)))
            &&& v.action matches Some(SendActionView::Datagram(p)) ==> p.len() <= cur.remaining
                && v.cursor.remaining == cur.remaining - p.len() && (p.len() <= cur.max_dgram || p.len() == 8)
        }),
{
    if cur.remaining > 80 {
        let t = tick.wrapping_add(1);
        let header = value_bits((t as u8) as nat, 8);
        crate::bits::lemma_value_bits_len((t as u8) as nat, 8);
        let limit = min_usize(cur.remaining, cur.max_dgram);
        match c.state {
            SubStateView::ObjectSync(objs) => {
                lemma_stack_fill_len(objs, ps, limit, header);
            },
            _ => {
                lemma_fill_from_priorities_len(c.priorities, ps, limit, header);
            },
        }
    }
}

/// The order of a turn's stages.
pub open spec fn stage_rank(s: SendStage) -> int {
    match s {
        SendStage::Messages => 0,
        SendStage::AwaitingResult => 0,
        SendStage::Sync => 1,
        SendStage::Finished => 2,
    }
}

/// Law: in a client's turn, queued messages go out in order: a step that
/// sends a message sends the one at the client's position and then waits for
/// the send's result, and no step moves the position (only a successful send,
/// reported to `message_sent`, does).
/// A datagram never takes more than the bandwidth left, and is larger than
/// the largest datagram the connection takes only when it holds no more than
/// its tick. A turn's stage never goes back, and a client that has just
/// joined gets no datagram before it has every queued message.
pub proof fn lemma_send_step_accounting(c: ClientView, cur: CursorView, sizes: Seq<usize>, nodes: Seq<u64>, ps: Seq<(u64, Seq<bool>)>, tick: i8)
    requires
        sizes.len() <= usize::MAX,
    ensures
        ({
            let v = spec_send_step(c, cur, sizes, nodes, ps, tick);
            &&& stage_rank(v.cursor.stage) >= stage_rank(cur.stage)
            &&& (cur.stage is Messages && c.state is EventSync && v.action matches Some(SendActionView::Datagram(_)))
                ==> c.position == sizes.len()
            &&& v.action matches Some(SendActionView::Message(i)) ==> i == c.position && i < sizes.len()
                && v.cursor.remaining == cur.remaining - sizes[i as int] && v.cursor.stage is AwaitingResult
            &&& v.client.position == c.position
            &&& v.action matches Some(SendActionView::Datagram(p)) ==> p.len() <= cur.remaining
                && v.cursor.remaining == cur.remaining - p.len() && (p.len() <= cur.max_dgram || p.len() == 8)
        }),
{
    match cur.stage {
        SendStage::Finished | SendStage::AwaitingResult => {},
        SendStage::Messages => {
            if sizes.len() > c.position && cur.remaining >= sizes[c.position as int] {
            } else if c.state is EventSync {
                if sizes.len() == c.position {
                    lemma_sync_accounting(
                        ClientView { state: SubStateView::ObjectSync(nodes), ..c },
                        CursorView { stage: SendStage::Sync, ..cur },
                        ps,
                        tick,
                    );
                }
            } else {
                lemma_sync_accounting(c, CursorView { stage: SendStage::Sync, ..cur }, ps, tick);
            }
        },
        SendStage::Sync => {
            lemma_sync_accounting(c, cur, ps, tick);
        },
    }
}

/// A fill from the object list only appends to the datagram it began with.
proof fn lemma_stack_fill_prefix(objs: Seq<u64>, ps: Seq<(u64, Seq<bool>)>, limit: int, acc: Seq<bool>)
    ensures
        fill_from_stack(objs, ps, limit, acc).1.len() >= acc.len(),
        fill_from_stack(objs, ps, limit, acc).1.take(acc.len() as int) == acc,
    decreases objs.len(),
{
    if objs.len() > 0 {
        let tmp = payload_of(ps, objs.last());
        if tmp.len() + acc.len() <= limit {
            lemma_stack_fill_prefix(objs.drop_last(), ps, limit, acc + tmp);
            let r = fill_from_stack(objs.drop_last(), ps, limit, acc + tmp).1;
            assert(r.take(acc.len() as int) =~= r.take((acc + tmp).len() as int).take(acc.len() as int));
            assert((acc + tmp).take(acc.len() as int) =~= acc);
        } else {
            assert(acc.take(acc.len() as int) =~= acc);
        }
    } else {
        assert(acc.take(acc.len() as int) =~= acc);
    }
}

/// A fill from the priorities only appends to the datagram it began with.
proof fn lemma_priorities_fill_prefix(es: Seq<PriorityEntry>, ps: Seq<(u64, Seq<bool>)>, limit: int, acc: Seq<bool>)
    ensures
        fill_from_priorities(es, ps, limit, acc).1.len() >= acc.len(),
        fill_from_priorities(es, ps, limit, acc).1.take(acc.len() as int) == acc,
    decreases es.len(),
{
    if es.len() > 0 {
        let e = es.last();
        let tmp = payload_of(ps, e.node);
        if e.priority != 0 && tmp.len() + acc.len() + 16 <= limit {
            lemma_priorities_fill_prefix(es.drop_last(), ps, limit, acc + tmp);
            let r = fill_from_priorities(es.drop_last(), ps, limit, acc + tmp).1;
            assert(r.take(acc.len() as int) =~= r.take((acc + tmp).len() as int).take(acc.len() as int));
            assert((acc + tmp).take(acc.len() as int) =~= acc);
        } else {
            lemma_priorities_fill_prefix(es.drop_last(), ps, limit, acc);
        }
    } else {
        assert(acc.take(acc.len() as int) =~= acc);
    }
}

/// The order of a client's synchronisation.
pub open spec fn sub_rank(s: SubStateView) -> int {
    match s {
        SubStateView::EventSync => 0,
        SubStateView::ObjectSync(_) => 1,
        SubStateView::Connected => 2,
    }
}

/// Law: a client's synchronisation only goes forward, event sync, then
/// object sync, then connected. It leaves event sync only in the message
/// stage once the client has every queued message, and then starts object
/// sync from the server's nodes; in object sync nodes are only taken off the
/// end of the list; it becomes connected only with a datagram that took the
/// last of them. Each datagram begins with the server's tick after it was
/// incremented for that datagram, as a byte.
pub proof fn lemma_sub_state_order(c: ClientView, cur: CursorView, sizes: Seq<usize>, nodes: Seq<u64>, ps: Seq<(u64, Seq<bool>)>, tick: i8)
    ensures
        ({
            let v = spec_send_step(c, cur, sizes, nodes, ps, tick);
            &&& sub_rank(v.client.state) >= sub_rank(c.state)
            &&& (c.state is EventSync && !(v.client.state is EventSync)) ==> cur.stage is Messages
                && c.position == sizes.len()
            &&& (c.state is EventSync && v.client.state is ObjectSync) ==> v.client.state->0 == nodes.take(
                v.client.state->0.len() as int,
            )
            &&& (c.state is ObjectSync && v.client.state is ObjectSync) ==> v.client.state->0 == c.state->0.take(
                v.client.state->0.len() as int,
            )
            &&& (!(c.state is Connected) && v.client.state is Connected) ==> (v.action is Some
                && v.action.unwrap() is Datagram)
            &&& v.action matches Some(SendActionView::Datagram(p)) ==> v.tick == tick.wrapping_add(1) && p.len()
                >= 8 && p.take(8) == value_bits((v.tick as u8) as nat, 8)
        }),
{
    let t = tick.wrapping_add(1);
    let header = value_bits((t as u8) as nat, 8);
    crate::bits::lemma_value_bits_len((t as u8) as nat, 8);
    match cur.stage {
        SendStage::Finished | SendStage::AwaitingResult => {},
        _ => {
            if cur.remaining > 80 {
                let limit = min_usize(cur.remaining, cur.max_dgram);
                lemma_priorities_fill_prefix(c.priorities, ps, limit, header);
                lemma_stack_fill_prefix(nodes, ps, limit, header);
                lemma_stack_suffix(nodes, ps, limit, header);
                match c.state {
                    SubStateView::ObjectSync(objs) => {
                        lemma_stack_fill_prefix(objs, ps, limit, header);
                        lemma_stack_suffix(objs, ps, limit, header);
                    },
                    _ => {},
                }
            }
        },
    }
}

/// The message part of a client's turn, as the steps and the reports of
/// the sends' results (`results`, in order) make it: while a step hands out
/// a message, its send's result is reported. Gives the client and cursor
/// afterwards and the indices of the messages handed out.
pub open spec fn turn_messages(
    c: ClientView,
    cur: CursorView,
    sizes: Seq<usize>,
    nodes: Seq<u64>,
    ps: Seq<(u64, Seq<bool>)>,
    tick: i8,
    results: Seq<bool>,
) -> (ClientView, CursorView, Seq<usize>)
    decreases results.len(),
{
    let v = spec_send_step(c, cur, sizes, nodes, ps, tick);
    if results.len() > 0 && v.action is Some && v.action.unwrap() is Message {
        let i = v.action.unwrap()->Message_0;
        let (c2, cur2) = spec_message_sent(v.client, v.cursor, results[0]);
        let (c3, cur3, rest) = turn_messages(c2, cur2, sizes, nodes, ps, v.tick, results.drop_first());
        (c3, cur3, seq![i] + rest)
    } else {
        (c, cur, Seq::empty())
    }
}

/// The number of successful sends among `results`.
pub open spec fn count_sent(results: Seq<bool>) -> int
    decreases results.len(),
{
    if results.len() == 0 {
        0
    } else {
        (if results[0] { 1int } else { 0int }) + count_sent(results.drop_first())
    }
}

/// The total bits of the messages at `idx`.
pub open spec fn total_size(sizes: Seq<usize>, idx: Seq<usize>) -> int
    decreases idx.len(),
{
    if idx.len() == 0 {
        0
    } else {
        sizes[idx[0] as int] + total_size(sizes, idx.drop_first())
    }
}

/// Law: in a turn that starts at the message stage, the queued messages are
/// handed out in buffer order from the client's position, with no gap and
/// none twice; only the last may fail, and a failure ends the turn; the
/// client's position then stands past exactly the messages that were sent;
/// and the messages handed out take no more than the turn's bandwidth.
pub proof fn lemma_turn_messages(
    c: ClientView,
    cur: CursorView,
    sizes: Seq<usize>,
    nodes: Seq<u64>,
    ps: Seq<(u64, Seq<bool>)>,
    tick: i8,
    results: Seq<bool>,
)
    requires
        cur.stage is Messages,
        c.position <= sizes.len(),
        sizes.len() <= usize::MAX,
    ensures
        ({
            let (c2, cur2, sent) = turn_messages(c, cur, sizes, nodes, ps, tick, results);
            &&& sent.len() <= results.len()
            &&& forall|j: int| 0 <= j < sent.len() ==> #[trigger] sent[j] == c.position + j
            &&& c.position + sent.len() <= sizes.len()
            &&& forall|j: int| 0 <= j < sent.len() - 1 ==> #[trigger] results[j]
            &&& c2.position == c.position + count_sent(results.take(sent.len() as int))
            &&& total_size(sizes, sent) <= cur.remaining
            &&& cur2.remaining == cur.remaining - total_size(sizes, sent)
            &&& (sent.len() > 0 && !results[sent.len() - 1]) ==> cur2.stage is Finished
        }),
    decreases results.len(),
{
    let v = spec_send_step(c, cur, sizes, nodes, ps, tick);
    lemma_send_step_accounting(c, cur, sizes, nodes, ps, tick);
    if results.len() > 0 && v.action is Some && v.action.unwrap() is Message {
        let i = v.action.unwrap()->Message_0;
        let (c2, cur2) = spec_message_sent(v.client, v.cursor, results[0]);
        let r = turn_messages(c2, cur2, sizes, nodes, ps, v.tick, results.drop_first());
        let rest = r.2;
        if results[0] {
            lemma_turn_messages(c2, cur2, sizes, nodes, ps, v.tick, results.drop_first());
            assert(forall|j: int| 0 <= j < rest.len() ==> #[trigger] rest[j] == c2.position + j);
            let all = seq![i] + rest;
            assert(all.drop_first() =~= rest);
            assert forall|j: int| 0 <= j < all.len() implies #[trigger] all[j] == c.position + j by {
                if j > 0 {
                    assert(all[j] == rest[j - 1]);
                }
            }
            assert forall|j: int| 0 <= j < all.len() - 1 implies #[trigger] results[j] by {
                if j > 0 {
                    assert(results[j] == results.drop_first()[j - 1]);
                }
            }
            assert(results.take(all.len() as int).drop_first() =~= results.drop_first().take(rest.len() as int));
            assert(count_sent(results.take(all.len() as int)) == 1 + count_sent(
                results.drop_first().take(rest.len() as int),
            ));
            assert(total_size(sizes, all) == sizes[i as int] + total_size(sizes, rest));
        } else {
            let v2 = spec_send_step(c2, cur2, sizes, nodes, ps, v.tick);
            assert(v2.action is None);
            assert(rest =~= Seq::<usize>::empty());
            let all = seq![i] + rest;
            assert(all =~= seq![i]);
            assert(all.drop_first() =~= Seq::<usize>::empty());
            assert(results.take(1).drop_first() =~= Seq::<bool>::empty());
            assert(results.take(1)[0] == results[0]);
            assert(count_sent(results.take(1).drop_first()) == 0);
            assert(count_sent(results.take(1)) == 0);
            assert(total_size(sizes, all) == sizes[i as int] + total_size(sizes, all.drop_first()));
        }
    } else {
        assert(results.take(0) =~= Seq::<bool>::empty());
    }
}

/// The updates of the nodes of an object-sync list, the last node first.
pub open spec fn stack_bits(ps: Seq<(u64, Seq<bool>)>, objs: Seq<u64>) -> Seq<bool>
    decreases objs.len(),
{
    if objs.len() == 0 {
        Seq::empty()
    } else {
        payload_of(ps, objs.last()) + stack_bits(ps, objs.drop_last())
    }
}

/// A fill from the object list takes nodes off its end and adds their
/// updates, the last node first.
proof fn lemma_stack_fill_sends(objs: Seq<u64>, ps: Seq<(u64, Seq<bool>)>, limit: int, acc: Seq<bool>)
    ensures
        ({
            let (left, p) = fill_from_stack(objs, ps, limit, acc);
            &&& left.len() <= objs.len()
            &&& left == objs.take(left.len() as int)
            &&& p == acc + stack_bits(ps, objs.skip(left.len() as int))
        }),
    decreases objs.len(),
{
    lemma_stack_suffix(objs, ps, limit, acc);
    if objs.len() == 0 {
        assert(objs.skip(0) =~= Seq::<u64>::empty());
        assert(acc + Seq::<bool>::empty() =~= acc);
    } else {
        let tmp = payload_of(ps, objs.last());
        if tmp.len() + acc.len() > limit {
            assert(objs.skip(objs.len() as int) =~= Seq::<u64>::empty());
            assert(acc + Seq::<bool>::empty() =~= acc);
        } else {
            lemma_stack_fill_sends(objs.drop_last(), ps, limit, acc + tmp);
            let (left, p) = fill_from_stack(objs.drop_last(), ps, limit, acc + tmp);
            let l = left.len() as int;
            let rest = objs.skip(l);
            assert(rest.len() > 0);
            assert(rest.last() == objs.last());
            assert(rest.drop_last() =~= objs.drop_last().skip(l));
            assert(stack_bits(ps, rest) == tmp + stack_bits(ps, objs.drop_last().skip(l)));
            assert(acc + tmp + stack_bits(ps, objs.drop_last().skip(l)) =~= acc + stack_bits(ps, rest));
        }
    }
}

/// Law: in object sync every node of the list reaches the client. A step
/// that sends no datagram leaves the list as it was; a datagram is the new
/// tick (as a byte) followed by the updates of the nodes taken off the end
/// of the list, the last first, and the client keeps the rest of the list
/// (which then is not empty) or, once nothing is left, is connected.
pub proof fn lemma_object_sync_sends_all(c: ClientView, cur: CursorView, sizes: Seq<usize>, nodes: Seq<u64>, ps: Seq<(u64, Seq<bool>)>, tick: i8)
    requires
        c.state is ObjectSync,
    ensures
        ({
            let v = spec_send_step(c, cur, sizes, nodes, ps, tick);
            let objs = c.state->0;
            let left = if v.client.state is ObjectSync {
                v.client.state->0
            } else {
                Seq::<u64>::empty()
            };
            &&& v.action is None ==> v.client.state == c.state
            &&& v.action matches Some(SendActionView::Datagram(p)) ==> {
                &&& v.client.state is ObjectSync || v.client.state is Connected
                &&& v.client.state is ObjectSync ==> left.len() > 0
                &&& left.len() <= objs.len()
                &&& left == objs.take(left.len() as int)
                &&& p == value_bits((v.tick as u8) as nat, 8) + stack_bits(ps, objs.skip(left.len() as int))
            }
        }),
{
    let t = tick.wrapping_add(1);
    let header = value_bits((t as u8) as nat, 8);
    let limit = min_usize(cur.remaining, cur.max_dgram);
    lemma_stack_fill_sends(c.state->0, ps, limit, header);
}

/// The updates of the nodes that a priority fill sent, the last entry first:
/// those whose priority was nonzero in `before` and is zero in `after`.
pub open spec fn priority_sent_bits(ps: Seq<(u64, Seq<bool>)>, before: Seq<PriorityEntry>, after: Seq<PriorityEntry>) -> Seq<bool>
    decreases before.len(),
{
    if before.len() == 0 || after.len() == 0 {
        Seq::empty()
    } else {
        (if before.last().priority != 0 && after.last().priority == 0 {
            payload_of(ps, before.last().node)
        } else {
            Seq::empty()
        }) + priority_sent_bits(ps, before.drop_last(), after.drop_last())
    }
}

/// Law: priority sync sends only nodes whose priority is nonzero. A fill
/// keeps every entry's node and tiebreak, leaves an entry of priority 0 as it
/// was, sets the priority of each node it sends to 0 and leaves the others;
/// what it adds to the datagram are exactly the updates of the nodes it
/// sent, the last entry first.
pub proof fn lemma_priority_fill_sends(es: Seq<PriorityEntry>, ps: Seq<(u64, Seq<bool>)>, limit: int, acc: Seq<bool>)
    ensures
        ({
            let (o, p) = fill_from_priorities(es, ps, limit, acc);
            &&& o.len() == es.len()
            &&& forall|i: int| 0 <= i < es.len() ==> (#[trigger] o[i]).node == es[i].node && o[i].tiebreak
                == es[i].tiebreak && (o[i].priority == es[i].priority || o[i].priority == 0)
            &&& forall|i: int| 0 <= i < es.len() && es[i].priority == 0 ==> #[trigger] o[i] == es[i]
            &&& p == acc + priority_sent_bits(ps, es, o)
        }),
    decreases es.len(),
{
    if es.len() == 0 {
        assert(acc + Seq::<bool>::empty() =~= acc);
    } else {
        let e = es.last();
        let tmp = payload_of(ps, e.node);
        let n = es.len() - 1;
        if e.priority != 0 && tmp.len() + acc.len() + 16 <= limit {
            lemma_priority_fill_sends(es.drop_last(), ps, limit, acc + tmp);
            let (rest, packet) = fill_from_priorities(es.drop_last(), ps, limit, acc + tmp);
            let o = rest.push(PriorityEntry { priority: 0, tiebreak: e.tiebreak, node: e.node });
            assert(o.drop_last() =~= rest);
            assert(forall|i: int| 0 <= i < n ==> o[i] == rest[i]);
            assert(forall|i: int| 0 <= i < n ==> es[i] == es.drop_last()[i]);
            assert(priority_sent_bits(ps, es, o) =~= tmp + priority_sent_bits(ps, es.drop_last(), rest));
            assert(acc + tmp + priority_sent_bits(ps, es.drop_last(), rest) =~= acc + priority_sent_bits(ps, es, o));
        } else {
            lemma_priority_fill_sends(es.drop_last(), ps, limit, acc);
            let (rest, packet) = fill_from_priorities(es.drop_last(), ps, limit, acc);
            let o = rest.push(e);
            assert(o.drop_last() =~= rest);
            assert(forall|i: int| 0 <= i < n ==> o[i] == rest[i]);
            assert(forall|i: int| 0 <= i < n ==> es[i] == es.drop_last()[i]);
            assert(priority_sent_bits(ps, es, o) =~= priority_sent_bits(ps, es.drop_last(), rest));
        }
    }
}

} // verus!
