use butterflyvr::bits::Packet;
use butterflyvr::butteryfly::client::{TurnAction, NetNodeClient as FirstClient};
use butterflyvr::netnodes::client::{tick_priorities, ClientAction, NetNodeClient};

fn bits(n: usize) -> Packet {
    Packet::from_bools(&vec![true; n])
}

#[test]
fn a_refused_message_stays_at_the_front() {
    let mut client = NetNodeClient::new();
    client.queue_message(bits(100), 1);
    client.queue_message(bits(200), 2);
    let mut cursor = client.start_send(1000, false);
    assert_eq!(client.current_tick, 1);
    assert_eq!(cursor.remaining, 512);
    let payloads = vec![];
    assert!(matches!(client.send_step(&mut cursor, &payloads), Some(ClientAction::SendFrontMessage)));
    client.message_sent(&mut cursor, false);
    assert_eq!(client.message_buffer.len(), 2);
    assert_eq!(cursor.remaining, 412);
    assert!(matches!(client.send_step(&mut cursor, &payloads), Some(ClientAction::SendFrontMessage)));
    client.message_sent(&mut cursor, true);
    assert_eq!(client.message_buffer.len(), 1);
    assert!(matches!(client.send_step(&mut cursor, &payloads), Some(ClientAction::SendFrontMessage)));
    client.message_sent(&mut cursor, true);
    assert!(client.send_step(&mut cursor, &payloads).is_none());
    assert_eq!(client.bandwidth_budget_per_tick, 512);
}

#[test]
fn owned_nodes_go_out_highest_priority_first() {
    let mut client = NetNodeClient::new();
    client.owned_nodes = vec![(1, 4), (2, 0), (3, 7)];
    let payloads = vec![(1u64, bits(30)), (2u64, bits(30)), (3u64, bits(30))];
    let mut cursor = client.start_send(8 + 30, false);
    match client.send_step(&mut cursor, &payloads) {
        Some(ClientAction::Datagram(p)) => assert_eq!(p.len(), 38),
        _ => panic!("expected a datagram"),
    }
    assert_eq!(client.owned_nodes, vec![(1, 4), (2, 0), (3, 0)]);
}

#[test]
fn priorities_sort_stably() {
    let mut owned = vec![(1, 5), (2, 1), (3, 5), (4, 0)];
    tick_priorities(&mut owned, &vec![0, 3, 0, 5]);
    assert_eq!(owned, vec![(2, 4), (1, 5), (3, 5), (4, 5)]);
}

#[test]
fn removing_an_owned_node() {
    let mut client = NetNodeClient::new();
    client.owned_nodes = vec![(1, 4), (2, 0), (1, 7)];
    client.remove_owned_node(1);
    assert_eq!(client.owned_nodes, vec![(2, 0), (1, 7)]);
    client.remove_owned_node(9);
    assert_eq!(client.owned_nodes, vec![(2, 0), (1, 7)]);
}

#[test]
fn the_first_client_drops_a_message_that_does_not_fit() {
    let mut client = FirstClient::new();
    client.queue_message(bits(100), 1);
    client.queue_message(bits(600), 2);
    client.queue_message(bits(10), 3);
    let mut cursor = client.start_send(1000, false);
    let payloads = vec![];
    match client.send_step(&mut cursor, &payloads) {
        Some(TurnAction::Message(p, 1)) => assert_eq!(p.len(), 100),
        _ => panic!("expected the first message"),
    }
    assert!(client.send_step(&mut cursor, &payloads).is_none());
    assert_eq!(client.message_buffer.len(), 1);
    assert_eq!(client.message_buffer[0].1, 3);
}

#[test]
fn the_first_client_fills_datagrams_in_order() {
    let mut client = FirstClient::new();
    client.owned_nodes = vec![(1, 4), (2, 9)];
    let payloads = vec![(1u64, bits(30)), (2u64, bits(30))];
    let mut cursor = client.start_send(8 + 30, false);
    match client.send_step(&mut cursor, &payloads) {
        Some(TurnAction::Datagram(p)) => assert_eq!(p.len(), 38),
        _ => panic!("expected a datagram"),
    }
    assert_eq!(client.owned_nodes, vec![(1, 0), (2, 9)]);
    assert_eq!(client.current_tick, 1);
}

#[test]
fn only_nodes_the_client_owns_are_synced_from_it() {
    let mut client = FirstClient::new();
    let me = vec![7u8; 16];
    client.register_node(4, &vec![1u8; 16], &me);
    assert!(client.owned_nodes.is_empty());
    client.register_node(5, &me, &me);
    assert_eq!(client.owned_nodes, vec![(5, 0)]);
    client.register_node(6, &vec![], &me);
    assert_eq!(client.owned_nodes, vec![(5, 0)]);
}
