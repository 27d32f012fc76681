use butterflyvr::bits::Packet;
use butterflyvr::butteryfly::server::{
    message_sent, sort_priorities, start_send, tick_client_priorities, ClientState, ClientSubState, ConnectedClient,
    NetNodeServer, PriorityEntry, SendAction, INITIAL_CLIENT_BANDWIDTH,
};

fn bits(n: usize) -> Packet {
    Packet::from_bools(&(0..n).map(|i| i % 3 == 0).collect())
}

fn key(b: u8) -> Vec<u8> {
    vec![b; 4]
}

#[test]
fn ids_count_up_and_are_announced() {
    let mut server = NetNodeServer::new();
    assert_eq!(server.register_node(100, vec![0, 1]), 1);
    assert_eq!(server.register_node(101, vec![0, 2]), 2);
    assert_eq!(server.register_message(vec![3]), 1);
    assert_eq!(server.networked_nodes, vec![100, 101]);
    assert_eq!(server.message_buffer.len(), 3);
    assert!(server.message_buffer.iter().all(|(_, stream)| *stream == 0));
    assert_eq!(server.get_next_object_id(), 3);
    assert_eq!(server.get_next_message_id(), 2);
}

#[test]
fn a_client_joins_through_its_identifier() {
    let mut server = NetNodeServer::new();
    server.update_client_list(&vec![key(1), key(2)]);
    assert_eq!(server.clients.len(), 2);
    assert_eq!(server.clients[0].1.identifier_wanted(), 48);
    let mut message = vec![0u8; 8];
    message.extend((0..40).map(|i| i as u8));
    server.clients[0].1.receive_identifier(&message[..20].to_vec());
    assert_eq!(server.clients[0].1.identifier_wanted(), 28);
    assert!(server.get_unverified_client().is_none());
    server.clients[0].1.receive_identifier(&message[20..].to_vec());
    let id = server.get_unverified_client().unwrap();
    assert_eq!(id.to_vec(), (0..40).map(|i| i as u8).collect::<Vec<u8>>());
    server.verify_client(id, [9; 16]);
    match &server.clients[0].1 {
        ClientState::Connected(c) => {
            assert_eq!(c.uuid, [9; 16]);
            assert_eq!(c.bandwidth_budget_per_tick, INITIAL_CLIENT_BANDWIDTH);
        }
        _ => panic!("expected a connected client"),
    }
    assert!(server.get_unverified_client().is_none());
}

#[test]
fn clients_follow_the_peers() {
    let mut server = NetNodeServer::new();
    server.update_client_list(&vec![key(1), key(2), key(3)]);
    server.update_client_list(&vec![key(3), key(4), key(1), key(4)]);
    let keys: Vec<Vec<u8>> = server.clients.iter().map(|c| c.0.clone()).collect();
    assert_eq!(keys, vec![key(1), key(3), key(4)]);
}

#[test]
fn unregistering_a_node_drops_its_priorities() {
    let mut server = NetNodeServer::new();
    server.register_node(100, vec![]);
    server.register_node(101, vec![]);
    server.update_client_list(&vec![key(1)]);
    let mut c = ConnectedClient::new([0; 16]);
    c.priorities = vec![
        PriorityEntry { priority: 1, tiebreak: [0; 16], node: 100 },
        PriorityEntry { priority: 2, tiebreak: [0; 16], node: 101 },
    ];
    server.clients[0].1 = ClientState::Connected(c);
    server.unregister_node(100);
    assert_eq!(server.networked_nodes, vec![101]);
    match &server.clients[0].1 {
        ClientState::Connected(c) => {
            assert_eq!(c.priorities.len(), 1);
            assert_eq!(c.priorities[0].node, 101);
        }
        _ => panic!(),
    }
}

#[test]
fn a_new_client_gets_every_message_then_every_node() {
    let mut server = NetNodeServer::new();
    server.register_node(100, vec![0]);
    server.register_node(101, vec![1]);
    let sizes = server.message_sizes();
    let nodes = server.networked_nodes.clone();
    let payloads = vec![(100u64, bits(40)), (101u64, bits(50))];
    let mut client = ConnectedClient::new([0; 16]);
    let mut cursor = start_send(&mut client, 10_000, false);
    let mut tick = 0i8;
    let mut sent_messages = vec![];
    let mut datagrams = vec![];
    while let Some(action) = butterflyvr::butteryfly::server::send_step(&mut client, &mut cursor, &sizes, &nodes, &payloads, &mut tick) {
        match action {
            SendAction::Message(i) => {
                sent_messages.push(i);
                message_sent(&mut client, &mut cursor, true);
            }
            SendAction::Datagram(p) => datagrams.push(p.len()),
        }
    }
    assert_eq!(sent_messages, vec![0, 1]);
    assert_eq!(client.message_buffer_position, 2);
    assert_eq!(datagrams[0], 8 + 50 + 40);
    assert!(matches!(client.state, ClientSubState::Connected));
    assert!(datagrams[1..].iter().all(|n| *n == 8) || datagrams.len() == 1);
}

#[test]
fn connected_clients_get_the_nodes_with_priority() {
    let payloads = vec![(100u64, bits(40)), (101u64, bits(50)), (102u64, bits(60))];
    let mut client = ConnectedClient::new([0; 16]);
    client.state = ClientSubState::Connected;
    client.priorities = vec![
        PriorityEntry { priority: 0, tiebreak: [1; 16], node: 100 },
        PriorityEntry { priority: 5, tiebreak: [2; 16], node: 101 },
        PriorityEntry { priority: 9, tiebreak: [3; 16], node: 102 },
    ];
    let mut cursor = start_send(&mut client, 8 + 60 + 16 + 10, false);
    let mut tick = 0i8;
    let action = butterflyvr::butteryfly::server::send_step(&mut client, &mut cursor, &vec![], &vec![], &payloads, &mut tick);
    match action {
        Some(SendAction::Datagram(p)) => assert_eq!(p.len(), 8 + 60),
        _ => panic!("expected a datagram"),
    }
    assert_eq!(tick, 1);
    let prios: Vec<(u64, i64)> = client.priorities.iter().map(|e| (e.node, e.priority)).collect();
    assert_eq!(prios, vec![(100, 0), (102, 0), (101, 5)]);
}

#[test]
fn priorities_start_over_when_the_nodes_change() {
    let mut client = ConnectedClient::new([0; 16]);
    tick_client_priorities(&mut client, &vec![7, 8], &vec![[1; 16], [2; 16]], &vec![(8, 3)]);
    let prios: Vec<(u64, i64)> = client.priorities.iter().map(|e| (e.node, e.priority)).collect();
    assert_eq!(prios, vec![(7, 0), (8, 3)]);
    tick_client_priorities(&mut client, &vec![7, 8], &vec![[1; 16], [2; 16]], &vec![(7, 2), (8, i64::MAX)]);
    let prios: Vec<(u64, i64)> = client.priorities.iter().map(|e| (e.node, e.priority)).collect();
    assert_eq!(prios, vec![(8, i64::MIN + 2), (7, 2)]);
}

#[test]
fn priorities_are_ordered_by_priority_then_tiebreak_and_a_repeated_key_keeps_the_last() {
    let mut high = [0u8; 16];
    high[0] = 1;
    let mut low = [0u8; 16];
    low[15] = 255;
    let entries = vec![
        PriorityEntry { priority: 4, tiebreak: high, node: 1 },
        PriorityEntry { priority: 4, tiebreak: low, node: 2 },
        PriorityEntry { priority: -3, tiebreak: high, node: 3 },
        PriorityEntry { priority: 4, tiebreak: high, node: 4 },
    ];
    let sorted = sort_priorities(&entries);
    let nodes: Vec<u64> = sorted.iter().map(|e| e.node).collect();
    assert_eq!(nodes, vec![3, 2, 4]);
}

#[test]
fn the_budget_has_a_floor_and_halves_while_pacing() {
    let mut client = ConnectedClient::new([0; 16]);
    client.bandwidth_budget_per_tick = 100;
    let cursor = start_send(&mut client, 1000, true);
    assert_eq!(client.bandwidth_budget_per_tick, 256);
    assert_eq!(cursor.remaining, 256);
}

#[test]
fn a_failed_send_keeps_the_message_for_the_next_turn() {
    let mut server = NetNodeServer::new();
    server.register_node(100, vec![0]);
    server.register_node(101, vec![1]);
    let sizes = server.message_sizes();
    let nodes = server.networked_nodes.clone();
    let payloads = vec![(100u64, bits(40)), (101u64, bits(50))];
    let mut client = ConnectedClient::new([0; 16]);
    let mut tick = 0i8;
    let mut cursor = start_send(&mut client, 10_000, false);
    let first = butterflyvr::butteryfly::server::send_step(&mut client, &mut cursor, &sizes, &nodes, &payloads, &mut tick);
    assert!(matches!(first, Some(SendAction::Message(0))));
    assert_eq!(client.message_buffer_position, 0);
    message_sent(&mut client, &mut cursor, false);
    assert_eq!(client.message_buffer_position, 0);
    assert!(butterflyvr::butteryfly::server::send_step(&mut client, &mut cursor, &sizes, &nodes, &payloads, &mut tick).is_none());
    let mut cursor = start_send(&mut client, 10_000, false);
    let again = butterflyvr::butteryfly::server::send_step(&mut client, &mut cursor, &sizes, &nodes, &payloads, &mut tick);
    assert!(matches!(again, Some(SendAction::Message(0))));
    message_sent(&mut client, &mut cursor, true);
    assert_eq!(client.message_buffer_position, 1);
}
