use butterflyvr::butteryfly::networker::{
    admit_new_connection as first_admit, block_penalty as first_block_penalty,
    next_client_peer_state as first_next_client_state,
};
use butterflyvr::lru::{
    cache_key, load, pack_weight, push_front_entry, save_entries, FieldValue, LoadEntry, LoadError, Pack,
};
use butterflyvr::netnodes::internal::NetNodesError;
use butterflyvr::netnodes::networker::{
    admit_new_connection, block_penalty, get_peers, next_client_peer_state, next_server_peer_state,
    pacing_decision, ConnectionRefusal, PacingDecision, PeerState,
};
use butterflyvr::password::hash;
use butterflyvr::queue::Queue;
use PeerState::{AwaitingConnection, Connected, Disconnected};

#[test]
fn peer_states() {
    assert_eq!(next_server_peer_state(AwaitingConnection, false, false, true), (Connected, false));
    assert_eq!(next_server_peer_state(AwaitingConnection, true, false, false), (Disconnected, false));
    assert_eq!(next_server_peer_state(AwaitingConnection, false, true, false), (Disconnected, true));
    assert_eq!(next_server_peer_state(AwaitingConnection, false, true, true), (Connected, true));
    assert_eq!(next_server_peer_state(Connected, true, false, true), (Connected, false));
    assert_eq!(next_server_peer_state(Connected, false, true, true), (Disconnected, false));
    assert_eq!(next_server_peer_state(Disconnected, false, false, true), (Disconnected, false));
    assert_eq!(next_client_peer_state(Disconnected, false, true), Err(NetNodesError::Disconnected));
    assert_eq!(next_client_peer_state(AwaitingConnection, false, true), Ok(Connected));
    assert_eq!(first_next_client_state(Connected, true, false), Disconnected);
}

#[test]
fn new_connections() {
    assert_eq!(admit_new_connection(false, true, false, 0), Err(ConnectionRefusal::NotInitial));
    assert_eq!(admit_new_connection(true, false, false, 0), Err(ConnectionRefusal::UnsupportedVersion));
    assert_eq!(admit_new_connection(true, true, true, 0), Err(ConnectionRefusal::Blocked));
    assert_eq!(admit_new_connection(true, true, false, 256), Err(ConnectionRefusal::TooManyConnections));
    assert_eq!(admit_new_connection(true, true, false, 255), Ok(()));
    assert_eq!(first_admit(true, false, 10), Ok(()));
}

#[test]
fn blocks_grow_quadratically() {
    assert_eq!(block_penalty(None), (1, 1));
    assert_eq!(block_penalty(Some(1)), (2, 4));
    assert_eq!(block_penalty(Some(9)), (10, 100));
    assert_eq!(first_block_penalty(None), (1, 0));
}

#[test]
fn peers_reported() {
    let states = vec![Connected, AwaitingConnection, Disconnected, Connected];
    assert_eq!(get_peers(&states, false), vec![0, 3]);
    assert_eq!(get_peers(&states, true), vec![0, 1, 2, 3]);
}

#[test]
fn pacing() {
    assert_eq!(pacing_decision(0, 5000), PacingDecision::SendNow);
    assert_eq!(pacing_decision(1_000_000, 10), PacingDecision::Delay);
    assert_eq!(pacing_decision(18_000_000, 10), PacingDecision::DropAndNotify);
    assert_eq!(pacing_decision(1, 1025), PacingDecision::DropAndNotify);
}

#[test]
fn queue_behaves_as_a_deque() {
    let mut q: Queue<i64> = Queue::new();
    q.push_back(1);
    q.push_back(2);
    q.push_front(0);
    assert_eq!(q.size(), 3);
    assert_eq!(q.front(), Some(&0));
    assert_eq!(q.back(), Some(&2));
    assert_eq!(q.get(1), Some(&1));
    assert_eq!(q.get(-1), None);
    assert!(q.set(1, 5));
    assert!(!q.set(3, 5));
    assert!(q.insert(3, 9));
    assert!(!q.insert(-2, 9));
    assert_eq!(q.find(&9), 3);
    assert_eq!(q.find(&4), -1);
    assert!(q.contains(&5));
    assert_eq!(q.remove_at(1), Some(5));
    assert_eq!(q.remove_at(-1), None);
    assert_eq!(q.pop_front(), Some(0));
    assert_eq!(q.pop_back(), Some(9));
    assert_eq!(q.into_vec(), vec![2]);
    assert!(q.is_empty());
    assert_eq!(q.pop_front(), None);
    let mut q = Queue::from_vec(vec![3, 4]);
    q.reserve(10);
    assert_eq!(q.into_vec(), vec![3, 4]);
    q.copy_from_vec(vec![8]);
    q.clear();
    assert_eq!(q.size(), 0);
}

fn reference_hash(m: u32, t: u32, p: u32, len: Option<usize>, pwd: &[u8], salt: &[u8], out_len: usize) -> Vec<u8> {
    let params = argon2::Params::new(m, t, p, len).unwrap();
    let hasher = argon2::Argon2::new(argon2::Algorithm::Argon2id, argon2::Version::V0x13, params);
    let mut out = vec![0u8; out_len];
    hasher.hash_password_into(pwd, salt, &mut out).unwrap();
    out
}

#[test]
fn password_hashes_use_the_given_parameters() {
    let h = hash(1, 1, 1, b"password", b"somesalt", 16);
    assert_eq!(h.len(), 16);
    assert_eq!(h, reference_hash(1024, 1, 1, Some(16), b"password", b"somesalt", 16));
    assert_ne!(h, hash(1, 2, 1, b"password", b"somesalt", 16));
}

#[test]
fn refused_parameters_fall_back_to_the_defaults() {
    let h = hash(0, 1, 1, b"password", b"somesalt", 8);
    assert_eq!(h, reference_hash(19456, 2, 1, None, b"password", b"somesalt", 8));
}

#[test]
fn cache_keys_are_uuids() {
    let k = cache_key("550e8400-e29b-41d4-a716-446655440000").unwrap();
    assert_eq!(k[0], 0x55);
    assert_eq!(k[15], 0x00);
    assert!(cache_key("not a uuid").is_none());
    let (key, pack) = push_front_entry("550e8400e29b41d4a716446655440000", 5, 7).unwrap();
    assert_eq!(key, k);
    assert_eq!((pack.cache_time_utc, pack.size_kb), (5, 7));
    assert_eq!(pack_weight(&Pack { cache_time_utc: 0, size_kb: -1 }), u32::MAX);
}

#[test]
fn loading_stops_at_the_first_bad_entry() {
    let good = LoadEntry {
        key: Some("550e8400-e29b-41d4-a716-446655440000".to_string()),
        value: Some((FieldValue::Int(10), FieldValue::Int(20))),
    };
    let bad_time = LoadEntry {
        key: Some("550e8400-e29b-41d4-a716-446655440001".to_string()),
        value: Some((FieldValue::Int(1 << 40), FieldValue::Missing)),
    };
    let (done, err) = load(&vec![good, bad_time]);
    assert_eq!(done.len(), 1);
    assert_eq!(done[0].1.size_kb, 20);
    assert_eq!(err, Some(LoadError::MissingSize));
    let cases = vec![
        (LoadEntry { key: None, value: None }, LoadError::KeyNotString),
        (LoadEntry { key: Some("x".to_string()), value: None }, LoadError::InvalidUuid),
        (
            LoadEntry { key: Some("550e8400-e29b-41d4-a716-446655440000".to_string()), value: None },
            LoadError::ValueNotDictionary,
        ),
        (
            LoadEntry {
                key: Some("550e8400-e29b-41d4-a716-446655440000".to_string()),
                value: Some((FieldValue::NotInt, FieldValue::Int(1))),
            },
            LoadError::CacheTimeNotInt,
        ),
        (
            LoadEntry {
                key: Some("550e8400-e29b-41d4-a716-446655440000".to_string()),
                value: Some((FieldValue::Int(1), FieldValue::NotInt)),
            },
            LoadError::SizeNotInt,
        ),
    ];
    for (entry, expected) in cases {
        let (done, err) = load(&vec![entry]);
        assert!(done.is_empty());
        assert_eq!(err, Some(expected));
    }
}

#[test]
fn a_saved_cache_loads_back() {
    let a = cache_key("550e8400-e29b-41d4-a716-446655440000").unwrap();
    let b = cache_key("00000000-0000-0000-0000-0000000000ff").unwrap();
    let entries = vec![
        (a, Pack { cache_time_utc: 1_700_000_000, size_kb: 512 }),
        (b, Pack { cache_time_utc: -5, size_kb: 0 }),
    ];
    let saved = save_entries(&entries);
    assert_eq!(saved[0].key.as_deref(), Some("550e8400-e29b-41d4-a716-446655440000"));
    assert_eq!(saved[1].key.as_deref(), Some("00000000-0000-0000-0000-0000000000ff"));
    let (loaded, error) = load(&saved);
    assert!(error.is_none());
    assert_eq!(loaded.len(), 2);
    assert_eq!(loaded[0].0, a);
    assert_eq!(loaded[0].1.cache_time_utc, 1_700_000_000);
    assert_eq!(loaded[1].0, b);
    assert_eq!(loaded[1].1.size_kb, 0);
}

#[test]
fn a_saved_key_is_the_lowercase_hyphenated_uuid() {
    let key = [0x67, 0xe5, 0x50, 0x44, 0x10, 0xb1, 0x42, 0x6f, 0x92, 0x47, 0xbb, 0x68, 0x0e, 0x5f, 0xe0, 0xc8];
    let saved = save_entries(&vec![(key, Pack { cache_time_utc: 1, size_kb: 2 })]);
    assert_eq!(saved[0].key.as_deref(), Some("67e55044-10b1-426f-9247-bb680e5fe0c8"));
}
