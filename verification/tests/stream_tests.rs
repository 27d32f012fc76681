use butterflyvr::bits::Packet;
use butterflyvr::netnodes::networker::{bytes_to_bits, packet_to_bits, stream_bytes};
use butterflyvr::netnodes::internal::NetNodesError;
use butterflyvr::netnodes::stream::{
    handle_stream, length_prefix, message_handler_id, StreamAssembly, StreamEvent,
};

fn packet_of_bytes(bytes: &[u8]) -> Packet {
    bytes_to_bits(&bytes.to_vec(), bytes.len())
}

fn bytes_of(p: &Packet) -> Vec<u8> {
    stream_bytes(p)
}

/// Feeds `wire` to a stream assembly in reads of at most `chunk` bytes, the
/// way a receiver asks for bytes, and gives the messages delivered.
fn deliver(wire: &[u8], chunk: usize) -> Vec<Vec<u8>> {
    let mut assembly = StreamAssembly::new();
    let mut out = Vec::new();
    let mut pos = 0usize;
    loop {
        let want = assembly.bytes_wanted() as usize;
        let take = want.min(chunk).min(wire.len() - pos);
        let got = packet_of_bytes(&wire[pos..pos + take]);
        pos += take;
        match handle_stream(&mut assembly, &got) {
            StreamEvent::Message(m) => out.push(bytes_of(&m)),
            StreamEvent::Continue | StreamEvent::Dropped => {}
            StreamEvent::Wait => {
                if pos == wire.len() {
                    break;
                }
            }
        }
        if pos == wire.len() && assembly.bytes_wanted() > 0 && take == 0 {
            break;
        }
    }
    out
}

fn wire_of(messages: &[Vec<u8>]) -> Vec<u8> {
    let mut wire = Vec::new();
    for m in messages {
        wire.extend_from_slice(&length_prefix(m.len() as u64));
        wire.extend_from_slice(m);
    }
    wire
}

#[test]
fn length_prefix_is_little_endian() {
    assert_eq!(length_prefix(0x0102), [0x02, 0x01, 0, 0, 0, 0, 0, 0]);
    assert_eq!(length_prefix(u64::MAX), [0xff; 8]);
}

#[test]
fn messages_arrive_whole_however_the_stream_is_split() {
    let messages = vec![vec![1u8, 0, 7, 9], vec![2u8, 0], vec![3u8, 0, 1, 2, 3, 4, 5, 6, 7, 8, 9]];
    let wire = wire_of(&messages);
    for chunk in [1usize, 2, 3, 5, 8, 13, 1000] {
        assert_eq!(deliver(&wire, chunk), messages, "chunk size {}", chunk);
    }
}

#[test]
fn an_unfinished_message_is_not_delivered() {
    let messages = vec![vec![5u8, 0, 1]];
    let mut wire = wire_of(&messages);
    wire.extend_from_slice(&length_prefix(4));
    wire.extend_from_slice(&[1, 2]);
    assert_eq!(deliver(&wire, 3), messages);
}

#[test]
fn a_read_after_the_length_asks_for_the_body() {
    let mut assembly = StreamAssembly::new();
    assert_eq!(assembly.bytes_wanted(), 8);
    let ev = handle_stream(&mut assembly, &packet_of_bytes(&length_prefix(3)));
    assert!(matches!(ev, StreamEvent::Continue));
    assert_eq!(assembly.bytes_wanted(), 3);
    let ev = handle_stream(&mut assembly, &packet_of_bytes(&[9]));
    assert!(matches!(ev, StreamEvent::Wait));
    assert_eq!(assembly.bytes_wanted(), 2);
    match handle_stream(&mut assembly, &packet_of_bytes(&[8, 7])) {
        StreamEvent::Message(m) => assert_eq!(bytes_of(&m), vec![9, 8, 7]),
        _ => panic!("expected a message"),
    }
    assert_eq!(assembly.bytes_wanted(), 8);
}

#[test]
fn the_message_id_is_the_first_sixteen_bits() {
    assert_eq!(message_handler_id(&packet_of_bytes(&[0x34, 0x12, 0xff])), Some(0x1234));
    assert_eq!(message_handler_id(&packet_of_bytes(&[0x34])), None);
}

#[test]
fn stream_bytes_pad_the_last_byte_with_zero_bits() {
    let raw = vec![true, false, true, true, false, false, false, false, true, true];
    assert_eq!(stream_bytes(&Packet::from_bools(&raw)), vec![0b0000_1101, 0b0000_0011]);
}

#[test]
fn packets_of_whole_words_only() {
    assert!(matches!(packet_to_bits(&vec![1, 2, 3]), Err(NetNodesError::InvalidDatagram)));
    let p = packet_to_bits(&vec![1, 0, 0, 0, 0, 0, 0, 0x80]).unwrap();
    assert_eq!(p.len(), 64);
    assert!(p.to_bools()[0]);
    assert!(p.to_bools()[63]);
    assert!(!p.to_bools()[1]);
}

#[test]
fn frames_too_short_for_an_id_are_dropped() {
    let wire = wire_of(&[vec![], vec![7u8], vec![2u8, 0, 9]]);
    for chunk in [1usize, 4, 1000] {
        assert_eq!(deliver(&wire, chunk), vec![vec![2u8, 0, 9]], "chunk size {}", chunk);
    }
    let mut assembly = StreamAssembly::new();
    assert!(matches!(handle_stream(&mut assembly, &packet_of_bytes(&length_prefix(0))), StreamEvent::Continue));
    assert!(matches!(handle_stream(&mut assembly, &packet_of_bytes(&[])), StreamEvent::Dropped));
    assert_eq!(assembly.bytes_wanted(), 8);
}
