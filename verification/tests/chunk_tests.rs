use butterflyvr::bits::Packet;
use butterflyvr::butteryfly::common::{
    framed_message_id, handle_stream_chunk, send_internal_message, FrameError, IncompleteMessage, InternalMessage,
};
use butterflyvr::butteryfly::networker::{packet_bytes, stream_size_field};

fn bits_of_u64(v: u64, w: usize) -> Vec<bool> {
    (0..w).map(|i| (v >> i) & 1 == 1).collect()
}

/// A stream message: its total length in bytes (the
/// 8-byte prefix included), then its bytes.
fn frame(body_bytes: &[u8]) -> Vec<bool> {
    let total = stream_size_field(body_bytes.len());
    let mut bits = bits_of_u64(total, 64);
    for b in body_bytes {
        bits.extend(bits_of_u64(*b as u64, 8));
    }
    bits
}

fn packet(bits: &[bool]) -> Packet {
    Packet::from_bools(&bits.to_vec())
}

fn bits(p: &Packet) -> Vec<bool> {
    p.to_bools()
}

#[test]
fn one_chunk_splits_into_its_messages() {
    let a = frame(&[1, 0, 5, 6]);
    let b = frame(&[2, 0, 9, 9, 9, 9, 9, 9]);
    let mut all = a.clone();
    all.extend(b.clone());
    let mut entry = None;
    let out = handle_stream_chunk(&packet(&all), &mut entry);
    assert!(out.error.is_none());
    assert!(entry.is_none());
    assert_eq!(out.messages.len(), 2);
    assert_eq!(bits(&out.messages[0]), a);
    assert_eq!(bits(&out.messages[1]), b);
}

#[test]
fn a_message_split_after_its_length_completes_in_the_next_chunk() {
    let a = frame(&[1, 0, 5, 6, 7, 8]);
    let mut entry = None;
    let out = handle_stream_chunk(&packet(&a[..100]), &mut entry);
    assert!(out.messages.is_empty() && out.error.is_none());
    match &entry {
        Some(IncompleteMessage { length: Some(l), data }) => {
            assert_eq!(*l, a.len() as u64);
            assert_eq!(data.len(), 100);
        }
        _ => panic!("expected a waiting message"),
    }
    let out = handle_stream_chunk(&packet(&a[100..]), &mut entry);
    assert!(out.error.is_none());
    assert_eq!(out.messages.len(), 1);
    assert_eq!(bits(&out.messages[0]), a);
    assert!(entry.is_none());
}

#[test]
fn a_length_completed_from_the_entry_is_kept_in_bits() {
    let a = frame(&[1, 0, 5, 6, 7, 8, 9, 10, 11, 12]);
    let mut entry = None;
    handle_stream_chunk(&packet(&a[..32]), &mut entry);
    let out = handle_stream_chunk(&packet(&a[32..100]), &mut entry);
    assert!(out.messages.is_empty() && out.error.is_none());
    match &entry {
        Some(IncompleteMessage { length: Some(l), .. }) => assert_eq!(*l, a.len() as u64),
        _ => panic!("expected a waiting message"),
    }
    let out = handle_stream_chunk(&packet(&a[100..]), &mut entry);
    assert!(out.error.is_none());
    assert_eq!(out.messages.len(), 1);
    assert_eq!(bits(&out.messages[0]), a);
    assert!(entry.is_none());
}

#[test]
fn a_short_frame_cut_in_three_is_delivered() {
    let a = frame(&[4, 0, 9, 9]);
    assert_eq!(a.len(), 96);
    let mut entry = None;
    let mut got = Vec::new();
    for (from, to) in [(0, 32), (32, 72), (72, 96)] {
        let out = handle_stream_chunk(&packet(&a[from..to]), &mut entry);
        assert!(out.error.is_none());
        got.extend(out.messages.iter().map(bits));
    }
    assert_eq!(got, vec![a]);
    assert!(entry.is_none());
}

#[test]
fn a_message_too_short_for_its_id_stops_the_split() {
    let mut bits = bits_of_u64(9, 64);
    bits.extend(bits_of_u64(0, 8));
    let mut entry = None;
    let out = handle_stream_chunk(&packet(&bits), &mut entry);
    assert_eq!(out.error, Some(FrameError::ShortMessage));
}

#[test]
fn a_length_whose_bits_overflow_stops_the_split() {
    let bits = bits_of_u64(u64::MAX / 4, 64);
    let mut entry = None;
    let out = handle_stream_chunk(&packet(&bits), &mut entry);
    assert_eq!(out.error, Some(FrameError::LengthOverflow));
}

#[test]
fn an_empty_chunk_changes_nothing() {
    let mut entry = None;
    let out = handle_stream_chunk(&packet(&[]), &mut entry);
    assert!(out.messages.is_empty() && out.error.is_none() && entry.is_none());
}

#[test]
fn packet_bytes_are_whole_words() {
    assert_eq!(packet_bytes(&packet(&[true, true])), vec![3, 0, 0, 0, 0, 0, 0, 0]);
    assert_eq!(packet_bytes(&packet(&[])), Vec::<u8>::new());
}

#[test]
fn the_first_modules_internal_messages() {
    let p = send_internal_message(InternalMessage::NetNodeId((5, vec![1, 2])));
    let mut expected = vec![true];
    expected.extend(bits_of_u64(5, 16));
    expected.extend(bits_of_u64(2, 64));
    expected.extend(bits_of_u64(1, 32));
    expected.extend(bits_of_u64(2, 32));
    assert_eq!(bits(&p), expected);
    let p = send_internal_message(InternalMessage::ClientId([7u8; 40]));
    assert_eq!(p.len(), 48 * 8);
    assert_eq!(packet_bytes(&p)[..40], [7u8; 40]);
    assert_eq!(packet_bytes(&p)[40..], [0u8; 8]);
}

#[test]
fn the_messages_do_not_depend_on_how_the_stream_is_cut() {
    let a = frame(&[1, 0, 5, 6, 7]);
    let b = frame(&[2, 0, 9, 9, 9, 9, 9, 9, 9, 9, 9]);
    let c = frame(&[3, 0]);
    let mut stream = a.clone();
    stream.extend(b.clone());
    stream.extend(c.clone());
    let cuts: Vec<Vec<usize>> = vec![
        vec![],
        vec![70],
        vec![70, a.len() + 64],
        vec![a.len(), a.len() + b.len()],
        vec![a.len() + 100, a.len() + b.len() + 65],
        vec![32, a.len() + 40, a.len() + b.len() + 7],
        (1..a.len() + b.len() + c.len()).step_by(7).collect(),
    ];
    for cut in cuts {
        let mut entry = None;
        let mut got: Vec<Vec<bool>> = Vec::new();
        let mut from = 0;
        let mut ends = cut.clone();
        ends.push(stream.len());
        for end in ends {
            let out = handle_stream_chunk(&packet(&stream[from..end]), &mut entry);
            assert!(out.error.is_none());
            got.extend(out.messages.iter().map(bits));
            from = end;
        }
        assert_eq!(got, vec![a.clone(), b.clone(), c.clone()]);
        assert!(entry.is_none());
    }
}

#[test]
fn the_message_id_follows_the_length_prefix() {
    let a = frame(&[0x34, 0x12, 7]);
    assert_eq!(framed_message_id(&packet(&a)), Some(0x1234));
    assert_eq!(framed_message_id(&packet(&a[..79])), None);
}
