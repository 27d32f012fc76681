use butterflyvr::bits::Packet;
use butterflyvr::serializer::{
    decode_with_known_type, encode_with_known_type, NetValue, NetworkedValueTypes, TypeCodeError,
};

fn bits(p: &Packet) -> Vec<bool> {
    p.to_bools()
}

fn roundtrip(v: NetValue, t: NetworkedValueTypes) -> (Option<NetValue>, usize, usize) {
    let p = encode_with_known_type(&v, t);
    let mut ptr = 0usize;
    let r = decode_with_known_type(&p, &mut ptr, t);
    (r, ptr, p.len())
}

#[test]
fn unsigned16_is_written_least_significant_bit_first() {
    let p = encode_with_known_type(&NetValue::Int(0x1234), NetworkedValueTypes::Unsigned16);
    let expected: Vec<bool> = (0..16).map(|i| (0x1234u16 >> i) & 1 == 1).collect();
    assert_eq!(bits(&p), expected);
}

#[test]
fn each_type_reads_back_what_it_wrote() {
    let cases = vec![
        (NetValue::Bool(true), NetworkedValueTypes::Bool, 1),
        (NetValue::Int(200), NetworkedValueTypes::Unsigned8, 8),
        (NetValue::Int(65535), NetworkedValueTypes::Unsigned16, 16),
        (NetValue::Int(-5), NetworkedValueTypes::Signed64, 64),
        (NetValue::Float(1.5f32.to_bits()), NetworkedValueTypes::Float32, 32),
        (NetValue::Vector3(1, 2, 3), NetworkedValueTypes::Vector3, 96),
    ];
    for (v, t, n) in cases {
        let expect = format!("{:?}", v);
        let (r, ptr, len) = roundtrip(v, t);
        assert_eq!(len, n);
        assert_eq!(ptr, n);
        assert_eq!(format!("{:?}", r.unwrap()), expect);
    }
}

#[test]
fn strings_and_byte_arrays_carry_their_length() {
    let (r, ptr, len) = roundtrip(NetValue::Str(b"hello".to_vec()), NetworkedValueTypes::String);
    assert_eq!(len, 32 + 40);
    assert_eq!(ptr, 72);
    match r {
        Some(NetValue::Str(s)) => assert_eq!(s, b"hello".to_vec()),
        other => panic!("unexpected {:?}", other),
    }
    let (r, _, _) = roundtrip(NetValue::Ints(vec![1, 300, -2, 255]), NetworkedValueTypes::ByteArray);
    match r {
        Some(NetValue::Bytes(b)) => assert_eq!(b, vec![1, 0, 0, 255]),
        other => panic!("unexpected {:?}", other),
    }
}

#[test]
fn invalid_utf8_reads_as_the_empty_string() {
    let (r, _, _) = roundtrip(NetValue::Str(vec![0xff, 0xfe]), NetworkedValueTypes::String);
    match r {
        Some(NetValue::Str(s)) => assert!(s.is_empty()),
        other => panic!("unexpected {:?}", other),
    }
}

#[test]
fn a_truncated_string_moves_past_its_length_only() {
    let mut raw: Vec<bool> = Vec::new();
    for i in 0..32 {
        raw.push((10u32 >> i) & 1 == 1);
    }
    for _ in 0..16 {
        raw.push(false);
    }
    let p = Packet::from_bools(&raw);
    let mut ptr = 0usize;
    assert!(decode_with_known_type(&p, &mut ptr, NetworkedValueTypes::String).is_none());
    assert_eq!(ptr, 32);
    let mut ptr = 40usize;
    assert!(decode_with_known_type(&p, &mut ptr, NetworkedValueTypes::Unsigned16).is_none());
    assert_eq!(ptr, 40);
}

#[test]
fn type_codes() {
    assert_eq!(NetworkedValueTypes::try_from(-2), Ok(NetworkedValueTypes::Nil));
    assert_eq!(NetworkedValueTypes::try_from(7), Ok(NetworkedValueTypes::ByteArray));
    assert_eq!(NetworkedValueTypes::try_from(-1), Err(TypeCodeError::InvalidType));
    assert_eq!(NetworkedValueTypes::try_from(8), Err(TypeCodeError::Nonexistent(8)));
    assert_eq!(NetworkedValueTypes::Bool.position(), 1);
}
