use butterflyvr::bits::Packet;
use butterflyvr::butteryfly::net_nodes::{
    get_byte_data, next_value_type_index, read_object_updates, types_from_codes, update_networked_values, NodeSchema,
    UpdatesEnd,
};
use butterflyvr::messages::{generate_packet, MessageReader, MessageStep, MESSAGE_HEADER_SIZE};
use butterflyvr::netnodes::internal::{
    decode_internal_message, generate_internal_message, InternalMessage, NetNodesError,
};
use butterflyvr::serializer::{NetValue, NetworkedValueTypes, TypeCodeError};

struct Script {
    codes: Vec<i64>,
    asked: Vec<i64>,
    previous: Vec<String>,
}

impl Script {
    fn get_value_type(&mut self, previous: &NetValue, idx: i64) -> i64 {
        self.asked.push(idx);
        self.previous.push(format!("{:?}", previous));
        self.codes.get(idx as usize).copied().unwrap_or(-1)
    }
}

struct Node {
    codes: Vec<i64>,
}

impl Node {
    fn get_networked_value_type(&self, idx: i64) -> i64 {
        self.codes.get(idx as usize).copied().unwrap_or(-1)
    }
}

/// Reads a message's values from `*pointer`, asking the script each type.
fn handle_message(script: &mut Script, p: &Packet, pointer: &mut usize) -> Option<(Vec<NetValue>, Vec<i64>)> {
    let (mut reader, mut step) = MessageReader::start(p, *pointer);
    loop {
        match step {
            MessageStep::Ask(i) => {
                let code = script.get_value_type(reader.previous(), i);
                step = reader.answer(p, code);
            }
            MessageStep::Done(d) => {
                *pointer = reader.pointer;
                return d;
            }
        }
    }
}

/// Asks the node's script for the types of its values.
fn get_networked_values_types(node: &Node) -> (Result<Vec<NetworkedValueTypes>, TypeCodeError>, Vec<i64>) {
    let mut codes = Vec::new();
    while let Some(i) = next_value_type_index(&codes) {
        codes.push(node.get_networked_value_type(i));
    }
    (types_from_codes(&codes), codes)
}

fn bits_of_u64(v: u64, w: usize) -> Vec<bool> {
    (0..w).map(|i| (v >> i) & 1 == 1).collect()
}

fn packet(bits: &[bool]) -> Packet {
    Packet::from_bools(&bits.to_vec())
}

#[test]
fn a_generated_message_is_read_back() {
    let values = vec![NetValue::Int(7), NetValue::Str(b"hi".to_vec()), NetValue::Bool(false)];
    let codes = vec![1, 6, 0];
    let p = generate_packet(&values, &codes, 42);
    assert_eq!(p.len(), 16 + 8 + 32 + 16 + 1);
    let mut script = Script { codes: codes.clone(), asked: vec![], previous: vec![] };
    let mut pointer = MESSAGE_HEADER_SIZE;
    let (decoded, types) = handle_message(&mut script, &p, &mut pointer).unwrap();
    assert_eq!(format!("{:?}", decoded), format!("{:?}", values));
    assert_eq!(types, vec![2, 7, 1]);
    assert_eq!(pointer, p.len());
    assert_eq!(script.asked, vec![0, 1, 2]);
}

#[test]
fn each_type_is_asked_with_the_value_read_before_it() {
    let values = vec![NetValue::Int(7), NetValue::Str(b"hi".to_vec())];
    let codes = vec![1, 6];
    let p = generate_packet(&values, &codes, 42);
    let mut script = Script { codes: codes.clone(), asked: vec![], previous: vec![] };
    let mut pointer = MESSAGE_HEADER_SIZE;
    let (_, types) = handle_message(&mut script, &p, &mut pointer).unwrap();
    assert_eq!(types, vec![2, 7]);
    assert_eq!(script.asked, vec![0, 1]);
    assert_eq!(script.previous, vec!["Nil".to_string(), "Int(7)".to_string()]);
}

#[test]
fn a_message_with_a_bad_type_list_is_empty() {
    assert_eq!(generate_packet(&vec![NetValue::Nil], &vec![], 1).len(), 0);
    assert_eq!(generate_packet(&vec![NetValue::Nil], &vec![9], 1).len(), 0);
}

#[test]
fn an_unreadable_message_gives_nothing() {
    let p = generate_packet(&vec![NetValue::Int(1)], &vec![1], 3);
    let mut script = Script { codes: vec![3], asked: vec![], previous: vec![] };
    let mut pointer = MESSAGE_HEADER_SIZE;
    assert!(handle_message(&mut script, &p, &mut pointer).is_none());
    let mut script = Script { codes: vec![-7], asked: vec![], previous: vec![] };
    let mut pointer = MESSAGE_HEADER_SIZE;
    assert!(handle_message(&mut script, &p, &mut pointer).is_none());
}

#[test]
fn node_types_stop_at_minus_one() {
    assert_eq!(
        get_networked_values_types(&Node { codes: vec![0, 2] }).0,
        Ok(vec![NetworkedValueTypes::Bool, NetworkedValueTypes::Unsigned16])
    );
    assert_eq!(get_networked_values_types(&Node { codes: vec![0, 99] }).0, Err(TypeCodeError::Nonexistent(99)));
}

#[test]
fn node_type_codes_are_read_up_to_the_first_stop() {
    assert_eq!(
        types_from_codes(&vec![0, 2, -1, 5]),
        Ok(vec![NetworkedValueTypes::Bool, NetworkedValueTypes::Unsigned16])
    );
    assert_eq!(types_from_codes(&vec![-1, 99]), Ok(vec![]));
    assert_eq!(types_from_codes(&vec![3, 99, -1]), Err(TypeCodeError::Nonexistent(99)));
    assert_eq!(types_from_codes(&vec![6; 1001]).map(|t| t.len()), Ok(1000));
    let mut late = vec![0; 1000];
    late.push(99);
    assert_eq!(types_from_codes(&late).map(|t| t.len()), Ok(1000));
    assert_eq!(get_networked_values_types(&Node { codes: vec![1; 2000] }).0.map(|t| t.len()), Ok(1000));
}

#[test]
fn node_types_are_asked_in_index_order_until_a_stop() {
    assert_eq!(next_value_type_index(&vec![]), Some(0));
    assert_eq!(next_value_type_index(&vec![0, 2]), Some(2));
    assert_eq!(next_value_type_index(&vec![0, -1]), None);
    assert_eq!(next_value_type_index(&vec![99]), None);
    assert_eq!(next_value_type_index(&vec![0; 999]), Some(999));
    assert_eq!(next_value_type_index(&vec![0; 1000]), None);
    assert_eq!(get_networked_values_types(&Node { codes: vec![0, 2] }).1, vec![0, 2, -1]);
    assert_eq!(get_networked_values_types(&Node { codes: vec![0, 99, 1] }).1, vec![0, 99]);
}

#[test]
fn node_updates_are_read_in_turn() {
    let a = get_byte_data(5, &vec![NetValue::Int(200)], &vec![NetworkedValueTypes::Unsigned8]);
    let b = get_byte_data(7, &vec![NetValue::Bool(true)], &vec![NetworkedValueTypes::Bool, NetworkedValueTypes::Bool]);
    let mut bits = bits_of_u64(3, 8);
    bits.extend(a.to_bools().into_iter());
    bits.extend(b.to_bools().into_iter());
    bits.extend(bits_of_u64(0, 16));
    bits.extend(vec![false; 5]);
    let nodes = vec![
        NodeSchema { objectid: 7, types: vec![NetworkedValueTypes::Bool] },
        NodeSchema { objectid: 5, types: vec![NetworkedValueTypes::Unsigned8] },
    ];
    let (updates, end) = read_object_updates(&packet(&bits), &nodes, true);
    assert_eq!(end, UpdatesEnd::Padding);
    assert_eq!(updates.len(), 2);
    assert_eq!(updates[0].node, 1);
    assert_eq!(format!("{:?}", updates[0].values), "Some([Int(200)])");
    assert_eq!(updates[1].node, 0);
    assert_eq!(format!("{:?}", updates[1].values), "Some([Bool(true)])");
    let (_, end) = read_object_updates(&packet(&bits), &nodes, false);
    assert_eq!(end, UpdatesEnd::UnknownObject(0));
    let mut with_noise = bits.clone();
    let n = with_noise.len();
    with_noise[n - 1] = true;
    let (_, end) = read_object_updates(&packet(&with_noise), &nodes, true);
    assert_eq!(end, UpdatesEnd::ZeroId);
}

#[test]
fn a_node_whose_values_run_out_reads_nothing() {
    let p = packet(&bits_of_u64(0xff, 8));
    let mut pointer = 0usize;
    let types = vec![NetworkedValueTypes::Unsigned8, NetworkedValueTypes::Unsigned16];
    assert!(update_networked_values(&mut pointer, &p, &types).is_none());
    assert_eq!(pointer, 8);
}

#[test]
fn internal_id_assignments_are_read_back() {
    let p = generate_internal_message(InternalMessage::NetNodeIdAssign((9, vec![0, 3, 1])));
    assert_eq!(p.len(), 16 + 1 + 16 + 32 + 96);
    let mut pointer = 16usize;
    match decode_internal_message(&p, &mut pointer) {
        Ok(InternalMessage::NetNodeIdAssign((9, path))) => assert_eq!(path, vec![0, 3, 1]),
        _ => panic!("expected a node id assignment"),
    }
    assert_eq!(pointer, p.len());
    let p = generate_internal_message(InternalMessage::MessageHandlerIdAssign((4, vec![])));
    let mut pointer = 16usize;
    assert!(matches!(decode_internal_message(&p, &mut pointer), Ok(InternalMessage::MessageHandlerIdAssign((4, _)))));
}

#[test]
fn a_client_id_message_holds_its_bytes() {
    let p = generate_internal_message(InternalMessage::ClientId([1, 2, 3, 4, 5, 6, 7, 8]));
    let mut expected = bits_of_u64(0, 16);
    expected.extend(bits_of_u64(0x0807060504030201, 64));
    assert_eq!(p.to_bools(), expected);
}

#[test]
fn short_internal_messages_are_refused() {
    let p = packet(&[true; 40]);
    let mut pointer = 0usize;
    assert!(matches!(decode_internal_message(&p, &mut pointer), Err(NetNodesError::InvalidDatagramLength)));
    let mut bits = vec![true];
    bits.extend(bits_of_u64(1, 16));
    bits.extend(bits_of_u64(2, 32));
    bits.extend(bits_of_u64(0, 32));
    let mut pointer = 0usize;
    assert!(matches!(decode_internal_message(&packet(&bits), &mut pointer), Err(NetNodesError::InvalidDatagramLength)));
    assert_eq!(pointer, 49);
}

#[test]
fn a_message_with_no_bits_left_asks_nothing() {
    let p = generate_packet(&vec![], &vec![], 3);
    let mut script = Script { codes: vec![7], asked: vec![], previous: vec![] };
    let mut pointer = MESSAGE_HEADER_SIZE;
    let (values, codes) = handle_message(&mut script, &p, &mut pointer).unwrap();
    assert!(values.is_empty() && codes.is_empty());
    assert!(script.asked.is_empty());
    assert_eq!(pointer, MESSAGE_HEADER_SIZE);
}

#[test]
fn a_node_update_is_read_back_between_other_bits() {
    let values = vec![NetValue::Bool(true), NetValue::Int(200), NetValue::Str(b"hi".to_vec())];
    let types = vec![NetworkedValueTypes::Bool, NetworkedValueTypes::Unsigned8, NetworkedValueTypes::String];
    let data = get_byte_data(0x1234, &values, &types);
    let mut bits = vec![true, false, true];
    bits.extend(data.to_bools().into_iter());
    bits.extend(vec![true; 7]);
    assert_eq!(bits[3..19].to_vec(), bits_of_u64(0x1234, 16));
    let mut pointer = 3 + 16;
    let read = update_networked_values(&mut pointer, &packet(&bits), &types);
    assert_eq!(format!("{:?}", read), format!("{:?}", Some(values)));
    assert_eq!(pointer, 3 + data.len());
}
