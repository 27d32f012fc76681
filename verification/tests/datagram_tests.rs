use butterflyvr::bits::Packet;
use butterflyvr::butteryfly::common::handle_datagrams as first_handle_datagrams;
use butterflyvr::butteryfly::server::count_due;
use butterflyvr::netnodes::common::handle_datagrams;

fn dgram(apply: i8) -> Packet {
    let mut raw: Vec<bool> = Vec::new();
    for i in 0..8 {
        raw.push((apply as u8 >> i) & 1 == 1);
    }
    raw.push(true);
    Packet::from_bools(&raw)
}

fn runt() -> Packet {
    Packet::from_bools(&vec![true])
}

#[test]
fn a_datagram_due_soon_keeps_the_pace() {
    let mut tick = 0i8;
    let kept = handle_datagrams(&mut tick, &vec![dgram(3)]);
    assert_eq!(tick, 1);
    assert_eq!(kept, vec![(0, 3)]);
}

#[test]
fn only_far_datagrams_skip_a_tick_ahead() {
    let mut tick = 0i8;
    let kept = handle_datagrams(&mut tick, &vec![dgram(10), runt()]);
    assert_eq!(tick, 2);
    assert_eq!(kept, vec![(0, 10)]);
}

#[test]
fn late_datagrams_slow_the_tick() {
    let mut tick = 0i8;
    let kept = handle_datagrams(&mut tick, &vec![dgram(1), dgram(5)]);
    assert_eq!(tick, 0);
    assert_eq!(kept, vec![(1, 5)]);
}

#[test]
fn without_datagrams_the_tick_moves_one() {
    let mut tick = 127i8;
    let kept = handle_datagrams(&mut tick, &vec![]);
    assert_eq!(tick, -128);
    assert!(kept.is_empty());
}

#[test]
fn the_first_module_skips_ahead_whenever_nothing_is_due_soon() {
    let mut tick = 0i8;
    first_handle_datagrams(&mut tick, &vec![]);
    assert_eq!(tick, 2);
    let mut tick = 0i8;
    first_handle_datagrams(&mut tick, &vec![dgram(1)]);
    assert_eq!(tick, 1);
}

#[test]
fn due_datagrams_are_those_not_later_than_the_tick() {
    assert_eq!(count_due(&vec![-3, 0, 2, 9], 1), 2);
    assert_eq!(count_due(&vec![], 1), 0);
    assert_eq!(count_due(&vec![5], 5), 1);
}
