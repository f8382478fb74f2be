use gossip_core::data::Message;
use gossip_core::gossip::{fanout_children, Gossip};

fn key(tag: u8) -> [u8; 32] {
    let mut k = [0u8; 32];
    k[0] = tag;
    k
}

fn subscribe(tag: u8) -> Message {
    Message::Subscribe { key: key(tag), addr: tag as u64 }
}

#[test]
fn growth_scenario_at_load_boundary() {
    let mut g = Gossip::new(8);
    let mut msgs = Vec::new();
    for tag in 1u8..=6u8 {
        msgs.push(subscribe(tag));
    }
    g.execute(&msgs).expect("execute succeeds");
    assert_eq!(g.used(), 6);
    assert_eq!(g.capacity(), 8, "6/8 is exactly 0.75: no growth");
    g.execute(&vec![subscribe(7)]).expect("execute succeeds");
    assert_eq!(g.used(), 7);
    assert_eq!(g.capacity(), 16, "the 7th key pushes load past 0.75");
}

#[test]
fn subscribe_twice_counts_once() {
    let mut g = Gossip::new(8);
    g.execute(&vec![subscribe(1)]).expect("execute succeeds");
    assert_eq!(g.used(), 1);
    g.execute(&vec![subscribe(1)]).expect("execute succeeds");
    assert_eq!(g.used(), 1, "re-subscribing the same key is not double counted");
    g.execute(&vec![subscribe(1), subscribe(1)]).expect("execute succeeds");
    assert_eq!(g.used(), 1);
}

#[test]
fn zero_key_subscribe_occupies_nothing() {
    let mut g = Gossip::new(8);
    g.execute(&vec![Message::Subscribe { key: [0u8; 32], addr: 9 }]).expect("execute succeeds");
    // the all-zero key is the vacant sentinel: the counter moves, but no
    // subscriber is registered
    assert_eq!(g.used(), 1);
    assert_eq!(g.fanout_order().len(), 0);
}

#[test]
fn growth_doubles_repeatedly_and_keeps_keys() {
    let mut g = Gossip::new(1);
    let mut msgs = Vec::new();
    for tag in 1u8..=20u8 {
        msgs.push(subscribe(tag));
    }
    g.execute(&msgs).expect("execute succeeds");
    assert_eq!(g.used(), 20);
    assert_eq!(g.capacity(), 32);
    // every key survived the chain of migrations
    let order = g.fanout_order();
    assert_eq!(order.len(), 20);
    // re-subscribing all of them adds nothing
    g.execute(&msgs).expect("execute succeeds");
    assert_eq!(g.used(), 20);
    assert_eq!(g.capacity(), 32);
}

#[test]
fn signature_overwrites_clock() {
    let mut g = Gossip::new(8);
    g.execute(&vec![Message::Signature { counter: 42 }]).expect("execute succeeds");
    assert_eq!(g.now(), 42);
    g.execute(&vec![Message::Signature { counter: 7 }]).expect("execute succeeds");
    assert_eq!(g.now(), 7, "a lower counter still overwrites");
    g.execute(&vec![Message::Signature { counter: u64::MAX }]).expect("execute succeeds");
    assert_eq!(g.now(), u64::MAX);
}

#[test]
fn lastping_takes_clock_at_subscribe() {
    let mut g = Gossip::new(8);
    let batch = vec![Message::Signature { counter: 5 }, subscribe(1)];
    g.execute(&batch).expect("execute succeeds");
    let order = g.fanout_order();
    assert_eq!(order.len(), 1);
    assert_eq!(order[0].lastping, 5);
}

#[test]
fn unknown_kinds_are_no_ops() {
    let mut g = Gossip::new(8);
    g.execute(&vec![Message::Noop, Message::Noop]).expect("execute succeeds");
    assert_eq!(g.used(), 0);
    assert_eq!(g.now(), 0);
    assert_eq!(g.capacity(), 8);
}

#[test]
fn downstream_is_ok_and_keeps_state() {
    let mut g = Gossip::new(8);
    g.execute(&vec![subscribe(1)]).expect("execute succeeds");
    g.downstream().expect("downstream succeeds");
    assert_eq!(g.used(), 1);
    assert_eq!(g.capacity(), 8);
}

#[test]
fn fanout_order_ranks_by_lastping_then_key() {
    let mut g = Gossip::new(16);
    let batch = vec![
        Message::Signature { counter: 3 },
        subscribe(1),
        Message::Signature { counter: 9 },
        subscribe(2),
        subscribe(3),
    ];
    g.execute(&batch).expect("execute succeeds");
    let order = g.fanout_order();
    assert_eq!(order.len(), 3);
    // highest lastping first; equal lastping ordered by key bytes ascending
    assert_eq!(order[0].lastping, 9);
    assert_eq!(order[1].lastping, 9);
    assert!(order[0].key <= order[1].key);
    assert_eq!(order[2].lastping, 3);
    assert_eq!(order[2].key, key(1));
}

#[test]
fn fanout_children_reads_heap_positions() {
    let mut g = Gossip::new(16);
    let mut msgs = Vec::new();
    for tag in 1u8..=7u8 {
        msgs.push(subscribe(tag));
    }
    g.execute(&msgs).expect("execute succeeds");
    let order = g.fanout_order();
    assert_eq!(order.len(), 7);
    let c0 = fanout_children(&order, 0, 2);
    assert_eq!(c0.len(), 2);
    assert_eq!(c0[0].key, order[1].key);
    assert_eq!(c0[1].key, order[2].key);
    let c2 = fanout_children(&order, 2, 2);
    assert_eq!(c2.len(), 2);
    assert_eq!(c2[0].key, order[5].key);
    assert_eq!(c2[1].key, order[6].key);
    let c3 = fanout_children(&order, 3, 2);
    assert_eq!(c3.len(), 0, "a leaf has no children");
    let wide = fanout_children(&order, 0, 10);
    assert_eq!(wide.len(), 6, "the root's children are capped by the cluster size");
}
