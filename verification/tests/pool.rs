use gossip_core::data::Message;
use gossip_core::errors::Error;
use gossip_core::reader::{Messages, Reader, BATCH_CAPACITY};

#[test]
fn fresh_batch_is_full_capacity() {
    let m = Messages::new();
    assert_eq!(m.msgs.len(), BATCH_CAPACITY);
    assert_eq!(m.data.len(), BATCH_CAPACITY);
    assert!(m.msgs.iter().all(|x| *x == Message::Noop));
    assert!(m.data.iter().all(|d| *d == (0usize, 0u64)));
    assert_eq!(Messages::def_data(), (0usize, 0u64));
}

#[test]
fn shrink_trims_to_received_counts() {
    let mut m = Messages::new();
    m.data[0] = (3, 11);
    m.data[1] = (2, 22);
    m.data[2] = (4, 33);
    m.shrink(3);
    assert_eq!(m.data.len(), 3);
    assert_eq!(m.msgs.len(), 9, "messages trimmed to the metadata totals");
    assert_eq!(m.data[2], (4, 33));
}

#[test]
fn reset_restores_capacity() {
    let mut m = Messages::new();
    m.data[0] = (1, 5);
    m.shrink(1);
    assert_eq!(m.msgs.len(), 1);
    assert_eq!(m.data.len(), 1);
    m.reset();
    assert_eq!(m.msgs.len(), BATCH_CAPACITY);
    assert_eq!(m.data.len(), BATCH_CAPACITY);
    assert!(m.data.iter().all(|d| *d == (0usize, 0u64)));
}

#[test]
fn recycle_then_allocate_reuses_storage() {
    let mut r = Reader::new();
    let mut m = Messages::new();
    m.data[0] = (7, 777);
    m.shrink(1);
    r.recycle(m);
    let back = r.allocate();
    assert_eq!(back.data.len(), 1, "the recycled batch comes back, not a fresh one");
    assert_eq!(back.data[0], (7, 777));
    assert_eq!(back.msgs.len(), 7);
    let fresh = r.allocate();
    assert_eq!(fresh.data.len(), BATCH_CAPACITY, "an empty free list allocates fresh");
    assert_eq!(fresh.msgs.len(), BATCH_CAPACITY);
}

#[test]
fn queue_is_fifo() {
    let mut r = Reader::new();
    let mut a = Messages::new();
    a.data[0] = (1, 1);
    a.shrink(1);
    let mut b = Messages::new();
    b.data[0] = (2, 2);
    b.shrink(1);
    let mut c = Messages::new();
    c.data[0] = (3, 3);
    c.shrink(1);
    r.enqueue(a);
    r.enqueue(b);
    r.enqueue(c);
    let first = r.next().expect("first batch pending");
    let second = r.next().expect("second batch pending");
    assert_eq!(first.data[0], (1, 1), "the first consumer receives the oldest batch");
    assert_eq!(second.data[0], (2, 2), "the second consumer receives the next");
    let third = r.next().expect("third batch pending");
    assert_eq!(third.data[0], (3, 3));
}

#[test]
fn next_on_empty_queue_would_block() {
    let mut r = Reader::new();
    match r.next() {
        Err(Error::WouldBlock) => {}
        other => panic!("expected WouldBlock, got {:?}", other.map(|m| m.data.len())),
    }
    let m = Messages::new();
    r.enqueue(m);
    assert!(r.next().is_ok());
    match r.next() {
        Err(Error::WouldBlock) => {}
        _ => panic!("drained queue reports WouldBlock again"),
    }
}
