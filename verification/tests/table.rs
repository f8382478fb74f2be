use gossip_core::errors::Error;
use gossip_core::gossip::Subscriber;
use gossip_core::hasht::{find, migrate, place, start};

fn key(tag: u8) -> [u8; 32] {
    let mut k = [0u8; 32];
    k[0] = tag;
    k
}

fn sub(tag: u8, addr: u64, lastping: u64) -> Subscriber {
    Subscriber { key: key(tag), addr, lastping }
}

fn table(capacity: usize) -> Vec<Subscriber> {
    let mut t = Vec::new();
    t.resize(capacity, Subscriber::default());
    t
}

#[test]
fn start_is_deterministic() {
    let k1 = key(7);
    assert_eq!(start(&k1), start(&k1));
    let k2 = key(8);
    assert_eq!(start(&k2), start(&k2));
}

#[test]
fn find_returns_insertion_slot() {
    let mut t = table(8);
    let mut slots = Vec::new();
    for tag in 1u8..=6u8 {
        let k = key(tag);
        let pos = find(&t, &k).expect("room below 75% load");
        assert!(t[pos].key == [0u8; 32], "fresh key lands on an empty slot");
        place(&mut t, pos, sub(tag, tag as u64, 0));
        slots.push((tag, pos));
    }
    for (tag, pos) in slots {
        let again = find(&t, &key(tag)).expect("present key is found");
        assert_eq!(again, pos, "find returns the slot the key was inserted into");
        assert_eq!(t[again].key, key(tag));
        assert_eq!(t[again].addr, tag as u64);
    }
}

#[test]
fn find_absent_key_below_full_gives_empty_slot() {
    let mut t = table(8);
    for tag in 1u8..=6u8 {
        let k = key(tag);
        let pos = find(&t, &k).expect("room");
        place(&mut t, pos, sub(tag, 0, 0));
    }
    let r = find(&t, &key(99)).expect("an empty slot, not NoSpace");
    assert!(t[r].key == [0u8; 32]);
}

#[test]
fn find_full_table_gives_no_space() {
    let mut t = table(2);
    for tag in 1u8..=2u8 {
        let pos = find(&t, &key(tag)).expect("room");
        place(&mut t, pos, sub(tag, 0, 0));
    }
    assert_eq!(find(&t, &key(9)), Err(Error::NoSpace));
    // keys already present are still found on a full table
    assert!(find(&t, &key(1)).is_ok());
    assert!(find(&t, &key(2)).is_ok());
}

#[test]
fn update_in_place_keeps_slot() {
    let mut t = table(4);
    let k = key(3);
    let pos = find(&t, &k).expect("room");
    place(&mut t, pos, sub(3, 10, 0));
    let pos2 = find(&t, &k).expect("found");
    assert_eq!(pos2, pos);
    place(&mut t, pos2, sub(3, 20, 5));
    assert_eq!(t[pos].addr, 20);
    assert_eq!(t[pos].lastping, 5);
    let occupied = t.iter().filter(|s| s.key != [0u8; 32]).count();
    assert_eq!(occupied, 1, "an update does not add a slot");
}

#[test]
fn migrate_preserves_contents() {
    let mut src = table(4);
    for tag in 1u8..=3u8 {
        let pos = find(&src, &key(tag)).expect("room");
        place(&mut src, pos, sub(tag, tag as u64 + 100, tag as u64));
    }
    let mut dst = table(8);
    migrate(&src, &mut dst).expect("migration succeeds into a larger empty table");
    let src_occupied = src.iter().filter(|s| s.key != [0u8; 32]).count();
    let dst_occupied = dst.iter().filter(|s| s.key != [0u8; 32]).count();
    assert_eq!(src_occupied, dst_occupied, "occupied count is unchanged");
    for tag in 1u8..=3u8 {
        let pos = find(&dst, &key(tag)).expect("every source key is reachable by probing");
        assert_eq!(dst[pos].key, key(tag));
        assert_eq!(dst[pos].addr, tag as u64 + 100);
        assert_eq!(dst[pos].lastping, tag as u64);
    }
}
