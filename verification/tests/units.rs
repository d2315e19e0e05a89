use papaya::counter::Counter;
use papaya::group::{any_empty, match_byte};
use papaya::tagged::{unpack, untagged, AtomicPtrFetchOps, TAG_COPIED, TAG_LOCKED, TAG_TOMBSTONE};
use papaya::utils::{CachePadded, Shared};

#[test]
fn tagged_unpack_splits_word() {
    let t = unpack(0x1008 | TAG_COPIED);
    assert_eq!(t.raw, 0x100A);
    assert_eq!(t.ptr, 0x1008);
    assert_eq!(t.tag(), TAG_COPIED);
}

#[test]
fn untagged_has_no_tag() {
    let t = untagged(0x2000);
    assert_eq!(t.raw, 0x2000);
    assert_eq!(t.ptr, 0x2000);
    assert_eq!(t.tag(), 0);
}

#[test]
fn map_tag_keeps_address() {
    let t = unpack(0x40 | TAG_TOMBSTONE);
    let locked = t.map_tag(|raw| raw | TAG_LOCKED);
    assert_eq!(locked.ptr, 0x40);
    assert_eq!(locked.tag(), TAG_LOCKED);
}

#[test]
fn fetch_or_returns_previous_word() {
    let mut word: usize = 0x10;
    let prev = word.fetch_or(TAG_COPIED);
    assert_eq!(prev, 0x10);
    assert_eq!(word, 0x10 | TAG_COPIED);
}

#[test]
fn counter_shards_and_clamps() {
    let mut c = Counter::new();
    assert_eq!(c.sum(), 0);
    c.add(0, 5);
    c.add(8, 2); // thread 8 masks onto shard 0
    assert_eq!(c.get(0), 7);
    assert_eq!(c.get(8), 7);
    c.add(1, 3);
    assert_eq!(c.sum(), 10);
    assert_eq!(c.active(), 10);
    c.add(1, -4);
    assert_eq!(c.get(1), -1);
    // a negative running total reads as an empty table
    c.add(0, -20);
    assert_eq!(c.sum(), 0);
}

#[test]
fn counter_default_is_zero() {
    let c = Counter::default();
    assert_eq!(c.sum(), 0);
}

#[test]
fn match_byte_yields_low_bit_first() {
    let mut meta: Vec<u8> = vec![0x80; 16];
    meta[2] = 0x31;
    meta[5] = 0x31;
    meta[11] = 0x31;
    let mut it = match_byte(&meta, 0, 0x31);
    assert!(it.any_set());
    assert_eq!(it.next(), Some(2));
    assert_eq!(it.next(), Some(5));
    assert_eq!(it.next(), Some(11));
    assert_eq!(it.next(), None);
}

#[test]
fn match_byte_no_match() {
    let meta: Vec<u8> = vec![0x80; 16];
    let it = match_byte(&meta, 0, 0x42);
    assert!(!it.any_set());
}

#[test]
fn any_empty_tests_high_bit() {
    let mut meta: Vec<u8> = vec![0x11; 32];
    assert!(!any_empty(&meta, 0));
    meta[17] = 0x80;
    assert!(!any_empty(&meta, 0));
    assert!(any_empty(&meta, 16));
}

#[test]
fn shared_hands_out_value() {
    let s = Shared::new(41u64);
    assert_eq!(*s.get(), 41);
    let t = Shared::from(7u64);
    assert_eq!(*t.get(), 7);
}

#[test]
fn cache_padded_wraps_value() {
    let p = CachePadded { value: 9i64 };
    assert_eq!(p.value, 9);
}
