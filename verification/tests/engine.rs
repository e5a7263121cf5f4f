use kvs::engine::{KvStore, KvsEngine, Segment};
use kvs::common::KvError;

fn fresh() -> KvStore {
    KvStore::open(Vec::new())
}

#[test]
fn set_then_get_returns_value() {
    let mut s = fresh();
    s.set(b"key1".to_vec(), b"100".to_vec());
    assert_eq!(s.get(&b"key1".to_vec()), Some(b"100".to_vec()));
    assert_eq!(s.get(&b"key2".to_vec()), None);
}

#[test]
fn set_overwrites_until_removed() {
    let mut s = fresh();
    s.set(b"key1".to_vec(), b"100".to_vec());
    s.set(b"other".to_vec(), b"5".to_vec());
    assert_eq!(s.get(&b"key1".to_vec()), Some(b"100".to_vec()));
    s.set(b"key1".to_vec(), b"101".to_vec());
    assert_eq!(s.get(&b"key1".to_vec()), Some(b"101".to_vec()));
    assert_eq!(s.remove(&b"key1".to_vec()), Ok(()));
    assert_eq!(s.get(&b"key1".to_vec()), None);
    assert_eq!(s.remove(&b"key1".to_vec()), Err(KvError::KeyNotFound));
    assert_eq!(s.get(&b"other".to_vec()), Some(b"5".to_vec()));
}

#[test]
fn empty_key_and_empty_value() {
    let mut s = fresh();
    s.set(Vec::new(), Vec::new());
    assert_eq!(s.get(&Vec::new()), Some(Vec::new()));
    s.set(b"k".to_vec(), Vec::new());
    assert_eq!(s.get(&b"k".to_vec()), Some(Vec::new()));
}

#[test]
fn replay_rebuilds_live_state() {
    // run live operations, then reopen from the segment bytes alone
    let mut s = fresh();
    s.set(b"a".to_vec(), b"1".to_vec());
    s.set(b"b".to_vec(), b"2".to_vec());
    s.set(b"a".to_vec(), b"3".to_vec());
    s.remove(&b"b".to_vec()).unwrap();
    let (keys, vals) = s.export();
    let segs: Vec<Segment> = s.into_segments();
    let reopened = KvStore::open(segs);
    assert_eq!(reopened.get(&b"a".to_vec()), Some(b"3".to_vec()));
    assert_eq!(reopened.get(&b"b".to_vec()), None);
    let (keys2, vals2) = reopened.export();
    assert_eq!(keys, keys2);
    assert_eq!(vals, vals2);
}

#[test]
fn compaction_is_identity_on_the_map() {
    let mut s = fresh();
    s.set(b"a".to_vec(), b"1".to_vec());
    s.set(b"a".to_vec(), b"2".to_vec());
    s.set(b"b".to_vec(), b"3".to_vec());
    s.remove(&b"a".to_vec()).unwrap();
    s.compact();
    assert_eq!(s.get(&b"a".to_vec()), None);
    assert_eq!(s.get(&b"b".to_vec()), Some(b"3".to_vec()));
}

#[test]
fn large_value_crosses_compaction_threshold() {
    let mut s = fresh();
    let big = vec![7u8; 1_200_000];
    s.set(b"big".to_vec(), big.clone());
    s.set(b"big".to_vec(), big.clone());
    s.set(b"small".to_vec(), b"x".to_vec());
    assert_eq!(s.get(&b"big".to_vec()), Some(big));
    assert_eq!(s.get(&b"small".to_vec()), Some(b"x".to_vec()));
}

#[test]
fn range_last_picks_greatest_key_in_range() {
    let mut s = fresh();
    s.set(b"a1".to_vec(), b"1".to_vec());
    s.set(b"a2".to_vec(), b"2".to_vec());
    s.set(b"b9".to_vec(), b"3".to_vec());
    let r = s.range_last(&b"a".to_vec(), &b"a9".to_vec());
    assert_eq!(r, Some((b"a2".to_vec(), b"2".to_vec())));
    assert_eq!(s.range_last(&b"c".to_vec(), &b"d".to_vec()), None);
}

#[test]
fn range_erase_drops_exactly_the_window() {
    let mut s = fresh();
    s.set(b"a1".to_vec(), b"1".to_vec());
    s.set(b"a2".to_vec(), b"2".to_vec());
    s.set(b"b1".to_vec(), b"3".to_vec());
    s.range_erase(&b"a".to_vec(), &b"a9".to_vec());
    assert_eq!(s.get(&b"a1".to_vec()), None);
    assert_eq!(s.get(&b"a2".to_vec()), None);
    assert_eq!(s.get(&b"b1".to_vec()), Some(b"3".to_vec()));
}

#[test]
fn export_import_round_trip() {
    let mut s = fresh();
    s.set(b"x".to_vec(), b"1".to_vec());
    s.set(b"y".to_vec(), b"2".to_vec());
    let (keys, vals) = s.export();
    let mut t = fresh();
    t.set(b"junk".to_vec(), b"junk".to_vec());
    t.import(keys, vals);
    assert_eq!(t.get(&b"x".to_vec()), Some(b"1".to_vec()));
    assert_eq!(t.get(&b"y".to_vec()), Some(b"2".to_vec()));
    assert_eq!(t.get(&b"junk".to_vec()), None);
}
