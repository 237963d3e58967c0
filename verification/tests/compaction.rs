use kvs::codec::{encode, Command};
use kvs::store::{compact_log, KvStore};

fn s(text: &str) -> String {
    text.to_string()
}

fn set_record(key: &str, value: &str) -> Vec<u8> {
    encode(&Command::SET { key: s(key), value: s(value) })
}

fn rm_record(key: &str) -> Vec<u8> {
    encode(&Command::RM { key: s(key) })
}

#[test]
fn compact_log_keeps_one_set_for_each_live_key() {
    let mut store = KvStore::open(Vec::new()).unwrap();
    store.set(s("a"), s("1")).unwrap();
    store.set(s("b"), s("2")).unwrap();
    store.set(s("a"), s("3")).unwrap();
    store.set(s("c"), s("4")).unwrap();
    store.remove(s("b")).unwrap();
    assert_eq!(compact_log(&mut store), Ok(()));
    let expected = [set_record("a", "3"), set_record("c", "4")].concat();
    assert_eq!(store.log().bytes(), expected.as_slice());
    assert!(store.log().is_rewritten());
    assert_eq!(store.log().unsynced(), expected.as_slice());
    assert_eq!(store.get(s("a")), Ok(Some(s("3"))));
    assert_eq!(store.get(s("b")), Ok(None));
    assert_eq!(store.get(s("c")), Ok(Some(s("4"))));
}

#[test]
fn compact_log_drops_stale_records_of_earlier_sessions_too() {
    let log = [set_record("a", "1"), set_record("a", "2"), set_record("b", "x")].concat();
    let mut store = KvStore::open(log).unwrap();
    store.remove(s("a")).unwrap();
    compact_log(&mut store).unwrap();
    assert_eq!(store.log().bytes(), set_record("b", "x").as_slice());
    assert_eq!(store.get(s("a")), Ok(None));
    assert_eq!(store.get(s("b")), Ok(Some(s("x"))));
    let reopened = KvStore::open(store.log().bytes().to_vec()).unwrap();
    assert_eq!(reopened.get(s("a")), Ok(None));
    assert_eq!(reopened.get(s("b")), Ok(Some(s("x"))));
}

#[test]
fn compact_log_drops_rm_and_get_records() {
    let log = [
        set_record("a", "1"),
        encode(&Command::GET { key: s("a"), value: None }),
        rm_record("a"),
        set_record("b", "2"),
    ]
    .concat();
    let mut store = KvStore::open(log).unwrap();
    compact_log(&mut store).unwrap();
    assert_eq!(store.log().bytes(), set_record("b", "2").as_slice());
}

#[test]
fn compact_log_does_not_grow_the_log_and_keeps_what_the_store_holds() {
    let mut store = KvStore::open(Vec::new()).unwrap();
    for round in 0..5 {
        for i in 0..40 {
            store.set(format!("key{}", i), format!("value{}-{}", i, round)).unwrap();
        }
        for i in 0..40 {
            if (i + round) % 3 == 0 {
                store.remove(format!("key{}", i)).unwrap();
            }
        }
    }
    let mut held = Vec::new();
    for i in 0..40 {
        held.push(store.get(format!("key{}", i)).unwrap());
    }
    let before = store.log().len();
    compact_log(&mut store).unwrap();
    assert!(store.log().len() <= before);
    for i in 0..40 {
        assert_eq!(store.get(format!("key{}", i)).unwrap(), held[i]);
    }
    let reopened = KvStore::open(store.log().bytes().to_vec()).unwrap();
    for i in 0..40 {
        assert_eq!(reopened.get(format!("key{}", i)).unwrap(), held[i]);
    }
}

#[test]
fn compact_log_of_a_compact_log_changes_nothing() {
    let mut store = KvStore::open(Vec::new()).unwrap();
    store.set(s("a"), s("1")).unwrap();
    store.set(s("a"), s("2")).unwrap();
    store.set(s("b"), s("3")).unwrap();
    compact_log(&mut store).unwrap();
    let once = store.log().bytes().to_vec();
    compact_log(&mut store).unwrap();
    assert_eq!(store.log().bytes(), once.as_slice());
}

#[test]
fn compact_log_of_an_empty_store_gives_an_empty_log() {
    let mut store = KvStore::open(Vec::new()).unwrap();
    compact_log(&mut store).unwrap();
    assert_eq!(store.log().len(), 0);
    store.set(s("a"), s("1")).unwrap();
    store.remove(s("a")).unwrap();
    compact_log(&mut store).unwrap();
    assert_eq!(store.log().len(), 0);
    assert_eq!(store.get(s("a")), Ok(None));
}

#[test]
fn the_store_goes_on_after_compaction() {
    let mut store = KvStore::open(Vec::new()).unwrap();
    store.set(s("a"), s("1")).unwrap();
    store.set(s("a"), s("2")).unwrap();
    compact_log(&mut store).unwrap();
    store.set(s("b"), s("3")).unwrap();
    store.set(s("a"), s("4")).unwrap();
    let expected = [set_record("a", "2"), set_record("b", "3"), set_record("a", "4")].concat();
    assert_eq!(store.log().bytes(), expected.as_slice());
    assert_eq!(store.get(s("a")), Ok(Some(s("4"))));
    assert_eq!(store.get(s("b")), Ok(Some(s("3"))));
}
