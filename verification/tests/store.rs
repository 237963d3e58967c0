use kvs::codec::{encode, Command};
use kvs::error::KvsError;
use kvs::store::{KvStore, COMPACTION_TRIGGER};
use kvs::KvStore as StoreAtRoot;

fn s(text: &str) -> String {
    text.to_string()
}

fn empty() -> KvStore {
    KvStore::open(Vec::new()).unwrap()
}

fn reopen(store: &KvStore) -> KvStore {
    KvStore::open(store.log().bytes().to_vec()).unwrap()
}

fn set_record(key: &str, value: &str) -> Vec<u8> {
    encode(&Command::SET { key: s(key), value: s(value) })
}

fn rm_record(key: &str) -> Vec<u8> {
    encode(&Command::RM { key: s(key) })
}

#[test]
fn get_from_an_empty_store_is_none() {
    let store = empty();
    assert_eq!(store.get(s("k")), Ok(None));
}

#[test]
fn set_then_get_and_again_after_reopening() {
    let mut store = empty();
    assert_eq!(store.set(s("k"), s("v1")), Ok(()));
    assert_eq!(store.get(s("k")), Ok(Some(s("v1"))));
    let store = reopen(&store);
    assert_eq!(store.get(s("k")), Ok(Some(s("v1"))));
}

#[test]
fn set_twice_then_get_gives_the_second_value() {
    let mut store = empty();
    store.set(s("k"), s("v1")).unwrap();
    store.set(s("k"), s("v2")).unwrap();
    assert_eq!(store.get(s("k")), Ok(Some(s("v2"))));
}

#[test]
fn remove_then_get_is_none_and_a_second_remove_fails() {
    let mut store = empty();
    store.set(s("k"), s("v1")).unwrap();
    assert_eq!(store.remove(s("k")), Ok(()));
    assert_eq!(store.get(s("k")), Ok(None));
    assert_eq!(store.remove(s("k")), Err(KvsError::KeyNotFound));
}

#[test]
fn set_remove_and_set_again_survive_reopening() {
    let mut store = empty();
    store.set(s("a"), s("1")).unwrap();
    store.set(s("b"), s("2")).unwrap();
    store.remove(s("a")).unwrap();
    store.set(s("a"), s("3")).unwrap();
    assert_eq!(store.get(s("a")), Ok(Some(s("3"))));
    assert_eq!(store.get(s("b")), Ok(Some(s("2"))));
    let store = reopen(&store);
    assert_eq!(store.get(s("a")), Ok(Some(s("3"))));
    assert_eq!(store.get(s("b")), Ok(Some(s("2"))));
}

#[test]
fn a_thousand_keys_set_twice_are_compacted_and_keep_their_values() {
    let mut store = empty();
    for i in 0..1000 {
        store.set(format!("k_{}", i), format!("v_{}", i)).unwrap();
    }
    assert!(!store.log().is_rewritten());
    for i in 0..1000 {
        store.set(format!("k_{}", i), format!("w_{}", i)).unwrap();
    }
    assert!(store.log().is_rewritten());
    for i in 0..1000 {
        assert_eq!(store.get(format!("k_{}", i)), Ok(Some(format!("w_{}", i))));
    }
    let store = reopen(&store);
    for i in 0..1000 {
        assert_eq!(store.get(format!("k_{}", i)), Ok(Some(format!("w_{}", i))));
    }
    assert_eq!(store.get(s("k_1000")), Ok(None));
}

#[test]
fn the_compacted_log_holds_the_live_records_in_their_order() {
    let mut store = empty();
    for i in 0..1000 {
        store.set(format!("k_{}", i), format!("v_{}", i)).unwrap();
    }
    for i in 0..1000 {
        store.set(format!("k_{}", i), format!("w_{}", i)).unwrap();
    }
    let mut expected = Vec::new();
    for i in 501..1000 {
        expected.extend_from_slice(&set_record(&format!("k_{}", i), &format!("v_{}", i)));
    }
    for i in 0..1000 {
        expected.extend_from_slice(&set_record(&format!("k_{}", i), &format!("w_{}", i)));
    }
    assert_eq!(store.log().bytes(), expected.as_slice());
}

#[test]
fn compaction_runs_when_more_offsets_are_stale_than_the_trigger() {
    assert_eq!(COMPACTION_TRIGGER, 500);
    let mut store = empty();
    store.set(s("k"), s("0")).unwrap();
    for i in 1..=500 {
        store.set(s("k"), format!("{}", i)).unwrap();
    }
    assert!(!store.log().is_rewritten());
    let before = store.log().len();
    store.set(s("k"), s("last")).unwrap();
    assert!(store.log().is_rewritten());
    assert_eq!(store.log().bytes(), set_record("k", "last").as_slice());
    assert!(store.log().len() <= before);
    assert_eq!(store.get(s("k")), Ok(Some(s("last"))));
}

#[test]
fn removes_count_as_stale_but_do_not_compact_by_themselves() {
    let mut store = empty();
    for i in 0..600 {
        store.set(format!("k_{}", i), s("v")).unwrap();
    }
    for i in 0..600 {
        store.remove(format!("k_{}", i)).unwrap();
    }
    assert!(!store.log().is_rewritten());
    store.set(s("fresh"), s("v")).unwrap();
    assert!(store.log().is_rewritten());
    assert_eq!(store.log().bytes(), set_record("fresh", "v").as_slice());
    for i in 0..600 {
        assert_eq!(store.get(format!("k_{}", i)), Ok(None));
    }
    assert_eq!(store.get(s("fresh")), Ok(Some(s("v"))));
}

#[test]
fn the_log_after_a_set_and_a_remove_is_the_two_records() {
    let mut store = empty();
    store.set(s("k"), s("v")).unwrap();
    store.remove(s("k")).unwrap();
    assert_eq!(
        store.log().bytes(),
        br#"{"key":"k","value":"v","command_type":"SET"}{"key":"k","value":null,"command_type":"RM"}"#
    );
}

#[test]
fn remove_of_a_key_that_was_never_set_fails_and_writes_nothing() {
    let mut store = empty();
    assert_eq!(store.remove(s("k")), Err(KvsError::KeyNotFound));
    assert_eq!(store.log().len(), 0);
    store.set(s("other"), s("v")).unwrap();
    let before = store.log().bytes().to_vec();
    assert_eq!(store.remove(s("k")), Err(KvsError::KeyNotFound));
    assert_eq!(store.log().bytes(), before.as_slice());
}

#[test]
fn the_empty_string_is_a_value_and_not_absence() {
    let mut store = empty();
    store.set(s("k"), s("")).unwrap();
    assert_eq!(store.get(s("k")), Ok(Some(s(""))));
    assert_eq!(store.get(s("missing")), Ok(None));
    let store = reopen(&store);
    assert_eq!(store.get(s("k")), Ok(Some(s(""))));
}

#[test]
fn keys_are_compared_byte_by_byte() {
    let mut store = empty();
    store.set(s("key"), s("lower")).unwrap();
    store.set(s("Key"), s("upper")).unwrap();
    store.set(s("k\u{e9}y"), s("accent")).unwrap();
    assert_eq!(store.get(s("key")), Ok(Some(s("lower"))));
    assert_eq!(store.get(s("Key")), Ok(Some(s("upper"))));
    assert_eq!(store.get(s("k\u{e9}y")), Ok(Some(s("accent"))));
    assert_eq!(store.get(s("ke")), Ok(None));
}

#[test]
fn values_with_quotes_and_line_breaks_come_back_unchanged() {
    let value = "line one\nline \"two\"\t\\ end \u{0} \u{1f600}";
    let mut store = empty();
    store.set(s("k"), s(value)).unwrap();
    store.set(s("later"), s("x")).unwrap();
    assert_eq!(store.get(s("k")), Ok(Some(s(value))));
    let store = reopen(&store);
    assert_eq!(store.get(s("k")), Ok(Some(s(value))));
}

#[test]
fn open_reads_an_existing_log() {
    let log = [set_record("a", "1"), set_record("b", "2"), rm_record("a"), set_record("b", "3")]
        .concat();
    let store = StoreAtRoot::open(log.clone()).unwrap();
    assert_eq!(store.get(s("a")), Ok(None));
    assert_eq!(store.get(s("b")), Ok(Some(s("3"))));
    assert_eq!(store.log().bytes(), log.as_slice());
    assert_eq!(store.log().unsynced(), b"");
    assert!(!store.log().is_rewritten());
}

#[test]
fn open_passes_over_get_records_of_old_logs() {
    let log = [
        set_record("a", "1"),
        encode(&Command::GET { key: s("a"), value: None }),
        encode(&Command::GET { key: s("b"), value: Some(s("ghost")) }),
    ]
    .concat();
    let store = KvStore::open(log).unwrap();
    assert_eq!(store.get(s("a")), Ok(Some(s("1"))));
    assert_eq!(store.get(s("b")), Ok(None));
}

#[test]
fn open_fails_on_a_corrupt_log() {
    let mut log = set_record("a", "1");
    log.extend_from_slice(b"{\"key\":");
    assert_eq!(KvStore::open(log).err(), Some(KvsError::Corrupt));
    assert_eq!(KvStore::open(b"garbage".to_vec()).err(), Some(KvsError::Corrupt));
}

#[test]
fn mutations_leave_what_they_wrote_to_be_written_out() {
    let mut store = KvStore::open(set_record("a", "1")).unwrap();
    store.set(s("b"), s("2")).unwrap();
    store.remove(s("a")).unwrap();
    let expected = [set_record("b", "2"), rm_record("a")].concat();
    assert_eq!(store.log().unsynced(), expected.as_slice());
    store.mark_synced();
    assert_eq!(store.log().unsynced(), b"");
    store.set(s("c"), s("3")).unwrap();
    assert_eq!(store.log().unsynced(), set_record("c", "3").as_slice());
    assert_eq!(store.get(s("b")), Ok(Some(s("2"))));
}
