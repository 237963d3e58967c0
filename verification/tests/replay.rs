use kvs::codec::{encode, Command};
use kvs::error::KvsError;
use kvs::index::replay;

fn set(key: &str, value: &str) -> Vec<u8> {
    encode(&Command::SET { key: key.to_string(), value: value.to_string() })
}

fn rm(key: &str) -> Vec<u8> {
    encode(&Command::RM { key: key.to_string() })
}

fn get(key: &str) -> Vec<u8> {
    encode(&Command::GET { key: key.to_string(), value: None })
}

#[test]
fn replay_of_an_empty_log_is_an_empty_index() {
    let index = replay(b"").unwrap();
    assert_eq!(index.len(), 0);
}

#[test]
fn replay_puts_each_key_at_the_offset_of_its_record() {
    let a = set("a", "1");
    let b = set("bb", "22");
    let c = set("c", "3");
    let log = [a.clone(), b.clone(), c].concat();
    let index = replay(&log).unwrap();
    assert_eq!(index.len(), 3);
    assert_eq!(index.get("a"), Some(&0));
    assert_eq!(index.get("bb"), Some(&a.len()));
    assert_eq!(index.get("c"), Some(&(a.len() + b.len())));
    assert_eq!(a.len(), 44);
    assert_eq!(b.len(), 46);
}

#[test]
fn replay_keeps_the_latest_set_of_a_key() {
    let log = [set("k", "v1"), set("other", "x"), set("k", "v2")].concat();
    let index = replay(&log).unwrap();
    assert_eq!(index.len(), 2);
    assert_eq!(index.get("k"), Some(&(set("k", "v1").len() + set("other", "x").len())));
    assert_eq!(index.get("other"), Some(&set("k", "v1").len()));
}

#[test]
fn replay_takes_removed_keys_out() {
    let log = [set("a", "1"), set("b", "2"), rm("a")].concat();
    let index = replay(&log).unwrap();
    assert_eq!(index.len(), 1);
    assert_eq!(index.get("a"), None);
    assert_eq!(index.get("b"), Some(&set("a", "1").len()));
}

#[test]
fn replay_puts_a_key_back_that_is_set_after_its_removal() {
    let log = [set("a", "1"), rm("a"), set("a", "3")].concat();
    let index = replay(&log).unwrap();
    assert_eq!(index.get("a"), Some(&(set("a", "1").len() + rm("a").len())));
}

#[test]
fn replay_passes_over_get_records() {
    let log = [get("a"), set("a", "1"), get("a"), get("zz")].concat();
    let index = replay(&log).unwrap();
    assert_eq!(index.len(), 1);
    assert_eq!(index.get("a"), Some(&get("a").len()));
    assert_eq!(index.get("zz"), None);
}

#[test]
fn replay_of_the_same_bytes_gives_the_same_index() {
    let log = [set("a", "1"), set("b", "2"), rm("a"), set("c", "3"), set("b", "4")].concat();
    let first = replay(&log).unwrap();
    let second = replay(&log).unwrap();
    assert_eq!(first.len(), second.len());
    for key in ["a", "b", "c", "d"] {
        assert_eq!(first.get(key), second.get(key));
    }
}

#[test]
fn replay_fails_on_a_record_that_is_cut_short() {
    let mut log = [set("a", "1"), set("b", "2")].concat();
    log.pop();
    assert_eq!(replay(&log).err(), Some(KvsError::Corrupt));
}

#[test]
fn replay_fails_on_bytes_between_records() {
    let log = [set("a", "1"), b"\n".to_vec(), set("b", "2")].concat();
    assert_eq!(replay(&log).err(), Some(KvsError::Corrupt));
    let log = [set("a", "1"), b" ".to_vec()].concat();
    assert_eq!(replay(&log).err(), Some(KvsError::Corrupt));
}

#[test]
fn replay_fails_on_bytes_that_are_no_record() {
    assert_eq!(replay(b"not a log").err(), Some(KvsError::Corrupt));
}
