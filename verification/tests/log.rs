use kvs::log::Log;

#[test]
fn new_log_holds_its_bytes_and_is_written_out() {
    let log = Log::new(b"abc".to_vec());
    assert_eq!(log.len(), 3);
    assert_eq!(log.bytes(), b"abc");
    assert_eq!(log.unsynced(), b"");
    assert!(!log.is_rewritten());
}

#[test]
fn append_returns_the_start_offset_and_grows_the_log_by_the_bytes() {
    let mut log = Log::new(Vec::new());
    assert_eq!(log.append(b"hello".to_vec()), 0);
    assert_eq!(log.len(), 5);
    assert_eq!(log.append(b", world".to_vec()), 5);
    assert_eq!(log.len(), 12);
    assert_eq!(log.append(Vec::new()), 12);
    assert_eq!(log.len(), 12);
    assert_eq!(log.bytes(), b"hello, world");
}

#[test]
fn read_at_gives_the_bytes_from_the_offset_onward() {
    let mut log = Log::new(b"0123".to_vec());
    assert_eq!(log.read_at(0), b"0123");
    assert_eq!(log.read_at(2), b"23");
    assert_eq!(log.read_at(4), b"");
    assert_eq!(log.read_at(5), b"");
    log.append(b"45".to_vec());
    assert_eq!(log.read_at(2), b"2345");
}

#[test]
fn unsynced_is_what_was_appended_since_the_log_was_written_out() {
    let mut log = Log::new(b"ab".to_vec());
    log.append(b"cd".to_vec());
    log.append(b"e".to_vec());
    assert_eq!(log.unsynced(), b"cde");
    assert!(!log.is_rewritten());
    log.mark_synced();
    assert_eq!(log.unsynced(), b"");
    assert_eq!(log.bytes(), b"abcde");
}

#[test]
fn replace_with_swaps_the_bytes_and_asks_for_a_new_file() {
    let mut log = Log::new(b"old bytes".to_vec());
    log.replace_with(b"new".to_vec());
    assert_eq!(log.bytes(), b"new");
    assert_eq!(log.len(), 3);
    assert!(log.is_rewritten());
    assert_eq!(log.unsynced(), b"new");
    log.append(b"er".to_vec());
    assert!(log.is_rewritten());
    assert_eq!(log.unsynced(), b"newer");
    log.mark_synced();
    assert!(!log.is_rewritten());
    assert_eq!(log.unsynced(), b"");
}
