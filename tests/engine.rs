use kvs::{DbError, KvStore, LogWrite};

fn s(x: &str) -> String {
    x.to_string()
}

/// Applies what the engine hands out to a byte buffer that stands for the log file.
fn sync(store: &mut KvStore, file: &mut Vec<u8>) {
    match store.take_write() {
        LogWrite::Append(bytes) => file.extend_from_slice(&bytes),
        LogWrite::Rewrite(bytes) => *file = bytes,
    }
}

#[test]
fn set_get_round_trip() {
    let mut store = KvStore::new();
    store.set(s("k"), s("v")).unwrap();
    assert_eq!(store.get(s("k")).unwrap(), Some(s("v")));
}

#[test]
fn overwrite_keeps_latest_value() {
    let mut store = KvStore::new();
    store.set(s("k"), s("v1")).unwrap();
    store.set(s("k"), s("v2")).unwrap();
    assert_eq!(store.get(s("k")).unwrap(), Some(s("v2")));
    assert_eq!(store.log_len(), 2);
    assert_eq!(store.index_len(), 1);
    let mut file = Vec::new();
    sync(&mut store, &mut file);
    let text = String::from_utf8(file).unwrap();
    assert_eq!(text.lines().filter(|l| l.starts_with("SET(")).count(), 2);
}

#[test]
fn remove_of_missing_key() {
    let mut store = KvStore::new();
    assert!(matches!(store.remove(s("k")), Err(DbError::KeyNotFound)));
    assert_eq!(store.log_len(), 0);
    assert_eq!(store.index_len(), 0);
    match store.take_write() {
        LogWrite::Append(bytes) => assert!(bytes.is_empty()),
        LogWrite::Rewrite(_) => panic!("nothing was compacted"),
    }
}

#[test]
fn get_after_remove_is_none() {
    let mut store = KvStore::new();
    store.set(s("k"), s("v")).unwrap();
    store.remove(s("k")).unwrap();
    assert_eq!(store.get(s("k")).unwrap(), None);
    assert_eq!(store.log_len(), 2);
}

#[test]
fn get_twice_gives_same_answer() {
    let mut store = KvStore::new();
    store.set(s("a"), s("1")).unwrap();
    let len = store.log_len();
    let first = store.get(s("a")).unwrap();
    let second = store.get(s("a")).unwrap();
    assert_eq!(first, second);
    assert_eq!(store.log_len(), len);
    assert_eq!(store.get(s("missing")).unwrap(), None);
    assert_eq!(store.get(s("missing")).unwrap(), None);
}

#[test]
fn restart_replay() {
    let mut store = KvStore::new();
    let mut file = Vec::new();
    store.set(s("a"), s("1")).unwrap();
    sync(&mut store, &mut file);
    store.set(s("b"), s("2")).unwrap();
    sync(&mut store, &mut file);
    store.remove(s("a")).unwrap();
    sync(&mut store, &mut file);
    let reopened = KvStore::open(&file).unwrap();
    assert_eq!(reopened.get(s("a")).unwrap(), None);
    assert_eq!(reopened.get(s("b")).unwrap(), Some(s("2")));
    assert_eq!(reopened.log_len(), 3);
}

#[test]
fn log_bytes_are_exact() {
    let mut store = KvStore::new();
    store.set(s("a"), s("1")).unwrap();
    store.remove(s("a")).unwrap();
    let mut file = Vec::new();
    sync(&mut store, &mut file);
    assert_eq!(file, b"SET(\"a\",\"1\")\nRM(\"a\")\n".to_vec());
}

#[test]
fn open_empty_log() {
    let store = KvStore::open(b"").unwrap();
    assert_eq!(store.log_len(), 0);
    assert_eq!(store.index_len(), 0);
}

#[test]
fn open_rejects_unterminated_record() {
    assert!(matches!(KvStore::open(b"SET(\"a\",\"1\")"), Err(DbError::Parse)));
}

#[test]
fn open_rejects_corrupt_record() {
    assert!(matches!(KvStore::open(b"SET(\"a\",\"1\")\nGARBAGE\n"), Err(DbError::Parse)));
    assert!(matches!(KvStore::open(b"SET(\"a\")\n"), Err(DbError::Parse)));
}

#[test]
fn open_keeps_orphan_remove() {
    let store = KvStore::open(b"RM(\"x\")\nSET(\"y\",\"2\")\n").unwrap();
    assert_eq!(store.get(s("x")).unwrap(), None);
    assert_eq!(store.get(s("y")).unwrap(), Some(s("2")));
    assert_eq!(store.log_len(), 2);
}

#[test]
fn compaction_correctness() {
    let mut store = KvStore::new();
    let mut file = Vec::new();
    for i in 0..600 {
        store.set(format!("k_{i}"), format!("v_{i}")).unwrap();
        sync(&mut store, &mut file);
    }
    assert_eq!(store.log_len(), 600);
    store.remove(s("k_0")).unwrap();
    sync(&mut store, &mut file);
    assert_eq!(store.get(s("k_0")).unwrap(), None);
    assert_eq!(store.get(s("k_599")).unwrap(), Some(s("v_599")));
    // 600 live keys and the Remove record of k_0
    assert_eq!(store.log_len(), 601);
    let reopened = KvStore::open(&file).unwrap();
    assert_eq!(reopened.get(s("k_0")).unwrap(), None);
    assert_eq!(reopened.get(s("k_599")).unwrap(), Some(s("v_599")));
    assert_eq!(reopened.index_len(), 599);
}

#[test]
fn compaction_drops_stale_records() {
    let mut store = KvStore::new();
    store.set(s("k"), s("v1")).unwrap();
    store.set(s("k"), s("v2")).unwrap();
    store.set(s("j"), s("x")).unwrap();
    store.remove(s("j")).unwrap();
    store.set(s("m"), s("y")).unwrap();
    let before = store.log_len();
    store.compact();
    assert!(store.log_len() <= before);
    assert_eq!(store.log_len(), store.index_len());
    assert_eq!(store.log_len(), 2);
    assert_eq!(store.get(s("k")).unwrap(), Some(s("v2")));
    assert_eq!(store.get(s("j")).unwrap(), None);
    assert_eq!(store.get(s("m")).unwrap(), Some(s("y")));
    let mut file = b"stale".to_vec();
    sync(&mut store, &mut file);
    assert_eq!(file, b"SET(\"k\",\"v2\")\nSET(\"m\",\"y\")\n".to_vec());
    let reopened = KvStore::open(&file).unwrap();
    assert_eq!(reopened.get(s("k")).unwrap(), Some(s("v2")));
    assert_eq!(reopened.get(s("m")).unwrap(), Some(s("y")));
}

#[test]
fn compaction_of_empty_log() {
    let mut store = KvStore::new();
    store.compact();
    assert_eq!(store.log_len(), 0);
    match store.take_write() {
        LogWrite::Rewrite(bytes) => assert!(bytes.is_empty()),
        LogWrite::Append(_) => panic!("a compaction rewrites the log"),
    }
}

#[test]
fn compaction_triggers_above_threshold() {
    let mut store = KvStore::new();
    for i in 0..501 {
        store.set(format!("k_{i}"), s("v")).unwrap();
    }
    store.set(s("k_0"), s("w")).unwrap();
    store.set(s("k_0"), s("z")).unwrap();
    // the second overwrite compacted the first away
    assert_eq!(store.log_len(), 502);
    assert_eq!(store.get(s("k_0")).unwrap(), Some(s("z")));
    match store.take_write() {
        LogWrite::Rewrite(bytes) => assert_eq!(bytes.iter().filter(|b| **b == b'\n').count(), 502),
        LogWrite::Append(_) => panic!("set compacted the log"),
    }
}

#[test]
fn escaped_values_survive_restart() {
    let mut store = KvStore::new();
    let mut file = Vec::new();
    store.set(s("line\nbreak"), s("quote\" and \\ backslash")).unwrap();
    store.set(s("ключ"), s("значение")).unwrap();
    sync(&mut store, &mut file);
    let reopened = KvStore::open(&file).unwrap();
    assert_eq!(reopened.get(s("line\nbreak")).unwrap(), Some(s("quote\" and \\ backslash")));
    assert_eq!(reopened.get(s("ключ")).unwrap(), Some(s("значение")));
}

#[test]
fn empty_key_and_value() {
    let mut store = KvStore::new();
    let mut file = Vec::new();
    store.set(s(""), s("")).unwrap();
    sync(&mut store, &mut file);
    assert_eq!(file, b"SET(\"\",\"\")\n".to_vec());
    let reopened = KvStore::open(&file).unwrap();
    assert_eq!(reopened.get(s("")).unwrap(), Some(s("")));
}
