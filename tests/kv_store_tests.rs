use rust_kv_store::kv_store::KvStore;
use rust_kv_store::wal::{WalEntry, WalError};

/// A store together with the text of its log: every mutation first appends
/// its record's line, then is applied with the outcome of that append.
struct Logged {
    store: KvStore,
    log: String,
}

impl Logged {
    fn set(&mut self, key: String, value: String) -> Result<(), WalError> {
        self.log.push_str(&WalEntry::Insert(key.clone(), value.clone()).to_line());
        self.store.set(key, value, Ok(()))
    }

    fn delete(&mut self, key: &str) -> Result<Option<String>, WalError> {
        self.log.push_str(&WalEntry::Delete(key.to_string()).to_line());
        self.store.delete(key, Ok(()))
    }

    fn clear(&mut self) -> Result<(), WalError> {
        self.log.push_str(&WalEntry::Clear.to_line());
        self.store.clear(Ok(()))
    }

    fn get(&self, key: &str) -> Option<String> {
        self.store.get(key)
    }

    fn len(&self) -> usize {
        self.store.len()
    }
}

fn new_test_store() -> Logged {
    Logged { store: KvStore::new("").expect("Failed to create KvStore"), log: String::new() }
}

#[test]
fn test_set_and_get() {
    let mut store = new_test_store();
    store.set("key".to_string(), "value".to_string()).expect("Failed to set key");
    assert_eq!(store.get("key"), Some("value".to_string()));
}

#[test]
fn test_get_missing_key() {
    let store = new_test_store();
    assert_eq!(store.get("key"), None);
}

#[test]
fn test_set_existing_key() {
    let mut store = new_test_store();
    store.set("key".to_string(), "value1".to_string()).expect("Failed to set key");
    assert_eq!(store.get("key"), Some("value1".to_string()));
    store.set("key".to_string(), "value2".to_string()).expect("Failed to set key");
    assert_eq!(store.get("key"), Some("value2".to_string()));
}

#[test]
fn test_set_empty_string_key_and_value() {
    let mut store = new_test_store();
    store.set("".to_string(), "".to_string()).expect("Failed to set key");
    assert_eq!(store.get(""), Some("".to_string()));
}

#[test]
fn test_unicode_keys_and_values() {
    let mut store = new_test_store();
    store.set("食".to_string(), "食".to_string()).expect("Failed to set key");
    assert_eq!(store.get("食"), Some("食".to_string()));
}

#[test]
fn test_delete() {
    let mut store = new_test_store();
    store.set("key".to_string(), "value".to_string()).expect("Failed to set key");

    let deleted = store.delete("key");
    assert_eq!(deleted.unwrap(), Some("value".to_string()));
    assert_eq!(store.get("key"), None);
}

#[test]
fn test_delete_missing_key() {
    let mut store = new_test_store();
    let deleted = store.delete("key");
    assert_eq!(deleted.unwrap(), None);
    assert_eq!(store.get("key"), None);
}

#[test]
fn test_clear() {
    let mut store = new_test_store();
    store.set("key1".to_string(), "value1".to_string()).expect("Failed to set key");
    store.set("key2".to_string(), "value2".to_string()).expect("Failed to set key");
    store.clear().expect("Failed to set clear");
    assert_eq!(store.get("key1"), None);
    assert_eq!(store.get("key2"), None);
}

#[test]
fn test_clear_empty_store() {
    let mut store = new_test_store();
    store.clear().expect("Failed to set clear");
    assert_eq!(store.get("key"), None);
}

#[test]
fn test_len() {
    let mut store = new_test_store();
    store.set("key1".to_string(), "value1".to_string()).expect("Failed to set key");
    store.set("key2".to_string(), "value2".to_string()).expect("Failed to set key");
    assert_eq!(store.len(), 2);
    store.clear().expect("Failed to set clear");
    assert_eq!(store.len(), 0);
}

#[test]
fn test_persistence() {
    let mut store = new_test_store();
    store.set("key1".to_string(), "value1".to_string()).expect("Failed to set key");
    store.set("key2".to_string(), "value2".to_string()).expect("Failed to set key");
    let saved = store.store.snapshot().expect("File is saved successfully.");
    store.clear().expect("Failed to clear");
    assert_eq!(store.len(), 0);
    let store = KvStore::from_snapshot(&saved).expect("File is loaded successfully.");
    assert_eq!(store.len(), 2);
    assert_eq!(store.get("key1"), Some("value1".to_string()));
    assert_eq!(store.get("key2"), Some("value2".to_string()));
}

#[test]
fn test_wal_recovery() {
    let mut store = new_test_store();
    store.set("a".into(), "1".into()).unwrap();
    store.set("b".into(), "2".into()).unwrap();

    let log = store.log.clone();
    drop(store);

    let recovered = KvStore::new(&log).unwrap();
    assert_eq!(recovered.get("a"), Some("1".into()));
    assert_eq!(recovered.get("b"), Some("2".into()));
    assert_eq!(recovered.len(), 2);
}

#[test]
fn many_keys_are_all_kept() {
    let mut store = new_test_store();
    for i in 0..10 {
        for j in 0..100 {
            store.set(format!("key_{}_{}", i, j), format!("value_{}_{}", i, j)).unwrap();
        }
    }
    assert_eq!(store.len(), 1000);
    for i in 0..10 {
        for j in 0..100 {
            assert_eq!(store.get(&format!("key_{}_{}", i, j)), Some(format!("value_{}_{}", i, j)));
        }
    }
    let recovered = KvStore::new(&store.log).unwrap();
    assert_eq!(recovered.len(), 1000);
    assert_eq!(recovered.get("key_9_99"), Some("value_9_99".to_string()));
}

#[test]
fn overwrite_keeps_len() {
    let mut store = new_test_store();
    store.set("k".to_string(), "v1".to_string()).unwrap();
    store.set("other".to_string(), "x".to_string()).unwrap();
    assert_eq!(store.len(), 2);
    store.set("k".to_string(), "v2".to_string()).unwrap();
    assert_eq!(store.len(), 2);
    assert_eq!(store.get("k"), Some("v2".to_string()));
}

#[test]
fn delete_counts() {
    let mut store = new_test_store();
    store.set("a".to_string(), "1".to_string()).unwrap();
    store.set("b".to_string(), "2".to_string()).unwrap();
    assert_eq!(store.delete("zzz").unwrap(), None);
    assert_eq!(store.len(), 2);
    assert_eq!(store.delete("a").unwrap(), Some("1".to_string()));
    assert_eq!(store.len(), 1);
    assert_eq!(store.get("b"), Some("2".to_string()));
}

#[test]
fn failed_append_leaves_map_unchanged() {
    let mut store = KvStore::new("").unwrap();
    store.set("a".to_string(), "1".to_string(), Ok(())).unwrap();
    let r = store.set("a".to_string(), "2".to_string(), Err(WalError::PoisonedLock));
    assert!(matches!(r, Err(WalError::PoisonedLock)));
    assert_eq!(store.get("a"), Some("1".to_string()));
    let r = store.delete("a", Err(WalError::PoisonedLock));
    assert!(matches!(r, Err(WalError::PoisonedLock)));
    assert_eq!(store.get("a"), Some("1".to_string()));
    let io = std::io::Error::new(std::io::ErrorKind::Other, "disk full");
    let r = store.clear(Err(WalError::IoError(io)));
    assert!(matches!(r, Err(WalError::IoError(_))));
    assert_eq!(store.len(), 1);
}

#[test]
fn replay_round_trip_mixed() {
    let mut store = new_test_store();
    store.set("".to_string(), "".to_string()).unwrap();
    store.set("食べ物".to_string(), "寿司 と 天ぷら".to_string()).unwrap();
    store.set("k".to_string(), "value with  spaces ".to_string()).unwrap();
    store.set("gone".to_string(), "soon".to_string()).unwrap();
    store.delete("gone").unwrap();
    store.delete("never").unwrap();
    let recovered = KvStore::new(&store.log).unwrap();
    assert_eq!(recovered.len(), store.len());
    for k in ["", "食べ物", "k", "gone", "never"] {
        assert_eq!(recovered.get(k), store.get(k));
    }
    assert_eq!(recovered.get("k"), Some("value with  spaces ".to_string()));
}

#[test]
fn replay_with_clear_in_the_middle() {
    let log = "SET a 1\nCLEAR\nSET b 2\nDELETE b\nSET c 3\n";
    let store = KvStore::new(log).unwrap();
    assert_eq!(store.len(), 1);
    assert_eq!(store.get("a"), None);
    assert_eq!(store.get("b"), None);
    assert_eq!(store.get("c"), Some("3".to_string()));
}

#[test]
fn replay_of_empty_log_is_empty() {
    let store = KvStore::new("").unwrap();
    assert_eq!(store.len(), 0);
}

#[test]
fn replay_reports_bad_line() {
    match KvStore::new("SET a 1\nBOGUS x\nSET b 2\n") {
        Ok(_) => panic!("a bad line must fail the replay"),
        Err(e) => {
            assert_eq!(e.line, 2);
            assert_eq!(e.message, "Unknown WAL command: BOGUS");
        }
    }
}

#[test]
fn replay_reports_missing_fields() {
    match KvStore::new("SET a\n") {
        Ok(_) => panic!("a line without a value must fail the replay"),
        Err(e) => {
            assert_eq!(e.line, 1);
            assert_eq!(e.message, "Missing value in SET");
        }
    }
}

#[test]
fn replay_rejects_unterminated_last_line() {
    match KvStore::new("SET a 1\nSET b 2") {
        Ok(_) => panic!("a partial last line must fail the replay"),
        Err(e) => {
            assert_eq!(e.line, 2);
            assert_eq!(e.message, "Unterminated WAL line");
        }
    }
}

#[test]
fn replay_into_existing_store_stops_at_bad_line() {
    let mut store = KvStore::new("SET x 0\n").unwrap();
    let r = store.replay("SET a 1\nDELETE\nSET b 2\n");
    let e = r.unwrap_err();
    assert_eq!(e.line, 2);
    assert_eq!(e.message, "Missing key in DELETE");
    assert_eq!(store.get("x"), Some("0".to_string()));
    assert_eq!(store.get("a"), Some("1".to_string()));
    assert_eq!(store.get("b"), None);
}

#[test]
fn apply_entries_directly() {
    let mut store = KvStore::new("").unwrap();
    store.apply(WalEntry::Insert("a".to_string(), "1".to_string()));
    store.apply(WalEntry::Insert("b".to_string(), "2".to_string()));
    store.apply(WalEntry::Delete("a".to_string()));
    assert_eq!(store.get("a"), None);
    assert_eq!(store.len(), 1);
    store.apply(WalEntry::Clear);
    assert_eq!(store.len(), 0);
}
