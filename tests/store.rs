use kvs::{EngineError, KvStore};

/// The store together with the bytes of its log, driven the way the
/// command-line front end drives a log file.
struct MemStore {
    log: Vec<u8>,
    store: KvStore,
}

fn frame_body(log: &[u8], offset: u64) -> Vec<u8> {
    let o = offset as usize;
    let mut len = [0u8; 8];
    len.copy_from_slice(&log[o..o + 8]);
    let n = u64::from_le_bytes(len) as usize;
    log[o + 8..o + 8 + n].to_vec()
}

impl MemStore {
    fn open(mut log: Vec<u8>) -> MemStore {
        let store = KvStore::open(&log);
        log.truncate(store.log_len() as usize);
        MemStore { log, store }
    }

    fn reopen(self) -> MemStore {
        MemStore::open(self.log)
    }

    fn set(&mut self, key: &str, value: &str) -> Result<(), EngineError> {
        let w = self.store.set(key.to_string(), value.to_string())?;
        self.log.extend_from_slice(&w.frame);
        if self.store.commit(w) {
            self.compact()?;
        }
        Ok(())
    }

    fn remove(&mut self, key: &str) -> Result<(), EngineError> {
        let w = self.store.remove(key.to_string())?;
        self.log.extend_from_slice(&w.frame);
        if self.store.commit(w) {
            self.compact()?;
        }
        Ok(())
    }

    fn get(&self, key: &str) -> Result<Option<String>, EngineError> {
        let key = key.to_string();
        match self.store.locate(&key) {
            None => Ok(None),
            Some(o) => KvStore::read_value(&key, &frame_body(&self.log, o)).map(Some),
        }
    }

    fn compact(&mut self) -> Result<(), EngineError> {
        let bodies: Vec<Vec<u8>> = self
            .store
            .live_offsets()
            .iter()
            .map(|&o| frame_body(&self.log, o))
            .collect();
        let c = self.store.compact(&bodies)?;
        self.log = c.bytes().to_vec();
        self.store.install(c);
        Ok(())
    }
}

fn fresh() -> MemStore {
    MemStore::open(Vec::new())
}

#[test]
fn set_then_get() {
    let mut s = fresh();
    assert!(s.set("key1", "value1").is_ok());
    assert_eq!(s.get("key1").unwrap(), Some("value1".to_string()));
}

#[test]
fn overwrite_survives_reopen() {
    let mut s = fresh();
    s.set("k", "v1").unwrap();
    s.set("k", "v2").unwrap();
    assert_eq!(s.get("k").unwrap(), Some("v2".to_string()));
    let s = s.reopen();
    assert_eq!(s.get("k").unwrap(), Some("v2".to_string()));
}

#[test]
fn remove_hides_key() {
    let mut s = fresh();
    s.set("a", "1").unwrap();
    s.set("b", "2").unwrap();
    s.remove("a").unwrap();
    assert_eq!(s.get("a").unwrap(), None);
    assert_eq!(s.get("b").unwrap(), Some("2".to_string()));
    assert!(matches!(s.remove("a"), Err(EngineError::KeyNotFound)));
}

#[test]
fn remove_absent_writes_nothing() {
    let mut s = fresh();
    let before = s.log.len();
    assert!(matches!(s.remove("ghost"), Err(EngineError::KeyNotFound)));
    assert_eq!(s.log.len(), before);
    assert_eq!(s.store.log_len(), before as u64);
    let s = s.reopen();
    assert_eq!(s.get("ghost").unwrap(), None);
}

#[test]
fn ten_thousand_rewrites() {
    let mut s = fresh();
    for i in 0..10000 {
        s.set(&format!("key{}", i), &format!("val{}", i)).unwrap();
    }
    for i in 0..10000 {
        s.set(&format!("key{}", i), &format!("val{}", i + 1)).unwrap();
    }
    for i in 0..10000 {
        assert_eq!(s.get(&format!("key{}", i)).unwrap(), Some(format!("val{}", i + 1)));
    }
    let mut live = fresh();
    for i in 0..10000 {
        live.set(&format!("key{}", i), &format!("val{}", i + 1)).unwrap();
    }
    assert!(s.log.len() <= 3 * live.log.len());
}

#[test]
fn durability_after_mixed_writes() {
    let mut s = fresh();
    s.set("x", "1").unwrap();
    s.set("y", "2").unwrap();
    s.remove("x").unwrap();
    s.set("z", "3").unwrap();
    s.set("y", "4").unwrap();
    let s = s.reopen();
    assert_eq!(s.get("x").unwrap(), None);
    assert_eq!(s.get("y").unwrap(), Some("4".to_string()));
    assert_eq!(s.get("z").unwrap(), Some("3".to_string()));
    assert_eq!(s.get("w").unwrap(), None);
}

#[test]
fn replay_equals_live() {
    let mut s = fresh();
    s.set("a", "1").unwrap();
    s.set("a", "2").unwrap();
    s.set("b", "3").unwrap();
    s.remove("b").unwrap();
    let live_len = s.store.log_len();
    let live_garbage = s.store.garbage_bytes();
    let live_offsets = s.store.live_offsets();
    let r = KvStore::open(&s.log);
    assert_eq!(r.log_len(), live_len);
    assert_eq!(r.garbage_bytes(), live_garbage);
    assert_eq!(r.live_offsets(), live_offsets);
}

#[test]
fn replay_counts_garbage() {
    let mut s = fresh();
    s.set("k", "v1").unwrap();
    let first = s.log.len() as u64;
    assert_eq!(s.store.garbage_bytes(), 0);
    s.set("k", "v2").unwrap();
    let second = s.log.len() as u64 - first;
    assert_eq!(s.store.garbage_bytes(), first);
    s.remove("k").unwrap();
    let third = s.log.len() as u64 - first - second;
    assert_eq!(s.store.garbage_bytes(), first + second + third);
    let s = s.reopen();
    assert_eq!(s.store.garbage_bytes(), first + second + third);
}

#[test]
fn garbage_counts_replaced_frame() {
    let mut s = fresh();
    s.set("k", "a").unwrap();
    let small = s.log.len() as u64;
    s.set("k", "aaaaa").unwrap();
    assert_eq!(small, 30);
    assert_eq!(s.store.garbage_bytes(), 30);
    let before = s.log.len() as u64;
    s.compact().unwrap();
    assert_eq!(before - s.log.len() as u64, 30);
}

#[test]
fn garbage_equals_reclaimed_bytes() {
    let mut s = fresh();
    s.set("a", "1").unwrap();
    s.set("b", "22").unwrap();
    s.set("a", "333").unwrap();
    s.remove("b").unwrap();
    s.remove("a").unwrap();
    s.set("c", "4").unwrap();
    let garbage = s.store.garbage_bytes();
    let before = s.log.len() as u64;
    s.compact().unwrap();
    assert_eq!(before - s.log.len() as u64, garbage);
}

#[test]
fn remove_absent_in_log_is_garbage_on_replay() {
    let mut s = fresh();
    s.set("a", "1").unwrap();
    let w = s.store.remove("a".to_string()).unwrap();
    let rm = w.frame.clone();
    s.log.extend_from_slice(&w.frame);
    s.store.commit(w);
    let mut log = s.log.clone();
    log.extend_from_slice(&rm);
    let r = KvStore::open(&log);
    assert_eq!(r.garbage_bytes(), log.len() as u64);
}

#[test]
fn error_messages() {
    assert_eq!(EngineError::KeyNotFound.message(), "Key not found");
    assert_eq!(EngineError::UnexpectedResult.message(), "Unexpected result");
    assert_eq!(EngineError::BincodeError("bad".to_string()).message(), "Serde error: bad");
    assert_eq!(EngineError::LockPoisoned("gone".to_string()).message(), "Lock poisoned: gone");
    let io = std::io::Error::new(std::io::ErrorKind::Other, "disk full");
    assert_eq!(EngineError::IoError(io).message(), "IO error: disk full");
}

#[test]
fn replay_stops_at_torn_frame() {
    let mut s = fresh();
    s.set("a", "1").unwrap();
    s.set("b", "2").unwrap();
    let good = s.log.len();
    let mut log = s.log.clone();
    log.extend_from_slice(&[40, 0, 0, 0, 0, 0, 0, 0, 0, 0, 0]);
    let s = MemStore::open(log);
    assert_eq!(s.store.log_len(), good as u64);
    assert_eq!(s.log.len(), good);
    assert_eq!(s.get("a").unwrap(), Some("1".to_string()));
    assert_eq!(s.get("b").unwrap(), Some("2".to_string()));
}

#[test]
fn replay_stops_at_corrupt_record() {
    let mut s = fresh();
    s.set("a", "1").unwrap();
    let good = s.log.len();
    s.set("b", "2").unwrap();
    let mut log = s.log.clone();
    log[good + 8] = 7;
    let s = MemStore::open(log);
    assert_eq!(s.store.log_len(), good as u64);
    assert_eq!(s.get("b").unwrap(), None);
}

#[test]
fn replay_of_empty_log() {
    let s = KvStore::open(&[]);
    assert_eq!(s.log_len(), 0);
    assert_eq!(s.garbage_bytes(), 0);
    assert!(s.live_offsets().is_empty());
}

#[test]
fn compaction_keeps_values() {
    let mut s = fresh();
    s.set("a", "1").unwrap();
    s.set("b", "2").unwrap();
    s.set("a", "3").unwrap();
    s.set("c", "4").unwrap();
    s.remove("c").unwrap();
    let before = s.log.len();
    s.compact().unwrap();
    assert!(s.log.len() <= before);
    assert_eq!(s.store.garbage_bytes(), 0);
    assert_eq!(s.store.log_len(), s.log.len() as u64);
    assert_eq!(s.get("a").unwrap(), Some("3".to_string()));
    assert_eq!(s.get("b").unwrap(), Some("2".to_string()));
    assert_eq!(s.get("c").unwrap(), None);
    let s = s.reopen();
    assert_eq!(s.get("a").unwrap(), Some("3".to_string()));
    assert_eq!(s.store.garbage_bytes(), 0);
}

#[test]
fn compaction_twice_gives_same_log() {
    let mut s = fresh();
    s.set("a", "1").unwrap();
    s.set("b", "2").unwrap();
    s.set("a", "3").unwrap();
    s.compact().unwrap();
    let once = s.log.clone();
    s.compact().unwrap();
    assert_eq!(s.log, once);
}

#[test]
fn compaction_rejects_wrong_record() {
    let mut s = fresh();
    s.set("a", "1").unwrap();
    s.set("b", "2").unwrap();
    let bodies = vec![frame_body(&s.log, 0), frame_body(&s.log, 0)];
    assert!(matches!(s.store.compact(&bodies), Err(EngineError::UnexpectedResult)));
    assert!(matches!(s.store.compact(&Vec::new()), Err(EngineError::UnexpectedResult)));
}

#[test]
fn threshold_triggers_compaction() {
    let mut s = fresh();
    let big = "x".repeat(600 * 1024);
    s.set("k", &big).unwrap();
    s.set("k", &big).unwrap();
    assert!(s.store.garbage_bytes() > 0);
    let w = s.store.set("k".to_string(), big.clone()).unwrap();
    s.log.extend_from_slice(&w.frame);
    assert!(s.store.commit(w));
    s.compact().unwrap();
    assert_eq!(s.store.garbage_bytes(), 0);
    assert_eq!(s.get("k").unwrap(), Some(big.clone()));
    s.set("k", "small").unwrap();
    assert_eq!(s.get("k").unwrap(), Some("small".to_string()));
}

#[test]
fn threshold_compacts_within_write() {
    let mut s = fresh();
    let big = "y".repeat(400 * 1024);
    for _ in 0..4 {
        s.set("k", &big).unwrap();
    }
    assert!(s.store.garbage_bytes() < 1048576);
    assert!(s.log.len() < 3 * 400 * 1024);
    assert_eq!(s.get("k").unwrap(), Some(big));
}

#[test]
fn get_rejects_tombstone_body() {
    let mut s = fresh();
    s.set("a", "1").unwrap();
    let start = s.log.len() as u64;
    s.remove("a").unwrap();
    let body = frame_body(&s.log, start);
    assert!(matches!(
        KvStore::read_value(&"a".to_string(), &body),
        Err(EngineError::UnexpectedResult)
    ));
}

#[test]
fn get_rejects_other_key() {
    let mut s = fresh();
    s.set("a", "1").unwrap();
    let body = frame_body(&s.log, 0);
    assert!(matches!(
        KvStore::read_value(&"b".to_string(), &body),
        Err(EngineError::UnexpectedResult)
    ));
    assert_eq!(KvStore::read_value(&"a".to_string(), &body).unwrap(), "1");
    assert!(matches!(
        KvStore::read_value(&"a".to_string(), &[9, 9]),
        Err(EngineError::UnexpectedResult)
    ));
}

#[test]
fn offsets_point_at_frames() {
    let mut s = fresh();
    s.set("a", "1").unwrap();
    let second = s.log.len() as u64;
    s.set("b", "22").unwrap();
    assert_eq!(s.store.locate(&"a".to_string()), Some(0));
    assert_eq!(s.store.locate(&"b".to_string()), Some(second));
    assert_eq!(s.store.locate(&"c".to_string()), None);
    assert_eq!(s.store.live_offsets(), vec![0, second]);
}
