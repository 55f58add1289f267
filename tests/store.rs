use kvs::{
    compacted_value, log_ids_of, log_path, value_of, Command, Engine, KvsError, LoadedRecord,
    COMPACTION_THRESHOLD,
};
use std::collections::BTreeMap;

/// Bytes that a record takes in the simulated log.
fn encoded_len(cmd: &Command) -> u64 {
    match cmd {
        Command::Put { key, val } => (key.len() + val.len() + 24) as u64,
        Command::Remove { key } => (key.len() + 20) as u64,
    }
}

/// A directory of segment files held in memory: each file is its records
/// with the offset just past each.
#[derive(Default)]
struct Disk {
    files: BTreeMap<String, Vec<(Command, u64)>>,
}

impl Disk {
    fn file_len(&self, log_id: u64) -> u64 {
        self.files[&log_path(log_id)].last().map(|r| r.1).unwrap_or(0)
    }

    fn append(&mut self, log_id: u64, cmd: Command) -> (u64, u64) {
        let start = self.file_len(log_id);
        let end = start + encoded_len(&cmd);
        self.files.get_mut(&log_path(log_id)).unwrap().push((cmd, end));
        (start, end)
    }

    fn read_at(&self, log_id: u64, offset: u64) -> Option<Command> {
        let mut start = 0;
        for (cmd, end) in &self.files[&log_path(log_id)] {
            if start == offset {
                return Some(cmd.clone());
            }
            start = *end;
        }
        None
    }

    fn total_bytes(&self) -> u64 {
        self.files.values().map(|f| f.last().map(|r| r.1).unwrap_or(0)).sum()
    }
}

/// Drives the engine over a simulated disk as a program drives it over files.
struct Store {
    disk: Disk,
    engine: Engine,
}

impl Store {
    fn open(mut disk: Disk) -> Store {
        let names: Vec<String> = disk.files.keys().cloned().collect();
        let ids = log_ids_of(&names);
        let segments: Vec<Vec<LoadedRecord>> = ids
            .iter()
            .map(|id| {
                disk.files[&log_path(*id)]
                    .iter()
                    .map(|(cmd, end)| LoadedRecord { cmd: cmd.clone(), end: *end })
                    .collect()
            })
            .collect();
        let engine = Engine::open(ids, &segments).unwrap();
        disk.files.insert(log_path(engine.active_log_id()), Vec::new());
        Store { disk, engine }
    }

    fn close(self) -> Disk {
        self.disk
    }

    fn set(&mut self, key: &str, val: &str) -> Result<(), KvsError> {
        let cmd = Command::Put { key: key.to_owned(), val: val.to_owned() };
        let (o, end) = self.disk.append(self.engine.active_log_id(), cmd);
        if self.engine.record_set(key.to_owned(), o, end) {
            self.compact()?;
        }
        Ok(())
    }

    fn get(&mut self, key: &str) -> Result<Option<String>, KvsError> {
        match self.engine.locate(&key.to_owned()) {
            Some(e) => value_of(self.disk.read_at(e.log_id, e.log_offset)),
            None => Ok(None),
        }
    }

    fn remove(&mut self, key: &str) -> Result<(), KvsError> {
        let key = key.to_owned();
        self.engine.check_remove(&key)?;
        let cmd = Command::Remove { key: key.clone() };
        let (o, end) = self.disk.append(self.engine.active_log_id(), cmd);
        if self.engine.record_remove(&key, o, end) {
            self.compact()?;
        }
        Ok(())
    }

    fn compact(&mut self) -> Result<(), KvsError> {
        let target = self.engine.begin_compaction().unwrap();
        self.disk.files.insert(log_path(target), Vec::new());
        self.disk.files.insert(log_path(target + 1), Vec::new());
        for i in 0..self.engine.len() {
            let (key, e) = self.engine.entry_at(i);
            let key = key.clone();
            let val = compacted_value(self.disk.read_at(e.log_id, e.log_offset))?;
            let (o, end) = self.disk.append(target, Command::Put { key, val });
            self.engine.relocate(i, target, o, end);
        }
        for id in self.engine.finish_compaction(target) {
            self.disk.files.remove(&log_path(id));
        }
        Ok(())
    }
}

#[test]
fn basic_set_get() {
    let mut s = Store::open(Disk::default());
    s.set("a", "1").unwrap();
    assert_eq!(s.get("a").unwrap(), Some("1".to_owned()));
    assert_eq!(s.get("b").unwrap(), None);
}

#[test]
fn overwrite_value() {
    let mut s = Store::open(Disk::default());
    s.set("a", "1").unwrap();
    s.set("a", "2").unwrap();
    assert_eq!(s.get("a").unwrap(), Some("2".to_owned()));
}

#[test]
fn remove_then_get() {
    let mut s = Store::open(Disk::default());
    s.set("a", "1").unwrap();
    s.remove("a").unwrap();
    assert_eq!(s.get("a").unwrap(), None);
    assert!(matches!(s.remove("a"), Err(KvsError::KeyNotFound)));
}

#[test]
fn remove_absent_key() {
    let mut s = Store::open(Disk::default());
    assert!(matches!(s.remove("x"), Err(KvsError::KeyNotFound)));
}

#[test]
fn persistence_across_reopen() {
    let mut s = Store::open(Disk::default());
    s.set("k", "v").unwrap();
    let mut s = Store::open(s.close());
    assert_eq!(s.get("k").unwrap(), Some("v".to_owned()));
}

#[test]
fn reopen_keeps_mapping() {
    let mut s = Store::open(Disk::default());
    s.set("a", "1").unwrap();
    s.set("b", "2").unwrap();
    s.remove("a").unwrap();
    let s = Store::open(s.close());
    let mut s = Store::open(s.close());
    assert_eq!(s.get("a").unwrap(), None);
    assert_eq!(s.get("b").unwrap(), Some("2".to_owned()));
    assert_eq!(s.engine.log_ids(), &vec![1, 2, 3]);
}

#[test]
fn compaction_bound() {
    let mut s = Store::open(Disk::default());
    let mut last = String::new();
    for i in 0..10000 {
        last = format!("value{:05}", i);
        assert_eq!(last.len(), 10);
        s.set("key", &last).unwrap();
        assert!(s.disk.total_bytes() <= 4 * COMPACTION_THRESHOLD);
    }
    let mut s = Store::open(s.close());
    assert_eq!(s.get("key").unwrap(), Some(last));
    assert!(s.disk.total_bytes() <= 4 * COMPACTION_THRESHOLD);
}

#[test]
fn interleaved_keys_across_compaction() {
    let mut s = Store::open(Disk::default());
    let big = "x".repeat(2048);
    for i in 0..1000 {
        s.set(&format!("key{}", i), &format!("{}{}", big, i)).unwrap();
    }
    assert!(s.engine.active_log_id() > 2);
    for i in (0..1000).step_by(3) {
        s.remove(&format!("key{}", i)).unwrap();
    }
    let mut s = Store::open(s.close());
    for i in 0..1000 {
        let got = s.get(&format!("key{}", i)).unwrap();
        if i % 3 == 0 {
            assert_eq!(got, None);
        } else {
            assert_eq!(got, Some(format!("{}{}", big, i)));
        }
    }
}

#[test]
fn compaction_keeps_only_new_segments() {
    let mut s = Store::open(Disk::default());
    let big = "y".repeat(4096);
    let mut compacted = false;
    for i in 0..400 {
        let before = s.engine.active_log_id();
        s.set(&format!("k{}", i % 10), &big).unwrap();
        if s.engine.active_log_id() != before {
            compacted = true;
            let active = s.engine.active_log_id();
            assert_eq!(s.engine.log_ids(), &vec![active - 1, active]);
            assert!(s.engine.size() <= 10 * (4096 + 30));
        }
    }
    assert!(compacted);
    for i in 0..10 {
        assert_eq!(s.get(&format!("k{}", i)).unwrap(), Some(big.clone()));
    }
}

#[test]
fn byte_counter_tracks_appends() {
    let mut s = Store::open(Disk::default());
    s.set("ab", "cde").unwrap();
    assert_eq!(s.engine.size(), 2 + 3 + 24);
    s.remove("ab").unwrap();
    assert_eq!(s.engine.size(), 29 + 2 + 20);
}
