use kvs::{
    compacted_value, load, log_ids_of, log_path, parse_log_id, value_of, Command, Engine, KeyDir,
    KvsError, LoadedRecord, ValueEntry,
};

fn put(key: &str, val: &str) -> Command {
    Command::Put { key: key.to_owned(), val: val.to_owned() }
}

fn rm(key: &str) -> Command {
    Command::Remove { key: key.to_owned() }
}

#[test]
fn log_path_names_segment() {
    assert_eq!(log_path(0), "0.log");
    assert_eq!(log_path(42), "42.log");
    assert_eq!(log_path(u64::MAX), "18446744073709551615.log");
}

#[test]
fn parse_log_id_accepts_digits_dot_log() {
    assert_eq!(parse_log_id("7.log"), Some(7));
    assert_eq!(parse_log_id("0012.log"), Some(12));
    assert_eq!(parse_log_id("18446744073709551615.log"), Some(u64::MAX));
}

#[test]
fn parse_log_id_rejects_other_names() {
    assert_eq!(parse_log_id(".log"), None);
    assert_eq!(parse_log_id("log"), None);
    assert_eq!(parse_log_id("12.txt"), None);
    assert_eq!(parse_log_id("1a.log"), None);
    assert_eq!(parse_log_id("+1.log"), None);
    assert_eq!(parse_log_id("1.log.log"), None);
    assert_eq!(parse_log_id("18446744073709551616.log"), None);
}

#[test]
fn parse_log_id_reads_log_path() {
    for id in [0u64, 1, 9, 10, 99, 12345, u64::MAX] {
        assert_eq!(parse_log_id(&log_path(id)), Some(id));
    }
}

#[test]
fn log_ids_sorted_and_filtered() {
    let names: Vec<String> =
        ["10.log", "notes.txt", "2.log", "02.log", "1.log", "x.log"].iter().map(|s| s.to_string()).collect();
    assert_eq!(log_ids_of(&names), vec![1, 2, 10]);
    assert_eq!(log_ids_of(&Vec::new()), Vec::<u64>::new());
}

#[test]
fn key_dir_insert_get_remove() {
    let mut d = KeyDir::new();
    let a = "a".to_owned();
    let b = "b".to_owned();
    assert_eq!(d.get(&a), None);
    d.insert(a.clone(), ValueEntry { log_id: 1, log_offset: 0 });
    d.insert(b.clone(), ValueEntry { log_id: 1, log_offset: 10 });
    d.insert(a.clone(), ValueEntry { log_id: 2, log_offset: 5 });
    assert_eq!(d.len(), 2);
    assert_eq!(d.get(&a), Some(ValueEntry { log_id: 2, log_offset: 5 }));
    assert!(d.references(1));
    assert!(!d.references(3));
    d.remove(&a);
    d.remove(&a);
    assert!(!d.contains_key(&a));
    assert!(d.contains_key(&b));
    assert_eq!(d.len(), 1);
    assert_eq!(d.entry_at(0), (&b, ValueEntry { log_id: 1, log_offset: 10 }));
}

#[test]
fn load_replays_segment() {
    let mut d = KeyDir::new();
    let recs = vec![
        LoadedRecord { cmd: put("a", "1"), end: 20 },
        LoadedRecord { cmd: put("b", "2"), end: 45 },
        LoadedRecord { cmd: rm("a"), end: 60 },
        LoadedRecord { cmd: rm("zz"), end: 70 },
        LoadedRecord { cmd: put("b", "3"), end: 90 },
    ];
    assert_eq!(load(4, &recs, &mut d), 90);
    assert_eq!(d.get(&"a".to_owned()), None);
    assert_eq!(d.get(&"b".to_owned()), Some(ValueEntry { log_id: 4, log_offset: 70 }));
    assert_eq!(load(5, &Vec::new(), &mut d), 0);
}

#[test]
fn open_empty_store() {
    let e = Engine::open(Vec::new(), &Vec::new()).unwrap();
    assert_eq!(e.active_log_id(), 1);
    assert_eq!(e.log_ids(), &vec![1]);
    assert_eq!(e.size(), 0);
    assert_eq!(e.len(), 0);
}

#[test]
fn open_replays_in_id_order() {
    let segs = vec![
        vec![LoadedRecord { cmd: put("k", "old"), end: 30 }],
        vec![LoadedRecord { cmd: put("k", "new"), end: 25 }, LoadedRecord { cmd: put("j", "x"), end: 50 }],
    ];
    let e = Engine::open(vec![3, 8], &segs).unwrap();
    assert_eq!(e.active_log_id(), 9);
    assert_eq!(e.log_ids(), &vec![3, 8, 9]);
    assert_eq!(e.size(), 80);
    assert_eq!(e.locate(&"k".to_owned()), Some(ValueEntry { log_id: 8, log_offset: 0 }));
    assert_eq!(e.locate(&"j".to_owned()), Some(ValueEntry { log_id: 8, log_offset: 25 }));
}

#[test]
fn open_without_free_id() {
    assert!(Engine::open(vec![u64::MAX], &vec![Vec::new()]).is_none());
}

#[test]
fn record_set_triggers_compaction_over_threshold() {
    let mut e = Engine::open(Vec::new(), &Vec::new()).unwrap();
    assert!(!e.record_set("a".to_owned(), 0, 1048576));
    assert!(e.record_set("b".to_owned(), 1048576, 1048577));
    assert_eq!(e.size(), 1048577);
}

#[test]
fn compaction_steps() {
    let mut e = Engine::open(vec![1], &vec![vec![LoadedRecord { cmd: put("a", "1"), end: 10 }]]).unwrap();
    e.record_set("b".to_owned(), 0, 12);
    let t = e.begin_compaction().unwrap();
    assert_eq!(t, 3);
    assert_eq!(e.active_log_id(), 4);
    assert_eq!(e.log_ids(), &vec![1, 2, 3, 4]);
    assert_eq!(e.size(), 0);
    e.relocate(0, t, 0, 10);
    assert_eq!(e.finish_compaction(t), vec![1]);
    assert_eq!(e.log_ids(), &vec![2, 3, 4]);
    e.relocate(1, t, 10, 22);
    assert_eq!(e.finish_compaction(t), vec![2]);
    assert_eq!(e.log_ids(), &vec![3, 4]);
    assert_eq!(e.size(), 22);
    assert_eq!(e.locate(&"b".to_owned()), Some(ValueEntry { log_id: 3, log_offset: 10 }));
}

#[test]
fn value_of_records() {
    assert_eq!(value_of(Some(put("a", "1"))).unwrap(), Some("1".to_owned()));
    assert_eq!(value_of(None).unwrap(), None);
    assert!(matches!(value_of(Some(rm("a"))), Err(KvsError::UnexpectedCommandType)));
}

#[test]
fn compacted_value_needs_put() {
    assert_eq!(compacted_value(Some(put("a", "v"))).unwrap(), "v");
    assert!(matches!(compacted_value(Some(rm("a"))), Err(KvsError::UnexpectedCommandType)));
    assert!(matches!(compacted_value(None), Err(KvsError::UnexpectedCommandType)));
}

#[test]
fn check_remove_reports_missing_key() {
    let mut e = Engine::open(Vec::new(), &Vec::new()).unwrap();
    assert!(matches!(e.check_remove(&"a".to_owned()), Err(KvsError::KeyNotFound)));
    e.record_set("a".to_owned(), 0, 5);
    assert!(e.check_remove(&"a".to_owned()).is_ok());
    assert!(!e.record_remove(&"a".to_owned(), 5, 9));
    assert_eq!(e.size(), 9);
    assert!(matches!(e.check_remove(&"a".to_owned()), Err(KvsError::KeyNotFound)));
}
