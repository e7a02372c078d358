use kvs::{
    gen_list, log_path, parse_gen, read_value, replay_order, segment_file_name, IndexMeta,
    KvStore, KvsCommand, KvsError, COMPACTION_THRESHOLD,
};
use std::collections::BTreeMap;

/// Segment files kept in memory: for each generation, its records with
/// their offsets, and its length.
struct Disk {
    files: BTreeMap<u64, Vec<(u64, KvsCommand)>>,
}

fn copy(cmd: &KvsCommand) -> KvsCommand {
    match cmd {
        KvsCommand::Put(k, v) => KvsCommand::Put(k.clone(), v.clone()),
        KvsCommand::Remove(k) => KvsCommand::Remove(k.clone()),
    }
}

fn encoded_len(cmd: &KvsCommand) -> u64 {
    (format!("{:?}", cmd).len() + 1) as u64
}

impl Disk {
    fn new() -> Disk {
        Disk { files: BTreeMap::new() }
    }

    fn create(&mut self, gen: u64) {
        self.files.insert(gen, Vec::new());
    }

    fn len_of(&self, gen: u64) -> u64 {
        self.files[&gen].iter().map(|(_, c)| encoded_len(c)).sum()
    }

    fn append(&mut self, gen: u64, cmd: KvsCommand) -> u64 {
        let pos = self.len_of(gen);
        let len = encoded_len(&cmd);
        self.files.get_mut(&gen).unwrap().push((pos, cmd));
        len
    }

    fn read(&self, gen: u64, pos: u64) -> KvsCommand {
        let (_, cmd) = self.files[&gen].iter().find(|(p, _)| *p == pos).unwrap();
        copy(cmd)
    }

    fn gens(&self) -> Vec<u64> {
        self.files.keys().copied().collect()
    }
}

fn open(disk: &mut Disk) -> KvStore {
    let names: Vec<String> = disk.gens().iter().map(|g| segment_file_name(*g)).collect();
    let order = replay_order(gen_list(&names));
    let mut store = KvStore::open(&order).unwrap();
    disk.create(store.gen());
    for g in order {
        let records: Vec<(KvsCommand, u64)> =
            disk.files[&g].iter().map(|(_, c)| (copy(c), encoded_len(c))).collect();
        store.replay(g, &records).unwrap();
    }
    store
}

fn compact(store: &mut KvStore, disk: &mut Disk) {
    let (archive, active) = store.compaction_gens().unwrap();
    disk.create(active);
    disk.create(archive);
    let mut lens = Vec::new();
    for m in store.compaction_sources() {
        let rec = disk.read(m.gen, m.pos);
        lens.push(disk.append(archive, rec));
    }
    let doomed = store.compact(&lens, &disk.gens()).unwrap();
    for g in doomed {
        disk.files.remove(&g);
    }
}

fn set(store: &mut KvStore, disk: &mut Disk, key: &str, value: &str) {
    let len = disk.append(store.gen(), KvsCommand::Put(key.to_string(), value.to_string()));
    if store.set(key.to_string(), value.to_string(), len) {
        compact(store, disk);
    }
}

fn remove(store: &mut KvStore, disk: &mut Disk, key: &str) -> kvs::Result<()> {
    let key = key.to_string();
    if !store.contains_key(&key) {
        return Err(KvsError::KeyNotFound);
    }
    let len = disk.append(store.gen(), KvsCommand::Remove(key.clone()));
    if store.remove(&key, len)? {
        compact(store, disk);
    }
    Ok(())
}

fn get(store: &KvStore, disk: &Disk, key: &str) -> Option<String> {
    let key = key.to_string();
    store.get(&key).map(|m| read_value(&key, disk.read(m.gen, m.pos)).unwrap())
}

#[test]
fn remove_leaves_other_keys() {
    let mut disk = Disk::new();
    let mut store = open(&mut disk);
    set(&mut store, &mut disk, "a", "1");
    set(&mut store, &mut disk, "b", "2");
    remove(&mut store, &mut disk, "a").unwrap();
    assert_eq!(get(&store, &disk, "a"), None);
    assert_eq!(get(&store, &disk, "b"), Some("2".to_string()));
}

#[test]
fn overwrite_keeps_both_records() {
    let mut disk = Disk::new();
    let mut store = open(&mut disk);
    set(&mut store, &mut disk, "k", "v1");
    set(&mut store, &mut disk, "k", "v2");
    assert_eq!(get(&store, &disk, "k"), Some("v2".to_string()));
    let gen = store.gen();
    assert_eq!(disk.files[&gen].len(), 2);
    assert_eq!(store.len(), 1);
    let first = encoded_len(&KvsCommand::Put("k".to_string(), "v1".to_string()));
    assert_eq!(store.get(&"k".to_string()), Some(IndexMeta { gen, pos: first }));
}

#[test]
fn compaction_deletes_old_generations() {
    let mut disk = Disk::new();
    let mut store = open(&mut disk);
    let big = "x".repeat(100_000);
    for i in 0..12 {
        set(&mut store, &mut disk, &format!("key{}", i), &format!("{}{}", big, i));
    }
    // The eleventh write crosses the threshold: generation 0 is gone.
    assert_eq!(disk.gens(), vec![1, 2]);
    assert_eq!(store.gen(), 2);
    for i in 0..12 {
        assert_eq!(get(&store, &disk, &format!("key{}", i)), Some(format!("{}{}", big, i)));
    }
}

#[test]
fn compaction_keeps_exactly_live_records() {
    let mut disk = Disk::new();
    let mut store = open(&mut disk);
    set(&mut store, &mut disk, "a", "1");
    set(&mut store, &mut disk, "a", "2");
    set(&mut store, &mut disk, "b", "3");
    remove(&mut store, &mut disk, "b").unwrap();
    compact(&mut store, &mut disk);
    assert_eq!(disk.gens(), vec![1, 2]);
    assert_eq!(disk.files[&1].len(), 1);
    assert_eq!(disk.len_of(1), encoded_len(&KvsCommand::Put("a".to_string(), "2".to_string())));
    assert_eq!(store.cursor(), 0);
    assert_eq!(get(&store, &disk, "a"), Some("2".to_string()));
    assert_eq!(get(&store, &disk, "b"), None);
}

#[test]
fn compaction_is_idempotent() {
    let mut disk = Disk::new();
    let mut store = open(&mut disk);
    set(&mut store, &mut disk, "a", "1");
    set(&mut store, &mut disk, "b", "2");
    compact(&mut store, &mut disk);
    let first: Vec<usize> = disk.files.values().map(|f| f.len()).collect();
    compact(&mut store, &mut disk);
    let second: Vec<usize> = disk.files.values().map(|f| f.len()).collect();
    assert_eq!(first, second);
    assert_eq!(disk.gens(), vec![3, 4]);
    assert_eq!(get(&store, &disk, "a"), Some("1".to_string()));
    assert_eq!(get(&store, &disk, "b"), Some("2".to_string()));
}

#[test]
fn remove_missing_key_changes_nothing() {
    let mut disk = Disk::new();
    let mut store = open(&mut disk);
    set(&mut store, &mut disk, "a", "1");
    let cursor = store.cursor();
    let records = disk.files[&store.gen()].len();
    assert!(matches!(remove(&mut store, &mut disk, "z"), Err(KvsError::KeyNotFound)));
    assert!(matches!(store.remove(&"z".to_string(), 5), Err(KvsError::KeyNotFound)));
    assert_eq!(store.cursor(), cursor);
    assert_eq!(disk.files[&store.gen()].len(), records);
    assert_eq!(get(&store, &disk, "a"), Some("1".to_string()));
}

#[test]
fn reopen_reproduces_contents() {
    let mut disk = Disk::new();
    let mut store = open(&mut disk);
    set(&mut store, &mut disk, "a", "1");
    set(&mut store, &mut disk, "b", "2");
    set(&mut store, &mut disk, "a", "3");
    remove(&mut store, &mut disk, "b").unwrap();
    drop(store);
    let mut store = open(&mut disk);
    assert_eq!(store.gen(), 1);
    set(&mut store, &mut disk, "c", "4");
    drop(store);
    let store = open(&mut disk);
    assert_eq!(store.gen(), 2);
    assert_eq!(get(&store, &disk, "a"), Some("3".to_string()));
    assert_eq!(get(&store, &disk, "b"), None);
    assert_eq!(get(&store, &disk, "c"), Some("4".to_string()));
    assert_eq!(store.len(), 2);
}

#[test]
fn reopen_after_compaction() {
    let mut disk = Disk::new();
    let mut store = open(&mut disk);
    set(&mut store, &mut disk, "a", "1");
    set(&mut store, &mut disk, "b", "2");
    compact(&mut store, &mut disk);
    set(&mut store, &mut disk, "a", "5");
    drop(store);
    let store = open(&mut disk);
    assert_eq!(store.gen(), 3);
    assert_eq!(get(&store, &disk, "a"), Some("5".to_string()));
    assert_eq!(get(&store, &disk, "b"), Some("2".to_string()));
}

#[test]
fn latest_write_wins_over_a_sequence() {
    let mut disk = Disk::new();
    let mut store = open(&mut disk);
    let mut model: BTreeMap<String, String> = BTreeMap::new();
    let keys = ["a", "b", "c", "d"];
    for step in 0..200u64 {
        let key = keys[(step * 7 % 4) as usize];
        if step % 3 == 2 {
            let expected = model.remove(key).is_some();
            assert_eq!(remove(&mut store, &mut disk, key).is_ok(), expected);
        } else {
            let value = format!("v{}", step);
            set(&mut store, &mut disk, key, &value);
            model.insert(key.to_string(), value);
        }
        if step % 50 == 49 {
            compact(&mut store, &mut disk);
        }
    }
    for key in keys {
        assert_eq!(get(&store, &disk, key), model.get(key).cloned());
    }
}

#[test]
fn set_reports_threshold() {
    let mut store = KvStore::open(&vec![]).unwrap();
    assert!(!store.set("a".to_string(), "1".to_string(), COMPACTION_THRESHOLD));
    assert!(store.set("b".to_string(), "2".to_string(), 1));
    assert_eq!(store.cursor(), COMPACTION_THRESHOLD + 1);
    assert_eq!(store.remove(&"a".to_string(), 4).unwrap(), true);
}

#[test]
fn open_picks_next_generation() {
    assert_eq!(KvStore::open(&vec![]).unwrap().gen(), 0);
    assert_eq!(KvStore::open(&vec![3, 1, 7, 2]).unwrap().gen(), 8);
    assert!(matches!(KvStore::open(&vec![1, u64::MAX]), Err(KvsError::Unexpected)));
}

#[test]
fn replay_applies_records_in_order() {
    let mut store = KvStore::open(&vec![0, 1]).unwrap();
    let seg0 = vec![
        (KvsCommand::Put("a".to_string(), "1".to_string()), 10),
        (KvsCommand::Put("b".to_string(), "2".to_string()), 10),
        (KvsCommand::Remove("a".to_string()), 6),
    ];
    store.replay(0, &seg0).unwrap();
    assert!(!store.contains_key(&"a".to_string()));
    assert_eq!(store.get(&"b".to_string()), Some(IndexMeta { gen: 0, pos: 10 }));
    let seg1 = vec![
        (KvsCommand::Put("a".to_string(), "3".to_string()), 10),
        (KvsCommand::Put("b".to_string(), "4".to_string()), 12),
    ];
    store.replay(1, &seg1).unwrap();
    assert_eq!(store.get(&"a".to_string()), Some(IndexMeta { gen: 1, pos: 0 }));
    assert_eq!(store.get(&"b".to_string()), Some(IndexMeta { gen: 1, pos: 10 }));
    assert_eq!(store.gen(), 2);
}

#[test]
fn replay_refuses_bad_segments() {
    let mut store = KvStore::open(&vec![0, 1]).unwrap();
    let seg = vec![(KvsCommand::Put("a".to_string(), "1".to_string()), 10)];
    assert!(matches!(store.replay(2, &seg), Err(KvsError::Unexpected)));
    let empty_record = vec![(KvsCommand::Put("a".to_string(), "1".to_string()), 0)];
    assert!(matches!(store.replay(0, &empty_record), Err(KvsError::Unexpected)));
    let too_long = vec![
        (KvsCommand::Put("a".to_string(), "1".to_string()), u64::MAX),
        (KvsCommand::Put("b".to_string(), "1".to_string()), 1),
    ];
    assert!(matches!(store.replay(0, &too_long), Err(KvsError::Unexpected)));
    assert_eq!(store.len(), 0);
    store.replay(1, &seg).unwrap();
    assert!(matches!(store.replay(0, &seg), Err(KvsError::Unexpected)));
    assert!(matches!(store.replay(1, &seg), Err(KvsError::Unexpected)));
}

#[test]
fn compact_refuses_mismatched_lengths() {
    let mut store = KvStore::open(&vec![]).unwrap();
    store.set("a".to_string(), "1".to_string(), 10);
    assert!(matches!(store.compact(&vec![], &vec![0]), Err(KvsError::Unexpected)));
    assert!(matches!(store.compact(&vec![0], &vec![0]), Err(KvsError::Unexpected)));
    assert_eq!(store.gen(), 0);
    assert_eq!(store.get(&"a".to_string()), Some(IndexMeta { gen: 0, pos: 0 }));
    assert_eq!(store.compact(&vec![9], &vec![0, 1, 2, 5]).unwrap(), vec![0]);
    assert_eq!(store.get(&"a".to_string()), Some(IndexMeta { gen: 1, pos: 0 }));
    assert_eq!(store.gen(), 2);
    assert_eq!(store.compaction_gens().unwrap(), (3, 4));
}

#[test]
fn read_value_checks_the_record() {
    let key = "k".to_string();
    let found = read_value(&key, KvsCommand::Put("k".to_string(), "v".to_string()));
    assert_eq!(found.unwrap(), "v");
    assert!(matches!(read_value(&key, KvsCommand::Remove("k".to_string())), Err(KvsError::Unexpected)));
    assert!(matches!(
        read_value(&key, KvsCommand::Put("j".to_string(), "v".to_string())),
        Err(KvsError::Unexpected)
    ));
}

#[test]
fn segment_names() {
    assert_eq!(segment_file_name(0), "0.log");
    assert_eq!(segment_file_name(1234567890), "1234567890.log");
    assert_eq!(log_path("/data/kv", 42), "/data/kv/42.log");
    assert_eq!(log_path("/data/kv/", 42), "/data/kv/42.log");
    assert_eq!(log_path("", 0), "0.log");
    assert_eq!(log_path("/", 7), "/7.log");
    assert_eq!(segment_file_name(u64::MAX), "18446744073709551615.log");
}

#[test]
fn parse_segment_names() {
    assert_eq!(parse_gen("42.log"), Some(42));
    assert_eq!(parse_gen("007.log"), Some(7));
    assert_eq!(parse_gen("18446744073709551615.log"), Some(u64::MAX));
    assert_eq!(parse_gen("18446744073709551616.log"), None);
    assert_eq!(parse_gen(".log"), None);
    assert_eq!(parse_gen("x1.log"), None);
    assert_eq!(parse_gen("1.txt"), None);
    assert_eq!(parse_gen("1.log.bak"), None);
    assert_eq!(parse_gen("12"), None);
}

#[test]
fn list_and_order_generations() {
    let names = vec!["3.log".to_string(), "notes.txt".to_string(), "1.log".to_string(), "10.log".to_string()];
    let gens = gen_list(&names);
    assert_eq!(gens, vec![3, 1, 10]);
    assert_eq!(replay_order(gens), vec![1, 3, 10]);
}

#[test]
fn error_messages() {
    assert_eq!(KvsError::KeyNotFound.message(), "Key not found");
    assert_eq!(KvsError::InvalidPath.message(), "Invalid path");
    assert_eq!(KvsError::Unexpected.message(), "Unexpected internal state");
    let io = std::io::Error::new(std::io::ErrorKind::Other, "disk");
    assert_eq!(KvsError::IoError(io).message(), "I/O error");
    let bad = serde_json::from_str::<u8>("not json").unwrap_err();
    assert_eq!(KvsError::SerdeJsonError(bad).message(), "Malformed record");
}

#[test]
fn replay_refused_after_a_write() {
    let mut store = KvStore::open(&vec![0]).unwrap();
    store.set("a".to_string(), "1".to_string(), 10);
    let seg = vec![(KvsCommand::Put("b".to_string(), "2".to_string()), 10)];
    assert!(matches!(store.replay(0, &seg), Err(KvsError::Unexpected)));
    assert!(!store.contains_key(&"b".to_string()));
}

#[test]
fn errors_convert_from_their_sources() {
    let io = std::io::Error::new(std::io::ErrorKind::Other, "disk");
    assert!(matches!(KvsError::from(io), KvsError::IoError(_)));
    let bad = serde_json::from_str::<u8>("not json").unwrap_err();
    assert!(matches!(KvsError::from(bad), KvsError::SerdeJsonError(_)));
}

#[test]
fn remove_of_missing_key_ignores_length() {
    let mut store = KvStore::open(&vec![]).unwrap();
    assert!(matches!(store.remove(&"z".to_string(), 0), Err(KvsError::KeyNotFound)));
    assert_eq!(store.cursor(), 0);
}

#[test]
fn later_segment_moves_key() {
    let mut store = KvStore::open(&vec![0, 1]).unwrap();
    let seg0 = vec![
        (KvsCommand::Put("k".to_string(), "1".to_string()), 10),
        (KvsCommand::Put("k".to_string(), "2".to_string()), 10),
        (KvsCommand::Put("j".to_string(), "3".to_string()), 10),
    ];
    store.replay(0, &seg0).unwrap();
    assert_eq!(store.get(&"k".to_string()), Some(IndexMeta { gen: 0, pos: 10 }));
    let seg1 = vec![(KvsCommand::Put("k".to_string(), "4".to_string()), 10)];
    store.replay(1, &seg1).unwrap();
    assert_eq!(store.get(&"k".to_string()), Some(IndexMeta { gen: 1, pos: 0 }));
    assert_eq!(store.get(&"j".to_string()), Some(IndexMeta { gen: 0, pos: 20 }));
}
