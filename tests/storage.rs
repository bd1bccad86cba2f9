use nyxdb::engine::{next_file_id, parse_file_id, Engine, MEMTABLE_MAX_ENTRIES};
use nyxdb::memtable::{compare_keys, MemTable};
use nyxdb::record::{decode_record, encode_delete, encode_put, DecodeError};
use nyxdb::recovery::recover;
use nyxdb::sstable::{encode_table, find_entry, write_entry};
use nyxdb::wal::{parse_records, push_frame};

fn log_of(records: &[Vec<u8>]) -> Vec<u8> {
    let mut log = Vec::new();
    for r in records {
        push_frame(&mut log, r);
    }
    log
}

/// Simulates the store: every mutation is logged before it is applied, and
/// a due flush turns the table into a file put in front of the others.
struct Sim {
    log: Vec<u8>,
    files: Vec<Vec<u8>>,
    engine: Engine,
}

impl Sim {
    fn open(log: Vec<u8>, files: Vec<Vec<u8>>) -> Sim {
        let memtable = recover(&log).unwrap();
        let engine = Engine::new(memtable, files.len() as u64);
        Sim { log, files, engine }
    }
    fn flush(&mut self) {
        let image = self.engine.flush_image().unwrap();
        self.files.insert(0, image);
        self.engine.flushed();
    }
    fn put(&mut self, k: &[u8], v: &[u8]) {
        push_frame(&mut self.log, &encode_put(k, v));
        if self.engine.put(k.to_vec(), v.to_vec()) {
            self.flush();
        }
    }
    fn delete(&mut self, k: &[u8]) {
        push_frame(&mut self.log, &encode_delete(k));
        if self.engine.delete(k.to_vec()) {
            self.flush();
        }
    }
    fn get(&self, k: &[u8]) -> Option<Vec<u8>> {
        self.engine.get(k, &self.files)
    }
}

#[test]
fn persists_data_across_restart() {
    let mut db = Sim::open(Vec::new(), Vec::new());
    db.put(b"key1", b"value1");
    db.put(b"key2", b"value2");
    db.delete(b"key1");
    let db = Sim::open(db.log.clone(), db.files.clone());
    assert!(db.get(b"key1").is_none());
    assert_eq!(db.get(b"key2").unwrap(), b"value2");
}

#[test]
fn flush_threshold_crossed_mid_sequence() {
    let mut db = Sim::open(Vec::new(), Vec::new());
    for i in 0..1200u32 {
        let k = format!("key{:05}", i);
        db.put(k.as_bytes(), format!("v{}", i).as_bytes());
    }
    assert_eq!(db.files.len(), 1);
    assert_eq!(db.engine.next_sstable_id, 1);
    assert_eq!(db.engine.memtable.len(), 200);
    assert_eq!(db.engine.memtable.get(b"key00005"), None);
    assert_eq!(db.get(b"key00005").unwrap(), b"v5");
    assert_eq!(db.get(b"key00999").unwrap(), b"v999");
    assert_eq!(db.engine.memtable.get(b"key01100"), Some(&Some(b"v1100".to_vec())));
    assert_eq!(db.get(b"key01100").unwrap(), b"v1100");
    assert_eq!(db.get(b"missing"), None);
}

#[test]
fn exactly_threshold_flushes() {
    let mut db = Sim::open(Vec::new(), Vec::new());
    for i in 0..MEMTABLE_MAX_ENTRIES {
        db.put(format!("k{}", i).as_bytes(), b"x");
    }
    assert_eq!(db.files.len(), 1);
    assert_eq!(db.engine.memtable.len(), 0);
}

#[test]
fn newer_value_wins_over_flushed_one() {
    let mut db = Sim::open(Vec::new(), Vec::new());
    db.put(b"k", b"v1");
    db.flush();
    db.put(b"k", b"v2");
    assert_eq!(db.get(b"k").unwrap(), b"v2");
    db.flush();
    assert_eq!(db.get(b"k").unwrap(), b"v2");
}

#[test]
fn tombstone_hides_older_file_after_restart() {
    let mut db = Sim::open(Vec::new(), Vec::new());
    db.put(b"k", b"old");
    db.flush();
    db.delete(b"k");
    let db2 = Sim::open(db.log.clone(), db.files.clone());
    assert_eq!(db2.get(b"k"), None);
    let mut db3 = Sim::open(db.log.clone(), db.files.clone());
    db3.flush();
    assert_eq!(db3.get(b"k"), None);
}

#[test]
fn flush_keeps_every_read() {
    let mut db = Sim::open(Vec::new(), Vec::new());
    db.put(b"a", b"1");
    db.put(b"b", b"2");
    db.flush();
    db.put(b"b", b"3");
    db.delete(b"a");
    db.put(b"c", b"4");
    let keys: [&[u8]; 4] = [b"a", b"b", b"c", b"d"];
    let before: Vec<Option<Vec<u8>>> = keys.iter().map(|k| db.get(k)).collect();
    db.flush();
    let after: Vec<Option<Vec<u8>>> = keys.iter().map(|k| db.get(k)).collect();
    assert_eq!(before, after);
    assert_eq!(after, vec![None, Some(b"3".to_vec()), Some(b"4".to_vec()), None]);
}

#[test]
fn failed_append_leaves_no_trace() {
    let mut db = Sim::open(Vec::new(), Vec::new());
    db.put(b"a", b"1");
    let log = db.log.clone();
    let restarted = Sim::open(log, Vec::new());
    assert_eq!(restarted.get(b"a").unwrap(), b"1");
    assert_eq!(restarted.get(b"b"), None);
}

#[test]
fn memtable_orders_and_overwrites() {
    let mut t = MemTable::new();
    t.put(b"b".to_vec(), b"2".to_vec());
    t.put(b"a".to_vec(), b"1".to_vec());
    t.put(b"ab".to_vec(), b"3".to_vec());
    t.put(b"a".to_vec(), b"9".to_vec());
    t.delete(b"c".to_vec());
    assert_eq!(t.len(), 4);
    let keys: Vec<Vec<u8>> = t.iter().iter().map(|e| e.0.clone()).collect();
    assert_eq!(keys, vec![b"a".to_vec(), b"ab".to_vec(), b"b".to_vec(), b"c".to_vec()]);
    assert_eq!(t.get(b"a"), Some(&Some(b"9".to_vec())));
    assert_eq!(t.get(b"c"), Some(&None));
    assert_eq!(t.get(b"z"), None);
    t.clear();
    assert_eq!(t.len(), 0);
    assert_eq!(t.get(b"a"), None);
}

#[test]
fn compare_is_byte_lexicographic() {
    assert!(compare_keys(b"a", b"b") < 0);
    assert!(compare_keys(b"ab", b"a") > 0);
    assert!(compare_keys(b"", b"a") < 0);
    assert_eq!(compare_keys(b"xyz", b"xyz"), 0);
    assert!(compare_keys(&[0xff], &[0x01, 0x02]) > 0);
}

#[test]
fn record_bytes_are_exact() {
    assert_eq!(encode_put(b"ab", b"xyz"), vec![1, 2, 0, 0, 0, b'a', b'b', 3, 0, 0, 0, b'x', b'y', b'z']);
    assert_eq!(encode_delete(b"k"), vec![2, 1, 0, 0, 0, b'k']);
    assert_eq!(decode_record(&encode_put(b"ab", b"xyz")), Ok((b"ab".to_vec(), Some(b"xyz".to_vec()))));
    assert_eq!(decode_record(&encode_delete(b"k")), Ok((b"k".to_vec(), None)));
}

#[test]
fn record_errors() {
    assert_eq!(decode_record(&[]), Err(DecodeError::Truncated));
    assert_eq!(decode_record(&[1, 5, 0, 0, 0, b'a']), Err(DecodeError::Truncated));
    assert_eq!(decode_record(&[1, 1, 0, 0, 0, b'a', 2, 0]), Err(DecodeError::Truncated));
    assert_eq!(decode_record(&[1, 1, 0, 0, 0, b'a', 2, 0, 0, 0, b'x']), Err(DecodeError::Truncated));
    assert_eq!(decode_record(&[3, 1, 0, 0, 0, b'a']), Err(DecodeError::UnknownOperation));
    let mut t = MemTable::new();
    assert_eq!(t.apply(&[9, 0, 0, 0, 0]), Err(DecodeError::UnknownOperation));
    assert_eq!(t.len(), 0);
    assert_eq!(t.apply(&encode_put(b"k", b"v")), Ok(()));
    assert_eq!(t.get(b"k"), Some(&Some(b"v".to_vec())));
    assert_eq!(t.apply(&encode_delete(b"k")), Ok(()));
    assert_eq!(t.get(b"k"), Some(&None));
}

#[test]
fn log_framing() {
    let log = log_of(&[b"abc".to_vec(), Vec::new(), b"z".to_vec()]);
    assert_eq!(log, vec![3, 0, 0, 0, b'a', b'b', b'c', 0, 0, 0, 0, 1, 0, 0, 0, b'z']);
    assert_eq!(parse_records(&log), Ok(vec![b"abc".to_vec(), Vec::new(), b"z".to_vec()]));
    assert_eq!(parse_records(&[]), Ok(Vec::new()));
    assert_eq!(parse_records(&log[..log.len() - 1]), Err(DecodeError::Truncated));
    assert_eq!(parse_records(&[1, 0]), Err(DecodeError::Truncated));
}

#[test]
fn recover_replays_in_order() {
    let log = log_of(&[encode_put(b"key1", b"value1"), encode_put(b"key2", b"value2"), encode_delete(b"key1")]);
    let t = recover(&log).unwrap();
    assert_eq!(t.get(b"key1"), Some(&None));
    assert_eq!(t.get(b"key2"), Some(&Some(b"value2".to_vec())));
    assert_eq!(recover(&[]).unwrap().len(), 0);
    let bad = log_of(&[encode_put(b"a", b"1"), vec![7, 0, 0, 0, 0]]);
    assert!(matches!(recover(&bad), Err(DecodeError::UnknownOperation)));
    assert!(matches!(recover(&log[..log.len() - 2]), Err(DecodeError::Truncated)));
}

#[test]
fn entry_round_trip() {
    let mut out = Vec::new();
    write_entry(&mut out, b"key", &Some(b"val".to_vec()));
    assert_eq!(out, vec![3, 0, 0, 0, b'k', b'e', b'y', 3, 0, 0, 0, b'v', b'a', b'l']);
    assert_eq!(find_entry(&out, b"key"), Ok(Some(Some(b"val".to_vec()))));
    assert_eq!(find_entry(&out, b"other"), Ok(None));
    let mut tomb = Vec::new();
    write_entry(&mut tomb, b"gone", &None);
    assert_eq!(tomb, vec![4, 0, 0, 0, b'g', b'o', b'n', b'e', 0xff, 0xff, 0xff, 0xff]);
    assert_eq!(find_entry(&tomb, b"gone"), Ok(Some(None)));
    let mut empty = Vec::new();
    write_entry(&mut empty, b"", &Some(Vec::new()));
    assert_eq!(find_entry(&empty, b""), Ok(Some(Some(Vec::new()))));
}

#[test]
fn file_scan_errors() {
    assert_eq!(find_entry(&[], b"k"), Ok(None));
    assert_eq!(find_entry(&[1, 0], b"k"), Err(DecodeError::Truncated));
    assert_eq!(find_entry(&[1, 0, 0, 0, b'a', 0, 0, 0, 0x80], b"k"), Err(DecodeError::BadValueLength));
    assert_eq!(find_entry(&[1, 0, 0, 0, b'a', 5, 0, 0, 0, b'x'], b"k"), Err(DecodeError::Truncated));
    let mut out = Vec::new();
    write_entry(&mut out, b"a", &Some(b"1".to_vec()));
    out.extend_from_slice(&[9, 9]);
    assert_eq!(find_entry(&out, b"a"), Ok(Some(Some(b"1".to_vec()))));
    assert_eq!(find_entry(&out, b"b"), Err(DecodeError::Truncated));
}

#[test]
fn table_file_is_sorted_snapshot() {
    let mut t = MemTable::new();
    t.put(b"b".to_vec(), b"2".to_vec());
    t.delete(b"a".to_vec());
    let file = encode_table(&t).unwrap();
    assert_eq!(
        file,
        vec![1, 0, 0, 0, b'a', 0xff, 0xff, 0xff, 0xff, 1, 0, 0, 0, b'b', 1, 0, 0, 0, b'2']
    );
    assert_eq!(find_entry(&file, b"a"), Ok(Some(None)));
    assert_eq!(find_entry(&file, b"b"), Ok(Some(Some(b"2".to_vec()))));
    assert_eq!(encode_table(&MemTable::new()), Some(Vec::new()));
}

#[test]
fn file_ids_continue_past_the_largest() {
    assert_eq!(parse_file_id(b"000042"), Some(42));
    assert_eq!(parse_file_id(b"000000"), Some(0));
    assert_eq!(parse_file_id(b""), None);
    assert_eq!(parse_file_id(b"12a"), None);
    assert_eq!(parse_file_id(b"18446744073709551615"), Some(u64::MAX));
    assert_eq!(parse_file_id(b"18446744073709551616"), None);
    let stems = vec![b"000003".to_vec(), b"notes".to_vec(), b"000010".to_vec(), b"000001".to_vec()];
    assert_eq!(next_file_id(&stems), Some(11));
    assert_eq!(next_file_id(&Vec::new()), Some(0));
    assert_eq!(next_file_id(&vec![b"18446744073709551615".to_vec()]), None);
}

#[test]
fn ids_never_reused_after_deleting_files() {
    let mut stems = vec![b"000000".to_vec(), b"000001".to_vec()];
    let first = next_file_id(&stems).unwrap();
    assert_eq!(first, 2);
    stems.push(format!("{:06}", first).into_bytes());
    stems.remove(0);
    stems.remove(0);
    let second = next_file_id(&stems).unwrap();
    assert_eq!(second, 3);
    assert!(second > first);
}
