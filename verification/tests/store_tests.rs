use libbase_kv::codec::encode;
use libbase_kv::BaseKV;
use libbase_kv::Index;
use libbase_kv::StoreError;

fn fresh_store() -> BaseKV {
    let mut store = BaseKV::open(Vec::new());
    store.load().unwrap();
    store
}

#[test]
fn open_and_load_empty_log() {
    let mut store = BaseKV::open(Vec::new());
    assert!(store.load().is_ok());
    assert_eq!(store.log_len(), 0);
    assert_eq!(store.get(b"anything").unwrap(), None);
}

#[test]
fn absent_key_is_none_not_error() {
    let mut store = fresh_store();
    store.insert(b"present", b"value");
    let r = store.get(b"absent");
    assert!(r.is_ok());
    assert_eq!(r.unwrap(), None);
}

#[test]
fn last_write_wins() {
    let mut store = fresh_store();
    store.insert(b"K", b"A");
    let second_offset = store.log_len() as u64;
    store.insert(b"K", b"B");
    assert_eq!(store.get(b"K").unwrap(), Some(b"B".to_vec()));
    assert_eq!(store.index.lookup(b"K"), Some(second_offset));
    let entries_for_k = store
        .index
        .pairs()
        .into_iter()
        .filter(|(k, _)| k.as_slice() == b"K")
        .count();
    assert_eq!(entries_for_k, 1);
}

#[test]
fn delete_then_get_returns_empty_value() {
    let mut store = fresh_store();
    store.insert(b"k", b"v");
    store.delete(b"k");
    assert_eq!(store.get(b"k").unwrap(), Some(Vec::<u8>::new()));
}

#[test]
fn explicit_empty_insert_looks_like_delete() {
    let mut store = fresh_store();
    store.insert(b"k", b"");
    assert_eq!(store.get(b"k").unwrap(), Some(Vec::<u8>::new()));
}

#[test]
fn replay_idempotence() {
    let mut log: Vec<u8> = Vec::new();
    log.extend_from_slice(&encode(b"a", b"1"));
    log.extend_from_slice(&encode(b"b", b"2"));
    log.extend_from_slice(&encode(b"a", b"3"));

    let mut s1 = BaseKV::open(log.clone());
    s1.load().unwrap();
    let mut s2 = BaseKV::open(log);
    s2.load().unwrap();

    assert_eq!(s1.index.pairs(), s2.index.pairs());
    assert_eq!(s1.get(b"a").unwrap(), s2.get(b"a").unwrap());
    assert_eq!(s1.get(b"b").unwrap(), s2.get(b"b").unwrap());
}

#[test]
fn offset_monotonicity() {
    let pairs: Vec<(&[u8], &[u8])> = vec![
        (b"alpha", b"1"),
        (b"beta", b"two"),
        (b"gamma", b""),
        (b"delta", b"4444"),
    ];
    let mut store = fresh_store();
    let mut offsets: Vec<u64> = Vec::new();
    for (k, v) in &pairs {
        let before = store.log_len() as u64;
        store.insert(k, v);
        let off = store.index.lookup(k).unwrap();
        assert_eq!(off, before);
        offsets.push(off);
    }
    let mut expected: u64 = 0;
    for (i, (k, v)) in pairs.iter().enumerate() {
        assert_eq!(offsets[i], expected);
        if i > 0 {
            assert!(offsets[i] > offsets[i - 1]);
        }
        expected += encode(k, v).len() as u64;
    }
}

#[test]
fn truncation_detected_on_load() {
    let mut log: Vec<u8> = Vec::new();
    log.extend_from_slice(&encode(b"a", b"1"));
    log.extend_from_slice(&encode(b"bb", b"22"));
    for cut in 1..=3 {
        let truncated = log[0..log.len() - cut].to_vec();
        let mut store = BaseKV::open(truncated);
        assert_eq!(store.load().unwrap_err(), StoreError::TruncatedRecord);
    }
}

#[test]
fn corrupt_payload_detected_on_load() {
    let mut log: Vec<u8> = Vec::new();
    log.extend_from_slice(&encode(b"a", b"1"));
    log.extend_from_slice(&encode(b"bb", b"22"));
    // flip one payload bit of the first record
    log[12] ^= 0x01;
    let mut store = BaseKV::open(log);
    assert_eq!(store.load().unwrap_err(), StoreError::ChecksumMismatch);
}

#[test]
fn end_to_end_scenario() {
    let mut store = fresh_store();
    store.insert(b"a", b"1");
    store.insert(b"b", b"2");
    store.update(b"a", b"9");
    assert_eq!(store.get(b"a").unwrap(), Some(b"9".to_vec()));
    assert_eq!(store.get(b"b").unwrap(), Some(b"2".to_vec()));
    assert_eq!(store.get(b"c").unwrap(), None);
}

#[test]
fn get_at_reads_one_record() {
    let mut store = fresh_store();
    store.insert(b"a", b"1");
    store.insert(b"b", b"2");
    let off_a = store.index.lookup(b"a").unwrap();
    let off_b = store.index.lookup(b"b").unwrap();
    let kv_a = store.get_at(off_a).unwrap();
    assert_eq!(kv_a.key, b"a".to_vec());
    assert_eq!(kv_a.value, b"1".to_vec());
    let kv_b = store.get_at(off_b).unwrap();
    assert_eq!(kv_b.key, b"b".to_vec());
    assert_eq!(kv_b.value, b"2".to_vec());
}

#[test]
fn get_at_past_end_is_end_of_log_error() {
    let mut store = fresh_store();
    store.insert(b"a", b"1");
    let end = store.log_len() as u64;
    assert_eq!(store.get_at(end).unwrap_err(), StoreError::EndOfLog);
    assert_eq!(store.get_at(end + 7).unwrap_err(), StoreError::EndOfLog);
}

#[test]
fn get_at_misaligned_offset_fails() {
    let mut store = fresh_store();
    store.insert(b"some key", b"some value");
    // an offset inside the record's payload is not a record boundary
    let r = store.get_at(13);
    assert!(matches!(
        r,
        Err(StoreError::TruncatedRecord) | Err(StoreError::ChecksumMismatch)
    ));
}

#[test]
fn load_replays_existing_log() {
    let mut writer = fresh_store();
    writer.insert(b"x", b"old");
    writer.insert(b"y", b"kept");
    writer.insert(b"x", b"new");

    let mut log: Vec<u8> = Vec::new();
    log.extend_from_slice(&encode(b"x", b"old"));
    log.extend_from_slice(&encode(b"y", b"kept"));
    log.extend_from_slice(&encode(b"x", b"new"));

    let mut reader = BaseKV::open(log);
    reader.load().unwrap();
    assert_eq!(reader.get(b"x").unwrap(), Some(b"new".to_vec()));
    assert_eq!(reader.get(b"y").unwrap(), Some(b"kept".to_vec()));
    assert_eq!(reader.index.pairs(), writer.index.pairs());
}

#[test]
fn index_lookup_and_upsert() {
    let mut index = Index::new();
    assert_eq!(index.lookup(b"a"), None);
    index.upsert(b"a".to_vec(), 0);
    index.upsert(b"b".to_vec(), 17);
    assert_eq!(index.lookup(b"a"), Some(0));
    assert_eq!(index.lookup(b"b"), Some(17));
    index.upsert(b"a".to_vec(), 42);
    assert_eq!(index.lookup(b"a"), Some(42));
    assert_eq!(index.pairs().len(), 2);
}
