use kvs::codec::{encode, Command};
use kvs::index::{Index, IndexEntry, LogPointer};
use kvs::segment::Segment;
use kvs::store::KvStore;
use kvs::MyError;

fn s(x: &str) -> String {
    x.to_string()
}

#[test]
fn fresh_store_is_empty() {
    let store = KvStore::new();
    assert_eq!(store.get(s("anything")), Ok(None));
    assert_eq!(store.segments.len(), 1);
    assert_eq!(store.segments[0].generation, 0);
    assert!(store.segments[0].data.is_empty());
}

#[test]
fn set_then_get() {
    let mut store = KvStore::new();
    assert_eq!(store.set(s("k"), s("v")), Ok(()));
    assert_eq!(store.get(s("k")), Ok(Some(s("v"))));
}

#[test]
fn set_then_get_after_other_writes() {
    let mut store = KvStore::new();
    store.set(s("x"), s("1")).unwrap();
    store.set(s("y"), s("2")).unwrap();
    store.remove(s("x")).unwrap();
    store.set(s("k"), s("v")).unwrap();
    assert_eq!(store.get(s("k")), Ok(Some(s("v"))));
}

#[test]
fn overwrite_takes_last_value() {
    let mut store = KvStore::new();
    store.set(s("k"), s("v1")).unwrap();
    store.set(s("k"), s("v2")).unwrap();
    assert_eq!(store.get(s("k")), Ok(Some(s("v2"))));
}

#[test]
fn remove_evicts_and_second_remove_fails() {
    let mut store = KvStore::new();
    store.set(s("k"), s("v")).unwrap();
    assert_eq!(store.remove(s("k")), Ok(()));
    assert_eq!(store.get(s("k")), Ok(None));
    assert_eq!(store.remove(s("k")), Err(MyError::KeyNotFound));
}

#[test]
fn remove_on_fresh_store_fails() {
    let mut store = KvStore::new();
    assert_eq!(store.remove(s("missing")), Err(MyError::KeyNotFound));
}

#[test]
fn empty_keys_and_values_are_data() {
    let mut store = KvStore::new();
    store.set(s(""), s("")).unwrap();
    assert_eq!(store.get(s("")), Ok(Some(s(""))));
    store.set(s(""), s("x")).unwrap();
    assert_eq!(store.get(s("")), Ok(Some(s("x"))));
}

#[test]
fn non_ascii_keys_round_trip() {
    let mut store = KvStore::new();
    store.set(s("clé"), s("väl\u{1F600}")).unwrap();
    assert_eq!(store.get(s("clé")), Ok(Some(s("väl\u{1F600}"))));
}

#[test]
fn reopening_reproduces_all_lookups() {
    let mut store = KvStore::new();
    store.set(s("a"), s("1")).unwrap();
    store.set(s("b"), s("2")).unwrap();
    store.remove(s("a")).unwrap();
    store.set(s("c"), s("3")).unwrap();
    let segments = store.into_segments();
    let reopened = KvStore::open(segments).unwrap();
    assert_eq!(reopened.get(s("a")), Ok(None));
    assert_eq!(reopened.get(s("b")), Ok(Some(s("2"))));
    assert_eq!(reopened.get(s("c")), Ok(Some(s("3"))));
}

#[test]
fn concrete_scenario_with_reopen() {
    let mut store = KvStore::new();
    store.set(s("a"), s("1")).unwrap();
    store.set(s("b"), s("2")).unwrap();
    store.set(s("a"), s("3")).unwrap();
    store.remove(s("b")).unwrap();
    assert_eq!(store.get(s("a")), Ok(Some(s("3"))));
    assert_eq!(store.get(s("b")), Ok(None));
    let reopened = KvStore::open(store.into_segments()).unwrap();
    assert_eq!(reopened.get(s("a")), Ok(Some(s("3"))));
    assert_eq!(reopened.get(s("b")), Ok(None));
}

#[test]
fn open_on_no_segments_creates_generation_zero() {
    let store = KvStore::open(Vec::new()).unwrap();
    assert_eq!(store.segments.len(), 1);
    assert_eq!(store.segments[0].generation, 0);
    assert_eq!(store.get(s("k")), Ok(None));
}

#[test]
fn open_drops_a_truncated_trailing_record() {
    let mut data = encode(&Command::Put { key: s("kept"), value: s("v") });
    let mut partial = encode(&Command::Put { key: s("lost"), value: s("w") });
    partial.truncate(partial.len() - 3);
    data.append(&mut partial);
    let store = KvStore::open(vec![Segment { generation: 0, data }]).unwrap();
    assert_eq!(store.get(s("kept")), Ok(Some(s("v"))));
    assert_eq!(store.get(s("lost")), Ok(None));
}

#[test]
fn open_rejects_a_malformed_record() {
    // 7 is no record tag, and no added bytes could make it one
    let data = vec![7u8, 0, 0];
    let r = KvStore::open(vec![Segment { generation: 0, data }]);
    assert_eq!(r.err(), Some(MyError::MalformedRecord));
}

#[test]
fn open_replays_generations_in_order() {
    // the same key written in two generations: the later one wins
    let older = encode(&Command::Put { key: s("k"), value: s("old") });
    let newer = encode(&Command::Put { key: s("k"), value: s("new") });
    let segments = vec![
        Segment { generation: 3, data: older },
        Segment { generation: 7, data: newer },
    ];
    let store = KvStore::open(segments).unwrap();
    assert_eq!(store.get(s("k")), Ok(Some(s("new"))));
}

#[test]
fn compaction_preserves_lookups_and_shrinks_the_log() {
    let mut store = KvStore::new();
    store.set(s("stable"), s("kept")).unwrap();
    for i in 0..100 {
        store.set(s("churn"), format!("v{}", i)).unwrap();
    }
    // 100 redundant records have piled up but the threshold write has
    // not happened yet
    let size_before: usize = store.segments.iter().map(|seg| seg.data.len()).sum();
    let generation_before = store.segments.last().unwrap().generation;
    store.set(s("churn"), s("final")).unwrap();
    let size_after: usize = store.segments.iter().map(|seg| seg.data.len()).sum();
    assert!(store.segments.last().unwrap().generation > generation_before);
    assert_eq!(store.segments.len(), 1);
    assert_eq!(store.redundant_commands, 0);
    assert!(size_after <= size_before);
    assert_eq!(store.get(s("stable")), Ok(Some(s("kept"))));
    assert_eq!(store.get(s("churn")), Ok(Some(s("final"))));
}

#[test]
fn explicit_compaction_preserves_lookups() {
    let mut store = KvStore::new();
    store.set(s("a"), s("1")).unwrap();
    store.set(s("a"), s("2")).unwrap();
    store.set(s("b"), s("3")).unwrap();
    store.remove(s("b")).unwrap();
    let size_before: usize = store.segments.iter().map(|seg| seg.data.len()).sum();
    assert_eq!(store.compact(), Ok(()));
    let size_after: usize = store.segments.iter().map(|seg| seg.data.len()).sum();
    assert!(size_after <= size_before);
    assert_eq!(store.segments.len(), 1);
    assert_eq!(store.get(s("a")), Ok(Some(s("2"))));
    assert_eq!(store.get(s("b")), Ok(None));
    // compacting twice changes nothing further
    assert_eq!(store.compact(), Ok(()));
    assert_eq!(store.get(s("a")), Ok(Some(s("2"))));
}

#[test]
fn compaction_survives_reopen() {
    let mut store = KvStore::new();
    for i in 0..120 {
        store.set(s("k"), format!("v{}", i)).unwrap();
    }
    assert_eq!(store.segments.len(), 1);
    let reopened = KvStore::open(store.into_segments()).unwrap();
    assert_eq!(reopened.get(s("k")), Ok(Some(s("v119"))));
}

#[test]
fn compaction_after_reopen_shrinks_the_log() {
    let mut store = KvStore::new();
    store.set(s("a"), s("1")).unwrap();
    store.set(s("a"), s("2")).unwrap();
    store.set(s("b"), s("3")).unwrap();
    let mut reopened = KvStore::open(store.into_segments()).unwrap();
    let size_before: usize = reopened.segments.iter().map(|seg| seg.data.len()).sum();
    assert_eq!(reopened.compact(), Ok(()));
    let size_after: usize = reopened.segments.iter().map(|seg| seg.data.len()).sum();
    assert!(size_after <= size_before);
    assert_eq!(reopened.get(s("a")), Ok(Some(s("2"))));
    assert_eq!(reopened.get(s("b")), Ok(Some(s("3"))));
}

#[test]
fn compact_fails_only_on_the_last_generation_number() {
    let data = encode(&Command::Put { key: s("k"), value: s("v") });
    let mut store = KvStore::open(vec![Segment { generation: u64::MAX, data }]).unwrap();
    assert_eq!(store.get(s("k")), Ok(Some(s("v"))));
    assert_eq!(store.compact(), Err(MyError::IoError));
    // the failed compaction left everything in place
    assert_eq!(store.get(s("k")), Ok(Some(s("v"))));
}

#[test]
fn get_reports_an_index_that_points_at_garbage() {
    // hand-build a store whose index points past the log: the engine
    // itself never produces this state
    let mut index = Index::new();
    index.upsert(s("k"), LogPointer { generation: 5, offset: 0 });
    let broken = KvStore {
        store: index,
        segments: vec![Segment { generation: 0, data: Vec::new() }],
        redundant_commands: 0,
    };
    assert_eq!(broken.get(s("k")), Err(MyError::CorruptIndex));
}

#[test]
fn index_operations() {
    let mut index = Index::new();
    assert_eq!(index.lookup(&s("k")), None);
    index.upsert(s("k"), LogPointer { generation: 1, offset: 10 });
    index.upsert(s("j"), LogPointer { generation: 1, offset: 20 });
    assert_eq!(index.lookup(&s("k")), Some(LogPointer { generation: 1, offset: 10 }));
    index.upsert(s("k"), LogPointer { generation: 2, offset: 0 });
    assert_eq!(index.lookup(&s("k")), Some(LogPointer { generation: 2, offset: 0 }));
    assert_eq!(index.len(), 2);
    assert!(index.remove(&s("k")));
    assert!(!index.remove(&s("k")));
    assert_eq!(index.lookup(&s("k")), None);
    let entries: &Vec<IndexEntry> = index.iterate();
    assert_eq!(entries.len(), 1);
    assert_eq!(entries[0].key, s("j"));
}

#[test]
fn error_descriptions() {
    assert_eq!(MyError::KeyNotFound.describe(), "Key not found");
    assert_eq!(MyError::IoError.describe(), "I/O error");
    assert_eq!(MyError::MalformedRecord.describe(), "Malformed record");
    assert_eq!(MyError::CorruptIndex.describe(), "Corrupt index");
}
