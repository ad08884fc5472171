//! End-to-end tests of the log-structured engine.

use kvs::{Effect, KvStore, KvsError, Segment};

fn fresh() -> KvStore {
    KvStore::open(Vec::new()).expect("open fresh store")
}

#[test]
fn basic_set_get_remove() {
    let mut store = fresh();
    store.set("a".to_owned(), "1".to_owned()).unwrap();
    assert_eq!(store.get("a".to_owned()).unwrap(), Some("1".to_owned()));
    store.set("a".to_owned(), "2".to_owned()).unwrap();
    assert_eq!(store.get("a".to_owned()).unwrap(), Some("2".to_owned()));
    store.remove("a".to_owned()).unwrap();
    assert_eq!(store.get("a".to_owned()).unwrap(), None);
    assert!(matches!(
        store.remove("a".to_owned()),
        Err(KvsError::KeyNotFound)
    ));
}

#[test]
fn get_missing_is_none() {
    let mut store = fresh();
    assert_eq!(store.get("missing".to_owned()).unwrap(), None);
}

#[test]
fn remove_never_set_is_key_not_found() {
    let mut store = fresh();
    assert!(matches!(
        store.remove("never".to_owned()),
        Err(KvsError::KeyNotFound)
    ));
}

#[test]
fn last_write_wins_across_keys() {
    let mut store = fresh();
    store.set("k1".to_owned(), "v1".to_owned()).unwrap();
    store.set("k2".to_owned(), "v2".to_owned()).unwrap();
    store.set("k1".to_owned(), "v3".to_owned()).unwrap();
    assert_eq!(store.get("k1".to_owned()).unwrap(), Some("v3".to_owned()));
    assert_eq!(store.get("k2".to_owned()).unwrap(), Some("v2".to_owned()));
}

#[test]
fn persistence_across_reopen() {
    let mut store = fresh();
    store.set("k1".to_owned(), "v1".to_owned()).unwrap();
    store.set("k2".to_owned(), "v2".to_owned()).unwrap();
    store.remove("k2".to_owned()).unwrap();
    let KvStore { segments, .. } = store;
    let mut reopened = KvStore::open(segments).expect("reopen");
    assert_eq!(reopened.get("k1".to_owned()).unwrap(), Some("v1".to_owned()));
    assert_eq!(reopened.get("k2".to_owned()).unwrap(), None);
}

#[test]
fn unicode_keys_and_values_survive() {
    let mut store = fresh();
    store
        .set("clé \"à\"\n".to_owned(), "v\\al\u{1F600}".to_owned())
        .unwrap();
    assert_eq!(
        store.get("clé \"à\"\n".to_owned()).unwrap(),
        Some("v\\al\u{1F600}".to_owned())
    );
    let KvStore { segments, .. } = store;
    let mut reopened = KvStore::open(segments).expect("reopen");
    assert_eq!(
        reopened.get("clé \"à\"\n".to_owned()).unwrap(),
        Some("v\\al\u{1F600}".to_owned())
    );
}

#[test]
fn compaction_bounds_disk_use() {
    let mut store = fresh();
    let payload = "x".repeat(10 * 1024);
    for _ in 0..1000 {
        store.set("key".to_owned(), payload.clone()).unwrap();
    }
    let total: u64 = store.segments.iter().map(|s| s.data.len() as u64).sum();
    assert!(total <= 2 * 1024 * 1024, "directory grew to {} bytes", total);
    assert_eq!(store.get("key".to_owned()).unwrap(), Some(payload));
}

#[test]
fn multi_segment_replay_after_compaction() {
    let mut store = fresh();
    let payload = "y".repeat(10 * 1024);
    for _ in 0..1000 {
        store.set("key".to_owned(), payload.clone()).unwrap();
    }
    store.set("other".to_owned(), "here".to_owned()).unwrap();
    let KvStore { segments, .. } = store;
    let mut reopened = KvStore::open(segments).expect("reopen after compaction");
    assert_eq!(reopened.get("key".to_owned()).unwrap(), Some(payload));
    assert_eq!(reopened.get("other".to_owned()).unwrap(), Some("here".to_owned()));
    reopened.remove("key".to_owned()).unwrap();
    assert_eq!(reopened.get("key".to_owned()).unwrap(), None);
}

#[test]
fn compaction_preserves_semantics() {
    let mut store = fresh();
    store.set("a".to_owned(), "1".to_owned()).unwrap();
    store.set("b".to_owned(), "2".to_owned()).unwrap();
    store.remove("a".to_owned()).unwrap();
    store.set("c".to_owned(), "3".to_owned()).unwrap();
    store.compact().unwrap();
    assert_eq!(store.get("a".to_owned()).unwrap(), None);
    assert_eq!(store.get("b".to_owned()).unwrap(), Some("2".to_owned()));
    assert_eq!(store.get("c".to_owned()).unwrap(), Some("3".to_owned()));
    let total: u64 = store.segments.iter().map(|s| s.data.len() as u64).sum();
    let live: u64 = store
        .index
        .entries
        .iter()
        .map(|(_, cp)| cp.length)
        .sum();
    assert_eq!(total, live);
}

#[test]
fn open_records_create_effect() {
    let mut store = fresh();
    let effects = store.take_effects();
    assert_eq!(effects.len(), 1);
    assert!(matches!(effects[0], Effect::CreateSegment { gen: 1 }));
    assert!(store.take_effects().is_empty());
}

#[test]
fn set_records_append_effect() {
    let mut store = fresh();
    store.take_effects();
    store.set("k".to_owned(), "v".to_owned()).unwrap();
    let effects = store.take_effects();
    assert_eq!(effects.len(), 1);
    match &effects[0] {
        Effect::Append { gen, bytes } => {
            assert_eq!(*gen, 1);
            assert_eq!(bytes.as_slice(), br#"{"Set":{"key":"k","value":"v"}}"#);
        }
        _ => panic!("expected an append effect"),
    }
}

#[test]
fn remove_records_append_effect_only_when_present() {
    let mut store = fresh();
    store.set("k".to_owned(), "v".to_owned()).unwrap();
    store.take_effects();
    store.remove("k".to_owned()).unwrap();
    let effects = store.take_effects();
    assert_eq!(effects.len(), 1);
    match &effects[0] {
        Effect::Append { gen, bytes } => {
            assert_eq!(*gen, 1);
            assert_eq!(bytes.as_slice(), br#"{"Remove":{"key":"k"}}"#);
        }
        _ => panic!("expected an append effect"),
    }
    // A failed remove changes nothing, so nothing is recorded.
    assert!(store.remove("k".to_owned()).is_err());
    assert!(store.take_effects().is_empty());
}

#[test]
fn open_rejects_corrupt_segment() {
    let segments = vec![Segment {
        gen: 1,
        data: b"{\"Set\":{\"key\":\"a\",\"value\":\"1\"}}garbage".to_vec(),
    }];
    assert!(matches!(KvStore::open(segments), Err(KvsError::Serde(_))));
}

#[test]
fn open_rejects_unordered_segments() {
    let segments = vec![
        Segment { gen: 3, data: Vec::new() },
        Segment { gen: 2, data: Vec::new() },
    ];
    assert!(matches!(KvStore::open(segments), Err(KvsError::Io(_))));
}

#[test]
fn open_replays_interleaved_history() {
    let mut first = fresh();
    first.set("a".to_owned(), "1".to_owned()).unwrap();
    first.set("b".to_owned(), "2".to_owned()).unwrap();
    first.set("a".to_owned(), "3".to_owned()).unwrap();
    first.remove("b".to_owned()).unwrap();
    let KvStore { segments, .. } = first;
    let mut second = KvStore::open(segments).expect("reopen");
    assert_eq!(second.get("a".to_owned()).unwrap(), Some("3".to_owned()));
    assert_eq!(second.get("b".to_owned()).unwrap(), None);
    // The second generation is active now.
    assert_eq!(second.current_gen, 2);
}

#[test]
fn key_not_found_message() {
    assert_eq!(KvsError::KeyNotFound.message(), "Key not found");
}
