//! Storage engine behavior: the concrete scenarios for persistence,
//! overwrite, removal and compaction, plus error cases.

use kvs::kvstore::{parse_segment_id, DiskAction, KvStore, SegmentFile, TEST_COMPACT_THRESHOLD,
    TEST_MAX_SEGMENT_BYTES};
use kvs::Error;

fn open_empty() -> KvStore {
    KvStore::open(Vec::new(), TEST_MAX_SEGMENT_BYTES, TEST_COMPACT_THRESHOLD).expect("opens")
}

fn copy_segments(store: &KvStore) -> Vec<SegmentFile> {
    store
        .segment_files()
        .iter()
        .map(|s| SegmentFile { id: s.id, data: s.data.clone() })
        .collect()
}

#[test]
fn get_on_fresh_store_is_none() {
    let store = open_empty();
    assert_eq!(store.get("missing").expect("get"), None);
}

#[test]
fn open_close_persistence() {
    let mut store = open_empty();
    store.set(String::from("k"), String::from("v1")).expect("set");
    let files = copy_segments(&store);
    drop(store);
    let reopened = KvStore::open(files, TEST_MAX_SEGMENT_BYTES, TEST_COMPACT_THRESHOLD)
        .expect("reopens");
    assert_eq!(reopened.get("k").expect("get"), Some(String::from("v1")));
}

#[test]
fn overwrite() {
    let mut store = open_empty();
    store.set(String::from("k"), String::from("a")).expect("set");
    store.set(String::from("k"), String::from("b")).expect("set");
    assert_eq!(store.get("k").expect("get"), Some(String::from("b")));
}

#[test]
fn remove_then_remove_again() {
    let mut store = open_empty();
    store.set(String::from("k"), String::from("v")).expect("set");
    assert!(store.remove(String::from("k")).is_ok());
    assert_eq!(store.get("k").expect("get"), None);
    assert_eq!(store.remove(String::from("k")), Err(Error::RemoveNonexistKey));
}

#[test]
fn remove_absent_leaves_state_unchanged() {
    let mut store = open_empty();
    store.set(String::from("a"), String::from("1")).expect("set");
    assert_eq!(store.remove(String::from("b")), Err(Error::RemoveNonexistKey));
    assert_eq!(store.get("a").expect("get"), Some(String::from("1")));
}

#[test]
fn compaction_threshold_reclaims_segments() {
    let mut store = open_empty();
    let mut peak: usize = 0;
    for i in 0..1024u32 {
        let key = format!("key{i}");
        store.set(key, String::from("value")).expect("set");
        peak = peak.max(store.segment_files().len());
    }
    for i in 0..1024u32 {
        let key = format!("key{i}");
        store.set(key, String::from("value")).expect("overwrite");
        peak = peak.max(store.segment_files().len());
    }
    assert!(store.segment_files().len() < peak);
    for i in 0..1024u32 {
        let key = format!("key{i}");
        assert_eq!(store.get(&key).expect("get"), Some(String::from("value")));
    }
}

#[test]
fn reopen_after_rolls_and_removals() {
    let mut store = open_empty();
    for i in 0..300u32 {
        store.set(format!("k{i}"), format!("v{i}")).expect("set");
    }
    for i in 0..100u32 {
        store.remove(format!("k{i}")).expect("rm");
    }
    assert!(store.segment_files().len() > 1, "rolls happened");
    let files = copy_segments(&store);
    drop(store);
    let reopened = KvStore::open(files, TEST_MAX_SEGMENT_BYTES, TEST_COMPACT_THRESHOLD)
        .expect("reopens");
    for i in 0..100u32 {
        assert_eq!(reopened.get(&format!("k{i}")).expect("get"), None);
    }
    for i in 100..300u32 {
        assert_eq!(reopened.get(&format!("k{i}")).expect("get"), Some(format!("v{i}")));
    }
}

#[test]
fn explicit_compaction_preserves_state() {
    let mut store = open_empty();
    for i in 0..50u32 {
        store.set(format!("k{i}"), format!("v{i}")).expect("set");
    }
    store.remove(String::from("k0")).expect("rm");
    let old_max_id = store.segment_files().iter().map(|s| s.id).max().unwrap();
    store.compact().expect("compact");
    assert!(store.segment_files().iter().all(|s| s.id > old_max_id));
    assert_eq!(store.get("k0").expect("get"), None);
    for i in 1..50u32 {
        assert_eq!(store.get(&format!("k{i}")).expect("get"), Some(format!("v{i}")));
    }
}

#[test]
fn oversized_record_is_refused() {
    let mut store = open_empty();
    let huge = "x".repeat(TEST_MAX_SEGMENT_BYTES + 1);
    assert_eq!(store.set(String::from("k"), huge), Err(Error::OversizedRecord));
    assert_eq!(store.get("k").expect("get"), None);
}

#[test]
fn open_rejects_garbage_segment() {
    let files = vec![SegmentFile { id: 0, data: vec![0xaa, 0xbb, 0xcc] }];
    assert_eq!(
        KvStore::open(files, TEST_MAX_SEGMENT_BYTES, TEST_COMPACT_THRESHOLD).err(),
        Some(Error::Corruption)
    );
}

#[test]
fn open_rejects_duplicate_ids() {
    let files = vec![
        SegmentFile { id: 3, data: Vec::new() },
        SegmentFile { id: 3, data: Vec::new() },
    ];
    assert_eq!(
        KvStore::open(files, TEST_MAX_SEGMENT_BYTES, TEST_COMPACT_THRESHOLD).err(),
        Some(Error::Corruption)
    );
}

#[test]
fn open_rejects_oversized_segment() {
    let files = vec![SegmentFile { id: 0, data: vec![0; TEST_MAX_SEGMENT_BYTES + 1] }];
    assert_eq!(
        KvStore::open(files, TEST_MAX_SEGMENT_BYTES, TEST_COMPACT_THRESHOLD).err(),
        Some(Error::Corruption)
    );
}

#[test]
fn open_queues_creation_of_first_segment() {
    let mut store = open_empty();
    let actions = store.take_actions();
    assert!(matches!(actions.as_slice(), [DiskAction::Create(0)]));
    store.set(String::from("k"), String::from("v")).expect("set");
    let actions = store.take_actions();
    assert!(matches!(actions.as_slice(), [DiskAction::Append(0, _)]));
    assert!(store.take_actions().is_empty());
}

#[test]
fn parse_segment_file_names() {
    assert_eq!(parse_segment_id(b"12.dat"), Some(12));
    assert_eq!(parse_segment_id(b"0.dat"), Some(0));
    assert_eq!(parse_segment_id(b"0007.dat"), Some(7));
    assert_eq!(parse_segment_id(b"7"), Some(7));
    assert_eq!(parse_segment_id(b"kvs"), None);
    assert_eq!(parse_segment_id(b"x.dat"), None);
    assert_eq!(parse_segment_id(b".dat"), None);
    assert_eq!(parse_segment_id(b"12x.dat"), None);
    assert_eq!(parse_segment_id(b"99999999999.dat"), None);
    assert_eq!(parse_segment_id(b"4294967295.dat"), Some(4294967295));
    assert_eq!(parse_segment_id(b"4294967296.dat"), None);
}

#[test]
fn read_your_writes_survives_other_keys() {
    let mut store = open_empty();
    store.set(String::from("k"), String::from("v")).expect("set");
    store.set(String::from("other"), String::from("w")).expect("set");
    store.remove(String::from("other")).expect("rm");
    assert_eq!(store.get("k").expect("get"), Some(String::from("v")));
}

#[test]
fn removed_key_stays_absent_until_rebound() {
    let mut store = open_empty();
    store.set(String::from("k"), String::from("v")).expect("set");
    store.remove(String::from("k")).expect("rm");
    store.set(String::from("other"), String::from("w")).expect("set");
    assert_eq!(store.get("k").expect("get"), None);
    store.set(String::from("k"), String::from("v2")).expect("rebind");
    assert_eq!(store.get("k").expect("get"), Some(String::from("v2")));
}

#[test]
fn disk_actions_rebuild_the_segment_files() {
    // Play the mirroring caller: apply every queued action to a map of
    // file contents and compare it with the modeled segments.
    let mut disk: std::collections::HashMap<u64, Vec<u8>> = std::collections::HashMap::new();
    let mut store = open_empty();
    let mut apply = |disk: &mut std::collections::HashMap<u64, Vec<u8>>,
                     actions: Vec<DiskAction>| {
        for action in actions {
            match action {
                DiskAction::Create(id) => {
                    disk.insert(id, Vec::new());
                }
                DiskAction::Append(id, bytes) => {
                    disk.entry(id).or_default().extend_from_slice(&bytes);
                }
                DiskAction::Delete(id) => {
                    disk.remove(&id);
                }
            }
        }
    };
    apply(&mut disk, store.take_actions());
    for i in 0..600u32 {
        store.set(format!("key{i}"), String::from("value")).expect("set");
    }
    for i in 0..600u32 {
        store.set(format!("key{i}"), String::from("other")).expect("overwrite");
    }
    store.remove(String::from("key0")).expect("rm");
    apply(&mut disk, store.take_actions());
    let files = store.segment_files();
    assert_eq!(disk.len(), files.len());
    for seg in files.iter() {
        assert_eq!(disk.get(&seg.id), Some(&seg.data));
    }
}
