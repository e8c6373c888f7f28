use durascan::cached_object_storage::CachedObjectStorage;
use durascan::filesystem_scanner::{
    object_metadata_from_lookup, read_object_from_contents, FilesystemScanner,
};
use durascan::metadata::FileLikeMetadata;
use durascan::scanner::{
    accept_action, deletion_and_replacement_actions_for, insertion_actions_for, DiscoveredObject,
    MetadataLookup, PosixLikeScanner, QueuedAction, ReadError,
};

fn meta(size: u64, mtime: u64) -> FileLikeMetadata {
    FileLikeMetadata { size, modified_at: Some(mtime), is_directory: false }
}

#[test]
fn test_is_changed_by_size() {
    assert!(meta(100, 5).is_changed(&meta(50, 5)));
}

#[test]
fn test_is_changed_by_mtime() {
    assert!(meta(100, 5).is_changed(&meta(100, 6)));
}

#[test]
fn test_unchanged_metadata() {
    assert!(!meta(100, 5).is_changed(&meta(100, 5)));
    let dir = FileLikeMetadata { size: 0, modified_at: None, is_directory: true };
    let file = FileLikeMetadata { size: 0, modified_at: None, is_directory: false };
    assert!(!dir.is_changed(&file));
}

#[test]
fn test_cached_storage_lifecycle() {
    let mut store = CachedObjectStorage::new();
    assert_eq!(store.len(), 0);
    assert!(!store.contains_object(b"k1"));
    store.place_object(b"k1".to_vec(), meta(1, 1));
    store.place_object(b"k2".to_vec(), meta(2, 2));
    assert!(store.contains_object(b"k1"));
    assert!(store.contains_object(b"k2"));
    assert_eq!(store.len(), 2);
    // overwriting keeps the entry's position and the length
    store.place_object(b"k1".to_vec(), meta(9, 9));
    assert_eq!(store.len(), 2);
    assert_eq!(store.key_at(0).as_slice(), b"k1");
    assert_eq!(store.metadata_at(0).size, 9);
    store.remove_object(b"k1");
    assert!(!store.contains_object(b"k1"));
    assert_eq!(store.len(), 1);
    // removing an untracked key changes nothing
    store.remove_object(b"gone");
    assert_eq!(store.len(), 1);
}

#[test]
fn test_deletion_pass_judgments() {
    let mut store = CachedObjectStorage::new();
    store.place_object(b"a".to_vec(), meta(100, 1));
    store.place_object(b"b".to_vec(), meta(50, 1));
    store.place_object(b"c".to_vec(), meta(7, 1));
    let outcomes = vec![
        MetadataLookup::Absent,
        MetadataLookup::Found(meta(60, 2)),
        MetadataLookup::Found(meta(7, 1)),
    ];
    let acts = deletion_and_replacement_actions_for(&store, &outcomes).unwrap();
    assert_eq!(acts.len(), 2);
    assert_eq!(acts[0], QueuedAction::Delete(b"a".to_vec()));
    assert_eq!(acts[1], QueuedAction::Update(b"b".to_vec(), meta(60, 2)));
}

#[test]
fn test_deletion_pass_io_error_is_fatal() {
    let mut store = CachedObjectStorage::new();
    store.place_object(b"a".to_vec(), meta(100, 1));
    let outcomes = vec![MetadataLookup::Failed];
    assert_eq!(
        deletion_and_replacement_actions_for(&store, &outcomes),
        Err(ReadError::Io)
    );
}

#[test]
fn test_insertion_pass_skips_tracked_and_duplicates() {
    let mut store = CachedObjectStorage::new();
    store.place_object(b"old".to_vec(), meta(1, 1));
    let candidates = vec![
        DiscoveredObject { key: b"old".to_vec(), metadata: Some(meta(1, 1)) },
        DiscoveredObject { key: b"new".to_vec(), metadata: Some(meta(2, 2)) },
        DiscoveredObject { key: b"new".to_vec(), metadata: Some(meta(3, 3)) },
        DiscoveredObject { key: b"raced".to_vec(), metadata: None },
    ];
    let acts = insertion_actions_for(&store, &candidates);
    assert_eq!(acts, vec![QueuedAction::Read(b"new".to_vec(), meta(2, 2))]);
}

#[test]
fn test_insertion_pass_is_idempotent() {
    let mut store = CachedObjectStorage::new();
    store.place_object(b"old".to_vec(), meta(1, 1));
    let candidates = vec![
        DiscoveredObject { key: b"x".to_vec(), metadata: Some(meta(2, 2)) },
        DiscoveredObject { key: b"y".to_vec(), metadata: Some(meta(3, 3)) },
    ];
    let first = insertion_actions_for(&store, &candidates);
    let second = insertion_actions_for(&store, &candidates);
    assert_eq!(first, second);
}

#[test]
fn test_scanner_rejects_malformed_pattern() {
    match FilesystemScanner::new("dir/[", "*") {
        Err(ReadError::MalformedPattern) => {}
        other => panic!("expected a pattern error, got {:?}", other.map(|_| ())),
    }
    assert!(FilesystemScanner::new("dir/*.txt", "*").is_ok());
}

fn block_on<F: std::future::Future>(fut: F) -> F::Output {
    tokio::runtime::Builder::new_current_thread()
        .build()
        .unwrap()
        .block_on(fut)
}

#[test]
fn test_filesystem_scan_scenario() {
    let dir = "/tmp/durascan_scan_scenario";
    let a = "/tmp/durascan_scan_scenario/a.txt";
    let b = "/tmp/durascan_scan_scenario/b.log";
    block_on(async {
        tokio::fs::create_dir_all(dir).await.unwrap();
        tokio::fs::write(a, vec![7u8; 100]).await.unwrap();
        tokio::fs::write(b, vec![7u8; 10]).await.unwrap();
    });

    let mut scanner = FilesystemScanner::new("/tmp/durascan_scan_scenario/*.txt", "*").unwrap();
    let mut store = CachedObjectStorage::new();

    // first scan: only a.txt matches the pattern, and it is new
    let acts = scanner.next_scanner_actions(true, &store).unwrap();
    assert_eq!(acts.len(), 1);
    match &acts[0] {
        QueuedAction::Read(key, m) => {
            assert_eq!(key.as_slice(), a.as_bytes());
            assert_eq!(m.size, 100);
            assert!(!m.is_directory);
        }
        other => panic!("expected a read proposal, got {:?}", other),
    }
    accept_action(&mut store, &acts[0]);
    assert!(store.contains_object(a.as_bytes()));

    // no change: a re-scan proposes nothing
    let acts = scanner.next_scanner_actions(true, &store).unwrap();
    assert_eq!(acts.len(), 0);

    // truncate: exactly one update with the new size, no reads
    block_on(tokio::fs::write(a, vec![7u8; 50])).unwrap();
    let acts = scanner.next_scanner_actions(true, &store).unwrap();
    assert_eq!(acts.len(), 1);
    match &acts[0] {
        QueuedAction::Update(key, m) => {
            assert_eq!(key.as_slice(), a.as_bytes());
            assert_eq!(m.size, 50);
        }
        other => panic!("expected an update proposal, got {:?}", other),
    }
    accept_action(&mut store, &acts[0]);

    // delete: exactly one delete, nothing else
    block_on(tokio::fs::remove_file(a)).unwrap();
    let acts = scanner.next_scanner_actions(true, &store).unwrap();
    assert_eq!(acts, vec![QueuedAction::Delete(a.as_bytes().to_vec())]);
    accept_action(&mut store, &acts[0]);
    assert!(!store.contains_object(a.as_bytes()));

    // once the deletion is applied, the object stays silent
    let acts = scanner.next_scanner_actions(true, &store).unwrap();
    assert_eq!(acts.len(), 0);

    block_on(tokio::fs::remove_file(b)).unwrap();
}

#[test]
fn test_scanner_contract_methods() {
    let dir = "/tmp/durascan_scan_contract";
    let f = "/tmp/durascan_scan_contract/data.txt";
    block_on(async {
        tokio::fs::create_dir_all(dir).await.unwrap();
        tokio::fs::write(f, b"hello".to_vec()).await.unwrap();
    });
    let mut scanner = FilesystemScanner::new("/tmp/durascan_scan_contract/*.txt", "*").unwrap();
    assert_eq!(scanner.read_object(f.as_bytes()).unwrap(), b"hello".to_vec());
    let m = scanner.object_metadata(f.as_bytes()).unwrap().unwrap();
    assert_eq!(m.size, 5);
    assert_eq!(scanner.object_metadata(b"/tmp/durascan_scan_contract/gone.txt"), Ok(None));
    assert_eq!(
        scanner.object_metadata(&[0xff, 0xfe]),
        Err(ReadError::NotRepresentable)
    );
    assert!(!scanner.has_pending_actions());
    assert_eq!(
        scanner.short_description(),
        "FileSystem(/tmp/durascan_scan_contract/*.txt)".to_string()
    );
    block_on(tokio::fs::remove_file(f)).unwrap();
}

#[test]
fn test_lookup_and_content_judgments() {
    assert_eq!(object_metadata_from_lookup(MetadataLookup::Absent), Ok(None));
    assert_eq!(
        object_metadata_from_lookup(MetadataLookup::Found(meta(1, 1))),
        Ok(Some(meta(1, 1)))
    );
    assert_eq!(
        object_metadata_from_lookup(MetadataLookup::Failed),
        Err(ReadError::Io)
    );
    assert_eq!(
        read_object_from_contents(Some(vec![1u8, 2u8])),
        Ok(vec![1u8, 2u8])
    );
    assert_eq!(read_object_from_contents(None), Err(ReadError::Io));
}

#[test]
fn test_read_object_inside_async_context() {
    // a read issued from inside an asynchronous execution context must
    // report failure, never panic on the backing runtime
    let dir = "/tmp/durascan_async_read";
    let f = "/tmp/durascan_async_read/data.txt";
    block_on(async {
        tokio::fs::create_dir_all(dir).await.unwrap();
        tokio::fs::write(f, b"x".to_vec()).await.unwrap();
        let mut scanner = FilesystemScanner::new("/tmp/durascan_async_read/*.txt", "*").unwrap();
        assert!(matches!(scanner.read_object(f.as_bytes()), Err(ReadError::Io)));
        tokio::fs::remove_file(f).await.unwrap();
    });
}

#[test]
fn test_directory_expansion_uses_object_pattern() {
    let dir = "/tmp/durascan_scan_tree/sub";
    block_on(async {
        tokio::fs::create_dir_all(dir).await.unwrap();
        tokio::fs::write("/tmp/durascan_scan_tree/sub/x.csv", b"1".to_vec()).await.unwrap();
        tokio::fs::write("/tmp/durascan_scan_tree/sub/y.txt", b"2".to_vec()).await.unwrap();
    });
    let scanner = FilesystemScanner::new("/tmp/durascan_scan_tree", "*.csv").unwrap();
    let paths = scanner.get_matching_file_paths().unwrap();
    assert_eq!(paths, vec!["/tmp/durascan_scan_tree/sub/x.csv".to_string()]);
    block_on(async {
        tokio::fs::remove_file("/tmp/durascan_scan_tree/sub/x.csv").await.unwrap();
        tokio::fs::remove_file("/tmp/durascan_scan_tree/sub/y.txt").await.unwrap();
    });
}
