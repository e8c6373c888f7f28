use durascan::commit_protocol::{DiskModel, FilesystemKVModel};
use durascan::kv_paths::{is_temporary_path, key_to_path, keys_from_paths, temp_path_for};

#[test]
fn test_key_to_path_joins_components() {
    assert_eq!(key_to_path("/root", "a/b/c"), "/root/a/b/c".to_string());
    assert_eq!(key_to_path("r", "x"), "r/x".to_string());
}

#[test]
fn test_key_to_path_skips_empty_components() {
    assert_eq!(key_to_path("/root", "a//b/"), "/root/a/b".to_string());
    assert_eq!(key_to_path("/root", "/a"), "/root/a".to_string());
    assert_eq!(key_to_path("/root", ""), "/root".to_string());
}

#[test]
fn test_temp_path_suffix() {
    assert_eq!(temp_path_for("/r/a/b.bin"), "/r/a/b.bin.tmp".to_string());
    assert!(is_temporary_path("/r/a/b.bin.tmp"));
    assert!(!is_temporary_path("/r/a/b.bin"));
    assert!(!is_temporary_path("tmp"));
}

#[test]
fn test_keys_from_paths_filters_and_strips() {
    let paths = vec![
        "r/a".to_string(),
        "r/sub/b".to_string(),
        "r/c.tmp".to_string(),
        "elsewhere/d".to_string(),
        "r/".to_string(),
    ];
    let keys = keys_from_paths("r", &paths);
    assert_eq!(keys, vec!["a".to_string(), "sub/b".to_string()]);
}

#[test]
fn test_disk_rename_is_atomic_swap() {
    let mut disk = DiskModel::new();
    disk.write_file("r/k", b"old", 3);
    disk.write_file("r/k.tmp", b"new", 3);
    disk.rename("r/k.tmp", "r/k");
    assert_eq!(disk.read("r/k").unwrap(), &b"new".to_vec());
    assert!(disk.read("r/k.tmp").is_none());
}

#[test]
fn test_interrupted_put_leaves_prior_value() {
    let mut kv = FilesystemKVModel::new("r".to_string());
    // commit a first value
    kv.put_write_temp("a/b", &[9, 9], 2);
    kv.put_commit("a/b");
    assert_eq!(kv.get("a/b").unwrap(), &vec![9u8, 9u8]);
    // an overwrite whose temp write stops partway changes nothing a
    // reader can see
    kv.put_write_temp("a/b", &[1, 2, 3], 1);
    assert_eq!(kv.get("a/b").unwrap(), &vec![9u8, 9u8]);
    assert_eq!(kv.list_keys(), vec!["a/b".to_string()]);
    // completing the write and committing exposes the whole new value
    kv.put_write_temp("a/b", &[1, 2, 3], 3);
    kv.put_commit("a/b");
    assert_eq!(kv.get("a/b").unwrap(), &vec![1u8, 2u8, 3u8]);
}

#[test]
fn test_put_killed_before_rename() {
    let mut kv = FilesystemKVModel::new("r".to_string());
    // the process dies after writing the temp file, before the rename
    kv.put_write_temp("a/b", &[1, 2, 3], 3);
    // a subsequent read finds nothing, never a truncated buffer
    assert!(kv.get("a/b").is_none());
    // and the listing never includes the temp artifact
    assert_eq!(kv.list_keys(), Vec::<String>::new());
}

#[test]
fn test_remove_key() {
    let mut kv = FilesystemKVModel::new("r".to_string());
    kv.put_write_temp("k", &[5], 1);
    kv.put_commit("k");
    assert!(kv.get("k").is_some());
    kv.remove_key("k");
    assert!(kv.get("k").is_none());
    assert_eq!(kv.list_keys(), Vec::<String>::new());
}
