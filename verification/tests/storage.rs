use blobshare::store::Store;
use blobshare::store::normalize_path;

const WINDOW: u64 = 3600;

#[test]
fn put_then_get_round_trips() {
    let mut s = Store::new(WINDOW);
    let key = s.put(b"/x", b"hello", 1, 0).expect("fresh key");
    assert_eq!(s.get(&key), Some(b"hello".to_vec()));
}

#[test]
fn put_of_empty_blob_round_trips() {
    let mut s = Store::new(WINDOW);
    let key = s.put(b"", b"", 0, 0).expect("fresh key");
    assert_eq!(s.get(&key), Some(Vec::new()));
}

#[test]
fn colliding_put_fails_and_leaves_first_blob() {
    let mut s = Store::new(WINDOW);
    let key = s.put(b"/x", b"hello", 1, 0).expect("fresh key");
    // the same path, data and salt force the same digest
    assert_eq!(s.put(b"/x", b"hello", 1, 5), None);
    assert_eq!(s.get(&key), Some(b"hello".to_vec()));
}

#[test]
fn get_strips_to_final_component() {
    let mut s = Store::new(WINDOW);
    let key = s.put(b"/x", b"hello", 1, 0).expect("fresh key");
    let mut traversal = b"/a/b/../../".to_vec();
    traversal.extend_from_slice(&key);
    assert_eq!(s.get(&traversal), s.get(&key));
    assert_eq!(s.get(&traversal), Some(b"hello".to_vec()));
    assert_eq!(s.get(b"/a/b/../../secret"), s.get(b"secret"));
    assert_eq!(s.get(b"secret"), None);
}

#[test]
fn normalize_refuses_dot_names() {
    assert_eq!(normalize_path(b"/a/b/../../secret"), Some(b"secret".to_vec()));
    assert_eq!(normalize_path(b"secret"), Some(b"secret".to_vec()));
    assert_eq!(normalize_path(b""), None);
    assert_eq!(normalize_path(b"/"), None);
    assert_eq!(normalize_path(b"a/.."), None);
    assert_eq!(normalize_path(b"a/b/."), None);
}

#[test]
fn delete_removes_exactly_once() {
    let mut s = Store::new(WINDOW);
    let key = s.put(b"/x", b"hello", 1, 0).expect("fresh key");
    assert!(s.delete(&key));
    assert_eq!(s.get(&key), None);
    assert!(!s.delete(&key));
}

#[test]
fn delete_of_missing_name_fails() {
    let mut s = Store::new(WINDOW);
    assert!(!s.delete(b"/nothing"));
    assert!(!s.delete(b".."));
}

#[test]
fn sweep_keeps_blobs_within_the_window() {
    let mut s = Store::new(WINDOW);
    let key = s.put(b"/x", b"hello", 1, 0).expect("fresh key");
    s.sweep(WINDOW - 1);
    assert_eq!(s.get(&key), Some(b"hello".to_vec()));
    s.sweep(WINDOW);
    assert_eq!(s.get(&key), Some(b"hello".to_vec()));
}

#[test]
fn sweep_removes_blobs_past_the_window() {
    let mut s = Store::new(WINDOW);
    let key = s.put(b"/x", b"hello", 1, 0).expect("fresh key");
    s.sweep(WINDOW + 1);
    assert_eq!(s.get(&key), None);
}

#[test]
fn sweep_is_selective() {
    let mut s = Store::new(WINDOW);
    let old_key = s.put(b"/old", b"old data", 1, 0).expect("fresh key");
    let new_key = s.put(b"/new", b"new data", 2, 3000).expect("fresh key");
    s.sweep(WINDOW + 1);
    assert_eq!(s.get(&old_key), None);
    assert_eq!(s.get(&new_key), Some(b"new data".to_vec()));
}
