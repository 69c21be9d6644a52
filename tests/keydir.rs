use opal::keydir::{bytes_eq, Entry, KeyDir};

fn entry(file_id: u64, value_offset: u64) -> Entry {
    Entry { file_id, value_offset, value_size: 3, timestamp: 10 }
}

#[test]
fn upsert_get_remove() {
    let mut d = KeyDir::new();
    assert_eq!(d.upsert(b"a".to_vec(), entry(1, 0)), None);
    assert_eq!(d.upsert(b"b".to_vec(), entry(1, 30)), None);
    assert_eq!(d.upsert(b"a".to_vec(), entry(2, 5)), Some(entry(1, 0)));
    assert_eq!(d.len(), 2);
    assert_eq!(d.get(b"a"), Some(entry(2, 5)));
    assert_eq!(d.remove(b"a"), Some(entry(2, 5)));
    assert_eq!(d.remove(b"a"), None);
    assert_eq!(d.get(b"a"), None);
    assert_eq!(d.get(b"b"), Some(entry(1, 30)));
    assert_eq!(d.len(), 1);
}

#[test]
fn compare_and_update_only_on_match() {
    let mut d = KeyDir::new();
    d.upsert(b"k".to_vec(), entry(1, 0));
    assert!(!d.compare_and_update(b"k", entry(9, 9), entry(3, 3)));
    assert_eq!(d.get(b"k"), Some(entry(1, 0)));
    assert!(d.compare_and_update(b"k", entry(1, 0), entry(3, 3)));
    assert_eq!(d.get(b"k"), Some(entry(3, 3)));
    assert!(!d.compare_and_update(b"missing", entry(1, 0), entry(3, 3)));
    assert_eq!(d.get(b"missing"), None);
}

#[test]
fn byte_equality() {
    assert!(bytes_eq(b"abc", b"abc"));
    assert!(!bytes_eq(b"abc", b"abd"));
    assert!(!bytes_eq(b"ab", b"abc"));
    assert!(bytes_eq(b"", b""));
}
