use count::archive::MockS3Storage;

#[test]
fn put_get_delete_and_counts() {
    let mut s = MockS3Storage::new("test-bucket".to_string(), Some("test-prefix".to_string()));
    assert_eq!(s.prefix(), "test-prefix");
    assert_eq!(s.object_count(), 0);
    let key = "test-prefix/test.series/block_1000_2000".to_string();
    s.put(key.clone(), vec![1, 2, 3]);
    s.put("test-prefix/test.series/manifest".to_string(), vec![9]);
    assert_eq!(s.object_count(), 2);
    assert!(s.has_object("test-prefix/test.series/block_1000_2000"));
    assert!(!s.has_object("test-prefix/other/manifest"));
    s.put(key.clone(), vec![4]);
    assert_eq!(s.object_count(), 2);
    assert_eq!(s.get(&key), Some(vec![4]));
    assert!(s.delete(&key));
    assert!(!s.delete(&key));
    assert_eq!(s.get(&key), None);
    assert_eq!(s.object_count(), 1);
    s.clear();
    assert_eq!(s.object_count(), 0);
}

#[test]
fn default_prefix() {
    let s = MockS3Storage::new("b".to_string(), None);
    assert_eq!(s.prefix(), "count-data");
}
