use logscan::seen::SeenSet;

#[test]
fn first_insert_is_fresh_repeats_are_not() {
    let mut s = SeenSet::new();
    assert!(s.check_insert(b"AABBCC:11:22:33".to_vec()));
    assert!(!s.check_insert(b"AABBCC:11:22:33".to_vec()));
    assert!(s.check_insert(b"AABBCC:11:22:34".to_vec()));
    assert!(!s.check_insert(b"AABBCC:11:22:33".to_vec()));
    assert!(!s.check_insert(b"AABBCC:11:22:34".to_vec()));
}
