use qumulus::order::{insert_entry, key_less, locate};

#[test]
fn keys_order_by_utf8_bytes() {
    assert!(key_less(&"a".to_string(), &"b".to_string()));
    assert!(key_less(&"10".to_string(), &"2".to_string()));
    assert!(key_less(&"".to_string(), &"a".to_string()));
    assert!(key_less(&"a".to_string(), &"ab".to_string()));
    assert!(!key_less(&"b".to_string(), &"a".to_string()));
    assert!(!key_less(&"a".to_string(), &"a".to_string()));
    assert!(key_less(&"z".to_string(), &"é".to_string()));
}

#[test]
fn insert_like_a_btree_map() {
    let mut v: Vec<(String, u32)> = vec![];
    insert_entry(&mut v, "b".to_string(), 1);
    insert_entry(&mut v, "a".to_string(), 2);
    insert_entry(&mut v, "c".to_string(), 3);
    insert_entry(&mut v, "b".to_string(), 4);
    assert_eq!(v, vec![("a".to_string(), 2), ("b".to_string(), 4), ("c".to_string(), 3)]);
    assert_eq!(locate(&v, &"b".to_string()), (1, true));
    assert_eq!(locate(&v, &"bb".to_string()), (2, false));
    assert_eq!(locate(&v, &"d".to_string()), (3, false));
}
