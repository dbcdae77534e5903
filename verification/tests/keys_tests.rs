use seekr_store::keys::{encode_key, encode_collection_prefix, lex_less, bytes_eq};

#[test]
fn key_is_collection_separator_id() {
    let key = encode_key(&b"clusters".to_vec(), &b"abc".to_vec());
    assert_eq!(key, b"clusters/abc".to_vec());
}

#[test]
fn distinct_ids_give_distinct_keys() {
    let k1 = encode_key(&b"clusters".to_vec(), &b"0199-aa".to_vec());
    let k2 = encode_key(&b"clusters".to_vec(), &b"0199-ab".to_vec());
    assert_ne!(k1, k2);
}

#[test]
fn distinct_collections_give_distinct_keys() {
    let k1 = encode_key(&b"clusters".to_vec(), &b"x".to_vec());
    let k2 = encode_key(&b"topics".to_vec(), &b"x".to_vec());
    assert_ne!(k1, k2);
}

#[test]
fn collection_prefix_starts_every_key() {
    let prefix = encode_collection_prefix(&b"clusters".to_vec());
    assert_eq!(prefix, b"clusters/".to_vec());
    let key = encode_key(&b"clusters".to_vec(), &b"id-1".to_vec());
    assert!(key.starts_with(&prefix));
}

#[test]
fn keys_sort_as_ids_do() {
    let k1 = encode_key(&b"clusters".to_vec(), &b"2024-01".to_vec());
    let k2 = encode_key(&b"clusters".to_vec(), &b"2024-02".to_vec());
    assert!(lex_less(&k1, &k2));
    assert!(!lex_less(&k2, &k1));
}

#[test]
fn lex_less_orders_byte_strings() {
    assert!(lex_less(&b"abc".to_vec(), &b"abd".to_vec()));
    assert!(lex_less(&b"ab".to_vec(), &b"abc".to_vec()));
    assert!(!lex_less(&b"abc".to_vec(), &b"abc".to_vec()));
    assert!(lex_less(&b"".to_vec(), &b"a".to_vec()));
    assert!(!lex_less(&b"b".to_vec(), &b"ab".to_vec()));
}

#[test]
fn bytes_eq_compares_contents() {
    assert!(bytes_eq(&b"same".to_vec(), &b"same".to_vec()));
    assert!(!bytes_eq(&b"same".to_vec(), &b"sam".to_vec()));
    assert!(!bytes_eq(&b"same".to_vec(), &b"samf".to_vec()));
    assert!(bytes_eq(&b"".to_vec(), &b"".to_vec()));
}
