use seekr_store::entity::{Cluster, canonicalize_config, check_sorted_unique};
use seekr_store::codec::decode;
use seekr_store::StoreError;

fn sample_cluster() -> Cluster {
    Cluster {
        id: b"0192aa01-7e00-7abc-8def-0123456789ab".to_vec(),
        kind: 1,
        name: b"broker-a".to_vec(),
        config: vec![
            (b"cleanup.policy".to_vec(), b"compact".to_vec()),
            (b"retention.ms".to_vec(), b"3600000".to_vec()),
        ],
        created_at: 1_700_000_000_123,
        modified_at: 1_700_000_000_123,
    }
}

#[test]
fn round_trip_returns_the_record() {
    let c = sample_cluster();
    let bytes = c.encode();
    let back = decode(&bytes).expect("a fresh encoding must decode");
    assert_eq!(back, c);
}

#[test]
fn round_trip_of_empty_fields() {
    let c = Cluster {
        id: b"".to_vec(),
        kind: 0,
        name: b"".to_vec(),
        config: vec![],
        created_at: 0,
        modified_at: 0,
    };
    let bytes = c.encode();
    let back = decode(&bytes).expect("an empty record still decodes");
    assert_eq!(back, c);
}

#[test]
fn repeated_encoding_is_stable() {
    let c = sample_cluster();
    assert_eq!(c.encode(), c.encode());
}

#[test]
fn truncated_bytes_are_corruption() {
    let c = sample_cluster();
    let mut bytes = c.encode();
    bytes.pop();
    assert_eq!(decode(&bytes), Err(StoreError::Corruption));
}

#[test]
fn trailing_bytes_are_corruption() {
    let c = sample_cluster();
    let mut bytes = c.encode();
    bytes.push(0);
    assert_eq!(decode(&bytes), Err(StoreError::Corruption));
}

#[test]
fn empty_bytes_are_corruption() {
    assert_eq!(decode(&Vec::new()), Err(StoreError::Corruption));
}

#[test]
fn flipped_length_prefix_is_corruption() {
    let c = sample_cluster();
    let mut bytes = c.encode();
    bytes[0] = 0xff;
    assert_eq!(decode(&bytes), Err(StoreError::Corruption));
}

#[test]
fn layout_is_length_prefixed_little_endian() {
    let c = Cluster {
        id: b"ab".to_vec(),
        kind: 0x01020304,
        name: b"n".to_vec(),
        config: vec![(b"k".to_vec(), b"v".to_vec())],
        created_at: 5,
        modified_at: 6,
    };
    let bytes = c.encode();
    let mut expected: Vec<u8> = Vec::new();
    expected.extend_from_slice(&[2, 0, 0, 0, 0, 0, 0, 0]); // id length
    expected.extend_from_slice(b"ab");
    expected.extend_from_slice(&[4, 3, 2, 1]); // kind, little endian
    expected.extend_from_slice(&[1, 0, 0, 0, 0, 0, 0, 0]); // name length
    expected.extend_from_slice(b"n");
    expected.extend_from_slice(&[5, 0, 0, 0, 0, 0, 0, 0]); // created_at
    expected.extend_from_slice(&[6, 0, 0, 0, 0, 0, 0, 0]); // modified_at
    expected.extend_from_slice(&[1, 0, 0, 0, 0, 0, 0, 0]); // entry count
    expected.extend_from_slice(&[1, 0, 0, 0, 0, 0, 0, 0]); // key length
    expected.extend_from_slice(b"k");
    expected.extend_from_slice(&[1, 0, 0, 0, 0, 0, 0, 0]); // value length
    expected.extend_from_slice(b"v");
    assert_eq!(bytes, expected);
}

#[test]
fn canonicalize_sorts_and_keeps_last_value() {
    let raw = vec![
        (b"zz".to_vec(), b"1".to_vec()),
        (b"aa".to_vec(), b"2".to_vec()),
        (b"zz".to_vec(), b"3".to_vec()),
    ];
    let canon = canonicalize_config(&raw);
    assert_eq!(
        canon,
        vec![(b"aa".to_vec(), b"2".to_vec()), (b"zz".to_vec(), b"3".to_vec())]
    );
    assert!(check_sorted_unique(&canon));
    assert!(!check_sorted_unique(&raw));
}

#[test]
fn canonical_form_is_order_insensitive() {
    let one = canonicalize_config(&vec![
        (b"a".to_vec(), b"1".to_vec()),
        (b"b".to_vec(), b"2".to_vec()),
    ]);
    let other = canonicalize_config(&vec![
        (b"b".to_vec(), b"2".to_vec()),
        (b"a".to_vec(), b"1".to_vec()),
    ]);
    assert_eq!(one, other);
}
