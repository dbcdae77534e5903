use seekr_store::store::EntityStore;
use seekr_store::entity::{Cluster, CreateClusterRequest};
use seekr_store::clusters::Clusters;
use seekr_store::codec::decode;
use seekr_store::StoreError;

fn fresh_store() -> EntityStore {
    let db = sled::Config::new()
        .temporary(true)
        .open()
        .expect("a temporary store must open");
    EntityStore::new(db)
}

fn cluster_with_id(id: &[u8], stamp: i64) -> Cluster {
    Cluster {
        id: id.to_vec(),
        kind: 1,
        name: b"broker".to_vec(),
        config: vec![],
        created_at: stamp,
        modified_at: stamp,
    }
}

#[test]
fn insert_then_get_returns_the_bytes() {
    let mut store = fresh_store();
    let collection = b"clusters".to_vec();
    let id = b"id-1".to_vec();
    store
        .insert(&collection, &id, &b"payload".to_vec())
        .expect("insert succeeds");
    let got = store.get(&collection, &id).expect("get succeeds");
    assert_eq!(got, Some(b"payload".to_vec()));
}

#[test]
fn get_of_absent_key_is_none() {
    let store = fresh_store();
    let got = store
        .get(&b"clusters".to_vec(), &b"nobody".to_vec())
        .expect("an absent key is not a failure");
    assert_eq!(got, None);
}

#[test]
fn insert_twice_overwrites() {
    let mut store = fresh_store();
    let collection = b"clusters".to_vec();
    let id = b"id-1".to_vec();
    store.insert(&collection, &id, &b"old".to_vec()).unwrap();
    store.insert(&collection, &id, &b"new".to_vec()).unwrap();
    let got = store.get(&collection, &id).unwrap();
    assert_eq!(got, Some(b"new".to_vec()));
}

#[test]
fn scan_is_scoped_to_the_collection() {
    let mut store = fresh_store();
    store
        .insert(&b"clusters".to_vec(), &b"a".to_vec(), &b"1".to_vec())
        .unwrap();
    store
        .insert(&b"topics".to_vec(), &b"b".to_vec(), &b"2".to_vec())
        .unwrap();
    let entries = store.scan(&b"clusters".to_vec()).unwrap();
    assert_eq!(entries.len(), 1);
    assert_eq!(entries[0].0, b"clusters/a".to_vec());
    assert_eq!(entries[0].1, b"1".to_vec());
}

#[test]
fn scan_returns_key_order() {
    let mut store = fresh_store();
    let collection = b"clusters".to_vec();
    store.insert(&collection, &b"c".to_vec(), &b"3".to_vec()).unwrap();
    store.insert(&collection, &b"a".to_vec(), &b"1".to_vec()).unwrap();
    store.insert(&collection, &b"b".to_vec(), &b"2".to_vec()).unwrap();
    let entries = store.scan(&collection).unwrap();
    let keys: Vec<Vec<u8>> = entries.iter().map(|e| e.0.clone()).collect();
    assert_eq!(
        keys,
        vec![
            b"clusters/a".to_vec(),
            b"clusters/b".to_vec(),
            b"clusters/c".to_vec()
        ]
    );
}

#[test]
fn listing_keeps_creation_order_of_ordered_ids() {
    let mut store = fresh_store();
    let collection = b"clusters".to_vec();
    let e1 = cluster_with_id(b"0001-first", 10);
    let e2 = cluster_with_id(b"0002-second", 20);
    let e3 = cluster_with_id(b"0003-third", 30);
    // Written out of order: the listing order must come from the keys.
    for e in [&e2, &e3, &e1] {
        store.insert(&collection, &e.id, &e.encode()).unwrap();
    }
    let clusters = Clusters::new(store);
    let items = clusters.list().unwrap();
    let got: Vec<Cluster> = items
        .into_iter()
        .map(|(_, outcome)| outcome.expect("every record is valid"))
        .collect();
    assert_eq!(got, vec![e1, e2, e3]);
}

#[test]
fn one_corrupt_record_fails_alone() {
    let mut store = fresh_store();
    let collection = b"clusters".to_vec();
    let good1 = cluster_with_id(b"0001-good", 1);
    let good2 = cluster_with_id(b"0002-good", 2);
    store.insert(&collection, &good1.id, &good1.encode()).unwrap();
    store
        .insert(&collection, &b"0001-zzzz".to_vec(), &b"not an encoding".to_vec())
        .unwrap();
    store.insert(&collection, &good2.id, &good2.encode()).unwrap();
    let clusters = Clusters::new(store);
    let items = clusters.list().unwrap();
    assert_eq!(items.len(), 3);
    let ok: Vec<&Cluster> = items
        .iter()
        .filter_map(|(_, outcome)| outcome.as_ref().ok())
        .collect();
    let failed: Vec<&Vec<u8>> = items
        .iter()
        .filter(|(_, outcome)| outcome == &Err(StoreError::Corruption))
        .map(|(key, _)| key)
        .collect();
    assert_eq!(ok, vec![&good1, &good2]);
    assert_eq!(failed, vec![&b"clusters/0001-zzzz".to_vec()]);
}

#[test]
fn stored_bytes_decode_to_what_was_created() {
    let mut store = fresh_store();
    let collection = b"clusters".to_vec();
    let e = cluster_with_id(b"0001-roundtrip", 5);
    store.insert(&collection, &e.id, &e.encode()).unwrap();
    let bytes = store.get(&collection, &e.id).unwrap().unwrap();
    assert_eq!(decode(&bytes), Ok(e));
}

#[test]
fn end_to_end_create_get_list() {
    let store = fresh_store();
    let mut clusters = Clusters::new(store);
    let req = CreateClusterRequest {
        name: b"broker-a".to_vec(),
        kind: 1,
        config: vec![(b"retention.ms".to_vec(), b"3600000".to_vec())],
    };
    let created = clusters.create(&req).expect("creation succeeds");
    assert_eq!(created.id.len(), 36);
    assert_eq!(created.name, b"broker-a".to_vec());
    assert_eq!(created.kind, 1);
    assert_eq!(
        created.config,
        vec![(b"retention.ms".to_vec(), b"3600000".to_vec())]
    );
    assert_eq!(created.created_at, created.modified_at);

    let got = clusters
        .get(&created.id)
        .expect("lookup succeeds")
        .expect("the created record is there");
    assert_eq!(got, created);

    let items = clusters.list().expect("listing succeeds");
    let matching: Vec<&Cluster> = items
        .iter()
        .filter_map(|(_, outcome)| outcome.as_ref().ok())
        .filter(|c| *c == &created)
        .collect();
    assert_eq!(matching.len(), 1);
}

#[test]
fn get_twice_returns_identical_results() {
    let store = fresh_store();
    let mut clusters = Clusters::new(store);
    let req = CreateClusterRequest {
        name: b"twice".to_vec(),
        kind: 2,
        config: vec![],
    };
    let created = clusters.create(&req).unwrap();
    let first = clusters.get(&created.id).unwrap();
    let second = clusters.get(&created.id).unwrap();
    assert_eq!(first, second);
    let missing1 = clusters.get(&b"no-such-id".to_vec()).unwrap();
    let missing2 = clusters.get(&b"no-such-id".to_vec()).unwrap();
    assert_eq!(missing1, missing2);
}

#[test]
fn absence_is_not_failure() {
    let store = fresh_store();
    let mut clusters = Clusters::new(store);
    let req = CreateClusterRequest {
        name: b"present".to_vec(),
        kind: 0,
        config: vec![],
    };
    clusters.create(&req).unwrap();
    let got = clusters.get(&b"unknown-id".to_vec());
    assert_eq!(got, Ok(None));
}

#[test]
fn get_key_prefixes_the_id_with_the_collection() {
    let c = cluster_with_id(b"0001-key", 1);
    assert_eq!(c.get_key(), b"clusters/0001-key".to_vec());
}

#[test]
fn created_ids_are_fixed_format() {
    let store = fresh_store();
    let mut clusters = Clusters::new(store);
    let req = CreateClusterRequest {
        name: b"fmt".to_vec(),
        kind: 0,
        config: vec![],
    };
    let a = clusters.create(&req).unwrap();
    let b = clusters.create(&req).unwrap();
    assert_ne!(a.id, b.id);
    for c in [&a, &b] {
        assert_eq!(c.id.len(), 36);
        assert!(c.id.iter().all(|b| b.is_ascii_hexdigit() || *b == b'-'));
        assert!(!c.id.contains(&b'/'));
    }
}
