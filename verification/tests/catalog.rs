use dense_index::collections::{CollectionsError, CollectionsMap, Transaction};
use dense_index::vector_store::VectorEmbedding;

fn raw(flags: &[u8]) -> Vec<u32> {
    flags
        .iter()
        .map(|&f| if f == 1 { 1.0f32.to_bits() } else { (-1.0f32).to_bits() })
        .collect()
}

#[test]
fn create_get_delete_dense_index() {
    let mut map = CollectionsMap::new();
    let name = b"docs".to_vec();
    assert!(map.get_dense_index_by_name(&name).is_err());
    map.create_dense_index(name.clone(), 16, 3, 0, 2, vec![0xEE]).unwrap();
    assert!(map.get_dense_index_by_name(&name).is_ok());
    assert_eq!(
        map.create_dense_index(name.clone(), 16, 3, 0, 2, vec![0xEE]),
        Err(CollectionsError::FailedToCreateCollection)
    );
    let removed = map.delete_dense_index_by_name(&name);
    assert!(removed.is_ok());
    assert_eq!(
        map.delete_dense_index_by_name(&name).err(),
        Some(CollectionsError::NotFound)
    );
}

#[test]
fn commit_applies_buffered_inserts() {
    let mut map = CollectionsMap::new();
    let name = b"docs".to_vec();
    map.create_dense_index(name.clone(), 16, 3, 0, 2, vec![0xEE]).unwrap();

    let mut txn = Transaction::begin(name.clone());
    txn.create_vector(VectorEmbedding {
        raw_vec: raw(&[1, 1, 1, 1, 1, 1, 1, 1, 0, 0, 0, 0, 0, 0, 0, 0]),
        hash_vec: vec![1],
    });
    txn.create_vector(VectorEmbedding { raw_vec: raw(&[0; 16]), hash_vec: vec![2] });
    let outcomes = map.commit_transaction(txn, 3).unwrap();
    assert_eq!(outcomes.len(), 2);
    assert!(outcomes[0].is_ok());
    assert!(outcomes[1].is_err());

    let index = map.get_dense_index_by_name(&name).unwrap();
    assert!(index.get_node(0, &vec![1]).is_some());
    assert!(index.get_node(0, &vec![2]).is_none());
}

#[test]
fn abort_leaves_the_index_untouched() {
    let mut map = CollectionsMap::new();
    let name = b"docs".to_vec();
    map.create_dense_index(name.clone(), 16, 2, 0, 2, vec![0xEE]).unwrap();

    let mut txn = Transaction::begin(name.clone());
    txn.create_vector(VectorEmbedding {
        raw_vec: raw(&[1, 0, 1, 0, 1, 0, 1, 0, 1, 0, 1, 0, 1, 0, 1, 0]),
        hash_vec: vec![9],
    });
    txn.abort();

    let index = map.get_dense_index_by_name(&name).unwrap();
    assert!(index.get_node(0, &vec![9]).is_none());
}

#[test]
fn commit_against_a_missing_collection() {
    let mut map = CollectionsMap::new();
    let txn = Transaction::begin(b"nope".to_vec());
    assert_eq!(
        map.commit_transaction(txn, 3).err(),
        Some(CollectionsError::NotFound)
    );
}
