use dense_index::cosine::CosResult;
use dense_index::vector_store::{VectorEmbedding, IndexError, VectorStore};

fn raw_from_flags(flags: &[u8]) -> Vec<u32> {
    flags
        .iter()
        .map(|&f| if f == 1 { 1.0f32.to_bits() } else { (-1.0f32).to_bits() })
        .collect()
}

fn scalar(c: &CosResult) -> f64 {
    f64::from(c.dotprod) / (f64::sqrt(f64::from(c.premag_a)) * f64::sqrt(f64::from(c.premag_b)))
}

fn store() -> VectorStore {
    VectorStore::new("col".to_string(), 16, 3, 0, 2, vec![0xEE])
}

#[test]
fn single_node_graph() {
    let mut s = store();
    let raw = raw_from_flags(&[1; 16]);
    let emb = VectorEmbedding { raw_vec: raw.clone(), hash_vec: vec![1] };
    s.insert(&emb, 3).unwrap();
    let res = s.search(&raw, 2).unwrap();
    assert_eq!(res.len(), 1);
    assert_eq!(res[0].0, vec![1]);
    assert_eq!(
        res[0].1,
        CosResult { dotprod: 16, premag_a: 16, premag_b: 16 }
    );
    assert!((scalar(&res[0].1) - 1.0).abs() < 1e-12);
}

#[test]
fn two_node_graph() {
    let mut s = store();
    // ten positive flags each, overlapping in eight: coarse cosine 0.8
    let a = raw_from_flags(&[1, 1, 1, 1, 1, 1, 1, 1, 1, 1, 0, 0, 0, 0, 0, 0]);
    let b = raw_from_flags(&[1, 1, 1, 1, 1, 1, 1, 1, 0, 0, 1, 1, 0, 0, 0, 0]);
    s.insert(&VectorEmbedding { raw_vec: a, hash_vec: vec![0xA] }, 3).unwrap();
    s.insert(&VectorEmbedding { raw_vec: b, hash_vec: vec![0xB] }, 3).unwrap();

    let node_a = s.get_node(0, &vec![0xA]).unwrap();
    let edge_ab = node_a.neighbors.iter().find(|e| e.0 == vec![0xB]).unwrap();
    assert!((scalar(&edge_ab.1) - 0.8).abs() < 1e-12);
    assert_eq!(edge_ab.1.dotprod, 8);
    assert_eq!(edge_ab.1.premag_a * edge_ab.1.premag_b, 100);

    let node_b = s.get_node(0, &vec![0xB]).unwrap();
    let edge_ba = node_b.neighbors.iter().find(|e| e.0 == vec![0xA]).unwrap();
    assert!((scalar(&edge_ba.1) - 0.8).abs() < 1e-12);
}

#[test]
fn level_monotonicity_of_inserted_nodes() {
    let mut s = store();
    let raw = raw_from_flags(&[1, 0, 1, 0, 1, 0, 1, 0, 1, 1, 1, 1, 0, 0, 0, 0]);
    s.insert(&VectorEmbedding { raw_vec: raw, hash_vec: vec![7] }, 2).unwrap();
    // ceiling 2: present at levels 0, 1, 2 and absent at 3
    for l in 0..=2 {
        assert!(s.get_node(l, &vec![7]).is_some(), "level {}", l);
    }
    assert!(s.get_node(3, &vec![7]).is_none());
    // the root sentinel is present at every level
    let root = s.root_entry();
    for l in 0..=s.top_level() {
        assert!(s.get_node(l, &root).is_some());
    }
}

#[test]
fn dimension_mismatch_is_rejected() {
    let mut s = store();
    let raw = raw_from_flags(&[1; 8]);
    let r = s.insert(&VectorEmbedding { raw_vec: raw, hash_vec: vec![1] }, 3);
    assert_eq!(r, Err(IndexError::StorageMismatch));
}

#[test]
fn all_negative_vector_is_rejected() {
    let mut s = store();
    let raw = raw_from_flags(&[0; 16]);
    let r = s.insert(&VectorEmbedding { raw_vec: raw, hash_vec: vec![1] }, 3);
    assert_eq!(r, Err(IndexError::ZeroMagnitude));
}

#[test]
fn fan_out_truncation() {
    let mut s = store();
    // five embeddings with pairwise distinct similarities
    let flags: [[u8; 16]; 5] = [
        [1, 1, 1, 1, 1, 1, 1, 1, 1, 1, 1, 1, 0, 0, 0, 0],
        [1, 1, 1, 1, 1, 1, 1, 1, 1, 1, 0, 0, 1, 0, 0, 0],
        [1, 1, 1, 1, 1, 1, 1, 1, 0, 0, 0, 0, 1, 1, 1, 0],
        [1, 1, 1, 1, 1, 0, 0, 0, 0, 1, 1, 0, 0, 1, 1, 1],
        [1, 1, 1, 0, 0, 0, 0, 1, 1, 1, 1, 0, 1, 0, 1, 1],
    ];
    for (i, f) in flags.iter().enumerate() {
        let emb = VectorEmbedding { raw_vec: raw_from_flags(f), hash_vec: vec![i as u8 + 1] };
        s.insert(&emb, 3).unwrap();
    }
    // every materialized node keeps at most two neighbors, sorted strictly
    // descending with no duplicate ids
    let mut ids: Vec<Vec<u8>> = (1..=5u8).map(|i| vec![i]).collect();
    ids.push(s.root_entry());
    let mut saw_full_list = false;
    for id in &ids {
        let node = s.get_node(0, id).unwrap();
        assert!(node.neighbors.len() <= 2);
        if node.neighbors.len() == 2 {
            saw_full_list = true;
            let s0 = scalar(&node.neighbors[0].1);
            let s1 = scalar(&node.neighbors[1].1);
            assert!(s0 > s1);
            assert_ne!(node.neighbors[0].0, node.neighbors[1].0);
        }
    }
    assert!(saw_full_list);
}
