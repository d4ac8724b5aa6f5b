use dense_index::euclidean::{
    euclidean_calculate, euclidean_distance_u8_squared, DistanceError, EuclideanTerms,
};
use dense_index::storage::Storage;

#[test]
fn euclidean_u8_squared_exact() {
    let x = vec![0u8, 10, 255];
    let y = vec![3u8, 4, 0];
    // 9 + 36 + 65025
    assert_eq!(euclidean_distance_u8_squared(&x, &y), 65070);
    let d = (euclidean_distance_u8_squared(&x, &y) as f64).sqrt();
    assert!((d - (65070.0f64).sqrt()).abs() < 1e-12);
}

#[test]
fn euclidean_symmetry_and_self_distance() {
    let x = vec![1u8, 2, 3, 200];
    let y = vec![7u8, 0, 9, 100];
    assert_eq!(
        euclidean_distance_u8_squared(&x, &y),
        euclidean_distance_u8_squared(&y, &x)
    );
    assert_eq!(euclidean_distance_u8_squared(&x, &x), 0);
}

#[test]
fn calculate_matching_unsigned_bytes() {
    let x = Storage::UnsignedByte { mag: 5, quant_vec: vec![1, 2] };
    let y = Storage::UnsignedByte { mag: 9, quant_vec: vec![4, 6] };
    match euclidean_calculate(&x, &y) {
        Ok(EuclideanTerms::UnsignedSquared(s)) => assert_eq!(s, 9 + 16),
        other => panic!("unexpected result: {:?}", other.is_ok()),
    }
}

#[test]
fn calculate_matching_half_precision() {
    let a = half::f16::from_f32(1.5).to_bits();
    let b = half::f16::from_f32(-2.0).to_bits();
    let x = Storage::HalfPrecisionFP { mag: 0, quant_vec: vec![a] };
    let y = Storage::HalfPrecisionFP { mag: 0, quant_vec: vec![b] };
    match euclidean_calculate(&x, &y) {
        Ok(EuclideanTerms::HalfPairs(xs, ys)) => {
            assert_eq!(xs, vec![a]);
            assert_eq!(ys, vec![b]);
            // the caller widens and combines in floating point
            let diff = f32::from(half::f16::from_bits(xs[0])) - f32::from(half::f16::from_bits(ys[0]));
            assert!(((diff * diff).sqrt() - 3.5).abs() < 1e-6);
        }
        other => panic!("unexpected result: {:?}", other.is_ok()),
    }
}

#[test]
fn sub_byte_euclidean_is_unimplemented() {
    let x = Storage::SubByte { mag: 0, quant_vec: vec![vec![1]], resolution: 1 };
    let y = Storage::SubByte { mag: 0, quant_vec: vec![vec![2]], resolution: 1 };
    assert_eq!(euclidean_calculate(&x, &y), Err(DistanceError::CalculationError));
}

#[test]
fn mixed_variants_are_a_storage_mismatch() {
    let u = Storage::UnsignedByte { mag: 0, quant_vec: vec![1] };
    let h = Storage::HalfPrecisionFP { mag: 0, quant_vec: vec![0x3C00] };
    let s = Storage::SubByte { mag: 0, quant_vec: vec![], resolution: 0 };
    assert_eq!(euclidean_calculate(&u, &h), Err(DistanceError::StorageMismatch));
    assert_eq!(euclidean_calculate(&h, &u), Err(DistanceError::StorageMismatch));
    assert_eq!(euclidean_calculate(&u, &s), Err(DistanceError::StorageMismatch));
    assert_eq!(euclidean_calculate(&s, &h), Err(DistanceError::StorageMismatch));
}
