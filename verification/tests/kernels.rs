use dense_index::cosine::{
    bits_to_integer, compute_cosine_similarity, cosine_coalesce, cosine_sim_unsigned,
    floats_to_bits, quantize, shift_and_accumulate, sum_components, x_function, CosResult,
};

#[test]
fn nibble_table_counts_bits() {
    let expected = [0, 1, 1, 2, 1, 2, 2, 3, 1, 2, 2, 3, 2, 3, 3, 4];
    for v in 0..16u32 {
        assert_eq!(x_function(v), expected[v as usize]);
    }
    assert_eq!(x_function(16), -1);
    assert_eq!(x_function(1000), -1);
}

#[test]
fn shift_and_accumulate_popcounts_low_16_bits() {
    assert_eq!(shift_and_accumulate(0), 0);
    assert_eq!(shift_and_accumulate(0xFFFF), 16);
    assert_eq!(shift_and_accumulate(0xAAAA), 8);
    assert_eq!(shift_and_accumulate(0x0001), 1);
    // bits above the low 16 are not counted
    assert_eq!(shift_and_accumulate(0xFFFF_0000), 0);
}

#[test]
fn bits_to_integer_packs_big_endian() {
    let bits = vec![1, 0, 1, 1];
    assert_eq!(bits_to_integer(&bits, 4), 0b1011);
    let sixteen = vec![1, 0, 1, 0, 1, 0, 1, 0, 1, 0, 1, 0, 1, 0, 1, 0];
    assert_eq!(bits_to_integer(&sixteen, 16), 0xAAAA);
    assert_eq!(bits_to_integer(&sixteen, 3), 0b101);
}

#[test]
fn compute_cosine_similarity_sums_popcounts() {
    let a = vec![1, 0, 1, 0, 1, 0, 1, 0, 1, 0, 1, 0, 1, 0, 1, 0];
    let b = vec![1, 1, 1, 1, 1, 1, 1, 1, 1, 1, 1, 1, 1, 1, 1, 1];
    let r = compute_cosine_similarity(&a, &b, 16);
    assert_eq!(r.dotprod, 8);
    assert_eq!(r.premag_a, 8);
    assert_eq!(r.premag_b, 16);
}

#[test]
fn sum_components_adds_fieldwise() {
    let parts = vec![
        CosResult { dotprod: 1, premag_a: 2, premag_b: 3 },
        CosResult { dotprod: 4, premag_a: 5, premag_b: 6 },
        CosResult { dotprod: 7, premag_a: 8, premag_b: 9 },
    ];
    let acc = sum_components(&parts);
    assert_eq!(acc.dotprod, 12);
    assert_eq!(acc.premag_a, 15);
    assert_eq!(acc.premag_b, 16 + 2);
}

#[test]
fn bit_packed_cosine() {
    // a = [+1, -1, +1, -1, ...] (16 floats), b = [+1, +1, ..., +1]
    let mut a_bits: Vec<u32> = Vec::new();
    let mut b_bits: Vec<u32> = Vec::new();
    for i in 0..16usize {
        if i % 2 == 0 {
            a_bits.push(1.0f32.to_bits());
        } else {
            a_bits.push((-1.0f32).to_bits());
        }
        b_bits.push(1.0f32.to_bits());
    }
    let qa = quantize(&a_bits);
    let qb = quantize(&b_bits);
    let r = cosine_coalesce(&qa, &qb);
    // popcount sums: dot = |a & b| = 8, |a| = 8, |b| = 16
    assert_eq!(r.dotprod, 8);
    assert_eq!(r.premag_a, 8);
    assert_eq!(r.premag_b, 16);
    let scalar = f64::from(r.dotprod)
        / (f64::sqrt(f64::from(r.premag_a)) * f64::sqrt(f64::from(r.premag_b)));
    assert!((scalar - 8.0 / (128.0f64).sqrt()).abs() < 1e-12);
}

#[test]
fn cosine_sim_unsigned_accumulates_words() {
    let x = vec![0xFFFFu32, 0x0000];
    let y = vec![0x00FFu32, 0xFFFF];
    let r = cosine_sim_unsigned(&x, &y);
    assert_eq!(r.dotprod, 8);
    assert_eq!(r.premag_a, 16);
    assert_eq!(r.premag_b, 24);
}

#[test]
fn quantize_chunks_and_remainder() {
    let mut raw: Vec<u32> = Vec::new();
    for i in 0..20usize {
        if i < 18 {
            raw.push(2.5f32.to_bits());
        } else {
            raw.push((-0.5f32).to_bits());
        }
    }
    let q = quantize(&raw);
    assert_eq!(q.len(), 2);
    assert_eq!(q[0], vec![1; 16]);
    assert_eq!(q[1], vec![1, 1, 0, 0]);
}

#[test]
fn quantize_flags_follow_ieee_comparison() {
    let raw = vec![
        0.0f32.to_bits(),
        (-0.0f32).to_bits(),
        f32::NAN.to_bits(),
        (-3.5f32).to_bits(),
        7.25f32.to_bits(),
    ];
    let q = quantize(&raw);
    assert_eq!(q.len(), 1);
    // NaN and negative values quantize to 0; both zeros compare >= 0.0
    assert_eq!(q[0], vec![1, 1, 0, 0, 1]);
}

#[test]
fn floats_to_bits_sets_one_bit_per_nonnegative() {
    let mut raw: Vec<u32> = Vec::new();
    for i in 0..40usize {
        if i % 3 == 0 {
            raw.push(1.0f32.to_bits());
        } else {
            raw.push((-1.0f32).to_bits());
        }
    }
    let packed = floats_to_bits(&raw);
    assert_eq!(packed.len(), 2);
    for i in 0..40usize {
        let bit = (packed[i / 32] >> (i % 32)) & 1;
        assert_eq!(bit == 1, i % 3 == 0, "bit {}", i);
    }
    // remaining bits of the last word stay clear
    for j in 8..32 {
        assert_eq!((packed[1] >> j) & 1, 0);
    }
}
