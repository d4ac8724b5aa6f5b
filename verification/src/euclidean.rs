//! Euclidean distance over quantized payloads. The unsigned-byte kernel is
//! computed exactly as an integer sum of squared differences; the caller
//! takes its square root. Half-precision payloads need floating point
//! arithmetic, so for them the kernel hands the paired bit patterns back to
//! the caller. Sub-byte payloads have no Euclidean kernel.

use crate::storage::{Storage, StorageView};
use vstd::prelude::*;

verus! {

/// Failures of a distance computation.
#[derive(Clone, Copy, Debug, PartialEq, Eq, Structural)]
pub enum DistanceError {
    /// The two payloads are of different variants.
    StorageMismatch,
    /// The variant pair has no kernel.
    CalculationError,
}

/// Sum of squared differences of the first `n` components.
pub open spec fn sq_diff_sum_upto(x: Seq<u8>, y: Seq<u8>, n: int) -> int
    decreases n,
{
    if n <= 0 {
        0
    } else {
        sq_diff_sum_upto(x, y, n - 1) + (x[n - 1] - y[n - 1]) * (x[n - 1] - y[n - 1])
    }
}

/// Sum of squared differences over the components both vectors have.
pub open spec fn sq_diff_sum(x: Seq<u8>, y: Seq<u8>) -> int {
    sq_diff_sum_upto(x, y, if x.len() <= y.len() {
        x.len() as int
    } else {
        y.len() as int
    })
}

proof fn lemma_sq_diff_sum_bounds(x: Seq<u8>, y: Seq<u8>, n: int)
    ensures
        0 <= sq_diff_sum_upto(x, y, n) <= (if n <= 0 {
            0int
        } else {
            n * 65025
        }),
    decreases n,
{
    if n > 0 {
        lemma_sq_diff_sum_bounds(x, y, n - 1);
        let d = x[n - 1] - y[n - 1];
        assert(0 <= d * d <= 65025) by (nonlinear_arith)
            requires
                -255 <= d <= 255,
        ;
        assert((n - 1) * 65025 + 65025 == n * 65025) by (nonlinear_arith);
    }
}

/// Squared Euclidean distance of two unsigned-byte vectors, summed exactly
/// over the components both vectors have.
pub fn euclidean_distance_u8_squared(x: &[u8], y: &[u8]) -> (r: u64)
    requires
        x@.len() <= 0x1000_0000_0000 || y@.len() <= 0x1000_0000_0000,
    ensures
        r == sq_diff_sum(x@, y@),
{
    let n: usize = if x.len() <= y.len() {
        x.len()
    } else {
        y.len()
    };
    let mut sum: u64 = 0;
    for i in 0..n
        invariant
            n <= x@.len(),
            n <= y@.len(),
            n <= 0x1000_0000_0000,
            sum == sq_diff_sum_upto(x@, y@, i as int),
            sum <= 65025 * i,
    {
        proof {
            lemma_sq_diff_sum_bounds(x@, y@, i as int);
            let d = x@[i as int] - y@[i as int];
            assert(0 <= d * d <= 65025) by (nonlinear_arith)
                requires
                    -255 <= d <= 255,
            ;
            assert(65025 * i + 65025 == 65025 * (i + 1)) by (nonlinear_arith);
        }
        let diff: i32 = (x[i] as i32) - (y[i] as i32);
        let sq: i32 = diff * diff;
        sum = sum + (sq as u64);
    }
    sum
}

/// The squared distance of a vector to itself is zero.
pub proof fn lemma_euclid_sq_self(x: Seq<u8>, n: int)
    ensures
        sq_diff_sum_upto(x, x, n) == 0,
    decreases n,
{
    if n > 0 {
        lemma_euclid_sq_self(x, n - 1);
    }
}

/// The squared distance is symmetric in its two vectors.
pub proof fn lemma_euclid_sq_symmetric(x: Seq<u8>, y: Seq<u8>, n: int)
    ensures
        sq_diff_sum_upto(x, y, n) == sq_diff_sum_upto(y, x, n),
    decreases n,
{
    if n > 0 {
        lemma_euclid_sq_symmetric(x, y, n - 1);
        let a = x[n - 1];
        let b = y[n - 1];
        assert((a - b) * (a - b) == (b - a) * (b - a)) by (nonlinear_arith);
    }
}

/// What the Euclidean kernel returns for a matching pair: either the exact
/// squared distance, or the paired half-precision bit patterns for the
/// caller to widen and combine.
#[derive(Clone, Debug, PartialEq)]
pub enum EuclideanTerms {
    UnsignedSquared(u64),
    HalfPairs(Vec<u16>, Vec<u16>),
}

fn copy_u16s(x: &[u16]) -> (r: Vec<u16>)
    ensures
        r@ == x@,
{
    let mut out: Vec<u16> = Vec::new();
    let n: usize = x.len();
    for i in 0..n
        invariant
            n == x@.len(),
            out@ == x@.take(i as int),
    {
        out.push(x[i]);
        proof {
            assert(out@ =~= x@.take(i + 1));
        }
    }
    proof {
        assert(x@.take(n as int) =~= x@);
    }
    out
}

/// Euclidean distance over two payloads. Matching unsigned-byte payloads
/// yield the exact squared distance; matching half-precision payloads yield
/// the paired bit patterns; matching sub-byte payloads have no kernel; a
/// mixed pair is a storage mismatch.
pub fn euclidean_calculate(x: &Storage, y: &Storage) -> (r: Result<EuclideanTerms, DistanceError>)
    requires
        x@ matches StorageView::UnsignedByte { quant_vec: xv, .. } ==> xv.len()
            <= 0x1000_0000_0000,
    ensures
        match (x@, y@) {
            (
                StorageView::UnsignedByte { quant_vec: xv, .. },
                StorageView::UnsignedByte { quant_vec: yv, .. },
            ) => r matches Ok(t) && t matches EuclideanTerms::UnsignedSquared(s) && s
                == sq_diff_sum(xv, yv),
            (
                StorageView::HalfPrecisionFP { quant_vec: xv, .. },
                StorageView::HalfPrecisionFP { quant_vec: yv, .. },
            ) => r matches Ok(t) && t matches EuclideanTerms::HalfPairs(a, b) && a@ == xv && b@
                == yv,
            (StorageView::SubByte { .. }, StorageView::SubByte { .. }) => r == Err::<
                EuclideanTerms,
                DistanceError,
            >(DistanceError::CalculationError),
            _ => r == Err::<EuclideanTerms, DistanceError>(DistanceError::StorageMismatch),
        },
{
    match (x, y) {
        (
            Storage::UnsignedByte { quant_vec: vec_x, .. },
            Storage::UnsignedByte { quant_vec: vec_y, .. },
        ) => Ok(
            EuclideanTerms::UnsignedSquared(
                euclidean_distance_u8_squared(vec_x.as_slice(), vec_y.as_slice()),
            ),
        ),
        (
            Storage::HalfPrecisionFP { quant_vec: vec_x, .. },
            Storage::HalfPrecisionFP { quant_vec: vec_y, .. },
        ) => Ok(
            EuclideanTerms::HalfPairs(
                copy_u16s(vec_x.as_slice()),
                copy_u16s(vec_y.as_slice()),
            ),
        ),
        (Storage::SubByte { .. }, Storage::SubByte { .. }) => Err(
            DistanceError::CalculationError,
        ),
        _ => Err(DistanceError::StorageMismatch),
    }
}

} // verus!
