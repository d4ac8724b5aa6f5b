//! Bit-packed cosine kernels: popcount over 16-bit chunk words and the
//! running sums (dot product and pre-magnitudes) that the coarse cosine
//! similarity is computed from.

use vstd::arithmetic::power2::{lemma2_to64, lemma_pow2_strictly_increases, lemma_pow2_unfold, pow2};
use vstd::prelude::*;

verus! {

/// Running sums of the bit-packed cosine computation. The scalar similarity
/// is `dotprod / sqrt(premag_a * premag_b)`; callers that need the floating
/// point value derive it from these three integers.
#[derive(Clone, Copy, Debug, PartialEq, Eq, Structural)]
pub struct CosResult {
    pub dotprod: i32,
    pub premag_a: i32,
    pub premag_b: i32,
}

/// Number of set bits among the low 16 bits of `v`.
pub open spec fn popcount16(v: u32) -> int {
    ((v >> 0) & 1) + ((v >> 1) & 1) + ((v >> 2) & 1) + ((v >> 3) & 1)
        + ((v >> 4) & 1) + ((v >> 5) & 1) + ((v >> 6) & 1) + ((v >> 7) & 1)
        + ((v >> 8) & 1) + ((v >> 9) & 1) + ((v >> 10) & 1) + ((v >> 11) & 1)
        + ((v >> 12) & 1) + ((v >> 13) & 1) + ((v >> 14) & 1) + ((v >> 15) & 1)
}

pub proof fn lemma_popcount16_bounds(v: u32)
    by (bit_vector)
    ensures
        0 <= popcount16(v) <= 16,
        v < 0x10000 ==> popcount16(v & 0xFFFF) == popcount16(v),
        popcount16(v & 0xFFFF) == popcount16(v),
{
}

proof fn lemma_popcount16_nibble(v: u32)
    by (bit_vector)
    requires
        v < 16,
    ensures
        popcount16(v) == (if v == 0 { 0int } else if v == 1 { 1int } else if v == 2 { 1int }
            else if v == 3 { 2int } else if v == 4 { 1int } else if v == 5 { 2int }
            else if v == 6 { 2int } else if v == 7 { 3int } else if v == 8 { 1int }
            else if v == 9 { 2int } else if v == 10 { 2int } else if v == 11 { 3int }
            else if v == 12 { 2int } else if v == 13 { 3int } else if v == 14 { 3int }
            else { 4int }),
{
}

proof fn lemma_popcount16_split(v: u32)
    by (bit_vector)
    ensures
        popcount16(v & 0xFFFF) == popcount16(15 & (v >> 0)) + popcount16(15 & (v >> 4))
            + popcount16(15 & (v >> 8)) + popcount16(15 & (v >> 12)),
        15 & (v >> 0) < 16,
        15 & (v >> 4) < 16,
        15 & (v >> 8) < 16,
        15 & (v >> 12) < 16,
{
}

/// Four-bit popcount lookup table; values of 16 and above are invalid input.
pub fn x_function(value: u32) -> (r: i32)
    ensures
        value < 16 ==> r == popcount16(value),
        value >= 16 ==> r == -1,
{
    proof {
        if value < 16 {
            lemma_popcount16_nibble(value);
        }
    }
    match value {
        0 => 0,
        1 => 1,
        2 => 1,
        3 => 2,
        4 => 1,
        5 => 2,
        6 => 2,
        7 => 3,
        8 => 1,
        9 => 2,
        10 => 2,
        11 => 3,
        12 => 2,
        13 => 3,
        14 => 3,
        15 => 4,
        _ => -1,
    }
}

/// Popcount of the low 16 bits of `value`, summed nibble by nibble through
/// the lookup table.
pub fn shift_and_accumulate(value: u32) -> (r: i32)
    ensures
        r == popcount16(value),
{
    proof {
        lemma_popcount16_split(value);
        lemma_popcount16_bounds(value);
        lemma_popcount16_nibble(15 & (value >> 0));
        lemma_popcount16_nibble(15 & (value >> 4));
        lemma_popcount16_nibble(15 & (value >> 8));
        lemma_popcount16_nibble(15 & (value >> 12));
    }
    let mut result: i32 = 0;
    result += x_function(15 & (value >> 0));
    result += x_function(15 & (value >> 4));
    result += x_function(15 & (value >> 8));
    result += x_function(15 & (value >> 12));
    result
}

/// The unsigned integer denoted by a big-endian sequence of bit flags, each
/// flag being 0 or 1.
pub open spec fn bits_num(s: Seq<i32>) -> int
    decreases s.len(),
{
    if s.len() == 0 {
        0
    } else {
        2 * bits_num(s.drop_last()) + (if s.last() == 1 { 1int } else { 0int })
    }
}

pub proof fn lemma_bits_num_bound(s: Seq<i32>)
    ensures
        0 <= bits_num(s) < pow2(s.len() as nat),
    decreases s.len(),
{
    if s.len() == 0 {
        lemma2_to64();
    } else {
        lemma_bits_num_bound(s.drop_last());
        lemma_pow2_unfold(s.len() as nat);
    }
}

/// Packs the first `size` bit flags of `bits` into an integer, first flag in
/// the most significant position.
pub fn bits_to_integer(bits: &[i32], size: usize) -> (r: u32)
    requires
        size <= bits@.len(),
        size <= 32,
        forall|i: int| 0 <= i < size ==> bits@[i] == 0 || bits@[i] == 1,
    ensures
        r == bits_num(bits@.take(size as int)),
        size <= 16 ==> r < 0x10000,
{
    let mut result: u32 = 0;
    proof {
        lemma2_to64();
        assert(bits@.take(0int) =~= Seq::<i32>::empty());
    }
    for i in 0..size
        invariant
            size <= bits@.len(),
            size <= 32,
            forall|j: int| 0 <= j < size ==> bits@[j] == 0 || bits@[j] == 1,
            result == bits_num(bits@.take(i as int)),
            result < pow2(i as nat),
    {
        proof {
            lemma_bits_num_bound(bits@.take(i as int));
            if i < 31 {
                lemma_pow2_strictly_increases(i as nat, 31);
            }
            lemma2_to64();
            assert(bits@.take(i + 1).drop_last() =~= bits@.take(i as int));
            assert(bits@.take(i + 1).last() == bits@[i as int]);
        }
        let b: u32 = bits[i] as u32;
        proof {
            let res = result;
            assert(res < 0x8000_0000 && (b == 0 || b == 1) ==> ((res << 1) | b) == 2 * res
                + b) by (bit_vector);
            lemma_pow2_unfold((i + 1) as nat);
        }
        result = (result << 1) | b;
    }
    proof {
        if size <= 16 {
            lemma_bits_num_bound(bits@.take(size as int));
            if size < 16 {
                lemma_pow2_strictly_increases(size as nat, 16);
            }
            lemma2_to64();
        }
    }
    result
}

/// The three popcount sums for one aligned pair of chunk words.
pub open spec fn word_cos(a: u32, b: u32) -> CosResult {
    CosResult {
        dotprod: popcount16(a & b) as i32,
        premag_a: popcount16(a) as i32,
        premag_b: popcount16(b) as i32,
    }
}

pub open spec fn sum_dot(s: Seq<CosResult>) -> int
    decreases s.len(),
{
    if s.len() == 0 {
        0
    } else {
        sum_dot(s.drop_last()) + s.last().dotprod
    }
}

pub open spec fn sum_prea(s: Seq<CosResult>) -> int
    decreases s.len(),
{
    if s.len() == 0 {
        0
    } else {
        sum_prea(s.drop_last()) + s.last().premag_a
    }
}

pub open spec fn sum_preb(s: Seq<CosResult>) -> int
    decreases s.len(),
{
    if s.len() == 0 {
        0
    } else {
        sum_preb(s.drop_last()) + s.last().premag_b
    }
}

/// Every component of every entry lies in `[0, 16]`.
pub open spec fn chunk_results_bounded(s: Seq<CosResult>) -> bool {
    forall|i: int|
        0 <= i < s.len() ==> 0 <= #[trigger] s[i].dotprod <= 16 && 0 <= s[i].premag_a <= 16 && 0
            <= s[i].premag_b <= 16
}

pub proof fn lemma_sum_bounds(s: Seq<CosResult>)
    requires
        chunk_results_bounded(s),
    ensures
        0 <= sum_dot(s) <= 16 * s.len(),
        0 <= sum_prea(s) <= 16 * s.len(),
        0 <= sum_preb(s) <= 16 * s.len(),
    decreases s.len(),
{
    if s.len() > 0 {
        assert(chunk_results_bounded(s.drop_last()));
        lemma_sum_bounds(s.drop_last());
    }
}

/// Packs the first `size` flags of each input into a chunk word and returns
/// the three popcount sums for the pair.
pub fn compute_cosine_similarity(a: &[i32], b: &[i32], size: usize) -> (r: CosResult)
    requires
        size <= a@.len(),
        size <= b@.len(),
        size <= 16,
        forall|i: int| 0 <= i < size ==> a@[i] == 0 || a@[i] == 1,
        forall|i: int| 0 <= i < size ==> b@[i] == 0 || b@[i] == 1,
    ensures
        r == word_cos(bits_num(a@.take(size as int)) as u32, bits_num(b@.take(size as int)) as u32),
{
    let value1: u32 = bits_to_integer(a, size);
    let value2: u32 = bits_to_integer(b, size);

    proof {
        lemma_popcount16_bounds(value1 & value2);
        lemma_popcount16_bounds(value1);
        lemma_popcount16_bounds(value2);
    }
    let dotprod: i32 = shift_and_accumulate(value1 & value2);
    let premag_a: i32 = shift_and_accumulate(value1);
    let premag_b: i32 = shift_and_accumulate(value2);

    CosResult { dotprod, premag_a, premag_b }
}

/// Adds up per-chunk popcount sums component by component.
pub fn sum_components(results: &[CosResult]) -> (r: CosResult)
    requires
        chunk_results_bounded(results@),
        results@.len() <= 0x0400_0000,
    ensures
        r.dotprod == sum_dot(results@),
        r.premag_a == sum_prea(results@),
        r.premag_b == sum_preb(results@),
{
    let mut acc = CosResult { dotprod: 0, premag_a: 0, premag_b: 0 };

    let n: usize = results.len();
    for i in 0..n
        invariant
            n == results@.len(),
            chunk_results_bounded(results@),
            n <= 0x0400_0000,
            acc.dotprod == sum_dot(results@.take(i as int)),
            acc.premag_a == sum_prea(results@.take(i as int)),
            acc.premag_b == sum_preb(results@.take(i as int)),
            0 <= acc.dotprod <= 16 * i,
            0 <= acc.premag_a <= 16 * i,
            0 <= acc.premag_b <= 16 * i,
    {
        proof {
            assert(results@.take(i + 1).drop_last() =~= results@.take(i as int));
        }
        let res = &results[i];
        acc.dotprod += res.dotprod;
        acc.premag_a += res.premag_a;
        acc.premag_b += res.premag_b;
    }
    proof {
        assert(results@.take(n as int) =~= results@);
    }
    acc
}

/// Chunk-word pairs of two packed vectors, truncated to the shorter one.
pub open spec fn zip_cos(xs: Seq<u32>, ys: Seq<u32>) -> Seq<CosResult> {
    Seq::new(if xs.len() <= ys.len() { xs.len() } else { ys.len() }, |i: int| word_cos(xs[i], ys[i]))
}

/// Popcount sums of two packed vectors, accumulated word by word.
pub fn cosine_sim_unsigned(x: &Vec<u32>, y: &Vec<u32>) -> (r: CosResult)
    requires
        x@.len() <= 0x0400_0000,
        y@.len() <= 0x0400_0000,
    ensures
        r.dotprod == sum_dot(zip_cos(x@, y@)),
        r.premag_a == sum_prea(zip_cos(x@, y@)),
        r.premag_b == sum_preb(zip_cos(x@, y@)),
{
    let mut acc = CosResult { dotprod: 0, premag_a: 0, premag_b: 0 };
    let n: usize = if x.len() <= y.len() {
        x.len()
    } else {
        y.len()
    };
    proof {
        assert forall|v: u32| 0 <= #[trigger] popcount16(v) <= 16 by {
            lemma_popcount16_bounds(v);
        }
        assert(chunk_results_bounded(zip_cos(x@, y@)));
    }
    for i in 0..n
        invariant
            n == zip_cos(x@, y@).len(),
            n <= x@.len(),
            n <= y@.len(),
            n <= 0x0400_0000,
            chunk_results_bounded(zip_cos(x@, y@)),
            acc.dotprod == sum_dot(zip_cos(x@, y@).take(i as int)),
            acc.premag_a == sum_prea(zip_cos(x@, y@).take(i as int)),
            acc.premag_b == sum_preb(zip_cos(x@, y@).take(i as int)),
            0 <= acc.dotprod <= 16 * i,
            0 <= acc.premag_a <= 16 * i,
            0 <= acc.premag_b <= 16 * i,
    {
        proof {
            assert(zip_cos(x@, y@).take(i + 1).drop_last() =~= zip_cos(x@, y@).take(i as int));
            assert(zip_cos(x@, y@)[i as int] == word_cos(x@[i as int], y@[i as int]));
        }
        let value1: u32 = x[i];
        let value2: u32 = y[i];
        proof {
            lemma_popcount16_bounds(value1 & value2);
            lemma_popcount16_bounds(value1);
            lemma_popcount16_bounds(value2);
        }
        let dotprod: i32 = shift_and_accumulate(value1 & value2);
        let premag_a: i32 = shift_and_accumulate(value1);
        let premag_b: i32 = shift_and_accumulate(value2);

        acc.dotprod += dotprod;
        acc.premag_a += premag_a;
        acc.premag_b += premag_b;
    }
    proof {
        assert(zip_cos(x@, y@).take(n as int) =~= zip_cos(x@, y@));
    }
    acc
}

/// The popcount sums for one pair of 16-flag chunks.
pub open spec fn chunk_cos(xc: Seq<i32>, yc: Seq<i32>) -> CosResult {
    word_cos(bits_num(xc.take(16)) as u32, bits_num(yc.take(16)) as u32)
}

/// Per-chunk popcount sums of two chunked flag vectors of equal length.
pub open spec fn zip_chunk_cos(x: Seq<Seq<i32>>, y: Seq<Seq<i32>>) -> Seq<CosResult> {
    Seq::new(x.len(), |i: int| chunk_cos(x[i], y[i]))
}

/// The chunk sequence a chunked flag vector denotes.
pub open spec fn chunk_views(s: Seq<Vec<i32>>) -> Seq<Seq<i32>> {
    s.map_values(|v: Vec<i32>| v@)
}

/// Popcount sums of two chunked flag vectors, accumulated chunk by chunk
/// over the first 16 flags of each chunk.
pub fn cosine_coalesce(x: &[Vec<i32>], y: &[Vec<i32>]) -> (r: CosResult)
    requires
        x@.len() == y@.len(),
        x@.len() <= 0x0400_0000,
        forall|i: int| 0 <= i < x@.len() ==> #[trigger] x@[i]@.len() >= 16,
        forall|i: int| 0 <= i < y@.len() ==> #[trigger] y@[i]@.len() >= 16,
        forall|i: int, j: int|
            0 <= i < x@.len() && 0 <= j < 16 ==> (#[trigger] x@[i]@[j] == 0 || x@[i]@[j] == 1),
        forall|i: int, j: int|
            0 <= i < y@.len() && 0 <= j < 16 ==> (#[trigger] y@[i]@[j] == 0 || y@[i]@[j] == 1),
    ensures
        r.dotprod == sum_dot(zip_chunk_cos(chunk_views(x@), chunk_views(y@))),
        r.premag_a == sum_prea(zip_chunk_cos(chunk_views(x@), chunk_views(y@))),
        r.premag_b == sum_preb(zip_chunk_cos(chunk_views(x@), chunk_views(y@))),
{
    let ghost zipped = zip_chunk_cos(chunk_views(x@), chunk_views(y@));
    let mut results: Vec<CosResult> = Vec::new();

    let n: usize = x.len();
    for i in 0..n
        invariant
            n == x@.len(),
            x@.len() == y@.len(),
            n <= 0x0400_0000,
            forall|k: int| 0 <= k < x@.len() ==> #[trigger] x@[k]@.len() >= 16,
            forall|k: int| 0 <= k < y@.len() ==> #[trigger] y@[k]@.len() >= 16,
            forall|k: int, j: int|
                0 <= k < x@.len() && 0 <= j < 16 ==> (#[trigger] x@[k]@[j] == 0 || x@[k]@[j] == 1),
            forall|k: int, j: int|
                0 <= k < y@.len() && 0 <= j < 16 ==> (#[trigger] y@[k]@[j] == 0 || y@[k]@[j] == 1),
            zipped == zip_chunk_cos(chunk_views(x@), chunk_views(y@)),
            results@ == zipped.take(i as int),
    {
        let cs = compute_cosine_similarity(x[i].as_slice(), y[i].as_slice(), 16);
        proof {
            assert(zipped.take(i + 1).drop_last() =~= zipped.take(i as int));
            assert(chunk_views(x@)[i as int] == x@[i as int]@);
            assert(chunk_views(y@)[i as int] == y@[i as int]@);
        }
        results.push(cs);
        proof {
            assert(results@ =~= zipped.take(i + 1));
        }
    }
    proof {
        assert(zipped.take(n as int) =~= zipped);
        assert forall|v: u32| 0 <= #[trigger] popcount16(v) <= 16 by {
            lemma_popcount16_bounds(v);
        }
        assert(chunk_results_bounded(results@));
    }
    sum_components(results.as_slice())
}

/// Whether an IEEE-754 single-precision bit pattern denotes a NaN.
pub open spec fn f32_bits_is_nan(x: u32) -> bool {
    (x >> 23) & 0xFF == 0xFF && (x & 0x7FFFFF) != 0
}

/// Whether an IEEE-754 single-precision bit pattern denotes a value that
/// compares at least zero; negative zero does.
pub open spec fn f32_bits_ge_zero(x: u32) -> bool {
    !f32_bits_is_nan(x) && ((x >> 31) == 0 || x == 0x8000_0000)
}

/// The sign flag a single-precision bit pattern quantizes to.
pub open spec fn float_flag(x: u32) -> i32 {
    if f32_bits_ge_zero(x) {
        1
    } else {
        0
    }
}

/// Sign flag of an IEEE-754 single-precision bit pattern.
fn to_float_flag(x: u32) -> (r: i32)
    ensures
        r == float_flag(x),
{
    if (x >> 23) & 0xFF == 0xFF && (x & 0x7FFFFF) != 0 {
        0
    } else if (x >> 31) == 0 || x == 0x8000_0000 {
        1
    } else {
        0
    }
}

/// The bit at position `j` of a word.
pub open spec fn word_bit(w: u32, j: u32) -> u32 {
    (w >> j) & 1
}

proof fn lemma_set_bit(w: u32, j: u32, k: u32)
    by (bit_vector)
    requires
        j < 32,
        k < 32,
    ensures
        word_bit(w | (1u32 << j), k) == (if k == j {
            1u32
        } else {
            word_bit(w, k)
        }),
        word_bit(0u32, k) == 0,
{
}

/// Packs the sign flags of a vector of single-precision bit patterns into
/// 32-bit words, flag `i` at bit `i % 32` of word `i / 32`.
pub fn floats_to_bits(floats: &[u32]) -> (r: Vec<u32>)
    requires
        floats@.len() + 31 <= usize::MAX,
    ensures
        r@.len() == (floats@.len() + 31) / 32,
        forall|k: int, j: u32|
            0 <= k < r@.len() && j < 32 && 32 * k + j < floats@.len() ==> #[trigger] word_bit(
                r@[k],
                j,
            ) == (if f32_bits_ge_zero(floats@[32 * k + j]) {
                1u32
            } else {
                0u32
            }),
        forall|k: int, j: u32|
            0 <= k < r@.len() && j < 32 && 32 * k + j >= floats@.len() ==> #[trigger] word_bit(
                r@[k],
                j,
            ) == 0,
{
    let n: usize = floats.len();
    let words: usize = (n + 31) / 32;
    let mut result: Vec<u32> = Vec::new();
    for w in 0..words
        invariant
            result@.len() == w,
            forall|k: int| 0 <= k < w ==> result@[k] == 0u32,
    {
        result.push(0u32);
    }
    proof {
        assert forall|k: int, j: u32| 0 <= k < result@.len() && j < 32 implies #[trigger] word_bit(
            result@[k],
            j,
        ) == 0 by {
            lemma_set_bit(0u32, 0u32, j);
        }
    }

    for i in 0..n
        invariant
            n == floats@.len(),
            result@.len() == (n + 31) / 32,
            forall|k: int, j: u32|
                0 <= k < result@.len() && j < 32 && 32 * k + j < i ==> #[trigger] word_bit(
                    result@[k],
                    j,
                ) == (if f32_bits_ge_zero(floats@[32 * k + j]) {
                    1u32
                } else {
                    0u32
                }),
            forall|k: int, j: u32|
                0 <= k < result@.len() && j < 32 && 32 * k + j >= i ==> #[trigger] word_bit(
                    result@[k],
                    j,
                ) == 0,
    {
        let wi: usize = i / 32;
        let j: usize = i % 32;
        proof {
            vstd::arithmetic::div_mod::lemma_fundamental_div_mod(i as int, 32);
            assert(32 * (i as int / 32) + (i as int % 32) == i);
            assert(wi < result@.len());
        }
        if floats[i] >> 23 & 0xFF == 0xFF && (floats[i] & 0x7FFFFF) != 0 {
            // NaN never compares at least zero; its flag stays clear.
        } else if (floats[i] >> 31) == 0 || floats[i] == 0x8000_0000 {
            let ghost prev = result@;
            let word: u32 = result[wi];
            result.set(wi, word | (1u32 << (j as u32)));
            proof {
                assert forall|k: int, jj: u32| 0 <= k < result@.len() && jj < 32 implies
                    #[trigger] word_bit(result@[k], jj) == (if k == wi as int && jj == j as u32 {
                    1u32
                } else {
                    word_bit(prev[k], jj)
                }) by {
                    if k == wi as int {
                        lemma_set_bit(word, j as u32, jj);
                    }
                }
            }
        }
    }
    result
}

/// Splits a vector of single-precision bit patterns into chunks of 16 sign
/// flags; the final chunk keeps whatever remainder is left.
pub fn quantize(fins: &[u32]) -> (r: Vec<Vec<i32>>)
    requires
        fins@.len() + 15 <= usize::MAX,
    ensures
        r@.len() == (fins@.len() + 15) / 16,
        forall|c: int|
            0 <= c < r@.len() ==> #[trigger] r@[c]@.len() == (if 16 * c + 16 <= fins@.len() {
                16int
            } else {
                fins@.len() - 16 * c
            }),
        forall|c: int, j: int|
            0 <= c < r@.len() && 0 <= j < r@[c]@.len() ==> #[trigger] r@[c]@[j] == float_flag(
                fins@[16 * c + j],
            ),
{
    let n: usize = fins.len();
    let mut quantized: Vec<Vec<i32>> = Vec::new();
    let mut chunk: Vec<i32> = Vec::new();

    for i in 0..n
        invariant
            n == fins@.len(),
            chunk@.len() <= 15,
            16 * quantized@.len() + chunk@.len() == i,
            forall|c: int| 0 <= c < quantized@.len() ==> #[trigger] quantized@[c]@.len() == 16,
            forall|c: int, j: int|
                0 <= c < quantized@.len() && 0 <= j < 16 ==> #[trigger] quantized@[c]@[j]
                    == float_flag(fins@[16 * c + j]),
            forall|j: int|
                0 <= j < chunk@.len() ==> #[trigger] chunk@[j] == float_flag(
                    fins@[16 * quantized@.len() + j],
                ),
    {
        chunk.push(to_float_flag(fins[i]));
        if chunk.len() == 16 {
            quantized.push(chunk);
            chunk = Vec::new();
        }
    }

    let ghost full = quantized@.len() as int;
    let ghost rest = chunk@.len() as int;
    if chunk.len() > 0 {
        quantized.push(chunk);
    }
    proof {
        if rest == 0 {
            vstd::arithmetic::div_mod::lemma_fundamental_div_mod_converse(
                n as int + 15,
                16,
                full,
                15,
            );
        } else {
            vstd::arithmetic::div_mod::lemma_fundamental_div_mod_converse(
                n as int + 15,
                16,
                full + 1,
                rest - 1,
            );
        }
    }
    quantized
}

} // verus!
