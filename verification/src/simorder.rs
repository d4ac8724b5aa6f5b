//! Exact ordering of coarse cosine similarities. A `CosResult` triple
//! `(dot, pa, pb)` denotes the scalar `dot / sqrt(pa * pb)`; two such scalars
//! are compared exactly by cross-multiplying and squaring, which avoids
//! floating point entirely.

use crate::cosine::CosResult;
use vstd::arithmetic::mul::{
    lemma_mul_inequality, lemma_mul_inequality_converse, lemma_mul_upper_bound,
};
use vstd::prelude::*;

verus! {

/// A well-formed similarity: nonnegative dot-product sum and positive
/// pre-magnitudes, so the denoted scalar is defined and nonnegative.
pub open spec fn cos_wf(c: CosResult) -> bool {
    c.dotprod >= 0 && c.premag_a >= 1 && c.premag_b >= 1
}

/// The scalar denoted by `a` is no greater than the one denoted by `b`.
pub open spec fn sim_le(a: CosResult, b: CosResult) -> bool {
    (a.dotprod * a.dotprod) * (b.premag_a * b.premag_b) <= (b.dotprod * b.dotprod) * (a.premag_a
        * a.premag_b)
}

/// The scalar denoted by `a` is strictly below the one denoted by `b`.
pub open spec fn sim_lt(a: CosResult, b: CosResult) -> bool {
    (a.dotprod * a.dotprod) * (b.premag_a * b.premag_b) < (b.dotprod * b.dotprod) * (a.premag_a
        * a.premag_b)
}

/// `a` and `b` denote the same scalar similarity.
pub open spec fn sim_eq(a: CosResult, b: CosResult) -> bool {
    sim_le(a, b) && sim_le(b, a)
}

pub proof fn lemma_sim_total(a: CosResult, b: CosResult)
    ensures
        sim_le(a, b) || sim_le(b, a),
        sim_lt(a, b) <==> !sim_le(b, a),
{
}

pub proof fn lemma_sim_le_trans(a: CosResult, b: CosResult, c: CosResult)
    requires
        cos_wf(a),
        cos_wf(b),
        cos_wf(c),
        sim_le(a, b),
        sim_le(b, c),
    ensures
        sim_le(a, c),
{
    let da = (a.dotprod * a.dotprod) as int;
    let db = (b.dotprod * b.dotprod) as int;
    let dc = (c.dotprod * c.dotprod) as int;
    let pa = (a.premag_a * a.premag_b) as int;
    let pb = (b.premag_a * b.premag_b) as int;
    let pc = (c.premag_a * c.premag_b) as int;
    assert(pa >= 1 && pb >= 1 && pc >= 1) by (nonlinear_arith)
        requires
            a.premag_a >= 1 && a.premag_b >= 1 && b.premag_a >= 1 && b.premag_b >= 1 && c.premag_a
                >= 1 && c.premag_b >= 1,
            pa == a.premag_a * a.premag_b,
            pb == b.premag_a * b.premag_b,
            pc == c.premag_a * c.premag_b,
    ;
    lemma_mul_inequality(da * pb, db * pa, pc);
    lemma_mul_inequality(db * pc, dc * pb, pa);
    assert((db * pa) * pc == (db * pc) * pa) by (nonlinear_arith);
    assert((da * pb) * pc == (da * pc) * pb) by (nonlinear_arith);
    assert((dc * pb) * pa == (dc * pa) * pb) by (nonlinear_arith);
    lemma_mul_inequality_converse(da * pc, dc * pa, pb);
}

pub proof fn lemma_sim_lt_le_trans(a: CosResult, b: CosResult, c: CosResult)
    requires
        cos_wf(a),
        cos_wf(b),
        cos_wf(c),
        sim_lt(a, b),
        sim_le(b, c),
    ensures
        sim_lt(a, c),
{
    if sim_le(c, a) {
        lemma_sim_le_trans(b, c, a);
    }
}

pub proof fn lemma_sim_le_lt_trans(a: CosResult, b: CosResult, c: CosResult)
    requires
        cos_wf(a),
        cos_wf(b),
        cos_wf(c),
        sim_le(a, b),
        sim_lt(b, c),
    ensures
        sim_lt(a, c),
{
    if sim_le(c, a) {
        lemma_sim_le_trans(c, a, b);
    }
}

/// Exact comparison of two similarity triples: decides `sim_le`.
pub fn sim_le_exec(a: &CosResult, b: &CosResult) -> (r: bool)
    requires
        cos_wf(*a),
        cos_wf(*b),
    ensures
        r == sim_le(*a, *b),
{
    proof {
        lemma_mul_upper_bound(a.dotprod as int, 0x8000_0000, a.dotprod as int, 0x8000_0000);
        lemma_mul_upper_bound(b.dotprod as int, 0x8000_0000, b.dotprod as int, 0x8000_0000);
        lemma_mul_upper_bound(a.premag_a as int, 0x8000_0000, a.premag_b as int, 0x8000_0000);
        lemma_mul_upper_bound(b.premag_a as int, 0x8000_0000, b.premag_b as int, 0x8000_0000);
        lemma_mul_upper_bound(
            (a.dotprod * a.dotprod) as int,
            0x4000_0000_0000_0000,
            (b.premag_a * b.premag_b) as int,
            0x4000_0000_0000_0000,
        );
        lemma_mul_upper_bound(
            (b.dotprod * b.dotprod) as int,
            0x4000_0000_0000_0000,
            (a.premag_a * a.premag_b) as int,
            0x4000_0000_0000_0000,
        );
    }
    let lhs: u128 = ((a.dotprod as u128) * (a.dotprod as u128)) * ((b.premag_a as u128) * (
    b.premag_b as u128));
    let rhs: u128 = ((b.dotprod as u128) * (b.dotprod as u128)) * ((a.premag_a as u128) * (
    a.premag_b as u128));
    lhs <= rhs
}

/// Exact comparison of two similarity triples: decides `sim_lt`.
pub fn sim_lt_exec(a: &CosResult, b: &CosResult) -> (r: bool)
    requires
        cos_wf(*a),
        cos_wf(*b),
    ensures
        r == sim_lt(*a, *b),
{
    !sim_le_exec(b, a)
}

} // verus!
