//! The hierarchical proximity graph: nodes live in the concurrent cache
//! keyed by `(level, id)`, edges record coarse cosine similarities, and
//! insertion walks the graph top-down. Embedding payloads are sign-bit
//! packed into 16-bit chunk words; similarities are the exact integer
//! triples of `CosResult`, ordered by the cross-multiplied comparison of
//! `simorder`.

use crate::cosine::{
    bits_num, bits_to_integer, cosine_sim_unsigned, float_flag, popcount16, quantize, sum_dot,
    sum_prea, sum_preb, word_cos, zip_cos, CosResult,
};
use crate::node_cache::{
    cache_get, cache_insert, cache_new, cache_view, visited_contains, visited_insert, visited_new,
    visited_view, CacheType, NodeView, SkipMap, VectorTreeNode,
};
use crate::simorder::{
    cos_wf, lemma_sim_le_lt_trans, lemma_sim_total, sim_le, sim_le_exec, sim_lt, sim_lt_exec,
};
use vstd::prelude::*;

verus! {

/// The abstract contents of the node cache.
pub type CacheView = Map<(int, Seq<u8>), Option<NodeView>>;

/// A node is present and materialized at `(level, id)`.
pub open spec fn present(c: CacheView, level: int, id: Seq<u8>) -> bool {
    c.contains_key((level, id)) && c[(level, id)] is Some
}

pub open spec fn payload_of(c: CacheView, level: int, id: Seq<u8>) -> Seq<u32> {
    c[(level, id)].unwrap().0
}

pub open spec fn nbrs_of(c: CacheView, level: int, id: Seq<u8>) -> Seq<(Seq<u8>, CosResult)> {
    c[(level, id)].unwrap().1
}

/// A packed payload: one word of at most 16 flag bits per chunk, of the
/// collection's fixed word count, small enough for the popcount sums to
/// stay within `i32`.
pub open spec fn words_wf(w: Seq<u32>, wd: int) -> bool {
    w.len() == wd && wd <= 0x0400_0000 && (forall|i: int| 0 <= i < w.len() ==> w[i] < 0x10000)
}

/// Total popcount of a packed payload.
pub open spec fn words_pop(w: Seq<u32>) -> int {
    sum_prea(zip_cos(w, w))
}

/// The coarse cosine triple of two packed payloads.
pub open spec fn cos_spec(x: Seq<u32>, y: Seq<u32>) -> CosResult {
    CosResult {
        dotprod: sum_dot(zip_cos(x, y)) as i32,
        premag_a: sum_prea(zip_cos(x, y)) as i32,
        premag_b: sum_preb(zip_cos(x, y)) as i32,
    }
}

proof fn lemma_zip_cos_drop_last(x: Seq<u32>, y: Seq<u32>)
    requires
        x.len() == y.len(),
        x.len() > 0,
    ensures
        zip_cos(x, y).drop_last() == zip_cos(x.drop_last(), y.drop_last()),
        zip_cos(x, y).last() == word_cos(x.last(), y.last()),
{
    assert(zip_cos(x, y).drop_last() =~= zip_cos(x.drop_last(), y.drop_last()));
}

proof fn lemma_premags_pointwise(x: Seq<u32>, y: Seq<u32>)
    requires
        x.len() == y.len(),
    ensures
        sum_prea(zip_cos(x, y)) == words_pop(x),
        sum_preb(zip_cos(x, y)) == words_pop(y),
    decreases x.len(),
{
    if x.len() == 0 {
        assert(zip_cos(x, y) =~= Seq::<CosResult>::empty());
        assert(zip_cos(x, x) =~= Seq::<CosResult>::empty());
        assert(zip_cos(y, y) =~= Seq::<CosResult>::empty());
    } else {
        lemma_premags_pointwise(x.drop_last(), y.drop_last());
        lemma_zip_cos_drop_last(x, y);
        lemma_zip_cos_drop_last(x, x);
        lemma_zip_cos_drop_last(y, y);
    }
}

proof fn lemma_sums_bounded(x: Seq<u32>, y: Seq<u32>)
    requires
        x.len() <= 0x0400_0000,
        y.len() <= 0x0400_0000,
    ensures
        0 <= sum_dot(zip_cos(x, y)) <= 16 * 0x0400_0000,
        0 <= sum_prea(zip_cos(x, y)) <= 16 * 0x0400_0000,
        0 <= sum_preb(zip_cos(x, y)) <= 16 * 0x0400_0000,
{
    assert forall|v: u32| 0 <= #[trigger] popcount16(v) <= 16 by {
        crate::cosine::lemma_popcount16_bounds(v);
    }
    assert(crate::cosine::chunk_results_bounded(zip_cos(x, y)));
    crate::cosine::lemma_sum_bounds(zip_cos(x, y));
}

/// The popcount of a packed payload is positive exactly when some word of
/// it is nonzero.
proof fn lemma_words_pop_positive(w: Seq<u32>)
    requires
        forall|i: int| 0 <= i < w.len() ==> w[i] < 0x10000,
    ensures
        words_pop(w) >= 1 <==> (exists|i: int| 0 <= i < w.len() && w[i] != 0),
        words_pop(w) >= 0,
    decreases w.len(),
{
    assert forall|v: u32| 0 <= #[trigger] popcount16(v) <= 16 by {
        crate::cosine::lemma_popcount16_bounds(v);
    }
    if w.len() == 0 {
        assert(zip_cos(w, w) =~= Seq::<CosResult>::empty());
    } else {
        assert(forall|i: int| 0 <= i < w.drop_last().len() ==> w.drop_last()[i] < 0x10000);
        lemma_words_pop_positive(w.drop_last());
        lemma_zip_cos_drop_last(w, w);
        let v = w.last();
        assert(v < 0x10000 ==> (popcount16(v) == 0 <==> v == 0)) by (bit_vector);
        if words_pop(w) >= 1 {
            if v != 0 {
                assert(w[w.len() - 1] != 0);
            } else {
                assert(words_pop(w.drop_last()) >= 1);
                let i = choose|i: int|
                    0 <= i < w.drop_last().len() && w.drop_last()[i] != 0;
                assert(w[i] != 0);
            }
        }
        if exists|i: int| 0 <= i < w.len() && w[i] != 0 {
            let i = choose|i: int| 0 <= i < w.len() && w[i] != 0;
            if i == w.len() - 1 {
                assert(popcount16(v) >= 1);
            } else {
                assert(w.drop_last()[i] != 0);
                assert(words_pop(w.drop_last()) >= 1);
            }
        }
    }
}

/// A computed similarity triple is well formed whenever both payloads have
/// positive popcount, and its pre-magnitudes are exactly those popcounts.
proof fn lemma_cos_spec_wf(x: Seq<u32>, y: Seq<u32>, wd: int)
    requires
        words_wf(x, wd),
        words_wf(y, wd),
        words_pop(x) >= 1,
        words_pop(y) >= 1,
    ensures
        cos_wf(cos_spec(x, y)),
        cos_spec(x, y).premag_a == words_pop(x),
        cos_spec(x, y).premag_b == words_pop(y),
{
    lemma_premags_pointwise(x, y);
    lemma_sums_bounded(x, y);
}

/// A neighbor list is well formed: within the fan-out bound, ids pairwise
/// distinct, similarities non-increasing and well formed.
pub open spec fn nlist_wf(ns: Seq<(Seq<u8>, CosResult)>, m: int) -> bool {
    ns.len() <= m && (forall|i: int, j: int|
        #![trigger ns[i], ns[j]]
        0 <= i < j < ns.len() ==> ns[i].0 != ns[j].0 && sim_le(ns[j].1, ns[i].1)) && (forall|i: int|
        0 <= i < ns.len() ==> cos_wf((#[trigger] ns[i]).1))
}

/// The invariant of one cache entry: levels are nonnegative, presence is
/// downward closed, and a materialized node has a well-formed payload and
/// neighbor list whose edges point to materialized nodes at the same level
/// and record, up to the symmetry of the similarity scalar, the exact
/// coarse cosine of the two endpoint payloads.
pub open spec fn inv_at(c: CacheView, k: (int, Seq<u8>), m: int, wd: int) -> bool {
    0 <= k.0 <= 127 && c[k] is Some && (k.0 > 0 ==> present(c, k.0 - 1, k.1)) && (c[k] matches Some(n) ==> {
        &&& words_wf(n.0, wd)
        &&& words_pop(n.0) >= 1
        &&& nlist_wf(n.1, m)
        &&& forall|i: int|
            0 <= i < n.1.len() ==> present(c, k.0, (#[trigger] n.1[i]).0) && n.1[i].0 != k.1
                && crate::simorder::sim_eq(
                n.1[i].1,
                cos_spec(n.0, payload_of(c, k.0, n.1[i].0)),
            )
    })
}

/// The whole-cache invariant.
pub open spec fn store_inv(c: CacheView, m: int, wd: int) -> bool {
    forall|k: (int, Seq<u8>)| #[trigger] c.contains_key(k) ==> inv_at(c, k, m, wd)
}

proof fn lemma_word_cos_swap(a: u32, b: u32)
    ensures
        word_cos(b, a).dotprod == word_cos(a, b).dotprod,
        word_cos(b, a).premag_a == word_cos(a, b).premag_b,
        word_cos(b, a).premag_b == word_cos(a, b).premag_a,
{
    assert(popcount16(a & b) == popcount16(b & a)) by (bit_vector);
}

proof fn lemma_cos_sums_swap(x: Seq<u32>, y: Seq<u32>)
    requires
        x.len() == y.len(),
    ensures
        sum_dot(zip_cos(y, x)) == sum_dot(zip_cos(x, y)),
        sum_prea(zip_cos(y, x)) == sum_preb(zip_cos(x, y)),
        sum_preb(zip_cos(y, x)) == sum_prea(zip_cos(x, y)),
    decreases x.len(),
{
    if x.len() == 0 {
        assert(zip_cos(x, y) =~= Seq::<CosResult>::empty());
        assert(zip_cos(y, x) =~= Seq::<CosResult>::empty());
    } else {
        lemma_cos_sums_swap(x.drop_last(), y.drop_last());
        lemma_zip_cos_drop_last(x, y);
        lemma_zip_cos_drop_last(y, x);
        lemma_word_cos_swap(x.last(), y.last());
    }
}

/// Law: the coarse cosine is symmetric. Swapping the two payloads keeps
/// the dot-product sum and swaps the two pre-magnitudes, so the denoted
/// scalar similarity is the same in both directions, and a payload's
/// similarity to itself is exactly 1.
pub proof fn lemma_cos_spec_symmetric(x: Seq<u32>, y: Seq<u32>, wd: int)
    requires
        words_wf(x, wd),
        words_wf(y, wd),
        words_pop(x) >= 1,
        words_pop(y) >= 1,
    ensures
        cos_spec(y, x).dotprod == cos_spec(x, y).dotprod,
        cos_spec(y, x).premag_a == cos_spec(x, y).premag_b,
        cos_spec(y, x).premag_b == cos_spec(x, y).premag_a,
        crate::simorder::sim_eq(cos_spec(y, x), cos_spec(x, y)),
        cos_spec(x, x).dotprod == words_pop(x),
        cos_spec(x, x).premag_a == words_pop(x),
        cos_spec(x, x).premag_b == words_pop(x),
{
    lemma_cos_sums_swap(x, y);
    lemma_sums_bounded(x, y);
    lemma_sums_bounded(y, x);
    lemma_cos_spec_wf(x, y, wd);
    lemma_cos_spec_wf(y, x, wd);
    let c1 = cos_spec(x, y);
    let c2 = cos_spec(y, x);
    assert((c2.dotprod * c2.dotprod) * (c1.premag_a * c1.premag_b) == (c1.dotprod * c1.dotprod) * (
    c2.premag_a * c2.premag_b)) by (nonlinear_arith)
        requires
            c2.dotprod == c1.dotprod,
            c2.premag_a == c1.premag_b,
            c2.premag_b == c1.premag_a,
    ;
    lemma_cos_spec_wf(x, x, wd);
    assert forall|i: int| 0 <= i < x.len() implies #[trigger] zip_cos(x, x)[i].dotprod == zip_cos(
        x,
        x,
    )[i].premag_a by {
        assert(zip_cos(x, x)[i] == word_cos(x[i], x[i]));
        let v = x[i];
        assert(popcount16(v & v) == popcount16(v)) by (bit_vector);
    }
    lemma_sum_dot_eq_prea(zip_cos(x, x));
    lemma_premags_pointwise(x, x);
}

proof fn lemma_sum_dot_eq_prea(s: Seq<CosResult>)
    requires
        forall|i: int| 0 <= i < s.len() ==> #[trigger] s[i].dotprod == s[i].premag_a,
    ensures
        sum_dot(s) == sum_prea(s),
    decreases s.len(),
{
    if s.len() > 0 {
        assert(forall|i: int|
            0 <= i < s.drop_last().len() ==> #[trigger] s.drop_last()[i].dotprod
                == s.drop_last()[i].premag_a);
        lemma_sum_dot_eq_prea(s.drop_last());
    }
}

/// Law: every recorded edge `(u, v, s)` at a level points to a node that is
/// present and materialized in the cache at that same level.
pub proof fn lemma_edges_present(c: CacheView, m: int, wd: int, k: (int, Seq<u8>), i: int)
    requires
        store_inv(c, m, wd),
        present(c, k.0, k.1),
        0 <= i < nbrs_of(c, k.0, k.1).len(),
    ensures
        present(c, k.0, nbrs_of(c, k.0, k.1)[i].0),
{
}

/// Law: a materialized neighbor list is within the fan-out bound, has no
/// duplicate ids and is sorted by non-increasing similarity.
pub proof fn lemma_neighbor_list_shape(c: CacheView, m: int, wd: int, level: int, id: Seq<u8>)
    requires
        store_inv(c, m, wd),
        present(c, level, id),
    ensures
        nlist_wf(nbrs_of(c, level, id), m),
{
}

/// Law: a node present at a level is present at every level below it.
pub proof fn lemma_level_monotone(c: CacheView, m: int, wd: int, level: int, id: Seq<u8>, l2: int)
    requires
        store_inv(c, m, wd),
        present(c, level, id),
        0 <= l2 <= level,
    ensures
        present(c, l2, id),
    decreases level - l2,
{
    if l2 < level {
        assert(c.contains_key((level, id)));
        assert(present(c, level - 1, id));
        lemma_level_monotone(c, m, wd, level - 1, id, l2);
    }
}

/// Sign flags of the chunk `c` of a raw bit-pattern vector.
pub open spec fn chunk_flags(raw: Seq<u32>, c: int) -> Seq<i32> {
    Seq::new(
        if 16 * c + 16 <= raw.len() {
            16nat
        } else {
            (raw.len() - 16 * c) as nat
        },
        |j: int| float_flag(raw[16 * c + j]),
    )
}

/// The packed chunk words of a raw bit-pattern vector.
pub open spec fn packed_words(raw: Seq<u32>) -> Seq<u32> {
    Seq::new(((raw.len() + 15) / 16) as nat, |c: int| bits_num(chunk_flags(raw, c)) as u32)
}

/// Packs a vector of single-precision bit patterns into chunk words: one
/// word of up to 16 sign flags per chunk.
pub fn pack_embedding(raw: &Vec<u32>) -> (r: Vec<u32>)
    requires
        raw@.len() + 15 <= usize::MAX,
    ensures
        r@ == packed_words(raw@),
        r@.len() == (raw@.len() + 15) / 16,
        forall|i: int| 0 <= i < r@.len() ==> r@[i] < 0x10000,
{
    let chunks: Vec<Vec<i32>> = quantize(raw.as_slice());
    let mut words: Vec<u32> = Vec::new();
    let n: usize = chunks.len();
    for i in 0..n
        invariant
            n == chunks@.len(),
            n == (raw@.len() + 15) / 16,
            forall|c: int|
                0 <= c < n ==> #[trigger] chunks@[c]@.len() == (if 16 * c + 16 <= raw@.len() {
                    16int
                } else {
                    raw@.len() - 16 * c
                }),
            forall|c: int, j: int|
                0 <= c < n && 0 <= j < chunks@[c]@.len() ==> #[trigger] chunks@[c]@[j]
                    == float_flag(raw@[16 * c + j]),
            words@ == packed_words(raw@).take(i as int),
            forall|k: int| 0 <= k < words@.len() ==> words@[k] < 0x10000,
    {
        let chunk: &Vec<i32> = &chunks[i];
        let size: usize = if chunk.len() < 16 {
            chunk.len()
        } else {
            16
        };
        proof {
            assert(forall|j: int| 0 <= j < chunk@.len() ==> chunk@[j] == float_flag(
                raw@[16 * i + j],
            ));
            assert(forall|j: int|
                0 <= j < chunk@.len() ==> #[trigger] chunk@[j] == 0 || chunk@[j] == 1);
        }
        let w: u32 = bits_to_integer(chunk.as_slice(), size);
        proof {
            assert(chunk@.take(size as int) =~= chunk_flags(raw@, i as int));
            assert(w == packed_words(raw@)[i as int]);
        }
        words.push(w);
        proof {
            assert(words@ =~= packed_words(raw@).take(i + 1));
        }
    }
    proof {
        assert(packed_words(raw@).take(n as int) =~= packed_words(raw@));
    }
    words
}

/// Exact coarse cosine of two packed payloads.
pub fn compute_similarity(x: &Vec<u32>, y: &Vec<u32>) -> (r: CosResult)
    requires
        x@.len() <= 0x0400_0000,
        y@.len() <= 0x0400_0000,
    ensures
        r == cos_spec(x@, y@),
{
    let r = cosine_sim_unsigned(x, y);
    proof {
        lemma_sums_bounded(x@, y@);
    }
    r
}

/// Exact byte-string equality.
pub fn bytes_eq(a: &Vec<u8>, b: &Vec<u8>) -> (r: bool)
    ensures
        r == (a@ == b@),
{
    if a.len() != b.len() {
        proof {
            assert(a@.len() != b@.len());
        }
        return false;
    }
    let n: usize = a.len();
    for i in 0..n
        invariant
            n == a@.len(),
            n == b@.len(),
            forall|k: int| 0 <= k < i ==> a@[k] == b@[k],
    {
        if a[i] != b[i] {
            return false;
        }
    }
    proof {
        assert(a@ =~= b@);
    }
    true
}

fn copy_bytes(a: &Vec<u8>) -> (r: Vec<u8>)
    ensures
        r@ == a@,
{
    let mut out: Vec<u8> = Vec::new();
    let n: usize = a.len();
    for i in 0..n
        invariant
            n == a@.len(),
            out@ == a@.take(i as int),
    {
        out.push(a[i]);
        proof {
            assert(out@ =~= a@.take(i + 1));
        }
    }
    proof {
        assert(a@.take(n as int) =~= a@);
    }
    out
}

/// The view of an exec neighbor list.
pub open spec fn nview(ns: Seq<(Vec<u8>, CosResult)>) -> Seq<(Seq<u8>, CosResult)> {
    ns.map_values(|p: (Vec<u8>, CosResult)| (p.0@, p.1))
}

fn copy_pairs(ns: &Vec<(Vec<u8>, CosResult)>) -> (r: Vec<(Vec<u8>, CosResult)>)
    ensures
        nview(r@) == nview(ns@),
{
    let mut out: Vec<(Vec<u8>, CosResult)> = Vec::new();
    let n: usize = ns.len();
    for i in 0..n
        invariant
            n == ns@.len(),
            out@.len() == i,
            nview(out@) == nview(ns@).take(i as int),
    {
        let entry: &(Vec<u8>, CosResult) = &ns[i];
        let idc: Vec<u8> = copy_bytes(&entry.0);
        proof {
            assert(*entry == ns@[i as int]);
            assert(idc@ == ns@[i as int].0@);
        }
        out.push((idc, entry.1));
        proof {
            assert(out@.len() == i + 1);
            assert(out@[i as int].0@ == ns@[i as int].0@);
            assert(out@[i as int].1 == ns@[i as int].1);
            assert(nview(out@)[i as int] == (ns@[i as int].0@, ns@[i as int].1));
            assert(nview(ns@)[i as int] == (ns@[i as int].0@, ns@[i as int].1));
            assert(nview(out@) =~~= nview(ns@).take(i + 1));
        }
    }
    proof {
        assert(nview(ns@).take(n as int) =~~= nview(ns@));
    }
    out
}

/// Whether some entry of a neighbor list carries the id.
pub open spec fn has_id(ns: Seq<(Seq<u8>, CosResult)>, id: Seq<u8>) -> bool {
    exists|i: int| 0 <= i < ns.len() && (#[trigger] ns[i]).0 == id
}

/// `p` is the position of the first entry ranking strictly below `cs`.
pub open spec fn first_below(ns: Seq<(Seq<u8>, CosResult)>, cs: CosResult, p: int) -> bool {
    0 <= p <= ns.len() && (forall|i: int| 0 <= i < p ==> !sim_lt((#[trigger] ns[i]).1, cs)) && (p
        < ns.len() ==> sim_lt(ns[p].1, cs))
}

/// The list with `(hs, cs)` inserted at position `p` and truncated to `m`.
pub open spec fn merged_list(
    ns: Seq<(Seq<u8>, CosResult)>,
    hs: Seq<u8>,
    cs: CosResult,
    p: int,
    m: int,
) -> Seq<(Seq<u8>, CosResult)> {
    (ns.take(p) + seq![(hs, cs)] + ns.skip(p)).take(
        if ns.len() + 1 <= m {
            ns.len() as int + 1
        } else {
            m
        },
    )
}

/// How a neighbor list `rs` relates to `ns` after the edge `(hs, cs)` is
/// folded in under fan-out `m`: append, sort by descending similarity
/// keeping the earlier entry on ties, drop a duplicate id keeping the
/// higher-ranked entry, truncate to `m`. When `hs` was not listed before,
/// the result is pinned exactly as the sorted insert at the first position
/// ranking strictly below `cs`.
pub open spec fn neighbor_merge_ok(
    ns: Seq<(Seq<u8>, CosResult)>,
    rs: Seq<(Seq<u8>, CosResult)>,
    hs: Seq<u8>,
    cs: CosResult,
    m: int,
) -> bool {
    &&& nlist_wf(rs, m)
    &&& (forall|i: int| 0 <= i < rs.len() ==> (#[trigger] rs[i] == (hs, cs) || ns.contains(rs[i])))
    &&& (!has_id(ns, hs) && ns.len() < m ==> rs.contains((hs, cs)))
    &&& (!has_id(ns, hs) ==> (exists|p: int|
        #[trigger] first_below(ns, cs, p) && rs == merged_list(ns, hs, cs, p, m)))
    &&& (has_id(rs, hs) || has_id(ns, hs) || ns.len() >= m)
    &&& rs.len() >= ns.len()
}

/// Adds the edge `(hs, cs)` to a neighbor list the way an insert updates
/// its neighbors: append, sort by descending similarity keeping the earlier
/// entry on ties, drop a duplicate id keeping the higher-ranked entry, and
/// truncate to the fan-out `m`.
pub fn add_neighbor(
    ns: &Vec<(Vec<u8>, CosResult)>,
    hs: &Vec<u8>,
    cs: CosResult,
    m: usize,
) -> (r: Vec<(Vec<u8>, CosResult)>)
    requires
        nlist_wf(nview(ns@), m as int),
        cos_wf(cs),
        m >= 1,
    ensures
        neighbor_merge_ok(nview(ns@), nview(r@), hs@, cs, m as int),
{
    let ghost nsv = nview(ns@);
    let n: usize = ns.len();

    let mut j_opt: Option<usize> = None;
    for i in 0..n
        invariant
            n == ns@.len(),
            nsv == nview(ns@),
            match j_opt {
                Some(j) => j < n && nsv[j as int].0 == hs@,
                None => forall|k: int| 0 <= k < i ==> (#[trigger] nsv[k]).0 != hs@,
            },
    {
        if j_opt.is_none() && bytes_eq(&ns[i].0, hs) {
            proof {
                assert(nsv[i as int].0 == hs@);
            }
            j_opt = Some(i);
        }
    }

    match j_opt {
        Some(j) => {
            if !sim_lt_exec(&ns[j].1, &cs) {
                // The stored edge already ranks at least as high; keep the
                // list as it is.
                let out = copy_pairs(ns);
                proof {
                    assert(has_id(nsv, hs@));
                    assert(forall|i: int|
                        0 <= i < nview(out@).len() ==> nview(ns@).contains(
                            #[trigger] nview(out@)[i],
                        ));
                }
                return out;
            }
            // The new edge ranks higher: drop the old entry and fall through
            // to a sorted insert on the remainder.
            let out = insert_sorted(ns, hs, cs, m, Some(j));
            proof {
                assert(has_id(nsv, hs@));
            }
            out
        },
        None => {
            proof {
                assert(!has_id(nsv, hs@));
            }
            insert_sorted(ns, hs, cs, m, None)
        },
    }
}

/// Inserts `(hs, cs)` into the sorted list `ns`, skipping the entry at
/// `drop` (an entry carrying `hs` itself that ranks below `cs`), and
/// truncates to `m` entries.
fn insert_sorted(
    ns: &Vec<(Vec<u8>, CosResult)>,
    hs: &Vec<u8>,
    cs: CosResult,
    m: usize,
    drop: Option<usize>,
) -> (r: Vec<(Vec<u8>, CosResult)>)
    requires
        nlist_wf(nview(ns@), m as int),
        cos_wf(cs),
        m >= 1,
        match drop {
            Some(j) => j < ns@.len() && nview(ns@)[j as int].0 == hs@ && sim_lt(
                nview(ns@)[j as int].1,
                cs,
            ),
            None => !has_id(nview(ns@), hs@),
        },
    ensures
        nlist_wf(nview(r@), m as int),
        forall|i: int|
            0 <= i < nview(r@).len() ==> (#[trigger] nview(r@)[i] == (hs@, cs) || nview(
                ns@,
            ).contains(nview(r@)[i])),
        has_id(nview(r@), hs@) || nview(ns@).len() >= m,
        drop is None && nview(ns@).len() < m ==> nview(r@).contains((hs@, cs)),
        drop is None ==> (exists|p: int|
            #[trigger] first_below(nview(ns@), cs, p) && nview(r@) == merged_list(
                nview(ns@),
                hs@,
                cs,
                p,
                m as int,
            )),
        nview(r@).len() >= nview(ns@).len(),
{
    let ghost nsv = nview(ns@);
    let n: usize = ns.len();
    proof {
        assert forall|i: int| 0 <= i < n implies nsv[i] == ((#[trigger] ns@[i]).0@, ns@[i].1)
            && cos_wf(ns@[i].1) by {
            assert(nsv[i] == (ns@[i].0@, ns@[i].1));
            assert(cos_wf(nsv[i].1));
        }
    }

    // Position of the first entry ranking strictly below the new edge.
    let mut p: usize = 0;
    while p < n && !sim_lt_exec(&ns[p].1, &cs)
        invariant
            n == ns@.len(),
            nsv == nview(ns@),
            nlist_wf(nsv, m as int),
            cos_wf(cs),
            p <= n,
            forall|i: int|
                0 <= i < n ==> nsv[i] == ((#[trigger] ns@[i]).0@, ns@[i].1) && cos_wf(ns@[i].1),
            forall|i: int| 0 <= i < p ==> !sim_lt((#[trigger] nsv[i]).1, cs),
        decreases n - p,
    {
        p = p + 1;
    }
    proof {
        assert(p < n ==> sim_lt(nsv[p as int].1, cs));
        // every entry at or after p ranks strictly below cs
        assert forall|k: int| p <= k < n implies sim_lt((#[trigger] nsv[k]).1, cs) by {
            if k > p {
                lemma_sim_le_lt_trans(nsv[k].1, nsv[p as int].1, cs);
            }
        }
    }

    let ghost dropped = match drop {
        Some(j) => j as int,
        None => -1,
    };
    proof {
        if drop is Some {
            // the dropped entry ranks strictly below cs, hence sits at or
            // after position p
            let j = dropped;
            if j < p {
                assert(!sim_lt(nsv[j].1, cs));
                assert(false);
            }
        }
    }

    let mut out: Vec<(Vec<u8>, CosResult)> = Vec::new();
    let ghost base = match drop {
        Some(j) => nsv.take(j as int) + nsv.skip(j as int + 1),
        None => nsv,
    };
    proof {
        // base keeps nsv's order and ids, minus the dropped entry
        assert forall|k: int| 0 <= k < base.len() implies #[trigger] base[k] == nsv[
            if dropped >= 0 && k >= dropped {
                k + 1
            } else {
                k
            }] by {}
    }

    for i in 0..p
        invariant
            n == ns@.len(),
            nsv == nview(ns@),
            p <= n,
            dropped == -1 || p <= dropped < n,
            out@.len() == i,
            nview(out@) == nsv.take(i as int),
            nlist_wf(nsv, m as int),
            cos_wf(cs),
            forall|q: int| 0 <= q < p ==> !sim_lt((#[trigger] nsv[q]).1, cs),
            forall|q: int| p <= q < n ==> sim_lt((#[trigger] nsv[q]).1, cs),
            dropped == (match drop {
                Some(j) => j as int,
                None => -1int,
            }),
            (match drop {
                Some(j) => j < n && nsv[j as int].0 == hs@ && sim_lt(nsv[j as int].1, cs),
                None => !has_id(nsv, hs@),
            }),
    {
        let entry: &(Vec<u8>, CosResult) = &ns[i];
        out.push((copy_bytes(&entry.0), entry.1));
        proof {
            assert(nview(out@) =~~= nsv.take(i + 1));
        }
    }
    if out.len() < m {
        out.push((copy_bytes(hs), cs));
        proof {
            assert(nview(out@) =~~= nsv.take(p as int).push((hs@, cs)));
        }
        let mut k: usize = p;
        while k < n && out.len() < m
            invariant
                n == ns@.len(),
                nsv == nview(ns@),
                p <= k <= n,
                dropped == -1 || p <= dropped < n,
                out@.len() <= m,
                nlist_wf(nsv, m as int),
                cos_wf(cs),
                forall|q: int| 0 <= q < p ==> !sim_lt((#[trigger] nsv[q]).1, cs),
                forall|q: int| p <= q < n ==> sim_lt((#[trigger] nsv[q]).1, cs),
                dropped == (match drop {
                    Some(j) => j as int,
                    None => -1int,
                }),
                (match drop {
                    Some(j) => j < n && nsv[j as int].0 == hs@ && sim_lt(nsv[j as int].1, cs),
                    None => !has_id(nsv, hs@),
                }),
                out@.len() == (if dropped >= 0 && k > dropped {
                    k as int
                } else {
                    k + 1
                }),
            forall|i: int|
                0 <= i < n ==> nsv[i] == ((#[trigger] ns@[i]).0@, ns@[i].1) && cos_wf(ns@[i].1),

                nview(out@) == (if dropped >= 0 && k > dropped {
                    nsv.take(p as int).push((hs@, cs)) + nsv.subrange(p as int, dropped)
                        + nsv.subrange(dropped + 1, k as int)
                } else {
                    nsv.take(p as int).push((hs@, cs)) + nsv.subrange(p as int, k as int)
                }),
            decreases n - k,
        {
            let ghost prev = nview(out@);
            let ghost target: Seq<(Seq<u8>, CosResult)> = if dropped >= 0 && k as int >= dropped {
                nsv.take(p as int).push((hs@, cs)) + nsv.subrange(p as int, dropped)
                    + nsv.subrange(dropped + 1, k + 1)
            } else {
                nsv.take(p as int).push((hs@, cs)) + nsv.subrange(p as int, k + 1)
            };
            let skip_this: bool = match drop {
                Some(j) => k == j,
                None => false,
            };
            if !skip_this {
                let entry: &(Vec<u8>, CosResult) = &ns[k];
                let idc: Vec<u8> = copy_bytes(&entry.0);
                proof {
                    assert(*entry == ns@[k as int]);
                    assert(idc@ == ns@[k as int].0@);
                }
                out.push((idc, entry.1));
                proof {
                    assert(k as int != dropped);
                    assert(nview(out@) =~~= prev.push(nsv[k as int]));
                    assert(nview(out@) =~~= target);
                }
            } else {
                proof {
                    assert(dropped >= 0 && k as int == dropped);
                    assert(nview(out@) == prev);
                    assert(nview(out@) =~~= target);
                }
            }
            k = k + 1;
        }
        proof {
            assert(k == n || out@.len() == m);
        }
    }
    proof {
        let v = nview(out@);
        let newe = (hs@, cs);
        // region map: each slot of the result is the new edge or an entry of
        // the input list, with its order preserved
        if p == m {
            assert(p == n);
            assert(v =~= nsv);
            assert(nlist_wf(v, m as int));
            assert(forall|i: int| 0 <= i < v.len() ==> nsv.contains(#[trigger] v[i]));
        } else {
            assert(v[p as int] == newe);
            assert(forall|i: int| 0 <= i < p ==> v[i] == nsv[i]);
            assert forall|i: int| p < i < v.len() implies #[trigger] v[i] == nsv[
                if dropped >= 0 && i - 1 >= dropped {
                    i
                } else {
                    i - 1
                }] && p <= (if dropped >= 0 && i - 1 >= dropped {
                i
            } else {
                i - 1
            }) < n by {}
            // well-formedness of the result
            assert forall|i: int, j: int|
                #![trigger v[i], v[j]]
                0 <= i < j < v.len() implies v[i].0 != v[j].0 && sim_le(v[j].1, v[i].1) by {
                let oi: int = if i < p {
                    i
                } else if dropped >= 0 && i - 1 >= dropped {
                    i
                } else {
                    i - 1
                };
                let oj: int = if j < p {
                    j
                } else if dropped >= 0 && j - 1 >= dropped {
                    j
                } else {
                    j - 1
                };
                if i == p as int {
                    // new edge against a later entry
                    assert(v[j] == nsv[oj] && p <= oj < n);
                    assert(sim_lt(nsv[oj].1, cs));
                    if dropped == -1 {
                        assert(!has_id(nsv, hs@));
                        assert(nsv[oj].0 != hs@);
                    } else {
                        if oj != dropped {
                            assert(nsv[dropped].0 != nsv[oj].0);
                        }
                        assert(nsv[oj].0 != hs@);
                    }
                } else if j == p as int {
                    // an earlier entry against the new edge
                    assert(v[i] == nsv[oi] && oi < p);
                    assert(!sim_lt(nsv[oi].1, cs));
                    lemma_sim_total(nsv[oi].1, cs);
                    if dropped == -1 {
                        assert(nsv[oi].0 != hs@);
                    } else {
                        if oi != dropped {
                            assert(nsv[dropped].0 != nsv[oi].0);
                        }
                        assert(nsv[oi].0 != hs@);
                    }
                } else {
                    assert(v[i] == nsv[oi] && v[j] == nsv[oj]);
                    assert(0 <= oi < oj < n);
                }
            }
            assert forall|i: int| 0 <= i < v.len() implies cos_wf((#[trigger] v[i]).1) by {
                if i != p as int {
                    let oi: int = if i < p {
                        i
                    } else if dropped >= 0 && i - 1 >= dropped {
                        i
                    } else {
                        i - 1
                    };
                    assert(v[i] == nsv[oi]);
                }
            }
            assert(nlist_wf(v, m as int));
            assert forall|i: int| 0 <= i < v.len() implies (#[trigger] v[i] == newe || nsv.contains(
                v[i],
            )) by {
                if i != p as int {
                    let oi: int = if i < p {
                        i
                    } else if dropped >= 0 && i - 1 >= dropped {
                        i
                    } else {
                        i - 1
                    };
                    assert(v[i] == nsv[oi]);
                    assert(nsv.contains(v[i]));
                }
            }
            assert(has_id(v, hs@));
            if dropped == -1 {
                let cap: int = if nsv.len() + 1 <= m {
                    nsv.len() as int + 1
                } else {
                    m as int
                };
                assert(v =~= (nsv.take(p as int) + seq![newe] + nsv.skip(p as int)).take(cap));
                assert(0 <= p as int <= nsv.len() && nview(out@) == (nsv.take(p as int) + seq![
                    newe,
                ] + nsv.skip(p as int)).take(cap) && (forall|i: int|
                    0 <= i < p ==> !sim_lt((#[trigger] nsv[i]).1, cs)) && (p < nsv.len()
                    ==> sim_lt(nsv[p as int].1, cs)));
                assert(first_below(nview(ns@), cs, p as int) && nview(out@) == merged_list(
                    nview(ns@),
                    hs@,
                    cs,
                    p as int,
                    m as int,
                ));
            }
        }
        if dropped == -1 && p == m {
            let cap: int = if nsv.len() + 1 <= m {
                nsv.len() as int + 1
            } else {
                m as int
            };
            assert(v =~= (nsv.take(p as int) + seq![newe] + nsv.skip(p as int)).take(cap));
            assert(0 <= p as int <= nsv.len() && nview(out@) == (nsv.take(p as int) + seq![
                newe,
            ] + nsv.skip(p as int)).take(cap) && (forall|i: int|
                0 <= i < p ==> !sim_lt((#[trigger] nsv[i]).1, cs)) && (p < nsv.len() ==> sim_lt(
                nsv[p as int].1,
                cs,
            )));
            assert(first_below(nview(ns@), cs, p as int) && nview(out@) == merged_list(
                nview(ns@),
                hs@,
                cs,
                p as int,
                m as int,
            ));
        }
    }
    out
}

fn copy_words(a: &Vec<u32>) -> (r: Vec<u32>)
    ensures
        r@ == a@,
{
    let mut out: Vec<u32> = Vec::new();
    let n: usize = a.len();
    for i in 0..n
        invariant
            n == a@.len(),
            out@ == a@.take(i as int),
    {
        out.push(a[i]);
        proof {
            assert(out@ =~= a@.take(i + 1));
        }
    }
    proof {
        assert(a@.take(n as int) =~= a@);
    }
    out
}

/// Errors of vector ingestion.
#[derive(Clone, Copy, Debug, PartialEq, Eq, Structural)]
pub enum IndexError {
    /// The embedding's dimension differs from the collection's.
    StorageMismatch,
    /// The embedding packs to a zero vector, whose cosine similarity would
    /// be undefined.
    ZeroMagnitude,
}

/// An embedding submitted by a caller: the raw vector as single-precision
/// bit patterns, and its content-derived hash id.
#[derive(Clone, Debug)]
pub struct VectorEmbedding {
    pub raw_vec: Vec<u32>,
    pub hash_vec: Vec<u8>,
}

/// A dense index over one collection: the node cache, the root entry point
/// and the collection's fixed configuration.
pub struct VectorStore {
    cache: CacheType,
    max_cache_level: i8,
    database_name: String,
    root_vec: (Vec<u8>, Vec<u32>),
    quant_dim: usize,
    word_dim: usize,
    levels: i8,
    m_max: usize,
}

impl VectorStore {
    /// The abstract contents of the cache.
    pub closed spec fn cv(self) -> CacheView {
        cache_view(self.cache)
    }

    /// The per-level fan-out bound `M`.
    pub closed spec fn fanout(self) -> int {
        self.m_max as int
    }

    /// The number of packed words per payload.
    pub closed spec fn wdim(self) -> int {
        self.word_dim as int
    }

    /// The top level of the graph.
    pub closed spec fn lmax(self) -> int {
        self.levels as int
    }

    /// The root sentinel's id.
    pub closed spec fn root_id(self) -> Seq<u8> {
        self.root_vec.0@
    }

    /// The configuration two states share when an operation only touches
    /// the cache.
    pub open spec fn same_config(a: Self, b: Self) -> bool {
        a.fanout() == b.fanout() && a.wdim() == b.wdim() && a.lmax() == b.lmax() && a.root_id()
            == b.root_id() && a.dim() == b.dim()
    }

    /// The collection's raw vector dimension.
    pub closed spec fn dim(self) -> int {
        self.quant_dim as int
    }

    /// The configuration part of well-formedness, independent of the cache.
    pub closed spec fn wf_config(self) -> bool {
        self.m_max >= 2 && 1 <= self.quant_dim <= 0x3FFF_FFF0 && self.word_dim == (self.quant_dim
            + 15) / 16 && 0 <= self.levels <= 127
    }

    /// The index is well formed: sane configuration, the cache invariant,
    /// and the root present and materialized at every level.
    pub closed spec fn wf(self) -> bool {
        &&& self.m_max >= 2
        &&& 1 <= self.quant_dim <= 0x3FFF_FFF0
        &&& self.word_dim == (self.quant_dim + 15) / 16
        &&& 0 <= self.levels <= 127
        &&& store_inv(self.cv(), self.fanout(), self.wdim())
        &&& forall|l: int| 0 <= l <= self.lmax() ==> present(self.cv(), l, self.root_id())
    }

    /// Law bridge: a well-formed index satisfies the cache invariant, so
    /// callers can combine `wf` (which every operation preserves) with
    /// `lemma_edges_present`, `lemma_neighbor_list_shape` and
    /// `lemma_level_monotone`.
    pub proof fn lemma_wf_unfold(self)
        requires
            self.wf(),
        ensures
            self.fanout() >= 2,
            1 <= self.dim() <= 0x3FFF_FFF0,
            self.wdim() == (self.dim() + 15) / 16,
            1 <= self.wdim() <= 0x0400_0000,
            0 <= self.lmax() <= 127,
            store_inv(self.cv(), self.fanout(), self.wdim()),
            forall|l: int| 0 <= l <= self.lmax() ==> present(self.cv(), l, self.root_id()),
    {
    }

    /// Creates a dense index: an empty cache with a quantized sentinel
    /// vector as the root entry point, materialized at every level.
    pub fn new(
        database_name: String,
        quant_dim: usize,
        levels: i8,
        max_cache_level: i8,
        m_max: usize,
        root_id: Vec<u8>,
    ) -> (r: Self)
        requires
            m_max >= 2,
            1 <= quant_dim <= 0x3FFF_FFF0,
            0 <= levels <= 127,
        ensures
            r.wf(),
            r.fanout() == m_max,
            r.dim() == quant_dim,
            r.wdim() == (quant_dim + 15) / 16,
            r.lmax() == levels,
            r.root_id() == root_id@,
            forall|l: int|
                0 <= l <= levels ==> #[trigger] present(r.cv(), l, root_id@) && nbrs_of(
                    r.cv(),
                    l,
                    root_id@,
                ).len() == 0,
            forall|k: (int, Seq<u8>)|
                #[trigger] r.cv().contains_key(k) ==> 0 <= k.0 <= levels && k.1 == root_id@,
    {
        // The sentinel vector has every sign flag set: all chunk words are
        // full 16-bit masks, one per chunk of the collection's dimension.
        let word_dim: usize = (quant_dim + 15) / 16;
        let mut root_words: Vec<u32> = Vec::new();
        for i in 0..word_dim
            invariant
                root_words@.len() == i,
                forall|j: int| 0 <= j < i ==> root_words@[j] == 0xFFFFu32,
        {
            root_words.push(0xFFFF);
        }

        let mut cache = cache_new();
        let ghost wd = word_dim as int;
        proof {
            assert(popcount16(0xFFFFu32) == 16) by (bit_vector);
        }
        let mut l: i16 = 0;
        while l <= levels as i16
            invariant
                0 <= l <= levels as i16 + 1,
                0 <= levels <= 127,
                root_words@.len() == word_dim,
                word_dim == (quant_dim + 15) / 16,
                1 <= quant_dim <= 0x3FFF_FFF0,
                m_max >= 2,
                forall|j: int| 0 <= j < word_dim ==> root_words@[j] == 0xFFFFu32,
                forall|k: (int, Seq<u8>)|
                    #[trigger] cache_view(cache).contains_key(k) <==> (0 <= k.0 < l && k.1
                        == root_id@),
                forall|k: (int, Seq<u8>)|
                    #[trigger] cache_view(cache).contains_key(k) ==> cache_view(cache)[k] == Some(
                        (root_words@, Seq::<(Seq<u8>, CosResult)>::empty()),
                    ),
            decreases levels - l + 1,
        {
            let node = VectorTreeNode { vector_list: copy_words(&root_words), neighbors: Vec::new() };
            proof {
                assert(node@.1 =~= Seq::<(Seq<u8>, CosResult)>::empty());
            }
            cache_insert(&mut cache, l as i8, copy_bytes(&root_id), Some(node));
            l = l + 1;
        }

        let r = VectorStore {
            cache,
            max_cache_level,
            database_name,
            root_vec: (root_id, root_words),
            quant_dim,
            word_dim,
            levels,
            m_max,
        };
        proof {
            let c = r.cv();
            assert(quant_dim + 15 >= 16);
            assert(wd >= 1);
            assert(16 * wd >= 16) by (nonlinear_arith)
                requires
                    wd >= 1,
            ;
            assert forall|k: (int, Seq<u8>)| #[trigger] c.contains_key(k) implies inv_at(
                c,
                k,
                r.fanout(),
                r.wdim(),
            ) by {
                let n = c[k].unwrap();
                assert(n.1.len() == 0);
                assert(words_wf(n.0, wd));
                lemma_words_pop_positive(n.0);
                assert(n.0[0] != 0u32);
                if k.0 > 0 {
                    assert(c.contains_key((k.0 - 1, k.1)));
                }
            }
            assert forall|l2: int| 0 <= l2 <= r.lmax() implies present(c, l2, r.root_id())
                && nbrs_of(c, l2, r.root_id()).len() == 0 by {
                assert(c.contains_key((l2, r.root_id())));
                assert(c[(l2, r.root_id())] == Some(
                    (root_words@, Seq::<(Seq<u8>, CosResult)>::empty()),
                ));
            }
        }
        r
    }

    /// Inserts the new node at `(cur_level, hs)` with `nbs` as its
    /// neighbor list, then adds the reverse edge `(hs, cs)` to each
    /// candidate's neighbor list under the fan-out rule.
    #[verifier::rlimit(100)]
    pub fn insert_node_create_edges(
        &mut self,
        fvec: Vec<u32>,
        hs: Vec<u8>,
        nbs: Vec<(Vec<u8>, CosResult)>,
        cur_level: i8,
    )
        requires
            old(self).wf(),
            0 <= cur_level,
            words_wf(fvec@, old(self).wdim()),
            words_pop(fvec@) >= 1,
            cur_level > 0 ==> present(old(self).cv(), cur_level - 1, hs@),
            nlist_wf(nview(nbs@), old(self).fanout()),
            forall|i: int|
                0 <= i < nbs@.len() ==> present(old(self).cv(), cur_level as int, (#[trigger] nbs@[i]).0@)
                    && nbs@[i].0@ != hs@,
            forall|i: int|
                0 <= i < nbs@.len() ==> (#[trigger] nbs@[i]).1 == cos_spec(
                    fvec@,
                    payload_of(old(self).cv(), cur_level as int, nbs@[i].0@),
                ),
            present(old(self).cv(), cur_level as int, hs@) ==> payload_of(
                old(self).cv(),
                cur_level as int,
                hs@,
            ) == fvec@,
        ensures
            final(self).wf(),
            Self::same_config(*old(self), *final(self)),
            present(final(self).cv(), cur_level as int, hs@),
            payload_of(final(self).cv(), cur_level as int, hs@) == fvec@,
            nbrs_of(final(self).cv(), cur_level as int, hs@) == nview(nbs@),
            forall|k: (int, Seq<u8>)|
                #[trigger] final(self).cv().contains_key(k) <==> (old(self).cv().contains_key(k)
                    || k == (cur_level as int, hs@)),
            forall|k: (int, Seq<u8>)|
                old(self).cv().contains_key(k) && k != (cur_level as int, hs@) && !(k.0
                    == cur_level as int && has_id(nview(nbs@), k.1))
                    ==> #[trigger] final(self).cv()[k] == old(self).cv()[k],
            forall|l: int, id: Seq<u8>|
                present(old(self).cv(), l, id) ==> #[trigger] present(final(self).cv(), l, id),
            forall|i: int|
                0 <= i < nbs@.len() ==> {
                    let key = (cur_level as int, (#[trigger] nbs@[i]).0@);
                    &&& final(self).cv()[key] is Some
                    &&& final(self).cv()[key].unwrap().0 == old(self).cv()[key].unwrap().0
                    &&& neighbor_merge_ok(
                        old(self).cv()[key].unwrap().1,
                        final(self).cv()[key].unwrap().1,
                        hs@,
                        nbs@[i].1,
                        old(self).fanout(),
                    )
                },
    {
        proof {
            self.lemma_wf_unfold();
        }
        let ghost c0 = self.cv();
        let ghost hkey = (cur_level as int, hs@);
        let ghost nbsv = nview(nbs@);
        let m: usize = self.m_max;

        let nv = VectorTreeNode { vector_list: fvec, neighbors: copy_pairs(&nbs) };
        proof {
            assert(nv@.1 == nview(nbs@));
        }
        cache_insert(&mut self.cache, cur_level, copy_bytes(&hs), Some(nv));
        let ghost c1 = self.cv();
        proof {
            assert(c1 == c0.insert(hkey, Some((fvec@, nbsv))));
            assert forall|l: int| 0 <= l <= self.lmax() implies present(
                c0,
                l,
                self.root_id(),
            ) by {
                assert(present(old(self).cv(), l, old(self).root_id()));
            }
            // payloads agree between the two states: only the new node's
            // slot changed, and any displaced node there held the same
            // payload
            assert forall|t: (int, Seq<u8>)|
                c0.contains_key(t) && c0[t] is Some implies #[trigger] c1[t] is Some
                && c1[t].unwrap().0 == c0[t].unwrap().0 by {
                if t == hkey {
                    assert(payload_of(c0, cur_level as int, hs@) == fvec@);
                }
            }
            assert forall|k: (int, Seq<u8>)| #[trigger] c1.contains_key(k) implies inv_at(
                c1,
                k,
                m as int,
                self.wdim(),
            ) by {
                if k == hkey {
                    assert forall|i: int| 0 <= i < nbsv.len() implies present(
                        c1,
                        cur_level as int,
                        (#[trigger] nbsv[i]).0,
                    ) && nbsv[i].0 != hs@ && crate::simorder::sim_eq(
                        nbsv[i].1,
                        cos_spec(fvec@, payload_of(c1, cur_level as int, nbsv[i].0)),
                    ) by {
                        assert(nbsv[i] == (nbs@[i].0@, nbs@[i].1));
                        assert(present(c0, cur_level as int, nbsv[i].0));
                        assert(payload_of(c1, cur_level as int, nbsv[i].0) == payload_of(
                            c0,
                            cur_level as int,
                            nbsv[i].0,
                        ));
                    }
                } else {
                    assert(c0.contains_key(k));
                    assert(inv_at(c0, k, m as int, self.wdim()));
                    assert(c1[k] == c0[k]);
                    if c0[k] is Some {
                        let nd = c0[k].unwrap();
                        assert forall|ii: int| 0 <= ii < nd.1.len() implies payload_of(
                            c1,
                            k.0,
                            (#[trigger] nd.1[ii]).0,
                        ) == payload_of(c0, k.0, nd.1[ii].0) by {
                            assert(present(c0, k.0, nd.1[ii].0));
                        }
                    }
                }
            }
            assert(store_inv(c1, m as int, self.wdim()));
        }

        let n: usize = nbs.len();
        for i in 0..n
            invariant
                n == nbs@.len(),
                nbsv == nview(nbs@),
                self.m_max == m,
                m >= 2,
                Self::same_config(*old(self), *self),
                self.wf_config(),
                words_wf(fvec@, self.wdim()),
                words_pop(fvec@) >= 1,
                0 <= cur_level,
                hkey == (cur_level as int, hs@),
                nlist_wf(nbsv, m as int),
                forall|q: int|
                    0 <= q < n ==> present(c0, cur_level as int, (#[trigger] nbs@[q]).0@)
                        && nbs@[q].0@ != hs@,
                cur_level > 0 ==> present(c0, cur_level - 1, hs@),
                store_inv(c0, m as int, self.wdim()),
                forall|l: int| 0 <= l <= self.lmax() ==> present(c0, l, self.root_id()),
                // key set: c0's keys plus the new node's key
                forall|k: (int, Seq<u8>)|
                    #[trigger] self.cv().contains_key(k) <==> (c0.contains_key(k) || k == hkey),
                // the new node itself
                present(self.cv(), cur_level as int, hs@),
                self.cv()[hkey] == Some((fvec@, nbsv)),
                // untouched keys
                forall|k: (int, Seq<u8>)|
                    c0.contains_key(k) && k != hkey && !(k.0 == cur_level as int && has_id(
                        nbsv.take(i as int),
                        k.1,
                    )) ==> #[trigger] self.cv()[k] == c0[k],
                // processed candidates hold the merged list
                forall|q: int|
                    0 <= q < i ==> {
                        let key = (cur_level as int, (#[trigger] nbs@[q]).0@);
                        &&& self.cv()[key] is Some
                        &&& self.cv()[key].unwrap().0 == c0[key].unwrap().0
                        &&& neighbor_merge_ok(
                            c0[key].unwrap().1,
                            self.cv()[key].unwrap().1,
                            hs@,
                            nbs@[q].1,
                            m as int,
                        )
                    },
                // presence once granted never goes away
                forall|l: int, id: Seq<u8>|
                    present(c0, l, id) ==> #[trigger] present(self.cv(), l, id),
                // payloads never change while the edges are rewired
                forall|t: (int, Seq<u8>)|
                    c0.contains_key(t) && c0[t] is Some ==> (#[trigger] self.cv()[t]) is Some
                        && self.cv()[t].unwrap().0 == c0[t].unwrap().0,
                // the candidates' similarities are exact against the entry
                // state's payloads
                forall|q2: int|
                    0 <= q2 < n ==> (#[trigger] nbs@[q2]).1 == cos_spec(
                        fvec@,
                        payload_of(c0, cur_level as int, nbs@[q2].0@),
                    ),
                // invariant holds throughout
                store_inv(self.cv(), m as int, self.wdim()),
            {
            let ghost cpre = self.cv();
            let nb: &Vec<u8> = &nbs[i].0;
            let cs: CosResult = nbs[i].1;
            proof {
                assert(nbs@[i as int].0@ != hs@);
                assert(present(c0, cur_level as int, nb@));
                assert(present(cpre, cur_level as int, nb@));
                // this candidate's entry is still the one the call started
                // with: its id differs from every earlier candidate's
                assert(nbsv[i as int] == (nbs@[i as int].0@, nbs@[i as int].1));
                assert forall|w: int| 0 <= w < i implies !((#[trigger] nbsv.take(i as int)[w]).0
                    == nb@) by {
                    assert(nbsv.take(i as int)[w] == nbsv[w]);
                }
                assert(!has_id(nbsv.take(i as int), nb@));
                assert(cpre[(cur_level as int, nb@)] == c0[(cur_level as int, nb@)]);
            }
            proof {
                assert(nbsv[i as int] == (nbs@[i as int].0@, nbs@[i as int].1));
                assert(cos_wf(nbsv[i as int].1));
            }
            let existing = cache_get(&self.cache, cur_level, nb);
            match existing {
                Some(Some(node)) => {
                    let updated = add_neighbor(&node.neighbors, &hs, cs, m);
                    proof {
                        let key = (cur_level as int, nb@);
                        assert(node@ == cpre[key].unwrap());
                        assert(nlist_wf(nview(node.neighbors@), m as int));
                        assert(cos_wf(cs));
                    }
                    let newnode = VectorTreeNode {
                        vector_list: node.vector_list,
                        neighbors: updated,
                    };
                    cache_insert(&mut self.cache, cur_level, copy_bytes(nb), Some(newnode));
                    proof {
                        let key = (cur_level as int, nb@);
                        let oldn = cpre[key].unwrap();
                        let newv = self.cv()[key].unwrap();
                        assert(newv.0 == oldn.0);
                        assert(newv.1 == nview(updated@));
                        // the updated list only points to ids that the old
                        // list pointed to, or to the new node
                        assert forall|q: int| 0 <= q < newv.1.len() implies present(
                            self.cv(),
                            cur_level as int,
                            (#[trigger] newv.1[q]).0,
                        ) && newv.1[q].0 != nb@ by {
                            if newv.1[q] == (hs@, cs) {
                                assert(present(self.cv(), cur_level as int, hs@));
                            } else {
                                assert(nview(node.neighbors@).contains(newv.1[q]));
                                let w = choose|w: int|
                                    0 <= w < nview(node.neighbors@).len() && nview(
                                        node.neighbors@,
                                    )[w] == newv.1[q];
                                assert(oldn.1[w] == newv.1[q]);
                                assert(present(cpre, cur_level as int, oldn.1[w].0));
                            }
                        }
                        // payloads agree between the pre- and post-update
                        // states: only the candidate's slot changed, and its
                        // payload was kept
                        assert forall|t: (int, Seq<u8>)|
                            cpre.contains_key(t) && cpre[t] is Some implies (
                        #[trigger] self.cv()[t]) is Some && self.cv()[t].unwrap().0
                            == cpre[t].unwrap().0 by {}
                        // every rewired edge still records the exact cosine
                        // of its endpoints
                        assert forall|q2: int| 0 <= q2 < newv.1.len() implies crate::simorder::sim_eq(
                            (#[trigger] newv.1[q2]).1,
                            cos_spec(newv.0, payload_of(self.cv(), cur_level as int, newv.1[q2].0)),
                        ) by {
                            if newv.1[q2] == (hs@, cs) {
                                assert(payload_of(self.cv(), cur_level as int, hs@) == fvec@);
                                assert(cs == cos_spec(
                                    fvec@,
                                    payload_of(c0, cur_level as int, nb@),
                                ));
                                assert(newv.0 == payload_of(c0, cur_level as int, nb@));
                                assert(words_wf(newv.0, self.wdim()) && words_pop(newv.0) >= 1);
                                lemma_cos_spec_symmetric(newv.0, fvec@, self.wdim());
                            } else {
                                assert(nview(node.neighbors@).contains(newv.1[q2]));
                                let w = choose|w: int|
                                    0 <= w < nview(node.neighbors@).len() && nview(
                                        node.neighbors@,
                                    )[w] == newv.1[q2];
                                assert(oldn.1[w] == newv.1[q2]);
                                assert(crate::simorder::sim_eq(
                                    oldn.1[w].1,
                                    cos_spec(
                                        oldn.0,
                                        payload_of(cpre, cur_level as int, oldn.1[w].0),
                                    ),
                                ));
                                assert(present(cpre, cur_level as int, oldn.1[w].0));
                                assert(payload_of(self.cv(), cur_level as int, oldn.1[w].0)
                                    == payload_of(cpre, cur_level as int, oldn.1[w].0));
                            }
                        }
                        assert forall|k: (int, Seq<u8>)| #[trigger] self.cv().contains_key(
                            k,
                        ) implies inv_at(self.cv(), k, m as int, self.wdim()) by {
                            if k == key {
                            } else {
                                assert(cpre.contains_key(k));
                                assert(inv_at(cpre, k, m as int, self.wdim()));
                                assert(self.cv()[k] == cpre[k]);
                                if cpre[k] is Some {
                                    let nd = cpre[k].unwrap();
                                    assert forall|ii: int| 0 <= ii < nd.1.len() implies payload_of(
                                        self.cv(),
                                        k.0,
                                        (#[trigger] nd.1[ii]).0,
                                    ) == payload_of(cpre, k.0, nd.1[ii].0) by {
                                        assert(present(cpre, k.0, nd.1[ii].0));
                                    }
                                }
                            }
                        }
                        assert(nbsv.take(i + 1) =~= nbsv.take(i as int).push(nbsv[i as int]));
                        assert forall|id: Seq<u8>| #[trigger] has_id(
                            nbsv.take(i as int),
                            id,
                        ) implies has_id(nbsv.take(i + 1), id) by {
                            let w = choose|w: int|
                                0 <= w < nbsv.take(i as int).len() && (#[trigger] nbsv.take(
                                    i as int,
                                )[w]).0 == id;
                            assert(nbsv.take(i + 1)[w].0 == id);
                        }
                        assert(nbsv.take(i + 1)[i as int].0 == nb@);
                        assert(has_id(nbsv.take(i + 1), nb@));
                        // earlier candidates' entries are untouched by this
                        // update, and this one now holds the merged list
                        assert forall|q: int| 0 <= q < i + 1 implies {
                            let qkey = (cur_level as int, (#[trigger] nbs@[q]).0@);
                            &&& self.cv()[qkey] is Some
                            &&& self.cv()[qkey].unwrap().0 == c0[qkey].unwrap().0
                            &&& neighbor_merge_ok(
                                c0[qkey].unwrap().1,
                                self.cv()[qkey].unwrap().1,
                                hs@,
                                nbs@[q].1,
                                m as int,
                            )
                        } by {
                            if q < i {
                                assert(nbsv[q] == (nbs@[q].0@, nbs@[q].1));
                                assert(nbs@[q].0@ != nb@);
                                assert(self.cv()[(cur_level as int, nbs@[q].0@)] == cpre[(
                                    cur_level as int,
                                    nbs@[q].0@,
                                )]);
                            } else {
                                assert(nview(node.neighbors@) == c0[(
                                    cur_level as int,
                                    nb@,
                                )].unwrap().1);
                            }
                        }
                    }
                },
                _ => {
                    proof {
                        assert(false);
                    }
                },
            }
        }
        proof {
            assert(nbsv.take(n as int) =~= nbsv);
            assert forall|l: int| 0 <= l <= self.lmax() implies present(
                self.cv(),
                l,
                self.root_id(),
            ) by {
                assert(present(c0, l, self.root_id()));
            }
        }
    }

    /// Walks outward from `vtm`'s neighbors, expanding each unvisited node
    /// up to four hops deep, and keeps the best two candidates found: ids
    /// distinct, similarities to the probe exact and sorted descending,
    /// the probe's own id excluded. Each id is expanded at most once per
    /// traversal through the shared visited set: no returned id was in the
    /// caller's visited set, every id this call adds to it is materialized
    /// at the level, and the result is nonempty whenever some neighbor of
    /// `vtm` was still unvisited and distinct from the probe.
    pub fn traverse_find_nearest(
        &self,
        vtm: &VectorTreeNode,
        fvec: &Vec<u32>,
        hs: &Vec<u8>,
        hops: i8,
        skipm: &mut SkipMap,
        cur_level: i8,
    ) -> (r: Vec<(Vec<u8>, CosResult)>)
        requires
            self.wf(),
            words_wf(fvec@, self.wdim()),
            words_pop(fvec@) >= 1,
            0 <= hops <= 4,
            0 <= cur_level,
            nlist_wf(vtm@.1, self.fanout()),
            forall|q: int|
                0 <= q < vtm@.1.len() ==> present(self.cv(), cur_level as int, (#[trigger] vtm@.1[q]).0),
        ensures
            nlist_wf(nview(r@), 2),
            forall|q: int|
                0 <= q < nview(r@).len() ==> {
                    let e = #[trigger] nview(r@)[q];
                    &&& e.0 != hs@
                    &&& !visited_view(*old(skipm)).contains(e.0)
                    &&& present(self.cv(), cur_level as int, e.0)
                    &&& e.1 == cos_spec(fvec@, payload_of(self.cv(), cur_level as int, e.0))
                },
            visited_view(*old(skipm)) <= visited_view(*final(skipm)),
            forall|id: Seq<u8>|
                #[trigger] visited_view(*final(skipm)).contains(id) ==> visited_view(
                    *old(skipm),
                ).contains(id) || present(self.cv(), cur_level as int, id),
            (exists|q: int|
                0 <= q < vtm@.1.len() && (#[trigger] vtm@.1[q]).0 != hs@ && !visited_view(
                    *old(skipm),
                ).contains(vtm@.1[q].0)) ==> nview(r@).len() >= 1,
        decreases 4 - hops, 1int,
    {
        proof {
            self.lemma_wf_unfold();
        }
        let mut acc: Vec<(Vec<u8>, CosResult)> = Vec::new();
        proof {
            assert(nview(acc@) =~= Seq::<(Seq<u8>, CosResult)>::empty());
        }
        let n: usize = vtm.neighbors.len();
        for idx in 0..n
            invariant
                self.wf(),
                words_wf(fvec@, self.wdim()),
                words_pop(fvec@) >= 1,
                0 <= hops <= 4,
                0 <= cur_level,
                n == vtm.neighbors@.len(),
                nlist_wf(vtm@.1, self.fanout()),
                forall|q: int|
                    0 <= q < vtm@.1.len() ==> present(
                        self.cv(),
                        cur_level as int,
                        (#[trigger] vtm@.1[q]).0,
                    ),
                nlist_wf(nview(acc@), 2),
                forall|q: int|
                    0 <= q < nview(acc@).len() ==> {
                        let e = #[trigger] nview(acc@)[q];
                        &&& e.0 != hs@
                        &&& !visited_view(*old(skipm)).contains(e.0)
                        &&& present(self.cv(), cur_level as int, e.0)
                        &&& e.1 == cos_spec(fvec@, payload_of(self.cv(), cur_level as int, e.0))
                    },
                visited_view(*old(skipm)) <= visited_view(*skipm),
                forall|id: Seq<u8>|
                    #[trigger] visited_view(*skipm).contains(id) ==> visited_view(
                        *old(skipm),
                    ).contains(id) || present(self.cv(), cur_level as int, id),
                visited_view(*skipm) != visited_view(*old(skipm)) ==> nview(acc@).len() >= 1,
                (exists|q: int|
                    0 <= q < idx && (#[trigger] vtm@.1[q]).0 != hs@ && !visited_view(
                        *old(skipm),
                    ).contains(vtm@.1[q].0)) ==> nview(acc@).len() >= 1,
        {
            let nb: &Vec<u8> = &vtm.neighbors[idx].0;
            proof {
                assert(vtm@.1[idx as int] == (vtm.neighbors@[idx as int].0@,
                    vtm.neighbors@[idx as int].1));
            }
            if !bytes_eq(nb, hs) {
                if !visited_contains(skipm, nb) {
                    proof {
                        assert(!visited_view(*old(skipm)).contains(nb@));
                    }
                    visited_insert(skipm, copy_bytes(nb));
                    match cache_get(&self.cache, cur_level, nb) {
                        Some(Some(vthm)) => {
                            proof {
                                let key = (cur_level as int, nb@);
                                assert(self.cv().contains_key(key));
                                assert(inv_at(self.cv(), key, self.fanout(), self.wdim()));
                                assert(vthm@ == self.cv()[key].unwrap());
                                lemma_cos_spec_wf(fvec@, vthm@.0, self.wdim());
                            }
                            let cs: CosResult = compute_similarity(fvec, &vthm.vector_list);
                            if hops < 4 {
                                let z = self.traverse_find_nearest(
                                    &vthm,
                                    fvec,
                                    hs,
                                    hops + 1,
                                    skipm,
                                    cur_level,
                                );
                                proof {
                                    // entries of the recursive result were
                                    // outside the visited set handed to the
                                    // recursion, hence outside the caller's
                                    assert forall|q: int| 0 <= q < nview(z@).len() implies !(
                                    #[trigger] visited_view(*old(skipm)).contains(
                                        nview(z@)[q].0,
                                    )) by {}
                                }
                                let zl: usize = z.len();
                                for zi in 0..zl
                                    invariant
                                        self.wf(),
                                        words_wf(fvec@, self.wdim()),
                                        words_pop(fvec@) >= 1,
                                        0 <= cur_level,
                                        zl == z@.len(),
                                        nlist_wf(nview(z@), 2),
                                        forall|q: int|
                                            0 <= q < nview(z@).len() ==> {
                                                let e = #[trigger] nview(z@)[q];
                                                &&& e.0 != hs@
                                                &&& !visited_view(*old(skipm)).contains(e.0)
                                                &&& present(self.cv(), cur_level as int, e.0)
                                                &&& e.1 == cos_spec(
                                                    fvec@,
                                                    payload_of(self.cv(), cur_level as int, e.0),
                                                )
                                            },
                                        nlist_wf(nview(acc@), 2),
                                        forall|q: int|
                                            0 <= q < nview(acc@).len() ==> {
                                                let e = #[trigger] nview(acc@)[q];
                                                &&& e.0 != hs@
                                                &&& !visited_view(*old(skipm)).contains(e.0)
                                                &&& present(self.cv(), cur_level as int, e.0)
                                                &&& e.1 == cos_spec(
                                                    fvec@,
                                                    payload_of(self.cv(), cur_level as int, e.0),
                                                )
                                            },
                                {
                                    proof {
                                        assert(nview(z@)[zi as int] == (z@[zi as int].0@,
                                            z@[zi as int].1));
                                        assert(cos_wf(nview(z@)[zi as int].1));
                                    }
                                    let merged = add_neighbor(&acc, &z[zi].0, z[zi].1, 2);
                                    proof {
                                        let av = nview(acc@);
                                        let mv = nview(merged@);
                                        assert forall|q: int| 0 <= q < mv.len() implies {
                                            let e = #[trigger] mv[q];
                                            &&& e.0 != hs@
                                            &&& !visited_view(*old(skipm)).contains(e.0)
                                            &&& present(self.cv(), cur_level as int, e.0)
                                            &&& e.1 == cos_spec(
                                                fvec@,
                                                payload_of(self.cv(), cur_level as int, e.0),
                                            )
                                        } by {
                                            if mv[q] == (z@[zi as int].0@, z@[zi as int].1) {
                                                assert(nview(z@)[zi as int] == mv[q]);
                                            } else {
                                                assert(av.contains(mv[q]));
                                                let w = choose|w: int|
                                                    0 <= w < av.len() && av[w] == mv[q];
                                                assert(av[w] == mv[q]);
                                            }
                                        }
                                    }
                                    acc = merged;
                                }
                            } else {
                                // at the hop bound only the direct neighbor
                                // itself is a candidate
                            }
                            proof {
                                assert(cos_wf(cs));
                                assert(nb@ != hs@);
                                assert(!visited_view(*old(skipm)).contains(nb@));
                            }
                            let ghost av_pre = nview(acc@);
                            let merged = add_neighbor(&acc, nb, cs, 2);
                            proof {
                                let av = nview(acc@);
                                let mv = nview(merged@);
                                assert forall|q: int| 0 <= q < mv.len() implies {
                                    let e = #[trigger] mv[q];
                                    &&& e.0 != hs@
                                    &&& !visited_view(*old(skipm)).contains(e.0)
                                    &&& present(self.cv(), cur_level as int, e.0)
                                    &&& e.1 == cos_spec(
                                        fvec@,
                                        payload_of(self.cv(), cur_level as int, e.0),
                                    )
                                } by {
                                    if mv[q] == (nb@, cs) {
                                    } else {
                                        assert(av.contains(mv[q]));
                                        let w = choose|w: int| 0 <= w < av.len() && av[w] == mv[q];
                                        assert(av[w] == mv[q]);
                                    }
                                }
                                // every processed neighbor leaves at least
                                // one candidate behind
                                if av.len() == 0 {
                                    assert(!has_id(av, nb@));
                                    assert(mv.contains((nb@, cs)));
                                } else {
                                    assert(mv.len() >= av.len());
                                }
                                assert(mv.len() >= 1);
                            }
                            acc = merged;
                        },
                        _ => {
                            proof {
                                assert(false);
                            }
                        },
                    }
                } else {
                    proof {
                        // this neighbor was expanded already; if not by the
                        // caller, then by this traversal, which only marks
                        // ids after producing a candidate
                        if !visited_view(*old(skipm)).contains(nb@) {
                            assert(visited_view(*skipm).contains(nb@));
                            assert(visited_view(*skipm) != visited_view(*old(skipm)));
                        }
                    }
                }
            }
        }
        acc
    }

    /// Inserts an embedding along the graph walk: looks up the entry node
    /// at the current level, gathers up to two nearest candidates, recurses
    /// one level down seeded with the best candidate, and, at levels up to
    /// the insertion ceiling, materializes the new node and its edges.
    #[verifier::rlimit(100)]
    pub fn insert_embedding(
        &mut self,
        fvec: &Vec<u32>,
        hs: &Vec<u8>,
        cur_entry: Vec<u8>,
        cur_level: i8,
        max_insert_level: i8,
    )
        requires
            old(self).wf(),
            words_wf(fvec@, old(self).wdim()),
            words_pop(fvec@) >= 1,
            -1 <= cur_level,
            0 <= max_insert_level,
            cur_level >= 0 ==> present(old(self).cv(), cur_level as int, cur_entry@),
            cur_entry@ != hs@,
            forall|l: int|
                #[trigger] present(old(self).cv(), l, hs@) ==> payload_of(
                    old(self).cv(),
                    l,
                    hs@,
                ) == fvec@,
        ensures
            final(self).wf(),
            Self::same_config(*old(self), *final(self)),
            forall|l: int, id: Seq<u8>|
                present(old(self).cv(), l, id) ==> #[trigger] present(final(self).cv(), l, id),
            forall|k: (int, Seq<u8>)|
                k.1 == hs@ && old(self).cv().contains_key(k) && !(0 <= k.0 && k.0 <= cur_level
                    && k.0 <= max_insert_level) ==> #[trigger] final(self).cv()[k] == old(
                    self,
                ).cv()[k],
            forall|l: int|
                0 <= l && l <= cur_level && l <= max_insert_level ==> #[trigger] present(
                    final(self).cv(),
                    l,
                    hs@,
                ),
            forall|l: int|
                0 <= l && l <= cur_level && l <= max_insert_level ==> #[trigger] payload_of(
                    final(self).cv(),
                    l,
                    hs@,
                ) == fvec@,
            forall|k: (int, Seq<u8>)|
                #[trigger] final(self).cv().contains_key(k) <==> (old(self).cv().contains_key(k)
                    || (0 <= k.0 && k.0 <= cur_level && k.0 <= max_insert_level && k.1 == hs@)),
            forall|k: (int, Seq<u8>)|
                old(self).cv().contains_key(k) && k.1 != hs@ && old(self).cv()[k] is Some
                    ==> (#[trigger] final(self).cv()[k]) is Some && final(self).cv()[k].unwrap().0
                    == old(self).cv()[k].unwrap().0,
            forall|l: int|
                0 <= l && l <= cur_level && l <= max_insert_level ==> #[trigger] nbrs_of(
                    final(self).cv(),
                    l,
                    hs@,
                ).len() >= 1,
            forall|l: int, q: int|
                0 <= l && l <= cur_level && l <= max_insert_level && 0 <= q < nbrs_of(
                    final(self).cv(),
                    l,
                    hs@,
                ).len() ==> {
                    let e = #[trigger] nbrs_of(final(self).cv(), l, hs@)[q];
                    &&& e.0 != hs@
                    &&& present(final(self).cv(), l, e.0)
                    &&& e.1 == cos_spec(fvec@, payload_of(final(self).cv(), l, e.0))
                },
        decreases cur_level + 1,
    {
        if cur_level == -1 {
            return ;
        }
        proof {
            self.lemma_wf_unfold();
        }
        let got = cache_get(&self.cache, cur_level, &cur_entry);
        match got {
            Some(Some(vthm)) => {
                proof {
                    let key = (cur_level as int, cur_entry@);
                    assert(self.cv().contains_key(key));
                    assert(inv_at(self.cv(), key, self.fanout(), self.wdim()));
                    assert(vthm@ == self.cv()[key].unwrap());
                    lemma_cos_spec_wf(fvec@, vthm@.0, self.wdim());
                }
                let mut skipm = visited_new();
                let z0 = self.traverse_find_nearest(&vthm, fvec, hs, 0, &mut skipm, cur_level);
                let y: CosResult = compute_similarity(fvec, &vthm.vector_list);
                let z: Vec<(Vec<u8>, CosResult)> = if z0.len() == 0 {
                    let mut zz: Vec<(Vec<u8>, CosResult)> = Vec::new();
                    zz.push((copy_bytes(&cur_entry), y));
                    proof {
                        assert(nview(zz@) =~~= seq![(cur_entry@, y)]);
                        assert(nlist_wf(nview(zz@), 2));
                    }
                    zz
                } else {
                    z0
                };
                proof {
                    assert(nview(z@).len() >= 1);
                    assert(nview(z@)[0] == (z@[0].0@, z@[0].1));
                    assert(present(self.cv(), cur_level as int, z@[0].0@));
                    assert(z@[0].0@ != hs@);
                    if cur_level - 1 >= 0 {
                        lemma_level_monotone(
                            self.cv(),
                            self.fanout(),
                            self.wdim(),
                            cur_level as int,
                            z@[0].0@,
                            cur_level as int - 1,
                        );
                    }
                }
                let ghost zv = nview(z@);
                proof {
                    // candidate facts against the entry state: not the new
                    // id, materialized at this level, exact similarity
                    assert(zv.len() >= 1);
                    assert forall|q: int| 0 <= q < zv.len() implies {
                        let e = #[trigger] zv[q];
                        &&& e.0 != hs@
                        &&& present(old(self).cv(), cur_level as int, e.0)
                        &&& e.1 == cos_spec(
                            fvec@,
                            payload_of(old(self).cv(), cur_level as int, e.0),
                        )
                    } by {}
                }
                let next_entry = copy_bytes(&z[0].0);
                let ghost mid = *self;
                self.insert_embedding(fvec, hs, next_entry, cur_level - 1, max_insert_level);
                let ghost mid2 = *self;
                if cur_level <= max_insert_level {
                    proof {
                        // the candidate ids are still present after the
                        // recursive insert, and the list fits the fan-out
                        assert(nlist_wf(nview(z@), 2));
                        assert(self.fanout() >= 2);
                        assert(nlist_wf(nview(z@), self.fanout()));
                        assert forall|q: int| 0 <= q < z@.len() implies present(
                            self.cv(),
                            cur_level as int,
                            (#[trigger] z@[q]).0@,
                        ) && z@[q].0@ != hs@ by {
                            assert(nview(z@)[q] == (z@[q].0@, z@[q].1));
                            assert(present(mid.cv(), cur_level as int, z@[q].0@));
                        }
                        if cur_level > 0 {
                            assert(present(self.cv(), cur_level as int - 1, hs@));
                        }
                        // candidate similarities stay exact: the recursion
                        // does not move any candidate's payload
                        assert forall|q: int| 0 <= q < z@.len() implies (#[trigger] z@[q]).1
                            == cos_spec(
                            fvec@,
                            payload_of(self.cv(), cur_level as int, z@[q].0@),
                        ) by {
                            assert(zv[q] == (z@[q].0@, z@[q].1));
                            assert(zv[q].1 == cos_spec(
                                fvec@,
                                payload_of(old(self).cv(), cur_level as int, zv[q].0),
                            ));
                            assert(present(old(self).cv(), cur_level as int, zv[q].0));
                            assert(zv[q].0 != hs@);
                            let tk = (cur_level as int, zv[q].0);
                            assert(self.cv()[tk] is Some && self.cv()[tk].unwrap().0 == old(
                                self,
                            ).cv()[tk].unwrap().0);
                        }
                        // if the id already sits at this level, its payload
                        // is the probe's: the slot is above the recursion's
                        // range, so it is the one the call started with
                        if present(self.cv(), cur_level as int, hs@) {
                            let kk = (cur_level as int, hs@);
                            assert(mid.cv().contains_key(kk));
                            assert(self.cv()[kk] == mid.cv()[kk]);
                            assert(present(old(self).cv(), cur_level as int, hs@));
                        }
                    }
                    self.insert_node_create_edges(
                        copy_words(fvec),
                        copy_bytes(hs),
                        z,
                        cur_level,
                    );
                }
                proof {
                    assert forall|l: int|
                        0 <= l && l <= cur_level && l <= max_insert_level implies #[trigger] present(
                        self.cv(),
                        l,
                        hs@,
                    ) by {
                        if l < cur_level {
                            assert(present(mid2.cv(), l, hs@));
                        }
                    }
                    assert forall|l: int|
                        0 <= l && l <= cur_level && l <= max_insert_level implies #[trigger] nbrs_of(
                        self.cv(),
                        l,
                        hs@,
                    ).len() >= 1 by {
                        if l < cur_level {
                            assert(nbrs_of(mid2.cv(), l, hs@).len() >= 1);
                            if cur_level <= max_insert_level {
                                assert(self.cv()[(l, hs@)] == mid2.cv()[(l, hs@)]);
                            }
                        } else {
                            assert(nbrs_of(self.cv(), cur_level as int, hs@) == zv);
                        }
                    }
                    assert forall|l: int, q: int|
                        0 <= l && l <= cur_level && l <= max_insert_level && 0 <= q < nbrs_of(
                            self.cv(),
                            l,
                            hs@,
                        ).len() implies {
                        let e = #[trigger] nbrs_of(self.cv(), l, hs@)[q];
                        &&& e.0 != hs@
                        &&& present(self.cv(), l, e.0)
                        &&& e.1 == cos_spec(fvec@, payload_of(self.cv(), l, e.0))
                    } by {
                        if l < cur_level {
                            if cur_level <= max_insert_level {
                                assert(self.cv()[(l, hs@)] == mid2.cv()[(l, hs@)]);
                            }
                            let e = nbrs_of(mid2.cv(), l, hs@)[q];
                            assert(e.0 != hs@ && present(mid2.cv(), l, e.0) && e.1 == cos_spec(
                                fvec@,
                                payload_of(mid2.cv(), l, e.0),
                            ));
                            if cur_level <= max_insert_level {
                                assert(mid2.cv().contains_key((l, e.0)));
                                assert(self.cv()[(l, e.0)] == mid2.cv()[(l, e.0)]);
                            }
                        } else {
                            assert(nbrs_of(self.cv(), cur_level as int, hs@) == zv);
                            let e = zv[q];
                            assert(e.0 != hs@);
                            assert(present(old(self).cv(), cur_level as int, e.0));
                            assert(e.1 == cos_spec(
                                fvec@,
                                payload_of(old(self).cv(), cur_level as int, e.0),
                            ));
                            let k = (cur_level as int, e.0);
                            // payload unchanged by the recursion, then by the
                            // candidate update
                            assert(mid2.cv()[k] is Some && mid2.cv()[k].unwrap().0 == old(
                                self,
                            ).cv()[k].unwrap().0);
                            assert(zv[q] == (z@[q].0@, z@[q].1));
                            assert(self.cv()[k] is Some && self.cv()[k].unwrap().0
                                == mid2.cv()[k].unwrap().0);
                        }
                    }
                    assert forall|l: int|
                        0 <= l && l <= cur_level && l <= max_insert_level implies #[trigger] payload_of(
                        self.cv(),
                        l,
                        hs@,
                    ) == fvec@ by {
                        if l < cur_level {
                            assert(present(mid2.cv(), l, hs@));
                            assert(payload_of(mid2.cv(), l, hs@) == fvec@);
                            if cur_level <= max_insert_level {
                                let kk = (l, hs@);
                                assert(kk != (cur_level as int, hs@));
                                assert(self.cv()[kk] == mid2.cv()[kk]);
                            }
                        } else {
                            assert(l == cur_level);
                            assert(cur_level <= max_insert_level);
                        }
                    }
                }
            },
            _ => {
                proof {
                    assert(false);
                }
            },
        }
    }

    /// Inserts an embedding into the index: its dimension must match the
    /// collection's and its packed form must not be the zero vector. The
    /// node is placed at every level from 0 up to the given insertion
    /// ceiling, clamped to the top level.
    pub fn insert(&mut self, emb: &VectorEmbedding, max_insert_level: i8) -> (r: Result<
        (),
        IndexError,
    >)
        requires
            old(self).wf(),
            0 <= max_insert_level,
            emb.hash_vec@ != old(self).root_id(),
            forall|l: int|
                #[trigger] present(old(self).cv(), l, emb.hash_vec@) ==> payload_of(
                    old(self).cv(),
                    l,
                    emb.hash_vec@,
                ) == packed_words(emb.raw_vec@),
        ensures
            final(self).wf(),
            Self::same_config(*old(self), *final(self)),
            r is Ok <==> (emb.raw_vec@.len() == old(self).dim() && words_pop(
                packed_words(emb.raw_vec@),
            ) >= 1),
            emb.raw_vec@.len() != old(self).dim() ==> r == Err::<(), IndexError>(
                IndexError::StorageMismatch,
            ),
            emb.raw_vec@.len() == old(self).dim() && words_pop(packed_words(emb.raw_vec@)) < 1
                ==> r == Err::<(), IndexError>(IndexError::ZeroMagnitude),
            r is Err ==> *final(self) == *old(self),
            forall|l: int, id: Seq<u8>|
                present(old(self).cv(), l, id) ==> #[trigger] present(final(self).cv(), l, id),
            r is Ok ==> (forall|l: int|
                0 <= l && l <= old(self).lmax() && l <= max_insert_level ==> #[trigger] present(
                    final(self).cv(),
                    l,
                    emb.hash_vec@,
                )),
            r is Ok ==> (forall|l: int|
                0 <= l && l <= old(self).lmax() && l <= max_insert_level ==> #[trigger] payload_of(
                    final(self).cv(),
                    l,
                    emb.hash_vec@,
                ) == packed_words(emb.raw_vec@)),
            r is Ok ==> (forall|k: (int, Seq<u8>)|
                #[trigger] final(self).cv().contains_key(k) <==> (old(self).cv().contains_key(k)
                    || (0 <= k.0 && k.0 <= old(self).lmax() && k.0 <= max_insert_level && k.1
                        == emb.hash_vec@))),
            forall|k: (int, Seq<u8>)|
                old(self).cv().contains_key(k) && k.1 != emb.hash_vec@ && old(self).cv()[k] is Some
                    ==> (#[trigger] final(self).cv()[k]) is Some && final(self).cv()[k].unwrap().0
                    == old(self).cv()[k].unwrap().0,
            forall|k: (int, Seq<u8>)|
                k.1 == emb.hash_vec@ && old(self).cv().contains_key(k) && !(0 <= k.0 && k.0 <= old(
                    self,
                ).lmax() && k.0 <= max_insert_level) ==> #[trigger] final(self).cv()[k] == old(
                    self,
                ).cv()[k],
            r is Ok ==> (forall|l: int|
                0 <= l && l <= old(self).lmax() && l <= max_insert_level ==> #[trigger] nbrs_of(
                    final(self).cv(),
                    l,
                    emb.hash_vec@,
                ).len() >= 1),
            r is Ok ==> (forall|l: int, q: int|
                0 <= l && l <= old(self).lmax() && l <= max_insert_level && 0 <= q < nbrs_of(
                    final(self).cv(),
                    l,
                    emb.hash_vec@,
                ).len() ==> {
                    let e = #[trigger] nbrs_of(final(self).cv(), l, emb.hash_vec@)[q];
                    &&& e.0 != emb.hash_vec@
                    &&& present(final(self).cv(), l, e.0)
                    &&& e.1 == cos_spec(
                        packed_words(emb.raw_vec@),
                        payload_of(final(self).cv(), l, e.0),
                    )
                }),
    {
        proof {
            self.lemma_wf_unfold();
        }
        if emb.raw_vec.len() != self.quant_dim {
            return Err(IndexError::StorageMismatch);
        }
        let packed = pack_embedding(&emb.raw_vec);
        let mut nonzero = false;
        let wn: usize = packed.len();
        for i in 0..wn
            invariant
                wn == packed@.len(),
                nonzero <==> (exists|j: int| 0 <= j < i && packed@[j] != 0),
        {
            if packed[i] != 0 {
                nonzero = true;
            }
        }
        proof {
            lemma_words_pop_positive(packed@);
        }
        if !nonzero {
            return Err(IndexError::ZeroMagnitude);
        }
        let ceiling: i8 = if max_insert_level > self.levels {
            self.levels
        } else {
            max_insert_level
        };
        let root = copy_bytes(&self.root_vec.0);
        let top: i8 = self.levels;
        self.insert_embedding(&packed, &emb.hash_vec, root, top, ceiling);
        Ok(())
    }

    /// Approximate nearest-neighbor search: descends from the root at the
    /// top level, at each level seeding the next from the best candidate,
    /// and returns at most `min(k, 2)` nearest ids with their exact coarse
    /// similarities to the query. The root sentinel is never returned.
    pub fn search(&self, query: &Vec<u32>, k: usize) -> (r: Result<
        Vec<(Vec<u8>, CosResult)>,
        IndexError,
    >)
        requires
            self.wf(),
        ensures
            match r {
                Ok(res) => {
                    &&& query@.len() == self.dim()
                    &&& words_pop(packed_words(query@)) >= 1
                    &&& nlist_wf(nview(res@), 2)
                    &&& res@.len() <= k
                    &&& (k >= 1 && nbrs_of(self.cv(), 0, self.root_id()).len() > 0 ==> nview(
                        res@,
                    ).len() >= 1)
                    &&& forall|q: int|
                        0 <= q < nview(res@).len() ==> {
                            let e = #[trigger] nview(res@)[q];
                            &&& e.0 != self.root_id()
                            &&& present(self.cv(), 0, e.0)
                            &&& e.1 == cos_spec(
                                packed_words(query@),
                                payload_of(self.cv(), 0, e.0),
                            )
                        }
                },
                Err(e) => (query@.len() != self.dim() && e == IndexError::StorageMismatch) || (
                query@.len() == self.dim() && words_pop(packed_words(query@)) < 1 && e
                    == IndexError::ZeroMagnitude),
            },
    {
        proof {
            self.lemma_wf_unfold();
        }
        if query.len() != self.quant_dim {
            return Err(IndexError::StorageMismatch);
        }
        let packed = pack_embedding(query);
        let mut nonzero = false;
        let wn: usize = packed.len();
        for i in 0..wn
            invariant
                wn == packed@.len(),
                nonzero <==> (exists|j: int| 0 <= j < i && packed@[j] != 0),
        {
            if packed[i] != 0 {
                nonzero = true;
            }
        }
        proof {
            lemma_words_pop_positive(packed@);
        }
        if !nonzero {
            return Err(IndexError::ZeroMagnitude);
        }
        let root = copy_bytes(&self.root_vec.0);
        let mut entry = copy_bytes(&self.root_vec.0);
        let mut result: Vec<(Vec<u8>, CosResult)> = Vec::new();
        let mut lvl: i16 = self.levels as i16;
        proof {
            assert(nview(result@) =~= Seq::<(Seq<u8>, CosResult)>::empty());
            assert(entry@ == self.root_id());
            assert(present(self.cv(), self.lmax(), self.root_id()));
        }
        while lvl >= 0
            invariant
                self.wf(),
                -1 <= lvl <= self.lmax(),
                root@ == self.root_id(),
                words_wf(packed@, self.wdim()),
                words_pop(packed@) >= 1,
                lvl >= 0 ==> present(self.cv(), lvl as int, entry@),
                lvl == -1 ==> (nbrs_of(self.cv(), 0, self.root_id()).len() > 0 ==> nview(
                    result@,
                ).len() >= 1),
                lvl < self.lmax() ==> {
                    &&& nlist_wf(nview(result@), 2)
                    &&& forall|q: int|
                        0 <= q < nview(result@).len() ==> {
                            let e = #[trigger] nview(result@)[q];
                            &&& e.0 != self.root_id()
                            &&& present(self.cv(), lvl + 1, e.0)
                            &&& e.1 == cos_spec(packed@, payload_of(self.cv(), lvl + 1, e.0))
                        }
                },
            decreases lvl + 1,
        {
            proof {
                self.lemma_wf_unfold();
            }
            let node = match cache_get(&self.cache, lvl as i8, &entry) {
                Some(Some(n)) => n,
                _ => {
                    proof {
                        assert(false);
                    }
                    return Err(IndexError::StorageMismatch);
                },
            };
            proof {
                let key = (lvl as int, entry@);
                assert(self.cv().contains_key(key));
                assert(inv_at(self.cv(), key, self.fanout(), self.wdim()));
                assert(node@ == self.cv()[key].unwrap());
            }
            let mut skipm = visited_new();
            let ghost empty_visited = visited_view(skipm);
            let z0 = self.traverse_find_nearest(&node, &packed, &root, 0, &mut skipm, lvl as i8);
            let same_as_root: bool = bytes_eq(&entry, &root);
            let z: Vec<(Vec<u8>, CosResult)> = if z0.len() == 0 && !same_as_root {
                // the walk found nothing new: the entry itself is the
                // candidate, unless it is the sentinel
                proof {
                    lemma_cos_spec_wf(packed@, node@.0, self.wdim());
                }
                let y: CosResult = compute_similarity(&packed, &node.vector_list);
                let mut zz: Vec<(Vec<u8>, CosResult)> = Vec::new();
                zz.push((copy_bytes(&entry), y));
                proof {
                    assert(nview(zz@) =~~= seq![(entry@, y)]);
                    assert(nlist_wf(nview(zz@), 2));
                }
                zz
            } else {
                z0
            };
            if z.len() > 0 {
                proof {
                    assert(nview(z@)[0] == (z@[0].0@, z@[0].1));
                    assert(present(self.cv(), lvl as int, z@[0].0@));
                    if lvl - 1 >= 0 {
                        lemma_level_monotone(
                            self.cv(),
                            self.fanout(),
                            self.wdim(),
                            lvl as int,
                            z@[0].0@,
                            lvl as int - 1,
                        );
                    }
                }
                entry = copy_bytes(&z[0].0);
            } else {
                proof {
                    if lvl - 1 >= 0 {
                        lemma_level_monotone(
                            self.cv(),
                            self.fanout(),
                            self.wdim(),
                            lvl as int,
                            entry@,
                            lvl as int - 1,
                        );
                    }
                }
            }
            proof {
                if lvl == 0 && nbrs_of(self.cv(), 0, self.root_id()).len() > 0 {
                    // at the bottom level the result cannot be empty: either
                    // the entry is a real node (the fallback keeps it), or
                    // the entry is the sentinel, whose neighbors were all
                    // unvisited and distinct from it
                    if nview(z@).len() == 0 {
                        assert(nview(z0@).len() == 0);
                        assert(same_as_root);
                        assert(entry@ == self.root_id());
                        assert(node@.1 == nbrs_of(self.cv(), 0, self.root_id()));
                        let e0 = node@.1[0];
                        assert(inv_at(
                            self.cv(),
                            (0int, self.root_id()),
                            self.fanout(),
                            self.wdim(),
                        ));
                        assert(e0.0 != self.root_id());
                        assert(!empty_visited.contains(e0.0));
                        assert(false);
                    }
                }
            }
            result = z;
            lvl = lvl - 1;
        }
        if result.len() > k {
            let ghost full = nview(result@);
            result.truncate(k);
            proof {
                assert(result@.len() == k);
            }
            proof {
                assert(nview(result@) =~~= full.take(k as int));
                assert forall|q: int| 0 <= q < nview(result@).len() implies nview(result@)[q]
                    == full[q] by {}
                assert(nlist_wf(nview(result@), 2));
            }
        }
        Ok(result)
    }

    /// A copy of the node materialized at `(level, id)`, if there is one.
    pub fn get_node(&self, level: i8, id: &Vec<u8>) -> (r: Option<VectorTreeNode>)
        ensures
            match r {
                Some(node) => present(self.cv(), level as int, id@) && node@ == self.cv()[(
                    level as int,
                    id@,
                )].unwrap(),
                None => !present(self.cv(), level as int, id@),
            },
    {
        match cache_get(&self.cache, level, id) {
            Some(Some(node)) => Some(node),
            _ => None,
        }
    }

    /// A copy of the root sentinel's id.
    pub fn root_entry(&self) -> (r: Vec<u8>)
        ensures
            r@ == self.root_id(),
    {
        copy_bytes(&self.root_vec.0)
    }

    /// The top level of the graph.
    pub fn top_level(&self) -> (r: i8)
        ensures
            r == self.lmax(),
    {
        self.levels
    }
}

} // verus!
