//! The collection catalog: dense indexes looked up by name, and the
//! transactional handle through which callers group inserts. Names are
//! carried as UTF-8 bytes.

use crate::vector_store::{IndexError, VectorEmbedding, VectorStore};
use vstd::prelude::*;

verus! {

/// Failures of catalog operations.
#[derive(Clone, Copy, Debug, PartialEq, Eq, Structural)]
pub enum CollectionsError {
    /// No collection of that name exists.
    NotFound,
    /// A collection of that name already exists.
    FailedToCreateCollection,
}

/// The set of dense indexes, keyed by collection name.
pub struct CollectionsMap {
    entries: Vec<(Vec<u8>, VectorStore)>,
}

impl CollectionsMap {
    pub closed spec fn wf(self) -> bool {
        (forall|i: int, j: int|
            0 <= i < j < self.entries@.len() ==> (#[trigger] self.entries@[i]).0@ != (
            #[trigger] self.entries@[j]).0@) && (forall|i: int|
            0 <= i < self.entries@.len() ==> (#[trigger] self.entries@[i]).1.wf())
    }

    pub closed spec fn has(self, name: Seq<u8>) -> bool {
        exists|i: int| 0 <= i < self.entries@.len() && (#[trigger] self.entries@[i]).0@ == name
    }

    spec fn at(self, name: Seq<u8>) -> int {
        choose|i: int| 0 <= i < self.entries@.len() && (#[trigger] self.entries@[i]).0@ == name
    }

    /// The index stored under `name`.
    pub closed spec fn index_of(self, name: Seq<u8>) -> VectorStore {
        self.entries@[self.at(name)].1
    }

    proof fn lemma_lookup(self, name: Seq<u8>)
        requires
            self.wf(),
            self.has(name),
        ensures
            0 <= self.at(name) < self.entries@.len(),
            self.entries@[self.at(name)].0@ == name,
            self.index_of(name).wf(),
            forall|i: int|
                0 <= i < self.entries@.len() && (#[trigger] self.entries@[i]).0@ == name ==> i
                    == self.at(name),
    {
        let i = self.at(name);
        assert(0 <= i < self.entries@.len() && self.entries@[i].0@ == name);
    }

    pub fn new() -> (r: Self)
        ensures
            r.wf(),
            forall|n: Seq<u8>| !(#[trigger] r.has(n)),
    {
        CollectionsMap { entries: Vec::new() }
    }

    fn find(&self, name: &Vec<u8>) -> (r: Option<usize>)
        requires
            self.wf(),
        ensures
            match r {
                Some(i) => self.has(name@) && i < self.entries@.len() && self.entries@[i as int].0@
                    == name@ && i as int == self.at(name@),
                None => !self.has(name@),
            },
    {
        let n: usize = self.entries.len();
        for i in 0..n
            invariant
                self.wf(),
                n == self.entries@.len(),
                forall|k: int| 0 <= k < i ==> (#[trigger] self.entries@[k]).0@ != name@,
        {
            if crate::vector_store::bytes_eq(&self.entries[i].0, name) {
                proof {
                    self.lemma_lookup(name@);
                }
                return Some(i);
            }
        }
        None
    }

    /// Creates a dense index under `name`; a name already in use is
    /// refused.
    pub fn create_dense_index(
        &mut self,
        name: Vec<u8>,
        quant_dim: usize,
        levels: i8,
        max_cache_level: i8,
        m_max: usize,
        root_id: Vec<u8>,
    ) -> (r: Result<(), CollectionsError>)
        requires
            old(self).wf(),
            m_max >= 2,
            1 <= quant_dim <= 0x3FFF_FFF0,
            0 <= levels <= 127,
        ensures
            final(self).wf(),
            r is Ok <==> !old(self).has(name@),
            r is Err ==> r == Err::<(), CollectionsError>(
                CollectionsError::FailedToCreateCollection,
            ) && *final(self) == *old(self),
            r is Ok ==> final(self).has(name@),
            r is Ok ==> {
                let st = final(self).index_of(name@);
                &&& st.wf()
                &&& st.fanout() == m_max
                &&& st.dim() == quant_dim
                &&& st.wdim() == (quant_dim + 15) / 16
                &&& st.lmax() == levels
                &&& st.root_id() == root_id@
                &&& forall|l: int|
                    0 <= l <= levels ==> #[trigger] crate::vector_store::present(
                        st.cv(),
                        l,
                        root_id@,
                    ) && crate::vector_store::nbrs_of(st.cv(), l, root_id@).len() == 0
            },
            forall|n: Seq<u8>|
                n != name@ ==> #[trigger] final(self).has(n) == old(self).has(n),
    {
        let found = self.find(&name);
        if found.is_some() {
            return Err(CollectionsError::FailedToCreateCollection);
        }
        let ghost pre = *self;
        let store = VectorStore::new(
            String::new(),
            quant_dim,
            levels,
            max_cache_level,
            m_max,
            root_id,
        );
        self.entries.push((name, store));
        proof {
            let n = pre.entries@.len() as int;
            assert(forall|k: int| 0 <= k < n ==> #[trigger] self.entries@[k] == pre.entries@[k]);
            assert(self.entries@[n].0@ == name@);
            assert(self.has(name@));
            assert forall|nm: Seq<u8>| nm != name@ implies #[trigger] self.has(nm) == pre.has(
                nm,
            ) by {
                if pre.has(nm) {
                    pre.lemma_lookup(nm);
                    assert(self.entries@[pre.at(nm)].0@ == nm);
                }
                if self.has(nm) {
                    self.lemma_lookup(nm);
                    assert(self.at(nm) != n);
                    assert(pre.entries@[self.at(nm)].0@ == nm);
                }
            }
            self.lemma_lookup(name@);
            assert(self.at(name@) == n);
            assert(self.index_of(name@) == store);
        }
        Ok(())
    }

    /// A copy of whether `name` is in the catalog.
    pub fn get_dense_index_by_name(&self, name: &Vec<u8>) -> (r: Result<
        &VectorStore,
        CollectionsError,
    >)
        requires
            self.wf(),
        ensures
            match r {
                Ok(st) => self.has(name@) && *st == self.index_of(name@) && st.wf(),
                Err(e) => !self.has(name@) && e == CollectionsError::NotFound,
            },
    {
        match self.find(name) {
            Some(i) => Ok(&self.entries[i].1),
            None => Err(CollectionsError::NotFound),
        }
    }

    /// Removes the index stored under `name` and hands it back.
    pub fn delete_dense_index_by_name(&mut self, name: &Vec<u8>) -> (r: Result<
        VectorStore,
        CollectionsError,
    >)
        requires
            old(self).wf(),
        ensures
            final(self).wf(),
            match r {
                Ok(st) => old(self).has(name@) && st == old(self).index_of(name@)
                    && !final(self).has(name@),
                Err(e) => !old(self).has(name@) && e == CollectionsError::NotFound && *final(self)
                    == *old(self),
            },
            forall|n: Seq<u8>|
                n != name@ ==> #[trigger] final(self).has(n) == old(self).has(n),
    {
        let found = self.find(name);
        match found {
            Some(i) => {
                let ghost pre = *self;
                let entry = self.entries.remove(i);
                proof {
                    let n = self.entries@.len() as int;
                    assert(forall|k: int|
                        0 <= k < i ==> #[trigger] self.entries@[k] == pre.entries@[k]);
                    assert(forall|k: int|
                        i <= k < n ==> #[trigger] self.entries@[k] == pre.entries@[k + 1]);
                    assert forall|nm: Seq<u8>| #[trigger] self.has(nm) implies pre.has(nm) && nm
                        != name@ || pre.has(nm) by {
                        let w = self.at(nm);
                        self.lemma_lookup(nm);
                        if w < i {
                            assert(pre.entries@[w].0@ == nm);
                        } else {
                            assert(pre.entries@[w + 1].0@ == nm);
                        }
                    }
                    assert forall|nm: Seq<u8>| nm != name@ && pre.has(nm) implies self.has(nm) by {
                        pre.lemma_lookup(nm);
                        let w = pre.at(nm);
                        if w < i {
                            assert(self.entries@[w].0@ == nm);
                        } else {
                            assert(w != i);
                            assert(self.entries@[w - 1].0@ == nm);
                        }
                    }
                    if self.has(name@) {
                        self.lemma_lookup(name@);
                        let w = self.at(name@);
                        if w < i {
                            assert(pre.entries@[w].0@ == name@);
                            assert(false);
                        } else {
                            assert(pre.entries@[w + 1].0@ == name@);
                            assert(false);
                        }
                    }
                }
                Ok(entry.1)
            },
            None => Err(CollectionsError::NotFound),
        }
    }
}

/// A transactional handle: inserts are buffered and applied on commit, so
/// an aborted transaction leaves no trace in the index.
pub struct Transaction {
    pub target: Vec<u8>,
    pub pending: Vec<VectorEmbedding>,
}

impl Transaction {
    /// Opens a transaction against the named collection.
    pub fn begin(target: Vec<u8>) -> (r: Self)
        ensures
            r.target@ == target@,
            r.pending@.len() == 0,
    {
        Transaction { target, pending: Vec::new() }
    }

    /// Buffers one embedding for insertion at commit.
    pub fn create_vector(&mut self, emb: VectorEmbedding)
        ensures
            final(self).target@ == old(self).target@,
            final(self).pending@ == old(self).pending@.push(emb),
    {
        self.pending.push(emb);
    }

    /// Discards the transaction without touching any index.
    pub fn abort(self)
    {
    }
}

impl CollectionsMap {
    /// Applies a transaction's buffered inserts to its collection, in
    /// order, each at the given insertion ceiling. Returns the outcome of
    /// each insert; the collection set itself is unchanged.
    pub fn commit_transaction(&mut self, txn: Transaction, max_insert_level: i8) -> (r: Result<
        Vec<Result<(), IndexError>>,
        CollectionsError,
    >)
        requires
            old(self).wf(),
            0 <= max_insert_level,
            old(self).has(txn.target@) ==> forall|q: int|
                0 <= q < txn.pending@.len() ==> (#[trigger] txn.pending@[q]).hash_vec@
                    != old(self).index_of(txn.target@).root_id(),
            old(self).has(txn.target@) ==> forall|q: int, l: int|
                0 <= q < txn.pending@.len() && #[trigger] crate::vector_store::present(
                    old(self).index_of(txn.target@).cv(),
                    l,
                    txn.pending@[q].hash_vec@,
                ) ==> crate::vector_store::payload_of(
                    old(self).index_of(txn.target@).cv(),
                    l,
                    txn.pending@[q].hash_vec@,
                ) == crate::vector_store::packed_words(txn.pending@[q].raw_vec@),
            forall|a: int, b: int|
                0 <= a < b < txn.pending@.len() && (#[trigger] txn.pending@[a]).hash_vec@ == (
                #[trigger] txn.pending@[b]).hash_vec@ ==> crate::vector_store::packed_words(
                    txn.pending@[a].raw_vec@,
                ) == crate::vector_store::packed_words(txn.pending@[b].raw_vec@),
        ensures
            final(self).wf(),
            r is Ok <==> old(self).has(txn.target@),
            r is Err ==> r == Err::<Vec<Result<(), IndexError>>, CollectionsError>(
                CollectionsError::NotFound,
            ) && *final(self) == *old(self),
            forall|n: Seq<u8>| #[trigger] final(self).has(n) == old(self).has(n),
            forall|n: Seq<u8>|
                n != txn.target@ && old(self).has(n) ==> #[trigger] final(self).index_of(n)
                    == old(self).index_of(n),
            r matches Ok(outcomes) ==> {
                let st0 = old(self).index_of(txn.target@);
                let stf = final(self).index_of(txn.target@);
                &&& outcomes@.len() == txn.pending@.len()
                &&& stf.wf()
                &&& VectorStore::same_config(st0, stf)
                &&& forall|q: int|
                    0 <= q < outcomes@.len() ==> ((#[trigger] outcomes@[q]) is Ok <==> (
                    txn.pending@[q].raw_vec@.len() == st0.dim()
                        && crate::vector_store::words_pop(
                        crate::vector_store::packed_words(txn.pending@[q].raw_vec@),
                    ) >= 1))
                &&& forall|q: int|
                    0 <= q < outcomes@.len() && (#[trigger] outcomes@[q]) is Ok
                        ==> crate::vector_store::present(
                        stf.cv(),
                        0,
                        txn.pending@[q].hash_vec@,
                    )
            },
    {
        let found = self.find(&txn.target);
        let i: usize = match found {
            Some(i) => i,
            None => {
                return Err(CollectionsError::NotFound);
            },
        };
        let ghost pre = *self;
        let mut outcomes: Vec<Result<(), IndexError>> = Vec::new();
        let pn: usize = txn.pending.len();
        for q in 0..pn
            invariant
                pn == txn.pending@.len(),
                i < self.entries@.len(),
                self.entries@.len() == pre.entries@.len(),
                pre.wf(),
                0 <= max_insert_level,
                forall|w: int|
                    0 <= w < txn.pending@.len() ==> (#[trigger] txn.pending@[w]).hash_vec@
                        != pre.index_of(txn.target@).root_id(),
                i as int == pre.at(txn.target@),
                pre.has(txn.target@),
                pre.entries@[i as int].0@ == txn.target@,
                outcomes@.len() == q,
                forall|k: int|
                    0 <= k < self.entries@.len() && k != i ==> #[trigger] self.entries@[k]
                        == pre.entries@[k],
                self.entries@[i as int].0@ == txn.target@,
                self.entries@[i as int].1.wf(),
                VectorStore::same_config(pre.entries@[i as int].1, self.entries@[i as int].1),
                forall|w: int|
                    0 <= w < q ==> ((#[trigger] outcomes@[w]) is Ok <==> (
                    txn.pending@[w].raw_vec@.len() == pre.entries@[i as int].1.dim()
                        && crate::vector_store::words_pop(
                        crate::vector_store::packed_words(txn.pending@[w].raw_vec@),
                    ) >= 1)),
                forall|w: int|
                    0 <= w < q && (#[trigger] outcomes@[w]) is Ok
                        ==> crate::vector_store::present(
                        self.entries@[i as int].1.cv(),
                        0,
                        txn.pending@[w].hash_vec@,
                    ),
                forall|w2: int, l: int|
                    q <= w2 < pn && #[trigger] crate::vector_store::present(
                        self.entries@[i as int].1.cv(),
                        l,
                        txn.pending@[w2].hash_vec@,
                    ) ==> crate::vector_store::payload_of(
                        self.entries@[i as int].1.cv(),
                        l,
                        txn.pending@[w2].hash_vec@,
                    ) == crate::vector_store::packed_words(txn.pending@[w2].raw_vec@),
                forall|a: int, b: int|
                    0 <= a < b < pn && (#[trigger] txn.pending@[a]).hash_vec@ == (
                    #[trigger] txn.pending@[b]).hash_vec@ ==> crate::vector_store::packed_words(
                        txn.pending@[a].raw_vec@,
                    ) == crate::vector_store::packed_words(txn.pending@[b].raw_vec@),
        {
            let emb: &VectorEmbedding = &txn.pending[q];
            proof {
                assert(txn.pending@[q as int].hash_vec@ != pre.index_of(txn.target@).root_id());
                assert(pre.index_of(txn.target@) == pre.entries@[i as int].1);
            }
            let ghost st_prev = self.entries@[i as int].1;
            let entry = &mut self.entries[i];
            let res = entry.1.insert(emb, max_insert_level);
            outcomes.push(res);
            proof {
                let stc = self.entries@[i as int].1;
                let hq = txn.pending@[q as int].hash_vec@;
                stc.lemma_wf_unfold();
                st_prev.lemma_wf_unfold();
                assert forall|w2: int, l: int|
                    q + 1 <= w2 < pn && #[trigger] crate::vector_store::present(
                        stc.cv(),
                        l,
                        txn.pending@[w2].hash_vec@,
                    ) implies crate::vector_store::payload_of(
                    stc.cv(),
                    l,
                    txn.pending@[w2].hash_vec@,
                ) == crate::vector_store::packed_words(txn.pending@[w2].raw_vec@) by {
                    let h2 = txn.pending@[w2].hash_vec@;
                    let kk = (l, h2);
                    if res is Ok {
                        assert(stc.cv().contains_key(kk));
                        if h2 == hq {
                            if 0 <= l && l <= st_prev.lmax() && l <= max_insert_level {
                                assert(crate::vector_store::payload_of(stc.cv(), l, hq)
                                    == crate::vector_store::packed_words(
                                    txn.pending@[q as int].raw_vec@,
                                ));
                            } else {
                                assert(stc.cv()[kk] == st_prev.cv()[kk]);
                                assert(crate::vector_store::present(st_prev.cv(), l, h2));
                            }
                        } else {
                            assert(st_prev.cv().contains_key(kk));
                            assert(crate::vector_store::store_inv(
                                st_prev.cv(),
                                st_prev.fanout(),
                                st_prev.wdim(),
                            ));
                            assert(crate::vector_store::inv_at(
                                st_prev.cv(),
                                kk,
                                st_prev.fanout(),
                                st_prev.wdim(),
                            ));
                            assert(st_prev.cv()[kk] is Some);
                            assert(crate::vector_store::present(st_prev.cv(), l, h2));
                        }
                    } else {
                        assert(*self == *old(self) || stc == st_prev);
                        assert(crate::vector_store::present(st_prev.cv(), l, h2));
                    }
                }
                assert forall|w: int|
                    0 <= w < q + 1 && (#[trigger] outcomes@[w]) is Ok implies crate::vector_store::present(
                    stc.cv(),
                    0,
                    txn.pending@[w].hash_vec@,
                ) by {
                    if w < q {
                        assert(crate::vector_store::present(
                            st_prev.cv(),
                            0,
                            txn.pending@[w].hash_vec@,
                        ));
                    } else {
                        st_prev.lemma_wf_unfold();
                        assert(0 <= st_prev.lmax());
                    }
                }
            }
        }
        proof {
            assert forall|nm: Seq<u8>| #[trigger] self.has(nm) == pre.has(nm) by {
                if pre.has(nm) {
                    pre.lemma_lookup(nm);
                    assert(self.entries@[pre.at(nm)].0@ == nm);
                }
                if self.has(nm) {
                    let w = choose|w: int|
                        0 <= w < self.entries@.len() && (#[trigger] self.entries@[w]).0@ == nm;
                    assert(pre.entries@[w].0@ == nm);
                }
            }
            assert forall|a: int, b: int|
                0 <= a < b < self.entries@.len() implies (#[trigger] self.entries@[a]).0@ != (
            #[trigger] self.entries@[b]).0@ by {
                assert(pre.entries@[a].0@ != pre.entries@[b].0@);
                assert(self.entries@[a].0@ == pre.entries@[a].0@);
                assert(self.entries@[b].0@ == pre.entries@[b].0@);
            }
            self.lemma_lookup(txn.target@);
            assert(self.at(txn.target@) == i);
            assert(self.index_of(txn.target@) == self.entries@[i as int].1);
            assert(pre.index_of(txn.target@) == pre.entries@[i as int].1);
            assert forall|nm: Seq<u8>| nm != txn.target@ && pre.has(nm) implies #[trigger] self.index_of(
                nm,
            ) == pre.index_of(nm) by {
                pre.lemma_lookup(nm);
                self.lemma_lookup(nm);
                assert(self.entries@[pre.at(nm)].0@ == nm);
                assert(pre.at(nm) != i);
            }
        }
        Ok(outcomes)
    }

}

} // verus!
