//! The concurrent node cache: a dashmap keyed by `(level, id)` holding
//! materialized graph nodes, and the per-traversal visited set. The calls
//! into dashmap stand behind trusted wrappers whose contracts state plain
//! map semantics over an abstract view of the map's contents.

use crate::cosine::CosResult;
use dashmap::DashMap;
use vstd::prelude::*;

verus! {

/// A graph node: the packed payload words of its embedding and its
/// neighbor list of `(id, similarity)` pairs, kept sorted by descending
/// similarity.
#[derive(Clone, Debug)]
pub struct VectorTreeNode {
    pub vector_list: Vec<u32>,
    pub neighbors: Vec<(Vec<u8>, CosResult)>,
}

/// The mathematical shape of a node: payload words and neighbor pairs.
pub type NodeView = (Seq<u32>, Seq<(Seq<u8>, CosResult)>);

impl View for VectorTreeNode {
    type V = NodeView;

    open spec fn view(&self) -> NodeView {
        (self.vector_list@, self.neighbors@.map_values(|p: (Vec<u8>, CosResult)| (p.0@, p.1)))
    }
}

/// The node cache: a concurrent map from `(level, id)` to an optional
/// materialized node.
pub type CacheType = DashMap<(i8, Vec<u8>), Option<VectorTreeNode>>;

/// The set of ids a traversal has already expanded.
pub type SkipMap = DashMap<Vec<u8>, ()>;

/// The contents of a cache with nothing in it.
pub open spec fn empty_cache_view() -> Map<(int, Seq<u8>), Option<NodeView>> {
    Map::empty()
}

pub open spec fn node_opt_view(v: Option<VectorTreeNode>) -> Option<NodeView> {
    match v {
        None => None,
        Some(n) => Some(n@),
    }
}

#[verifier::external_type_specification]
#[verifier::external_body]
#[verifier::reject_recursive_types(K)]
#[verifier::reject_recursive_types(V)]
#[verifier::reject_recursive_types(S)]
pub struct ExDashMap<K, V, S>(DashMap<K, V, S>);

/// What the node cache holds: for each `(level, id)` key present, either a
/// materialized node or a placeholder.
pub uninterp spec fn cache_view(m: CacheType) -> Map<(int, Seq<u8>), Option<NodeView>>;

/// Relies on dashmap's `DashMap::new`: a fresh map is empty.
#[verifier::external_body]
pub fn cache_new() -> (r: CacheType)
    ensures
        cache_view(r) == empty_cache_view(),
{
    DashMap::new()
}

/// Relies on dashmap's `DashMap::get`: returns the value stored at the
/// key, if the key is present; the stored node is handed out as a copy.
#[verifier::external_body]
pub fn cache_get(m: &CacheType, level: i8, id: &Vec<u8>) -> (r: Option<Option<VectorTreeNode>>)
    ensures
        match r {
            Some(v) => cache_view(*m).contains_key((level as int, id@)) && cache_view(*m)[(
                level as int,
                id@,
            )] == node_opt_view(v),
            None => !cache_view(*m).contains_key((level as int, id@)),
        },
{
    match m.get(&(level, id.clone())) {
        Some(entry) => Some(entry.value().clone()),
        None => None,
    }
}

/// Relies on dashmap's `DashMap::insert`: stores the value at the key,
/// replacing whatever was there.
#[verifier::external_body]
pub fn cache_insert(m: &mut CacheType, level: i8, id: Vec<u8>, v: Option<VectorTreeNode>)
    ensures
        cache_view(*final(m)) == cache_view(*old(m)).insert((level as int, id@), node_opt_view(v)),
{
    m.insert((level, id), v);
}

/// What the visited set holds.
pub uninterp spec fn visited_view(m: SkipMap) -> Set<Seq<u8>>;

/// Relies on dashmap's `DashMap::new`: a fresh map is empty.
#[verifier::external_body]
pub fn visited_new() -> (r: SkipMap)
    ensures
        visited_view(r) == Set::<Seq<u8>>::empty(),
{
    DashMap::new()
}

/// Relies on dashmap's `DashMap::contains_key`.
#[verifier::external_body]
pub fn visited_contains(m: &SkipMap, id: &Vec<u8>) -> (r: bool)
    ensures
        r == visited_view(*m).contains(id@),
{
    m.contains_key(id)
}

/// Relies on dashmap's `DashMap::insert`.
#[verifier::external_body]
pub fn visited_insert(m: &mut SkipMap, id: Vec<u8>)
    ensures
        visited_view(*final(m)) == visited_view(*old(m)).insert(id@),
{
    m.insert(id, ());
}

} // verus!
