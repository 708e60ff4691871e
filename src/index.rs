use crossbeam_skiplist::SkipMap;
use vstd::prelude::*;

use crate::key::{index_key_lt, index_key_view, IndexKey};
use crate::transaction::{EntryView, StatefulTxn};

verus! {

#[verifier::external_type_specification]
#[verifier::external_body]
#[verifier::reject_recursive_types(K)]
#[verifier::reject_recursive_types(V)]
pub struct ExSkipMap<K, V>(SkipMap<K, V>);

/// The ordered index of a skip-list pool: the entries it holds, by key.
pub type OrderedIndex = SkipMap<IndexKey, StatefulTxn>;

/// What an ordered index holds.
pub uninterp spec fn index_entries(m: OrderedIndex) -> Map<(u64, u64, Seq<char>), EntryView>;

/// Relies on `SkipMap::new`: a new map is empty.
#[verifier::external_body]
pub(crate) fn index_new() -> (r: OrderedIndex)
    ensures
        index_entries(r).is_empty(),
{
    SkipMap::new()
}

/// Relies on `SkipMap::len`: the number of entries (exact, as no other
/// thread can reach the map while it is borrowed here).
#[verifier::external_body]
pub(crate) fn index_len(m: &OrderedIndex) -> (r: usize)
    ensures
        r == index_entries(*m).len(),
{
    m.len()
}

/// Relies on `SkipMap::insert`: the entry under `k` is `v` afterwards, any
/// earlier entry under an equal key being replaced.
#[verifier::external_body]
pub(crate) fn index_insert(m: &mut OrderedIndex, k: IndexKey, v: StatefulTxn)
    ensures
        index_entries(*final(m)) == index_entries(*old(m)).insert(index_key_view(k), v@),
        index_entries(*old(m)).dom().finite() ==> index_entries(*final(m)).dom().finite(),
{
    m.insert(k, v);
}

/// Relies on `SkipMap::pop_back`: removes and hands out the entry with the
/// greatest key (tuples compare field by field, strings by their bytes).
#[verifier::external_body]
pub(crate) fn index_pop_back(m: &mut OrderedIndex) -> (r: Option<(IndexKey, StatefulTxn)>)
    ensures
        match r {
            None => index_entries(*old(m)).is_empty()
                && *final(m) == *old(m),
            Some((k, v)) => {
                &&& index_entries(*old(m)).contains_key(index_key_view(k))
                &&& index_entries(*old(m))[index_key_view(k)] == v@
                &&& index_entries(*final(m)) == index_entries(*old(m)).remove(index_key_view(k))
                &&& forall|j: (u64, u64, Seq<char>)| #[trigger]
                    index_entries(*old(m)).contains_key(j) && j != index_key_view(k)
                        ==> index_key_lt(j, index_key_view(k))
            },
        },
{
    m.pop_back().map(|e| (e.key().clone(), e.value().clone()))
}

/// Relies on `SkipMap::pop_front`: removes and hands out the entry with the
/// least key.
#[verifier::external_body]
pub(crate) fn index_pop_front(m: &mut OrderedIndex) -> (r: Option<(IndexKey, StatefulTxn)>)
    ensures
        match r {
            None => index_entries(*old(m)).is_empty()
                && *final(m) == *old(m),
            Some((k, v)) => {
                &&& index_entries(*old(m)).contains_key(index_key_view(k))
                &&& index_entries(*old(m))[index_key_view(k)] == v@
                &&& index_entries(*final(m)) == index_entries(*old(m)).remove(index_key_view(k))
                &&& forall|j: (u64, u64, Seq<char>)| #[trigger]
                    index_entries(*old(m)).contains_key(j) && j != index_key_view(k)
                        ==> index_key_lt(index_key_view(k), j)
            },
        },
{
    m.pop_front().map(|e| (e.key().clone(), e.value().clone()))
}

/// Relies on `SkipMap::iter`: the keys of all entries (in ascending order,
/// which nothing here depends on).
#[verifier::external_body]
pub(crate) fn index_keys(m: &OrderedIndex) -> (r: Vec<IndexKey>)
    ensures
        forall|i: int| 0 <= i < r@.len() ==> index_entries(*m).contains_key(#[trigger] index_key_view(r@[i])),
        forall|k: (u64, u64, Seq<char>)| #[trigger]
            index_entries(*m).contains_key(k) ==> exists|i: int| 0 <= i < r@.len() && index_key_view(r@[i]) == k,
{
    m.iter().map(|e| e.key().clone()).collect()
}

} // verus!
