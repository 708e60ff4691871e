use dashmap::DashMap;
use vstd::prelude::*;

use crate::skiplist::{ReservedEntry, ReservedView};

verus! {

#[verifier::external_type_specification]
#[verifier::external_body]
#[verifier::reject_recursive_types(K)]
#[verifier::reject_recursive_types(V)]
#[verifier::reject_recursive_types(S)]
pub struct ExDashMap<K, V, S>(DashMap<K, V, S>);

/// The reservation index of a skip-list pool: held entries by transaction id.
pub type ReservationIndex = DashMap<String, ReservedEntry>;

/// What a reservation index holds.
pub uninterp spec fn held_entries(m: ReservationIndex) -> Map<Seq<char>, ReservedView>;

/// Relies on `DashMap::new`: a new map is empty.
#[verifier::external_body]
pub(crate) fn held_new() -> (r: ReservationIndex)
    ensures
        held_entries(r).is_empty(),
{
    DashMap::new()
}

/// Relies on `DashMap::insert`: the entry under `id` is `e` afterwards.
#[verifier::external_body]
pub(crate) fn held_insert(m: &mut ReservationIndex, id: String, e: ReservedEntry)
    ensures
        held_entries(*final(m)) == held_entries(*old(m)).insert(id@, e@),
        held_entries(*old(m)).dom().finite() ==> held_entries(*final(m)).dom().finite(),
{
    m.insert(id, e);
}

/// Relies on `DashMap::remove`: takes out the entry under `id`, if any.
#[verifier::external_body]
pub(crate) fn held_remove(m: &mut ReservationIndex, id: &String) -> (r: Option<(String, ReservedEntry)>)
    ensures
        match r {
            None => !held_entries(*old(m)).contains_key(id@) && *final(m) == *old(m),
            Some((k, e)) => {
                &&& k@ == id@
                &&& held_entries(*old(m)).contains_key(id@)
                &&& held_entries(*old(m))[id@] == e@
                &&& held_entries(*final(m)) == held_entries(*old(m)).remove(id@)
            },
        },
{
    m.remove(id)
}

/// Relies on `DashMap::contains_key`.
#[verifier::external_body]
pub(crate) fn held_contains(m: &ReservationIndex, id: &String) -> (r: bool)
    ensures
        r == held_entries(*m).contains_key(id@),
{
    m.contains_key(id)
}

/// Relies on `DashMap::iter`: the ids of all held entries, in the map's own
/// order (which nothing here depends on).
#[verifier::external_body]
pub(crate) fn held_ids(m: &ReservationIndex) -> (r: Vec<String>)
    ensures
        forall|i: int| 0 <= i < r@.len() ==> held_entries(*m).contains_key(#[trigger] r@[i]@),
        forall|id: Seq<char>| #[trigger]
            held_entries(*m).contains_key(id) ==> exists|i: int| 0 <= i < r@.len() && r@[i]@ == id,
{
    m.iter().map(|e| e.key().clone()).collect()
}

} // verus!
