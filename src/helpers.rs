use vstd::prelude::*;

use crate::model::{id_views, ids_of};
use crate::transaction::{txn_views, Transaction};

verus! {

/// The ids of `txs`, in order.
pub fn to_ids(txs: &[Transaction]) -> (r: Vec<String>)
    ensures
        id_views(r@) == ids_of(txn_views(txs@)),
{
    let mut out: Vec<String> = Vec::new();
    let mut i: usize = 0;
    while i < txs.len()
        invariant
            i <= txs@.len(),
            id_views(out@) == ids_of(txn_views(txs@)).subrange(0, i as int),
        decreases txs@.len() - i,
    {
        let ghost before = id_views(out@);
        out.push(txs[i].id.clone());
        proof {
            assert(id_views(out@) =~= before.push(txs@[i as int].id@));
            assert(ids_of(txn_views(txs@)).subrange(0, i + 1) =~= ids_of(txn_views(txs@)).subrange(
                0,
                i as int,
            ).push(txs@[i as int].id@));
        }
        i = i + 1;
    }
    proof {
        assert(ids_of(txn_views(txs@)).subrange(0, i as int) =~= ids_of(txn_views(txs@)));
    }
    out
}

} // verus!
