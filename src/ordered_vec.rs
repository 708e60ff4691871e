use vstd::prelude::*;

use crate::key::{lemma_ranks_below_chain, ranks_below, ranks_below_exec};
use crate::transaction::{txn_views, InternalTransaction, Transaction, TxnView};

verus! {

/// The views of a sequence of internal transactions.
pub open spec fn internal_views(s: Seq<InternalTransaction>) -> Seq<TxnView> {
    s.map_values(|t: InternalTransaction| t@)
}

/// `s` is in ascending composite order; entries of equal rank may sit side
/// by side.
pub open spec fn ascending(s: Seq<TxnView>) -> bool {
    forall|i: int, j: int| 0 <= i < j < s.len() ==> !ranks_below(#[trigger] s[j], #[trigger] s[i])
}

/// `r` holds the `n` last (highest-ranked) entries of `before`, all of them
/// if there are fewer, from the last one down, and `after` holds the rest.
pub open spec fn taken_from_back(before: Seq<TxnView>, after: Seq<TxnView>, r: Seq<TxnView>, n: nat) -> bool {
    let m = if n < before.len() { n } else { before.len() };
    &&& r.len() == m
    &&& after == before.subrange(0, before.len() - m)
    &&& forall|i: int| 0 <= i < m ==> #[trigger] r[i] == before[before.len() - 1 - i]
}

/// The position at which `t` enters the ascending sequence `v`: every entry
/// before it ranks below `t`, none from it on does.
pub fn insert_position(v: &Vec<InternalTransaction>, t: &InternalTransaction) -> (p: usize)
    requires
        ascending(internal_views(v@)),
    ensures
        p <= v@.len(),
        forall|i: int| 0 <= i < p ==> ranks_below(#[trigger] v@[i]@, t@),
        forall|i: int| p <= i < v@.len() ==> !ranks_below(#[trigger] v@[i]@, t@),
{
    let ghost s = internal_views(v@);
    let mut lo: usize = 0;
    let mut hi: usize = v.len();
    while lo < hi
        invariant
            s == internal_views(v@),
            ascending(s),
            lo <= hi <= v@.len(),
            forall|i: int| 0 <= i < lo ==> ranks_below(#[trigger] v@[i]@, t@),
            forall|i: int| hi <= i < v@.len() ==> !ranks_below(#[trigger] v@[i]@, t@),
        decreases hi - lo,
    {
        let mid = lo + (hi - lo) / 2;
        if ranks_below_exec(&v[mid], t) {
            proof {
                assert forall|i: int| 0 <= i < mid + 1 implies ranks_below(#[trigger] v@[i]@, t@) by {
                    if i < mid {
                        assert(s[i] == v@[i]@ && s[mid as int] == v@[mid as int]@);
                        lemma_ranks_below_chain(v@[i]@, v@[mid as int]@, t@);
                    }
                }
            }
            lo = mid + 1;
        } else {
            proof {
                assert forall|i: int| mid <= i < v@.len() implies !ranks_below(#[trigger] v@[i]@, t@) by {
                    if i > mid {
                        assert(s[i] == v@[i]@ && s[mid as int] == v@[mid as int]@);
                        lemma_ranks_below_chain(t@, v@[mid as int]@, v@[i]@);
                    }
                }
            }
            hi = mid;
        }
    }
    lo
}

/// Takes up to `n` entries off the back of `v`, the last one first.
pub fn take_from_back(v: &mut Vec<InternalTransaction>, n: usize) -> (r: Vec<Transaction>)
    ensures
        taken_from_back(internal_views(old(v)@), internal_views(final(v)@), txn_views(r@), n as nat),
{
    let ghost before = internal_views(v@);
    let mut out: Vec<Transaction> = Vec::new();
    let mut i: usize = 0;
    while i < n
        invariant
            before == internal_views(old(v)@),
            i == out@.len(),
            i <= n,
            i <= before.len(),
            internal_views(v@) == before.subrange(0, before.len() - i),
            forall|j: int| 0 <= j < i ==> #[trigger] txn_views(out@)[j] == before[before.len() - 1 - j],
        ensures
            out@.len() == n || v@.len() == 0,
        decreases n - i,
    {
        let ghost vb = v@;
        proof {
            assert(internal_views(vb).len() == vb.len());
        }
        match v.pop() {
            Some(t) => {
                let ghost prev = txn_views(out@);
                out.push(t.to_transaction());
                proof {
                    assert(vb.len() > 0);
                    assert(v@ =~= vb.drop_last());
                    assert(t == vb[vb.len() - 1]);
                    assert(internal_views(vb)[vb.len() - 1] == t@);
                    assert(txn_views(out@) =~= prev.push(t@));
                    assert(internal_views(v@) =~= before.subrange(0, before.len() - i - 1));
                }
                i = i + 1;
            },
            None => {
                break ;
            },
        }
    }
    proof {
        assert(v@.len() == 0 ==> internal_views(v@).len() == 0);
    }
    out
}

} // verus!
