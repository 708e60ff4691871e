use vstd::prelude::*;

use crate::binary_heap::{highest_taken, BHeapMemPool};
use crate::btree::BTreeMemPool;
use crate::key::ranks_below;
use crate::ordered_vec::taken_from_back;
use crate::model::{admitted, hold_all, id_views, matched, readmit, top_taken, unmatched};
use crate::skiplist::SkipListMemPool;
use crate::transaction::{txn_views, Reservation, ReservationToken, Transaction, TxnView};

verus! {

/// What every pool offers: admit a transaction, and drain the highest-ranked
/// ones.
pub trait MemPool: Sized {
    spec fn wf(&self) -> bool;

    /// `after` is `before` once `t` was offered to `insert`.
    spec fn admits(before: &Self, after: &Self, t: TxnView) -> bool;

    /// `after` is `before` once `drain(n)` handed out `r`.
    spec fn drains(before: &Self, after: &Self, r: Seq<TxnView>, n: nat) -> bool;

    fn insert(&mut self, tx: Transaction)
        requires
            old(self).wf(),
        ensures
            final(self).wf(),
            Self::admits(old(self), final(self), tx@),
    ;

    /// Hands out up to `n` entries, from the highest-ranked down.
    fn drain(&mut self, n: usize) -> (r: Vec<Transaction>)
        requires
            old(self).wf(),
        ensures
            final(self).wf(),
            Self::drains(old(self), final(self), txn_views(r@), n as nat),
            r@.len() <= n,
            forall|i: int, j: int| 0 <= i < j < r@.len() ==> !ranks_below(#[trigger] r@[i]@, #[trigger] r@[j]@),
    ;
}

impl MemPool for BTreeMemPool {
    open spec fn wf(&self) -> bool {
        BTreeMemPool::wf(self)
    }

    open spec fn admits(before: &Self, after: &Self, t: TxnView) -> bool {
        forall|x: TxnView|
            #[trigger] after.entries().contains(x) <==> x == t || (before.entries().contains(x)
                && crate::key::key_of(x) != crate::key::key_of(t))
    }

    open spec fn drains(before: &Self, after: &Self, r: Seq<TxnView>, n: nat) -> bool {
        taken_from_back(before.entries(), after.entries(), r, n)
    }

    fn insert(&mut self, tx: Transaction) {
        BTreeMemPool::insert(self, tx)
    }

    fn drain(&mut self, n: usize) -> (r: Vec<Transaction>) {
        let r = BTreeMemPool::drain(self, n);
        proof {
            assert forall|i: int, j: int| 0 <= i < j < r@.len() implies !ranks_below(#[trigger] r@[i]@, #[trigger] r@[j]@) by {
                assert(ranks_below(r@[j]@, r@[i]@));
                crate::key::lemma_composite_total(crate::key::key_of(r@[i]@), crate::key::key_of(r@[j]@));
            }
        }
        r
    }
}

impl MemPool for BHeapMemPool {
    open spec fn wf(&self) -> bool {
        BHeapMemPool::wf(self)
    }

    open spec fn admits(before: &Self, after: &Self, t: TxnView) -> bool {
        after.entries().to_multiset() == before.entries().to_multiset().insert(t)
    }

    open spec fn drains(before: &Self, after: &Self, r: Seq<TxnView>, n: nat) -> bool {
        highest_taken(before.entries(), after.entries(), r, n)
    }

    fn insert(&mut self, tx: Transaction) {
        BHeapMemPool::insert(self, tx)
    }

    fn drain(&mut self, n: usize) -> (r: Vec<Transaction>) {
        let r = BHeapMemPool::drain(self, n);
        proof {
            let v = txn_views(r@);
            assert forall|i: int, j: int| 0 <= i < j < r@.len() implies !ranks_below(#[trigger] r@[i]@, #[trigger] r@[j]@) by {
                assert(v[i] == r@[i]@ && v[j] == r@[j]@);
            }
        }
        r
    }
}

impl MemPool for SkipListMemPool {
    open spec fn wf(&self) -> bool {
        SkipListMemPool::wf(self)
    }

    /// A transaction whose id the pool holds is turned away.
    open spec fn admits(before: &Self, after: &Self, t: TxnView) -> bool {
        if before.holds_id(t.id) {
            *after == *before
        } else {
            &&& after.held() == before.held()
            &&& after.capacity == before.capacity
            &&& admitted(before.index(), after.index(), before.capacity, t)
        }
    }

    open spec fn drains(before: &Self, after: &Self, r: Seq<TxnView>, n: nat) -> bool {
        &&& after.held() == before.held()
        &&& after.capacity == before.capacity
        &&& top_taken(before.index(), after.index(), r, n)
    }

    fn insert(&mut self, tx: Transaction) {
        self.submit(tx);
    }

    fn drain(&mut self, n: usize) -> (r: Vec<Transaction>) {
        let r = SkipListMemPool::drain(self, n);
        proof {
            let v = txn_views(r@);
            assert forall|i: int, j: int| 0 <= i < j < r@.len() implies !ranks_below(#[trigger] r@[i]@, #[trigger] r@[j]@) by {
                assert(v[i] == r@[i]@ && v[j] == r@[j]@);
                assert(ranks_below(v[j], v[i]));
                crate::key::lemma_composite_total(crate::key::key_of(v[i]), crate::key::key_of(v[j]));
            }
        }
        r
    }
}

/// A pool that also hands out entries in two phases: reserve a batch under a
/// token, then commit or release its entries by id.
pub trait ReservableMemPool: MemPool {
    /// `after` is `before` once `reserve(n)` handed out `txns` under `token`.
    spec fn reserves(before: &Self, after: &Self, token: ReservationToken, txns: Seq<TxnView>, n: nat) -> bool;

    /// `after` is `before` once `commit(token, ids)` handed out `r`.
    spec fn commits(before: &Self, after: &Self, token: ReservationToken, ids: Seq<Seq<char>>, r: Seq<TxnView>) -> bool;

    /// `after` is `before` once `release(token, ids)` ran.
    spec fn releases(before: &Self, after: &Self, token: ReservationToken, ids: Seq<Seq<char>>) -> bool;

    fn reserve(&mut self, n: usize) -> (r: Reservation)
        requires
            old(self).wf(),
        ensures
            final(self).wf(),
            Self::reserves(old(self), final(self), r.token, txn_views(r.txns@), n as nat),
    ;

    fn commit(&mut self, token: ReservationToken, ids: &[String]) -> (r: Vec<Transaction>)
        requires
            old(self).wf(),
        ensures
            final(self).wf(),
            Self::commits(old(self), final(self), token, id_views(ids@), txn_views(r@)),
    ;

    fn release(&mut self, token: ReservationToken, ids: &[String])
        requires
            old(self).wf(),
        ensures
            final(self).wf(),
            Self::releases(old(self), final(self), token, id_views(ids@)),
    ;
}

impl ReservableMemPool for SkipListMemPool {
    open spec fn reserves(before: &Self, after: &Self, token: ReservationToken, txns: Seq<TxnView>, n: nat) -> bool {
        &&& after.capacity == before.capacity
        &&& top_taken(before.index(), after.index(), txns, n)
        &&& exists|expires: u64| after.held() == #[trigger] hold_all(before.held(), txns, token, expires)
    }

    open spec fn commits(before: &Self, after: &Self, token: ReservationToken, ids: Seq<Seq<char>>, r: Seq<TxnView>) -> bool {
        &&& after.capacity == before.capacity
        &&& after.index() == before.index()
        &&& r == matched(before.held(), ids, token)
        &&& after.held() == unmatched(before.held(), ids, token)
    }

    open spec fn releases(before: &Self, after: &Self, token: ReservationToken, ids: Seq<Seq<char>>) -> bool {
        &&& after.capacity == before.capacity
        &&& after.index() == readmit(before.index(), matched(before.held(), ids, token))
        &&& after.held() == unmatched(before.held(), ids, token)
    }

    fn reserve(&mut self, n: usize) -> (r: Reservation) {
        SkipListMemPool::reserve(self, n)
    }

    fn commit(&mut self, token: ReservationToken, ids: &[String]) -> (r: Vec<Transaction>) {
        SkipListMemPool::commit(self, token, ids)
    }

    fn release(&mut self, token: ReservationToken, ids: &[String]) {
        SkipListMemPool::release(self, token, ids)
    }
}

} // verus!
