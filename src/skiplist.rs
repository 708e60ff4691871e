use std::sync::Arc;
use std::time::Instant;
use vstd::prelude::*;

use crate::clock::{clock_start, fresh_token, millis_since};
use crate::helpers::to_ids;
use crate::index::{
    index_entries, index_insert, index_keys, index_len, index_new, index_pop_back, index_pop_front,
    OrderedIndex,
};
use crate::key::{index_key_of, index_key_view, lemma_index_key_order, ranks_below, CompositeKey};
use crate::model::{
    admitted, available, entry_txns, expiry, hold_all, id_views, keys_of, lemma_hold_all, lemma_match_step,
    matched, readmit, swept_held, swept_index, top_taken, unmatched, KeyView, lapsed, returns_at,
};
use crate::protocol::lemma_commit_reservation;
use crate::reservations::{
    held_contains, held_entries, held_ids, held_insert, held_new, held_remove, ReservationIndex,
};
use crate::transaction::{
    txn_views, EntryView, Reservation, ReservationToken, StatefulTxn, Transaction, TxState,
};

verus! {

/// How long a reservation lasts before the reaper may hand its entries back.
pub const RESERVATION_TTL_MS: u64 = 2000;

/// How often the reaper should sweep the reservation index.
pub const SWEEP_INTERVAL_MS: u64 = RESERVATION_TTL_MS / 4;

/// An entry held by a reservation.
pub struct ReservedEntry {
    pub token: ReservationToken,
    pub stx: StatefulTxn,
    /// Milliseconds on the pool's clock at which the reservation lapses.
    pub expires: u64,
}

/// What a reservation index holds for one id.
pub struct ReservedView {
    pub token: ReservationToken,
    pub entry: EntryView,
    pub expires: u64,
}

impl View for ReservedEntry {
    type V = ReservedView;

    open spec fn view(&self) -> ReservedView {
        ReservedView { token: self.token, entry: self.stx@, expires: self.expires }
    }
}

/// The skip-list pool: an ordered index of Available entries and a
/// reservation index of Reserved ones.
///
/// Each id stands for one entry at a time: `insert` asks its caller for an id
/// that the pool does not hold (`holds_id`), and `submit` checks that itself.
pub struct SkipListMemPool {
    /// Available entries by composite key; change it only through the pool.
    pub map: OrderedIndex,
    /// Reserved entries by id; change it only through the pool.
    pub reserved: ReservationIndex,
    /// The most entries the ordered index keeps after an insert, if bounded.
    pub capacity: Option<usize>,
    /// The origin of the clock that reservations lapse by.
    pub clock: Instant,
}

impl SkipListMemPool {
    /// The entries of the ordered index.
    pub open spec fn index(&self) -> Map<KeyView, EntryView> {
        index_entries(self.map)
    }

    /// The entries of the reservation index.
    pub open spec fn held(&self) -> Map<Seq<char>, ReservedView> {
        held_entries(self.reserved)
    }

    /// Whether an entry with this id is in either index.
    pub open spec fn holds_id(&self, id: Seq<char>) -> bool {
        self.held().contains_key(id) || exists|k: KeyView| #[trigger]
            self.index().contains_key(k) && k.2 == id
    }

    /// The pool's invariant: the ordered index holds Available entries under
    /// their own keys, the reservation index holds Reserved entries under
    /// their own ids, and no id is in the pool twice.
    pub open spec fn wf(&self) -> bool {
        &&& self.index().dom().finite()
        &&& self.held().dom().finite()
        &&& forall|k: KeyView| #[trigger]
            self.index().contains_key(k) ==> self.index()[k].state == TxState::Available
                && index_key_of(self.index()[k].txn) == k
        &&& forall|id: Seq<char>| #[trigger]
            self.held().contains_key(id) ==> self.held()[id].entry.state == TxState::Reserved
                && self.held()[id].entry.txn.id == id
        &&& forall|k1: KeyView, k2: KeyView|
            #[trigger] self.index().contains_key(k1) && #[trigger] self.index().contains_key(k2)
                && k1.2 == k2.2 ==> k1 == k2
        &&& forall|k: KeyView| #[trigger]
            self.index().contains_key(k) ==> !self.held().contains_key(k.2)
    }

    /// An empty pool without a capacity bound.
    pub fn new() -> (r: SkipListMemPool)
        ensures
            r.wf(),
            r.index().is_empty(),
            r.held().is_empty(),
            r.capacity.is_none(),
    {
        SkipListMemPool { map: index_new(), reserved: held_new(), capacity: None, clock: clock_start() }
    }

    /// Takes the `n` highest-ranked entries out of the ordered index.
    fn get_n_txns(&mut self, n: usize) -> (r: Vec<StatefulTxn>)
        requires
            old(self).wf(),
        ensures
            final(self).held() == old(self).held(),
            final(self).capacity == old(self).capacity,
            final(self).index().dom().finite(),
            top_taken(old(self).index(), final(self).index(), entry_txns(r@), n as nat),
            forall|i: int| 0 <= i < r@.len() ==> (#[trigger] r@[i]).state == TxState::Available,
    {
        let ghost before = self.index();
        let mut out: Vec<StatefulTxn> = Vec::new();
        if n == 0 {
            proof {
                assert(before.remove_keys(keys_of(entry_txns(out@))) =~= before);
            }
            return out;
        }
        let mut i: usize = 0;
        while i < n
            invariant
                old(self).wf(),
                before == old(self).index(),
                self.held() == old(self).held(),
                self.capacity == old(self).capacity,
                i == out@.len(),
                i <= n,
                self.index().dom().finite(),
                self.index() == before.remove_keys(keys_of(entry_txns(out@))),
                self.index().len() + out@.len() == before.len(),
                forall|j: int| 0 <= j < out@.len() ==> (#[trigger] out@[j]).state == TxState::Available,
                forall|j: int| #![trigger out@[j]]
                    0 <= j < out@.len() ==> before.contains_key(index_key_of(out@[j].data@))
                        && before[index_key_of(out@[j].data@)].txn == out@[j].data@,
                forall|a: int, b: int|
                    0 <= a < b < out@.len() ==> ranks_below(#[trigger] out@[b].data@, #[trigger] out@[a].data@),
                forall|k: KeyView, j: int|
                    self.index().contains_key(k) && 0 <= j < out@.len() ==> ranks_below(
                        #[trigger] self.index()[k].txn,
                        #[trigger] out@[j].data@,
                    ),
            ensures
                out@.len() == n || self.index().is_empty(),
            decreases n - i,
        {
            let ghost cur = self.index();
            match index_pop_back(&mut self.map) {
                Some((k, v)) => {
                    proof {
                        let kv = crate::key::index_key_view(k);
                        assert(cur.contains_key(kv));
                        assert(index_key_of(v.data@) == kv);
                        assert forall|k2: KeyView| #[trigger] self.index().contains_key(k2) implies ranks_below(
                            self.index()[k2].txn,
                            v.data@,
                        ) by {
                            assert(cur.contains_key(k2) && k2 != kv);
                            lemma_index_key_order(cur[k2].txn, v.data@);
                        }
                        let s0 = entry_txns(out@);
                        let s1 = entry_txns(out@.push(v));
                        assert(s1 =~= s0.push(v.data@));
                        assert(keys_of(s1) =~= keys_of(s0).insert(kv)) by {
                            assert forall|kk: KeyView| keys_of(s1).contains(kk) implies keys_of(s0).insert(kv).contains(kk) by {
                                let w = choose|w: int| 0 <= w < s1.len() && index_key_of(s1[w]) == kk;
                                if w < s0.len() {
                                    assert(s0[w] == s1[w]);
                                }
                            }
                            assert forall|kk: KeyView| keys_of(s0).insert(kv).contains(kk) implies keys_of(s1).contains(kk) by {
                                if kk == kv {
                                    assert(s1[s0.len() as int] == v.data@);
                                } else {
                                    let w = choose|w: int| 0 <= w < s0.len() && index_key_of(s0[w]) == kk;
                                    assert(s1[w] == s0[w]);
                                }
                            }
                        }
                        assert(self.index() =~= before.remove_keys(keys_of(s1)));
                    }
                    out.push(v);
                },
                None => {
                    break;
                },
            }
            i = i + 1;
        }
        proof {
            let s = entry_txns(out@);
            assert forall|j: int| 0 <= j < s.len() implies before.contains_key(index_key_of(#[trigger] s[j]))
                && before[index_key_of(s[j])].txn == s[j] by {
                assert(s[j] == out@[j].data@);
            }
            assert forall|a: int, b: int| 0 <= a < b < s.len() implies ranks_below(#[trigger] s[b], #[trigger] s[a]) by {
                assert(s[a] == out@[a].data@);
                assert(s[b] == out@[b].data@);
            }
            assert forall|k: KeyView, j: int| self.index().contains_key(k) && 0 <= j < s.len() implies ranks_below(
                #[trigger] self.index()[k].txn,
                #[trigger] s[j],
            ) by {
                assert(s[j] == out@[j].data@);
            }
        }
        out
    }

    /// Reserves up to `n` of the highest-ranked Available entries under
    /// `token`, lapsing `RESERVATION_TTL_MS` after `now`: they leave the
    /// ordered index for the reservation index, and come back in descending
    /// order.
    pub fn reserve_with(&mut self, n: usize, token: ReservationToken, now: u64) -> (r: Reservation)
        requires
            old(self).wf(),
        ensures
            final(self).wf(),
            final(self).capacity == old(self).capacity,
            r.token == token,
            top_taken(old(self).index(), final(self).index(), txn_views(r.txns@), n as nat),
            final(self).held() == hold_all(old(self).held(), txn_views(r.txns@), token, expiry(now)),
    {
        let expires = now.saturating_add(RESERVATION_TTL_MS);
        let popped = self.get_n_txns(n);
        let ghost mid = self.index();
        let ghost taken = entry_txns(popped@);
        let mut txns: Vec<Transaction> = Vec::new();
        let mut j: usize = 0;
        while j < popped.len()
            invariant
                old(self).wf(),
                top_taken(old(self).index(), mid, taken, n as nat),
                mid.dom().finite(),
                taken == entry_txns(popped@),
                forall|i: int| 0 <= i < popped@.len() ==> (#[trigger] popped@[i]).state == TxState::Available,
                self.index() == mid,
                self.capacity == old(self).capacity,
                j <= popped@.len(),
                txns@.len() == j,
                txn_views(txns@) == taken.subrange(0, j as int),
                self.held() == hold_all(old(self).held(), txn_views(txns@), token, expires),
                old(self).held().dom().finite() ==> self.held().dom().finite(),
                expires == expiry(now),
            decreases popped@.len() - j,
        {
            let stx = &popped[j];
            if stx.state == TxState::Available {
                let held = ReservedEntry {
                    token,
                    stx: StatefulTxn { data: Arc::clone(&stx.data), state: TxState::Reserved },
                    expires,
                };
                let ghost before = txn_views(txns@);
                held_insert(&mut self.reserved, stx.data.id.clone(), held);
                txns.push(stx.data.to_transaction());
                proof {
                    let after = txn_views(txns@);
                    assert(after =~= before.push(stx.data@));
                    assert(after.drop_last() =~= before);
                    assert(taken[j as int] == stx.data@);
                    assert(taken.subrange(0, j + 1) =~= taken.subrange(0, j as int).push(stx.data@));
                }
            }
            j = j + 1;
        }
        proof {
            assert(taken.subrange(0, j as int) =~= taken);
            let h = self.held();
            lemma_hold_all(old(self).held(), taken, token, expires);
            assert forall|k: KeyView| #[trigger] self.index().contains_key(k) implies !h.contains_key(k.2) by {
                assert(old(self).index().contains_key(k));
                if exists|i: int| 0 <= i < taken.len() && taken[i].id == k.2 {
                    let i = choose|i: int| 0 <= i < taken.len() && taken[i].id == k.2;
                    let ki = index_key_of(taken[i]);
                    assert(old(self).index().contains_key(ki));
                    assert(keys_of(taken).contains(ki));
                }
            }
            assert forall|k: KeyView| #[trigger] self.index().contains_key(k) implies self.index()[k].state
                == TxState::Available && index_key_of(self.index()[k].txn) == k by {
                assert(old(self).index().contains_key(k));
            }
            assert forall|id: Seq<char>| #[trigger] h.contains_key(id) implies h[id].entry.state
                == TxState::Reserved && h[id].entry.txn.id == id by {
                if exists|i: int| 0 <= i < taken.len() && taken[i].id == id {
                    let i = choose|i: int| 0 <= i < taken.len() && taken[i].id == id;
                    assert(h.contains_key(taken[i].id));
                } else {
                    assert(old(self).held().contains_key(id));
                }
            }
            assert forall|k1: KeyView, k2: KeyView|
                #[trigger] self.index().contains_key(k1) && #[trigger] self.index().contains_key(k2)
                    && k1.2 == k2.2 implies k1 == k2 by {
                assert(old(self).index().contains_key(k1));
                assert(old(self).index().contains_key(k2));
            }
        }
        Reservation { token, txns }
    }

    /// Reserves up to `n` of the highest-ranked Available entries under a
    /// fresh token; see `reserve_with`.
    pub fn reserve(&mut self, n: usize) -> (r: Reservation)
        requires
            old(self).wf(),
        ensures
            final(self).wf(),
            final(self).capacity == old(self).capacity,
            top_taken(old(self).index(), final(self).index(), txn_views(r.txns@), n as nat),
            exists|expires: u64|
                final(self).held() == #[trigger] hold_all(old(self).held(), txn_views(r.txns@), r.token, expires),
    {
        let token = fresh_token();
        let now = millis_since(&self.clock);
        self.reserve_with(n, token, now)
    }

    /// Admits `tx` as an Available entry. With a capacity `c`, the
    /// lowest-ranked entries are then evicted until at most `c` remain.
    pub fn insert(&mut self, tx: Transaction)
        requires
            old(self).wf(),
            !old(self).holds_id(tx.id@),
        ensures
            final(self).wf(),
            final(self).capacity == old(self).capacity,
            final(self).held() == old(self).held(),
            admitted(old(self).index(), final(self).index(), old(self).capacity, tx@),
    {
        let ghost t = tx@;
        let stx = StatefulTxn::new(tx);
        let key = CompositeKey::of(&stx.data).index_key();
        index_insert(&mut self.map, key, stx);
        let ghost grown = self.index();
        proof {
            assert forall|k: KeyView| #[trigger] old(self).index().contains_key(k) implies k.2 != t.id by {}
            assert forall|k1: KeyView, k2: KeyView|
                #[trigger] grown.contains_key(k1) && #[trigger] grown.contains_key(k2) && k1.2 == k2.2 implies k1
                == k2 by {
                if k1 != index_key_of(t) {
                    assert(old(self).index().contains_key(k1));
                }
                if k2 != index_key_of(t) {
                    assert(old(self).index().contains_key(k2));
                }
            }
            assert forall|k: KeyView| #[trigger] grown.contains_key(k) implies !self.held().contains_key(k.2) by {
                if k != index_key_of(t) {
                    assert(old(self).index().contains_key(k));
                }
            }
        }
        if let Some(max) = self.capacity {
            while index_len(&self.map) > max
                invariant
                    self.wf(),
                    self.capacity == old(self).capacity,
                    self.held() == old(self).held(),
                    grown.dom().finite(),
                    forall|k: KeyView| #[trigger] self.index().contains_key(k) ==> grown.contains_key(k)
                        && self.index()[k] == grown[k],
                    self.index().len() >= max || self.index().len() == grown.len(),
                    self.index().len() < grown.len() ==> self.index().len() >= max,
                    forall|k: KeyView, d: KeyView|
                        self.index().contains_key(k) && #[trigger] grown.contains_key(d) && !self.index().contains_key(
                            d,
                        ) ==> ranks_below(grown[d].txn, #[trigger] self.index()[k].txn),
                ensures
                    self.index().len() <= max,
                decreases self.index().len(),
            {
                let ghost cur = self.index();
                match index_pop_front(&mut self.map) {
                    Some((k, v)) => {
                        proof {
                            let kv = crate::key::index_key_view(k);
                            assert(cur.contains_key(kv));
                            assert forall|k2: KeyView| #[trigger] self.index().contains_key(k2) implies ranks_below(
                                v.data@,
                                self.index()[k2].txn,
                            ) by {
                                assert(cur.contains_key(k2) && k2 != kv);
                                lemma_index_key_order(v.data@, cur[k2].txn);
                            }
                        }
                        match v.state {
                            TxState::Available => {
                                // Tagged Final by this eviction; the entry is dropped here.
                            },
                            TxState::Reserved => {
                                index_insert(&mut self.map, k, v);
                                break ;
                            },
                            TxState::Final => {
                                break ;
                            },
                        }
                    },
                    None => {
                        break ;
                    },
                }
            }
            proof {
                let after = self.index();
                assert(after.dom().subset_of(grown.dom()));
                vstd::set_lib::lemma_len_subset(after.dom(), grown.dom());
            }
        }
    }

    /// Whether the pool holds an entry with the id `id`.
    pub fn contains_id(&self, id: &String) -> (r: bool)
        ensures
            r == self.holds_id(id@),
    {
        if held_contains(&self.reserved, id) {
            return true;
        }
        let keys = index_keys(&self.map);
        let mut i: usize = 0;
        while i < keys.len()
            invariant
                i <= keys@.len(),
                forall|j: int| 0 <= j < keys@.len() ==> self.index().contains_key(#[trigger] index_key_view(keys@[j])),
                forall|k: KeyView| #[trigger]
                    self.index().contains_key(k) ==> exists|j: int| 0 <= j < keys@.len() && index_key_view(keys@[j]) == k,
                forall|j: int| 0 <= j < i ==> (#[trigger] keys@[j]).2@ != id@,
            decreases keys@.len() - i,
        {
            if keys[i].2 == *id {
                proof {
                    assert(self.index().contains_key(index_key_view(keys@[i as int])));
                }
                return true;
            }
            i = i + 1;
        }
        proof {
            assert forall|k: KeyView| #[trigger] self.index().contains_key(k) implies k.2 != id@ by {
                let j = choose|j: int| 0 <= j < keys@.len() && index_key_view(keys@[j]) == k;
                assert(keys@[j].2@ != id@);
            }
        }
        false
    }

    /// Admits `tx` unless the pool already holds an entry with its id, in
    /// which case nothing changes. Tells whether `tx` was admitted.
    pub fn submit(&mut self, tx: Transaction) -> (r: bool)
        requires
            old(self).wf(),
        ensures
            final(self).wf(),
            r == !old(self).holds_id(tx.id@),
            r ==> final(self).held() == old(self).held() && final(self).capacity == old(self).capacity
                && admitted(old(self).index(), final(self).index(), old(self).capacity, tx@),
            !r ==> *final(self) == *old(self),
    {
        if self.contains_id(&tx.id) {
            false
        } else {
            self.insert(tx);
            true
        }
    }

    /// Takes the `n` highest-ranked entries out of the pool for good: a
    /// reservation committed at once.
    pub fn drain(&mut self, n: usize) -> (r: Vec<Transaction>)
        requires
            old(self).wf(),
        ensures
            final(self).wf(),
            final(self).capacity == old(self).capacity,
            final(self).held() == old(self).held(),
            top_taken(old(self).index(), final(self).index(), txn_views(r@), n as nat),
    {
        let ghost before = *self;
        let res = self.reserve(n);
        let ghost mid = *self;
        let ids = to_ids(&res.txns);
        let r = self.commit(res.token, &ids);
        proof {
            let s = txn_views(res.txns@);
            let expires = choose|expires: u64| mid.held() == #[trigger] hold_all(before.held(), s, res.token, expires);
            lemma_commit_reservation(before, mid, s, n as nat, res.token, expires, if res.token == 0 { 1 } else { 0 });
        }
        r
    }

    /// The reaper's sweep at `now` on the pool's clock: every reservation
    /// that has lapsed is dropped and its entry is Available again, back in
    /// the ordered index.
    pub fn reap_at(&mut self, now: u64)
        requires
            old(self).wf(),
        ensures
            final(self).wf(),
            final(self).capacity == old(self).capacity,
            final(self).held() == swept_held(old(self).held(), now),
            final(self).index() == swept_index(old(self).index(), old(self).held(), now),
    {
        let ghost h = self.held();
        let ghost idx = self.index();
        let ids = held_ids(&self.reserved);
        let ghost idv = id_views(ids@);
        let mut i: usize = 0;
        proof {
            assert forall|id: Seq<char>| #[trigger] h.contains_key(id) implies idv.contains(id) by {
                let w = choose|w: int| 0 <= w < ids@.len() && ids@[w]@ == id;
                assert(idv[w] == id);
            }
            assert(self.held() =~= h.remove_keys(
                Set::new(|id: Seq<char>| lapsed(h, now, id) && idv.subrange(0, 0).contains(id)),
            ));
            assert(self.index() =~= Map::new(
                |k: KeyView| idx.contains_key(k) || (returns_at(h, now, k) && idv.subrange(0, 0).contains(k.2)),
                |k: KeyView|
                    if returns_at(h, now, k) && idv.subrange(0, 0).contains(k.2) {
                        available(h[k.2].entry.txn)
                    } else {
                        idx[k]
                    },
            ));
        }
        while i < ids.len()
            invariant
                old(self).wf(),
                self.wf(),
                h == old(self).held(),
                idx == old(self).index(),
                idv == id_views(ids@),
                self.capacity == old(self).capacity,
                i <= ids@.len(),
                forall|id: Seq<char>| #[trigger] h.contains_key(id) ==> idv.contains(id),
                self.held() == h.remove_keys(
                    Set::new(|id: Seq<char>| lapsed(h, now, id) && idv.subrange(0, i as int).contains(id)),
                ),
                self.index() == Map::new(
                    |k: KeyView| idx.contains_key(k) || (returns_at(h, now, k) && idv.subrange(0, i as int).contains(k.2)),
                    |k: KeyView|
                        if returns_at(h, now, k) && idv.subrange(0, i as int).contains(k.2) {
                            available(h[k.2].entry.txn)
                        } else {
                            idx[k]
                        },
                ),
            decreases ids@.len() - i,
        {
            let ghost p = idv.subrange(0, i as int);
            let ghost q = idv.subrange(0, i + 1);
            let ghost id = idv[i as int];
            proof {
                assert forall|x: Seq<char>| q.contains(x) <==> p.contains(x) || x == id by {
                    if q.contains(x) {
                        let w = choose|w: int| 0 <= w < q.len() && q[w] == x;
                        if w < i {
                            assert(p[w] == x);
                        }
                    }
                    if p.contains(x) {
                        let w = choose|w: int| 0 <= w < p.len() && p[w] == x;
                        assert(q[w] == x);
                    }
                    if x == id {
                        assert(q[i as int] == x);
                    }
                }
            }
            let ghost cur = self.held();
            let ghost cur_index = self.index();
            match held_remove(&mut self.reserved, &ids[i]) {
                Some((k, entry)) => {
                    if entry.expires <= now {
                        if entry.stx.state == TxState::Reserved {
                            let key = CompositeKey::of(&entry.stx.data).index_key();
                            let back = StatefulTxn { data: entry.stx.data, state: TxState::Available };
                            proof {
                                assert forall|k2: KeyView| #[trigger] cur_index.contains_key(k2) implies k2.2 != id by {}
                            }
                            index_insert(&mut self.map, key, back);
                            proof {
                                let t = back.data@;
                                assert forall|k1: KeyView, k2: KeyView|
                                    #[trigger] self.index().contains_key(k1) && #[trigger] self.index().contains_key(k2)
                                        && k1.2 == k2.2 implies k1 == k2 by {
                                    if k1 != index_key_of(t) {
                                        assert(cur_index.contains_key(k1));
                                    }
                                    if k2 != index_key_of(t) {
                                        assert(cur_index.contains_key(k2));
                                    }
                                }
                                assert forall|k2: KeyView| #[trigger] self.index().contains_key(k2) implies !self.held().contains_key(k2.2) by {
                                    if k2 != index_key_of(t) {
                                        assert(cur_index.contains_key(k2));
                                    }
                                }
                            }
                        }
                    } else {
                        held_insert(&mut self.reserved, k, entry);
                        proof {
                            assert(self.held() =~= cur);
                        }
                    }
                },
                None => {},
            }
            proof {
                assert(self.held() =~= h.remove_keys(
                    Set::new(|x: Seq<char>| lapsed(h, now, x) && q.contains(x)),
                ));
                assert(self.index() =~= Map::new(
                    |k: KeyView| idx.contains_key(k) || (returns_at(h, now, k) && q.contains(k.2)),
                    |k: KeyView|
                        if returns_at(h, now, k) && q.contains(k.2) {
                            available(h[k.2].entry.txn)
                        } else {
                            idx[k]
                        },
                ));
            }
            i = i + 1;
        }
        proof {
            assert(idv.subrange(0, i as int) =~= idv);
            assert(self.held() =~= swept_held(h, now));
            assert(self.index() =~= swept_index(idx, h, now));
        }
    }

    /// The reaper's sweep, at the present moment of the pool's clock.
    pub fn reap(&mut self)
        requires
            old(self).wf(),
        ensures
            final(self).wf(),
            final(self).capacity == old(self).capacity,
            exists|now: u64|
                final(self).held() == #[trigger] swept_held(old(self).held(), now)
                    && final(self).index() == swept_index(old(self).index(), old(self).held(), now),
    {
        let now = millis_since(&self.clock);
        self.reap_at(now);
    }

    /// Commits the entries of `ids` that are held under `token`: they leave
    /// the pool for good and come back in the order of `ids`. Ids that are not
    /// held, or held under another token, are left as they are.
    pub fn commit(&mut self, token: ReservationToken, ids: &[String]) -> (r: Vec<Transaction>)
        requires
            old(self).wf(),
        ensures
            final(self).wf(),
            final(self).capacity == old(self).capacity,
            final(self).index() == old(self).index(),
            txn_views(r@) == matched(old(self).held(), id_views(ids@), token),
            final(self).held() == unmatched(old(self).held(), id_views(ids@), token),
    {
        let ghost h = self.held();
        let ghost idv = id_views(ids@);
        let mut committed: Vec<Transaction> = Vec::new();
        let mut i: usize = 0;
        proof {
            assert(unmatched(h, idv.subrange(0, 0), token) =~= h);
            assert(txn_views(committed@) =~= matched(h, idv.subrange(0, 0), token));
        }
        while i < ids.len()
            invariant
                self.wf(),
                h == old(self).held(),
                idv == id_views(ids@),
                self.capacity == old(self).capacity,
                self.index() == old(self).index(),
                i <= ids@.len(),
                self.held() == unmatched(h, idv.subrange(0, i as int), token),
                txn_views(committed@) == matched(h, idv.subrange(0, i as int), token),
            decreases ids@.len() - i,
        {
            proof {
                lemma_match_step(h, idv, token, i as int);
            }
            let ghost before = txn_views(committed@);
            let ghost cur = self.held();
            match held_remove(&mut self.reserved, &ids[i]) {
                Some((k, entry)) => {
                    if token == entry.token && entry.stx.state == TxState::Reserved {
                        committed.push(entry.stx.data.to_transaction());
                        proof {
                            assert(txn_views(committed@) =~= before.push(entry.stx.data@));
                            assert(idv.subrange(0, i + 1).contains(idv[i as int]));
                        }
                    } else {
                        held_insert(&mut self.reserved, k, entry);
                        proof {
                            assert(self.held() =~= cur);
                        }
                    }
                },
                None => {},
            }
            i = i + 1;
        }
        proof {
            assert(idv.subrange(0, i as int) =~= idv);
        }
        committed
    }

    /// Releases the entries of `ids` that are held under `token`: they are
    /// Available again and back in the ordered index. Ids that are not held,
    /// or held under another token, are left as they are.
    pub fn release(&mut self, token: ReservationToken, ids: &[String])
        requires
            old(self).wf(),
        ensures
            final(self).wf(),
            final(self).capacity == old(self).capacity,
            final(self).index() == readmit(old(self).index(), matched(old(self).held(), id_views(ids@), token)),
            final(self).held() == unmatched(old(self).held(), id_views(ids@), token),
    {
        let ghost h = self.held();
        let ghost idv = id_views(ids@);
        let mut i: usize = 0;
        proof {
            assert(unmatched(h, idv.subrange(0, 0), token) =~= h);
        }
        while i < ids.len()
            invariant
                self.wf(),
                h == old(self).held(),
                idv == id_views(ids@),
                self.capacity == old(self).capacity,
                i <= ids@.len(),
                self.held() == unmatched(h, idv.subrange(0, i as int), token),
                self.index() == readmit(old(self).index(), matched(h, idv.subrange(0, i as int), token)),
            decreases ids@.len() - i,
        {
            proof {
                lemma_match_step(h, idv, token, i as int);
            }
            let ghost cur = self.held();
            let ghost cur_index = self.index();
            match held_remove(&mut self.reserved, &ids[i]) {
                Some((k, entry)) => {
                    if entry.token == token && entry.stx.state == TxState::Reserved {
                        let key = CompositeKey::of(&entry.stx.data).index_key();
                        let back = StatefulTxn { data: entry.stx.data, state: TxState::Available };
                        proof {
                            assert(idv.subrange(0, i + 1).contains(idv[i as int]));
                            let t = back.data@;
                            assert(cur.contains_key(t.id));
                            assert forall|k2: KeyView| #[trigger] cur_index.contains_key(k2) implies k2.2 != t.id by {}
                        }
                        index_insert(&mut self.map, key, back);
                        proof {
                            let t = back.data@;
                            let m = matched(h, idv.subrange(0, i + 1), token);
                            assert(m.drop_last() == matched(h, idv.subrange(0, i as int), token));
                            assert(m.last() == t);
                            assert forall|k1: KeyView, k2: KeyView|
                                #[trigger] self.index().contains_key(k1) && #[trigger] self.index().contains_key(k2)
                                    && k1.2 == k2.2 implies k1 == k2 by {
                                if k1 != index_key_of(t) {
                                    assert(cur_index.contains_key(k1));
                                }
                                if k2 != index_key_of(t) {
                                    assert(cur_index.contains_key(k2));
                                }
                            }
                            assert forall|k2: KeyView| #[trigger] self.index().contains_key(k2) implies !self.held().contains_key(k2.2) by {
                                if k2 != index_key_of(t) {
                                    assert(cur_index.contains_key(k2));
                                }
                            }
                        }
                    } else {
                        held_insert(&mut self.reserved, k, entry);
                        proof {
                            assert(self.held() =~= cur);
                        }
                    }
                },
                None => {},
            }
            i = i + 1;
        }
        proof {
            assert(idv.subrange(0, i as int) =~= idv);
        }
    }
}


impl Default for SkipListMemPool {
    fn default() -> (r: SkipListMemPool)
        ensures
            r.wf(),
            r.index().is_empty(),
            r.held().is_empty(),
            r.capacity.is_none(),
    {
        SkipListMemPool::new()
    }
}

} // verus!