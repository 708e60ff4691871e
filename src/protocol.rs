use vstd::prelude::*;

use crate::key::{index_key_of, key_of, lemma_composite_total, ranks_below};
use crate::model::{
    available, expiry, hold_all, ids_of, keys_of, lemma_commit_prefix, lemma_hold_all, lemma_no_match,
    matched, readmit, reserved_view, swept_held, swept_index, top_taken, unmatched, KeyView,
};
use crate::skiplist::SkipListMemPool;
use crate::transaction::{EntryView, ReservationToken, TxnView};

verus! {

/// Every entry of `m` sits under its own transaction's key.
pub open spec fn well_keyed(m: Map<KeyView, EntryView>) -> bool {
    forall|k: KeyView| #[trigger] m.contains_key(k) ==> index_key_of(m[k].txn) == k
}

/// The entries taken from an ordered index sit under distinct keys.
proof fn lemma_taken_keys_distinct(
    before: Map<KeyView, EntryView>,
    after: Map<KeyView, EntryView>,
    s: Seq<TxnView>,
    n: nat,
)
    requires
        top_taken(before, after, s, n),
    ensures
        forall|i: int, j: int|
            0 <= i < s.len() && 0 <= j < s.len() && i != j ==> index_key_of(s[i]) != index_key_of(s[j]),
{
    assert forall|i: int, j: int|
        0 <= i < s.len() && 0 <= j < s.len() && i != j implies index_key_of(s[i]) != index_key_of(s[j]) by {
        lemma_composite_total(key_of(s[i]), key_of(s[j]));
        if i < j {
            assert(ranks_below(s[j], s[i]));
        } else {
            assert(ranks_below(s[i], s[j]));
        }
    }
}

/// The top entries of an ordered index are determined by the index: two
/// takings of the same count agree on what they take and on what they leave.
pub proof fn lemma_top_taken_unique(
    before: Map<KeyView, EntryView>,
    a1: Map<KeyView, EntryView>,
    a2: Map<KeyView, EntryView>,
    s1: Seq<TxnView>,
    s2: Seq<TxnView>,
    n: nat,
)
    requires
        well_keyed(before),
        top_taken(before, a1, s1, n),
        top_taken(before, a2, s2, n),
    ensures
        s1 == s2,
        a1 == a2,
{
    assert forall|i: int| 0 <= i < s1.len() implies s1[i] == s2[i] by {
        lemma_top_taken_agree(before, a1, a2, s1, s2, n, i);
    }
    assert(s1 =~= s2);
}

proof fn lemma_top_taken_agree(
    before: Map<KeyView, EntryView>,
    a1: Map<KeyView, EntryView>,
    a2: Map<KeyView, EntryView>,
    s1: Seq<TxnView>,
    s2: Seq<TxnView>,
    n: nat,
    i: int,
)
    requires
        well_keyed(before),
        top_taken(before, a1, s1, n),
        top_taken(before, a2, s2, n),
        0 <= i < s1.len(),
    ensures
        s1[i] == s2[i],
    decreases i,
{
    if i > 0 {
        lemma_top_taken_agree(before, a1, a2, s1, s2, n, i - 1);
    }
    assert forall|j: int| 0 <= j < i implies s1[j] == s2[j] by {
        lemma_top_taken_agree(before, a1, a2, s1, s2, n, j);
    }
    let x = s1[i];
    let y = s2[i];
    lemma_composite_total(key_of(x), key_of(y));
    if x != y {
        if key_of(x) == key_of(y) {
            assert(index_key_of(x) == index_key_of(y));
        } else if ranks_below(x, y) {
            // y is ranked above x, so s1 must have taken y before position i
            let ky = index_key_of(y);
            assert(before.contains_key(ky));
            if a1.contains_key(ky) {
                assert(ranks_below(a1[ky].txn, s1[i]));
                assert(a1[ky] == before[ky]);
            } else {
                assert(keys_of(s1).contains(ky));
                let j = choose|j: int| 0 <= j < s1.len() && index_key_of(s1[j]) == ky;
                assert(before[index_key_of(s1[j])].txn == s1[j]);
                if j < i {
                    assert(s2[j] == s1[j]);
                    assert(ranks_below(s2[i], s2[j]));
                    lemma_composite_total(key_of(y), key_of(y));
                } else if j > i {
                    assert(ranks_below(s1[j], s1[i]));
                    lemma_composite_total(key_of(x), key_of(y));
                }
            }
        } else {
            let kx = index_key_of(x);
            assert(before.contains_key(kx));
            if a2.contains_key(kx) {
                assert(ranks_below(a2[kx].txn, s2[i]));
                assert(a2[kx] == before[kx]);
            } else {
                assert(keys_of(s2).contains(kx));
                let j = choose|j: int| 0 <= j < s2.len() && index_key_of(s2[j]) == kx;
                assert(before[index_key_of(s2[j])].txn == s2[j]);
                if j < i {
                    assert(s1[j] == s2[j]);
                    assert(ranks_below(s1[i], s1[j]));
                    lemma_composite_total(key_of(x), key_of(x));
                } else if j > i {
                    assert(ranks_below(s2[j], s2[i]));
                    lemma_composite_total(key_of(x), key_of(y));
                }
            }
        }
    }
}

/// What `readmit` holds when the readmitted transactions have distinct keys.
proof fn lemma_readmit(idx: Map<KeyView, EntryView>, s: Seq<TxnView>)
    requires
        forall|i: int, j: int|
            0 <= i < s.len() && 0 <= j < s.len() && i != j ==> index_key_of(s[i]) != index_key_of(s[j]),
    ensures
        forall|k: KeyView| #[trigger]
            readmit(idx, s).contains_key(k) <==> idx.contains_key(k) || keys_of(s).contains(k),
        forall|k: KeyView| idx.contains_key(k) && !keys_of(s).contains(k) ==> #[trigger] readmit(idx, s)[k] == idx[k],
        forall|i: int| 0 <= i < s.len() ==> #[trigger] readmit(idx, s)[index_key_of(s[i])] == available(s[i]),
    decreases s.len(),
{
    if s.len() > 0 {
        let p = s.drop_last();
        assert forall|i: int, j: int|
            0 <= i < p.len() && 0 <= j < p.len() && i != j implies index_key_of(p[i]) != index_key_of(p[j]) by {
            assert(p[i] == s[i] && p[j] == s[j]);
        }
        lemma_readmit(idx, p);
        assert forall|k: KeyView| keys_of(s).contains(k) <==> keys_of(p).contains(k) || k == index_key_of(s.last()) by {
            if keys_of(s).contains(k) {
                let w = choose|w: int| 0 <= w < s.len() && index_key_of(s[w]) == k;
                if w < p.len() {
                    assert(p[w] == s[w]);
                }
            }
            if keys_of(p).contains(k) {
                let w = choose|w: int| 0 <= w < p.len() && index_key_of(p[w]) == k;
                assert(p[w] == s[w]);
            }
            if k == index_key_of(s.last()) {
                assert(index_key_of(s[s.len() - 1]) == k);
            }
        }
        assert forall|i: int| 0 <= i < s.len() implies #[trigger] readmit(idx, s)[index_key_of(s[i])] == available(
            s[i],
        ) by {
            if i < p.len() {
                assert(p[i] == s[i]);
                assert(index_key_of(s[i]) != index_key_of(s[s.len() - 1]));
            }
        }
    }
}

/// Distinct keys: as many keys as transactions.
proof fn lemma_keys_of_len(s: Seq<TxnView>)
    requires
        forall|i: int, j: int|
            0 <= i < s.len() && 0 <= j < s.len() && i != j ==> index_key_of(s[i]) != index_key_of(s[j]),
    ensures
        keys_of(s).finite(),
        keys_of(s).len() == s.len(),
    decreases s.len(),
{
    if s.len() == 0 {
        assert(keys_of(s) =~= Set::<KeyView>::empty());
    } else {
        let p = s.drop_last();
        assert forall|i: int, j: int|
            0 <= i < p.len() && 0 <= j < p.len() && i != j implies index_key_of(p[i]) != index_key_of(p[j]) by {
            assert(p[i] == s[i] && p[j] == s[j]);
        }
        lemma_keys_of_len(p);
        let last = index_key_of(s[s.len() - 1]);
        assert(keys_of(s) =~= keys_of(p).insert(last)) by {
            assert forall|k: KeyView| keys_of(s).contains(k) implies keys_of(p).insert(last).contains(k) by {
                let w = choose|w: int| 0 <= w < s.len() && index_key_of(s[w]) == k;
                if w < p.len() {
                    assert(p[w] == s[w]);
                }
            }
            assert forall|k: KeyView| keys_of(p).insert(last).contains(k) implies keys_of(s).contains(k) by {
                if k != last {
                    let w = choose|w: int| 0 <= w < p.len() && index_key_of(p[w]) == k;
                    assert(p[w] == s[w]);
                }
            }
        }
        assert(!keys_of(p).contains(last)) by {
            if keys_of(p).contains(last) {
                let w = choose|w: int| 0 <= w < p.len() && index_key_of(p[w]) == last;
                assert(p[w] == s[w]);
            }
        }
    }
}

/// Releasing a fresh reservation under its own token gives back the pool as
/// it was before the reservation: the same ordered index and the same
/// reservation index.
pub proof fn lemma_release_restores(
    before: SkipListMemPool,
    reserved: SkipListMemPool,
    released: SkipListMemPool,
    s: Seq<TxnView>,
    n: nat,
    token: ReservationToken,
    expires: u64,
)
    requires
        before.wf(),
        top_taken(before.index(), reserved.index(), s, n),
        reserved.held() == hold_all(before.held(), s, token, expires),
        released.index() == readmit(reserved.index(), matched(reserved.held(), ids_of(s), token)),
        released.held() == unmatched(reserved.held(), ids_of(s), token),
    ensures
        released.index() == before.index(),
        released.held() == before.held(),
{
    lemma_commit_reservation(before, reserved, s, n, token, expires, if token == 0 { 1 } else { 0 });
    lemma_taken_keys_distinct(before.index(), reserved.index(), s, n);
    lemma_readmit(reserved.index(), s);
    assert forall|k: KeyView| #[trigger] keys_of(s).contains(k) implies before.index().contains_key(k)
        && released.index()[k] == before.index()[k] by {
        let w = choose|w: int| 0 <= w < s.len() && index_key_of(s[w]) == k;
        assert(released.index()[index_key_of(s[w])] == available(s[w]));
    }
    assert(released.index() =~= before.index());
}

/// After a reservation is released under its own token, draining as many
/// entries as it held hands back exactly its transactions.
pub proof fn lemma_release_then_drain(
    before: SkipListMemPool,
    reserved: SkipListMemPool,
    released: SkipListMemPool,
    drained: SkipListMemPool,
    s: Seq<TxnView>,
    n: nat,
    token: ReservationToken,
    expires: u64,
    r: Seq<TxnView>,
)
    requires
        before.wf(),
        top_taken(before.index(), reserved.index(), s, n),
        reserved.held() == hold_all(before.held(), s, token, expires),
        released.index() == readmit(reserved.index(), matched(reserved.held(), ids_of(s), token)),
        released.held() == unmatched(reserved.held(), ids_of(s), token),
        top_taken(released.index(), drained.index(), r, s.len()),
    ensures
        r == s,
{
    lemma_release_restores(before, reserved, released, s, n, token, expires);
    lemma_top_taken_unique(before.index(), reserved.index(), drained.index(), s, r, s.len());
}

/// Reserving `n`, releasing the reservation under its token, then draining
/// `n` hands back what draining `n` from the pool as it first stood would have.
pub proof fn lemma_reserve_release_drain(
    before: SkipListMemPool,
    reserved: SkipListMemPool,
    released: SkipListMemPool,
    s: Seq<TxnView>,
    n: nat,
    token: ReservationToken,
    expires: u64,
    after_direct: Map<KeyView, EntryView>,
    direct: Seq<TxnView>,
    after_detour: Map<KeyView, EntryView>,
    detour: Seq<TxnView>,
)
    requires
        before.wf(),
        top_taken(before.index(), reserved.index(), s, n),
        reserved.held() == hold_all(before.held(), s, token, expires),
        released.index() == readmit(reserved.index(), matched(reserved.held(), ids_of(s), token)),
        released.held() == unmatched(reserved.held(), ids_of(s), token),
        top_taken(before.index(), after_direct, direct, n),
        top_taken(released.index(), after_detour, detour, n),
    ensures
        detour == direct,
        after_detour == after_direct,
{
    lemma_release_restores(before, reserved, released, s, n, token, expires);
    lemma_top_taken_unique(before.index(), after_direct, after_detour, direct, detour, n);
}

/// Two reservations in a row take a prefix of the pool's order: together
/// they are the top entries of the first ordered index, in descending
/// order, and no id is in both.
pub proof fn lemma_reserve_twice(
    before: SkipListMemPool,
    mid: Map<KeyView, EntryView>,
    after: Map<KeyView, EntryView>,
    s1: Seq<TxnView>,
    n1: nat,
    s2: Seq<TxnView>,
    n2: nat,
)
    requires
        before.wf(),
        top_taken(before.index(), mid, s1, n1),
        top_taken(mid, after, s2, n2),
    ensures
        top_taken(before.index(), after, s1 + s2, (s1.len() + s2.len()) as nat),
        forall|i: int, j: int| 0 <= i < s1.len() && 0 <= j < s2.len() ==> s1[i].id != s2[j].id,
{
    let s = s1 + s2;
    let b = before.index();
    assert forall|i: int| #![trigger s[i]] 0 <= i < s.len() implies b.contains_key(index_key_of(s[i]))
        && b[index_key_of(s[i])].txn == s[i] by {
        if i >= s1.len() {
            assert(s[i] == s2[i - s1.len()]);
        }
    }
    assert forall|i: int, j: int| 0 <= i < j < s.len() implies ranks_below(#[trigger] s[j], #[trigger] s[i]) by {
        if j < s1.len() {
        } else if i >= s1.len() {
            assert(s[i] == s2[i - s1.len()] && s[j] == s2[j - s1.len()]);
        } else {
            let kj = index_key_of(s2[j - s1.len()]);
            assert(s[j] == s2[j - s1.len()]);
            assert(mid.contains_key(kj));
            assert(ranks_below(mid[kj].txn, s1[i]));
        }
    }
    assert forall|k: KeyView| keys_of(s).contains(k) <==> keys_of(s1).contains(k) || keys_of(s2).contains(k) by {
        if keys_of(s).contains(k) {
            let w = choose|w: int| 0 <= w < s.len() && index_key_of(s[w]) == k;
            if w >= s1.len() {
                assert(s[w] == s2[w - s1.len()]);
            } else {
                assert(s[w] == s1[w]);
            }
        }
        if keys_of(s1).contains(k) {
            let w = choose|w: int| 0 <= w < s1.len() && index_key_of(s1[w]) == k;
            assert(s[w] == s1[w]);
        }
        if keys_of(s2).contains(k) {
            let w = choose|w: int| 0 <= w < s2.len() && index_key_of(s2[w]) == k;
            assert(s[w + s1.len()] == s2[w]);
        }
    }
    assert(after =~= b.remove_keys(keys_of(s)));
    assert forall|i: int, j: int|
        0 <= i < s.len() && 0 <= j < s.len() && i != j implies index_key_of(s[i]) != index_key_of(s[j]) by {
        lemma_composite_total(key_of(s[i]), key_of(s[j]));
        if i < j {
            assert(ranks_below(s[j], s[i]));
        } else {
            assert(ranks_below(s[i], s[j]));
        }
    }
    lemma_keys_of_len(s);
    assert(keys_of(s).subset_of(b.dom()));
    vstd::set_lib::lemma_len_subset(keys_of(s), b.dom());
    assert forall|k: KeyView, i: int| after.contains_key(k) && 0 <= i < s.len() implies ranks_below(
        #[trigger] after[k].txn,
        #[trigger] s[i],
    ) by {
        if i >= s1.len() {
            assert(s[i] == s2[i - s1.len()]);
        } else {
            assert(mid.contains_key(k));
        }
    }
    assert forall|i: int, j: int| 0 <= i < s1.len() && 0 <= j < s2.len() implies s1[i].id != s2[j].id by {
        let k1 = index_key_of(s1[i]);
        let k2 = index_key_of(s2[j]);
        assert(mid.contains_key(k2));
        assert(!mid.contains_key(k1)) by {
            assert(keys_of(s1).contains(k1));
        }
        assert(b.contains_key(k1) && b.contains_key(k2));
    }
}

/// The reaper's liveness: once a reservation made at `made` has lapsed, a
/// sweep at `now` puts each of its transactions back in the ordered index,
/// Available, and drops it from the reservation index.
pub proof fn lemma_sweep_returns_lapsed(
    pool: SkipListMemPool,
    swept: SkipListMemPool,
    s: Seq<TxnView>,
    token: ReservationToken,
    made: u64,
    now: u64,
)
    requires
        pool.wf(),
        forall|i: int| 0 <= i < s.len() ==> pool.held().contains_key(#[trigger] s[i].id)
            && pool.held()[s[i].id] == reserved_view(s[i], token, expiry(made)),
        expiry(made) <= now,
        swept.held() == swept_held(pool.held(), now),
        swept.index() == swept_index(pool.index(), pool.held(), now),
    ensures
        forall|i: int| 0 <= i < s.len() ==> #[trigger] swept.index().contains_key(index_key_of(s[i]))
            && swept.index()[index_key_of(s[i])] == available(s[i]) && !swept.held().contains_key(s[i].id),
{
    assert forall|i: int| 0 <= i < s.len() implies #[trigger] swept.index().contains_key(index_key_of(s[i]))
        && swept.index()[index_key_of(s[i])] == available(s[i]) && !swept.held().contains_key(s[i].id) by {
        let k = index_key_of(s[i]);
        assert(k.2 == s[i].id);
    }
}

/// A transaction inserted into an empty pool without a capacity bound is
/// what draining one entry hands back.
pub proof fn lemma_sole_entry(
    t: TxnView,
    inserted: Map<KeyView, EntryView>,
    drained: Map<KeyView, EntryView>,
    r: Seq<TxnView>,
)
    requires
        inserted == Map::<KeyView, EntryView>::empty().insert(index_key_of(t), available(t)),
        top_taken(inserted, drained, r, 1),
    ensures
        r == seq![t],
        drained.is_empty(),
{
    assert(inserted.dom() =~= set![index_key_of(t)]);
    assert(r.len() == 1);
    assert(inserted.contains_key(index_key_of(r[0])));
    assert(keys_of(r).contains(index_key_of(r[0])));
    assert(r =~= seq![t]);
    assert(drained.dom() =~= Set::<KeyView>::empty());
}

/// For a reservation `s` made under `token` from a well-formed pool `before`
/// (leaving `after`): committing its ids under `token` hands back exactly its
/// transactions and leaves the reservation index as before the reservation;
/// committing them under any other token hands back nothing and leaves the
/// reservation in place.
pub proof fn lemma_commit_reservation(
    before: SkipListMemPool,
    after: SkipListMemPool,
    s: Seq<TxnView>,
    n: nat,
    token: ReservationToken,
    expires: u64,
    other: ReservationToken,
)
    requires
        before.wf(),
        top_taken(before.index(), after.index(), s, n),
        after.held() == hold_all(before.held(), s, token, expires),
        other != token,
    ensures
        matched(after.held(), ids_of(s), token) == s,
        unmatched(after.held(), ids_of(s), token) == before.held(),
        matched(after.held(), ids_of(s), other) == Seq::<TxnView>::empty(),
        unmatched(after.held(), ids_of(s), other) == after.held(),
{
    let h = before.held();
    let ids = ids_of(s);
    assert forall|i: int, j: int| 0 <= i < s.len() && 0 <= j < s.len() && i != j implies s[i].id != s[j].id by {
        if s[i].id == s[j].id {
            let ki = index_key_of(s[i]);
            let kj = index_key_of(s[j]);
            assert(before.index().contains_key(ki) && before.index().contains_key(kj));
            if i < j {
                assert(ranks_below(s[j], s[i]));
            } else {
                assert(ranks_below(s[i], s[j]));
            }
            crate::key::lemma_composite_total(crate::key::key_of(s[i]), crate::key::key_of(s[j]));
        }
    }
    lemma_commit_prefix(h, s, token, expires, s.len() as int);
    assert(ids.subrange(0, s.len() as int) =~= ids);
    assert(s.subrange(0, s.len() as int) =~= s);
    lemma_hold_all(h, s, token, expires);
    let big = after.held();
    assert forall|id: Seq<char>| ids.contains(id) <==> exists|i: int| 0 <= i < s.len() && s[i].id == id by {
        if ids.contains(id) {
            let w = choose|w: int| 0 <= w < ids.len() && ids[w] == id;
            assert(s[w].id == id);
        }
        if exists|i: int| 0 <= i < s.len() && s[i].id == id {
            let w = choose|w: int| 0 <= w < s.len() && s[w].id == id;
            assert(ids[w] == id);
        }
    }
    assert forall|i: int| 0 <= i < s.len() implies !h.contains_key(#[trigger] s[i].id) by {
        assert(before.index().contains_key(index_key_of(s[i])));
    }
    assert(unmatched(big, ids, token) =~= h);
    lemma_no_match(big, ids, other);
    assert(unmatched(big, ids, other) =~= big);
}

} // verus!
