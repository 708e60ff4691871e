//! The mathematical model of a skip-list pool: what its two indices hold,
//! and what each operation makes of them.

use vstd::prelude::*;

use crate::key::{index_key_of, ranks_below};
use crate::skiplist::{ReservedView, RESERVATION_TTL_MS};
use crate::transaction::{EntryView, ReservationToken, StatefulTxn, TxState, TxnView};

verus! {

/// The key of an ordered index, as mathematical values.
pub type KeyView = (u64, u64, Seq<char>);

/// The index keys of a sequence of transactions.
pub open spec fn keys_of(s: Seq<TxnView>) -> Set<KeyView> {
    Set::new(|k: KeyView| exists|i: int| 0 <= i < s.len() && index_key_of(s[i]) == k)
}

/// `s` holds the `n` highest-ranked entries of `before` (all of them if there
/// are fewer), in descending order, and `after` is what is left of `before`.
pub open spec fn top_taken(
    before: Map<KeyView, EntryView>,
    after: Map<KeyView, EntryView>,
    s: Seq<TxnView>,
    n: nat,
) -> bool {
    &&& s.len() == if n < before.len() { n } else { before.len() }
    &&& forall|i: int| #![trigger s[i]]
        0 <= i < s.len() ==> before.contains_key(index_key_of(s[i])) && before[index_key_of(
            s[i],
        )].txn == s[i]
    &&& forall|i: int, j: int| 0 <= i < j < s.len() ==> ranks_below(#[trigger] s[j], #[trigger] s[i])
    &&& after == before.remove_keys(keys_of(s))
    &&& forall|k: KeyView, i: int|
        after.contains_key(k) && 0 <= i < s.len() ==> ranks_below(#[trigger] after[k].txn, #[trigger] s[i])
}

/// The transactions of a sequence of entries.
pub open spec fn entry_txns(s: Seq<StatefulTxn>) -> Seq<TxnView> {
    s.map_values(|e: StatefulTxn| e.data@)
}

/// Milliseconds on the pool's clock at which a reservation made at `now` lapses.
pub open spec fn expiry(now: u64) -> u64 {
    if now + RESERVATION_TTL_MS <= u64::MAX {
        (now + RESERVATION_TTL_MS) as u64
    } else {
        u64::MAX
    }
}

/// The reservation-index entry that holds `t` under `token` until `expires`.
pub open spec fn reserved_view(t: TxnView, token: ReservationToken, expires: u64) -> ReservedView {
    ReservedView { token, entry: EntryView { txn: t, state: TxState::Reserved }, expires }
}

/// `h` after each transaction of `s`, in order, was held under `token`.
pub open spec fn hold_all(
    h: Map<Seq<char>, ReservedView>,
    s: Seq<TxnView>,
    token: ReservationToken,
    expires: u64,
) -> Map<Seq<char>, ReservedView>
    decreases s.len(),
{
    if s.len() == 0 {
        h
    } else {
        hold_all(h, s.drop_last(), token, expires).insert(
            s.last().id,
            reserved_view(s.last(), token, expires),
        )
    }
}

/// What `hold_all` holds: the ids of `s` under `token`, the rest as in `h`.
pub proof fn lemma_hold_all(
    h: Map<Seq<char>, ReservedView>,
    s: Seq<TxnView>,
    token: ReservationToken,
    expires: u64,
)
    ensures
        forall|id: Seq<char>| #[trigger]
            hold_all(h, s, token, expires).contains_key(id) <==> h.contains_key(id) || exists|i: int|
                0 <= i < s.len() && s[i].id == id,
        forall|id: Seq<char>|
            h.contains_key(id) && !(exists|i: int| 0 <= i < s.len() && s[i].id == id) ==> #[trigger] hold_all(
                h,
                s,
                token,
                expires,
            )[id] == h[id],
        forall|i: int|
            0 <= i < s.len() && (forall|j: int| 0 <= j < s.len() && j != i ==> s[j].id != s[i].id)
                ==> #[trigger] hold_all(h, s, token, expires)[s[i].id] == reserved_view(s[i], token, expires),
        forall|i: int| #![trigger s[i]]
            0 <= i < s.len() ==> hold_all(h, s, token, expires).contains_key(s[i].id)
                && hold_all(h, s, token, expires)[s[i].id].entry.txn.id == s[i].id
                && hold_all(h, s, token, expires)[s[i].id].entry.state == TxState::Reserved,
    decreases s.len(),
{
    if s.len() > 0 {
        let p = s.drop_last();
        lemma_hold_all(h, p, token, expires);
        assert forall|id: Seq<char>| #[trigger]
            hold_all(h, s, token, expires).contains_key(id) <==> h.contains_key(id) || exists|i: int|
                0 <= i < s.len() && s[i].id == id by {
            if exists|i: int| 0 <= i < p.len() && p[i].id == id {
                let i = choose|i: int| 0 <= i < p.len() && p[i].id == id;
                assert(s[i] == p[i]);
            }
            if exists|i: int| 0 <= i < s.len() && s[i].id == id {
                let i = choose|i: int| 0 <= i < s.len() && s[i].id == id;
                if i < p.len() {
                    assert(s[i] == p[i]);
                }
            }
        }
        assert forall|id: Seq<char>|
            h.contains_key(id) && !(exists|i: int| 0 <= i < s.len() && s[i].id == id) implies #[trigger] hold_all(
                h,
                s,
                token,
                expires,
            )[id] == h[id] by {
            assert forall|i: int| 0 <= i < p.len() implies p[i].id != id by {
                assert(s[i] == p[i]);
            }
            assert(s[s.len() - 1].id != id);
        }
        assert forall|i: int|
            0 <= i < s.len() && (forall|j: int| 0 <= j < s.len() && j != i ==> s[j].id != s[i].id)
                implies #[trigger] hold_all(h, s, token, expires)[s[i].id] == reserved_view(
                s[i],
                token,
                expires,
            ) by {
            if i < p.len() {
                assert(s[i] == p[i]);
                assert forall|j: int| 0 <= j < p.len() && j != i implies p[j].id != p[i].id by {
                    assert(s[j] == p[j]);
                }
                assert(s[s.len() - 1].id != s[i].id);
            }
        }
        assert forall|i: int| #![trigger s[i]]
            0 <= i < s.len() implies hold_all(h, s, token, expires).contains_key(s[i].id)
                && hold_all(h, s, token, expires)[s[i].id].entry.txn.id == s[i].id
                && hold_all(h, s, token, expires)[s[i].id].entry.state == TxState::Reserved by {
            if i < p.len() {
                assert(s[i] == p[i]);
            }
        }
    }
}

/// The ids named by a sequence of strings.
pub open spec fn id_views(ids: Seq<String>) -> Seq<Seq<char>> {
    ids.map_values(|s: String| s@)
}

/// The transactions that `h` holds under `token` for the ids of `ids`, in
/// the order of `ids`, each id counted once.
pub open spec fn matched(
    h: Map<Seq<char>, ReservedView>,
    ids: Seq<Seq<char>>,
    token: ReservationToken,
) -> Seq<TxnView>
    decreases ids.len(),
{
    if ids.len() == 0 {
        Seq::empty()
    } else {
        let prev = matched(h, ids.drop_last(), token);
        let id = ids.last();
        if h.contains_key(id) && h[id].token == token && !ids.drop_last().contains(id) {
            prev.push(h[id].entry.txn)
        } else {
            prev
        }
    }
}

/// `id` is one of `ids` and `h` holds it under `token`.
pub open spec fn is_matched(
    h: Map<Seq<char>, ReservedView>,
    ids: Seq<Seq<char>>,
    token: ReservationToken,
    id: Seq<char>,
) -> bool {
    ids.contains(id) && h.contains_key(id) && h[id].token == token
}

/// `h` without the entries that `ids` and `token` match.
pub open spec fn unmatched(
    h: Map<Seq<char>, ReservedView>,
    ids: Seq<Seq<char>>,
    token: ReservationToken,
) -> Map<Seq<char>, ReservedView> {
    h.remove_keys(Set::new(|id: Seq<char>| is_matched(h, ids, token, id)))
}

/// The ordered-index entry of an Available transaction.
pub open spec fn available(t: TxnView) -> EntryView {
    EntryView { txn: t, state: TxState::Available }
}

/// `idx` after each transaction of `s`, in order, was put back as Available.
pub open spec fn readmit(idx: Map<KeyView, EntryView>, s: Seq<TxnView>) -> Map<KeyView, EntryView>
    decreases s.len(),
{
    if s.len() == 0 {
        idx
    } else {
        readmit(idx, s.drop_last()).insert(index_key_of(s.last()), available(s.last()))
    }
}

/// Taking one more id into account.
pub(crate) proof fn lemma_match_step(
    h: Map<Seq<char>, ReservedView>,
    ids: Seq<Seq<char>>,
    token: ReservationToken,
    i: int,
)
    requires
        0 <= i < ids.len(),
    ensures
        ids.subrange(0, i + 1).drop_last() == ids.subrange(0, i),
        ids.subrange(0, i + 1).last() == ids[i],
        unmatched(h, ids.subrange(0, i + 1), token) == if is_matched(h, ids.subrange(0, i + 1), token, ids[i])
            && !is_matched(h, ids.subrange(0, i), token, ids[i]) {
            unmatched(h, ids.subrange(0, i), token).remove(ids[i])
        } else {
            unmatched(h, ids.subrange(0, i), token)
        },
        is_matched(h, ids.subrange(0, i), token, ids[i]) <==> ids.subrange(0, i).contains(ids[i])
            && h.contains_key(ids[i]) && h[ids[i]].token == token,
{
    let p = ids.subrange(0, i);
    let q = ids.subrange(0, i + 1);
    assert(q.drop_last() =~= p);
    assert(q[i] == ids[i]);
    assert forall|id: Seq<char>| q.contains(id) <==> p.contains(id) || id == ids[i] by {
        if q.contains(id) {
            let w = choose|w: int| 0 <= w < q.len() && q[w] == id;
            if w < i {
                assert(p[w] == id);
            }
        }
        if p.contains(id) {
            let w = choose|w: int| 0 <= w < p.len() && p[w] == id;
            assert(q[w] == id);
        }
    }
    assert(unmatched(h, q, token) =~= if is_matched(h, q, token, ids[i]) && !is_matched(h, p, token, ids[i]) {
        unmatched(h, p, token).remove(ids[i])
    } else {
        unmatched(h, p, token)
    });
}

/// The ids of a sequence of transactions.
pub open spec fn ids_of(s: Seq<TxnView>) -> Seq<Seq<char>> {
    s.map_values(|t: TxnView| t.id)
}

/// `after` keeps the `c` highest-ranked entries of `before` (all of them if
/// there are no more than `c`) and drops the rest.
pub open spec fn bottom_evicted(before: Map<KeyView, EntryView>, after: Map<KeyView, EntryView>, c: nat) -> bool {
    &&& after.len() == if c < before.len() { c } else { before.len() }
    &&& after.dom().finite()
    &&& forall|k: KeyView| #[trigger] after.contains_key(k) ==> before.contains_key(k) && after[k] == before[k]
    &&& forall|k: KeyView, d: KeyView|
        after.contains_key(k) && #[trigger] before.contains_key(d) && !after.contains_key(d) ==> ranks_below(
            before[d].txn,
            #[trigger] after[k].txn,
        )
}

/// Committing the ids of a fresh reservation under its own token hands back
/// exactly its transactions, in order, and leaves the reservation index as it
/// was before the reservation.
pub(crate) proof fn lemma_commit_prefix(
    h: Map<Seq<char>, ReservedView>,
    s: Seq<TxnView>,
    token: ReservationToken,
    expires: u64,
    k: int,
)
    requires
        0 <= k <= s.len(),
        forall|i: int, j: int| 0 <= i < s.len() && 0 <= j < s.len() && i != j ==> s[i].id != s[j].id,
    ensures
        matched(hold_all(h, s, token, expires), ids_of(s).subrange(0, k), token) == s.subrange(0, k),
    decreases k,
{
    lemma_hold_all(h, s, token, expires);
    let big = hold_all(h, s, token, expires);
    let ids = ids_of(s);
    if k > 0 {
        lemma_commit_prefix(h, s, token, expires, k - 1);
        let q = ids.subrange(0, k);
        assert(q.drop_last() =~= ids.subrange(0, k - 1));
        assert(q.last() == s[k - 1].id);
        assert(big[s[k - 1].id] == reserved_view(s[k - 1], token, expires));
        assert(!ids.subrange(0, k - 1).contains(s[k - 1].id)) by {
            if ids.subrange(0, k - 1).contains(s[k - 1].id) {
                let w = choose|w: int| 0 <= w < k - 1 && #[trigger] ids.subrange(0, k - 1)[w] == s[k - 1].id;
                assert(s[w].id == s[k - 1].id);
            }
        }
        assert(s.subrange(0, k) =~= s.subrange(0, k - 1).push(s[k - 1]));
    } else {
        assert(s.subrange(0, 0) =~= Seq::<TxnView>::empty());
    }
}

/// No id of `ids` is held under `other`: nothing matches.
pub(crate) proof fn lemma_no_match(h: Map<Seq<char>, ReservedView>, ids: Seq<Seq<char>>, other: ReservationToken)
    requires
        forall|i: int| 0 <= i < ids.len() && h.contains_key(#[trigger] ids[i]) ==> h[ids[i]].token != other,
    ensures
        matched(h, ids, other) == Seq::<TxnView>::empty(),
    decreases ids.len(),
{
    if ids.len() > 0 {
        let p = ids.drop_last();
        assert forall|i: int| 0 <= i < p.len() && h.contains_key(#[trigger] p[i]) implies h[p[i]].token != other by {
            assert(p[i] == ids[i]);
        }
        lemma_no_match(h, p, other);
        assert(ids.last() == ids[ids.len() - 1]);
    }
}

/// `h` holds an entry for `id` whose reservation has lapsed at `now`.
pub open spec fn lapsed(h: Map<Seq<char>, ReservedView>, now: u64, id: Seq<char>) -> bool {
    h.contains_key(id) && h[id].expires <= now
}

/// The key `k` belongs to an entry of `h` whose reservation has lapsed at `now`.
pub open spec fn returns_at(h: Map<Seq<char>, ReservedView>, now: u64, k: KeyView) -> bool {
    lapsed(h, now, k.2) && index_key_of(h[k.2].entry.txn) == k
}

/// The reservation index after a sweep at `now`: the lapsed entries are gone.
pub open spec fn swept_held(h: Map<Seq<char>, ReservedView>, now: u64) -> Map<Seq<char>, ReservedView> {
    h.remove_keys(Set::new(|id: Seq<char>| lapsed(h, now, id)))
}

/// The ordered index after a sweep at `now`: the lapsed entries of `h` are
/// back, Available.
pub open spec fn swept_index(
    idx: Map<KeyView, EntryView>,
    h: Map<Seq<char>, ReservedView>,
    now: u64,
) -> Map<KeyView, EntryView> {
    Map::new(
        |k: KeyView| idx.contains_key(k) || returns_at(h, now, k),
        |k: KeyView|
            if returns_at(h, now, k) {
                available(h[k.2].entry.txn)
            } else {
                idx[k]
            },
    )
}

/// The ordered index `after` is `before` once `t` was admitted under the
/// capacity bound `capacity`.
pub open spec fn admitted(
    before: Map<KeyView, EntryView>,
    after: Map<KeyView, EntryView>,
    capacity: Option<usize>,
    t: TxnView,
) -> bool {
    match capacity {
        None => after == before.insert(index_key_of(t), available(t)),
        Some(c) => bottom_evicted(before.insert(index_key_of(t), available(t)), after, c as nat),
    }
}

} // verus!
