use vstd::prelude::*;

use crate::key::{key_of, lemma_composite_total, lemma_ranks_below_chain, ranks_below, ranks_below_exec};
use crate::ordered_vec::internal_views;
use crate::transaction::{txn_views, InternalTransaction, Transaction, TxnView};

verus! {

broadcast use vstd::seq_lib::group_to_multiset_ensures;

/// The position of the parent of position `i > 0` in a heap.
pub open spec fn parent(i: int) -> int {
    (i - 1) / 2
}

/// `s` is a max-heap: no entry ranks above its parent.
pub open spec fn heap_ordered(s: Seq<TxnView>) -> bool {
    forall|i: int| 0 < i < s.len() ==> !ranks_below(s[parent(i)], #[trigger] s[i])
}

/// A max-heap in which the entry at `i` may still rank above its parent, but
/// not above its grandparent's place.
pub open spec fn heap_ordered_except_up(s: Seq<TxnView>, i: int) -> bool {
    &&& forall|j: int| 0 < j < s.len() && j != i ==> !ranks_below(s[parent(j)], #[trigger] s[j])
    &&& forall|j: int|
        0 < j < s.len() && parent(j) == i && i > 0 ==> !ranks_below(s[parent(i)], #[trigger] s[j])
}

/// A max-heap in which the children of `i` may still rank above it, but not
/// above its parent.
pub open spec fn heap_ordered_except_down(s: Seq<TxnView>, i: int) -> bool {
    &&& forall|j: int| 0 < j < s.len() && parent(j) != i ==> !ranks_below(s[parent(j)], #[trigger] s[j])
    &&& forall|j: int|
        0 < j < s.len() && parent(j) == i && i > 0 ==> !ranks_below(s[parent(i)], #[trigger] s[j])
}

/// `r` holds the `n` highest-ranked entries of `before` (all of them if there
/// are fewer), from the highest down, and `after` holds the rest.
pub open spec fn highest_taken(before: Seq<TxnView>, after: Seq<TxnView>, r: Seq<TxnView>, n: nat) -> bool {
    &&& r.len() == if n < before.len() { n } else { before.len() }
    &&& before.to_multiset() == after.to_multiset().add(r.to_multiset())
    &&& forall|i: int, j: int| 0 <= i < j < r.len() ==> !ranks_below(#[trigger] r[i], #[trigger] r[j])
    &&& forall|x: TxnView, i: int| #![trigger after.contains(x), r[i]]
        after.contains(x) && 0 <= i < r.len() ==> !ranks_below(r[i], x)
}

/// The root of a max-heap ranks at least as high as every entry.
pub proof fn lemma_root_is_max(s: Seq<TxnView>, j: int)
    requires
        heap_ordered(s),
        0 <= j < s.len(),
    ensures
        !ranks_below(s[0], s[j]),
    decreases j,
{
    if j == 0 {
        lemma_composite_total(key_of(s[0]), key_of(s[0]));
    } else {
        lemma_root_is_max(s, parent(j));
        lemma_ranks_below_chain(s[j], s[parent(j)], s[0]);
    }
}

/// Relies on `slice::swap`: the entries at `i` and `j` trade places.
#[verifier::external_body]
fn swap_entries(v: &mut Vec<InternalTransaction>, i: usize, j: usize)
    requires
        i < old(v)@.len(),
        j < old(v)@.len(),
    ensures
        final(v)@ == old(v)@.update(i as int, old(v)@[j as int]).update(j as int, old(v)@[i as int]),
{
    v.swap(i, j);
}

/// Swapping two entries keeps the multiset of views.
proof fn lemma_swap_views(v: Seq<InternalTransaction>, w: Seq<InternalTransaction>, i: int, j: int)
    requires
        0 <= i < v.len(),
        0 <= j < v.len(),
        w == v.update(i, v[j]).update(j, v[i]),
    ensures
        internal_views(w) == internal_views(v).update(i, internal_views(v)[j]).update(j, internal_views(v)[i]),
        internal_views(w).to_multiset() == internal_views(v).to_multiset(),
{
    let s = internal_views(v);
    let t = internal_views(w);
    assert(t =~= s.update(i, s[j]).update(j, s[i]));
    let u = s.update(i, s[j]);
    assert(u.to_multiset() == s.to_multiset().insert(s[j]).remove(s[i]));
    assert(t.to_multiset() == u.to_multiset().insert(s[i]).remove(u[j]));
    if i == j {
        assert(t =~= s);
    } else {
        assert(u[j] == s[j]);
        assert(t.to_multiset() =~= s.to_multiset());
    }
}

/// The priority-queue pool: every admitted transaction is kept, entries of
/// equal rank side by side, in a max-heap on the composite order.
///
/// Its owner runs it behind a command queue: each `insert` and `drain`
/// arrives as a command and is applied in arrival order.
pub struct BHeapMemPool {
    heap: Vec<InternalTransaction>,
}

impl BHeapMemPool {
    /// The entries, in heap layout.
    pub closed spec fn entries(&self) -> Seq<TxnView> {
        internal_views(self.heap@)
    }

    /// The pool's invariant: the entries form a max-heap.
    pub open spec fn wf(&self) -> bool {
        heap_ordered(self.entries())
    }

    /// An empty pool.
    pub fn new() -> (r: BHeapMemPool)
        ensures
            r.wf(),
            r.entries() == Seq::<TxnView>::empty(),
    {
        let r = BHeapMemPool { heap: Vec::new() };
        proof {
            assert(r.entries() =~= Seq::<TxnView>::empty());
        }
        r
    }

    /// Moves the entry at `i` up until it ranks no higher than its parent.
    fn sift_up(&mut self, i: usize)
        requires
            i < old(self).heap@.len(),
            heap_ordered_except_up(old(self).entries(), i as int),
        ensures
            final(self).wf(),
            final(self).entries().to_multiset() == old(self).entries().to_multiset(),
            final(self).heap@.len() == old(self).heap@.len(),
    {
        let mut i = i;
        while i > 0 && ranks_below_exec(&self.heap[(i - 1) / 2], &self.heap[i])
            invariant
                i < self.heap@.len(),
                self.heap@.len() == old(self).heap@.len(),
                heap_ordered_except_up(self.entries(), i as int),
                self.entries().to_multiset() == old(self).entries().to_multiset(),
            decreases i,
        {
            let p = (i - 1) / 2;
            let ghost s = self.entries();
            let ghost v = self.heap@;
            proof {
                assert(s[i as int] == self.heap@[i as int]@ && s[p as int] == self.heap@[p as int]@);
            }
            swap_entries(&mut self.heap, p, i);
            proof {
                lemma_swap_views(v, self.heap@, p as int, i as int);
                let t = self.entries();
                assert(ranks_below(s[p as int], s[i as int]));
                lemma_composite_total(key_of(s[p as int]), key_of(s[i as int]));
                assert forall|j: int| 0 < j < t.len() && j != p implies !ranks_below(t[parent(j)], #[trigger] t[j]) by {
                    if j == i {
                    } else if parent(j) == i {
                        assert(!ranks_below(s[p as int], s[j]));
                    } else if parent(j) == p {
                        assert(!ranks_below(s[p as int], s[j]));
                        lemma_ranks_below_chain(s[j], s[p as int], s[i as int]);
                    } else if j == p {
                    } else {
                        assert(!ranks_below(s[parent(j)], s[j]));
                    }
                }
                assert forall|j: int| 0 < j < t.len() && parent(j) == p && p > 0 implies !ranks_below(
                    t[parent(p as int)],
                    #[trigger] t[j],
                ) by {
                    assert(!ranks_below(s[parent(p as int)], s[p as int]));
                    if j != i {
                        assert(!ranks_below(s[p as int], s[j]));
                        lemma_ranks_below_chain(s[j], s[p as int], s[parent(p as int)]);
                    }
                }
            }
            i = p;
        }
        proof {
            let s = self.entries();
            if i > 0 {
                assert(s[i as int] == self.heap@[i as int]@);
                assert(s[parent(i as int)] == self.heap@[(i - 1) / 2]@);
            }
        }
    }

    /// Moves the entry at `i` down until no child ranks above it.
    fn sift_down(&mut self, i: usize)
        requires
            i < old(self).heap@.len(),
            heap_ordered_except_down(old(self).entries(), i as int),
        ensures
            final(self).wf(),
            final(self).entries().to_multiset() == old(self).entries().to_multiset(),
            final(self).heap@.len() == old(self).heap@.len(),
    {
        let mut i = i;
        let len = self.heap.len();
        loop
            invariant
                len == self.heap@.len(),
                self.heap@.len() == old(self).heap@.len(),
                i < len,
                heap_ordered_except_down(self.entries(), i as int),
                self.entries().to_multiset() == old(self).entries().to_multiset(),
            ensures
                self.wf(),
                self.entries().to_multiset() == old(self).entries().to_multiset(),
                self.heap@.len() == old(self).heap@.len(),
            decreases len - i,
        {
            let ghost s = self.entries();
            proof {
                assert forall|j: int| 0 <= j < len implies #[trigger] s[j] == self.heap@[j]@ by {}
            }
            let mut top = i;
            if i < len / 2 {
                let l = 2 * i + 1;
                if ranks_below_exec(&self.heap[top], &self.heap[l]) {
                    top = l;
                }
                let ghost first = top;
                if l + 1 < len && ranks_below_exec(&self.heap[top], &self.heap[l + 1]) {
                    top = l + 1;
                }
                proof {
                    let r = l + 1;
                    if top == r && first == l {
                        lemma_ranks_below_chain(s[i as int], s[l as int], s[r as int]);
                    }
                    if top == l && r < len {
                        lemma_composite_total(key_of(s[l as int]), key_of(s[r as int]));
                    }
                    if top == r && first == i {
                        lemma_composite_total(key_of(s[i as int]), key_of(s[l as int]));
                        lemma_ranks_below_chain(s[l as int], s[i as int], s[r as int]);
                        lemma_composite_total(key_of(s[l as int]), key_of(s[r as int]));
                    }
                    if top == r && first == l {
                        lemma_composite_total(key_of(s[l as int]), key_of(s[r as int]));
                    }
                }
            }
            if top == i {
                proof {
                    assert forall|j: int| 0 < j < s.len() implies !ranks_below(s[parent(j)], #[trigger] s[j]) by {
                        if parent(j) == i {
                            assert(j == 2 * i + 1 || j == 2 * i + 2);
                        }
                    }
                }
                break;
            }
            let ghost v = self.heap@;
            proof {
                let l = 2 * i + 1;
                let r = 2 * i + 2;
                assert(top == l || top == r);
                assert(ranks_below(s[i as int], s[top as int]));
                if r < len && top == l {
                    assert(!ranks_below(s[l], s[r]));
                }
                if top == r {
                    assert(!ranks_below(s[r], s[l]));
                }
            }
            swap_entries(&mut self.heap, i, top);
            proof {
                lemma_swap_views(v, self.heap@, i as int, top as int);
                let t = self.entries();
                let m = top as int;
                let l = 2 * i + 1;
                let r = 2 * i + 2;
                let o = if m == l { r } else { l };
                lemma_composite_total(key_of(s[i as int]), key_of(s[m]));
                assert forall|j: int| 0 < j < t.len() && parent(j) != m implies !ranks_below(t[parent(j)], #[trigger] t[j]) by {
                    if j == m {
                    } else if j == o {
                        assert(parent(o) == i);
                    } else if j == i {
                        assert(!ranks_below(s[parent(i as int)], s[m]));
                    } else {
                        assert(parent(j) != i);
                        assert(!ranks_below(s[parent(j)], s[j]));
                    }
                }
                assert forall|j: int| 0 < j < t.len() && parent(j) == m && m > 0 implies !ranks_below(
                    t[parent(m)],
                    #[trigger] t[j],
                ) by {
                    assert(parent(m) == i);
                    assert(!ranks_below(s[m], s[j]));
                }
            }
            i = top;
        }
    }

    /// Admits `tx`; an equal entry already there stays too.
    pub fn insert(&mut self, tx: Transaction)
        requires
            old(self).wf(),
        ensures
            final(self).wf(),
            final(self).entries().to_multiset() == old(self).entries().to_multiset().insert(tx@),
    {
        let it = InternalTransaction::from(tx);
        let ghost s = self.entries();
        self.heap.push(it);
        let last = self.heap.len() - 1;
        proof {
            let t = self.entries();
            assert(t =~= s.push(tx@));
            assert forall|j: int| 0 < j < t.len() && j != last implies !ranks_below(t[parent(j)], #[trigger] t[j]) by {
                assert(t[j] == s[j] && t[parent(j)] == s[parent(j)]);
            }
        }
        self.sift_up(last);
    }

    /// Takes the `n` highest-ranked entries out of the pool (all of them if
    /// there are fewer) and hands them back from the highest down.
    pub fn drain(&mut self, n: usize) -> (r: Vec<Transaction>)
        requires
            old(self).wf(),
        ensures
            final(self).wf(),
            highest_taken(old(self).entries(), final(self).entries(), txn_views(r@), n as nat),
    {
        let ghost before = self.entries();
        let mut out: Vec<Transaction> = Vec::new();
        let mut k: usize = 0;
        proof {
            assert(txn_views(out@) =~= Seq::<TxnView>::empty());
            assert(before.to_multiset() =~= before.to_multiset().add(Seq::<TxnView>::empty().to_multiset()));
        }
        while k < n
            invariant
                self.wf(),
                before == old(self).entries(),
                k == out@.len(),
                k <= n,
                before.len() == self.entries().len() + k,
                before.to_multiset() == self.entries().to_multiset().add(txn_views(out@).to_multiset()),
                forall|i: int, j: int|
                    0 <= i < j < out@.len() ==> !ranks_below(#[trigger] txn_views(out@)[i], #[trigger] txn_views(out@)[j]),
                forall|x: TxnView, i: int| #![trigger self.entries().contains(x), txn_views(out@)[i]]
                    self.entries().contains(x) && 0 <= i < out@.len() ==> !ranks_below(txn_views(out@)[i], x),
            ensures
                k == n || self.entries().len() == 0,
            decreases n - k,
        {
            if self.heap.len() == 0 {
                break;
            }
            let ghost s = self.entries();
            let ghost v = self.heap@;
            let ghost prev = txn_views(out@);
            let last = self.heap.len() - 1;
            swap_entries(&mut self.heap, 0, last);
            proof {
                lemma_swap_views(v, self.heap@, 0, last as int);
            }
            let ghost w = self.entries();
            let top = self.heap.pop().unwrap();
            proof {
                let t = self.entries();
                assert(self.heap@ =~= v.update(0, v[last as int]).update(last as int, v[0]).drop_last());
                assert(top@ == s[0]);
                assert(t =~= w.drop_last());
                assert(w =~= t.push(top@));
                assert(forall|j: int| 0 <= j < s.len() ==> !ranks_below(s[0], #[trigger] s[j])) by {
                    assert forall|j: int| 0 <= j < s.len() implies !ranks_below(s[0], #[trigger] s[j]) by {
                        lemma_root_is_max(s, j);
                    }
                }
                assert forall|j: int| 0 < j < t.len() && parent(j) != 0 implies !ranks_below(t[parent(j)], #[trigger] t[j]) by {
                    assert(t[j] == s[j] && t[parent(j)] == s[parent(j)]);
                }
            }
            if self.heap.len() > 0 {
                self.sift_down(0);
            }
            out.push(top.to_transaction());
            proof {
                let f = self.entries();
                let o = txn_views(out@);
                assert(o =~= prev.push(top@));
                assert(w.to_multiset() == s.to_multiset());
                assert forall|x: TxnView| f.contains(x) implies s.contains(x) && !ranks_below(top@, x) by {
                    assert(f.to_multiset().count(x) > 0);
                    let t = w.drop_last();
                    assert(t.to_multiset().count(x) > 0);
                    assert(t.contains(x));
                    let j = choose|j: int| 0 <= j < t.len() && t[j] == x;
                    assert(w[j] == x);
                    assert(w.contains(x));
                    assert(w.to_multiset().count(x) > 0);
                    assert(s.contains(x));
                    let q = choose|q: int| 0 <= q < s.len() && s[q] == x;
                    lemma_root_is_max(s, q);
                }
                assert forall|i: int, j: int| 0 <= i < j < out@.len() implies !ranks_below(#[trigger] o[i], #[trigger] o[j]) by {
                    if j == out@.len() - 1 {
                        assert(o[j] == top@);
                        assert(s.contains(top@)) by {
                            assert(s[0] == top@);
                        }
                        assert(o[i] == prev[i]);
                    } else {
                        assert(o[i] == prev[i] && o[j] == prev[j]);
                    }
                }
                assert forall|x: TxnView, i: int| #![trigger f.contains(x), o[i]]
                    f.contains(x) && 0 <= i < out@.len() implies !ranks_below(o[i], x) by {
                    if i < out@.len() - 1 {
                        assert(o[i] == prev[i]);
                    }
                }
                assert(before.to_multiset() =~= f.to_multiset().add(o.to_multiset()));
            }
            k = k + 1;
        }
        proof {
            let f = self.entries();
            assert(txn_views(out@).len() == k);
        }
        out
    }
}

impl Default for BHeapMemPool {
    fn default() -> (r: BHeapMemPool)
        ensures
            r.wf(),
            r.entries() == Seq::<TxnView>::empty(),
    {
        BHeapMemPool::new()
    }
}

} // verus!
