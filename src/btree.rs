use vstd::prelude::*;

use crate::key::{key_of, lemma_composite_total, lemma_ranks_below_chain, ranks_below};
use crate::ordered_vec::{
    insert_position, internal_views, take_from_back, taken_from_back,
};
use crate::transaction::{txn_views, InternalTransaction, Transaction, TxnView};

verus! {

/// `s` is in strictly ascending composite order: one entry per key.
pub open spec fn strictly_ascending(s: Seq<TxnView>) -> bool {
    forall|i: int, j: int| 0 <= i < j < s.len() ==> ranks_below(#[trigger] s[i], #[trigger] s[j])
}

/// The ordered-tree pool: one entry per composite key, kept in key order.
/// Inserting a transaction whose key is already there replaces that entry.
pub struct BTreeMemPool {
    data: Vec<InternalTransaction>,
}

impl BTreeMemPool {
    /// The entries, lowest-ranked first.
    pub closed spec fn entries(&self) -> Seq<TxnView> {
        internal_views(self.data@)
    }

    /// The pool's invariant: entries in strictly ascending order.
    pub open spec fn wf(&self) -> bool {
        strictly_ascending(self.entries())
    }

    /// An empty pool.
    pub fn new() -> (r: BTreeMemPool)
        ensures
            r.wf(),
            r.entries() == Seq::<TxnView>::empty(),
    {
        let r = BTreeMemPool { data: Vec::new() };
        proof {
            assert(r.entries() =~= Seq::<TxnView>::empty());
        }
        r
    }

    /// Admits `tx`, replacing the entry with the same composite key if there
    /// is one.
    pub fn insert(&mut self, tx: Transaction)
        requires
            old(self).wf(),
        ensures
            final(self).wf(),
            forall|x: TxnView|
                #[trigger] final(self).entries().contains(x) <==> x == tx@ || (old(self).entries().contains(x)
                    && key_of(x) != key_of(tx@)),
    {
        let it = InternalTransaction::from(tx);
        let ghost s = self.entries();
        let ghost t = it@;
        proof {
            assert forall|i: int, j: int| 0 <= i < j < s.len() implies !ranks_below(#[trigger] s[j], #[trigger] s[i]) by {
                lemma_composite_total(key_of(s[i]), key_of(s[j]));
            }
        }
        let p = insert_position(&self.data, &it);
        proof {
            assert forall|i: int| 0 <= i < s.len() implies #[trigger] s[i] == self.data@[i]@ by {}
        }
        if p < self.data.len() && self.data[p].gas_price == it.gas_price && self.data[p].timestamp
            == it.timestamp && self.data[p].id == it.id {
            self.data.set(p, it);
            proof {
                let f = self.entries();
                assert(f =~= s.update(p as int, t));
                assert(key_of(s[p as int]) == key_of(t));
                assert forall|i: int, j: int| 0 <= i < j < f.len() implies ranks_below(#[trigger] f[i], #[trigger] f[j]) by {
                    assert(ranks_below(s[i], s[j]));
                }
                assert forall|x: TxnView| #[trigger] f.contains(x) <==> x == t || (s.contains(x) && key_of(x) != key_of(t)) by {
                    if f.contains(x) {
                        let w = choose|w: int| 0 <= w < f.len() && f[w] == x;
                        if w != p {
                            assert(s[w] == x);
                            if key_of(x) == key_of(t) {
                                if w < p {
                                    assert(ranks_below(s[w], s[p as int]));
                                } else {
                                    assert(ranks_below(s[p as int], s[w]));
                                }
                                lemma_composite_total(key_of(x), key_of(x));
                            }
                        }
                    }
                    if x == t {
                        assert(f[p as int] == x);
                    } else if s.contains(x) && key_of(x) != key_of(t) {
                        let w = choose|w: int| 0 <= w < s.len() && s[w] == x;
                        assert(w != p);
                        assert(f[w] == x);
                    }
                }
            }
        } else {
            self.data.insert(p, it);
            proof {
                let f = self.entries();
                assert(f =~= s.insert(p as int, t));
                if p < s.len() {
                    assert(key_of(s[p as int]) != key_of(t));
                    lemma_composite_total(key_of(s[p as int]), key_of(t));
                    assert(ranks_below(t, s[p as int]));
                }
                assert forall|i: int, j: int| 0 <= i < j < f.len() implies ranks_below(#[trigger] f[i], #[trigger] f[j]) by {
                    if j < p {
                        assert(ranks_below(s[i], s[j]));
                    } else if j == p {
                        assert(f[i] == s[i]);
                    } else if i > p {
                        assert(ranks_below(s[i - 1], s[j - 1]));
                    } else if i == p {
                        if j - 1 > p {
                            assert(ranks_below(s[p as int], s[j - 1]));
                            lemma_ranks_below_chain(t, s[p as int], s[j - 1]);
                        }
                    } else {
                        assert(ranks_below(s[i], t));
                        if j - 1 > p {
                            assert(ranks_below(s[p as int], s[j - 1]));
                            lemma_ranks_below_chain(t, s[p as int], s[j - 1]);
                        }
                        lemma_ranks_below_chain(s[i], t, s[j - 1]);
                    }
                }
                assert forall|x: TxnView| #[trigger] f.contains(x) <==> x == t || (s.contains(x) && key_of(x) != key_of(t)) by {
                    if f.contains(x) {
                        let w = choose|w: int| 0 <= w < f.len() && f[w] == x;
                        if w < p {
                            assert(s[w] == x);
                            assert(ranks_below(x, t));
                            lemma_composite_total(key_of(x), key_of(t));
                        } else if w > p {
                            assert(s[w - 1] == x);
                            if w - 1 > p {
                                assert(ranks_below(s[p as int], s[w - 1]));
                                lemma_ranks_below_chain(t, s[p as int], s[w - 1]);
                            }
                            assert(ranks_below(t, x));
                            lemma_composite_total(key_of(x), key_of(t));
                        }
                    }
                    if x == t {
                        assert(f[p as int] == x);
                    } else if s.contains(x) && key_of(x) != key_of(t) {
                        let w = choose|w: int| 0 <= w < s.len() && s[w] == x;
                        if w < p {
                            assert(f[w] == x);
                        } else {
                            assert(f[w + 1] == x);
                        }
                    }
                }
            }
        }
    }

    /// Takes the `n` highest-ranked entries out of the pool (all of them if
    /// there are fewer) and hands them back in descending order.
    pub fn drain(&mut self, n: usize) -> (r: Vec<Transaction>)
        requires
            old(self).wf(),
        ensures
            final(self).wf(),
            taken_from_back(old(self).entries(), final(self).entries(), txn_views(r@), n as nat),
            forall|i: int, j: int|
                0 <= i < j < r@.len() ==> ranks_below(#[trigger] r@[j]@, #[trigger] r@[i]@),
            forall|i: int, j: int|
                0 <= i < r@.len() && 0 <= j < final(self).entries().len() ==> ranks_below(
                    #[trigger] final(self).entries()[j],
                    #[trigger] r@[i]@,
                ),
    {
        let ghost s = self.entries();
        let r = take_from_back(&mut self.data, n);
        proof {
            let v = txn_views(r@);
            let f = self.entries();
            assert forall|i: int, j: int| 0 <= i < j < r@.len() implies ranks_below(#[trigger] r@[j]@, #[trigger] r@[i]@) by {
                assert(v[i] == r@[i]@ && v[j] == r@[j]@);
                assert(v[i] == s[s.len() - 1 - i] && v[j] == s[s.len() - 1 - j]);
            }
            assert forall|i: int, j: int| 0 <= i < r@.len() && 0 <= j < f.len() implies ranks_below(
                #[trigger] f[j],
                #[trigger] r@[i]@,
            ) by {
                assert(v[i] == r@[i]@);
                assert(v[i] == s[s.len() - 1 - i]);
                assert(f[j] == s[j]);
            }
        }
        r
    }
}

impl Default for BTreeMemPool {
    fn default() -> (r: BTreeMemPool)
        ensures
            r.wf(),
            r.entries() == Seq::<TxnView>::empty(),
    {
        BTreeMemPool::new()
    }
}

} // verus!
