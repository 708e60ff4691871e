use std::cmp::Ordering;
use vstd::prelude::*;
use vstd::utf8::encode_utf8;

use crate::transaction::{InternalTransaction, TxnView};

verus! {

/// Strict lexicographic order on byte strings: a proper prefix comes first.
pub open spec fn bytes_lt(a: Seq<u8>, b: Seq<u8>) -> bool
    decreases a.len(),
{
    if b.len() == 0 {
        false
    } else if a.len() == 0 {
        true
    } else if a[0] != b[0] {
        a[0] < b[0]
    } else {
        bytes_lt(a.drop_first(), b.drop_first())
    }
}

/// Strict order on ids: lexicographic on their UTF-8 bytes, as `str` orders.
pub open spec fn id_lt(a: Seq<char>, b: Seq<char>) -> bool {
    bytes_lt(encode_utf8(a), encode_utf8(b))
}

/// The composite order on `(gas_price, timestamp, id)`: a higher gas price
/// ranks higher; on equal gas price the earlier timestamp ranks higher; on
/// equal both the greater id ranks higher. `composite_lt(a, b)` holds when
/// `a` ranks strictly below `b`.
pub open spec fn composite_lt(a: (u64, u64, Seq<char>), b: (u64, u64, Seq<char>)) -> bool {
    a.0 < b.0 || (a.0 == b.0 && (a.1 > b.1 || (a.1 == b.1 && id_lt(a.2, b.2))))
}

/// The composite key of a transaction.
pub open spec fn key_of(t: TxnView) -> (u64, u64, Seq<char>) {
    (t.gas_price, t.timestamp, t.id)
}

/// `a` ranks strictly below `b` in the composite order.
pub open spec fn ranks_below(a: TxnView, b: TxnView) -> bool {
    composite_lt(key_of(a), key_of(b))
}

/// The key under which the ordered indices store a transaction: a tuple whose
/// lexicographic order (numbers by value, the id by its bytes) is the
/// composite order. The timestamp is stored inverted so that earlier ranks
/// higher.
pub type IndexKey = (u64, u64, String);

pub open spec fn index_key_of(t: TxnView) -> (u64, u64, Seq<char>) {
    (t.gas_price, (u64::MAX - t.timestamp) as u64, t.id)
}

/// The lexicographic order of `IndexKey` tuples, as mathematical values.
pub open spec fn index_key_lt(a: (u64, u64, Seq<char>), b: (u64, u64, Seq<char>)) -> bool {
    a.0 < b.0 || (a.0 == b.0 && (a.1 < b.1 || (a.1 == b.1 && id_lt(a.2, b.2))))
}

pub open spec fn index_key_view(k: IndexKey) -> (u64, u64, Seq<char>) {
    (k.0, k.1, k.2@)
}

/// Two byte strings that differ are ordered one way or the other.
pub proof fn lemma_bytes_lt_total(a: Seq<u8>, b: Seq<u8>)
    ensures
        a == b || bytes_lt(a, b) || bytes_lt(b, a),
        !(bytes_lt(a, b) && bytes_lt(b, a)),
        !bytes_lt(a, a),
    decreases a.len(),
{
    if a.len() > 0 && b.len() > 0 && a[0] == b[0] {
        lemma_bytes_lt_total(a.drop_first(), b.drop_first());
        if a.drop_first() == b.drop_first() {
            assert(a =~= seq![a[0]] + a.drop_first());
            assert(b =~= seq![b[0]] + b.drop_first());
        }
    }
    if a.len() > 0 {
        lemma_bytes_lt_total(a.drop_first(), a.drop_first());
    }
}

/// Ids are ordered totally: equal ids are the only ones that neither precedes.
pub proof fn lemma_id_lt_total(a: Seq<char>, b: Seq<char>)
    ensures
        a == b || id_lt(a, b) || id_lt(b, a),
        !(id_lt(a, b) && id_lt(b, a)),
        !id_lt(a, a),
{
    lemma_bytes_lt_total(encode_utf8(a), encode_utf8(b));
    if encode_utf8(a) == encode_utf8(b) {
        vstd::utf8::encode_utf8_decode_utf8(a);
        vstd::utf8::encode_utf8_decode_utf8(b);
    }
}

/// The order of index keys is the composite order of the transactions.
pub proof fn lemma_index_key_order(a: TxnView, b: TxnView)
    ensures
        index_key_lt(index_key_of(a), index_key_of(b)) == ranks_below(a, b),
{
}

/// The composite order is total and strict.
pub proof fn lemma_composite_total(a: (u64, u64, Seq<char>), b: (u64, u64, Seq<char>))
    ensures
        a == b || composite_lt(a, b) || composite_lt(b, a),
        !(composite_lt(a, b) && composite_lt(b, a)),
        !composite_lt(a, a),
{
    lemma_id_lt_total(a.2, b.2);
}

/// The byte order is transitive.
pub proof fn lemma_bytes_lt_trans(a: Seq<u8>, b: Seq<u8>, c: Seq<u8>)
    requires
        bytes_lt(a, b),
        bytes_lt(b, c),
    ensures
        bytes_lt(a, c),
    decreases a.len(),
{
    if a.len() > 0 && b.len() > 0 && c.len() > 0 && a[0] == b[0] && b[0] == c[0] {
        lemma_bytes_lt_trans(a.drop_first(), b.drop_first(), c.drop_first());
    }
}

/// The composite order is transitive.
pub proof fn lemma_composite_trans(a: (u64, u64, Seq<char>), b: (u64, u64, Seq<char>), c: (u64, u64, Seq<char>))
    requires
        composite_lt(a, b),
        composite_lt(b, c),
    ensures
        composite_lt(a, c),
{
    if a.0 == b.0 && b.0 == c.0 && a.1 == b.1 && b.1 == c.1 {
        lemma_bytes_lt_trans(encode_utf8(a.2), encode_utf8(b.2), encode_utf8(c.2));
    }
}

/// Ranking at most as high, then strictly below, is strictly below.
pub proof fn lemma_ranks_below_chain(a: TxnView, b: TxnView, c: TxnView)
    ensures
        !ranks_below(b, a) && ranks_below(b, c) ==> ranks_below(a, c),
        ranks_below(a, b) && !ranks_below(c, b) ==> ranks_below(a, c),
        !ranks_below(b, a) && !ranks_below(c, b) ==> !ranks_below(c, a),
        ranks_below(a, b) && ranks_below(b, c) ==> ranks_below(a, c),
{
    lemma_composite_total(key_of(a), key_of(b));
    lemma_composite_total(key_of(b), key_of(c));
    lemma_composite_total(key_of(a), key_of(c));
    if ranks_below(a, b) && ranks_below(b, c) {
        lemma_composite_trans(key_of(a), key_of(b), key_of(c));
    }
    if ranks_below(c, b) && ranks_below(b, a) {
        lemma_composite_trans(key_of(c), key_of(b), key_of(a));
    }
}

/// Whether `a` ranks strictly below `b`, computed.
pub fn ranks_below_exec(a: &InternalTransaction, b: &InternalTransaction) -> (r: bool)
    ensures
        r == ranks_below(a@, b@),
{
    if a.gas_price != b.gas_price {
        a.gas_price < b.gas_price
    } else if a.timestamp != b.timestamp {
        a.timestamp > b.timestamp
    } else {
        match compare_ids(&a.id, &b.id) {
            Ordering::Less => true,
            _ => false,
        }
    }
}

/// Compares two byte strings lexicographically.
fn compare_bytes(a: &[u8], b: &[u8]) -> (r: Ordering)
    ensures
        (r == Ordering::Less) == bytes_lt(a@, b@),
        (r == Ordering::Greater) == bytes_lt(b@, a@),
        (r == Ordering::Equal) == (a@ == b@),
{
    let mut i: usize = 0;
    proof {
        assert(a@.skip(0) =~= a@);
        assert(b@.skip(0) =~= b@);
    }
    while i < a.len() && i < b.len()
        invariant
            0 <= i <= a@.len(),
            i <= b@.len(),
            a@.subrange(0, i as int) == b@.subrange(0, i as int),
            bytes_lt(a@, b@) == bytes_lt(a@.skip(i as int), b@.skip(i as int)),
            bytes_lt(b@, a@) == bytes_lt(b@.skip(i as int), a@.skip(i as int)),
        decreases a@.len() - i,
    {
        if a[i] != b[i] {
            proof {
                assert(a@.skip(i as int)[0] == a@[i as int]);
                assert(b@.skip(i as int)[0] == b@[i as int]);
                lemma_bytes_lt_total(a@, b@);
            }
            if a[i] < b[i] {
                return Ordering::Less;
            } else {
                return Ordering::Greater;
            }
        }
        proof {
            assert(a@.skip(i as int).drop_first() =~= a@.skip(i + 1));
            assert(b@.skip(i as int).drop_first() =~= b@.skip(i + 1));
            assert(a@.subrange(0, i + 1) =~= a@.subrange(0, i as int).push(a@[i as int]));
            assert(b@.subrange(0, i + 1) =~= b@.subrange(0, i as int).push(b@[i as int]));
        }
        i = i + 1;
    }
    proof {
        lemma_bytes_lt_total(a@, b@);
        if a@.len() == b@.len() {
            assert(a@ =~= a@.subrange(0, i as int));
            assert(b@ =~= b@.subrange(0, i as int));
        } else {
            assert(a@ != b@);
        }
    }
    if a.len() < b.len() {
        Ordering::Less
    } else if a.len() > b.len() {
        Ordering::Greater
    } else {
        Ordering::Equal
    }
}

/// Compares two ids in the order of `str`.
pub fn compare_ids(a: &String, b: &String) -> (r: Ordering)
    ensures
        (r == Ordering::Less) == id_lt(a@, b@),
        (r == Ordering::Greater) == id_lt(b@, a@),
        (r == Ordering::Equal) == (a@ == b@),
{
    let r = compare_bytes(a.as_str().as_bytes(), b.as_str().as_bytes());
    proof {
        lemma_id_lt_total(a@, b@);
    }
    r
}

/// The composite ordering key of a transaction.
pub struct CompositeKey {
    pub gas_price: u64,
    pub timestamp: u64,
    pub id: String,
}

impl View for CompositeKey {
    type V = (u64, u64, Seq<char>);

    open spec fn view(&self) -> (u64, u64, Seq<char>) {
        (self.gas_price, self.timestamp, self.id@)
    }
}

impl CompositeKey {
    /// Compares two keys in the composite order.
    pub fn cmp(&self, other: &CompositeKey) -> (r: Ordering)
        ensures
            (r == Ordering::Less) == composite_lt(self@, other@),
            (r == Ordering::Greater) == composite_lt(other@, self@),
            (r == Ordering::Equal) == (self@ == other@),
    {
        proof {
            lemma_composite_total(self@, other@);
        }
        if self.gas_price < other.gas_price {
            Ordering::Less
        } else if self.gas_price > other.gas_price {
            Ordering::Greater
        } else if other.timestamp < self.timestamp {
            Ordering::Less
        } else if other.timestamp > self.timestamp {
            Ordering::Greater
        } else {
            compare_ids(&self.id, &other.id)
        }
    }

    /// The key of `t`.
    pub fn of(t: &InternalTransaction) -> (r: CompositeKey)
        ensures
            r@ == key_of(t@),
    {
        CompositeKey { gas_price: t.gas_price, timestamp: t.timestamp, id: t.id.clone() }
    }

    /// The tuple under which the ordered indices store this key.
    pub fn index_key(&self) -> (r: IndexKey)
        ensures
            index_key_view(r) == (self.gas_price, (u64::MAX - self.timestamp) as u64, self.id@),
    {
        (self.gas_price, u64::MAX - self.timestamp, self.id.clone())
    }
}

} // verus!
