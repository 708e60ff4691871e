use std::sync::Arc;
use vstd::prelude::*;

verus! {

/// What a transaction holds, as mathematical values.
pub struct TxnView {
    pub id: Seq<char>,
    pub gas_price: u64,
    pub timestamp: u64,
    pub payload: Seq<u8>,
}

/// A submitted transaction in its wire form.
pub struct Transaction {
    pub id: String,
    pub gas_price: u64,
    pub timestamp: u64,
    pub payload: Vec<u8>,
}

impl View for Transaction {
    type V = TxnView;

    open spec fn view(&self) -> TxnView {
        TxnView {
            id: self.id@,
            gas_price: self.gas_price,
            timestamp: self.timestamp,
            payload: self.payload@,
        }
    }
}

/// A transaction as the pools hold it; it sits behind an `Arc` in every
/// entry, so moving an entry between indices never copies id or payload.
pub struct InternalTransaction {
    pub gas_price: u64,
    pub timestamp: u64,
    pub id: String,
    pub payload: Vec<u8>,
}

impl View for InternalTransaction {
    type V = TxnView;

    open spec fn view(&self) -> TxnView {
        TxnView {
            id: self.id@,
            gas_price: self.gas_price,
            timestamp: self.timestamp,
            payload: self.payload@,
        }
    }
}

impl InternalTransaction {
    /// The wire form of this transaction.
    pub fn to_transaction(&self) -> (r: Transaction)
        ensures
            r@ == self@,
    {
        let payload = self.payload.clone();
        proof {
            assert(payload@ =~= self.payload@);
        }
        Transaction {
            id: self.id.clone(),
            gas_price: self.gas_price,
            timestamp: self.timestamp,
            payload,
        }
    }
}

impl From<Transaction> for InternalTransaction {
    fn from(t: Transaction) -> (r: InternalTransaction) {
        InternalTransaction {
            id: t.id,
            gas_price: t.gas_price,
            timestamp: t.timestamp,
            payload: t.payload,
        }
    }
}

impl vstd::std_specs::convert::FromSpecImpl<Transaction> for InternalTransaction {
    open spec fn obeys_from_spec() -> bool {
        true
    }

    open spec fn from_spec(t: Transaction) -> InternalTransaction {
        InternalTransaction {
            id: t.id,
            gas_price: t.gas_price,
            timestamp: t.timestamp,
            payload: t.payload,
        }
    }
}

/// Lifecycle tag of a pool entry.
#[derive(Clone, Copy, Debug, PartialEq, Eq, Structural)]
pub enum TxState {
    Available,
    Reserved,
    Final,
}

/// A shared transaction together with its lifecycle tag.
pub struct StatefulTxn {
    pub data: Arc<InternalTransaction>,
    pub state: TxState,
}

impl StatefulTxn {
    /// A fresh entry for `tx`, tagged Available.
    pub fn new(tx: Transaction) -> (r: StatefulTxn)
        ensures
            r.data@ == tx@,
            r.state == TxState::Available,
    {
        StatefulTxn { data: Arc::new(InternalTransaction::from(tx)), state: TxState::Available }
    }
}

} // verus!

verus! {

/// What a pool entry holds, as mathematical values.
pub struct EntryView {
    pub txn: TxnView,
    pub state: TxState,
}

impl View for StatefulTxn {
    type V = EntryView;

    open spec fn view(&self) -> EntryView {
        EntryView { txn: self.data@, state: self.state }
    }
}

impl Clone for StatefulTxn {
    fn clone(&self) -> (r: StatefulTxn)
        ensures
            r@ == self@,
    {
        StatefulTxn { data: Arc::clone(&self.data), state: self.state }
    }
}

/// A reservation token: 128 bits, fresh for each reservation.
pub type ReservationToken = u128;

/// A batch of transactions reserved under one token.
pub struct Reservation {
    pub token: ReservationToken,
    pub txns: Vec<Transaction>,
}

/// A request to commit or release the entries of `txns` (ids) held under
/// `token`.
pub struct CommitOrReleaseRequest {
    pub token: ReservationToken,
    pub txns: Vec<String>,
}

/// The views of a sequence of transactions.
pub open spec fn txn_views(s: Seq<Transaction>) -> Seq<TxnView> {
    s.map_values(|t: Transaction| t@)
}

} // verus!
