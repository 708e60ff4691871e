use std::cmp::Ordering;

use mempool::app_state::AppState;
use mempool::binary_heap::BHeapMemPool;
use mempool::btree::BTreeMemPool;
use mempool::error::AppError;
use mempool::helpers::to_ids;
use mempool::key::{compare_ids, CompositeKey};
use mempool::skiplist::SkipListMemPool;
use mempool::transaction::{InternalTransaction, StatefulTxn, Transaction, TxState};

fn key(g: u64, ts: u64, id: &str) -> CompositeKey {
    CompositeKey { gas_price: g, timestamp: ts, id: id.into() }
}

#[test]
fn higher_gas_price_ranks_higher() {
    assert_eq!(key(2, 0, "a").cmp(&key(1, 0, "z")), Ordering::Greater);
    assert_eq!(key(1, 0, "z").cmp(&key(2, 0, "a")), Ordering::Less);
}

#[test]
fn earlier_timestamp_ranks_higher() {
    assert_eq!(key(5, 1, "a").cmp(&key(5, 2, "z")), Ordering::Greater);
    assert_eq!(key(5, 2, "a").cmp(&key(5, 1, "a")), Ordering::Less);
}

#[test]
fn greater_id_ranks_higher_on_ties() {
    assert_eq!(key(5, 1, "b").cmp(&key(5, 1, "a")), Ordering::Greater);
    assert_eq!(key(5, 1, "a").cmp(&key(5, 1, "ab")), Ordering::Less);
    assert_eq!(key(5, 1, "ab").cmp(&key(5, 1, "ab")), Ordering::Equal);
}

#[test]
fn ids_compare_by_bytes() {
    assert_eq!(compare_ids(&"Z".to_string(), &"a".to_string()), Ordering::Less);
    assert_eq!(compare_ids(&"é".to_string(), &"z".to_string()), Ordering::Greater);
    assert_eq!(compare_ids(&"".to_string(), &"a".to_string()), Ordering::Less);
    assert_eq!(compare_ids(&"abc".to_string(), &"abc".to_string()), Ordering::Equal);
}

#[test]
fn index_key_inverts_the_timestamp() {
    let k = key(3, 10, "q").index_key();
    assert_eq!(k, (3, u64::MAX - 10, "q".to_string()));
}

#[test]
fn key_of_internal_transaction() {
    let it = InternalTransaction::from(Transaction {
        id: "w".into(),
        gas_price: 4,
        timestamp: 8,
        payload: vec![9],
    });
    let k = CompositeKey::of(&it);
    assert_eq!(k.gas_price, 4);
    assert_eq!(k.timestamp, 8);
    assert_eq!(k.id, "w");
}

#[test]
fn internal_round_trip_keeps_fields() {
    let t = Transaction { id: "r".into(), gas_price: 1, timestamp: 2, payload: vec![3, 4] };
    let it = InternalTransaction::from(t);
    let back = it.to_transaction();
    assert_eq!(back.id, "r");
    assert_eq!(back.gas_price, 1);
    assert_eq!(back.timestamp, 2);
    assert_eq!(back.payload, vec![3, 4]);
}

#[test]
fn new_entries_are_available() {
    let s = StatefulTxn::new(Transaction { id: "n".into(), gas_price: 1, timestamp: 1, payload: vec![] });
    assert_eq!(s.state, TxState::Available);
    assert_eq!(s.data.id, "n");
}

#[test]
fn ids_in_order() {
    let txs = vec![
        Transaction { id: "b".into(), gas_price: 1, timestamp: 1, payload: vec![] },
        Transaction { id: "a".into(), gas_price: 2, timestamp: 1, payload: vec![] },
    ];
    assert_eq!(to_ids(&txs), vec!["b".to_string(), "a".to_string()]);
    assert!(to_ids(&[]).is_empty());
}

#[test]
fn serve_error_message() {
    let e = AppError::AxumServe("bind failed".to_string());
    assert_eq!(e.message(), "Axum serve error: bind failed");
}

#[test]
fn app_state_holds_the_pool() {
    let mut s = AppState { mempool: SkipListMemPool::new() };
    s.mempool.insert(Transaction { id: "a".into(), gas_price: 1, timestamp: 1, payload: vec![] });
    assert_eq!(s.mempool.drain(1).len(), 1);
}

#[test]
fn default_pools_are_empty() {
    assert!(SkipListMemPool::default().drain(1).is_empty());
    assert!(SkipListMemPool::default().capacity.is_none());
    assert!(BTreeMemPool::default().drain(1).is_empty());
    assert!(BHeapMemPool::default().drain(1).is_empty());
}
