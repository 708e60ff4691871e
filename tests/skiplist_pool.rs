use mempool::mempool::MemPool;
use mempool::skiplist::{SkipListMemPool, RESERVATION_TTL_MS, SWEEP_INTERVAL_MS};
use mempool::helpers::to_ids;
use mempool::transaction::Transaction;

fn tx(id: &str, fee: u64) -> Transaction {
    Transaction {
        id: id.into(),
        gas_price: fee,
        timestamp: fee,
        payload: vec![],
    }
}

fn txg(id: &str, gas: u64, ts: u64) -> Transaction {
    Transaction {
        id: id.into(),
        gas_price: gas,
        timestamp: ts,
        payload: vec![7],
    }
}

#[test]
fn priority_order_is_respected() {
    let mut p = SkipListMemPool::new();
    for (id, fee) in [("a", 5), ("b", 2), ("c", 7)] {
        p.insert(tx(id, fee));
    }
    let fees: Vec<_> = p.drain(3).into_iter().map(|t| t.gas_price).collect();
    assert_eq!(fees, vec![7, 5, 2]);
}

#[test]
fn reserve_commit_roundtrip() {
    let mut p = SkipListMemPool::new();
    p.insert(tx("x", 10));
    let res = p.reserve(1);
    let ids = to_ids(&res.txns);

    // wrong token should fail
    assert!(p.commit(uuid::Uuid::new_v4().as_u128(), &ids).is_empty());

    // correct token succeeds
    assert_eq!(p.commit(res.token, &ids).len(), 1);
}

#[test]
fn release_puts_tx_back() {
    let mut p = SkipListMemPool::new();
    p.insert(tx("y", 3));
    let res = p.reserve(1);
    let ids = to_ids(&res.txns);

    p.release(res.token, &ids);
    assert_eq!(p.drain(1).len(), 1); // Tx visible again
}

#[test]
fn capacity_eviction_drops_lowest_fee() {
    let mut p = SkipListMemPool::new();
    p.capacity = Some(3);
    for fee in [1u64, 2, 3, 4] {
        p.insert(tx(&fee.to_string(), fee));
    }
    assert_eq!(p.map.len(), 3);

    let lowest_remaining = p.drain(3).iter().map(|t| t.gas_price).min().unwrap();
    assert_eq!(lowest_remaining, 2); // fee=1 evicted
}

#[test]
fn test_skiplist() {
    let mut pool = SkipListMemPool::new();
    for i in 0..5u64 {
        for j in 0..5u64 {
            let txn = Transaction {
                id: format!("{i}: {j}"),
                gas_price: i + j,
                timestamp: i + j,
                payload: vec![1, 2],
            };
            pool.insert(txn);
        }
    }

    // Test basic drain
    let drained = pool.drain(2);
    assert_eq!(drained.len(), 2);

    // Drain over the limit, i.e. the remaining
    let over_drain = pool.drain(100);
    assert_eq!(over_drain.len(), 23);
}

#[test]
fn composite_tie_break_on_skiplist() {
    let mut p = SkipListMemPool::new();
    p.insert(txg("tx1", 10, 100));
    p.insert(txg("tx2", 20, 101));
    p.insert(txg("tx3", 20, 100));
    p.insert(txg("tx4", 30, 102));
    let ids: Vec<String> = p.drain(4).into_iter().map(|t| t.id).collect();
    assert_eq!(ids, vec!["tx4", "tx3", "tx2", "tx1"]);
}

#[test]
fn equal_price_and_time_break_ties_by_greater_id() {
    let mut p = SkipListMemPool::new();
    p.insert(txg("a", 5, 5));
    p.insert(txg("b", 5, 5));
    p.insert(txg("ab", 5, 5));
    let ids: Vec<String> = p.drain(3).into_iter().map(|t| t.id).collect();
    assert_eq!(ids, vec!["b", "ab", "a"]);
}

#[test]
fn reserve_commit_then_drain_is_empty() {
    let mut p = SkipListMemPool::new();
    p.insert(tx("x", 10));
    let res = p.reserve(1);
    assert_eq!(res.txns.len(), 1);
    assert_eq!(res.txns[0].id, "x");
    let committed = p.commit(res.token, &to_ids(&res.txns));
    assert_eq!(committed.len(), 1);
    assert_eq!(committed[0].id, "x");
    assert_eq!(committed[0].gas_price, 10);
    assert!(p.drain(1).is_empty());
}

#[test]
fn wrong_token_then_right_token() {
    let mut p = SkipListMemPool::new();
    p.insert(tx("x", 10));
    let res = p.reserve_with(1, 41, 0);
    assert_eq!(res.token, 41);
    assert!(p.commit(42, &to_ids(&res.txns)).is_empty());
    let committed = p.commit(41, &to_ids(&res.txns));
    assert_eq!(committed.len(), 1);
    assert_eq!(committed[0].id, "x");
}

#[test]
fn release_returns_the_transaction() {
    let mut p = SkipListMemPool::new();
    p.insert(tx("y", 3));
    let res = p.reserve(1);
    p.release(res.token, &to_ids(&res.txns));
    let drained = p.drain(1);
    assert_eq!(drained.len(), 1);
    assert_eq!(drained[0].id, "y");
}

#[test]
fn release_with_wrong_token_keeps_reservation() {
    let mut p = SkipListMemPool::new();
    p.insert(tx("y", 3));
    let res = p.reserve_with(1, 5, 0);
    p.release(6, &to_ids(&res.txns));
    assert!(p.drain(1).is_empty());
    assert_eq!(p.commit(5, &to_ids(&res.txns)).len(), 1);
}

#[test]
fn capacity_keeps_the_three_highest() {
    let mut p = SkipListMemPool::new();
    p.capacity = Some(3);
    for fee in [1u64, 2, 3, 4] {
        p.insert(tx(&fee.to_string(), fee));
    }
    assert_eq!(p.map.len(), 3);
    let fees: Vec<u64> = p.drain(3).into_iter().map(|t| t.gas_price).collect();
    assert_eq!(fees, vec![4, 3, 2]);
}

#[test]
fn capacity_zero_keeps_nothing() {
    let mut p = SkipListMemPool::new();
    p.capacity = Some(0);
    p.insert(tx("a", 1));
    assert_eq!(p.map.len(), 0);
    assert!(p.drain(1).is_empty());
}

#[test]
fn reserved_entries_do_not_count_against_capacity() {
    let mut p = SkipListMemPool::new();
    p.capacity = Some(1);
    p.insert(tx("a", 9));
    let res = p.reserve(1);
    p.insert(tx("b", 1));
    assert_eq!(p.map.len(), 1);
    p.release(res.token, &to_ids(&res.txns));
    let fees: Vec<u64> = p.drain(2).into_iter().map(|t| t.gas_price).collect();
    assert_eq!(fees, vec![9, 1]);
}

#[test]
fn reaper_recovers_lapsed_reservation() {
    let mut p = SkipListMemPool::new();
    p.insert(tx("z", 1));
    let res = p.reserve_with(1, 77, 1000);
    assert_eq!(res.txns.len(), 1);
    // not lapsed yet
    p.reap_at(1000 + RESERVATION_TTL_MS - 1);
    assert!(p.drain(1).is_empty());
    // one sweep after the time to live
    p.reap_at(1000 + RESERVATION_TTL_MS + SWEEP_INTERVAL_MS);
    let drained = p.drain(1);
    assert_eq!(drained.len(), 1);
    assert_eq!(drained[0].id, "z");
    // the reservation is gone: its token commits nothing
    assert!(p.commit(77, &to_ids(&res.txns)).is_empty());
}

#[test]
fn sweep_interval_is_a_quarter_of_the_time_to_live() {
    assert_eq!(RESERVATION_TTL_MS, 2000);
    assert_eq!(SWEEP_INTERVAL_MS, 500);
}

#[test]
fn reaper_keeps_live_reservations() {
    let mut p = SkipListMemPool::new();
    p.insert(tx("a", 1));
    p.insert(tx("b", 2));
    let old = p.reserve_with(1, 1, 0);
    let young = p.reserve_with(1, 2, 5000);
    p.reap_at(3000);
    assert_eq!(p.commit(1, &to_ids(&old.txns)).len(), 0);
    assert_eq!(p.commit(2, &to_ids(&young.txns)).len(), 1);
    let drained = p.drain(5);
    assert_eq!(drained.len(), 1);
    assert_eq!(drained[0].id, "b");
}

#[test]
fn insert_then_drain_one_returns_it() {
    let mut p = SkipListMemPool::new();
    let t = Transaction { id: "solo".into(), gas_price: 3, timestamp: 9, payload: vec![1, 2, 3] };
    p.insert(t);
    let drained = p.drain(1);
    assert_eq!(drained.len(), 1);
    assert_eq!(drained[0].id, "solo");
    assert_eq!(drained[0].gas_price, 3);
    assert_eq!(drained[0].timestamp, 9);
    assert_eq!(drained[0].payload, vec![1, 2, 3]);
}

#[test]
fn reserve_release_drain_matches_plain_drain() {
    let fill = |p: &mut SkipListMemPool| {
        for (id, g) in [("a", 4), ("b", 8), ("c", 1), ("d", 6)] {
            p.insert(tx(id, g));
        }
    };
    let mut p = SkipListMemPool::new();
    fill(&mut p);
    let res = p.reserve(2);
    p.release(res.token, &to_ids(&res.txns));
    let detour: Vec<String> = p.drain(2).into_iter().map(|t| t.id).collect();

    let mut q = SkipListMemPool::new();
    fill(&mut q);
    let direct: Vec<String> = q.drain(2).into_iter().map(|t| t.id).collect();
    assert_eq!(detour, direct);
    assert_eq!(direct, vec!["b", "d"]);
}

#[test]
fn consecutive_reservations_take_a_prefix() {
    let mut p = SkipListMemPool::new();
    for (id, g) in [("a", 4), ("b", 8), ("c", 1), ("d", 6)] {
        p.insert(tx(id, g));
    }
    let r1 = p.reserve(1);
    let r2 = p.reserve(2);
    let ids1: Vec<String> = r1.txns.iter().map(|t| t.id.clone()).collect();
    let ids2: Vec<String> = r2.txns.iter().map(|t| t.id.clone()).collect();
    assert_eq!(ids1, vec!["b"]);
    assert_eq!(ids2, vec!["d", "a"]);
}

#[test]
fn reserve_more_than_available() {
    let mut p = SkipListMemPool::new();
    p.insert(tx("a", 1));
    let res = p.reserve(5);
    assert_eq!(res.txns.len(), 1);
    assert!(p.reserve(5).txns.is_empty());
}

#[test]
fn drain_zero_is_empty_and_keeps_the_pool() {
    let mut p = SkipListMemPool::new();
    p.insert(tx("a", 1));
    assert!(p.drain(0).is_empty());
    assert_eq!(p.map.len(), 1);
}

#[test]
fn duplicate_id_is_turned_away() {
    let mut p = SkipListMemPool::new();
    assert!(p.submit(tx("a", 1)));
    assert!(!p.submit(tx("a", 5)));
    assert!(p.contains_id(&"a".to_string()));
    assert!(!p.contains_id(&"b".to_string()));
    let res = p.reserve(1);
    // a reserved id is still held by the pool
    assert!(p.contains_id(&"a".to_string()));
    assert!(!p.submit(tx("a", 2)));
    assert_eq!(res.txns[0].gas_price, 1);
}

#[test]
fn trait_insert_turns_duplicates_away() {
    let mut p = SkipListMemPool::new();
    MemPool::insert(&mut p, tx("a", 1));
    MemPool::insert(&mut p, tx("a", 5));
    let drained = MemPool::drain(&mut p, 5);
    assert_eq!(drained.len(), 1);
    assert_eq!(drained[0].gas_price, 1);
}

#[test]
fn commit_returns_in_order_of_ids() {
    let mut p = SkipListMemPool::new();
    p.insert(tx("a", 1));
    p.insert(tx("b", 2));
    let res = p.reserve(2);
    let ids = vec!["a".to_string(), "b".to_string(), "a".to_string(), "zz".to_string()];
    let committed: Vec<String> = p.commit(res.token, &ids).into_iter().map(|t| t.id).collect();
    assert_eq!(committed, vec!["a", "b"]);
}
