use mempool::binary_heap::BHeapMemPool;
use mempool::btree::BTreeMemPool;
use mempool::mempool::MemPool;
use mempool::skiplist::SkipListMemPool;
use mempool::transaction::Transaction;

fn producers<M: MemPool>(pool: &mut M) {
    for i in 0..5u64 {
        for j in 0..5u64 {
            let txn = Transaction {
                id: format!("{i}: {j}"),
                gas_price: i + j,
                timestamp: i + j,
                payload: vec![1, 2],
            };
            pool.insert(txn);
        }
    }
}

fn ordering_case<M: MemPool>(pool: &mut M) {
    let now = std::time::SystemTime::now()
        .duration_since(std::time::UNIX_EPOCH)
        .unwrap()
        .as_secs();
    let transactions = vec![
        Transaction { id: "tx1".into(), gas_price: 10, timestamp: now, payload: vec![1] },
        Transaction { id: "tx2".into(), gas_price: 20, timestamp: now + 1, payload: vec![2] },
        Transaction { id: "tx3".into(), gas_price: 20, timestamp: now, payload: vec![3] },
        Transaction { id: "tx4".into(), gas_price: 30, timestamp: now + 2, payload: vec![4] },
    ];
    for txn in transactions {
        pool.insert(txn);
    }
    let drained = pool.drain(4);
    assert_eq!(drained.len(), 4);
    assert_eq!(drained[0].id, "tx4");
    assert_eq!(drained[1].id, "tx3");
    assert_eq!(drained[2].id, "tx2");
    assert_eq!(drained[3].id, "tx1");
    assert_eq!(drained[0].payload, vec![4]);
}

#[test]
fn test_bin_heap() {
    let mut pool = BHeapMemPool::new();
    producers(&mut pool);
    // test basic drain
    let drained = pool.drain(2);
    assert_eq!(drained.len(), 2);
    // Drain over the limit, i.e. the remaining
    let over_drain = pool.drain(100);
    assert_eq!(over_drain.len(), 23)
}

#[test]
fn test_b_tree() {
    let mut pool = BTreeMemPool::new();
    producers(&mut pool);
    // test basic drain
    let drained = pool.drain(2);
    assert_eq!(drained.len(), 2);
    // Drain over the limit, i.e. the remaining
    let over_drain = pool.drain(100);
    assert_eq!(over_drain.len(), 23)
}

#[test]
fn test_transaction_ordering_binary_heap() {
    ordering_case(&mut BHeapMemPool::new());
}

#[test]
fn test_transaction_ordering_btree() {
    ordering_case(&mut BTreeMemPool::new());
}

#[test]
fn test_transaction_ordering_skiplist() {
    ordering_case(&mut SkipListMemPool::new());
}

#[test]
fn test_multiple_transactions_binary_heap() {
    let mut pool = BHeapMemPool::new();
    producers(&mut pool);
    let gas: Vec<u64> = pool.drain(25).into_iter().map(|t| t.gas_price).collect();
    assert_eq!(gas.len(), 25);
    assert_eq!(gas[0], 8);
    assert_eq!(gas[24], 0);
    assert!(gas.windows(2).all(|w| w[0] >= w[1]));
}

#[test]
fn test_multiple_transactions_btree() {
    let mut pool = BTreeMemPool::new();
    producers(&mut pool);
    let gas: Vec<u64> = pool.drain(25).into_iter().map(|t| t.gas_price).collect();
    assert_eq!(gas.len(), 25);
    assert_eq!(gas[0], 8);
    assert!(gas.windows(2).all(|w| w[0] >= w[1]));
}

#[test]
fn test_multiple_transactions_skiplist() {
    let mut pool = SkipListMemPool::new();
    producers(&mut pool);
    let gas: Vec<u64> = pool.drain(25).into_iter().map(|t| t.gas_price).collect();
    assert_eq!(gas.len(), 25);
    assert_eq!(gas[0], 8);
    assert!(gas.windows(2).all(|w| w[0] >= w[1]));
}

#[test]
fn heap_keeps_equal_entries() {
    let mut pool = BHeapMemPool::new();
    let t = || Transaction { id: "same".into(), gas_price: 1, timestamp: 1, payload: vec![] };
    pool.insert(t());
    pool.insert(t());
    assert_eq!(pool.drain(5).len(), 2);
}

#[test]
fn btree_replaces_equal_key() {
    let mut pool = BTreeMemPool::new();
    pool.insert(Transaction { id: "k".into(), gas_price: 1, timestamp: 1, payload: vec![1] });
    pool.insert(Transaction { id: "k".into(), gas_price: 1, timestamp: 1, payload: vec![2] });
    pool.insert(Transaction { id: "k".into(), gas_price: 2, timestamp: 1, payload: vec![3] });
    let drained = pool.drain(5);
    assert_eq!(drained.len(), 2);
    assert_eq!(drained[0].payload, vec![3]);
    assert_eq!(drained[1].payload, vec![2]);
}

#[test]
fn drain_zero_on_every_backend() {
    let mut a = BHeapMemPool::new();
    let mut b = BTreeMemPool::new();
    producers(&mut a);
    producers(&mut b);
    assert!(a.drain(0).is_empty());
    assert!(b.drain(0).is_empty());
    assert_eq!(a.drain(100).len(), 25);
    assert_eq!(b.drain(100).len(), 25);
}

#[test]
fn empty_pools_drain_nothing() {
    assert!(BHeapMemPool::new().drain(3).is_empty());
    assert!(BTreeMemPool::new().drain(3).is_empty());
    assert!(SkipListMemPool::new().drain(3).is_empty());
}

#[test]
fn heap_drains_many_in_descending_order() {
    let mut pool = BHeapMemPool::new();
    let mut gas: Vec<u64> = Vec::new();
    let mut x: u64 = 7;
    for i in 0..200u64 {
        x = (x * 1103515245 + 12345) % 1000;
        gas.push(x);
        pool.insert(Transaction { id: format!("t{i}"), gas_price: x, timestamp: i % 13, payload: vec![] });
    }
    let mut got: Vec<u64> = pool.drain(150).into_iter().map(|t| t.gas_price).collect();
    got.extend(pool.drain(100).into_iter().map(|t| t.gas_price));
    gas.sort_unstable_by(|a, b| b.cmp(a));
    assert_eq!(got, gas);
}

#[test]
fn heap_interleaves_inserts_and_drains() {
    let mut pool = BHeapMemPool::new();
    for g in [5u64, 1, 9, 3] {
        pool.insert(Transaction { id: format!("a{g}"), gas_price: g, timestamp: 0, payload: vec![] });
    }
    let first: Vec<u64> = pool.drain(2).into_iter().map(|t| t.gas_price).collect();
    assert_eq!(first, vec![9, 5]);
    for g in [4u64, 8] {
        pool.insert(Transaction { id: format!("b{g}"), gas_price: g, timestamp: 0, payload: vec![] });
    }
    let rest: Vec<u64> = pool.drain(10).into_iter().map(|t| t.gas_price).collect();
    assert_eq!(rest, vec![8, 4, 3, 1]);
}
