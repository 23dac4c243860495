use pethit::{SharedTxPool, SignedTransaction, Transaction, TxPool, U256};

fn signed(tag: u8, nonce: u64) -> SignedTransaction {
    SignedTransaction {
        transaction: Transaction { to: [tag; 20], value: U256::from_u64(tag as u64), nonce },
        signature: [tag; 64],
        recovery_id: 0,
    }
}

#[test]
fn test_add_transaction() {
    let pool = SharedTxPool::new();
    let tx = signed(1, 0);
    let k_hash = tx.identity_hash();
    pool.add(&k_hash, &tx).unwrap();
    let all_txs = pool.get_all_transactions();
    assert_eq!(all_txs.len(), 1);
    assert_eq!(all_txs[0], tx);
}

#[test]
fn test_deduplication() {
    let pool = SharedTxPool::new();
    let tx = signed(2, 0);
    let k_hash = tx.identity_hash();
    pool.add(&k_hash, &tx).unwrap();
    pool.add(&k_hash, &tx).unwrap();
    let all_txs = pool.get_all_transactions();
    assert_eq!(all_txs.len(), 1);
}

#[test]
fn distinct_transactions_through_clones_all_stay() {
    let pool = SharedTxPool::new();
    for i in 0..10u8 {
        let pool_clone = pool.clone();
        let tx = signed(i, i as u64);
        let k_hash = tx.identity_hash();
        pool_clone.add(&k_hash, &tx).unwrap();
    }
    let all_txs = pool.get_all_transactions();
    assert_eq!(all_txs.len(), 10);
}

#[test]
fn same_hash_overwrites_and_order_is_kept() {
    let mut pool = TxPool::new();
    let a = signed(1, 0);
    let b = signed(2, 0);
    let c = signed(3, 0);
    pool.add(&a.identity_hash(), &a);
    pool.add(&b.identity_hash(), &b);
    // A different transaction under b's hash replaces b in place.
    pool.add(&b.identity_hash(), &c);
    assert_eq!(pool.get_all(), vec![a, c]);
}

#[test]
fn clear_empties_the_pool() {
    let pool = SharedTxPool::new();
    for i in 0..4u8 {
        let tx = signed(i, 0);
        pool.add(&tx.identity_hash(), &tx).unwrap();
    }
    assert_eq!(pool.get_all_transactions().len(), 4);
    pool.clear();
    assert!(pool.get_all_transactions().is_empty());
}
