use k256::ecdsa::SigningKey;
use pethit::{
    Account, AuthError, DecodeError, ExecError, ExecutionEngine, Miner, Node, SharedChain,
    SharedStorage, SharedTxPool, SignedTransaction, SimpleStorage, SubmitError, Transaction,
    TxPool, U256,
};

fn key(seed: u8) -> SigningKey {
    SigningKey::from_slice(&[seed; 32]).unwrap()
}

fn address(k: &SigningKey) -> [u8; 20] {
    let point = k.verifying_key().to_encoded_point(false);
    let h = alloy_primitives::keccak256(&point.as_bytes()[1..]);
    let mut a = [0u8; 20];
    a.copy_from_slice(&h[12..]);
    a
}

fn sign(k: &SigningKey, tx: Transaction) -> SignedTransaction {
    let (sig, recid) = k.sign_prehash_recoverable(&tx.hash()).unwrap();
    let mut signature = [0u8; 64];
    signature.copy_from_slice(&sig.to_bytes());
    SignedTransaction { transaction: tx, signature, recovery_id: recid.to_byte() }
}

#[test]
fn submission_errors() {
    let mut pool = TxPool::new();
    assert_eq!(pethit::node::submit_to(&mut pool, &[0xc0]), Err(SubmitError::Decode(DecodeError::Truncated)));
    let k = key(1);
    let mut s = sign(&k, Transaction { to: [1u8; 20], value: U256::from_u64(1), nonce: 0 });
    s.recovery_id = 3;
    assert_eq!(
        pethit::node::submit_to(&mut pool, &s.encode()),
        Err(SubmitError::Auth(AuthError::InvalidSignature))
    );
    assert!(pool.get_all().is_empty());
}

#[test]
fn submission_adds_under_identity_hash() {
    let mut pool = TxPool::new();
    let k = key(2);
    let s = sign(&k, Transaction { to: [1u8; 20], value: U256::from_u64(1), nonce: 0 });
    assert_eq!(pethit::node::submit_to(&mut pool, &s.encode()), Ok(s.identity_hash()));
    assert_eq!(pethit::node::submit_to(&mut pool, &s.encode()), Ok(s.identity_hash()));
    assert_eq!(pool.get_all(), vec![s]);
}

#[test]
fn end_to_end_transfer() {
    let k = key(3);
    let a = address(&k);
    let b = [0xbbu8; 20];
    let node = Node::new(SharedTxPool::new(), SharedStorage::new(), SharedChain::new());
    let mut miner = Miner::new(node.txpool.clone(), node.storage.clone(), node.chain.clone());
    assert_eq!(node.lookup_account(&a), Account::empty());

    let tx = sign(&k, Transaction { to: b, value: U256::from_u64(100), nonce: 0 });
    let mut empty = SimpleStorage::new();
    assert_eq!(ExecutionEngine::execute(&mut empty, &tx), Err(ExecError::InsufficientFunds));

    // Unfunded: the block is mined but the transfer is dropped.
    node.submit(&tx.encode()).unwrap();
    let first = miner.mine_block().unwrap();
    assert_eq!(first.id(), 1);
    // The failed transfer does not appear in the block.
    assert!(first.transactions().is_empty());
    assert_eq!(node.lookup_account(&a), Account::empty());
    assert_eq!(node.lookup_account(&b), Account::empty());
    assert!(node.txpool.get_all_transactions().is_empty());

    // Funded: the same transaction goes through.
    node.storage.set_account(&a, Account { nonce: 0, balance: U256::from_u64(1000) });
    let height = node.chain.height();
    node.submit(&tx.encode()).unwrap();
    let second = miner.mine_block().unwrap();
    assert_eq!(node.lookup_account(&a), Account { nonce: 1, balance: U256::from_u64(900) });
    assert_eq!(node.lookup_account(&b).balance, U256::from_u64(100));
    assert_eq!(node.chain.height(), height + 1);
    assert!(node.txpool.get_all_transactions().is_empty());
    assert_eq!(second.parent_hash(), first.k_hash());
    assert_eq!(miner.last_mined(), 2);
    let found = node.lookup_block(&second.k_hash()).unwrap();
    assert_eq!(found.transactions(), &vec![tx]);
}

#[test]
fn mining_cycle_on_held_state() {
    let k = key(4);
    let a = address(&k);
    let b = [0xccu8; 20];
    let mut pool = TxPool::new();
    let mut storage = SimpleStorage::new();
    let mut chain = pethit::Chain::new();
    storage.set_account(&a, Account { nonce: 0, balance: U256::from_u64(1000) });
    let good = sign(&k, Transaction { to: b, value: U256::from_u64(100), nonce: 0 });
    let stale = sign(&k, Transaction { to: b, value: U256::from_u64(5), nonce: 7 });
    pethit::node::submit_to(&mut pool, &good.encode()).unwrap();
    pethit::node::submit_to(&mut pool, &stale.encode()).unwrap();
    let genesis = chain.last_block();
    let block = pethit::consensus::mine_cycle(&mut pool, &mut storage, &mut chain).unwrap();
    assert_eq!(block.id(), 1);
    assert_eq!(block.parent_hash(), genesis.k_hash());
    assert_eq!(block.transactions(), &vec![good]);
    let _ = stale;
    assert_eq!(chain.len(), 2);
    assert!(pool.get_all().is_empty());
    assert_eq!(storage.get_account(&a), Account { nonce: 1, balance: U256::from_u64(900) });
    assert_eq!(storage.get_account(&b).balance, U256::from_u64(100));
}

#[test]
fn submission_reports_each_decode_error() {
    let mut pool = TxPool::new();
    let k = key(5);
    let s = sign(&k, Transaction { to: [1u8; 20], value: U256::from_u64(1), nonce: 0 });
    let enc = s.encode();
    assert_eq!(
        pethit::node::submit_to(&mut pool, &enc[..enc.len() - 3]),
        Err(SubmitError::Decode(DecodeError::Truncated))
    );
    let mut long = enc.clone();
    long.push(0);
    assert_eq!(pethit::node::submit_to(&mut pool, &long), Err(SubmitError::Decode(DecodeError::TrailingBytes)));
    assert_eq!(
        pethit::node::submit_to(&mut pool, &[0x83, 1, 2, 3]),
        Err(SubmitError::Decode(DecodeError::MalformedHeader))
    );
    assert_eq!(
        pethit::node::submit_to(&mut pool, &[0xfa, 0, 0, 1]),
        Err(SubmitError::Decode(DecodeError::MalformedHeader))
    );
    assert!(pool.get_all().is_empty());
}

#[test]
fn every_cycle_makes_a_block() {
    let node = Node::new(SharedTxPool::new(), SharedStorage::new(), SharedChain::new());
    let mut miner = Miner::new(node.txpool.clone(), node.storage.clone(), node.chain.clone());
    assert_eq!(miner.last_mined(), 0);
    let genesis = node.chain.last_block();
    let b1 = miner.mine_block().unwrap();
    let b2 = miner.mine_block().unwrap();
    assert_eq!((b1.id(), b2.id()), (1, 2));
    assert!(b1.transactions().is_empty());
    assert_eq!(b1.parent_hash(), genesis.k_hash());
    assert_eq!(b2.parent_hash(), b1.k_hash());
    assert_eq!(node.chain.height(), 3);
}
