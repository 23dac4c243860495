use k256::ecdsa::SigningKey;
use pethit::{
    Account, ExecError, ExecutionEngine, SignedTransaction, SimpleStorage, Transaction, U256,
};

fn key(seed: u8) -> SigningKey {
    SigningKey::from_slice(&[seed; 32]).unwrap()
}

fn address(k: &SigningKey) -> [u8; 20] {
    let point = k.verifying_key().to_encoded_point(false);
    let h = alloy_primitives::keccak256(&point.as_bytes()[1..]);
    let mut a = [0u8; 20];
    a.copy_from_slice(&h[12..]);
    a
}

fn sign(k: &SigningKey, tx: Transaction) -> SignedTransaction {
    let (sig, recid) = k.sign_prehash_recoverable(&tx.hash()).unwrap();
    let mut signature = [0u8; 64];
    signature.copy_from_slice(&sig.to_bytes());
    SignedTransaction { transaction: tx, signature, recovery_id: recid.to_byte() }
}

fn funded(addr: &[u8; 20], balance: u64) -> SimpleStorage {
    let mut s = SimpleStorage::new();
    s.set_account(addr, Account { nonce: 0, balance: U256::from_u64(balance) });
    s
}

#[test]
fn it_executes_a_transaction() {
    let k = key(1);
    let a = address(&k);
    let b = [0x22u8; 20];
    let mut storage = funded(&a, 1000);
    let tx = sign(&k, Transaction { to: b, value: U256::from_u64(100), nonce: 0 });
    assert_eq!(ExecutionEngine::execute(&mut storage, &tx), Ok(()));
    let result = ExecutionEngine::get_state(&storage, &b);
    assert_eq!(result, Some(Account { nonce: 0, balance: U256::from_u64(100) }.encode()));
    assert_eq!(storage.get_account(&a), Account { nonce: 1, balance: U256::from_u64(900) });
}

#[test]
fn signature_recovers_the_signer() {
    let k = key(2);
    let tx = sign(&k, Transaction { to: [1u8; 20], value: U256::from_u64(5), nonce: 3 });
    assert_eq!(tx.recover_sender(), Ok(address(&k)));
}

#[test]
fn flipped_signature_bits_never_yield_the_signer() {
    let k = key(3);
    let a = address(&k);
    let tx = sign(&k, Transaction { to: [1u8; 20], value: U256::from_u64(5), nonce: 0 });
    for byte in [0usize, 17, 31, 32, 50, 63] {
        for bit in [0u8, 3, 7] {
            let mut bad = tx;
            bad.signature[byte] ^= 1 << bit;
            match bad.recover_sender() {
                Ok(other) => assert_ne!(other, a),
                Err(e) => assert_eq!(e, pethit::AuthError::InvalidSignature),
            }
        }
    }
    let mut other_id = tx;
    other_id.recovery_id ^= 1;
    assert_ne!(other_id.recover_sender(), Ok(a));
}

#[test]
fn recovery_id_out_of_range_is_rejected() {
    let k = key(4);
    let mut tx = sign(&k, Transaction { to: [1u8; 20], value: U256::from_u64(5), nonce: 0 });
    tx.recovery_id = 2;
    assert_eq!(tx.recover_sender(), Err(pethit::AuthError::InvalidSignature));
    let mut storage = SimpleStorage::new();
    assert_eq!(ExecutionEngine::execute(&mut storage, &tx), Err(ExecError::BadSignature));
}

#[test]
fn wrong_nonce_is_rejected_and_changes_nothing() {
    let k = key(5);
    let a = address(&k);
    let mut storage = funded(&a, 1000);
    let tx = sign(&k, Transaction { to: [9u8; 20], value: U256::from_u64(1), nonce: 1 });
    assert_eq!(
        ExecutionEngine::execute(&mut storage, &tx),
        Err(ExecError::InvalidNonce { expected: 0, got: 1 })
    );
    assert_eq!(storage.get_account(&a), Account { nonce: 0, balance: U256::from_u64(1000) });
    assert_eq!(storage.get_account(&[9u8; 20]), Account::empty());
}

#[test]
fn a_nonce_is_used_once() {
    let k = key(6);
    let a = address(&k);
    let mut storage = funded(&a, 1000);
    let tx = sign(&k, Transaction { to: [9u8; 20], value: U256::from_u64(10), nonce: 0 });
    assert_eq!(ExecutionEngine::execute(&mut storage, &tx), Ok(()));
    assert_eq!(storage.get_account(&a).nonce, 1);
    assert_eq!(
        ExecutionEngine::execute(&mut storage, &tx),
        Err(ExecError::InvalidNonce { expected: 1, got: 0 })
    );
    assert_eq!(storage.get_account(&a), Account { nonce: 1, balance: U256::from_u64(990) });
}

#[test]
fn insufficient_funds_debits_nothing() {
    let k = key(7);
    let a = address(&k);
    let mut storage = funded(&a, 50);
    let tx = sign(&k, Transaction { to: [9u8; 20], value: U256::from_u64(100), nonce: 0 });
    assert_eq!(ExecutionEngine::execute(&mut storage, &tx), Err(ExecError::InsufficientFunds));
    assert_eq!(storage.get_account(&a), Account { nonce: 0, balance: U256::from_u64(50) });
}

#[test]
fn self_transfer_bumps_nonce_and_keeps_balance() {
    let k = key(8);
    let a = address(&k);
    let mut storage = funded(&a, 500);
    let tx = sign(&k, Transaction { to: a, value: U256::from_u64(200), nonce: 0 });
    assert_eq!(ExecutionEngine::execute(&mut storage, &tx), Ok(()));
    assert_eq!(storage.get_account(&a), Account { nonce: 1, balance: U256::from_u64(500) });
}

#[test]
fn receiver_overflow_is_rejected() {
    let k = key(9);
    let a = address(&k);
    let b = [4u8; 20];
    let mut storage = funded(&a, 10);
    storage.set_account(&b, Account { nonce: 0, balance: U256 { hi: u128::MAX, lo: u128::MAX - 5 } });
    let tx = sign(&k, Transaction { to: b, value: U256::from_u64(10), nonce: 0 });
    assert_eq!(ExecutionEngine::execute(&mut storage, &tx), Err(ExecError::Overflow));
    assert_eq!(storage.get_account(&a), Account { nonce: 0, balance: U256::from_u64(10) });
}

#[test]
fn balances_are_conserved_over_a_batch() {
    let ka = key(10);
    let kb = key(11);
    let a = address(&ka);
    let b = address(&kb);
    let c = [0x33u8; 20];
    let mut storage = funded(&a, 1000);
    storage.set_account(&b, Account { nonce: 0, balance: U256::from_u64(300) });
    let txs = vec![
        sign(&ka, Transaction { to: b, value: U256::from_u64(400), nonce: 0 }),
        sign(&kb, Transaction { to: c, value: U256::from_u64(650), nonce: 0 }),
        sign(&ka, Transaction { to: c, value: U256::from_u64(700), nonce: 1 }),
        sign(&ka, Transaction { to: c, value: U256::from_u64(100), nonce: 1 }),
    ];
    let results = ExecutionEngine::execute_batch(&mut storage, &txs);
    assert_eq!(results, vec![Ok(()), Ok(()), Err(ExecError::InsufficientFunds), Ok(())]);
    let total: u128 = [a, b, c].iter().map(|x| storage.get_account(x).balance.lo).sum();
    assert_eq!(total, 1300);
    assert_eq!(storage.get_account(&a).balance, U256::from_u64(500));
    assert_eq!(storage.get_account(&b).balance, U256::from_u64(50));
    assert_eq!(storage.get_account(&c).balance, U256::from_u64(750));
}
