use pethit::{Account, SharedStorage, SimpleStorage, U256};

#[test]
fn it_puts_and_gets() {
    let storage = SharedStorage::new();
    let key1 = b"This is the key".to_vec();
    let value1 = b"some value for the key".to_vec();
    storage.put(key1.clone(), value1.clone());
    let retrieved_value = storage.get(&key1);
    assert_eq!(retrieved_value, Some(value1));
}

#[test]
fn it_returns_none_for_missing_key() {
    let storage = SimpleStorage::new();
    let key_missing = b"missing_key".to_vec();
    let retrieved_value = storage.get(&key_missing);
    assert_eq!(retrieved_value, None);
}

#[test]
fn put_replaces_the_value_of_a_key() {
    let mut storage = SimpleStorage::new();
    storage.put(b"k".to_vec(), b"one".to_vec());
    storage.put(b"k".to_vec(), b"two".to_vec());
    storage.put(b"other".to_vec(), b"three".to_vec());
    assert_eq!(storage.get(b"k"), Some(b"two".to_vec()));
    assert_eq!(storage.get(b"other"), Some(b"three".to_vec()));
}

#[test]
fn unknown_address_reads_as_empty_account() {
    let storage = SimpleStorage::new();
    let a = storage.get_account(&[7u8; 20]);
    assert_eq!(a, Account { nonce: 0, balance: U256::zero() });
}

#[test]
fn account_round_trips_through_the_store() {
    let mut storage = SimpleStorage::new();
    let acc = Account { nonce: 5, balance: U256 { hi: 3, lo: 1000 } };
    storage.set_account(&[1u8; 20], acc);
    assert_eq!(storage.get_account(&[1u8; 20]), acc);
    assert_eq!(storage.get_account(&[2u8; 20]), Account::empty());
    // The record is stored as the list [nonce, balance].
    assert_eq!(Account { nonce: 0, balance: U256::zero() }.encode(), vec![0xc2, 0x80, 0x80]);
    assert_eq!(Account { nonce: 1, balance: U256::from_u64(1000) }.encode(), vec![0xc4, 0x01, 0x82, 0x03, 0xe8]);
}

#[test]
fn bytes_that_hold_no_account_read_as_empty() {
    let mut storage = SimpleStorage::new();
    storage.put(vec![9u8; 20], b"not an account".to_vec());
    assert_eq!(storage.get_account(&[9u8; 20]), Account::empty());
    assert_eq!(Account::decode(&[0xc2, 0x80]), None);
    assert_eq!(Account::decode(&[0xc3, 0x00, 0x80, 0x80]), None);
}

#[test]
fn shared_storage_accounts() {
    let storage = SharedStorage::new();
    let acc = Account { nonce: 2, balance: U256::from_u64(77) };
    storage.set_account(&[3u8; 20], acc);
    assert_eq!(storage.get_account(&[3u8; 20]), acc);
    let other = storage.clone();
    assert_eq!(other.get_account(&[3u8; 20]), acc);
}
