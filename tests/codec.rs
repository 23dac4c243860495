use alloy_rlp::Encodable;
use pethit::{DecodeError, SignedTransaction, Transaction, U256};

fn sample_tx() -> Transaction {
    Transaction { to: [0x11u8; 20], value: U256::from_u64(100), nonce: 0 }
}

fn sample_signed() -> SignedTransaction {
    let mut signature = [0u8; 64];
    for (i, b) in signature.iter_mut().enumerate() {
        *b = i as u8 + 1;
    }
    SignedTransaction { transaction: sample_tx(), signature, recovery_id: 1 }
}

#[test]
fn transaction_encoding_is_the_rlp_list_of_its_fields() {
    let tx = sample_tx();
    let enc = tx.encode();
    let mut expected = vec![0xc0 + 23, 0x94];
    expected.extend_from_slice(&[0x11u8; 20]);
    expected.push(100);
    expected.push(0x80);
    assert_eq!(enc, expected);
}

#[test]
fn transaction_encoding_matches_alloy_rlp() {
    let tx = Transaction {
        to: [0xabu8; 20],
        value: U256 { hi: 0, lo: 0x0123_4567_89ab_cdef_0011_2233_4455_6677 },
        nonce: 0x0102_0304_0506,
    };
    let mut payload = Vec::new();
    tx.to.encode(&mut payload);
    tx.value.lo.encode(&mut payload);
    tx.nonce.encode(&mut payload);
    let mut expected = Vec::new();
    alloy_rlp::Header { list: true, payload_length: payload.len() }.encode(&mut expected);
    expected.extend_from_slice(&payload);
    assert_eq!(tx.encode(), expected);
}

#[test]
fn transaction_round_trips() {
    for tx in [
        sample_tx(),
        Transaction { to: [0u8; 20], value: U256::zero(), nonce: u64::MAX },
        Transaction { to: [0xffu8; 20], value: U256 { hi: u128::MAX, lo: u128::MAX }, nonce: 127 },
        Transaction { to: [5u8; 20], value: U256::from_u64(0x80), nonce: 128 },
    ] {
        assert_eq!(Transaction::decode(&tx.encode()), Ok(tx));
    }
}

#[test]
fn signed_transaction_round_trips() {
    let s = sample_signed();
    assert_eq!(SignedTransaction::decode(&s.encode()), Ok(s));
    let s0 = SignedTransaction { recovery_id: 0, ..s };
    assert_eq!(SignedTransaction::decode(&s0.encode()), Ok(s0));
    let s200 = SignedTransaction { recovery_id: 200, ..s };
    assert_eq!(SignedTransaction::decode(&s200.encode()), Ok(s200));
}

#[test]
fn signed_encoding_nests_the_transaction() {
    let s = sample_signed();
    let enc = s.encode();
    let inner = s.transaction.encode();
    // Outer list with a one-byte length, then the transaction's own encoding,
    // the signature as a 64-byte string, and the recovery byte.
    assert_eq!(enc[0], 0xf8);
    assert_eq!(enc[1] as usize, enc.len() - 2);
    assert_eq!(&enc[2..2 + inner.len()], &inner[..]);
    assert_eq!(&enc[2 + inner.len()..4 + inner.len()], &[0xb8, 64]);
    assert_eq!(&enc[4 + inner.len()..68 + inner.len()], &s.signature[..]);
    assert_eq!(enc[enc.len() - 1], 1);
}

#[test]
fn decode_rejects_empty_and_truncated_input() {
    assert_eq!(Transaction::decode(&[]), Err(DecodeError::Truncated));
    let enc = sample_tx().encode();
    for n in 1..enc.len() {
        assert_eq!(Transaction::decode(&enc[..n]), Err(DecodeError::Truncated));
    }
    let senc = sample_signed().encode();
    assert_eq!(SignedTransaction::decode(&senc[..senc.len() - 1]), Err(DecodeError::Truncated));
}

#[test]
fn decode_rejects_trailing_bytes() {
    let mut enc = sample_tx().encode();
    enc.push(0);
    assert_eq!(Transaction::decode(&enc), Err(DecodeError::TrailingBytes));
    let mut senc = sample_signed().encode();
    senc.extend_from_slice(&[1, 2]);
    assert_eq!(SignedTransaction::decode(&senc), Err(DecodeError::TrailingBytes));
}

#[test]
fn decode_rejects_malformed_headers() {
    // A string where a list must stand.
    assert_eq!(Transaction::decode(&[0x80]), Err(DecodeError::MalformedHeader));
    // A length of length that the format never uses.
    assert_eq!(Transaction::decode(&[0xf9, 0x00, 0x01]), Err(DecodeError::MalformedHeader));
    // A long-form header for a short payload.
    let enc = sample_tx().encode();
    let mut long = vec![0xf8, (enc.len() - 1) as u8];
    long.extend_from_slice(&enc[1..]);
    assert_eq!(Transaction::decode(&long), Err(DecodeError::MalformedHeader));
    // A single byte below 0x80 wrapped in a header.
    assert_eq!(Transaction::decode(&[0xc2, 0x81, 0x05]), Err(DecodeError::MalformedHeader));
}

#[test]
fn decode_rejects_invalid_fields() {
    // Receiver of 19 bytes.
    let mut bad = vec![0xc0 + 22, 0x93];
    bad.extend_from_slice(&[0x11u8; 19]);
    bad.push(100);
    bad.push(0x80);
    assert_eq!(Transaction::decode(&bad), Err(DecodeError::InvalidField));
    // Value with a leading zero byte.
    let mut lead = vec![0xc0 + 25, 0x94];
    lead.extend_from_slice(&[0x11u8; 20]);
    lead.extend_from_slice(&[0x82, 0x00, 0x64, 0x80]);
    assert_eq!(Transaction::decode(&lead), Err(DecodeError::InvalidField));
}

#[test]
fn test_transaction_hashing() {
    let tx = sample_tx();
    let hash = tx.hash();
    assert_eq!(hash.len(), 32);
    assert_eq!(hash, alloy_primitives::keccak256(tx.encode()).0);
    assert_ne!(hash, [0u8; 32]);
}

#[test]
fn hash_is_deterministic() {
    let tx = sample_tx();
    assert_eq!(tx.hash(), tx.hash());
    assert_eq!(tx.hash(), sample_tx().hash());
    // A fixed value: the same in every process.
    let expected = alloy_primitives::keccak256(&tx.encode()[..]).0;
    assert_eq!(tx.hash(), expected);
    let other = Transaction { nonce: 1, ..tx };
    assert_ne!(tx.hash(), other.hash());
}

#[test]
fn identity_hash_covers_signature_and_recovery_id() {
    let s = sample_signed();
    let mut data = s.transaction.hash().to_vec();
    data.extend_from_slice(&s.signature);
    data.push(s.recovery_id);
    assert_eq!(s.identity_hash(), alloy_primitives::keccak256(&data).0);
    let other = SignedTransaction { recovery_id: 0, ..s };
    assert_ne!(s.identity_hash(), other.identity_hash());
}

#[test]
fn u256_arithmetic() {
    let max = U256 { hi: u128::MAX, lo: u128::MAX };
    let one = U256::from_u64(1);
    assert_eq!(max.checked_add(&one), None);
    assert_eq!(U256 { hi: 0, lo: u128::MAX }.checked_add(&one), Some(U256 { hi: 1, lo: 0 }));
    assert_eq!(U256 { hi: 1, lo: 0 }.checked_sub(&one), Some(U256 { hi: 0, lo: u128::MAX }));
    assert_eq!(one.checked_sub(&U256::from_u64(2)), None);
    assert!(U256 { hi: 1, lo: 0 }.ge(&U256 { hi: 0, lo: u128::MAX }));
    assert!(!one.ge(&U256::from_u64(2)));
    assert_eq!(U256::zero().to_be_min(), Vec::<u8>::new());
    assert_eq!(U256::from_u64(1000).to_be_min(), vec![0x03, 0xe8]);
    assert_eq!(U256 { hi: 1, lo: 0 }.to_be_min(), {
        let mut v = vec![1u8];
        v.extend_from_slice(&[0u8; 16]);
        v
    });
    assert_eq!(U256::from_be_slice(&[0x03, 0xe8], 0, 2), U256::from_u64(1000));
}
