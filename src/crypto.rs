//! The hash function and the signature scheme, both from outside crates.
use vstd::prelude::*;

verus! {

/// A 256-bit digest.
pub type H256 = [u8; 32];

/// A 20-byte account address.
pub type Address = [u8; 20];

/// The Keccak-256 digest of `data`.
pub uninterp spec fn keccak_of(data: Seq<u8>) -> Seq<u8>;

/// The uncompressed public key, without its 0x04 tag byte, that secp256k1
/// public-key recovery yields for a 32-byte message hash, a 64-byte signature
/// `r || s` and a recovery id; `None` where recovery fails.
pub uninterp spec fn recovered_key(prehash: Seq<u8>, sig: Seq<u8>, recid: u8) -> Option<Seq<u8>>;

/// Relies on alloy_primitives::keccak256: the Keccak-256 digest of the bytes,
/// which depends on the bytes alone.
#[verifier::external_body]
pub(crate) fn keccak(data: &[u8]) -> (r: H256)
    ensures
        r@ == keccak_of(data@),
{
    alloy_primitives::keccak256(data).0
}

/// Relies on k256 (ecdsa's `Signature::from_slice`, `RecoveryId::from_byte`,
/// `VerifyingKey::recover_from_prehash` and `to_encoded_point(false)`): the
/// recovered key as `recovered_key` names it, or `None` where the signature
/// bytes do not parse, the id is not one that k256 takes, or recovery fails.
#[verifier::external_body]
pub(crate) fn recover_key(prehash: &H256, sig: &[u8; 64], recid: u8) -> (r: Option<Vec<u8>>)
    ensures
        match r {
            Some(k) => recovered_key(prehash@, sig@, recid) == Some(k@),
            None => recovered_key(prehash@, sig@, recid) is None,
        },
{
    let signature = k256::ecdsa::Signature::from_slice(sig).ok()?;
    let id = k256::ecdsa::RecoveryId::from_byte(recid)?;
    let key = k256::ecdsa::VerifyingKey::recover_from_prehash(prehash, &signature, id).ok()?;
    Some(key.to_encoded_point(false).as_bytes()[1..].to_vec())
}

/// The address of a public key: the last 20 bytes of the digest of its
/// uncompressed form without the tag byte.
pub open spec fn address_of(key: Seq<u8>) -> Seq<u8> {
    keccak_of(key).subrange(12, 32)
}

/// Whether two digests are equal.
pub fn hash_eq(a: &H256, b: &H256) -> (r: bool)
    ensures
        r == (a@ == b@),
{
    let mut i: usize = 0;
    while i < 32
        invariant
            i <= 32,
            a@.len() == 32,
            b@.len() == 32,
            a@.subrange(0, i as int) == b@.subrange(0, i as int),
        decreases 32 - i,
    {
        if a[i] != b[i] {
            return false;
        }
        assert(a@.subrange(0, i + 1) =~= a@.subrange(0, i as int).push(a@[i as int]));
        assert(b@.subrange(0, i + 1) =~= b@.subrange(0, i as int).push(b@[i as int]));
        i = i + 1;
    }
    assert(a@ =~= a@.subrange(0, 32));
    assert(b@ =~= b@.subrange(0, 32));
    true
}

/// The address that a public key yields.
pub fn address_from_key(key: &[u8]) -> (r: Address)
    ensures
        r@ == address_of(key@),
{
    let h = keccak(key);
    let mut a: Address = [0u8; 20];
    let mut i: usize = 0;
    while i < 20
        invariant
            i <= 20,
            h@.len() == 32,
            a@.len() == 20,
            forall|j: int| 0 <= j < i ==> a@[j] == h@[j + 12],
        decreases 20 - i,
    {
        a[i] = h[i + 12];
        i = i + 1;
    }
    assert(a@ =~= h@.subrange(12, 32));
    a
}

} // verus!
