//! What the request layer calls: submitting an encoded signed transaction,
//! and looking up blocks and accounts.
use vstd::prelude::*;
use crate::consensus::{SealedBlock, SharedChain};
use crate::crypto::{Address, H256};
use crate::rlp::DecodeError;
use crate::storage::{Account, SharedStorage};
use crate::transaction::{
    AuthError, SignedTransaction, encode_signed, identity_of, sender_of, signed_decode_error,
};
use crate::txpool::{SharedTxPool, TxPool, pool_add};

verus! {

/// Why a submission was refused.
#[derive(Clone, Copy, Debug, PartialEq, Eq, Structural)]
pub enum SubmitError {
    /// The bytes are not the encoding of a signed transaction.
    Decode(DecodeError),
    /// No sender can be recovered from the signature.
    Auth(AuthError),
}

/// Checks an encoded signed transaction as a submission does: it must decode,
/// and a sender must be recoverable from it. Returns it with its identity hash.
///
/// Account state (nonce, balance) is not consulted: that waits for execution.
pub fn check_submission(raw: &[u8]) -> (r: Result<(SignedTransaction, H256), SubmitError>)
    ensures
        r matches Ok((s, h)) ==> encode_signed(s) == raw@ && sender_of(s) is Some && h@
            == identity_of(s),
        forall|s: SignedTransaction|
            encode_signed(s) == raw@ ==> (if sender_of(s) is Some {
                r matches Ok((s2, _)) && s2 == s
            } else {
                r == Err::<(SignedTransaction, H256), SubmitError>(
                    SubmitError::Auth(AuthError::InvalidSignature),
                )
            }),
        (forall|s: SignedTransaction| encode_signed(s) != raw@) ==> r matches Err(
            SubmitError::Decode(_),
        ),
        signed_decode_error(raw@) matches Some(e) ==> r == Err::<(SignedTransaction, H256), SubmitError>(
            SubmitError::Decode(e),
        ),
{
    let s = match SignedTransaction::decode(raw) {
        Ok(s) => s,
        Err(e) => {
            return Err(SubmitError::Decode(e));
        },
    };
    match s.recover_sender() {
        Ok(_) => {},
        Err(e) => {
            return Err(SubmitError::Auth(e));
        },
    }
    let h = s.identity_hash();
    Ok((s, h))
}

/// Submits an encoded signed transaction to `pool`: where it passes
/// `check_submission`, it is added under its identity hash, which is returned;
/// otherwise the pool is left as it was.
pub fn submit_to(pool: &mut TxPool, raw: &[u8]) -> (r: Result<H256, SubmitError>)
    requires
        old(pool).wf(),
    ensures
        final(pool).wf(),
        match r {
            Ok(h) => exists|s: SignedTransaction|
                encode_signed(s) == raw@ && sender_of(s) is Some && h@ == identity_of(s)
                    && final(pool)@ == pool_add(old(pool)@, h@, s),
            Err(_) => final(pool)@ == old(pool)@,
        },
        forall|s: SignedTransaction|
            encode_signed(s) == raw@ && sender_of(s) is Some ==> r is Ok,
        signed_decode_error(raw@) matches Some(e) ==> r == Err::<H256, SubmitError>(
            SubmitError::Decode(e),
        ),
        forall|s: SignedTransaction|
            encode_signed(s) == raw@ && sender_of(s) is None ==> r == Err::<H256, SubmitError>(
                SubmitError::Auth(AuthError::InvalidSignature),
            ),
{
    match check_submission(raw) {
        Ok((s, h)) => {
            pool.add(&h, &s);
            Ok(h)
        },
        Err(e) => Err(e),
    }
}

/// The node's shared state, as the request layer and the miner see it.
#[derive(Clone)]
pub struct Node {
    pub txpool: SharedTxPool,
    pub storage: SharedStorage,
    pub chain: SharedChain,
}

impl Node {
    pub fn new(txpool: SharedTxPool, storage: SharedStorage, chain: SharedChain) -> (r: Node) {
        Node { txpool, storage, chain }
    }

    /// Checks an encoded signed transaction as `check_submission` does and
    /// adds it to the pool; returns its identity hash.
    pub fn submit(&self, raw: &[u8]) -> (r: Result<H256, SubmitError>)
        ensures
            r matches Ok(h) ==> exists|s: SignedTransaction|
                encode_signed(s) == raw@ && sender_of(s) is Some && h@ == identity_of(s),
            forall|s: SignedTransaction|
                encode_signed(s) == raw@ && sender_of(s) is Some ==> r is Ok,
            signed_decode_error(raw@) matches Some(e) ==> r == Err::<H256, SubmitError>(
                SubmitError::Decode(e),
            ),
            forall|s: SignedTransaction|
                encode_signed(s) == raw@ && sender_of(s) is None ==> r == Err::<H256, SubmitError>(
                    SubmitError::Auth(AuthError::InvalidSignature),
                ),
    {
        match check_submission(raw) {
            Ok((s, h)) => {
                let _ = self.txpool.add(&h, &s);
                Ok(h)
            },
            Err(e) => Err(e),
        }
    }

    /// The first block whose hash is `hash`, if any.
    pub fn lookup_block(&self, hash: &H256) -> (r: Option<SealedBlock>)
        ensures
            r matches Some(b) ==> b.hash_view() == hash@,
    {
        self.chain.get_block_by_hash(hash)
    }

    /// The account of `addr`.
    pub fn lookup_account(&self, addr: &Address) -> (r: Account) {
        self.storage.get_account(addr)
    }
}

} // verus!
