//! Applying one signed transaction to the account store.
use vstd::prelude::*;
use crate::storage::{Account, SimpleStorage, account_at, bytes_eq};
use crate::transaction::{SignedTransaction, sender_of};
use crate::storage::{encode_account, lemma_account_in_encoded};
use crate::uint::{lemma_u256_bound, lemma_u256_of, lemma_u256_of_value, two_256, u256_of};

verus! {

/// Why a transaction was not applied.
#[derive(Clone, Copy, Debug, PartialEq, Eq, Structural)]
pub enum ExecError {
    /// The transaction's nonce is not the sender's current nonce.
    InvalidNonce { expected: u64, got: u64 },
    /// The sender's balance is below the value sent.
    InsufficientFunds,
    /// No sender can be recovered from the signature.
    BadSignature,
    /// The sender's nonce, or the receiver's balance, would leave its range.
    Overflow,
}

/// What executing `s` against the store `m` yields.
#[verifier::opaque]
pub open spec fn exec_outcome(m: Map<Seq<u8>, Seq<u8>>, s: SignedTransaction) -> Result<(), ExecError> {
    match sender_of(s) {
        None => Err(ExecError::BadSignature),
        Some(from) => {
            let acc = account_at(m, from);
            let t = s.transaction;
            if t.nonce != acc.nonce {
                Err(ExecError::InvalidNonce { expected: acc.nonce, got: t.nonce })
            } else if acc.balance@ < t.value@ {
                Err(ExecError::InsufficientFunds)
            } else if acc.nonce == u64::MAX {
                Err(ExecError::Overflow)
            } else if t.to@ != from && account_at(m, t.to@).balance@ + t.value@ >= two_256() {
                Err(ExecError::Overflow)
            } else {
                Ok(())
            }
        },
    }
}

/// The store `m` after executing `s`: unchanged where execution fails;
/// otherwise the sender's record is written with its nonce one higher and the
/// value taken off, and then the receiver's record, as it reads after that
/// write, with the value added.
#[verifier::opaque]
pub open spec fn applied(m: Map<Seq<u8>, Seq<u8>>, s: SignedTransaction) -> Map<Seq<u8>, Seq<u8>> {
    match exec_outcome(m, s) {
        Err(_) => m,
        Ok(_) => {
            let from = sender_of(s)->Some_0;
            let t = s.transaction;
            let acc = account_at(m, from);
            let m1 = m.insert(
                from,
                encode_account(
                    Account { nonce: (acc.nonce + 1) as u64, balance: u256_of((acc.balance@ - t.value@) as nat) },
                ),
            );
            let rc = account_at(m1, t.to@);
            m1.insert(
                t.to@,
                encode_account(Account { nonce: rc.nonce, balance: u256_of(rc.balance@ + t.value@) }),
            )
        },
    }
}

/// The store `m` after executing each of `txs` in turn.
pub open spec fn applied_all(m: Map<Seq<u8>, Seq<u8>>, txs: Seq<SignedTransaction>) -> Map<Seq<u8>, Seq<u8>>
    decreases txs.len(),
{
    if txs.len() == 0 {
        m
    } else {
        applied(applied_all(m, txs.drop_last()), txs.last())
    }
}

/// The transactions of `txs` that succeed when all of them are executed in
/// turn against `m`, in their order.
pub open spec fn included(m: Map<Seq<u8>, Seq<u8>>, txs: Seq<SignedTransaction>) -> Seq<SignedTransaction>
    decreases txs.len(),
{
    if txs.len() == 0 {
        Seq::empty()
    } else {
        let prev = included(m, txs.drop_last());
        if exec_outcome(applied_all(m, txs.drop_last()), txs.last()) is Ok {
            prev.push(txs.last())
        } else {
            prev
        }
    }
}

/// `new` is `old` after the sender `from` has sent `s` successfully: the
/// sender's nonce is one higher and the value has moved from the sender to
/// the receiver; no other entry has changed.
pub open spec fn transferred(
    old: Map<Seq<u8>, Seq<u8>>,
    new: Map<Seq<u8>, Seq<u8>>,
    from: Seq<u8>,
    s: SignedTransaction,
) -> bool {
    let t = s.transaction;
    let acc = account_at(old, from);
    &&& account_at(new, from).nonce == acc.nonce + 1
    &&& (t.to@ == from ==> account_at(new, from).balance == acc.balance)
    &&& (t.to@ != from ==> {
        &&& account_at(new, from).balance@ == acc.balance@ - t.value@
        &&& account_at(new, t.to@).balance@ == account_at(old, t.to@).balance@ + t.value@
        &&& account_at(new, t.to@).nonce == account_at(old, t.to@).nonce
    })
    &&& new.remove(from).remove(t.to@) == old.remove(from).remove(t.to@)
}

/// A transaction whose nonce differs from its sender's current nonce is
/// rejected with `InvalidNonce` and leaves the store as it was.
pub proof fn lemma_wrong_nonce_rejected(m: Map<Seq<u8>, Seq<u8>>, s: SignedTransaction)
    requires
        sender_of(s) is Some,
        s.transaction.nonce != account_at(m, sender_of(s)->Some_0).nonce,
    ensures
        exec_outcome(m, s) == Err::<(), ExecError>(
            ExecError::InvalidNonce {
                expected: account_at(m, sender_of(s)->Some_0).nonce,
                got: s.transaction.nonce,
            },
        ),
        applied(m, s) == m,
{
    reveal(exec_outcome);
    reveal(applied);
}

/// Once a transaction with its sender's current nonce `n` is applied, the
/// sender's nonce is `n + 1`, and any further transaction of that sender with
/// nonce `n` is rejected and changes nothing: exactly one succeeds.
pub proof fn lemma_nonce_used_once(m: Map<Seq<u8>, Seq<u8>>, s1: SignedTransaction, s2: SignedTransaction)
    requires
        exec_outcome(m, s1) is Ok,
        sender_of(s2) == sender_of(s1),
        s2.transaction.nonce == s1.transaction.nonce,
    ensures
        account_at(applied(m, s1), sender_of(s1)->Some_0).nonce == s1.transaction.nonce + 1,
        exec_outcome(applied(m, s1), s2) == Err::<(), ExecError>(
            ExecError::InvalidNonce {
                expected: (s1.transaction.nonce + 1) as u64,
                got: s1.transaction.nonce,
            },
        ),
        applied(applied(m, s1), s2) == applied(m, s1),
{
    reveal(exec_outcome);
    reveal(applied);
    let from = sender_of(s1)->Some_0;
    let t = s1.transaction;
    let acc = account_at(m, from);
    let a1 = Account { nonce: (acc.nonce + 1) as u64, balance: u256_of((acc.balance@ - t.value@) as nat) };
    let m1 = m.insert(from, encode_account(a1));
    let rc = account_at(m1, t.to@);
    let a2 = Account { nonce: rc.nonce, balance: u256_of(rc.balance@ + t.value@) };
    lemma_account_in_encoded(a1);
    lemma_account_in_encoded(a2);
    assert(account_at(applied(m, s1), from).nonce == acc.nonce + 1);
    lemma_wrong_nonce_rejected(applied(m, s1), s2);
}

/// A transaction whose sender `from` has the nonce it names and the value it
/// sends, sent to another address whose balance has room for it, succeeds:
/// the sender's nonce is one higher and the value has moved from the sender
/// to the receiver; every other address is unchanged.
pub proof fn lemma_transfer_succeeds(m: Map<Seq<u8>, Seq<u8>>, s: SignedTransaction, from: Seq<u8>)
    requires
        sender_of(s) == Some(from),
        s.transaction.nonce == account_at(m, from).nonce,
        s.transaction.value@ <= account_at(m, from).balance@,
        account_at(m, from).nonce < u64::MAX,
        s.transaction.to@ != from,
        account_at(m, s.transaction.to@).balance@ + s.transaction.value@ < two_256(),
    ensures
        exec_outcome(m, s) == Ok::<(), ExecError>(()),
        account_at(applied(m, s), from).nonce == account_at(m, from).nonce + 1,
        account_at(applied(m, s), from).balance@ == account_at(m, from).balance@ - s.transaction.value@,
        account_at(applied(m, s), s.transaction.to@).nonce == account_at(m, s.transaction.to@).nonce,
        account_at(applied(m, s), s.transaction.to@).balance@ == account_at(m, s.transaction.to@).balance@
            + s.transaction.value@,
        forall|k: Seq<u8>|
            k != from && k != s.transaction.to@ ==> #[trigger] account_at(applied(m, s), k)
                == account_at(m, k),
{
    reveal(exec_outcome);
    reveal(applied);
    let t = s.transaction;
    let acc = account_at(m, from);
    let a1 = Account { nonce: (acc.nonce + 1) as u64, balance: u256_of((acc.balance@ - t.value@) as nat) };
    let m1 = m.insert(from, encode_account(a1));
    let rc = account_at(m1, t.to@);
    let a2 = Account { nonce: rc.nonce, balance: u256_of(rc.balance@ + t.value@) };
    lemma_account_in_encoded(a1);
    lemma_account_in_encoded(a2);
    lemma_u256_bound(acc.balance);
    lemma_u256_of_value((acc.balance@ - t.value@) as nat);
    lemma_u256_of_value(rc.balance@ + t.value@);
}

/// No transaction whose recovered sender is not `a` lowers `a`'s balance or
/// changes `a`'s nonce.
pub proof fn lemma_only_owner_debits(m: Map<Seq<u8>, Seq<u8>>, s: SignedTransaction, a: Seq<u8>)
    requires
        sender_of(s) != Some(a),
    ensures
        account_at(applied(m, s), a).nonce == account_at(m, a).nonce,
        account_at(applied(m, s), a).balance@ >= account_at(m, a).balance@,
{
    reveal(exec_outcome);
    reveal(applied);
    if exec_outcome(m, s) is Ok {
        let from = sender_of(s)->Some_0;
        let t = s.transaction;
        let acc = account_at(m, from);
        let a1 = Account { nonce: (acc.nonce + 1) as u64, balance: u256_of((acc.balance@ - t.value@) as nat) };
        let m1 = m.insert(from, encode_account(a1));
        let rc = account_at(m1, t.to@);
        let a2 = Account { nonce: rc.nonce, balance: u256_of(rc.balance@ + t.value@) };
        lemma_account_in_encoded(a1);
        lemma_account_in_encoded(a2);
        lemma_u256_bound(acc.balance);
        lemma_u256_of_value((acc.balance@ - t.value@) as nat);
        lemma_u256_of_value(rc.balance@ + t.value@);
    }
}

/// The logic that applies transactions; it holds no state.
#[derive(Debug)]
pub struct ExecutionEngine;

impl ExecutionEngine {
    pub fn new() -> (r: ExecutionEngine) {
        ExecutionEngine
    }

    /// Validates `tx` against the store and applies it: the sender's nonce
    /// goes up by one and the value moves from the sender to the receiver.
    ///
    /// A rejected transaction leaves the store as it was; an applied one
    /// keeps the sum of all balances.
    pub fn execute(storage: &mut SimpleStorage, tx: &SignedTransaction) -> (r: Result<(), ExecError>)
        requires
            old(storage).wf(),
        ensures
            final(storage).wf(),
            r == exec_outcome(old(storage)@, *tx),
            final(storage)@ == applied(old(storage)@, *tx),
            r is Ok ==> transferred(old(storage)@, final(storage)@, sender_of(*tx)->Some_0, *tx),
            r is Err ==> final(storage)@ == old(storage)@,
            final(storage).total_balance() == old(storage).total_balance(),
    {
        reveal(exec_outcome);
        reveal(applied);
        let from = match tx.recover_sender() {
            Ok(a) => a,
            Err(_) => {
                return Err(ExecError::BadSignature);
            },
        };
        let t = &tx.transaction;
        let acc = storage.get_account(&from);
        if t.nonce != acc.nonce {
            return Err(ExecError::InvalidNonce { expected: acc.nonce, got: t.nonce });
        }
        let debited = match acc.balance.checked_sub(&t.value) {
            Some(b) => b,
            None => {
                return Err(ExecError::InsufficientFunds);
            },
        };
        if acc.nonce == u64::MAX {
            return Err(ExecError::Overflow);
        }
        let to_self = bytes_eq(t.to.as_slice(), from.as_slice());
        // The receiver's new record, read before any write; for a transfer to
        // oneself it is the sender's record after the debit, built below.
        let credited_other = if to_self {
            None
        } else {
            let receiver = storage.get_account(&t.to);
            match receiver.balance.checked_add(&t.value) {
                Some(c) => Some(Account { nonce: receiver.nonce, balance: c }),
                None => {
                    return Err(ExecError::Overflow);
                },
            }
        };
        let ghost m0 = storage@;
        let debited_record = Account { nonce: acc.nonce + 1, balance: debited };
        storage.set_account(&from, debited_record);
        let ghost m1 = storage@;
        let credited_record = match credited_other {
            Some(a) => a,
            None => Account { nonce: debited_record.nonce, balance: acc.balance },
        };
        let credited = credited_record.balance;
        proof {
            lemma_u256_of(acc.balance);
            if !to_self {
                assert(account_at(m1, t.to@) == account_at(m0, t.to@));
            }
        }
        storage.set_account(&t.to, credited_record);
        proof {
            let m2 = storage@;
            lemma_u256_of(debited);
            lemma_u256_of(credited);
            if to_self {
                assert(t.to@ == from@);
                crate::uint::lemma_u256_unique(credited, acc.balance);
                assert(m2.remove(from@).remove(t.to@) =~= m0.remove(from@).remove(t.to@));
            } else {
                assert(m2.remove(from@).remove(t.to@) =~= m0.remove(from@).remove(t.to@));
            }
        }
        Ok(())
    }

    /// Executes each of `txs` in turn, skipping those that fail; returns what
    /// each execution gave.
    pub fn execute_batch(storage: &mut SimpleStorage, txs: &Vec<SignedTransaction>) -> (r: Vec<
        Result<(), ExecError>,
    >)
        requires
            old(storage).wf(),
        ensures
            final(storage).wf(),
            final(storage)@ == applied_all(old(storage)@, txs@),
            r@.len() == txs@.len(),
            forall|i: int|
                0 <= i < txs@.len() ==> r@[i] == exec_outcome(
                    applied_all(old(storage)@, txs@.subrange(0, i)),
                    #[trigger] txs@[i],
                ),
            final(storage).total_balance() == old(storage).total_balance(),
    {
        let mut results: Vec<Result<(), ExecError>> = Vec::new();
        let mut i: usize = 0;
        while i < txs.len()
            invariant
                i <= txs@.len(),
                storage.wf(),
                storage@ == applied_all(old(storage)@, txs@.subrange(0, i as int)),
                storage.total_balance() == old(storage).total_balance(),
                results@.len() == i,
                forall|j: int|
                    0 <= j < i ==> results@[j] == exec_outcome(
                        applied_all(old(storage)@, txs@.subrange(0, j)),
                        #[trigger] txs@[j],
                    ),
            decreases txs@.len() - i,
        {
            let res = Self::execute(storage, &txs[i]);
            proof {
                assert(txs@.subrange(0, i + 1).drop_last() =~= txs@.subrange(0, i as int));
            }
            results.push(res);
            i = i + 1;
        }
        proof {
            assert(txs@.subrange(0, txs@.len() as int) =~= txs@);
        }
        results
    }

    /// Executes each of `txs` in turn and returns those that succeeded, in
    /// order: what a block holds. The failed ones are dropped.
    pub fn execute_block(storage: &mut SimpleStorage, txs: &Vec<SignedTransaction>) -> (r: Vec<
        SignedTransaction,
    >)
        requires
            old(storage).wf(),
        ensures
            final(storage).wf(),
            final(storage)@ == applied_all(old(storage)@, txs@),
            r@ == included(old(storage)@, txs@),
            final(storage).total_balance() == old(storage).total_balance(),
    {
        let mut kept: Vec<SignedTransaction> = Vec::new();
        let mut i: usize = 0;
        while i < txs.len()
            invariant
                i <= txs@.len(),
                storage.wf(),
                storage@ == applied_all(old(storage)@, txs@.subrange(0, i as int)),
                storage.total_balance() == old(storage).total_balance(),
                kept@ == included(old(storage)@, txs@.subrange(0, i as int)),
            decreases txs@.len() - i,
        {
            let tx = txs[i];
            let res = Self::execute(storage, &tx);
            proof {
                assert(txs@.subrange(0, i + 1).drop_last() =~= txs@.subrange(0, i as int));
            }
            if res.is_ok() {
                kept.push(tx);
            }
            i = i + 1;
        }
        proof {
            assert(txs@.subrange(0, txs@.len() as int) =~= txs@);
        }
        kept
    }

    /// The value stored under `key`, if any.
    pub fn get_state(storage: &SimpleStorage, key: &[u8]) -> (r: Option<Vec<u8>>)
        requires
            storage.wf(),
        ensures
            match r {
                Some(v) => storage@.contains_key(key@) && v@ == storage@[key@],
                None => !storage@.contains_key(key@),
            },
    {
        storage.get(key)
    }
}

} // verus!
