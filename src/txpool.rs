//! The pool of signed transactions that wait for a block, keyed by identity hash.
use vstd::prelude::*;
use vstd::rwlock::{RwLock, RwLockPredicate};
use std::sync::Arc;
use crate::crypto::{H256, hash_eq};
use crate::transaction::SignedTransaction;

verus! {

/// What the pool holds: identity hashes with their transactions, in the
/// order in which each hash first came.
pub type PoolView = Seq<(Seq<u8>, SignedTransaction)>;

pub open spec fn pool_keys_distinct(p: PoolView) -> bool {
    forall|i: int, j: int| 0 <= i < j < p.len() ==> p[i].0 != p[j].0
}

pub open spec fn pool_has(p: PoolView, k: Seq<u8>) -> bool {
    exists|i: int| 0 <= i < p.len() && p[i].0 == k
}

/// The pool `p` after adding `t` under `k`: it replaces the transaction of an
/// entry with that hash, or is appended.
pub open spec fn pool_add(p: PoolView, k: Seq<u8>, t: SignedTransaction) -> PoolView {
    if pool_has(p, k) {
        p.update(choose|i: int| 0 <= i < p.len() && p[i].0 == k, (k, t))
    } else {
        p.push((k, t))
    }
}

/// The pool `p` after adding each of `items` in turn.
pub open spec fn pool_add_all(p: PoolView, items: PoolView) -> PoolView
    decreases items.len(),
{
    if items.len() == 0 {
        p
    } else {
        let q = pool_add_all(p, items.drop_last());
        pool_add(q, items.last().0, items.last().1)
    }
}

/// Adding under a hash that the pool holds keeps its size; adding under one
/// that it lacks makes it one larger. Hashes stay distinct either way.
pub proof fn lemma_pool_add_size(p: PoolView, k: Seq<u8>, t: SignedTransaction)
    requires
        pool_keys_distinct(p),
    ensures
        pool_add(p, k, t).len() == p.len() + (if pool_has(p, k) { 0int } else { 1int }),
        pool_keys_distinct(pool_add(p, k, t)),
        pool_has(pool_add(p, k, t), k),
        forall|k2: Seq<u8>| pool_has(pool_add(p, k, t), k2) <==> (pool_has(p, k2) || k2 == k),
{
    let q = pool_add(p, k, t);
    if pool_has(p, k) {
        let i = choose|i: int| 0 <= i < p.len() && p[i].0 == k;
        assert(q[i].0 == k);
        assert forall|k2: Seq<u8>| pool_has(q, k2) <==> (pool_has(p, k2) || k2 == k) by {
            if pool_has(p, k2) {
                let j = choose|j: int| 0 <= j < p.len() && p[j].0 == k2;
                assert(q[j].0 == k2);
            }
            if pool_has(q, k2) {
                let j = choose|j: int| 0 <= j < q.len() && q[j].0 == k2;
                if j != i {
                    assert(p[j].0 == k2);
                }
            }
        }
    } else {
        assert(q[p.len() as int].0 == k);
        assert forall|k2: Seq<u8>| pool_has(q, k2) <==> (pool_has(p, k2) || k2 == k) by {
            if pool_has(p, k2) {
                let j = choose|j: int| 0 <= j < p.len() && p[j].0 == k2;
                assert(q[j].0 == k2);
            }
            if pool_has(q, k2) {
                let j = choose|j: int| 0 <= j < q.len() && q[j].0 == k2;
                if j < p.len() {
                    assert(p[j].0 == k2);
                }
            }
        }
    }
}

/// Adding the same transaction twice leaves the pool as adding it once.
pub proof fn lemma_pool_add_twice(p: PoolView, k: Seq<u8>, t: SignedTransaction)
    requires
        pool_keys_distinct(p),
    ensures
        pool_add(pool_add(p, k, t), k, t) == pool_add(p, k, t),
{
    let q = pool_add(p, k, t);
    lemma_pool_add_size(p, k, t);
    let i = choose|i: int| 0 <= i < q.len() && q[i].0 == k;
    assert(q[i] == (k, t));
    assert(q.update(i, (k, t)) =~= q);
}

/// Adding transactions under distinct hashes, none of which the pool holds,
/// makes the pool larger by their number.
pub proof fn lemma_pool_add_distinct(p: PoolView, items: PoolView)
    requires
        pool_keys_distinct(p),
        pool_keys_distinct(items),
        forall|i: int| 0 <= i < items.len() ==> !pool_has(p, #[trigger] items[i].0),
    ensures
        pool_add_all(p, items).len() == p.len() + items.len(),
        pool_keys_distinct(pool_add_all(p, items)),
        forall|k: Seq<u8>|
            pool_has(pool_add_all(p, items), k) <==> (pool_has(p, k) || pool_has(items, k)),
    decreases items.len(),
{
    if items.len() > 0 {
        let d = items.drop_last();
        assert forall|i: int, j: int| 0 <= i < j < d.len() implies d[i].0 != d[j].0 by {
            assert(d[i] == items[i] && d[j] == items[j]);
        }
        assert forall|i: int| 0 <= i < d.len() implies !pool_has(p, #[trigger] d[i].0) by {
            assert(d[i] == items[i]);
        }
        lemma_pool_add_distinct(p, d);
        let q = pool_add_all(p, d);
        let (k, t) = items.last();
        lemma_pool_add_size(q, k, t);
        if pool_has(d, k) {
            let j = choose|j: int| 0 <= j < d.len() && d[j].0 == k;
            assert(items[j].0 == items[items.len() - 1].0);
        }
        assert(!pool_has(p, items[items.len() - 1].0));
        assert forall|k2: Seq<u8>| pool_has(items, k2) <==> (pool_has(d, k2) || k2 == k) by {
            if pool_has(items, k2) {
                let j = choose|j: int| 0 <= j < items.len() && items[j].0 == k2;
                if j < d.len() {
                    assert(d[j].0 == k2);
                }
            }
            if pool_has(d, k2) {
                let j = choose|j: int| 0 <= j < d.len() && d[j].0 == k2;
                assert(items[j].0 == k2);
            }
            if k2 == k {
                assert(items[items.len() - 1].0 == k2);
            }
        }
    }
}

/// The pool itself, without any locking.
pub struct TxPool {
    entries: Vec<(H256, SignedTransaction)>,
}

impl View for TxPool {
    type V = PoolView;

    closed spec fn view(&self) -> PoolView {
        self.entries@.map_values(|e: (H256, SignedTransaction)| (e.0@, e.1))
    }
}

impl TxPool {
    /// No identity hash is held twice.
    pub open spec fn wf(&self) -> bool {
        pool_keys_distinct(self@)
    }

    pub fn new() -> (r: TxPool)
        ensures
            r.wf(),
            r@ == Seq::<(Seq<u8>, SignedTransaction)>::empty(),
    {
        let r = TxPool { entries: Vec::new() };
        assert(r@ =~= Seq::<(Seq<u8>, SignedTransaction)>::empty());
        r
    }

    /// Adds `tx` under its identity hash `k_hash`, replacing a transaction
    /// held under the same hash.
    pub fn add(&mut self, k_hash: &H256, tx: &SignedTransaction)
        requires
            old(self).wf(),
        ensures
            final(self).wf(),
            final(self)@ == pool_add(old(self)@, k_hash@, *tx),
    {
        proof {
            lemma_pool_add_size(self@, k_hash@, *tx);
        }
        let ghost p = self@;
        let mut i: usize = 0;
        while i < self.entries.len()
            invariant
                i <= self.entries@.len(),
                self@ == p,
                p == old(self)@,
                pool_keys_distinct(p),
                pool_keys_distinct(pool_add(p, k_hash@, *tx)),
                forall|j: int| 0 <= j < i ==> p[j].0 != k_hash@,
            decreases self.entries@.len() - i,
        {
            if hash_eq(&self.entries[i].0, k_hash) {
                proof {
                    assert(p[i as int] == (self.entries@[i as int].0@, self.entries@[i as int].1));
                    assert(p[i as int].0 == k_hash@);
                }
                self.entries[i] = (*k_hash, *tx);
                proof {
                    assert(pool_has(p, k_hash@));
                    let c = choose|c: int| 0 <= c < p.len() && p[c].0 == k_hash@;
                    assert(c == i);
                    assert(self@ =~= p.update(i as int, (k_hash@, *tx)));
                    assert(self@ == pool_add(p, k_hash@, *tx));
                }
                return;
            }
            i = i + 1;
        }
        self.entries.push((*k_hash, *tx));
        assert(self@ =~= pool_add(p, k_hash@, *tx));
    }

    /// Every transaction held, in the order of the pool.
    pub fn get_all(&self) -> (r: Vec<SignedTransaction>)
        ensures
            r@ == self@.map_values(|e: (Seq<u8>, SignedTransaction)| e.1),
    {
        let mut out: Vec<SignedTransaction> = Vec::new();
        let mut i: usize = 0;
        while i < self.entries.len()
            invariant
                i <= self.entries@.len(),
                out@ == self@.subrange(0, i as int).map_values(|e: (Seq<u8>, SignedTransaction)| e.1),
            decreases self.entries@.len() - i,
        {
            out.push(self.entries[i].1);
            i = i + 1;
            assert(out@ =~= self@.subrange(0, i as int).map_values(
                |e: (Seq<u8>, SignedTransaction)| e.1,
            ));
        }
        assert(self@.subrange(0, self@.len() as int) =~= self@);
        out
    }

    /// Empties the pool.
    pub fn clear(&mut self)
        ensures
            final(self).wf(),
            final(self)@ == Seq::<(Seq<u8>, SignedTransaction)>::empty(),
    {
        self.entries.clear();
        assert(self@ =~= Seq::<(Seq<u8>, SignedTransaction)>::empty());
    }
}

/// The invariant that the lock of a shared pool keeps.
pub struct PoolInvariant;

impl RwLockPredicate<TxPool> for PoolInvariant {
    open spec fn inv(self, p: TxPool) -> bool {
        p.wf()
    }
}

/// An error of the shared pool.
pub type PoolError = String;

/// A pool that many threads share; each operation holds its lock throughout.
#[derive(Clone)]
pub struct SharedTxPool {
    inner: Arc<RwLock<TxPool, PoolInvariant>>,
}

impl SharedTxPool {
    pub fn new() -> (r: SharedTxPool) {
        SharedTxPool { inner: Arc::new(RwLock::new(TxPool::new(), Ghost(PoolInvariant))) }
    }

    /// Adds `tx` under its identity hash `k_hash`, as `TxPool::add` does,
    /// with the pool locked.
    pub fn add(&self, k_hash: &H256, tx: &SignedTransaction) -> (r: Result<(), PoolError>)
        ensures
            r is Ok,
    {
        let (mut pool, handle) = self.inner.acquire_write();
        pool.add(k_hash, tx);
        handle.release_write(pool);
        Ok(())
    }

    /// A copy of every transaction in the pool at one moment.
    pub fn get_all_transactions(&self) -> (r: Vec<SignedTransaction>) {
        let handle = self.inner.acquire_read();
        let r = handle.borrow().get_all();
        handle.release_read();
        r
    }

    /// Empties the pool.
    pub fn clear(&self) {
        let (mut pool, handle) = self.inner.acquire_write();
        pool.clear();
        handle.release_write(pool);
    }
}

} // verus!
