//! Blocks, their sealing into hash-bearing blocks, the chain they form, and
//! the miner that turns the pool into the next block.
use vstd::prelude::*;
use vstd::rwlock::{RwLock, RwLockPredicate};
use std::sync::Arc;
use crate::crypto::{H256, hash_eq, keccak, keccak_of};
use crate::execution::{ExecutionEngine, applied_all, included};
use crate::rlp::push_all;
use crate::storage::{SharedStorage, SimpleStorage};
use crate::transaction::{SignedTransaction, identity_of};
use crate::txpool::{SharedTxPool, TxPool};

verus! {

/// What a block holds.
pub ghost struct BlockView {
    pub id: u64,
    pub transactions: Seq<SignedTransaction>,
    pub parent_hash: Seq<u8>,
}

/// The last `n` bytes of `v` in big-endian order.
pub open spec fn be_fixed(v: nat, n: nat) -> Seq<u8>
    decreases n,
{
    if n == 0 {
        Seq::empty()
    } else {
        be_fixed(v / 256, (n - 1) as nat).push((v % 256) as u8)
    }
}

/// The identity hashes of `txs`, one after another.
pub open spec fn tx_hashes(txs: Seq<SignedTransaction>) -> Seq<u8>
    decreases txs.len(),
{
    if txs.len() == 0 {
        Seq::empty()
    } else {
        tx_hashes(txs.drop_last()) + identity_of(txs.last())
    }
}

/// The bytes that a block's hash is the digest of: its id in eight big-endian
/// bytes, its parent's hash, and the identity hashes of its transactions.
pub open spec fn block_preimage(b: BlockView) -> Seq<u8> {
    be_fixed(b.id as nat, 8) + b.parent_hash + tx_hashes(b.transactions)
}

pub open spec fn block_hash_of(b: BlockView) -> Seq<u8> {
    keccak_of(block_preimage(b))
}

/// The first block of every chain.
pub open spec fn genesis_view() -> BlockView {
    BlockView { id: 0, transactions: Seq::empty(), parent_hash: Seq::new(32, |i: int| 0u8) }
}

/// A block not yet sealed.
#[derive(Clone, Debug)]
pub struct Block {
    pub id: u64,
    pub transactions: Vec<SignedTransaction>,
    pub parent_hash: H256,
}

impl View for Block {
    type V = BlockView;

    open spec fn view(&self) -> BlockView {
        BlockView { id: self.id, transactions: self.transactions@, parent_hash: self.parent_hash@ }
    }
}

/// The eight big-endian bytes of `v`.
pub fn u64_be_bytes(v: u64) -> (r: Vec<u8>)
    ensures
        r@ == be_fixed(v as nat, 8),
{
    let mut out: Vec<u8> = Vec::new();
    let mut rest = v;
    let mut i: usize = 0;
    while i < 8
        invariant
            i <= 8,
            be_fixed(v as nat, 8) == be_fixed(rest as nat, (8 - i) as nat) + out@,
        decreases 8 - i,
    {
        let ghost prev = out@;
        proof {
            assert(be_fixed(rest as nat, (8 - i) as nat) == be_fixed(
                rest as nat / 256,
                (8 - i - 1) as nat,
            ).push((rest as nat % 256) as u8));
        }
        out.insert(0, (rest % 256) as u8);
        proof {
            assert(be_fixed(rest as nat, (8 - i) as nat) + prev =~= be_fixed(
                rest as nat / 256,
                (8 - i - 1) as nat,
            ) + out@);
        }
        rest = rest / 256;
        i = i + 1;
    }
    assert(be_fixed(rest as nat, 0) + out@ =~= out@);
    out
}

/// A copy of the transactions.
fn copy_transactions(txs: &Vec<SignedTransaction>) -> (r: Vec<SignedTransaction>)
    ensures
        r@ == txs@,
{
    let mut out: Vec<SignedTransaction> = Vec::new();
    let mut i: usize = 0;
    while i < txs.len()
        invariant
            i <= txs@.len(),
            out@ == txs@.subrange(0, i as int),
        decreases txs@.len() - i,
    {
        out.push(txs[i]);
        i = i + 1;
        assert(out@ =~= txs@.subrange(0, i as int));
    }
    assert(txs@.subrange(0, txs@.len() as int) =~= txs@);
    out
}

impl Block {
    /// The block's hash: the digest of its id, its parent's hash and the
    /// identity hashes of its transactions.
    pub fn hash(&self) -> (r: H256)
        ensures
            r@ == block_hash_of(self@),
    {
        let mut data = u64_be_bytes(self.id);
        push_all(&mut data, self.parent_hash.as_slice());
        let ghost head = data@;
        let mut i: usize = 0;
        while i < self.transactions.len()
            invariant
                i <= self.transactions@.len(),
                data@ == head + tx_hashes(self.transactions@.subrange(0, i as int)),
            decreases self.transactions@.len() - i,
        {
            let h = self.transactions[i].identity_hash();
            push_all(&mut data, h.as_slice());
            proof {
                let s = self.transactions@.subrange(0, i + 1);
                assert(s.drop_last() =~= self.transactions@.subrange(0, i as int));
            }
            i = i + 1;
            assert(data@ =~= head + tx_hashes(self.transactions@.subrange(0, i as int)));
        }
        assert(self.transactions@.subrange(0, self.transactions@.len() as int) =~= self.transactions@);
        assert(data@ =~= block_preimage(self@));
        keccak(data.as_slice())
    }

    /// Bundles the block with its hash.
    pub fn seal(self) -> (r: SealedBlock)
        ensures
            r.block_view() == self@,
            r.hash_view() == block_hash_of(self@),
    {
        let k_hash = self.hash();
        SealedBlock { block: self, k_hash }
    }
}

/// A block together with its hash; sealing a `Block` is the only way to make one.
#[derive(Debug)]
pub struct SealedBlock {
    block: Block,
    k_hash: H256,
}

impl SealedBlock {
    #[verifier::type_invariant]
    spec fn hash_matches(&self) -> bool {
        self.k_hash@ == block_hash_of(self.block@)
    }

    pub closed spec fn block_view(&self) -> BlockView {
        self.block@
    }

    pub closed spec fn hash_view(&self) -> Seq<u8> {
        self.k_hash@
    }

    pub fn block(&self) -> (r: &Block)
        ensures
            r@ == self.block_view(),
    {
        &self.block
    }

    pub fn k_hash(&self) -> (r: H256)
        ensures
            r@ == self.hash_view(),
            r@ == block_hash_of(self.block_view()),
    {
        proof {
            use_type_invariant(self);
        }
        self.k_hash
    }

    pub fn id(&self) -> (r: u64)
        ensures
            r == self.block_view().id,
    {
        self.block.id
    }

    pub fn parent_hash(&self) -> (r: H256)
        ensures
            r@ == self.block_view().parent_hash,
    {
        self.block.parent_hash
    }

    pub fn transactions(&self) -> (r: &Vec<SignedTransaction>)
        ensures
            r@ == self.block_view().transactions,
    {
        &self.block.transactions
    }

    /// A copy of the sealed block.
    pub fn copied(&self) -> (r: SealedBlock)
        ensures
            r.block_view() == self.block_view(),
            r.hash_view() == self.hash_view(),
    {
        proof {
            use_type_invariant(self);
        }
        let block = Block {
            id: self.block.id,
            transactions: copy_transactions(&self.block.transactions),
            parent_hash: self.block.parent_hash,
        };
        SealedBlock { block, k_hash: self.k_hash }
    }
}

/// What a chain holds: each block with its hash, genesis first.
pub type ChainView = Seq<(BlockView, Seq<u8>)>;

/// Each block after the first names the hash of the block before it as its
/// parent, and its id is one above that block's.
pub open spec fn linked(c: ChainView) -> bool {
    forall|i: int|
        1 <= i < c.len() ==> (#[trigger] c[i]).0.parent_hash == c[i - 1].1 && c[i].0.id == c[i
            - 1].0.id + 1
}

/// The block that follows `last` with the transactions `txs`.
pub open spec fn next_view(last: (BlockView, Seq<u8>), txs: Seq<SignedTransaction>) -> BlockView {
    BlockView { id: (last.0.id + 1) as u64, transactions: txs, parent_hash: last.1 }
}

/// A linked chain stays linked when the block that follows its last block
/// is sealed and appended.
pub proof fn lemma_next_block_links(c: ChainView, txs: Seq<SignedTransaction>)
    requires
        c.len() >= 1,
        linked(c),
        c.last().0.id < u64::MAX,
    ensures
        ({
            let b = next_view(c.last(), txs);
            linked(c.push((b, block_hash_of(b))))
        }),
{
    let b = next_view(c.last(), txs);
    let d = c.push((b, block_hash_of(b)));
    assert forall|i: int| 1 <= i < d.len() implies (#[trigger] d[i]).0.parent_hash == d[i - 1].1
        && d[i].0.id == d[i - 1].0.id + 1 by {
        if i < c.len() {
            assert(d[i] == c[i] && d[i - 1] == c[i - 1]);
        }
    }
}

/// Where no two blocks of a chain share a hash, looking up the hash of the
/// block at `i` finds that very block: the first block with a hash is the
/// one that `get_block_by_hash` returns.
pub proof fn lemma_lookup_finds_block(c: ChainView, i: int, k: int)
    requires
        0 <= i < c.len(),
        0 <= k < c.len(),
        c[k].1 == c[i].1,
        forall|j: int| 0 <= j < k ==> c[j].1 != c[i].1,
        forall|a: int, b: int| 0 <= a < b < c.len() ==> c[a].1 != c[b].1,
    ensures
        k == i,
{
}

/// A chain held in memory, without any locking: its blocks, genesis first.
pub struct Chain {
    blocks: Vec<SealedBlock>,
}

impl View for Chain {
    type V = ChainView;

    closed spec fn view(&self) -> ChainView {
        self.blocks@.map_values(|b: SealedBlock| (b.block_view(), b.hash_view()))
    }
}

impl Chain {
    /// The chain starts with the genesis block.
    pub open spec fn wf(&self) -> bool {
        self@.len() >= 1 && self@[0].0 == genesis_view()
    }

    /// A chain that holds the genesis block alone.
    pub fn new() -> (r: Chain)
        ensures
            r.wf(),
            r@.len() == 1,
            r@[0] == (genesis_view(), block_hash_of(genesis_view())),
            linked(r@),
    {
        let genesis = Block { id: 0, transactions: Vec::new(), parent_hash: [0u8; 32] }.seal();
        let mut blocks: Vec<SealedBlock> = Vec::new();
        blocks.push(genesis);
        let r = Chain { blocks };
        proof {
            assert(r@[0].0.parent_hash =~= genesis_view().parent_hash);
            assert(r@[0].0.transactions =~= genesis_view().transactions);
        }
        r
    }

    /// The last block.
    pub fn last_block(&self) -> (r: SealedBlock)
        requires
            self.wf(),
        ensures
            (r.block_view(), r.hash_view()) == self@.last(),
    {
        self.blocks[self.blocks.len() - 1].copied()
    }

    /// Appends `block`.
    pub fn add_block(&mut self, block: SealedBlock)
        requires
            old(self).wf(),
        ensures
            final(self).wf(),
            final(self)@ == old(self)@.push((block.block_view(), block.hash_view())),
    {
        self.blocks.push(block);
        assert(self@ =~= old(self)@.push((block.block_view(), block.hash_view())));
    }

    /// The first block whose hash is `hash`, if any.
    pub fn get_block_by_hash(&self, hash: &H256) -> (r: Option<SealedBlock>)
        ensures
            match r {
                Some(b) => exists|i: int|
                    0 <= i < self@.len() && self@[i] == (b.block_view(), b.hash_view()) && b.hash_view()
                        == hash@ && forall|j: int| 0 <= j < i ==> self@[j].1 != hash@,
                None => forall|i: int| 0 <= i < self@.len() ==> self@[i].1 != hash@,
            },
    {
        let mut i: usize = 0;
        while i < self.blocks.len()
            invariant
                i <= self@.len(),
                self@.len() == self.blocks@.len(),
                forall|j: int| 0 <= j < i ==> self@[j].1 != hash@,
            decreases self@.len() - i,
        {
            let h = self.blocks[i].k_hash();
            if hash_eq(&h, hash) {
                let b = self.blocks[i].copied();
                assert(self@[i as int] == (b.block_view(), b.hash_view()));
                return Some(b);
            }
            i = i + 1;
        }
        None
    }

    /// How many blocks the chain holds.
    pub fn len(&self) -> (r: usize)
        ensures
            r == self@.len(),
    {
        self.blocks.len()
    }
}

/// Seals the block that follows `last` with the transactions `txs`.
pub fn next_block(last: &SealedBlock, txs: Vec<SignedTransaction>) -> (r: SealedBlock)
    requires
        last.block_view().id < u64::MAX,
    ensures
        r.block_view() == next_view((last.block_view(), last.hash_view()), txs@),
        r.hash_view() == block_hash_of(r.block_view()),
{
    let b = Block { id: last.id() + 1, transactions: txs, parent_hash: last.k_hash() };
    b.seal()
}

/// One mining cycle on aggregates that the caller holds alone: executes the
/// pooled transactions in pool order, appends the block that follows the
/// chain's last block with those that succeeded, and empties the pool.
/// Returns the appended block, or `None`, changing nothing, where the last
/// block's id leaves no room for another.
pub fn mine_cycle(pool: &mut TxPool, storage: &mut SimpleStorage, chain: &mut Chain) -> (r: Option<SealedBlock>)
    requires
        old(pool).wf(),
        old(storage).wf(),
        old(chain).wf(),
    ensures
        final(pool).wf(),
        final(storage).wf(),
        final(chain).wf(),
        old(chain)@.last().0.id == u64::MAX ==> {
            &&& r is None
            &&& final(pool)@ == old(pool)@
            &&& final(storage)@ == old(storage)@
            &&& final(chain)@ == old(chain)@
        },
        old(chain)@.last().0.id < u64::MAX ==> {
            let txs = old(pool)@.map_values(|e: (Seq<u8>, SignedTransaction)| e.1);
            let b = next_view(old(chain)@.last(), included(old(storage)@, txs));
            &&& r matches Some(s) && s.block_view() == b && s.hash_view() == block_hash_of(b)
            &&& final(storage)@ == applied_all(old(storage)@, txs)
            &&& final(storage).total_balance() == old(storage).total_balance()
            &&& final(chain)@ == old(chain)@.push((b, block_hash_of(b)))
            &&& final(pool)@.len() == 0
        },
{
    let parent = chain.last_block();
    if parent.id() == u64::MAX {
        return None;
    }
    let txs = pool.get_all();
    let kept = ExecutionEngine::execute_block(storage, &txs);
    let sealed = next_block(&parent, kept);
    chain.add_block(sealed.copied());
    pool.clear();
    Some(sealed)
}

/// The invariant that the lock of a shared chain keeps.
pub struct ChainInvariant;

impl RwLockPredicate<Chain> for ChainInvariant {
    open spec fn inv(self, c: Chain) -> bool {
        c.wf()
    }
}

/// A chain that many threads share; each operation holds its lock throughout.
#[derive(Clone)]
pub struct SharedChain {
    inner: Arc<RwLock<Chain, ChainInvariant>>,
}

impl SharedChain {
    /// A chain that holds the genesis block alone.
    pub fn new() -> (r: SharedChain) {
        SharedChain { inner: Arc::new(RwLock::new(Chain::new(), Ghost(ChainInvariant))) }
    }

    /// The last block at one moment.
    pub fn last_block(&self) -> (r: SealedBlock) {
        let handle = self.inner.acquire_read();
        let r = handle.borrow().last_block();
        handle.release_read();
        r
    }

    /// Appends `block`; the chain does not check what it links to.
    pub fn add_block(&self, block: SealedBlock) {
        let (mut chain, handle) = self.inner.acquire_write();
        chain.add_block(block);
        handle.release_write(chain);
    }

    /// The first block whose hash is `hash` at one moment, if any.
    pub fn get_block_by_hash(&self, hash: &H256) -> (r: Option<SealedBlock>)
        ensures
            r matches Some(b) ==> b.hash_view() == hash@,
    {
        let handle = self.inner.acquire_read();
        let r = handle.borrow().get_block_by_hash(hash);
        handle.release_read();
        r
    }

    /// How many blocks the chain holds at one moment.
    pub fn height(&self) -> (r: usize)
        ensures
            r >= 1,
    {
        let handle = self.inner.acquire_read();
        let r = handle.borrow().len();
        handle.release_read();
        r
    }
}

/// Drains the pool into blocks: executes the pooled transactions against the
/// store, seals them into the block after the chain's tip, appends it, and
/// empties the pool. It is the only writer of the store and the chain.
pub struct Miner {
    txpool: SharedTxPool,
    storage: SharedStorage,
    chain: SharedChain,
    block_num: u64,
}

impl Miner {
    /// A miner over the given pool, store and chain, which it shares with
    /// their other holders; its first block will have id 1.
    pub fn new(txpool: SharedTxPool, storage: SharedStorage, chain: SharedChain) -> (r: Miner)
        ensures
            r.block_num() == 0,
            r.txpool_handle() == txpool,
            r.storage_handle() == storage,
            r.chain_handle() == chain,
    {
        Miner { txpool, storage, chain, block_num: 0 }
    }

    /// The id of the last block this miner sealed; 0 before the first.
    pub closed spec fn block_num(&self) -> u64 {
        self.block_num
    }

    pub closed spec fn txpool_handle(&self) -> SharedTxPool {
        self.txpool
    }

    pub closed spec fn storage_handle(&self) -> SharedStorage {
        self.storage
    }

    pub closed spec fn chain_handle(&self) -> SharedChain {
        self.chain
    }

    /// The id of the last block this miner sealed; 0 before the first.
    pub fn last_mined(&self) -> (r: u64)
        ensures
            r == self.block_num(),
    {
        self.block_num
    }

    /// One mining cycle: executes what the pool holds as one batch under the
    /// store's lock, seals the transactions that succeeded into the next
    /// block (id one above the last this miner sealed, parent the chain's
    /// last block), appends that block and empties the pool. A block is made
    /// on every cycle, also from an empty pool; `None` only where the ids
    /// have run out.
    pub fn mine_block(&mut self) -> (r: Option<SealedBlock>)
        ensures
            old(self).block_num() < u64::MAX ==> {
                &&& r matches Some(b) && b.block_view().id == old(self).block_num() + 1
                    && b.hash_view() == block_hash_of(b.block_view())
                &&& final(self).block_num() == old(self).block_num() + 1
            },
            old(self).block_num() == u64::MAX ==> r is None && final(self).block_num() == old(
                self,
            ).block_num(),
            final(self).txpool_handle() == old(self).txpool_handle(),
            final(self).storage_handle() == old(self).storage_handle(),
            final(self).chain_handle() == old(self).chain_handle(),
    {
        if self.block_num == u64::MAX {
            return None;
        }
        let txs = self.txpool.get_all_transactions();
        let kept = if txs.len() > 0 {
            let batch = copy_transactions(&txs);
            let run = move |db: SimpleStorage| -> (r: (SimpleStorage, Vec<SignedTransaction>))
                requires
                    db.wf(),
                ensures
                    r.0.wf(),
                {
                    let mut db = db;
                    let kept = ExecutionEngine::execute_block(&mut db, &batch);
                    (db, kept)
                };
            self.storage.update(run)
        } else {
            Vec::new()
        };
        self.block_num = self.block_num + 1;
        let parent = self.chain.last_block();
        let sealed = Block { id: self.block_num, transactions: kept, parent_hash: parent.k_hash() }.seal();
        self.chain.add_block(sealed.copied());
        self.txpool.clear();
        Some(sealed)
    }
}

} // verus!
