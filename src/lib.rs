//! A single-node ledger: signed value transfers, an account store, a
//! deduplicating transaction pool and a hash-linked chain of blocks.
pub mod uint;
pub mod rlp;
pub mod crypto;
pub mod transaction;
pub mod storage;
pub mod execution;
pub mod txpool;
pub mod consensus;
pub mod node;

pub use consensus::{Block, Chain, Miner, SealedBlock, SharedChain};
pub use crypto::{Address, H256};
pub use execution::{ExecError, ExecutionEngine};
pub use node::{Node, SubmitError};
pub use rlp::DecodeError;
pub use storage::{Account, SharedStorage, SimpleStorage};
pub use transaction::{AuthError, SignedTransaction, Transaction};
pub use txpool::{PoolError, SharedTxPool, TxPool};
pub use uint::U256;
