use pethit::{Block, Chain, SharedChain, SignedTransaction, Transaction, U256};

fn signed(tag: u8) -> SignedTransaction {
    SignedTransaction {
        transaction: Transaction { to: [tag; 20], value: U256::from_u64(1), nonce: 0 },
        signature: [tag; 64],
        recovery_id: 1,
    }
}

#[test]
fn block_hash_is_digest_of_id_parent_and_transaction_hashes() {
    let txs = vec![signed(1), signed(2)];
    let block = Block { id: 7, transactions: txs.clone(), parent_hash: [0xaa; 32] };
    let mut data = 7u64.to_be_bytes().to_vec();
    data.extend_from_slice(&[0xaa; 32]);
    for t in &txs {
        data.extend_from_slice(&t.identity_hash());
    }
    assert_eq!(block.hash(), alloy_primitives::keccak256(&data).0);
    let sealed = block.clone().seal();
    assert_eq!(sealed.k_hash(), block.hash());
    assert_eq!(sealed.id(), 7);
    assert_eq!(sealed.transactions().len(), 2);
}

#[test]
fn genesis_is_block_zero() {
    let chain = Chain::new();
    assert_eq!(chain.len(), 1);
    let g = chain.last_block();
    assert_eq!(g.id(), 0);
    assert_eq!(g.parent_hash(), [0u8; 32]);
    assert!(g.transactions().is_empty());
    let mut data = 0u64.to_be_bytes().to_vec();
    data.extend_from_slice(&[0u8; 32]);
    assert_eq!(g.k_hash(), alloy_primitives::keccak256(&data).0);
}

#[test]
fn blocks_link_to_their_parent_and_are_found_by_hash() {
    let mut chain = Chain::new();
    for i in 1..4u8 {
        let last = chain.last_block();
        let next = pethit::consensus::next_block(&last, vec![signed(i)]);
        assert_eq!(next.parent_hash(), last.k_hash());
        assert_eq!(next.id(), last.id() + 1);
        chain.add_block(next);
    }
    assert_eq!(chain.len(), 4);
    let tip = chain.last_block();
    let found = chain.get_block_by_hash(&tip.k_hash()).unwrap();
    assert_eq!(found.k_hash(), tip.k_hash());
    assert_eq!(found.id(), 3);
    assert_eq!(found.transactions(), &vec![signed(3)]);
    assert!(chain.get_block_by_hash(&[0x55; 32]).is_none());
}

#[test]
fn shared_chain_appends() {
    let chain = SharedChain::new();
    let last = chain.last_block();
    chain.add_block(pethit::consensus::next_block(&last, vec![]));
    assert_eq!(chain.height(), 2);
    let tip = chain.last_block();
    assert_eq!(tip.parent_hash(), last.k_hash());
    assert_eq!(chain.get_block_by_hash(&last.k_hash()).unwrap().id(), 0);
}
