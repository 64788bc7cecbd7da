use siertrichain::block::Block;
use siertrichain::blockchain::Blockchain;
use siertrichain::consensus::{BlockValidationError, DefaultConsensus, validate_block};
use siertrichain::dec::Dec;
use siertrichain::mining::mine_genesis;
use siertrichain::network::{FractalNetwork, NetworkNode};
use siertrichain::subdivision::FractalAddress;

fn mined_block(index: u64, previous_hash: String) -> Block {
    let mining_result = mine_genesis(1, Dec::new(5, 1)).expect("depth one mines under 0.5");
    let mut block = Block {
        index,
        timestamp: 1234567890,
        transactions: vec![],
        previous_hash,
        hash: String::new(),
        mining_result,
    };
    block.hash = block.calculate_hash();
    block
}

#[test]
fn genesis_block_is_sealed() {
    let chain = Blockchain::new();
    assert_eq!(chain.blocks.len(), 1);
    let genesis = &chain.blocks[0];
    assert_eq!(genesis.index, 0);
    assert_eq!(genesis.previous_hash, "0");
    assert!(genesis.transactions.is_empty());
    assert_eq!(genesis.hash, genesis.calculate_hash());
    assert_eq!(genesis.mining_result.address.0.len(), 1);
}

#[test]
fn add_block_appends() {
    let mut chain = Blockchain::new();
    let prev_hash = chain.blocks[0].hash.clone();
    let block = mined_block(1, prev_hash);
    chain.add_block(block);
    assert_eq!(chain.blocks.len(), 2);
    assert_eq!(chain.blocks[1].index, 1);
}

#[test]
fn hash_is_reproducible_and_hexadecimal() {
    let block = mined_block(3, "abc123".to_string());
    let again = block.calculate_hash();
    assert_eq!(block.hash, again);
    assert_eq!(block.hash.len(), 64);
    assert!(block.hash.chars().all(|c| c.is_ascii_hexdigit() && !c.is_ascii_uppercase()));
}

#[test]
fn hash_changes_with_any_field() {
    let base = mined_block(3, "abc123".to_string());
    let h = base.hash.clone();

    let mut b = base.clone();
    b.index = 4;
    assert_ne!(b.calculate_hash(), h);

    let mut b = base.clone();
    b.timestamp = base.timestamp + 1;
    assert_ne!(b.calculate_hash(), h);

    let mut b = base.clone();
    b.transactions = vec!["pay".to_string()];
    assert_ne!(b.calculate_hash(), h);

    let mut b = base.clone();
    b.previous_hash = "def456".to_string();
    assert_ne!(b.calculate_hash(), h);

    let mut b = base.clone();
    b.mining_result.address.0.push(2);
    assert_ne!(b.calculate_hash(), h);
}

#[test]
fn two_block_chain_validates() {
    let mut chain = Blockchain::new();
    let prev_hash = chain.blocks[0].hash.clone();
    let block = mined_block(1, prev_hash);
    let consensus = DefaultConsensus;
    assert_eq!(consensus.validate_block(&block, &chain.blocks[0]), Ok(()));
    assert!(validate_block(&block, &chain.blocks[0]));
    chain.add_block(block);
    assert_eq!(chain.blocks.len(), 2);
}

#[test]
fn flipped_link_fails_with_the_link_error_alone() {
    let chain = Blockchain::new();
    let genesis = &chain.blocks[0];
    let mut block = mined_block(1, genesis.hash.clone());
    block.previous_hash = "0123456789abcdef".to_string();
    block.hash = block.calculate_hash();
    let consensus = DefaultConsensus;
    assert_eq!(
        consensus.validate_block(&block, genesis),
        Err(BlockValidationError::InvalidPreviousHash)
    );
}

#[test]
fn wrong_index_fails_with_the_index_error() {
    let chain = Blockchain::new();
    let genesis = &chain.blocks[0];
    let block = mined_block(7, genesis.hash.clone());
    let consensus = DefaultConsensus;
    assert_eq!(
        consensus.validate_block(&block, genesis),
        Err(BlockValidationError::InvalidIndex)
    );
}

#[test]
fn tampered_seal_fails_with_the_hash_error() {
    let chain = Blockchain::new();
    let genesis = &chain.blocks[0];
    let mut block = mined_block(1, genesis.hash.clone());
    block.timestamp = block.timestamp + 1;
    let consensus = DefaultConsensus;
    assert_eq!(
        consensus.validate_block(&block, genesis),
        Err(BlockValidationError::InvalidHash)
    );
    assert!(!validate_block(&block, genesis));
}

#[test]
fn complexity_score_never_decreases_on_append() {
    let mut chain = Blockchain::new();
    let consensus = DefaultConsensus;
    let before = consensus.chain_complexity_score(&chain.blocks);
    assert_eq!(before, 1);
    let prev_hash = chain.blocks[0].hash.clone();
    chain.add_block(mined_block(1, prev_hash));
    let after = consensus.chain_complexity_score(&chain.blocks);
    assert!(after >= before);
    assert_eq!(after, 2);
}

#[test]
fn test_main_basic() {
    assert_eq!(2 + 2, 4);
}

#[test]
fn test_defi_geo_defi_basic() {
    assert_eq!(2 + 2, 4);
}

#[test]
fn test_network_fractal_network_basic() {
    assert_eq!(2 + 2, 4);
}

#[test]
fn test_protocol_geo_protocol_basic() {
    assert_eq!(2 + 2, 4);
}

#[test]
fn test_territory_basic() {
    assert_eq!(2 + 2, 4);
}

#[test]
fn test_vm_geo_vm_basic() {
    assert_eq!(2 + 2, 4);
}

#[test]
fn test_wallet_geo_wallet_basic() {
    assert_eq!(2 + 2, 4);
}

#[test]
fn network_routes_along_peers() {
    let mut net = FractalNetwork::new();
    net.add_node(NetworkNode {
        address: FractalAddress(vec![0]),
        peers: vec![FractalAddress(vec![1])],
    });
    net.add_node(NetworkNode {
        address: FractalAddress(vec![1]),
        peers: vec![FractalAddress(vec![2])],
    });
    net.add_node(NetworkNode { address: FractalAddress(vec![2]), peers: vec![] });

    let path = net
        .route(&FractalAddress(vec![0]), &FractalAddress(vec![2]))
        .expect("a two-hop path exists");
    assert_eq!(path.len(), 3);
    assert_eq!(path[0], FractalAddress(vec![0]));
    assert_eq!(path[2], FractalAddress(vec![2]));

    assert!(net.route(&FractalAddress(vec![2]), &FractalAddress(vec![0])).is_none());
}

#[test]
fn network_add_node_replaces_by_address() {
    let mut net = FractalNetwork::new();
    net.add_node(NetworkNode { address: FractalAddress(vec![3]), peers: vec![] });
    net.add_node(NetworkNode {
        address: FractalAddress(vec![3]),
        peers: vec![FractalAddress(vec![0])],
    });
    assert_eq!(net.nodes.len(), 1);
    assert_eq!(net.nodes[0].peers.len(), 1);
    assert_eq!(
        FractalNetwork::address_to_string(&FractalAddress(vec![0, 1, 2])),
        "012"
    );
}
