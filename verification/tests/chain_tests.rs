use xelis_daemon::chain::{pack, Block, Blockchain, MAX_BLOCK_SIZE, MERGE_WINDOW, STABLE_LIMIT};
use xelis_daemon::ledger::AppliedBlock;
use xelis_daemon::mempool::Transaction;
use xelis_daemon::rpc::BlockType;
use xelis_daemon::types::{BlockchainError, Hash256};

fn h(n: u64) -> Hash256 {
    Hash256::new(0, 0, 0, n)
}

fn native() -> Hash256 {
    Hash256::zero()
}

fn block(id: u64, tips: Vec<u64>, height: u64, miner: u64, txs: Vec<Transaction>) -> Block {
    Block {
        hash: h(id),
        tips: tips.iter().map(|t| h(*t)).collect(),
        height,
        timestamp: 15000 * height,
        work: u64::MAX,
        miner: h(miner),
        txs,
    }
}

fn tx(id: u64, sender: u64, recipient: u64, amount: u64, fee: u64, nonce: u64) -> Transaction {
    Transaction {
        hash: h(id),
        sender: h(sender),
        recipient: h(recipient),
        asset: native(),
        amount,
        fee,
        nonce,
        size: 100,
    }
}

fn order_of(chain: &Blockchain) -> Vec<Hash256> {
    chain.orderer.order.iter().map(|i| chain.dag.nodes[*i].hash).collect()
}

fn chain_of(n: u64, miner: u64) -> Blockchain {
    let mut chain = Blockchain::new();
    for i in 0..n {
        let tips = if i == 0 { Vec::new() } else { vec![i] };
        assert_eq!(chain.add_new_block(block(i + 1, tips, i, miner, Vec::new()), false), Ok(false));
    }
    chain
}

#[test]
fn an_empty_chain() {
    let chain = Blockchain::new();
    assert_eq!(chain.get_height(), 0);
    assert_eq!(chain.get_topo_height(), 0);
    assert_eq!(chain.get_stable_height(), 0);
    assert_eq!(chain.get_top_block_hash(), Err(BlockchainError::NotFound));
    assert_eq!(chain.get_hash_at_topo_height(0), Err(BlockchainError::NotFound));
    assert_eq!(chain.count_transactions(), 0);
    assert_eq!(chain.get_block_type(&h(1)), Err(BlockchainError::NotFound));
    let template = chain.get_block_template(h(5), 0);
    assert!(template.tips.is_empty());
    assert_eq!(template.height, 0);
    assert_eq!(template.difficulty, 1000);
    assert_eq!(template.reward, 1754760);
}

#[test]
fn blocks_are_admitted_in_a_row() {
    let chain = chain_of(4, 500);
    assert_eq!(order_of(&chain), vec![h(1), h(2), h(3), h(4)]);
    assert_eq!(chain.get_height(), 3);
    assert_eq!(chain.get_topo_height(), 3);
    assert_eq!(chain.get_top_block_hash(), Ok(h(4)));
    assert_eq!(chain.get_hash_at_topo_height(2), Ok(h(3)));
    assert_eq!(chain.get_hash_at_topo_height(4), Err(BlockchainError::NotFound));
    assert_eq!(chain.get_topo_height_for_hash(&h(3)), Ok(2));
    assert_eq!(chain.get_topo_height_for_hash(&h(9)), Err(BlockchainError::NotFound));
    assert!(chain.is_block_topological_ordered(&h(1)));
    assert!(!chain.is_block_topological_ordered(&h(9)));
    assert_eq!(chain.get_cumulative_difficulty_for_block(&h(4)), Ok(4000));
    assert_eq!(chain.get_difficulty_for_block(&h(4)), Ok(1000));
    assert_eq!(chain.get_difficulty_for_block(&h(9)), Err(BlockchainError::NotFound));
    assert_eq!(chain.get_supply_for_hash(&h(2)), Ok(3509519));
    assert_eq!(chain.get_block_reward(&h(2)), Ok(1754759));
    assert_eq!(chain.get_block_reward(&h(9)), Err(BlockchainError::NotFound));
    assert_eq!(chain.ledger.get_last_balance(&h(500), &native()), Ok((3, 7019031)));
    assert_eq!(chain.dag.get_tips(), vec![h(4)]);
}

#[test]
fn the_broadcast_flag_is_handed_back() {
    let mut chain = Blockchain::new();
    assert_eq!(chain.add_new_block(block(1, vec![], 0, 500, Vec::new()), true), Ok(true));
    assert_eq!(chain.add_new_block(block(2, vec![1], 1, 500, Vec::new()), false), Ok(false));
    assert_eq!(chain.add_tx_to_mempool(tx(10, 500, 2, 1, 1000, 0), true, true), Ok(true));
    assert_eq!(chain.add_tx_to_mempool(tx(11, 500, 2, 1, 1000, 1), true, false), Ok(false));
    assert_eq!(
        chain.add_tx_to_mempool(tx(12, 500, 2, 1, 1000, 1), true, true),
        Err(BlockchainError::InvalidNonce)
    );
}

#[test]
fn a_resubmitted_block_changes_nothing() {
    let mut chain = chain_of(3, 500);
    assert_eq!(chain.add_tx_to_mempool(tx(10, 500, 2, 1, 1000, 0), true, false), Ok(false));
    let order = chain.orderer.order.clone();
    let tips = chain.dag.get_tips();
    let applied = chain.ledger.applied.clone();
    let pool = chain.mempool.txs.clone();
    assert_eq!(
        chain.add_new_block(block(3, vec![2], 2, 500, Vec::new()), true),
        Err(BlockchainError::AlreadyExists)
    );
    assert_eq!(
        chain.add_new_block(block(1, vec![77], 9, 501, vec![tx(10, 500, 2, 1, 1000, 0)]), true),
        Err(BlockchainError::AlreadyExists)
    );
    assert_eq!(chain.orderer.order, order);
    assert_eq!(chain.dag.get_tips(), tips);
    assert_eq!(chain.ledger.applied, applied);
    assert_eq!(chain.mempool.txs, pool);
    assert_eq!(chain.dag.len(), 3);
    assert_eq!(chain.ledger.get_last_balance(&h(500), &native()), Ok((2, 5264276)));
    assert_eq!(chain.ledger.get_last_balance(&h(501), &native()), Err(BlockchainError::NotFound));
}

#[test]
fn a_block_below_the_difficulty_is_rejected() {
    let mut chain = chain_of(3, 500);
    let order = chain.orderer.order.clone();
    let tips = chain.dag.get_tips();
    let mut weak = block(4, vec![3], 3, 500, Vec::new());
    weak.work = 999;
    assert_eq!(chain.add_new_block(weak, true), Err(BlockchainError::InsufficientDifficulty));
    assert_eq!(chain.orderer.order, order);
    assert_eq!(chain.dag.get_tips(), tips);
    assert_eq!(chain.dag.len(), 3);
    assert_eq!(chain.ledger.len(), 3);
    assert!(!chain.dag.has_block(&h(4)));
    let mut enough = block(4, vec![3], 3, 500, Vec::new());
    enough.work = 1000;
    assert_eq!(chain.add_new_block(enough, true), Ok(true));
}

#[test]
fn the_required_difficulty_follows_the_timestamps() {
    let mut chain = Blockchain::new();
    let mut first = block(1, vec![], 0, 500, Vec::new());
    first.timestamp = 0;
    assert_eq!(chain.add_new_block(first, false), Ok(false));
    let mut second = block(2, vec![1], 1, 500, Vec::new());
    second.timestamp = 7500;
    assert_eq!(chain.add_new_block(second, false), Ok(false));
    assert_eq!(chain.get_difficulty_for_block(&h(2)), Ok(1000));
    let mut weak = block(3, vec![2], 2, 500, Vec::new());
    weak.work = 1999;
    assert_eq!(chain.add_new_block(weak, false), Err(BlockchainError::InsufficientDifficulty));
    let mut third = block(3, vec![2], 2, 500, Vec::new());
    third.work = 2000;
    third.timestamp = 15000;
    assert_eq!(chain.add_new_block(third, false), Ok(false));
    assert_eq!(chain.get_difficulty_for_block(&h(3)), Ok(2000));
    assert_eq!(chain.get_cumulative_difficulty_for_block(&h(3)), Ok(4000));
}

#[test]
fn the_other_rejections_and_their_turn() {
    let mut chain = chain_of(3, 500);
    assert_eq!(
        chain.add_new_block(block(4, vec![9], 3, 500, Vec::new()), true),
        Err(BlockchainError::UnknownParent)
    );
    assert_eq!(
        chain.add_new_block(block(4, vec![3, 9], 3, 500, Vec::new()), true),
        Err(BlockchainError::UnknownParent)
    );
    assert_eq!(
        chain.add_new_block(block(4, vec![3], 2, 500, Vec::new()), true),
        Err(BlockchainError::InvalidHeight)
    );
    assert_eq!(
        chain.add_new_block(block(4, vec![3], 4, 500, Vec::new()), true),
        Err(BlockchainError::InvalidHeight)
    );
    assert_eq!(
        chain.add_new_block(block(4, vec![], 1, 500, Vec::new()), true),
        Err(BlockchainError::InvalidHeight)
    );
    let mut all_wrong = block(3, vec![9], 7, 500, Vec::new());
    all_wrong.work = 0;
    assert_eq!(chain.add_new_block(all_wrong, true), Err(BlockchainError::AlreadyExists));
    let mut unknown_first = block(4, vec![9], 7, 500, Vec::new());
    unknown_first.work = 0;
    assert_eq!(chain.add_new_block(unknown_first, true), Err(BlockchainError::UnknownParent));
    let mut height_first = block(4, vec![3], 7, 500, Vec::new());
    height_first.work = 0;
    assert_eq!(chain.add_new_block(height_first, true), Err(BlockchainError::InvalidHeight));
    assert_eq!(chain.dag.len(), 3);
}

#[test]
fn the_heavier_branch_becomes_the_order() {
    let mut chain = chain_of(1, 500);
    assert_eq!(chain.add_new_block(block(10, vec![1], 1, 501, Vec::new()), false), Ok(false));
    assert_eq!(chain.add_new_block(block(20, vec![1], 1, 502, Vec::new()), false), Ok(false));
    assert_eq!(order_of(&chain), vec![h(1), h(10)]);
    assert_eq!(chain.get_block_type(&h(20)), Ok(BlockType::Orphaned));
    assert_eq!(chain.get_block_type(&h(10)), Ok(BlockType::Normal));
    assert_eq!(chain.get_top_block_hash(), Ok(h(10)));
    assert_eq!(chain.add_new_block(block(21, vec![20], 2, 502, Vec::new()), false), Ok(false));
    assert_eq!(order_of(&chain), vec![h(1), h(20), h(21)]);
    assert_eq!(chain.get_block_type(&h(10)), Ok(BlockType::Orphaned));
    assert_eq!(chain.get_block_type(&h(20)), Ok(BlockType::Normal));
    assert_eq!(chain.get_top_block_hash(), Ok(h(21)));
    assert_eq!(chain.get_topo_height_for_hash(&h(10)), Err(BlockchainError::NotFound));
    assert_eq!(chain.get_supply_for_hash(&h(10)), Err(BlockchainError::NotFound));
    assert_eq!(chain.get_cumulative_difficulty_for_block(&h(10)), Ok(2000));
    assert_eq!(chain.get_cumulative_difficulty_for_block(&h(21)), Ok(3000));
    assert_eq!(chain.ledger.get_last_balance(&h(501), &native()), Err(BlockchainError::NotFound));
    assert_eq!(chain.ledger.get_last_balance(&h(502), &native()), Ok((2, 3509516)));
    assert_eq!(chain.dag.get_tips(), vec![h(10), h(21)]);
    assert_eq!(chain.get_height(), 2);
}

#[test]
fn an_orphaned_block_loses_what_it_wrote() {
    let mut chain = chain_of(100, 500);
    assert_eq!(chain.get_topo_height(), 99);
    let before = chain.ledger.get_last_balance(&h(500), &native()).unwrap();
    assert_eq!(before.0, 99);
    assert_eq!(chain.add_new_block(block(1000, vec![100], 100, 500, Vec::new()), false), Ok(false));
    assert_eq!(chain.get_topo_height_for_hash(&h(1000)), Ok(100));
    let with_x = chain.ledger.get_last_balance(&h(500), &native()).unwrap();
    assert_eq!(with_x.0, 100);
    assert!(with_x.1 > before.1);
    assert_eq!(chain.add_new_block(block(2000, vec![100], 100, 600, Vec::new()), false), Ok(false));
    assert_eq!(chain.get_block_type(&h(1000)), Ok(BlockType::Normal));
    assert_eq!(chain.get_block_type(&h(2000)), Ok(BlockType::Orphaned));
    assert_eq!(chain.add_new_block(block(2001, vec![2000], 101, 600, Vec::new()), false), Ok(false));
    assert_eq!(chain.get_block_type(&h(1000)), Ok(BlockType::Orphaned));
    assert_eq!(chain.get_topo_height_for_hash(&h(1000)), Err(BlockchainError::NotFound));
    assert_eq!(chain.get_topo_height_for_hash(&h(2000)), Ok(100));
    assert_eq!(chain.get_topo_height_for_hash(&h(2001)), Ok(101));
    assert_eq!(chain.ledger.get_last_balance(&h(500), &native()), Ok(before));
    assert_eq!(
        chain.ledger.get_balance_at_exact_topoheight(&h(500), &native(), 100),
        Err(BlockchainError::NotFound)
    );
    assert_eq!(chain.ledger.get_last_balance(&h(600), &native()).unwrap().0, 101);
    assert_eq!(chain.get_topo_height_for_hash(&h(100)), Ok(99));
    assert_eq!(chain.get_topo_height(), 101);
}

#[test]
fn side_blocks_are_merged_into_the_order() {
    let mut chain = chain_of(1, 500);
    assert_eq!(chain.add_new_block(block(30, vec![1], 1, 501, Vec::new()), false), Ok(false));
    assert_eq!(chain.add_new_block(block(20, vec![1], 1, 502, Vec::new()), false), Ok(false));
    assert_eq!(chain.add_new_block(block(21, vec![20], 2, 502, Vec::new()), false), Ok(false));
    assert_eq!(chain.add_new_block(block(40, vec![30, 21], 3, 503, Vec::new()), false), Ok(false));
    assert_eq!(order_of(&chain), vec![h(1), h(20), h(21), h(30), h(40)]);
    assert_eq!(chain.get_block_type(&h(30)), Ok(BlockType::Side));
    assert_eq!(chain.get_block_type(&h(21)), Ok(BlockType::Normal));
    assert_eq!(chain.get_block_type(&h(40)), Ok(BlockType::Normal));
    assert_eq!(chain.dag.get_tips(), vec![h(40)]);
    assert_eq!(chain.get_height(), 3);
    assert_eq!(chain.ledger.get_last_balance(&h(501), &native()).unwrap().0, 3);
    assert_eq!(chain.get_blocks_at_height(1), vec![h(30), h(20)]);
    assert!(chain.is_on_path(0));
    assert!(!chain.is_on_path(1));
    assert!(chain.is_on_path(2));
    assert!(chain.is_side_block(1));
    assert!(!chain.is_side_block(2));
    assert!(!chain.is_block_orphaned(1));
}

#[test]
fn old_blocks_of_the_path_are_stable() {
    assert_eq!(STABLE_LIMIT, 8);
    assert_eq!(MERGE_WINDOW, 8);
    let chain = chain_of(10, 500);
    assert_eq!(chain.get_block_type(&h(1)), Ok(BlockType::Sync));
    assert_eq!(chain.get_block_type(&h(2)), Ok(BlockType::Sync));
    assert_eq!(chain.get_block_type(&h(3)), Ok(BlockType::Normal));
    assert_eq!(chain.get_block_type(&h(10)), Ok(BlockType::Normal));
    assert_eq!(chain.get_stable_height(), 1);
    assert!(chain.is_block_sync(0));
    assert!(!chain.is_block_sync(2));
}

#[test]
fn transactions_of_a_block_take_effect() {
    let mut chain = chain_of(2, 500);
    let txs = vec![tx(10, 500, 600, 1000, 1000, 0), tx(11, 500, 601, 5, 2000, 1)];
    assert_eq!(chain.add_new_block(block(3, vec![2], 2, 501, txs.clone()), false), Ok(false));
    assert_eq!(chain.ledger.get_last_balance(&h(500), &native()), Ok((2, 3509519 - 4005)));
    assert_eq!(chain.ledger.get_last_balance(&h(600), &native()), Ok((2, 1000)));
    assert_eq!(chain.ledger.get_last_balance(&h(601), &native()), Ok((2, 5)));
    assert_eq!(chain.ledger.get_last_balance(&h(501), &native()), Ok((2, 1754757 + 3000)));
    assert_eq!(chain.ledger.get_nonce(&h(500)), 2);
    assert_eq!(chain.count_transactions(), 2);
    assert_eq!(chain.get_transaction(&h(11)), Ok(txs[1]));
    assert_eq!(chain.get_transaction(&h(12)), Err(BlockchainError::NotFound));
    assert_eq!(
        chain.ledger.applied[2],
        AppliedBlock { hash: h(3), reward: 1754757, supply: 5264276 }
    );
}

#[test]
fn a_transaction_that_does_not_fit_the_state_is_passed_over() {
    let mut chain = chain_of(2, 500);
    let txs = vec![
        tx(10, 500, 600, 1000, 1000, 1),
        tx(11, 700, 600, 1, 1000, 0),
        tx(12, 500, 600, 7, 1000, 0),
    ];
    assert_eq!(chain.add_new_block(block(3, vec![2], 2, 501, txs), false), Ok(false));
    assert_eq!(chain.ledger.get_last_balance(&h(600), &native()), Ok((2, 7)));
    assert_eq!(chain.ledger.get_nonce(&h(500)), 1);
    assert_eq!(chain.ledger.get_last_balance(&h(501), &native()), Ok((2, 1754757 + 1000)));
}

#[test]
fn the_pool_follows_the_chain() {
    let mut chain = chain_of(2, 500);
    let first = tx(10, 500, 600, 1000, 1000, 0);
    let second = tx(11, 500, 600, 1000, 3000, 1);
    let third = tx(12, 500, 600, 1000, 2000, 2);
    assert_eq!(chain.add_tx_to_mempool(first, true, false), Ok(false));
    assert_eq!(chain.add_tx_to_mempool(second, true, false), Ok(false));
    assert_eq!(chain.add_tx_to_mempool(third, true, false), Ok(false));
    assert_eq!(chain.mempool.get_sorted_txs(), vec![second, third, first]);
    assert_eq!(chain.add_new_block(block(3, vec![2], 2, 501, vec![first]), false), Ok(false));
    assert_eq!(chain.mempool.txs, vec![second, third]);
    assert_eq!(chain.add_new_block(block(30, vec![2], 2, 502, Vec::new()), false), Ok(false));
    assert_eq!(chain.mempool.txs, vec![second, third]);
    assert_eq!(chain.add_new_block(block(31, vec![30], 3, 502, Vec::new()), false), Ok(false));
    assert_eq!(chain.get_block_type(&h(3)), Ok(BlockType::Orphaned));
    assert_eq!(chain.ledger.get_nonce(&h(500)), 0);
    assert_eq!(chain.mempool.txs, vec![first]);
    assert_eq!(chain.ledger.get_last_balance(&h(600), &native()), Err(BlockchainError::NotFound));
}

#[test]
fn a_template_offers_the_pool_by_fee() {
    let mut chain = chain_of(2, 500);
    let mut first = tx(10, 500, 600, 1000, 1000, 0);
    first.size = 400_000;
    let mut second = tx(11, 500, 600, 1000, 3000, 1);
    second.size = 500_000;
    let mut third = tx(12, 500, 600, 1000, 2000, 2);
    third.size = 500_001;
    let mut fourth = tx(13, 500, 600, 1000, 1500, 3);
    fourth.size = 100_000;
    for t in [first, second, third, fourth] {
        assert_eq!(chain.add_tx_to_mempool(t, true, false), Ok(false));
    }
    assert_eq!(chain.add_new_block(block(30, vec![1], 1, 502, Vec::new()), false), Ok(false));
    let template = chain.get_block_template(h(700), 30000);
    assert_eq!(template.tips, vec![h(2), h(30)]);
    assert_eq!(template.height, 2);
    assert_eq!(template.difficulty, 1000);
    assert_eq!(template.reward, 1754757);
    assert_eq!(template.miner, h(700));
    assert_eq!(template.timestamp, 30000);
    assert_eq!(template.txs, vec![second, fourth, first]);
    assert_eq!(MAX_BLOCK_SIZE, 1_000_000);
    let built = Block {
        hash: h(3),
        tips: template.tips,
        height: template.height,
        timestamp: template.timestamp,
        work: template.difficulty,
        miner: template.miner,
        txs: template.txs,
    };
    assert_eq!(chain.add_new_block(built, true), Ok(true));
    assert_eq!(order_of(&chain), vec![h(1), h(2), h(30), h(3)]);
    assert_eq!(chain.get_block_type(&h(30)), Ok(BlockType::Side));
    assert_eq!(chain.ledger.get_nonce(&h(500)), 1);
    assert_eq!(chain.ledger.get_last_balance(&h(600), &native()), Ok((3, 1000)));
    assert!(chain.mempool.txs.is_empty());
}

#[test]
fn packing_passes_over_what_does_not_fit() {
    let mut a = tx(1, 1, 2, 1, 1000, 0);
    a.size = 60;
    let mut b = tx(2, 1, 2, 1, 1000, 1);
    b.size = 50;
    let mut c = tx(3, 1, 2, 1, 1000, 2);
    c.size = 40;
    let mut d = tx(4, 1, 2, 1, 1000, 3);
    d.size = u64::MAX;
    assert_eq!(pack(&vec![a, b, c, d], 100), vec![a, c]);
    assert_eq!(pack(&vec![d, b, a, c], 100), vec![b, c]);
    assert_eq!(pack(&vec![a, b, c], 0), Vec::new());
    assert_eq!(pack(&vec![a, b, c], 150), vec![a, b, c]);
    assert_eq!(pack(&Vec::new(), 150), Vec::new());
    assert_eq!(pack(&vec![d], u64::MAX), vec![d]);
}
