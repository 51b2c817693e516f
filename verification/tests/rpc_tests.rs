use xelis_daemon::chain::{Block, Blockchain};
use xelis_daemon::rpc::{
    dag_order_range, get_balance_at_topoheight, get_block_at_topoheight,
    get_block_by_hash, get_block_template, get_block_type_for_block, get_blocks_at_height,
    get_dag_order, get_height, get_last_balance, get_mempool, get_nonce, get_stableheight,
    get_tips, get_top_block, get_topoheight, p2p_status, refuse, register_methods,
    select_block_type, submit_block, submit_transaction, Address, BlockType,
    GetBalanceAtTopoHeightParams, GetBalanceParams, GetBlockAtTopoHeightParams,
    GetBlockByHashParams, GetBlockTemplateParams, GetBlocksAtHeightParams, GetDagOrderParams,
    GetLastBalanceResult, GetNonceParams, Method, P2pInfo, RpcError, RpcServer, MAX_DAG_ORDER,
};
use xelis_daemon::mempool::Transaction;
use xelis_daemon::types::{BlockchainError, Hash256};

fn h(n: u64) -> Hash256 {
    Hash256::new(0, 0, 0, n)
}

fn block(id: u64, tips: Vec<Hash256>, height: u64, miner: u64) -> Block {
    Block {
        hash: h(id),
        tips,
        height,
        timestamp: 15000 * height,
        work: u64::MAX,
        miner: h(miner),
        txs: Vec::new(),
    }
}

fn chain_of(n: u64) -> Blockchain {
    let mut chain = Blockchain::new();
    for i in 0..n {
        let tips = if i == 0 { Vec::new() } else { vec![h(i)] };
        assert_eq!(chain.add_new_block(block(i + 1, tips, i, 500), false), Ok(false));
    }
    chain
}

fn plain(account: u64) -> Address {
    Address { public_key: h(account), has_data: false }
}

#[test]
fn dag_order_without_range_covers_zero_to_current() {
    let params = GetDagOrderParams { start_topoheight: None, end_topoheight: None };
    assert_eq!(dag_order_range(&params, 10), Ok((0, 10)));
    let chain = chain_of(11);
    assert_eq!(chain.get_topo_height(), 10);
    let order = get_dag_order(&chain, &params).unwrap();
    assert_eq!(order.len(), 11);
    for t in 0..11u64 {
        assert_eq!(order[t as usize], h(t + 1));
    }
}

#[test]
fn dag_order_inverted_range_is_invalid() {
    let params = GetDagOrderParams { start_topoheight: Some(5), end_topoheight: Some(3) };
    assert_eq!(dag_order_range(&params, 10), Err(RpcError::InvalidRequest));
    let chain = chain_of(11);
    assert_eq!(get_dag_order(&chain, &params), Err(RpcError::InvalidRequest));
}

#[test]
fn dag_order_span_above_cap_is_invalid() {
    let params = GetDagOrderParams { start_topoheight: Some(0), end_topoheight: Some(69) };
    assert_eq!(dag_order_range(&params, 100), Err(RpcError::InvalidRequest));
    let at_cap = GetDagOrderParams { start_topoheight: Some(0), end_topoheight: Some(64) };
    assert_eq!(dag_order_range(&at_cap, 100), Ok((0, 64)));
    let over = GetDagOrderParams { start_topoheight: Some(0), end_topoheight: Some(65) };
    assert_eq!(dag_order_range(&over, 100), Err(RpcError::InvalidRequest));
    assert_eq!(MAX_DAG_ORDER, 64);
}

#[test]
fn dag_order_end_above_current_is_invalid() {
    let params = GetDagOrderParams { start_topoheight: Some(5), end_topoheight: Some(11) };
    assert_eq!(dag_order_range(&params, 10), Err(RpcError::InvalidRequest));
    let start_only = GetDagOrderParams { start_topoheight: Some(11), end_topoheight: None };
    assert_eq!(dag_order_range(&start_only, 10), Err(RpcError::InvalidRequest));
}

#[test]
fn dag_order_defaults() {
    let none = GetDagOrderParams { start_topoheight: None, end_topoheight: None };
    assert_eq!(dag_order_range(&none, 100), Ok((36, 100)));
    assert_eq!(dag_order_range(&none, 64), Ok((0, 64)));
    assert_eq!(dag_order_range(&none, 65), Ok((1, 65)));
    assert_eq!(dag_order_range(&none, 0), Ok((0, 0)));
    let end_only = GetDagOrderParams { start_topoheight: None, end_topoheight: Some(40) };
    assert_eq!(dag_order_range(&end_only, 100), Ok((0, 40)));
    let end_far = GetDagOrderParams { start_topoheight: None, end_topoheight: Some(90) };
    assert_eq!(dag_order_range(&end_far, 100), Err(RpcError::InvalidRequest));
    let start_only = GetDagOrderParams { start_topoheight: Some(50), end_topoheight: None };
    assert_eq!(dag_order_range(&start_only, 100), Ok((50, 100)));
    let start_far = GetDagOrderParams { start_topoheight: Some(10), end_topoheight: None };
    assert_eq!(dag_order_range(&start_far, 100), Err(RpcError::InvalidRequest));
    let both = GetDagOrderParams { start_topoheight: Some(7), end_topoheight: Some(7) };
    assert_eq!(dag_order_range(&both, 100), Ok((7, 7)));
}

#[test]
fn dag_order_of_a_range() {
    let chain = chain_of(11);
    let params = GetDagOrderParams { start_topoheight: Some(3), end_topoheight: Some(5) };
    assert_eq!(get_dag_order(&chain, &params), Ok(vec![h(4), h(5), h(6)]));
}

#[test]
fn dag_order_of_an_empty_chain_is_not_found() {
    let chain = Blockchain::new();
    let params = GetDagOrderParams { start_topoheight: None, end_topoheight: None };
    assert_eq!(get_dag_order(&chain, &params), Err(RpcError::NotFound));
}

#[test]
fn block_type_is_decided_in_turn() {
    assert_eq!(select_block_type(true, true, true), BlockType::Orphaned);
    assert_eq!(select_block_type(true, false, false), BlockType::Orphaned);
    assert_eq!(select_block_type(false, true, true), BlockType::Sync);
    assert_eq!(select_block_type(false, false, true), BlockType::Side);
    assert_eq!(select_block_type(false, false, false), BlockType::Normal);
}

#[test]
fn body_is_refused_where_none_is_taken() {
    let chain = chain_of(3);
    assert_eq!(get_height(&chain, false), Err(RpcError::UnexpectedParams));
    assert_eq!(get_topoheight(&chain, false), Err(RpcError::UnexpectedParams));
    assert_eq!(get_stableheight(&chain, false), Err(RpcError::UnexpectedParams));
    assert_eq!(get_tips(&chain, false), Err(RpcError::UnexpectedParams));
    assert_eq!(get_mempool(&chain, false), Err(RpcError::UnexpectedParams));
    assert!(matches!(get_top_block(&chain, false), Err(RpcError::UnexpectedParams)));
    assert_eq!(
        xelis_daemon::rpc::get_assets(&chain, false),
        Err(RpcError::UnexpectedParams)
    );
    assert_eq!(
        xelis_daemon::rpc::count_transactions(&chain, false),
        Err(RpcError::UnexpectedParams)
    );
}

#[test]
fn heights_of_a_chain() {
    let chain = chain_of(12);
    assert_eq!(get_height(&chain, true), Ok(11));
    assert_eq!(get_topoheight(&chain, true), Ok(11));
    assert_eq!(get_stableheight(&chain, true), Ok(3));
    let short = chain_of(3);
    assert_eq!(get_stableheight(&short, true), Ok(0));
    let empty = Blockchain::new();
    assert_eq!(get_height(&empty, true), Ok(0));
    assert_eq!(get_topoheight(&empty, true), Ok(0));
}

#[test]
fn p2p_status_reports_or_refuses() {
    let info = P2pInfo {
        peer_count: 3,
        tag: Some(String::from("node")),
        peer_id: 77,
        best_height: 120,
        max_peers: 8,
    };
    let chain = chain_of(5);
    let status = p2p_status(&chain, true, Some(&info)).unwrap();
    assert_eq!(status.peer_count, 3);
    assert_eq!(status.tag, Some(String::from("node")));
    assert_eq!(status.peer_id, 77);
    assert_eq!(status.our_height, 4);
    assert_eq!(status.best_height, 120);
    assert_eq!(status.max_peers, 8);
    let untagged = P2pInfo { peer_count: 0, tag: None, peer_id: 1, best_height: 0, max_peers: 0 };
    let bare = p2p_status(&Blockchain::new(), true, Some(&untagged)).unwrap();
    assert_eq!(bare.tag, None);
    assert_eq!(bare.our_height, 0);
    assert!(matches!(p2p_status(&chain, true, None), Err(RpcError::NoP2p)));
    assert!(matches!(p2p_status(&chain, false, Some(&info)), Err(RpcError::UnexpectedParams)));
    assert!(matches!(p2p_status(&chain, false, None), Err(RpcError::UnexpectedParams)));
}

#[test]
fn methods_are_registered_under_their_names() {
    let mut server = RpcServer::new();
    assert_eq!(server.handler("get_height"), None);
    register_methods(&mut server);
    assert_eq!(server.methods.len(), 20);
    assert_eq!(server.handler("get_height"), Some(Method::GetHeight));
    assert_eq!(server.handler("get_topoheight"), Some(Method::GetTopoheight));
    assert_eq!(server.handler("get_stableheight"), Some(Method::GetStableheight));
    assert_eq!(server.handler("get_block_template"), Some(Method::GetBlockTemplate));
    assert_eq!(server.handler("get_block_at_topoheight"), Some(Method::GetBlockAtTopoheight));
    assert_eq!(server.handler("get_blocks_at_height"), Some(Method::GetBlocksAtHeight));
    assert_eq!(server.handler("get_block_by_hash"), Some(Method::GetBlockByHash));
    assert_eq!(server.handler("get_top_block"), Some(Method::GetTopBlock));
    assert_eq!(server.handler("submit_block"), Some(Method::SubmitBlock));
    assert_eq!(server.handler("get_last_balance"), Some(Method::GetLastBalance));
    assert_eq!(
        server.handler("get_balance_at_topoheight"),
        Some(Method::GetBalanceAtTopoheight)
    );
    assert_eq!(server.handler("get_nonce"), Some(Method::GetNonce));
    assert_eq!(server.handler("get_assets"), Some(Method::GetAssets));
    assert_eq!(server.handler("count_transactions"), Some(Method::CountTransactions));
    assert_eq!(server.handler("submit_transaction"), Some(Method::SubmitTransaction));
    assert_eq!(server.handler("get_transaction"), Some(Method::GetTransaction));
    assert_eq!(server.handler("p2p_status"), Some(Method::P2pStatus));
    assert_eq!(server.handler("get_mempool"), Some(Method::GetMempool));
    assert_eq!(server.handler("get_tips"), Some(Method::GetTips));
    assert_eq!(server.handler("get_dag_order"), Some(Method::GetDagOrder));
    assert_eq!(server.handler("get_peers"), None);
    assert_eq!(server.handler(""), None);
}

#[test]
fn a_later_registration_counts() {
    let mut server = RpcServer::new();
    server.register_method("status", Method::GetHeight);
    server.register_method("status", Method::P2pStatus);
    assert_eq!(server.handler("status"), Some(Method::P2pStatus));
}

#[test]
fn failures_of_the_chain_are_handed_up() {
    assert_eq!(refuse(BlockchainError::NotFound), RpcError::NotFound);
    assert_eq!(
        refuse(BlockchainError::AlreadyExists),
        RpcError::Chain(BlockchainError::AlreadyExists)
    );
    assert_eq!(
        refuse(BlockchainError::InvalidNonce),
        RpcError::Chain(BlockchainError::InvalidNonce)
    );
}

#[test]
fn block_responses() {
    let chain = chain_of(12);
    let top = get_top_block(&chain, true).unwrap();
    assert_eq!(top.hash, h(12));
    assert_eq!(top.topoheight, Some(11));
    assert_eq!(top.block_type, BlockType::Normal);
    assert_eq!(top.height, 11);
    assert_eq!(top.tips, vec![h(11)]);
    assert_eq!(top.cumulative_difficulty, 12000);
    assert_eq!(top.difficulty, 1000);
    assert_eq!(top.miner, h(500));
    assert_eq!(top.timestamp, 165000);
    let first = get_block_at_topoheight(&chain, &GetBlockAtTopoHeightParams { topoheight: 0 })
        .unwrap();
    assert_eq!(first.hash, h(1));
    assert_eq!(first.block_type, BlockType::Sync);
    assert_eq!(first.supply, Some(1754760));
    assert_eq!(first.reward, Some(1754760));
    assert!(first.tips.is_empty());
    let third = get_block_by_hash(&chain, &GetBlockByHashParams { hash: h(3) }).unwrap();
    assert_eq!(third.topoheight, Some(2));
    assert_eq!(third.reward, Some(1754757));
    assert_eq!(third.supply, Some(5264276));
    assert!(matches!(
        get_block_by_hash(&chain, &GetBlockByHashParams { hash: h(99) }),
        Err(RpcError::NotFound)
    ));
    assert!(matches!(
        get_block_at_topoheight(&chain, &GetBlockAtTopoHeightParams { topoheight: 12 }),
        Err(RpcError::NotFound)
    ));
    assert!(matches!(get_top_block(&Blockchain::new(), true), Err(RpcError::NotFound)));
    assert_eq!(get_block_type_for_block(&chain, &h(4)), Ok(BlockType::Sync));
    assert_eq!(get_block_type_for_block(&chain, &h(5)), Ok(BlockType::Normal));
    assert_eq!(get_block_type_for_block(&chain, &h(77)), Err(RpcError::NotFound));
}

#[test]
fn blocks_of_a_height() {
    let mut chain = chain_of(3);
    assert_eq!(chain.add_new_block(block(40, vec![h(2)], 2, 501), false), Ok(false));
    let blocks = get_blocks_at_height(&chain, &GetBlocksAtHeightParams { height: 2 }).unwrap();
    assert_eq!(blocks.len(), 2);
    assert_eq!(blocks[0].hash, h(3));
    assert_eq!(blocks[1].hash, h(40));
    assert_eq!(blocks[0].block_type, BlockType::Normal);
    assert_eq!(blocks[1].block_type, BlockType::Orphaned);
    assert_eq!(blocks[1].topoheight, None);
    assert_eq!(blocks[1].supply, None);
    let none = get_blocks_at_height(&chain, &GetBlocksAtHeightParams { height: 9 }).unwrap();
    assert!(none.is_empty());
    assert_eq!(get_tips(&chain, true), Ok(vec![h(3), h(40)]));
}

#[test]
fn template_needs_a_plain_address() {
    let chain = chain_of(3);
    let with_data = GetBlockTemplateParams {
        address: Address { public_key: h(9), has_data: true },
    };
    assert!(matches!(
        get_block_template(&chain, &with_data, 45000),
        Err(RpcError::ExpectedNormalAddress)
    ));
    let result = get_block_template(&chain, &GetBlockTemplateParams { address: plain(9) }, 45000)
        .unwrap();
    assert_eq!(result.template.tips, vec![h(3)]);
    assert_eq!(result.template.height, 3);
    assert_eq!(result.difficulty, 1000);
    assert_eq!(result.template.difficulty, 1000);
    assert_eq!(result.template.miner, h(9));
    assert_eq!(result.template.reward, 1754755);
    assert_eq!(result.template.timestamp, 45000);
}

#[test]
fn submitted_blocks_and_transactions() {
    let mut chain = chain_of(2);
    assert_eq!(submit_block(&mut chain, block(3, vec![h(2)], 2, 500)), Ok(true));
    assert_eq!(
        submit_block(&mut chain, block(3, vec![h(2)], 2, 500)),
        Err(RpcError::Chain(BlockchainError::AlreadyExists))
    );
    assert_eq!(
        submit_block(&mut chain, block(4, vec![h(90)], 3, 500)),
        Err(RpcError::Chain(BlockchainError::UnknownParent))
    );
    let tx = Transaction {
        hash: h(1000),
        sender: h(500),
        recipient: h(600),
        asset: Hash256::zero(),
        amount: 5000,
        fee: 1000,
        nonce: 0,
        size: 100,
    };
    assert_eq!(
        submit_transaction(&mut chain, tx, false),
        Err(RpcError::Chain(BlockchainError::InvalidSignature))
    );
    assert_eq!(submit_transaction(&mut chain, tx, true), Ok(true));
    assert_eq!(
        submit_transaction(&mut chain, tx, true),
        Err(RpcError::Chain(BlockchainError::DuplicateTx))
    );
    assert_eq!(get_mempool(&chain, true), Ok(vec![tx]));
}

#[test]
fn balances_and_nonces_by_request() {
    let chain = chain_of(3);
    let miner = GetBalanceParams { address: plain(500), asset: Hash256::zero() };
    assert_eq!(
        get_last_balance(&chain, &miner),
        Ok(GetLastBalanceResult { balance: 5264276, topoheight: 2 })
    );
    let stranger = GetBalanceParams { address: plain(501), asset: Hash256::zero() };
    assert_eq!(get_last_balance(&chain, &stranger), Err(RpcError::NotFound));
    let at = |topoheight: u64| GetBalanceAtTopoHeightParams {
        address: plain(500),
        asset: Hash256::zero(),
        topoheight,
    };
    assert_eq!(get_balance_at_topoheight(&chain, &at(0)), Ok(1754760));
    assert_eq!(get_balance_at_topoheight(&chain, &at(1)), Ok(3509519));
    assert_eq!(get_balance_at_topoheight(&chain, &at(2)), Ok(5264276));
    assert_eq!(get_balance_at_topoheight(&chain, &at(3)), Err(RpcError::UnexpectedParams));
    let other = GetBalanceAtTopoHeightParams {
        address: plain(501),
        asset: Hash256::zero(),
        topoheight: 1,
    };
    assert_eq!(get_balance_at_topoheight(&chain, &other), Err(RpcError::NotFound));
    assert_eq!(get_nonce(&chain, &GetNonceParams { address: plain(500) }), Ok(0));
    assert_eq!(xelis_daemon::rpc::get_assets(&chain, true), Ok(vec![Hash256::zero()]));
    assert_eq!(xelis_daemon::rpc::count_transactions(&chain, true), Ok(0));
}
