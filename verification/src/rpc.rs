//! The decisions of the request layer: which requests are answered, with what,
//! and which are refused, over values that are already parsed.

use crate::chain::{Block, BlockTemplate, Blockchain};
use crate::ledger::Version;
use crate::mempool::{by_fee, verdict_on, Transaction};
use crate::order::place_of;
use crate::types::{BlockchainError, Hash256};
use vstd::prelude::*;
use vstd::string::StringExecFns;

verus! {

/// The most topoheights that one request for the order may span.
pub const MAX_DAG_ORDER: u64 = 64;

/// Why a request is refused.
#[derive(Clone, Copy, Debug, PartialEq, Eq, Structural)]
pub enum RpcError {
    /// The method takes no parameters and some were given, or a parameter
    /// is beyond what the chain holds.
    UnexpectedParams,
    /// The request asks for a range that cannot be served.
    InvalidRequest,
    /// Nothing is recorded under the key that was asked for.
    NotFound,
    /// The address carries data, where a plain one is expected.
    ExpectedNormalAddress,
    /// The node runs without its networking part.
    NoP2p,
    /// The chain refuses what is handed in.
    Chain(BlockchainError),
}

/// The refusal of a request that comes of a failure of the chain: `NotFound`
/// stays `NotFound`, and every other failure is handed up as it is.
pub open spec fn refusal_of(error: BlockchainError) -> RpcError {
    if error == BlockchainError::NotFound {
        RpcError::NotFound
    } else {
        RpcError::Chain(error)
    }
}

/// Computes `refusal_of`.
pub fn refuse(error: BlockchainError) -> (e: RpcError)
    ensures
        e == refusal_of(error),
{
    if error == BlockchainError::NotFound {
        RpcError::NotFound
    } else {
        RpcError::Chain(error)
    }
}

/// How a block stands in the order when it is asked for.
#[derive(Clone, Copy, Debug, PartialEq, Eq, Structural)]
pub enum BlockType {
    /// On the canonical path, and old enough to count as stable.
    Sync,
    /// Counted in the order beside the canonical path.
    Side,
    /// Left out of the order.
    Orphaned,
    /// Counted in the order, and neither stable nor a side block.
    Normal,
}

/// The class of a block from the three tests made on it, the first that
/// holds deciding: left out of the order, stable on the canonical path,
/// ordered beside it.
pub open spec fn block_type_from(orphaned: bool, sync: bool, side: bool) -> BlockType {
    if orphaned {
        BlockType::Orphaned
    } else if sync {
        BlockType::Sync
    } else if side {
        BlockType::Side
    } else {
        BlockType::Normal
    }
}

/// Computes `block_type_from`.
pub fn select_block_type(orphaned: bool, sync: bool, side: bool) -> (t: BlockType)
    ensures
        t == block_type_from(orphaned, sync, side),
{
    if orphaned {
        BlockType::Orphaned
    } else if sync {
        BlockType::Sync
    } else if side {
        BlockType::Side
    } else {
        BlockType::Normal
    }
}

/// The range of topoheights that a request for the order names; both ends are
/// optional.
#[derive(Clone, Copy, Debug, PartialEq, Eq, Structural)]
pub struct GetDagOrderParams {
    pub start_topoheight: Option<u64>,
    pub end_topoheight: Option<u64>,
}

/// The first topoheight of the range: the one given; with neither end given,
/// the start of the last `MAX_DAG_ORDER` topoheights; else 0.
pub open spec fn dag_order_start(params: GetDagOrderParams, current: u64) -> int {
    match params.start_topoheight {
        Some(start) => start as int,
        None => if params.end_topoheight is None && current > MAX_DAG_ORDER {
            current - MAX_DAG_ORDER
        } else {
            0
        },
    }
}

/// The last topoheight of the range: the one given, else the current one.
pub open spec fn dag_order_end(params: GetDagOrderParams, current: u64) -> int {
    match params.end_topoheight {
        Some(end) => end as int,
        None => current as int,
    }
}

/// Whether the range can be served: it is not inverted, ends at or below the
/// current topoheight and spans at most `MAX_DAG_ORDER`.
pub open spec fn dag_order_servable(params: GetDagOrderParams, current: u64) -> bool {
    let start = dag_order_start(params, current);
    let end = dag_order_end(params, current);
    start <= end && end <= current && end - start <= MAX_DAG_ORDER
}

/// The inclusive range of topoheights that a request for the order is
/// answered with, or `InvalidRequest`.
pub fn dag_order_range(params: &GetDagOrderParams, current_topoheight: u64) -> (r: Result<
    (u64, u64),
    RpcError,
>)
    ensures
        dag_order_servable(*params, current_topoheight) ==> r == Ok::<(u64, u64), RpcError>(
            (
                dag_order_start(*params, current_topoheight) as u64,
                dag_order_end(*params, current_topoheight) as u64,
            ),
        ),
        !dag_order_servable(*params, current_topoheight) ==> r == Err::<(u64, u64), RpcError>(
            RpcError::InvalidRequest,
        ),
{
    let start_topoheight: u64 = match params.start_topoheight {
        Some(start) => start,
        None => if params.end_topoheight.is_none() && current_topoheight > MAX_DAG_ORDER {
            current_topoheight - MAX_DAG_ORDER
        } else {
            0
        },
    };
    let end_topoheight: u64 = match params.end_topoheight {
        Some(end) => end,
        None => current_topoheight,
    };
    if end_topoheight < start_topoheight || end_topoheight > current_topoheight {
        return Err(RpcError::InvalidRequest);
    }
    let count: u64 = end_topoheight - start_topoheight;
    if count > MAX_DAG_ORDER {
        return Err(RpcError::InvalidRequest);
    }
    Ok((start_topoheight, end_topoheight))
}

/// What the networking part reports of itself.
#[derive(Clone, Debug)]
pub struct P2pInfo {
    pub peer_count: usize,
    pub tag: Option<String>,
    pub peer_id: u64,
    pub best_height: u64,
    pub max_peers: usize,
}

/// The answer to a request for the state of the networking part.
#[derive(Clone, Debug)]
pub struct P2pStatusResult {
    pub peer_count: usize,
    pub tag: Option<String>,
    pub peer_id: u64,
    pub our_height: u64,
    pub best_height: u64,
    pub max_peers: usize,
}

/// The characters of the tag, where there is one.
pub open spec fn tag_view(tag: Option<String>) -> Option<Seq<char>> {
    match tag {
        Some(t) => Some(t@),
        None => None,
    }
}

/// Whether `status` reports `p2p` beside the height `our_height`.
pub open spec fn status_reports(status: P2pStatusResult, p2p: P2pInfo, our_height: u64) -> bool {
    &&& status.peer_count == p2p.peer_count
    &&& tag_view(status.tag) == tag_view(p2p.tag)
    &&& status.peer_id == p2p.peer_id
    &&& status.our_height == our_height
    &&& status.best_height == p2p.best_height
    &&& status.max_peers == p2p.max_peers
}

/// The methods that the node answers.
#[derive(Clone, Copy, Debug, PartialEq, Eq, Structural)]
pub enum Method {
    GetHeight,
    GetTopoheight,
    GetStableheight,
    GetBlockTemplate,
    GetBlockAtTopoheight,
    GetBlocksAtHeight,
    GetBlockByHash,
    GetTopBlock,
    SubmitBlock,
    GetLastBalance,
    GetBalanceAtTopoheight,
    GetNonce,
    GetAssets,
    CountTransactions,
    SubmitTransaction,
    GetTransaction,
    P2pStatus,
    GetMempool,
    GetTips,
    GetDagOrder,
}

/// A name under which a method is answered.
#[derive(Debug)]
pub struct Registration {
    pub name: String,
    pub method: Method,
}

/// The table of the methods by name, in the sequence in which they were
/// registered.
#[derive(Debug)]
pub struct RpcServer {
    pub methods: Vec<Registration>,
}

/// The method registered last under `name`, if there is one.
pub open spec fn lookup(table: Seq<(Seq<char>, Method)>, name: Seq<char>) -> Option<Method>
    decreases table.len(),
{
    if table.len() == 0 {
        None
    } else if table.last().0 == name {
        Some(table.last().1)
    } else {
        lookup(table.drop_last(), name)
    }
}

/// The names of the methods of the node, each with its method, in the
/// sequence in which `register_methods` registers them.
pub open spec fn method_table() -> Seq<(Seq<char>, Method)> {
    seq![
        ("get_height"@, Method::GetHeight),
        ("get_topoheight"@, Method::GetTopoheight),
        ("get_stableheight"@, Method::GetStableheight),
        ("get_block_template"@, Method::GetBlockTemplate),
        ("get_block_at_topoheight"@, Method::GetBlockAtTopoheight),
        ("get_blocks_at_height"@, Method::GetBlocksAtHeight),
        ("get_block_by_hash"@, Method::GetBlockByHash),
        ("get_top_block"@, Method::GetTopBlock),
        ("submit_block"@, Method::SubmitBlock),
        ("get_last_balance"@, Method::GetLastBalance),
        ("get_balance_at_topoheight"@, Method::GetBalanceAtTopoheight),
        ("get_nonce"@, Method::GetNonce),
        ("get_assets"@, Method::GetAssets),
        ("count_transactions"@, Method::CountTransactions),
        ("submit_transaction"@, Method::SubmitTransaction),
        ("get_transaction"@, Method::GetTransaction),
        ("p2p_status"@, Method::P2pStatus),
        ("get_mempool"@, Method::GetMempool),
        ("get_tips"@, Method::GetTips),
        ("get_dag_order"@, Method::GetDagOrder),
    ]
}

impl RpcServer {
    /// The names with their methods, in the sequence of the registrations.
    pub open spec fn table(&self) -> Seq<(Seq<char>, Method)> {
        Seq::new(self.methods@.len(), |i: int| (self.methods@[i].name@, self.methods@[i].method))
    }

    /// The server that answers no method.
    pub fn new() -> (server: RpcServer)
        ensures
            server.table() == Seq::<(Seq<char>, Method)>::empty(),
    {
        let server = RpcServer { methods: Vec::new() };
        assert(server.table() =~= Seq::<(Seq<char>, Method)>::empty());
        server
    }

    /// Registers `method` under `name`; where the name was registered
    /// before, the new registration is the one that counts.
    pub fn register_method(&mut self, name: &str, method: Method)
        ensures
            final(self).table() == old(self).table().push((name@, method)),
            lookup(final(self).table(), name@) == Some(method),
    {
        self.methods.push(Registration { name: String::from_str(name), method });
        assert(self.table() =~= old(self).table().push((name@, method)));
        assert(self.table().last() == (name@, method));
    }

    /// The method that answers to `name`, if one is registered under it.
    pub fn handler(&self, name: &str) -> (r: Option<Method>)
        ensures
            r == lookup(self.table(), name@),
    {
        let wanted: String = String::from_str(name);
        let mut k: usize = self.methods.len();
        assert(self.table().take(k as int) == self.table());
        while k > 0
            invariant
                k <= self.methods@.len(),
                wanted@ == name@,
                lookup(self.table(), name@) == lookup(self.table().take(k as int), name@),
            decreases k,
        {
            assert(self.table().take(k as int).drop_last() == self.table().take(k - 1));
            assert(self.table().take(k as int).last() == self.table()[k - 1]);
            if self.methods[k - 1].name == wanted {
                return Some(self.methods[k - 1].method);
            }
            k -= 1;
        }
        None
    }
}

/// Registers the methods of the node, each under its name, after what is
/// registered already.
pub fn register_methods(server: &mut RpcServer)
    ensures
        final(server).table() == old(server).table() + method_table(),
{
    server.register_method("get_height", Method::GetHeight);
    server.register_method("get_topoheight", Method::GetTopoheight);
    server.register_method("get_stableheight", Method::GetStableheight);
    server.register_method("get_block_template", Method::GetBlockTemplate);
    server.register_method("get_block_at_topoheight", Method::GetBlockAtTopoheight);
    server.register_method("get_blocks_at_height", Method::GetBlocksAtHeight);
    server.register_method("get_block_by_hash", Method::GetBlockByHash);
    server.register_method("get_top_block", Method::GetTopBlock);
    server.register_method("submit_block", Method::SubmitBlock);
    server.register_method("get_last_balance", Method::GetLastBalance);
    server.register_method("get_balance_at_topoheight", Method::GetBalanceAtTopoheight);
    server.register_method("get_nonce", Method::GetNonce);
    server.register_method("get_assets", Method::GetAssets);
    server.register_method("count_transactions", Method::CountTransactions);
    server.register_method("submit_transaction", Method::SubmitTransaction);
    server.register_method("get_transaction", Method::GetTransaction);
    server.register_method("p2p_status", Method::P2pStatus);
    server.register_method("get_mempool", Method::GetMempool);
    server.register_method("get_tips", Method::GetTips);
    server.register_method("get_dag_order", Method::GetDagOrder);
    assert(server.table() =~= old(server).table() + method_table());
}

/// An address: the key of an account, and whether data rides along with it.
#[derive(Clone, Copy, Debug, PartialEq, Eq, Structural)]
pub struct Address {
    pub public_key: Hash256,
    pub has_data: bool,
}

impl Address {
    /// Whether the address is a plain one: no data rides along.
    pub fn is_normal(&self) -> (b: bool)
        ensures
            b == !self.has_data,
    {
        !self.has_data
    }
}

/// Asks for the block at a topoheight.
#[derive(Clone, Copy, Debug, PartialEq, Eq, Structural)]
pub struct GetBlockAtTopoHeightParams {
    pub topoheight: u64,
}

/// Asks for the block with a hash.
#[derive(Clone, Copy, Debug, PartialEq, Eq, Structural)]
pub struct GetBlockByHashParams {
    pub hash: Hash256,
}

/// Asks for a template to the account of an address.
#[derive(Clone, Copy, Debug, PartialEq, Eq, Structural)]
pub struct GetBlockTemplateParams {
    pub address: Address,
}

/// Asks for the balance of the account of an address in an asset.
#[derive(Clone, Copy, Debug, PartialEq, Eq, Structural)]
pub struct GetBalanceParams {
    pub address: Address,
    pub asset: Hash256,
}

/// Asks for the balance of the account of an address in an asset as it was
/// recorded at a topoheight.
#[derive(Clone, Copy, Debug, PartialEq, Eq, Structural)]
pub struct GetBalanceAtTopoHeightParams {
    pub address: Address,
    pub asset: Hash256,
    pub topoheight: u64,
}

/// Asks for the nonce of the account of an address.
#[derive(Clone, Copy, Debug, PartialEq, Eq, Structural)]
pub struct GetNonceParams {
    pub address: Address,
}

/// Asks for the transaction with a hash.
#[derive(Clone, Copy, Debug, PartialEq, Eq, Structural)]
pub struct GetTransactionParams {
    pub hash: Hash256,
}

/// Asks for the blocks of a height.
#[derive(Clone, Copy, Debug, PartialEq, Eq, Structural)]
pub struct GetBlocksAtHeightParams {
    pub height: u64,
}

/// The last balance of an account with the topoheight from which it holds.
#[derive(Clone, Copy, Debug, PartialEq, Eq, Structural)]
pub struct GetLastBalanceResult {
    pub balance: u64,
    pub topoheight: u64,
}

/// A template with the difficulty that a block built on it has to meet.
#[derive(Debug)]
pub struct GetBlockTemplateResult {
    pub template: BlockTemplate,
    pub difficulty: u64,
}

/// What is answered of a block: where and how it stands in the order, its
/// weights, what the ledger records of it, and what it holds. A block
/// without a topoheight has no supply and no reward.
#[derive(Debug)]
pub struct BlockResponse {
    pub topoheight: Option<u64>,
    pub block_type: BlockType,
    pub cumulative_difficulty: u128,
    pub difficulty: u64,
    pub supply: Option<u64>,
    pub reward: Option<u64>,
    pub hash: Hash256,
    pub tips: Vec<Hash256>,
    pub height: u64,
    pub timestamp: u64,
    pub miner: Hash256,
    pub txs: Vec<Transaction>,
}

/// Whether `response` is what the chain answers of its block `i`.
pub open spec fn answers(chain: &Blockchain, i: int, response: BlockResponse) -> bool {
    let t = place_of(chain.orderer.place@, i);
    &&& response.topoheight == (if t >= 0 {
        Some(t as u64)
    } else {
        None
    })
    &&& response.block_type == chain.block_type_at(i)
    &&& response.cumulative_difficulty == chain.weights.cumulative@[i]
    &&& response.difficulty == chain.weights.own@[i]
    &&& response.supply == (if t >= 0 {
        Some(chain.ledger.applied@[t].supply)
    } else {
        None
    })
    &&& response.reward == (if t >= 0 {
        Some(chain.ledger.applied@[t].reward)
    } else {
        None
    })
    &&& response.hash == chain.dag.nodes@[i].hash
    &&& response.tips@ == chain.dag.parent_hashes(i)
    &&& response.height == chain.dag.nodes@[i].height
    &&& response.timestamp == chain.weights.timestamps@[i]
    &&& response.miner == chain.bodies@[i].miner
    &&& response.txs@ == chain.bodies@[i].txs@
}

/// How the block with this hash stands in the order.
pub fn get_block_type_for_block(chain: &Blockchain, hash: &Hash256) -> (r: Result<
    BlockType,
    RpcError,
>)
    requires
        chain.wf(),
    ensures
        !chain.dag.contains(*hash) ==> r == Err::<BlockType, RpcError>(RpcError::NotFound),
        chain.dag.contains(*hash) ==> r == Ok::<BlockType, RpcError>(
            chain.block_type_at(chain.dag.position(*hash)),
        ),
{
    match chain.get_block_type(hash) {
        Ok(t) => Ok(t),
        Err(e) => Err(refuse(e)),
    }
}

/// A copy of the transactions.
fn copy_txs(txs: &Vec<Transaction>) -> (copy: Vec<Transaction>)
    ensures
        copy@ == txs@,
{
    let mut copy: Vec<Transaction> = Vec::new();
    let mut k: usize = 0;
    while k < txs.len()
        invariant
            k <= txs@.len(),
            copy@ == txs@.take(k as int),
        decreases txs@.len() - k,
    {
        copy.push(txs[k]);
        assert(txs@.take(k + 1) == txs@.take(k as int).push(txs@[k as int]));
        k += 1;
    }
    assert(txs@.take(k as int) == txs@);
    copy
}

/// What the chain answers of its block `i`.
pub fn block_response_at(chain: &Blockchain, i: usize) -> (response: BlockResponse)
    requires
        chain.wf(),
        i < chain.dag.nodes@.len(),
    ensures
        answers(chain, i as int, response),
{
    let topoheight: Option<u64> = chain.orderer.topoheight_of(i);
    let block_type: BlockType = chain.block_type_of(i);
    let (supply, reward): (Option<u64>, Option<u64>) = match chain.applied_of(i) {
        Some(applied) => (Some(applied.supply), Some(applied.reward)),
        None => (None, None),
    };
    BlockResponse {
        topoheight,
        block_type,
        cumulative_difficulty: chain.weights.cumulative[i],
        difficulty: chain.weights.own[i],
        supply,
        reward,
        hash: chain.dag.nodes[i].hash,
        tips: chain.dag.parents_of(i),
        height: chain.dag.nodes[i].height,
        timestamp: chain.weights.timestamps[i],
        miner: chain.bodies[i].miner,
        txs: copy_txs(&chain.bodies[i].txs),
    }
}

/// What the chain answers of the block with this hash, or `NotFound`.
pub fn get_block_response_for_hash(chain: &Blockchain, hash: Hash256) -> (r: Result<
    BlockResponse,
    RpcError,
>)
    requires
        chain.wf(),
    ensures
        !chain.dag.contains(hash) ==> r is Err && r->Err_0 == RpcError::NotFound,
        chain.dag.contains(hash) ==> r is Ok && answers(
            chain,
            chain.dag.position(hash),
            r->Ok_0,
        ),
{
    match chain.dag.index_of(&hash) {
        Some(i) => {
            assert(chain.dag.position(hash) == i);
            Ok(block_response_at(chain, i))
        },
        None => Err(RpcError::NotFound),
    }
}

/// The height of the chain. A body is refused.
pub fn get_height(chain: &Blockchain, body_is_null: bool) -> (r: Result<u64, RpcError>)
    requires
        chain.wf(),
    ensures
        !body_is_null ==> r == Err::<u64, RpcError>(RpcError::UnexpectedParams),
        body_is_null ==> r == Ok::<u64, RpcError>(chain.height() as u64),
{
    if !body_is_null {
        return Err(RpcError::UnexpectedParams);
    }
    Ok(chain.get_height())
}

/// The topoheight of the chain. A body is refused.
pub fn get_topoheight(chain: &Blockchain, body_is_null: bool) -> (r: Result<u64, RpcError>)
    ensures
        !body_is_null ==> r == Err::<u64, RpcError>(RpcError::UnexpectedParams),
        body_is_null ==> r == Ok::<u64, RpcError>(chain.topoheight() as u64),
{
    if !body_is_null {
        return Err(RpcError::UnexpectedParams);
    }
    Ok(chain.get_topo_height())
}

/// The height from which the chain counts as stable. A body is refused.
pub fn get_stableheight(chain: &Blockchain, body_is_null: bool) -> (r: Result<u64, RpcError>)
    requires
        chain.wf(),
    ensures
        !body_is_null ==> r == Err::<u64, RpcError>(RpcError::UnexpectedParams),
        body_is_null ==> r is Ok && r->Ok_0 == (if chain.height() >= crate::chain::STABLE_LIMIT {
            chain.height() - crate::chain::STABLE_LIMIT
        } else {
            0
        }),
{
    if !body_is_null {
        return Err(RpcError::UnexpectedParams);
    }
    Ok(chain.get_stable_height())
}

/// What the chain answers of the block at a topoheight; `NotFound` where
/// the order does not reach it.
pub fn get_block_at_topoheight(chain: &Blockchain, params: &GetBlockAtTopoHeightParams) -> (r:
    Result<BlockResponse, RpcError>)
    requires
        chain.wf(),
    ensures
        params.topoheight >= chain.orderer.order@.len() ==> r is Err && r->Err_0
            == RpcError::NotFound,
        params.topoheight < chain.orderer.order@.len() ==> r is Ok && answers(
            chain,
            chain.orderer.order@[params.topoheight as int] as int,
            r->Ok_0,
        ),
{
    let hash: Hash256 = match chain.get_hash_at_topo_height(params.topoheight) {
        Ok(hash) => hash,
        Err(e) => {
            return Err(refuse(e));
        },
    };
    proof {
        let i = chain.orderer.order@[params.topoheight as int] as int;
        assert(chain.dag.nodes@[i].hash == hash);
        assert(chain.dag.position(hash) == i);
    }
    get_block_response_for_hash(chain, hash)
}

/// What the chain answers of the block with the hash asked for.
pub fn get_block_by_hash(chain: &Blockchain, params: &GetBlockByHashParams) -> (r: Result<
    BlockResponse,
    RpcError,
>)
    requires
        chain.wf(),
    ensures
        !chain.dag.contains(params.hash) ==> r is Err && r->Err_0 == RpcError::NotFound,
        chain.dag.contains(params.hash) ==> r is Ok && answers(
            chain,
            chain.dag.position(params.hash),
            r->Ok_0,
        ),
{
    get_block_response_for_hash(chain, params.hash)
}

/// What the chain answers of the end of its canonical path. A body is
/// refused first; a chain without blocks answers `NotFound`.
pub fn get_top_block(chain: &Blockchain, body_is_null: bool) -> (r: Result<BlockResponse, RpcError>)
    requires
        chain.wf(),
    ensures
        !body_is_null ==> r is Err && r->Err_0 == RpcError::UnexpectedParams,
        body_is_null && chain.dag.nodes@.len() == 0 ==> r is Err && r->Err_0 == RpcError::NotFound,
        body_is_null && chain.dag.nodes@.len() > 0 ==> r is Ok && answers(
            chain,
            chain.best_tip(),
            r->Ok_0,
        ),
{
    if !body_is_null {
        return Err(RpcError::UnexpectedParams);
    }
    let hash: Hash256 = match chain.get_top_block_hash() {
        Ok(hash) => hash,
        Err(e) => {
            return Err(refuse(e));
        },
    };
    proof {
        chain.dag.lemma_last_is_tip();
        crate::order::lemma_pick_best(chain.dag.nodes@, chain.weights.cumulative@, chain.dag.tips@);
        let k = choose|k: int|
            0 <= k < chain.dag.tips@.len() && chain.dag.tips@[k] == chain.best_tip();
        assert(chain.dag.tips@[k] < chain.dag.nodes@.len());
        assert(chain.dag.nodes@[chain.best_tip()].hash == hash);
        assert(chain.dag.position(hash) == chain.best_tip());
    }
    get_block_response_for_hash(chain, hash)
}

/// A template for the next block, to the account of a plain address, with
/// the difficulty to meet. An address with data is refused with
/// `ExpectedNormalAddress`.
pub fn get_block_template(chain: &Blockchain, params: &GetBlockTemplateParams, timestamp: u64) -> (r:
    Result<GetBlockTemplateResult, RpcError>)
    requires
        chain.wf(),
        chain.dag.nodes@.len() < usize::MAX,
    ensures
        params.address.has_data ==> r is Err && r->Err_0 == RpcError::ExpectedNormalAddress,
        !params.address.has_data ==> r is Ok && {
            let result = r->Ok_0;
            &&& result.template.tips@ == chain.dag.tip_hashes()
            &&& chain.dag.fits_height(result.template.tips@, result.template.height)
            &&& result.template.difficulty == chain.difficulty_for(result.template.tips@)
            &&& result.difficulty == result.template.difficulty
            &&& result.template.reward == crate::ledger::reward_at(chain.ledger.supply() as u64)
            &&& result.template.miner == params.address.public_key
            &&& result.template.timestamp == timestamp
            &&& result.template.txs@ == crate::chain::packed(
                by_fee(chain.mempool.txs@),
                crate::chain::MAX_BLOCK_SIZE,
            )
        },
{
    if !params.address.is_normal() {
        return Err(RpcError::ExpectedNormalAddress);
    }
    let template: BlockTemplate = chain.get_block_template(params.address.public_key, timestamp);
    let difficulty: u64 = template.difficulty;
    Ok(GetBlockTemplateResult { template, difficulty })
}

/// Hands a block to the chain, to be handed on to the network where it is
/// admitted. A block that the chain refuses is refused with the reason of
/// the chain, and nothing changes.
pub fn submit_block(chain: &mut Blockchain, block: Block) -> (r: Result<bool, RpcError>)
    requires
        old(chain).wf(),
        old(chain).dag.nodes@.len() < usize::MAX,
    ensures
        final(chain).wf(),
        match old(chain).rejection(&block) {
            Some(e) => r == Err::<bool, RpcError>(refusal_of(e)) && *final(chain) == *old(chain),
            None => r == Ok::<bool, RpcError>(true) && final(chain).admitted(old(chain), &block),
        },
{
    match chain.add_new_block(block, true) {
        Ok(_) => Ok(true),
        Err(e) => Err(refuse(e)),
    }
}

/// The last balance of the account of the address in the asset, with its
/// topoheight; `NotFound` where none was ever recorded.
pub fn get_last_balance(chain: &Blockchain, params: &GetBalanceParams) -> (r: Result<
    GetLastBalanceResult,
    RpcError,
>)
    requires
        chain.wf(),
    ensures
        chain.ledger.balance_history(params.address.public_key, params.asset).len() == 0 ==> r
            == Err::<GetLastBalanceResult, RpcError>(RpcError::NotFound),
        chain.ledger.balance_history(params.address.public_key, params.asset).len() > 0 ==> r
            == Ok::<GetLastBalanceResult, RpcError>(
            GetLastBalanceResult {
                balance: chain.ledger.balance_history(
                    params.address.public_key,
                    params.asset,
                ).last().value,
                topoheight: chain.ledger.balance_history(
                    params.address.public_key,
                    params.asset,
                ).last().topoheight,
            },
        ),
{
    match chain.ledger.get_last_balance(&params.address.public_key, &params.asset) {
        Ok((topoheight, balance)) => Ok(GetLastBalanceResult { balance, topoheight }),
        Err(e) => Err(refuse(e)),
    }
}

/// The balance of the account of the address in the asset that was recorded
/// at exactly the topoheight asked for. A topoheight above that of the chain
/// is refused with `UnexpectedParams`; one at which nothing was recorded for
/// the key, with `NotFound`.
pub fn get_balance_at_topoheight(chain: &Blockchain, params: &GetBalanceAtTopoHeightParams) -> (r:
    Result<u64, RpcError>)
    requires
        chain.wf(),
    ensures
        params.topoheight > chain.topoheight() ==> r == Err::<u64, RpcError>(
            RpcError::UnexpectedParams,
        ),
        params.topoheight <= chain.topoheight() ==> match r {
            Ok(balance) => chain.ledger.balance_history(
                params.address.public_key,
                params.asset,
            ).contains(Version { topoheight: params.topoheight, value: balance }),
            Err(e) => e == RpcError::NotFound && forall|k: int|
                0 <= k < chain.ledger.balance_history(
                    params.address.public_key,
                    params.asset,
                ).len() ==> (#[trigger] chain.ledger.balance_history(
                    params.address.public_key,
                    params.asset,
                )[k]).topoheight != params.topoheight,
        },
{
    let topoheight: u64 = chain.get_topo_height();
    if params.topoheight > topoheight {
        return Err(RpcError::UnexpectedParams);
    }
    match chain.ledger.get_balance_at_exact_topoheight(
        &params.address.public_key,
        &params.asset,
        params.topoheight,
    ) {
        Ok(balance) => Ok(balance),
        Err(e) => Err(refuse(e)),
    }
}

/// The nonce that the next transaction of the account of the address
/// carries.
pub fn get_nonce(chain: &Blockchain, params: &GetNonceParams) -> (r: Result<u64, RpcError>)
    requires
        chain.wf(),
    ensures
        r == Ok::<u64, RpcError>(
            crate::ledger::current_value(chain.ledger.nonce_history(params.address.public_key)),
        ),
{
    Ok(chain.ledger.get_nonce(&params.address.public_key))
}

/// The assets of which a balance was ever recorded, each once, in the
/// sequence in which they first came. A body is refused.
pub fn get_assets(chain: &Blockchain, body_is_null: bool) -> (r: Result<Vec<Hash256>, RpcError>)
    ensures
        !body_is_null ==> r is Err && r->Err_0 == RpcError::UnexpectedParams,
        body_is_null ==> r is Ok && r->Ok_0@ == crate::ledger::assets_in(
            chain.ledger.balances.entries@,
            chain.ledger.balances.entries@.len() as int,
        ),
{
    if !body_is_null {
        return Err(RpcError::UnexpectedParams);
    }
    Ok(chain.ledger.get_assets())
}

/// The number of transactions that the blocks of the chain hold. A body is
/// refused.
pub fn count_transactions(chain: &Blockchain, body_is_null: bool) -> (r: Result<u64, RpcError>)
    ensures
        !body_is_null ==> r == Err::<u64, RpcError>(RpcError::UnexpectedParams),
        body_is_null ==> r is Ok && r->Ok_0 == (if crate::chain::count_txs(
            chain.bodies@,
            chain.bodies@.len() as int,
        ) > u64::MAX {
            u64::MAX as int
        } else {
            crate::chain::count_txs(chain.bodies@, chain.bodies@.len() as int)
        }),
{
    if !body_is_null {
        return Err(RpcError::UnexpectedParams);
    }
    Ok(chain.count_transactions())
}

/// Hands a transaction to the pool, to be handed on to the network where it
/// is let in. `signature_ok` says whether its signature holds. One that the
/// pool refuses is refused with the reason of the pool, and nothing
/// changes.
pub fn submit_transaction(chain: &mut Blockchain, tx: Transaction, signature_ok: bool) -> (r: Result<
    bool,
    RpcError,
>)
    requires
        old(chain).wf(),
    ensures
        final(chain).wf(),
        match verdict_on(old(chain).mempool.txs@, &old(chain).ledger, tx, signature_ok) {
            Some(e) => r == Err::<bool, RpcError>(refusal_of(e)) && final(chain).mempool.txs@
                == old(chain).mempool.txs@,
            None => r == Ok::<bool, RpcError>(true) && final(chain).mempool.txs@ == old(
                chain,
            ).mempool.txs@.push(tx),
        },
{
    match chain.add_tx_to_mempool(tx, signature_ok, true) {
        Ok(_) => Ok(true),
        Err(e) => Err(refuse(e)),
    }
}

/// The transaction with the hash asked for that a block of the chain holds,
/// or `NotFound`.
pub fn get_transaction(chain: &Blockchain, params: &GetTransactionParams) -> (r: Result<
    Transaction,
    RpcError,
>)
    ensures
        match r {
            Ok(tx) => tx.hash == params.hash && exists|i: int, l: int|
                crate::chain::first_with(chain.bodies@, params.hash, i, l)
                    && #[trigger] chain.bodies@[i].txs@[l] == tx,
            Err(e) => e == RpcError::NotFound && forall|i: int, k: int|
                0 <= i < chain.bodies@.len() && 0 <= k < chain.bodies@[i].txs@.len() ==> (
                #[trigger] chain.bodies@[i].txs@[k]).hash != params.hash,
        },
{
    match chain.get_transaction(&params.hash) {
        Ok(tx) => Ok(tx),
        Err(e) => Err(refuse(e)),
    }
}

/// The state of the networking part beside the height of the chain. A body
/// is refused first; a node without networking answers `NoP2p`.
pub fn p2p_status(chain: &Blockchain, body_is_null: bool, p2p: Option<&P2pInfo>) -> (r: Result<
    P2pStatusResult,
    RpcError,
>)
    requires
        chain.wf(),
    ensures
        !body_is_null ==> r is Err && r->Err_0 == RpcError::UnexpectedParams,
        body_is_null && p2p is None ==> r is Err && r->Err_0 == RpcError::NoP2p,
        body_is_null && p2p is Some ==> r is Ok && status_reports(
            r->Ok_0,
            *p2p->Some_0,
            chain.height() as u64,
        ),
{
    if !body_is_null {
        return Err(RpcError::UnexpectedParams);
    }
    match p2p {
        Some(p2p) => {
            let peer_count: usize = p2p.peer_count;
            let tag: Option<String> = match &p2p.tag {
                Some(t) => Some(t.clone()),
                None => None,
            };
            let peer_id: u64 = p2p.peer_id;
            let best_height: u64 = p2p.best_height;
            let max_peers: usize = p2p.max_peers;
            let our_height: u64 = chain.get_height();
            Ok(P2pStatusResult { peer_count, tag, peer_id, our_height, best_height, max_peers })
        },
        None => Err(RpcError::NoP2p),
    }
}

/// The transactions that wait, by fee, the highest first. A body is
/// refused.
pub fn get_mempool(chain: &Blockchain, body_is_null: bool) -> (r: Result<Vec<Transaction>, RpcError>)
    ensures
        !body_is_null ==> r is Err && r->Err_0 == RpcError::UnexpectedParams,
        body_is_null ==> r is Ok && r->Ok_0@ == by_fee(chain.mempool.txs@),
{
    if !body_is_null {
        return Err(RpcError::UnexpectedParams);
    }
    Ok(chain.mempool.get_sorted_txs())
}

/// What the chain answers of each block of the height asked for, in the
/// sequence in which the blocks came.
pub fn get_blocks_at_height(chain: &Blockchain, params: &GetBlocksAtHeightParams) -> (r: Result<
    Vec<BlockResponse>,
    RpcError,
>)
    requires
        chain.wf(),
    ensures
        r is Ok,
        r->Ok_0@.len() == crate::chain::at_height(
            chain.dag.nodes@,
            params.height,
            chain.dag.nodes@.len() as int,
        ).len(),
        forall|k: int|
            0 <= k < r->Ok_0@.len() ==> (#[trigger] r->Ok_0@[k]).hash == crate::chain::at_height(
                chain.dag.nodes@,
                params.height,
                chain.dag.nodes@.len() as int,
            )[k] && chain.dag.contains(r->Ok_0@[k].hash) && answers(
                chain,
                chain.dag.position(r->Ok_0@[k].hash),
                r->Ok_0@[k],
            ),
{
    let hashes: Vec<Hash256> = chain.get_blocks_at_height(params.height);
    proof {
        crate::chain::lemma_at_height(&chain.dag, params.height, chain.dag.nodes@.len() as int);
    }
    let mut blocks: Vec<BlockResponse> = Vec::new();
    let mut k: usize = 0;
    while k < hashes.len()
        invariant
            chain.wf(),
            k <= hashes@.len(),
            blocks@.len() == k,
            forall|l: int| 0 <= l < hashes@.len() ==> chain.dag.contains(#[trigger] hashes@[l]),
            forall|l: int|
                0 <= l < k ==> (#[trigger] blocks@[l]).hash == hashes@[l] && answers(
                    chain,
                    chain.dag.position(blocks@[l].hash),
                    blocks@[l],
                ),
        decreases hashes@.len() - k,
    {
        assert(chain.dag.contains(hashes@[k as int]));
        match get_block_response_for_hash(chain, hashes[k]) {
            Ok(response) => {
                blocks.push(response);
            },
            Err(e) => {
                return Err(e);
            },
        }
        k += 1;
    }
    Ok(blocks)
}

/// The hashes of the tips, ascending. A body is refused.
pub fn get_tips(chain: &Blockchain, body_is_null: bool) -> (r: Result<Vec<Hash256>, RpcError>)
    requires
        chain.wf(),
    ensures
        !body_is_null ==> r is Err && r->Err_0 == RpcError::UnexpectedParams,
        body_is_null ==> r is Ok && r->Ok_0@ == chain.dag.tip_hashes(),
{
    if !body_is_null {
        return Err(RpcError::UnexpectedParams);
    }
    Ok(chain.dag.get_tips())
}

/// The hashes of the blocks at the topoheights from `start` to `end`.
pub open spec fn order_hashes(chain: &Blockchain, start: int, end: int) -> Seq<Hash256> {
    Seq::new(
        (end - start + 1) as nat,
        |k: int| chain.dag.nodes@[chain.orderer.order@[start + k] as int].hash,
    )
}

/// The hashes of the blocks of a range of topoheights, in the order. With
/// neither end given, the range is that of the last `MAX_DAG_ORDER`
/// topoheights and the current one; with only the start given, it ends at
/// the current topoheight; with only the end given, it starts at 0. A range
/// that is inverted, ends above the current topoheight or spans more than
/// `MAX_DAG_ORDER` is refused with `InvalidRequest`. A chain without blocks
/// has no block at topoheight 0, and answers `NotFound`.
pub fn get_dag_order(chain: &Blockchain, params: &GetDagOrderParams) -> (r: Result<
    Vec<Hash256>,
    RpcError,
>)
    requires
        chain.wf(),
    ensures
        !dag_order_servable(*params, chain.topoheight() as u64) ==> r is Err && r->Err_0
            == RpcError::InvalidRequest,
        dag_order_servable(*params, chain.topoheight() as u64) && chain.orderer.order@.len() == 0
            ==> r is Err && r->Err_0 == RpcError::NotFound,
        dag_order_servable(*params, chain.topoheight() as u64) && chain.orderer.order@.len() > 0
            ==> r is Ok && r->Ok_0@ == order_hashes(
            chain,
            dag_order_start(*params, chain.topoheight() as u64),
            dag_order_end(*params, chain.topoheight() as u64),
        ),
{
    let current_topoheight: u64 = chain.get_topo_height();
    let (start, end): (u64, u64) = match dag_order_range(params, current_topoheight) {
        Ok(range) => range,
        Err(e) => {
            return Err(e);
        },
    };
    let len: usize = chain.orderer.order.len();
    let mut order: Vec<Hash256> = Vec::new();
    let mut i: u64 = start;
    while i <= end
        invariant
            chain.wf(),
            len == chain.orderer.order@.len(),
            dag_order_servable(*params, chain.topoheight() as u64),
            start == dag_order_start(*params, chain.topoheight() as u64),
            end == dag_order_end(*params, chain.topoheight() as u64),
            start <= i <= end + 1,
            i > start ==> len > 0,
            end <= chain.topoheight(),
            order@.len() == i - start,
            forall|k: int|
                0 <= k < order@.len() ==> order@[k]
                    == chain.dag.nodes@[chain.orderer.order@[start + k] as int].hash,
        decreases end + 1 - i,
    {
        match chain.get_hash_at_topo_height(i) {
            Ok(hash) => {
                order.push(hash);
            },
            Err(e) => {
                return Err(refuse(e));
            },
        }
        i += 1;
    }
    assert(order@ =~= order_hashes(chain, start as int, end as int));
    Ok(order)
}

} // verus!
