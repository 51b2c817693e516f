//! The chain: the graph, the weights, the order, the account state and the
//! pool held together, and the admission of blocks and transactions that
//! keeps them in step.

use crate::dag::{hashes_at, lists, Dag, Node};
use crate::difficulty::{required_difficulty, DifficultyTable};
use crate::execution::compute_effects;
use crate::ledger::{block_reward, reward_at, same_state, Effect, Key, Ledger};
use crate::mempool::{by_fee, readmitted, Mempool, Transaction};
use crate::order::{
    agree_len, best_of, is_ancestor, lemma_ancestors_counted_first, lemma_on_path_below,
    lemma_order_of, lemma_pick_best, on_path, order_of, pick_best, place_of, reaches, Orderer,
};
use crate::rpc::{block_type_from, select_block_type, BlockType};
use crate::replay::{
    apply_to, lemma_replay, lemma_replay_upto, lemma_same_state, replay, total, StoredBlock,
};
use crate::types::{BlockchainError, Hash256};
use vstd::prelude::*;

verus! {

/// The number of topoheights below the top from which a block of the
/// canonical path counts as stable.
pub const STABLE_LIMIT: u64 = 8;

/// The number of places above a block that is counted beside the canonical
/// path within which a block of the path has to follow for the block to
/// count as a side block.
pub const MERGE_WINDOW: u64 = 8;

/// The room that the transactions of a block may take, in bytes.
pub const MAX_BLOCK_SIZE: u64 = 1_000_000;

/// What a miner is handed to build a block on: the tips, the height and the
/// difficulty that follow from them, the reward that the block mints where
/// it is applied next, and the transactions to take in.
#[derive(Debug)]
pub struct BlockTemplate {
    pub tips: Vec<Hash256>,
    pub height: u64,
    pub timestamp: u64,
    pub difficulty: u64,
    pub reward: u64,
    pub miner: Hash256,
    pub txs: Vec<Transaction>,
}

/// The room that the transactions take.
pub open spec fn total_size(txs: Seq<Transaction>) -> int
    decreases txs.len(),
{
    if txs.len() == 0 {
        0
    } else {
        total_size(txs.drop_last()) + txs.last().size
    }
}

/// The transactions of `offered` that go into `budget`, in their order: each
/// is taken where it still fits beside those taken before it, and passed
/// over where it does not.
pub open spec fn packed(offered: Seq<Transaction>, budget: u64) -> Seq<Transaction>
    decreases offered.len(),
{
    if offered.len() == 0 {
        Seq::empty()
    } else {
        let taken = packed(offered.drop_last(), budget);
        if total_size(taken) + offered.last().size <= budget {
            taken.push(offered.last())
        } else {
            taken
        }
    }
}

/// Computes `packed`.
pub fn pack(offered: &Vec<Transaction>, budget: u64) -> (taken: Vec<Transaction>)
    ensures
        taken@ == packed(offered@, budget),
        total_size(taken@) <= budget,
{
    let mut taken: Vec<Transaction> = Vec::new();
    let mut used: u64 = 0;
    let mut k: usize = 0;
    while k < offered.len()
        invariant
            k <= offered@.len(),
            taken@ == packed(offered@.take(k as int), budget),
            used == total_size(taken@),
            used <= budget,
        decreases offered@.len() - k,
    {
        assert(offered@.take(k + 1).drop_last() == offered@.take(k as int));
        assert(offered@.take(k + 1).last() == offered@[k as int]);
        let tx: Transaction = offered[k];
        if tx.size <= budget - used {
            let ghost before = taken@;
            taken.push(tx);
            assert(taken@.drop_last() == before);
            used = used + tx.size;
        }
        k += 1;
    }
    assert(offered@.take(k as int) == offered@);
    taken
}

/// A block as it is handed in: its hash, the hashes of its parents, the
/// height it gives itself, its timestamp in milliseconds, the difficulty
/// that its proof of work meets, who mined it, and its transactions.
#[derive(Debug)]
pub struct Block {
    pub hash: Hash256,
    pub tips: Vec<Hash256>,
    pub height: u64,
    pub timestamp: u64,
    pub work: u64,
    pub miner: Hash256,
    pub txs: Vec<Transaction>,
}

/// The chain.
#[derive(Debug)]
pub struct Blockchain {
    pub dag: Dag,
    pub weights: DifficultyTable,
    pub orderer: Orderer,
    pub ledger: Ledger,
    pub mempool: Mempool,
    pub bodies: Vec<StoredBlock>,
}

/// The transactions of the blocks of `order` from the place `from` on, in
/// the sequence of the order and of each block.
pub open spec fn txs_from(bodies: Seq<StoredBlock>, order: Seq<usize>, from: int) -> Seq<
    Transaction,
>
    decreases order.len(),
{
    if order.len() <= from || order.len() == 0 {
        Seq::empty()
    } else {
        txs_from(bodies, order.drop_last(), from) + bodies[order.last() as int].txs@
    }
}

/// The hashes of the transactions.
pub open spec fn tx_hashes(txs: Seq<Transaction>) -> Seq<Hash256> {
    Seq::new(txs.len(), |k: int| txs[k].hash)
}

/// The state that an order makes does not change when more blocks come
/// into the graph: it is made by the blocks of the order alone.
pub proof fn lemma_replay_extends(
    nodes: Seq<Node>,
    bodies: Seq<StoredBlock>,
    more_nodes: Seq<Node>,
    more_bodies: Seq<StoredBlock>,
    order: Seq<usize>,
)
    requires
        nodes.len() == bodies.len(),
        nodes.len() <= more_nodes.len(),
        bodies.len() <= more_bodies.len(),
        forall|i: int| 0 <= i < nodes.len() ==> more_nodes[i] == nodes[i],
        forall|i: int| 0 <= i < bodies.len() ==> more_bodies[i] == bodies[i],
        forall|t: int| 0 <= t < order.len() ==> (#[trigger] order[t]) < nodes.len(),
    ensures
        replay(more_nodes, more_bodies, order) == replay(nodes, bodies, order),
    decreases order.len(),
{
    if order.len() > 0 {
        let front = order.drop_last();
        assert(forall|t: int| 0 <= t < front.len() ==> front[t] == order[t]);
        lemma_replay_extends(nodes, bodies, more_nodes, more_bodies, front);
        assert(order[order.len() - 1] < nodes.len());
    }
}

/// What the state that an order makes records at a topoheight is of the
/// block that the order has there.
pub proof fn lemma_replay_hashes(nodes: Seq<Node>, bodies: Seq<StoredBlock>, order: Seq<usize>)
    requires
        order.len() <= u64::MAX,
    ensures
        replay(nodes, bodies, order).applied.len() == order.len(),
        forall|t: int|
            0 <= t < order.len() ==> (#[trigger] replay(nodes, bodies, order).applied[t]).hash
                == nodes[order[t] as int].hash,
    decreases order.len(),
{
    lemma_replay(nodes, bodies, order);
    if order.len() > 0 {
        let front = order.drop_last();
        lemma_replay_hashes(nodes, bodies, front);
        lemma_replay(nodes, bodies, front);
        let made = replay(nodes, bodies, order);
        let before = replay(nodes, bodies, front);
        assert forall|t: int| 0 <= t < order.len() implies (#[trigger] made.applied[t]).hash
            == nodes[order[t] as int].hash by {
            if t < front.len() {
                assert(made.applied[t] == before.applied[t]);
                assert(front[t] == order[t]);
            }
        }
    }
}

/// The hashes of the blocks of this height among the first `upto` blocks,
/// in the sequence in which the blocks came.
pub open spec fn at_height(nodes: Seq<Node>, height: u64, upto: int) -> Seq<Hash256>
    decreases upto,
{
    if upto <= 0 {
        Seq::empty()
    } else {
        let rest = at_height(nodes, height, upto - 1);
        if nodes[upto - 1].height == height {
            rest.push(nodes[upto - 1].hash)
        } else {
            rest
        }
    }
}

/// Whether the transaction `l` of block `i` is the first with this hash, in
/// the sequence of the blocks and of their transactions.
pub open spec fn first_with(bodies: Seq<StoredBlock>, hash: Hash256, i: int, l: int) -> bool {
    &&& 0 <= i < bodies.len()
    &&& 0 <= l < bodies[i].txs@.len()
    &&& bodies[i].txs@[l].hash == hash
    &&& forall|k: int| 0 <= k < l ==> (#[trigger] bodies[i].txs@[k]).hash != hash
    &&& forall|j: int, k: int|
        0 <= j < i && 0 <= k < bodies[j].txs@.len() ==> (#[trigger] bodies[j].txs@[k]).hash
            != hash
}

/// The number of transactions that the first `upto` blocks hold.
pub open spec fn count_txs(bodies: Seq<StoredBlock>, upto: int) -> int
    decreases upto,
{
    if upto <= 0 {
        0
    } else {
        count_txs(bodies, upto - 1) + bodies[upto - 1].txs@.len()
    }
}

/// Every hash that `at_height` gives is of a block of the graph.
pub proof fn lemma_at_height(dag: &Dag, height: u64, upto: int)
    requires
        0 <= upto <= dag.nodes@.len(),
    ensures
        forall|k: int|
            0 <= k < at_height(dag.nodes@, height, upto).len() ==> dag.contains(
                #[trigger] at_height(dag.nodes@, height, upto)[k],
            ),
    decreases upto,
{
    if upto > 0 {
        lemma_at_height(dag, height, upto - 1);
        let rest = at_height(dag.nodes@, height, upto - 1);
        let all = at_height(dag.nodes@, height, upto);
        assert forall|k: int| 0 <= k < all.len() implies dag.contains(#[trigger] all[k]) by {
            if k < rest.len() {
                assert(all[k] == rest[k]);
            } else {
                assert(dag.nodes@[upto - 1].hash == all[k]);
            }
        }
    }
}

/// A copy of the list.
fn copy_list(list: &Vec<usize>) -> (copy: Vec<usize>)
    ensures
        copy@ == list@,
{
    let mut copy: Vec<usize> = Vec::new();
    let mut k: usize = 0;
    while k < list.len()
        invariant
            k <= list@.len(),
            copy@ == list@.take(k as int),
        decreases list@.len() - k,
    {
        copy.push(list[k]);
        assert(list@.take(k + 1) == list@.take(k as int).push(list@[k as int]));
        k += 1;
    }
    assert(list@.take(k as int) == list@);
    copy
}

/// The hashes of the transactions.
fn hashes_of(txs: &Vec<Transaction>) -> (hashes: Vec<Hash256>)
    ensures
        hashes@ == tx_hashes(txs@),
{
    let mut hashes: Vec<Hash256> = Vec::new();
    let mut k: usize = 0;
    while k < txs.len()
        invariant
            k <= txs@.len(),
            hashes@.len() == k,
            forall|l: int| 0 <= l < k ==> hashes@[l] == txs@[l].hash,
        decreases txs@.len() - k,
    {
        hashes.push(txs[k].hash);
        k += 1;
    }
    assert(hashes@ =~= tx_hashes(txs@));
    hashes
}

/// The state that a ledger holds has a history for every key.
pub proof fn lemma_ledger_total(ledger: &Ledger)
    ensures
        total(ledger@),
{
    assert forall|key: Key| #[trigger] ledger@.balances.dom().contains(key) by {}
    assert forall|key: Key| #[trigger] ledger@.nonces.dom().contains(key) by {}
}

/// Brings the ledger from the state that the order `was` made to the state
/// that `order` makes, where the two agree in their first `kept` places:
/// what the blocks after these places wrote is discarded, and the blocks of
/// `order` after these places are applied.
fn settle(
    ledger: &mut Ledger,
    dag: &Dag,
    bodies: &Vec<StoredBlock>,
    order: &Vec<usize>,
    kept: usize,
    Ghost(was): Ghost<Seq<usize>>,
)
    requires
        old(ledger).wf(),
        bodies@.len() == dag.nodes@.len(),
        forall|t: int| 0 <= t < order@.len() ==> (#[trigger] order@[t]) < dag.nodes@.len(),
        kept <= order@.len(),
        kept <= was.len(),
        was.len() <= usize::MAX,
        was.take(kept as int) == order@.take(kept as int),
        same_state(old(ledger)@, replay(dag.nodes@, bodies@, was)),
    ensures
        final(ledger).wf(),
        same_state(final(ledger)@, replay(dag.nodes@, bodies@, order@)),
{
    let ghost nodes = dag.nodes@;
    proof {
        lemma_replay(nodes, bodies@, was);
        lemma_replay(nodes, bodies@, order@.take(kept as int));
        assert(was.take(was.len() as int) == was);
    }
    if kept == 0 {
        *ledger = Ledger::new();
        proof {
            let made = replay(nodes, bodies@, order@.take(0));
            assert(order@.take(0).len() == 0);
            assert forall|key: Key| #[trigger] ledger@.balances[key] == made.balances[key] by {
                assert(ledger.balances.history(key) == Seq::<crate::ledger::Version>::empty());
            }
            assert forall|key: Key| #[trigger] ledger@.nonces[key] == made.nonces[key] by {
                assert(ledger.nonces.history(key) == Seq::<crate::ledger::Version>::empty());
            }
            assert(ledger@.applied =~= made.applied);
        }
    } else if kept < ledger.len() {
        let ghost before = *ledger;
        ledger.rollback_to((kept - 1) as u64);
        proof {
            let whole = replay(nodes, bodies@, was);
            let made = replay(nodes, bodies@, order@.take(kept as int));
            lemma_replay_upto(nodes, bodies@, was, was.len() as int, (kept - 1) as u64);
            assert(was.take((kept - 1) + 1) == order@.take(kept as int));
            assert forall|key: Key| #[trigger] ledger@.balances[key] == made.balances[key] by {
                assert(before@.balances[key] == whole.balances[key]);
                assert(ledger.balances.history(key) == crate::ledger::upto(
                    before.balances.history(key),
                    (kept - 1) as u64,
                ));
            }
            assert forall|key: Key| #[trigger] ledger@.nonces[key] == made.nonces[key] by {
                assert(before@.nonces[key] == whole.nonces[key]);
                assert(ledger.nonces.history(key) == crate::ledger::upto(
                    before.nonces.history(key),
                    (kept - 1) as u64,
                ));
            }
            assert(ledger@.applied == made.applied);
        }
    } else {
        assert(was =~= order@.take(kept as int));
    }
    let mut t: usize = kept;
    while t < order.len()
        invariant
            ledger.wf(),
            nodes == dag.nodes@,
            bodies@.len() == dag.nodes@.len(),
            forall|x: int| 0 <= x < order@.len() ==> (#[trigger] order@[x]) < dag.nodes@.len(),
            kept <= t <= order@.len(),
            same_state(ledger@, replay(nodes, bodies@, order@.take(t as int))),
        decreases order@.len() - t,
    {
        let i: usize = order[t];
        let ghost before = *ledger;
        proof {
            lemma_replay(nodes, bodies@, order@.take(t as int));
            lemma_ledger_total(ledger);
            lemma_same_state(ledger@, replay(nodes, bodies@, order@.take(t as int)));
            assert(ledger.applied@.len() == t);
        }
        let reward: u64 = block_reward(ledger.get_supply());
        let effects: Vec<Effect> = compute_effects(ledger, &bodies[i].txs, bodies[i].miner, reward);
        let at: u64 = ledger.apply_block(dag.nodes[i].hash, reward, &effects);
        proof {
            let next = order@.take(t + 1);
            assert(next.drop_last() == order@.take(t as int));
            assert(next.last() == i);
            let made = replay(nodes, bodies@, next);
            assert(made == apply_to(before@, nodes[i as int].hash, bodies@[i as int].txs@, bodies@[i as int].miner));
            assert forall|key: Key| #[trigger] ledger@.balances[key] == made.balances[key] by {
                assert(ledger.balances.history(key) == crate::ledger::after_effects(
                    before.balances.history(key),
                    effects@,
                    key,
                    true,
                    at,
                ));
            }
            assert forall|key: Key| #[trigger] ledger@.nonces[key] == made.nonces[key] by {
                assert(ledger.nonces.history(key) == crate::ledger::after_effects(
                    before.nonces.history(key),
                    effects@,
                    key,
                    false,
                    at,
                ));
            }
            assert(ledger@.applied == made.applied);
        }
        t += 1;
    }
    assert(order@.take(t as int) == order@);
}

impl Blockchain {
    /// The tip that outranks the others: the end of the canonical path.
    pub open spec fn best_tip(&self) -> int {
        pick_best(self.dag.nodes@, self.weights.cumulative@, self.dag.tips@)
    }

    /// The chain is well formed: each part is, all of them speak of the same
    /// blocks, the order is the order at the tip that outranks the others,
    /// and the account state is the state that this order makes.
    pub open spec fn wf(&self) -> bool {
        &&& self.dag.wf()
        &&& self.weights.wf(self.dag.nodes@)
        &&& self.weights.cumulative@.len() == self.dag.nodes@.len()
        &&& self.bodies@.len() == self.dag.nodes@.len()
        &&& self.orderer.wf(self.dag.nodes@)
        &&& self.ledger.wf()
        &&& self.mempool.wf()
        &&& self.dag.nodes@.len() == 0 ==> self.orderer.order@.len() == 0
        &&& self.dag.nodes@.len() > 0 ==> self.orderer.order@ == order_of(
            self.dag.nodes@,
            self.weights.cumulative@,
            self.best_tip(),
        )
        &&& same_state(self.ledger@, replay(self.dag.nodes@, self.bodies@, self.orderer.order@))
    }

    /// The difficulty that a block with these parents has to meet.
    pub open spec fn difficulty_for(&self, tips: Seq<Hash256>) -> int {
        required_difficulty(
            self.dag.nodes@,
            self.weights.cumulative@,
            self.weights.own@,
            self.weights.timestamps@,
            self.dag.positions(tips),
        )
    }

    /// Why the block is not admitted, the first reason that holds; `None`
    /// where it is admitted. A block that is known is refused with
    /// `AlreadyExists`; one with a parent that is not known, with
    /// `UnknownParent`; one whose height does not follow from its parents,
    /// with `InvalidHeight`; one whose work is below the difficulty that its
    /// parents ask for, with `InsufficientDifficulty`.
    pub open spec fn rejection(&self, block: &Block) -> Option<BlockchainError> {
        if self.dag.contains(block.hash) {
            Some(BlockchainError::AlreadyExists)
        } else if !self.dag.knows_all(block.tips@) {
            Some(BlockchainError::UnknownParent)
        } else if !self.dag.fits_height(block.tips@, block.height) {
            Some(BlockchainError::InvalidHeight)
        } else if block.work < self.difficulty_for(block.tips@) {
            Some(BlockchainError::InsufficientDifficulty)
        } else {
            None
        }
    }

    /// Whether `self` is `before` with the block admitted: the block is in
    /// the graph, weighed with the difficulty that its parents asked for,
    /// and kept with its miner and its transactions; and the pool holds what
    /// is let in again of what waited and of what the blocks that lost their
    /// place give back, but for what the blocks from the first changed place
    /// on hold.
    pub open spec fn admitted(&self, before: &Blockchain, block: &Block) -> bool {
        let n = before.dag.nodes@.len() as int;
        let kept = agree_len(before.orderer.order@, self.orderer.order@);
        &&& self.dag.extends(&before.dag, block.hash, block.tips@)
        &&& self.weights.own@ == before.weights.own@.push(
            before.difficulty_for(block.tips@) as u64,
        )
        &&& self.weights.timestamps@ == before.weights.timestamps@.push(block.timestamp)
        &&& self.weights.cumulative@ == before.weights.cumulative@.push(
            crate::difficulty::cumulative_of(
                before.weights.cumulative@,
                before.dag.positions(block.tips@),
                before.difficulty_for(block.tips@) as u64,
            ) as u128,
        )
        &&& self.bodies@.len() == n + 1
        &&& self.bodies@.take(n) == before.bodies@
        &&& self.bodies@[n].miner == block.miner
        &&& self.bodies@[n].txs@ == block.txs@
        &&& self.mempool.txs@ == readmitted(
            Seq::empty(),
            &self.ledger,
            before.mempool.txs@ + txs_from(self.bodies@, before.orderer.order@, kept),
            tx_hashes(txs_from(self.bodies@, self.orderer.order@, kept)),
        )
    }

    /// The chain without a block.
    pub fn new() -> (chain: Blockchain)
        ensures
            chain.wf(),
            chain.dag.nodes@.len() == 0,
            chain.mempool.txs@.len() == 0,
    {
        let chain = Blockchain {
            dag: Dag::new(),
            weights: DifficultyTable::new(),
            orderer: Orderer::new(),
            ledger: Ledger::new(),
            mempool: Mempool::new(),
            bodies: Vec::new(),
        };
        assert(chain.weights.wf(chain.dag.nodes@));
        assert(chain.orderer.wf(chain.dag.nodes@));
        proof {
            let made = replay(chain.dag.nodes@, chain.bodies@, chain.orderer.order@);
            assert forall|key: Key| #[trigger] chain.ledger@.balances[key] == made.balances[key] by {
                assert(chain.ledger.balances.history(key) == Seq::<crate::ledger::Version>::empty());
            }
            assert forall|key: Key| #[trigger] chain.ledger@.nonces[key] == made.nonces[key] by {
                assert(chain.ledger.nonces.history(key) == Seq::<crate::ledger::Version>::empty());
            }
            assert(chain.ledger@.applied =~= made.applied);
        }
        chain
    }

    /// Whether `self` is `before` with the block taken in and nothing else
    /// changed: the block is in the graph, weighed with the difficulty
    /// `required`, has a slot in the order and is kept with its miner and its
    /// transactions.
    pub open spec fn grown(&self, before: &Blockchain, block: &Block, required: u64) -> bool {
        let n = before.dag.nodes@.len() as int;
        &&& self.dag.wf()
        &&& self.dag.extends(&before.dag, block.hash, block.tips@)
        &&& self.weights.wf(self.dag.nodes@)
        &&& self.weights.own@ == before.weights.own@.push(required)
        &&& self.weights.timestamps@ == before.weights.timestamps@.push(block.timestamp)
        &&& self.weights.cumulative@ == before.weights.cumulative@.push(
            crate::difficulty::cumulative_of(
                before.weights.cumulative@,
                before.dag.positions(block.tips@),
                required,
            ) as u128,
        )
        &&& self.orderer.wf(self.dag.nodes@)
        &&& self.orderer.order@ == before.orderer.order@
        &&& self.bodies@.len() == n + 1
        &&& self.bodies@.take(n) == before.bodies@
        &&& self.bodies@[n].miner == block.miner
        &&& self.bodies@[n].txs@ == block.txs@
        &&& self.ledger == before.ledger
        &&& self.mempool == before.mempool
    }

    /// Tests a block before it is admitted: the result is the reason for
    /// which it is refused, or the difficulty with which it is weighed.
    pub fn check_block(&self, block: &Block) -> (r: Result<u64, BlockchainError>)
        requires
            self.wf(),
            self.dag.nodes@.len() < usize::MAX,
        ensures
            match self.rejection(block) {
                Some(e) => r == Err::<u64, BlockchainError>(e),
                None => r == Ok::<u64, BlockchainError>(self.difficulty_for(block.tips@) as u64),
            },
    {
        if self.dag.has_block(&block.hash) {
            return Err(BlockchainError::AlreadyExists);
        }
        let parents: Vec<usize> = match self.dag.resolve(&block.tips) {
            Some(list) => list,
            None => {
                return Err(BlockchainError::UnknownParent);
            },
        };
        proof {
            self.dag.lemma_positions(parents@, block.tips@);
        }
        let height: u64 = self.dag.height_above(&parents);
        proof {
            let nodes = self.dag.nodes@;
            let tips = block.tips@;
            assert forall|k: int| 0 <= k < tips.len() implies nodes[self.dag.position(
                #[trigger] tips[k],
            )].height == nodes[parents@[k] as int].height by {
                assert(self.dag.positions(tips)[k] == self.dag.position(tips[k]) as usize);
            }
            if tips.len() > 0 {
                let w = choose|k: int|
                    0 <= k < parents@.len() && nodes[(#[trigger] parents@[k]) as int].height + 1
                        == height;
                assert(nodes[self.dag.position(tips[w])].height + 1 == height);
                if self.dag.fits_height(tips, block.height) {
                    let v = choose|k: int|
                        0 <= k < tips.len() && nodes[self.dag.position(#[trigger] tips[k])].height
                            + 1 == block.height;
                    assert(nodes[parents@[v] as int].height < height);
                    assert(nodes[self.dag.position(tips[w])].height < block.height);
                }
            }
            assert(self.dag.fits_height(tips, block.height) <==> block.height == height);
        }
        if block.height != height {
            return Err(BlockchainError::InvalidHeight);
        }
        let required: u64 = self.weights.get_difficulty_at_tips(&self.dag, &parents);
        if block.work < required {
            return Err(BlockchainError::InsufficientDifficulty);
        }
        Ok(required)
    }

    /// Takes a block that is not refused into the graph, the weights, the
    /// slots of the order and the kept blocks. The order, the account state
    /// and the pool stay as they are.
    fn take_in(&mut self, block: Block, required: u64)
        requires
            old(self).wf(),
            old(self).dag.nodes@.len() < usize::MAX,
            !old(self).dag.contains(block.hash),
            old(self).dag.knows_all(block.tips@),
        ensures
            final(self).grown(old(self), &block, required),
    {
        let ghost before = *self;
        let ghost old_nodes = self.dag.nodes@;
        let ghost old_bodies = self.bodies@;
        let n: usize = self.dag.len();
        let _ = self.dag.add_block(block.hash, &block.tips);
        let ghost nodes = self.dag.nodes@;
        proof {
            assert(nodes.take(n as int) == old_nodes);
            assert(forall|i: int| 0 <= i < n ==> nodes[i] == old_nodes[i]);
            assert(self.weights.wf(nodes)) by {
                assert forall|i: int| 0 <= i < self.weights.cumulative@.len() implies (
                #[trigger] self.weights.cumulative@[i]) == crate::difficulty::cumulative_of(
                    self.weights.cumulative@,
                    nodes[i].parents@,
                    self.weights.own@[i],
                ) by {
                    assert(nodes[i] == old_nodes[i]);
                }
            }
            assert(nodes[n as int].parents@ == before.dag.positions(block.tips@)) by {
                let links = nodes[n as int].parents@;
                let wanted = before.dag.positions(block.tips@);
                assert(hashes_at(nodes, links) == block.tips@);
                assert(links.len() == wanted.len());
                assert forall|k: int| 0 <= k < links.len() implies links[k] == wanted[k] by {
                    assert(links[k] < n);
                    assert(hashes_at(nodes, links)[k] == block.tips@[k]);
                    assert(old_nodes[links[k] as int].hash == block.tips@[k]);
                    assert(before.dag.contains(block.tips@[k]));
                    let p = before.dag.position(block.tips@[k]);
                    assert(old_nodes[p].hash == block.tips@[k]);
                }
                assert(links =~= wanted);
            }
        }
        let _ = self.weights.weigh(&self.dag, required, block.timestamp);
        self.orderer.track();
        self.bodies.push(StoredBlock { miner: block.miner, txs: block.txs });
        proof {
            assert(self.bodies@.take(n as int) == old_bodies);
            let order = self.orderer.order@;
            let place = self.orderer.place@;
            assert(forall|i: int|
                0 <= i < n ==> place_of(place, i) == place_of(before.orderer.place@, i));
            assert(place_of(place, n as int) < 0);
            assert(self.orderer.wf(nodes)) by {
                assert forall|t: int| 0 <= t < order.len() implies (#[trigger] order[t])
                    < nodes.len() && place_of(place, order[t] as int) == t by {
                    assert(place_of(before.orderer.place@, order[t] as int) == t);
                }
                assert forall|i: int|
                    0 <= i < nodes.len() && (#[trigger] place_of(place, i)) >= 0 implies place_of(
                    place,
                    i,
                ) < order.len() && order[place_of(place, i)] == i by {
                    assert(place_of(before.orderer.place@, i) >= 0);
                }
                assert forall|t: int, k: int|
                    0 <= t < order.len() && 0 <= k < nodes[order[t] as int].parents@.len()
                        implies 0 <= place_of(
                    place,
                    (#[trigger] nodes[(#[trigger] order[t]) as int].parents@[k]) as int,
                ) < t by {
                    assert(order[t] < n);
                    assert(nodes[order[t] as int] == old_nodes[order[t] as int]);
                    let p = old_nodes[order[t] as int].parents@[k] as int;
                    assert(p < order[t]);
                    assert(0 <= place_of(before.orderer.place@, p) < t);
                }
            }
        }
    }

    /// Admits a block, or refuses it for the reason that `rejection` gives;
    /// a refusal changes nothing. An admitted block comes into the graph and
    /// is weighed; the order is brought to the tip that then outranks the
    /// others, which may take blocks out of the order and others in; the
    /// account state follows the order; and the pool is held against the new
    /// state. The result says whether the block is to be handed on to the
    /// network: it is where `broadcast` asks for it.
    pub fn add_new_block(&mut self, block: Block, broadcast: bool) -> (r: Result<
        bool,
        BlockchainError,
    >)
        requires
            old(self).wf(),
            old(self).dag.nodes@.len() < usize::MAX,
        ensures
            final(self).wf(),
            match old(self).rejection(&block) {
                Some(e) => r == Err::<bool, BlockchainError>(e) && *final(self) == *old(self),
                None => r == Ok::<bool, BlockchainError>(broadcast) && final(self).admitted(
                    old(self),
                    &block,
                ),
            },
    {
        let required: u64 = match self.check_block(&block) {
            Ok(required) => required,
            Err(e) => {
                return Err(e);
            },
        };
        let was: Vec<usize> = copy_list(&self.orderer.order);
        let ghost old_nodes = self.dag.nodes@;
        let ghost old_bodies = self.bodies@;
        let ghost n = self.dag.nodes@.len() as int;
        self.take_in(block, required);
        proof {
            assert(self.dag.nodes@.take(n) == old_nodes);
            assert forall|i: int| 0 <= i < n implies self.dag.nodes@[i] == old_nodes[i] by {
                assert(self.dag.nodes@.take(n)[i] == self.dag.nodes@[i]);
            }
            assert forall|i: int| 0 <= i < n implies self.bodies@[i] == old_bodies[i] by {
                assert(self.bodies@.take(n)[i] == self.bodies@[i]);
            }
            assert(forall|t: int| 0 <= t < was@.len() ==> (#[trigger] was@[t]) < n);
            lemma_replay_extends(old_nodes, old_bodies, self.dag.nodes@, self.bodies@, was@);
            self.dag.lemma_last_is_tip();
        }
        let tip: usize = best_of(&self.dag, &self.weights.cumulative, &self.dag.tips);
        let kept: usize = self.orderer.reorder(&self.dag, &self.weights.cumulative, tip);
        settle(&mut self.ledger, &self.dag, &self.bodies, &self.orderer.order, kept, Ghost(was@));
        let returned: Vec<Transaction> = self.gather(&was, kept);
        let taken: Vec<Transaction> = self.gather(&self.orderer.order, kept);
        let included: Vec<Hash256> = hashes_of(&taken);
        self.mempool.reconcile(&self.ledger, &returned, &included);
        Ok(broadcast)
    }

    /// Lets a transaction into the pool, or refuses it, as `Mempool::add_tx`
    /// does on the account state of the chain. `signature_ok` says whether
    /// the signature of the transaction holds. The result says whether the
    /// transaction is to be handed on to the network.
    pub fn add_tx_to_mempool(&mut self, tx: Transaction, signature_ok: bool, broadcast: bool) -> (r:
        Result<bool, BlockchainError>)
        requires
            old(self).wf(),
        ensures
            final(self).wf(),
            final(self).dag == old(self).dag,
            final(self).orderer == old(self).orderer,
            final(self).ledger == old(self).ledger,
            match crate::mempool::verdict_on(old(self).mempool.txs@, &old(self).ledger, tx, signature_ok) {
                Some(e) => r == Err::<bool, BlockchainError>(e) && final(self).mempool.txs@ == old(
                    self,
                ).mempool.txs@,
                None => r == Ok::<bool, BlockchainError>(broadcast) && final(self).mempool.txs@
                    == old(self).mempool.txs@.push(tx),
            },
    {
        match self.mempool.add_tx(&self.ledger, tx, signature_ok) {
            Ok(()) => Ok(broadcast),
            Err(e) => Err(e),
        }
    }

    /// Whether block `i` has a topoheight.
    pub open spec fn is_ordered(&self, i: int) -> bool {
        place_of(self.orderer.place@, i) >= 0
    }

    /// Whether block `i` lies on the canonical path.
    pub open spec fn canonical(&self, i: int) -> bool {
        on_path(self.dag.nodes@, self.weights.cumulative@, i, self.best_tip())
    }

    /// Whether block `i` is stable: it lies on the canonical path, at least
    /// `STABLE_LIMIT` topoheights below the top.
    pub open spec fn is_sync(&self, i: int) -> bool {
        &&& self.is_ordered(i)
        &&& self.canonical(i)
        &&& place_of(self.orderer.place@, i) + STABLE_LIMIT <= self.orderer.order@.len() - 1
    }

    /// Whether block `i` is a side block: it has a topoheight, does not lie
    /// on the canonical path, and a block of the path follows it within
    /// `MERGE_WINDOW` topoheights.
    pub open spec fn is_side(&self, i: int) -> bool {
        &&& self.is_ordered(i)
        &&& !self.canonical(i)
        &&& exists|d: int|
            1 <= d <= MERGE_WINDOW && place_of(self.orderer.place@, i) + d
                < self.orderer.order@.len() && #[trigger] self.canonical(
                self.orderer.order@[place_of(self.orderer.place@, i) + d] as int,
            )
    }

    /// How block `i` stands: `Orphaned` without a topoheight, else `Sync`
    /// where it is stable, else `Side` where it is a side block, else
    /// `Normal`. Nothing of this is kept: it is read from the order as it
    /// is.
    pub open spec fn block_type_at(&self, i: int) -> BlockType {
        block_type_from(!self.is_ordered(i), self.is_sync(i), self.is_side(i))
    }

    /// The topoheight of the last block of the order; 0 for a chain without
    /// blocks.
    pub open spec fn topoheight(&self) -> int {
        if self.orderer.order@.len() == 0 {
            0
        } else {
            self.orderer.order@.len() - 1
        }
    }

    /// The end of the canonical path.
    pub fn top(&self) -> (tip: usize)
        requires
            self.wf(),
            self.dag.nodes@.len() > 0,
        ensures
            tip == self.best_tip(),
            tip < self.dag.nodes@.len(),
    {
        proof {
            self.dag.lemma_last_is_tip();
        }
        best_of(&self.dag, &self.weights.cumulative, &self.dag.tips)
    }

    /// Whether block `i` lies on the canonical path.
    pub fn is_on_path(&self, i: usize) -> (b: bool)
        requires
            self.wf(),
            i < self.dag.nodes@.len(),
        ensures
            b == self.canonical(i as int),
    {
        let tip: usize = self.top();
        let mut cur: usize = tip;
        loop
            invariant
                self.wf(),
                i < self.dag.nodes@.len(),
                cur < self.dag.nodes@.len(),
                self.canonical(i as int) == on_path(
                    self.dag.nodes@,
                    self.weights.cumulative@,
                    i as int,
                    cur as int,
                ),
            decreases cur,
        {
            if cur == i {
                return true;
            }
            if cur < i || self.dag.nodes[cur].parents.len() == 0 {
                proof {
                    if on_path(self.dag.nodes@, self.weights.cumulative@, i as int, cur as int) {
                        lemma_on_path_below(
                            self.dag.nodes@,
                            self.weights.cumulative@,
                            i as int,
                            cur as int,
                        );
                    }
                }
                return false;
            }
            let next: usize = best_of(&self.dag, &self.weights.cumulative, &self.dag.nodes[cur].parents);
            proof {
                let ps = self.dag.nodes@[cur as int].parents@;
                lemma_pick_best(self.dag.nodes@, self.weights.cumulative@, ps);
                let k = choose|k: int| 0 <= k < ps.len() && ps[k] == next;
                assert(ps[k] < cur);
            }
            cur = next;
        }
    }

    /// Whether block `i` is left out of the order: it has no topoheight.
    pub fn is_block_orphaned(&self, i: usize) -> (b: bool)
        requires
            self.wf(),
            i < self.dag.nodes@.len(),
        ensures
            b == !self.is_ordered(i as int),
    {
        self.orderer.topoheight_of(i).is_none()
    }

    /// Whether block `i` is stable.
    pub fn is_block_sync(&self, i: usize) -> (b: bool)
        requires
            self.wf(),
            i < self.dag.nodes@.len(),
        ensures
            b == self.is_sync(i as int),
    {
        match self.orderer.place[i] {
            Some(t) => {
                assert(place_of(self.orderer.place@, i as int) == t);
                let len: usize = self.orderer.order.len();
                let stable: bool = t as u64 <= u64::MAX - STABLE_LIMIT && t as u64 + STABLE_LIMIT
                    <= (len - 1) as u64;
                stable && self.is_on_path(i)
            },
            None => false,
        }
    }

    /// Whether block `i` is a side block.
    pub fn is_side_block(&self, i: usize) -> (b: bool)
        requires
            self.wf(),
            i < self.dag.nodes@.len(),
        ensures
            b == self.is_side(i as int),
    {
        match self.orderer.place[i] {
            Some(t) => {
                assert(place_of(self.orderer.place@, i as int) == t);
                if self.is_on_path(i) {
                    return false;
                }
                let len: usize = self.orderer.order.len();
                let mut d: usize = 1;
                while d <= MERGE_WINDOW as usize && d < len - t
                    invariant
                        self.wf(),
                        i < self.dag.nodes@.len(),
                        len == self.orderer.order@.len(),
                        t < len,
                        place_of(self.orderer.place@, i as int) == t,
                        !self.canonical(i as int),
                        1 <= d <= MERGE_WINDOW + 1,
                        forall|e: int|
                            1 <= e < d && t + e < len ==> !#[trigger] self.canonical(
                                self.orderer.order@[t + e] as int,
                            ),
                    decreases MERGE_WINDOW + 1 - d,
                {
                    let j: usize = self.orderer.order[t + d];
                    if self.is_on_path(j) {
                        proof {
                            let p = place_of(self.orderer.place@, i as int);
                            let e = d as int;
                            assert(self.orderer.order@[p + e] == j);
                            assert(1 <= e <= MERGE_WINDOW && p + e < self.orderer.order@.len()
                                && self.canonical(self.orderer.order@[p + e] as int));
                        }
                        return true;
                    }
                    d += 1;
                }
                false
            },
            None => false,
        }
    }

    /// How block `i` stands.
    pub fn block_type_of(&self, i: usize) -> (t: BlockType)
        requires
            self.wf(),
            i < self.dag.nodes@.len(),
        ensures
            t == self.block_type_at(i as int),
    {
        let orphaned: bool = self.is_block_orphaned(i);
        let sync: bool = !orphaned && self.is_block_sync(i);
        let side: bool = !orphaned && !sync && self.is_side_block(i);
        select_block_type(orphaned, sync, side)
    }

    /// How the block with this hash stands, or `NotFound` where no block
    /// with this hash is known.
    pub fn get_block_type(&self, hash: &Hash256) -> (r: Result<BlockType, BlockchainError>)
        requires
            self.wf(),
        ensures
            !self.dag.contains(*hash) ==> r == Err::<BlockType, BlockchainError>(
                BlockchainError::NotFound,
            ),
            self.dag.contains(*hash) ==> r == Ok::<BlockType, BlockchainError>(
                self.block_type_at(self.dag.position(*hash)),
            ),
    {
        match self.dag.index_of(hash) {
            Some(i) => {
                assert(self.dag.position(*hash) == i);
                Ok(self.block_type_of(i))
            },
            None => Err(BlockchainError::NotFound),
        }
    }

    /// What the ledger records of block `i`, where it has a topoheight.
    pub fn applied_of(&self, i: usize) -> (r: Option<crate::ledger::AppliedBlock>)
        requires
            self.wf(),
            i < self.dag.nodes@.len(),
        ensures
            !self.is_ordered(i as int) ==> r is None,
            self.is_ordered(i as int) ==> r == Some(
                self.ledger.applied@[place_of(self.orderer.place@, i as int)],
            ) && r->Some_0.hash == self.dag.nodes@[i as int].hash,
    {
        let len: usize = self.orderer.order.len();
        proof {
            lemma_replay(self.dag.nodes@, self.bodies@, self.orderer.order@);
            lemma_replay_hashes(self.dag.nodes@, self.bodies@, self.orderer.order@);
        }
        match self.orderer.place[i] {
            Some(t) => {
                assert(place_of(self.orderer.place@, i as int) == t);
                assert(self.orderer.order@[t as int] == i);
                Some(self.ledger.applied[t])
            },
            None => None,
        }
    }

    /// The height of the chain: that of the end of the canonical path; 0 for
    /// a chain without blocks.
    pub open spec fn height(&self) -> int {
        if self.dag.nodes@.len() == 0 {
            0
        } else {
            self.dag.nodes@[self.best_tip()].height as int
        }
    }

    /// The height of the chain.
    pub fn get_height(&self) -> (height: u64)
        requires
            self.wf(),
        ensures
            height == self.height(),
    {
        if self.dag.len() == 0 {
            0
        } else {
            let tip: usize = self.top();
            self.dag.nodes[tip].height
        }
    }

    /// The topoheight of the chain: that of the last block of the order.
    pub fn get_topo_height(&self) -> (topoheight: u64)
        ensures
            topoheight == self.topoheight(),
    {
        let len: usize = self.orderer.order.len();
        if len == 0 {
            0
        } else {
            (len - 1) as u64
        }
    }

    /// The height from which the chain counts as stable: `STABLE_LIMIT`
    /// below its height, and 0 where it is not that high.
    pub fn get_stable_height(&self) -> (height: u64)
        requires
            self.wf(),
        ensures
            self.height() >= STABLE_LIMIT ==> height == self.height() - STABLE_LIMIT,
            self.height() < STABLE_LIMIT ==> height == 0,
    {
        let height: u64 = self.get_height();
        if height >= STABLE_LIMIT {
            height - STABLE_LIMIT
        } else {
            0
        }
    }

    /// The hash of the end of the canonical path, or `NotFound` for a chain
    /// without blocks.
    pub fn get_top_block_hash(&self) -> (r: Result<Hash256, BlockchainError>)
        requires
            self.wf(),
        ensures
            self.dag.nodes@.len() == 0 ==> r == Err::<Hash256, BlockchainError>(
                BlockchainError::NotFound,
            ),
            self.dag.nodes@.len() > 0 ==> r == Ok::<Hash256, BlockchainError>(
                self.dag.nodes@[self.best_tip()].hash,
            ),
    {
        if self.dag.len() == 0 {
            Err(BlockchainError::NotFound)
        } else {
            let tip: usize = self.top();
            Ok(self.dag.nodes[tip].hash)
        }
    }

    /// The hash of the block at this topoheight, or `NotFound` where the
    /// order does not reach it.
    pub fn get_hash_at_topo_height(&self, topoheight: u64) -> (r: Result<Hash256, BlockchainError>)
        requires
            self.wf(),
        ensures
            topoheight >= self.orderer.order@.len() ==> r == Err::<Hash256, BlockchainError>(
                BlockchainError::NotFound,
            ),
            topoheight < self.orderer.order@.len() ==> r == Ok::<Hash256, BlockchainError>(
                self.dag.nodes@[self.orderer.order@[topoheight as int] as int].hash,
            ),
    {
        if topoheight >= self.orderer.order.len() as u64 {
            Err(BlockchainError::NotFound)
        } else {
            let i: usize = self.orderer.order[topoheight as usize];
            Ok(self.dag.nodes[i].hash)
        }
    }

    /// The topoheight of the block with this hash, or `NotFound` where no
    /// such block is known or it has none.
    pub fn get_topo_height_for_hash(&self, hash: &Hash256) -> (r: Result<u64, BlockchainError>)
        requires
            self.wf(),
        ensures
            self.dag.contains(*hash) && self.is_ordered(self.dag.position(*hash)) ==> r == Ok::<
                u64,
                BlockchainError,
            >(place_of(self.orderer.place@, self.dag.position(*hash)) as u64),
            !(self.dag.contains(*hash) && self.is_ordered(self.dag.position(*hash))) ==> r
                == Err::<u64, BlockchainError>(BlockchainError::NotFound),
    {
        match self.dag.index_of(hash) {
            Some(i) => {
                assert(self.dag.position(*hash) == i);
                match self.orderer.topoheight_of(i) {
                    Some(t) => Ok(t),
                    None => Err(BlockchainError::NotFound),
                }
            },
            None => Err(BlockchainError::NotFound),
        }
    }

    /// Whether the block with this hash is known and has a topoheight.
    pub fn is_block_topological_ordered(&self, hash: &Hash256) -> (b: bool)
        requires
            self.wf(),
        ensures
            b == (self.dag.contains(*hash) && self.is_ordered(self.dag.position(*hash))),
    {
        self.get_topo_height_for_hash(hash).is_ok()
    }

    /// The hashes of the blocks of this height, in the sequence in which
    /// the blocks came.
    pub fn get_blocks_at_height(&self, height: u64) -> (hashes: Vec<Hash256>)
        ensures
            hashes@ == at_height(self.dag.nodes@, height, self.dag.nodes@.len() as int),
    {
        let mut hashes: Vec<Hash256> = Vec::new();
        let mut i: usize = 0;
        while i < self.dag.nodes.len()
            invariant
                i <= self.dag.nodes@.len(),
                hashes@ == at_height(self.dag.nodes@, height, i as int),
            decreases self.dag.nodes@.len() - i,
        {
            if self.dag.nodes[i].height == height {
                hashes.push(self.dag.nodes[i].hash);
            }
            i += 1;
        }
        hashes
    }

    /// The cumulative difficulty of the block with this hash, or `NotFound`.
    pub fn get_cumulative_difficulty_for_block(&self, hash: &Hash256) -> (r: Result<
        u128,
        BlockchainError,
    >)
        requires
            self.wf(),
        ensures
            !self.dag.contains(*hash) ==> r == Err::<u128, BlockchainError>(
                BlockchainError::NotFound,
            ),
            self.dag.contains(*hash) ==> r == Ok::<u128, BlockchainError>(
                self.weights.cumulative@[self.dag.position(*hash)],
            ),
    {
        match self.dag.index_of(hash) {
            Some(i) => {
                assert(self.dag.position(*hash) == i);
                Ok(self.weights.cumulative[i])
            },
            None => Err(BlockchainError::NotFound),
        }
    }

    /// The difficulty that the block with this hash had to meet, or
    /// `NotFound`.
    pub fn get_difficulty_for_block(&self, hash: &Hash256) -> (r: Result<u64, BlockchainError>)
        requires
            self.wf(),
        ensures
            !self.dag.contains(*hash) ==> r == Err::<u64, BlockchainError>(
                BlockchainError::NotFound,
            ),
            self.dag.contains(*hash) ==> r == Ok::<u64, BlockchainError>(
                self.weights.own@[self.dag.position(*hash)],
            ),
    {
        match self.dag.index_of(hash) {
            Some(i) => {
                assert(self.dag.position(*hash) == i);
                Ok(self.weights.own[i])
            },
            None => Err(BlockchainError::NotFound),
        }
    }

    /// What the ledger records of the block with this hash: its reward and
    /// the supply minted with it. `NotFound` where no such block is known or
    /// it has no topoheight.
    pub fn get_applied_for_hash(&self, hash: &Hash256) -> (r: Result<
        crate::ledger::AppliedBlock,
        BlockchainError,
    >)
        requires
            self.wf(),
        ensures
            self.dag.contains(*hash) && self.is_ordered(self.dag.position(*hash)) ==> r == Ok::<
                crate::ledger::AppliedBlock,
                BlockchainError,
            >(self.ledger.applied@[place_of(self.orderer.place@, self.dag.position(*hash))])
                && r->Ok_0.hash == *hash,
            !(self.dag.contains(*hash) && self.is_ordered(self.dag.position(*hash))) ==> r
                == Err::<crate::ledger::AppliedBlock, BlockchainError>(BlockchainError::NotFound),
    {
        match self.dag.index_of(hash) {
            Some(i) => {
                assert(self.dag.position(*hash) == i);
                match self.applied_of(i) {
                    Some(applied) => Ok(applied),
                    None => Err(BlockchainError::NotFound),
                }
            },
            None => Err(BlockchainError::NotFound),
        }
    }

    /// The supply minted with the block with this hash, or `NotFound`.
    pub fn get_supply_for_hash(&self, hash: &Hash256) -> (r: Result<u64, BlockchainError>)
        requires
            self.wf(),
        ensures
            self.dag.contains(*hash) && self.is_ordered(self.dag.position(*hash)) ==> r == Ok::<
                u64,
                BlockchainError,
            >(
                self.ledger.applied@[place_of(
                    self.orderer.place@,
                    self.dag.position(*hash),
                )].supply,
            ),
            !(self.dag.contains(*hash) && self.is_ordered(self.dag.position(*hash))) ==> r
                == Err::<u64, BlockchainError>(BlockchainError::NotFound),
    {
        match self.get_applied_for_hash(hash) {
            Ok(applied) => Ok(applied.supply),
            Err(e) => Err(e),
        }
    }

    /// The reward that the block with this hash paid, or `NotFound`.
    pub fn get_block_reward(&self, hash: &Hash256) -> (r: Result<u64, BlockchainError>)
        requires
            self.wf(),
        ensures
            self.dag.contains(*hash) && self.is_ordered(self.dag.position(*hash)) ==> r == Ok::<
                u64,
                BlockchainError,
            >(
                self.ledger.applied@[place_of(
                    self.orderer.place@,
                    self.dag.position(*hash),
                )].reward,
            ),
            !(self.dag.contains(*hash) && self.is_ordered(self.dag.position(*hash))) ==> r
                == Err::<u64, BlockchainError>(BlockchainError::NotFound),
    {
        match self.get_applied_for_hash(hash) {
            Ok(applied) => Ok(applied.reward),
            Err(e) => Err(e),
        }
    }

    /// What a miner builds the next block on: all tips, ascending by hash;
    /// the height and the difficulty that follow from them; the reward at
    /// the supply as it is; and the transactions of the pool by fee, the
    /// highest first, as far as they go into `MAX_BLOCK_SIZE`.
    pub fn get_block_template(&self, miner: Hash256, timestamp: u64) -> (template: BlockTemplate)
        requires
            self.wf(),
            self.dag.nodes@.len() < usize::MAX,
        ensures
            template.tips@ == self.dag.tip_hashes(),
            self.dag.knows_all(template.tips@),
            self.dag.fits_height(template.tips@, template.height),
            template.difficulty == self.difficulty_for(template.tips@),
            template.reward == reward_at(self.ledger.supply() as u64),
            template.miner == miner,
            template.timestamp == timestamp,
            template.txs@ == packed(by_fee(self.mempool.txs@), MAX_BLOCK_SIZE),
            total_size(template.txs@) <= MAX_BLOCK_SIZE,
    {
        let tips: Vec<Hash256> = self.dag.get_tips();
        proof {
            self.dag.lemma_positions(self.dag.tips@, tips@);
            assert forall|k: int| 0 <= k < tips@.len() implies self.dag.contains(
                #[trigger] tips@[k],
            ) by {
                assert(self.dag.nodes@[self.dag.tips@[k] as int].hash == tips@[k]);
            }
        }
        let height: u64 = self.dag.height_above(&self.dag.tips);
        proof {
            let nodes = self.dag.nodes@;
            let list = self.dag.tips@;
            assert forall|k: int| 0 <= k < tips@.len() implies nodes[self.dag.position(
                #[trigger] tips@[k],
            )].height == nodes[list[k] as int].height by {
                assert(self.dag.positions(tips@)[k] == self.dag.position(tips@[k]) as usize);
            }
            if tips@.len() > 0 {
                let w = choose|k: int|
                    0 <= k < list.len() && nodes[(#[trigger] list[k]) as int].height + 1 == height;
                assert(nodes[self.dag.position(tips@[w])].height + 1 == height);
            }
        }
        let difficulty: u64 = self.weights.get_difficulty_at_tips(&self.dag, &self.dag.tips);
        let reward: u64 = block_reward(self.ledger.get_supply());
        let sorted: Vec<Transaction> = self.mempool.get_sorted_txs();
        let txs: Vec<Transaction> = pack(&sorted, MAX_BLOCK_SIZE);
        BlockTemplate { tips, height, timestamp, difficulty, reward, miner, txs }
    }

    /// The number of transactions that the blocks of the graph hold, and at
    /// most what 64 bits hold.
    pub fn count_transactions(&self) -> (count: u64)
        ensures
            count == if count_txs(self.bodies@, self.bodies@.len() as int) > u64::MAX {
                u64::MAX as int
            } else {
                count_txs(self.bodies@, self.bodies@.len() as int)
            },
    {
        let mut count: u64 = 0;
        let mut i: usize = 0;
        while i < self.bodies.len()
            invariant
                i <= self.bodies@.len(),
                count == if count_txs(self.bodies@, i as int) > u64::MAX {
                    u64::MAX as int
                } else {
                    count_txs(self.bodies@, i as int)
                },
                count_txs(self.bodies@, i as int) >= 0,
            decreases self.bodies@.len() - i,
        {
            let n: u64 = self.bodies[i].txs.len() as u64;
            count = if n > u64::MAX - count {
                u64::MAX
            } else {
                count + n
            };
            i += 1;
        }
        count
    }

    /// The transaction with this hash that a block of the graph holds, the
    /// first in the sequence of the blocks and of their transactions, or
    /// `NotFound`.
    pub fn get_transaction(&self, hash: &Hash256) -> (r: Result<Transaction, BlockchainError>)
        ensures
            match r {
                Ok(tx) => tx.hash == *hash && exists|i: int, l: int|
                    first_with(self.bodies@, *hash, i, l) && #[trigger] self.bodies@[i].txs@[l]
                        == tx,
                Err(e) => e == BlockchainError::NotFound && forall|i: int, k: int|
                    0 <= i < self.bodies@.len() && 0 <= k < self.bodies@[i].txs@.len() ==> (
                    #[trigger] self.bodies@[i].txs@[k]).hash != *hash,
            },
    {
        let mut i: usize = 0;
        while i < self.bodies.len()
            invariant
                i <= self.bodies@.len(),
                forall|j: int, k: int|
                    0 <= j < i && 0 <= k < self.bodies@[j].txs@.len() ==> (
                    #[trigger] self.bodies@[j].txs@[k]).hash != *hash,
            decreases self.bodies@.len() - i,
        {
            let mut k: usize = 0;
            while k < self.bodies[i].txs.len()
                invariant
                    i < self.bodies@.len(),
                    k <= self.bodies@[i as int].txs@.len(),
                    forall|j: int, k: int|
                        0 <= j < i && 0 <= k < self.bodies@[j].txs@.len() ==> (
                        #[trigger] self.bodies@[j].txs@[k]).hash != *hash,
                    forall|l: int|
                        0 <= l < k ==> (#[trigger] self.bodies@[i as int].txs@[l]).hash != *hash,
                decreases self.bodies@[i as int].txs@.len() - k,
            {
                let tx: Transaction = self.bodies[i].txs[k];
                if tx.hash == *hash {
                    assert(first_with(self.bodies@, *hash, i as int, k as int));
                    assert(self.bodies@[i as int].txs@[k as int] == tx);
                    return Ok(tx);
                }
                k += 1;
            }
            i += 1;
        }
        Err(BlockchainError::NotFound)
    }

    /// The transactions of the blocks of `order` from the place `from` on.
    fn gather(&self, order: &Vec<usize>, from: usize) -> (txs: Vec<Transaction>)
        requires
            forall|t: int| 0 <= t < order@.len() ==> (#[trigger] order@[t]) < self.bodies@.len(),
        ensures
            txs@ == txs_from(self.bodies@, order@, from as int),
    {
        let mut txs: Vec<Transaction> = Vec::new();
        let mut t: usize = from;
        if from >= order.len() {
            return txs;
        }
        assert(order@.take(from as int).len() <= from);
        while t < order.len()
            invariant
                from <= t <= order@.len(),
                forall|x: int| 0 <= x < order@.len() ==> (#[trigger] order@[x]) < self.bodies@.len(),
                txs@ == txs_from(self.bodies@, order@.take(t as int), from as int),
            decreases order@.len() - t,
        {
            let i: usize = order[t];
            let ghost start = txs@;
            let mut k: usize = 0;
            while k < self.bodies[i].txs.len()
                invariant
                    i < self.bodies@.len(),
                    k <= self.bodies@[i as int].txs@.len(),
                    txs@ == start + self.bodies@[i as int].txs@.take(k as int),
                decreases self.bodies@[i as int].txs@.len() - k,
            {
                txs.push(self.bodies[i].txs[k]);
                assert(self.bodies@[i as int].txs@.take(k + 1) == self.bodies@[i as int].txs@.take(
                    k as int,
                ).push(self.bodies@[i as int].txs@[k as int]));
                k += 1;
            }
            assert(self.bodies@[i as int].txs@.take(k as int) == self.bodies@[i as int].txs@);
            assert(order@.take(t + 1).drop_last() == order@.take(t as int));
            assert(order@.take(t + 1).last() == i);
            t += 1;
        }
        assert(order@.take(t as int) == order@);
        txs
    }
}

/// Every ancestor of a block that has a topoheight has one, and a lower
/// one.
pub proof fn lemma_ancestor_has_lower_topoheight(chain: &Blockchain, a: int, b: int)
    requires
        chain.wf(),
        0 <= b < chain.dag.nodes@.len(),
        is_ancestor(chain.dag.nodes@, a, b),
        chain.is_ordered(b),
    ensures
        chain.is_ordered(a),
        place_of(chain.orderer.place@, a) < place_of(chain.orderer.place@, b),
{
    lemma_ancestors_counted_first(&chain.orderer, chain.dag.nodes@, a, b);
}

/// The topoheights are given once each, to exactly the blocks of the order:
/// a block has one where the order holds it, which is where it stands at or
/// below the end of the canonical path; and no two places of the order hold
/// the same block.
pub proof fn lemma_topoheights_exact(chain: &Blockchain, i: int, first: int, second: int)
    requires
        chain.wf(),
        0 <= i < chain.dag.nodes@.len(),
    ensures
        chain.is_ordered(i) <==> lists(chain.orderer.order@, i),
        chain.is_ordered(i) <==> reaches(chain.dag.nodes@, i, chain.best_tip()),
        0 <= first < chain.orderer.order@.len() && 0 <= second < chain.orderer.order@.len()
            && chain.orderer.order@[first] == chain.orderer.order@[second] ==> first == second,
{
    let order = chain.orderer.order@;
    let place = chain.orderer.place@;
    chain.dag.lemma_last_is_tip();
    lemma_pick_best(chain.dag.nodes@, chain.weights.cumulative@, chain.dag.tips@);
    let k = choose|k: int| 0 <= k < chain.dag.tips@.len() && chain.dag.tips@[k] == chain.best_tip();
    assert(chain.dag.tips@[k] < chain.dag.nodes@.len());
    lemma_order_of(chain.dag.nodes@, chain.weights.cumulative@, chain.best_tip());
    if chain.is_ordered(i) {
        assert(order[place_of(place, i)] == i);
    }
    if lists(order, i) {
        let t = choose|t: int| 0 <= t < order.len() && order[t] == i;
        assert(place_of(place, order[t] as int) == t);
    }
    if 0 <= first < order.len() && 0 <= second < order.len() && order[first] == order[second] {
        assert(place_of(place, order[first] as int) == first);
        assert(place_of(place, order[second] as int) == second);
    }
}

/// A block that is known is refused as known.
pub proof fn lemma_known_block_is_refused(chain: &Blockchain, block: &Block)
    requires
        chain.dag.contains(block.hash),
    ensures
        chain.rejection(block) == Some(BlockchainError::AlreadyExists),
{
}

/// A block that has been admitted is known: handed in again, it is refused
/// as known.
pub proof fn lemma_admitted_block_is_known(after: &Blockchain, before: &Blockchain, block: &Block)
    requires
        after.admitted(before, block),
    ensures
        after.dag.contains(block.hash),
        after.rejection(block) == Some(BlockchainError::AlreadyExists),
{
    let n = before.dag.nodes@.len() as int;
    assert(after.dag.nodes@[n].hash == block.hash);
}

/// Where one tip is heavier than every other, it ends the canonical path;
/// the order is the order at it; and every block that stands below another
/// tip only is left out of the order, and is `Orphaned`.
pub proof fn lemma_heavier_branch_wins(chain: &Blockchain, lighter: int, heavier: int, b: int)
    requires
        chain.wf(),
        lists(chain.dag.tips@, heavier),
        lists(chain.dag.tips@, lighter),
        forall|k: int|
            0 <= k < chain.dag.tips@.len() && (#[trigger] chain.dag.tips@[k]) != heavier
                ==> chain.weights.cumulative@[chain.dag.tips@[k] as int]
                < chain.weights.cumulative@[heavier],
        0 <= b < chain.dag.nodes@.len(),
        reaches(chain.dag.nodes@, b, lighter),
        !reaches(chain.dag.nodes@, b, heavier),
    ensures
        chain.best_tip() == heavier,
        chain.orderer.order@ == order_of(chain.dag.nodes@, chain.weights.cumulative@, heavier),
        !chain.is_ordered(b),
        chain.block_type_at(b) == BlockType::Orphaned,
{
    let tips = chain.dag.tips@;
    lemma_pick_best(chain.dag.nodes@, chain.weights.cumulative@, tips);
    let best = chain.best_tip();
    let at = choose|k: int| 0 <= k < tips.len() && tips[k] == best;
    let h = choose|k: int| 0 <= k < tips.len() && tips[k] == heavier;
    assert(tips[at] < chain.dag.nodes@.len());
    assert(tips[h] < chain.dag.nodes@.len());
    if best != heavier {
        assert(chain.weights.cumulative@[tips[at] as int] < chain.weights.cumulative@[heavier]);
        assert(crate::order::outranks(
            chain.dag.nodes@,
            chain.weights.cumulative@,
            tips[h] as int,
            best,
        ));
    }
    lemma_topoheights_exact(chain, b, 0, 0);
}

/// A block built on a template of the chain as it is, with a proof of work
/// that meets the difficulty of the template and a hash that is not known,
/// is admitted.
pub proof fn lemma_template_is_admitted(chain: &Blockchain, template: &BlockTemplate, block: &Block)
    requires
        chain.wf(),
        template.tips@ == chain.dag.tip_hashes(),
        chain.dag.knows_all(template.tips@),
        chain.dag.fits_height(template.tips@, template.height),
        template.difficulty == chain.difficulty_for(template.tips@),
        block.tips@ == template.tips@,
        block.height == template.height,
        block.work >= template.difficulty,
        !chain.dag.contains(block.hash),
    ensures
        chain.rejection(block) is None,
{
}

/// What is counted up to a block that lies on the canonical path before and
/// after a block is admitted keeps its topoheight: a change of the path
/// takes topoheights away only above the last block that the old path and
/// the new one share.
pub proof fn lemma_common_path_keeps_topoheights(
    after: &Blockchain,
    before: &Blockchain,
    block: &Block,
    c: int,
    t: int,
)
    requires
        before.wf(),
        after.wf(),
        after.admitted(before, block),
        0 <= c < before.dag.nodes@.len(),
        before.canonical(c),
        after.canonical(c),
        0 <= t <= place_of(before.orderer.place@, c),
    ensures
        before.is_ordered(c),
        t < after.orderer.order@.len(),
        after.orderer.order@[t] == before.orderer.order@[t],
        place_of(after.orderer.place@, c) == place_of(before.orderer.place@, c),
{
    let nodes = before.dag.nodes@;
    let weights = before.weights.cumulative@;
    let more = after.dag.nodes@;
    let more_weights = after.weights.cumulative@;
    let n = nodes.len() as int;
    assert(more.take(n) == nodes);
    assert forall|i: int| 0 <= i < n implies #[trigger] more[i] == nodes[i] by {
        assert(more.take(n)[i] == more[i]);
    }
    assert(crate::order::grown_from(nodes, weights, more, more_weights));
    before.dag.lemma_last_is_tip();
    after.dag.lemma_last_is_tip();
    lemma_pick_best(nodes, weights, before.dag.tips@);
    lemma_pick_best(more, more_weights, after.dag.tips@);
    let old_top = before.best_tip();
    let new_top = after.best_tip();
    let k = choose|k: int| 0 <= k < before.dag.tips@.len() && before.dag.tips@[k] == old_top;
    assert(before.dag.tips@[k] < nodes.len());
    let l = choose|l: int| 0 <= l < after.dag.tips@.len() && after.dag.tips@[l] == new_top;
    assert(after.dag.tips@[l] < more.len());
    crate::order::lemma_order_grown(nodes, weights, more, more_weights, c, c);
    let part = order_of(nodes, weights, c);
    lemma_order_of(nodes, weights, c);
    crate::order::lemma_path_prefix(nodes, weights, c, old_top);
    crate::order::lemma_path_prefix(more, more_weights, c, new_top);
    let last = part.len() - 1;
    assert(before.orderer.order@.take(part.len() as int)[last] == part[last]);
    assert(before.orderer.order@[last] == c);
    assert(place_of(before.orderer.place@, before.orderer.order@[last] as int) == last);
    assert(after.orderer.order@.take(part.len() as int)[last] == part[last]);
    assert(place_of(after.orderer.place@, after.orderer.order@[last] as int) == last);
    assert(before.orderer.order@.take(part.len() as int)[t] == part[t]);
    assert(after.orderer.order@.take(part.len() as int)[t] == part[t]);
}

} // verus!
