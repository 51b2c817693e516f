//! The account state as the order makes it: the state that comes of applying
//! the blocks of the order one after the other, and what of it stays when the
//! order is cut.

use crate::dag::Node;
use crate::execution::block_effects;
use crate::ledger::{
    after_effects, all_below, effect_on, empty_view, lemma_upto_all, reward_at, same_state,
    supply_below, upto, written, AppliedBlock, Effect, Key, LedgerView, Version,
};
use crate::mempool::Transaction;
use crate::types::Hash256;
use vstd::prelude::*;

verus! {

/// What is kept of a block beside its place in the graph: who mined it, and
/// its transactions.
#[derive(Debug)]
pub struct StoredBlock {
    pub miner: Hash256,
    pub txs: Vec<Transaction>,
}

/// The state holds a history, be it empty, for every key.
pub open spec fn total(view: LedgerView) -> bool {
    &&& forall|key: Key| #[trigger] view.balances.dom().contains(key)
    &&& forall|key: Key| #[trigger] view.nonces.dom().contains(key)
}

/// Two states that hold the same histories and records are one state.
pub proof fn lemma_same_state(a: LedgerView, b: LedgerView)
    requires
        total(a),
        total(b),
        same_state(a, b),
    ensures
        a == b,
{
    assert(a.balances =~= b.balances);
    assert(a.nonces =~= b.nonces);
}

/// The state once a block has been applied to `view`: the block gets the
/// next topoheight, mints the reward that the supply allows, and its effects
/// become versions of that topoheight.
pub open spec fn apply_to(
    view: LedgerView,
    hash: Hash256,
    txs: Seq<Transaction>,
    miner: Hash256,
) -> LedgerView {
    let t = view.applied.len() as u64;
    let supply = supply_below(view.applied, view.applied.len() as int) as u64;
    let reward = reward_at(supply) as u64;
    let effects = block_effects(view, txs, miner, reward);
    LedgerView {
        balances: Map::new(
            |key: Key| true,
            |key: Key| after_effects(view.balances[key], effects, key, true, t),
        ),
        nonces: Map::new(
            |key: Key| true,
            |key: Key| after_effects(view.nonces[key], effects, key, false, t),
        ),
        applied: view.applied.push(
            AppliedBlock { hash, reward, supply: (supply + reward) as u64 },
        ),
    }
}

/// The state that the order makes: that of no block, with the blocks of the
/// order applied one after the other.
pub open spec fn replay(nodes: Seq<Node>, bodies: Seq<StoredBlock>, order: Seq<usize>) -> LedgerView
    decreases order.len(),
{
    if order.len() == 0 {
        empty_view()
    } else {
        let i = order.last() as int;
        apply_to(
            replay(nodes, bodies, order.drop_last()),
            nodes[i].hash,
            bodies[i].txs@,
            bodies[i].miner,
        )
    }
}

/// Effects recorded at a topoheight leave a history as it was, or put one
/// version of that topoheight after it.
pub proof fn lemma_after_effects_shape(
    versions: Seq<Version>,
    effects: Seq<Effect>,
    key: Key,
    balances: bool,
    t: u64,
)
    requires
        all_below(versions, t as int),
    ensures
        ({
            let r = after_effects(versions, effects, key, balances, t);
            r == versions || (r.len() == versions.len() + 1 && r.drop_last() == versions
                && r.last().topoheight == t)
        }),
    decreases effects.len(),
{
    if effects.len() > 0 {
        lemma_after_effects_shape(versions, effects.drop_last(), key, balances, t);
        let before = after_effects(versions, effects.drop_last(), key, balances, t);
        match effect_on(effects.last(), key, balances) {
            Some(value) => {
                let r = written(before, t, value);
                if before == versions {
                    if versions.len() > 0 {
                        assert(versions[versions.len() - 1].topoheight < t);
                    }
                    assert(r.drop_last() == versions);
                } else {
                    assert(r.drop_last() == versions);
                }
            },
            None => {},
        }
    }
}

/// What effects at a topoheight record is above any lower bound: cut at the
/// bound, the history is as if they had not come.
pub proof fn lemma_effects_upto(
    versions: Seq<Version>,
    effects: Seq<Effect>,
    key: Key,
    balances: bool,
    t: u64,
    bound: u64,
)
    requires
        all_below(versions, t as int),
        bound < t,
    ensures
        upto(after_effects(versions, effects, key, balances, t), bound) == upto(versions, bound),
{
    lemma_after_effects_shape(versions, effects, key, balances, t);
}

/// Effects recorded at a topoheight record nothing above it.
pub proof fn lemma_effects_below(
    versions: Seq<Version>,
    effects: Seq<Effect>,
    key: Key,
    balances: bool,
    t: u64,
)
    requires
        all_below(versions, t as int),
    ensures
        all_below(after_effects(versions, effects, key, balances, t), t + 1),
{
    lemma_after_effects_shape(versions, effects, key, balances, t);
    let r = after_effects(versions, effects, key, balances, t);
    if r != versions {
        assert forall|i: int| 0 <= i < r.len() implies (#[trigger] r[i]).topoheight < t + 1 by {
            if i < versions.len() {
                assert(r.drop_last()[i] == r[i]);
            }
        }
    }
}

/// The state that an order makes records one block for each place, and
/// holds no version of a topoheight that the order does not have.
pub proof fn lemma_replay(nodes: Seq<Node>, bodies: Seq<StoredBlock>, order: Seq<usize>)
    requires
        order.len() <= u64::MAX,
    ensures
        total(replay(nodes, bodies, order)),
        replay(nodes, bodies, order).applied.len() == order.len(),
        forall|key: Key|
            all_below(#[trigger] replay(nodes, bodies, order).balances[key], order.len() as int),
        forall|key: Key|
            all_below(#[trigger] replay(nodes, bodies, order).nonces[key], order.len() as int),
    decreases order.len(),
{
    if order.len() > 0 {
        let front = order.drop_last();
        lemma_replay(nodes, bodies, front);
        let before = replay(nodes, bodies, front);
        let i = order.last() as int;
        let after = replay(nodes, bodies, order);
        let t = before.applied.len() as u64;
        let supply = supply_below(before.applied, before.applied.len() as int) as u64;
        let reward = reward_at(supply) as u64;
        let effects = block_effects(before, bodies[i].txs@, bodies[i].miner, reward);
        assert forall|key: Key|
            all_below(#[trigger] after.balances[key], order.len() as int) by {
            lemma_effects_below(before.balances[key], effects, key, true, t);
        }
        assert forall|key: Key| all_below(#[trigger] after.nonces[key], order.len() as int) by {
            lemma_effects_below(before.nonces[key], effects, key, false, t);
        }
    }
}

/// Cut at a topoheight, the state that an order makes is the state that the
/// beginning of the order makes: what the blocks above the cut wrote is
/// gone, and what the blocks up to it wrote stands as it stood.
pub proof fn lemma_replay_upto(
    nodes: Seq<Node>,
    bodies: Seq<StoredBlock>,
    order: Seq<usize>,
    len: int,
    bound: u64,
)
    requires
        order.len() <= u64::MAX,
        bound + 1 <= len <= order.len(),
    ensures
        forall|key: Key|
            upto(#[trigger] replay(nodes, bodies, order.take(len)).balances[key], bound) == replay(
                nodes,
                bodies,
                order.take(bound + 1),
            ).balances[key],
        forall|key: Key|
            upto(#[trigger] replay(nodes, bodies, order.take(len)).nonces[key], bound) == replay(
                nodes,
                bodies,
                order.take(bound + 1),
            ).nonces[key],
        replay(nodes, bodies, order.take(len)).applied.take(bound + 1) == replay(
            nodes,
            bodies,
            order.take(bound + 1),
        ).applied,
    decreases len,
{
    let whole = replay(nodes, bodies, order.take(len));
    let kept = replay(nodes, bodies, order.take(bound + 1));
    lemma_replay(nodes, bodies, order.take(len));
    lemma_replay(nodes, bodies, order.take(bound + 1));
    if len == bound + 1 {
        assert forall|key: Key| upto(#[trigger] whole.balances[key], bound) == kept.balances[key] by {
            lemma_upto_all(whole.balances[key], bound);
        }
        assert forall|key: Key| upto(#[trigger] whole.nonces[key], bound) == kept.nonces[key] by {
            lemma_upto_all(whole.nonces[key], bound);
        }
        assert(whole.applied.take(bound + 1) == whole.applied);
    } else {
        lemma_replay_upto(nodes, bodies, order, len - 1, bound);
        let front = order.take(len - 1);
        assert(order.take(len).drop_last() == front);
        lemma_replay(nodes, bodies, front);
        let before = replay(nodes, bodies, front);
        let i = order.take(len).last() as int;
        let t = before.applied.len() as u64;
        let supply = supply_below(before.applied, before.applied.len() as int) as u64;
        let reward = reward_at(supply) as u64;
        let effects = block_effects(before, bodies[i].txs@, bodies[i].miner, reward);
        assert forall|key: Key| upto(#[trigger] whole.balances[key], bound) == kept.balances[key] by {
            lemma_effects_upto(before.balances[key], effects, key, true, t, bound);
        }
        assert forall|key: Key| upto(#[trigger] whole.nonces[key], bound) == kept.nonces[key] by {
            lemma_effects_upto(before.nonces[key], effects, key, false, t, bound);
        }
        assert(whole.applied.take(bound + 1) == before.applied.take(bound + 1));
    }
}

} // verus!
