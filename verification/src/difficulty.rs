//! The weight of the blocks: the difficulty that each block had to meet, the
//! cumulative difficulty by which branches are compared, and the difficulty
//! that a block on given tips has to meet.

use crate::dag::{Dag, Node};
use crate::types::BlockchainError;
use crate::order::{best_of, pick_best};
use vstd::prelude::*;

verus! {

/// The least difficulty that a block has to meet.
pub const MINIMUM_DIFFICULTY: u64 = 1000;

/// The time, in milliseconds, that is meant to pass between a block and the
/// next on the canonical path.
pub const BLOCK_TIME: u64 = 15000;

/// The number of steps down the canonical path over which the difficulty is
/// set anew.
pub const DIFFICULTY_WINDOW: u64 = 16;

/// The most by which the difficulty grows or shrinks from one block to the
/// next, as a factor.
pub const MAX_ADJUSTMENT: u64 = 2;

/// The weights of the blocks that have been weighed: the first blocks of
/// the graph, each with its own difficulty, its cumulative difficulty and
/// its timestamp in milliseconds.
#[derive(Debug)]
pub struct DifficultyTable {
    pub own: Vec<u64>,
    pub cumulative: Vec<u128>,
    pub timestamps: Vec<u64>,
}

/// The greatest of the weights of the blocks of `list`; 0 where it is empty.
pub open spec fn max_weight(weights: Seq<u128>, list: Seq<usize>) -> int
    decreases list.len(),
{
    if list.len() == 0 {
        0
    } else {
        let rest = max_weight(weights, list.drop_last());
        let last = weights[list.last() as int] as int;
        if last > rest {
            last
        } else {
            rest
        }
    }
}

/// `max_weight` is the weight of a block of the list, and no block of the
/// list is heavier.
pub proof fn lemma_max_weight(weights: Seq<u128>, list: Seq<usize>)
    ensures
        forall|k: int|
            0 <= k < list.len() ==> weights[(#[trigger] list[k]) as int] <= max_weight(
                weights,
                list,
            ),
        list.len() > 0 ==> exists|k: int|
            0 <= k < list.len() && weights[(#[trigger] list[k]) as int] == max_weight(
                weights,
                list,
            ),
        list.len() == 0 ==> max_weight(weights, list) == 0,
    decreases list.len(),
{
    if list.len() > 0 {
        let front = list.drop_last();
        lemma_max_weight(weights, front);
        assert(forall|k: int| 0 <= k < front.len() ==> front[k] == list[k]);
        let rest = max_weight(weights, front);
        let last = weights[list.last() as int] as int;
        if last > rest || front.len() == 0 {
            assert(weights[list[list.len() - 1] as int] == max_weight(weights, list));
        } else {
            let k = choose|k: int|
                0 <= k < front.len() && weights[(#[trigger] front[k]) as int] == rest;
            assert(weights[list[k] as int] == max_weight(weights, list));
        }
    }
}

/// The cumulative difficulty of a block: its own difficulty and the greatest
/// cumulative difficulty among its parents.
pub open spec fn cumulative_of(weights: Seq<u128>, parents: Seq<usize>, own: u64) -> int {
    own + max_weight(weights, parents)
}

impl DifficultyTable {
    /// The number of blocks that have been weighed.
    pub open spec fn spec_len(&self) -> nat {
        self.cumulative@.len()
    }

    /// The table is well formed over the blocks of a graph: it weighs the
    /// first of them, and the cumulative difficulty of each is its own
    /// difficulty and the greatest cumulative difficulty among its parents.
    /// That of the block at place `i` is then at most `i + 1` times the
    /// greatest difficulty, so that 128 bits always hold it.
    pub open spec fn wf(&self, nodes: Seq<Node>) -> bool {
        &&& self.own@.len() == self.cumulative@.len()
        &&& self.timestamps@.len() == self.cumulative@.len()
        &&& self.cumulative@.len() <= nodes.len()
        &&& forall|i: int|
            0 <= i < self.cumulative@.len() ==> (#[trigger] self.cumulative@[i]) == cumulative_of(
                self.cumulative@,
                nodes[i].parents@,
                self.own@[i],
            )
        &&& forall|i: int|
            0 <= i < self.cumulative@.len() ==> (#[trigger] self.cumulative@[i]) <= (i + 1)
                * 0xffff_ffff_ffff_ffff
    }

    /// The table that weighs no block.
    pub fn new() -> (table: DifficultyTable)
        ensures
            table.own@.len() == 0,
            table.cumulative@.len() == 0,
            table.timestamps@.len() == 0,
            forall|nodes: Seq<Node>| #[trigger] table.wf(nodes),
    {
        DifficultyTable { own: Vec::new(), cumulative: Vec::new(), timestamps: Vec::new() }
    }

    /// Whether every block of `parents` has been weighed.
    pub open spec fn weighs_all(&self, parents: Seq<usize>) -> bool {
        forall|k: int| 0 <= k < parents.len() ==> (#[trigger] parents[k]) < self.cumulative@.len()
    }

    /// Whether every block of `parents` has been weighed.
    pub fn has_weighed(&self, parents: &Vec<usize>) -> (b: bool)
        ensures
            b == self.weighs_all(parents@),
    {
        let n: usize = self.cumulative.len();
        let mut k: usize = 0;
        while k < parents.len()
            invariant
                n == self.cumulative@.len(),
                k <= parents@.len(),
                forall|l: int| 0 <= l < k ==> (#[trigger] parents@[l]) < self.cumulative@.len(),
            decreases parents@.len() - k,
        {
            if parents[k] >= n {
                return false;
            }
            k += 1;
        }
        true
    }

    /// The cumulative difficulty of a block with these parents, which have
    /// been weighed, and this difficulty of its own.
    pub fn cumulative_over(&self, parents: &Vec<usize>, own: u64) -> (weight: u128)
        requires
            self.weighs_all(parents@),
            forall|i: int|
                0 <= i < self.cumulative@.len() ==> (#[trigger] self.cumulative@[i]) <= (i + 1)
                    * 0xffff_ffff_ffff_ffff,
        ensures
            weight == cumulative_of(self.cumulative@, parents@, own),
    {
        let n: usize = self.cumulative.len();
        let mut best: u128 = 0;
        let mut k: usize = 0;
        while k < parents.len()
            invariant
                n == self.cumulative@.len(),
                k <= parents@.len(),
                self.weighs_all(parents@),
                forall|i: int|
                    0 <= i < self.cumulative@.len() ==> (#[trigger] self.cumulative@[i]) <= (i + 1)
                        * 0xffff_ffff_ffff_ffff,
                best == max_weight(self.cumulative@, parents@.take(k as int)),
                best <= self.cumulative@.len() * 0xffff_ffff_ffff_ffff,
            decreases parents@.len() - k,
        {
            let p: usize = parents[k];
            assert(parents@.take(k + 1).drop_last() == parents@.take(k as int));
            if self.cumulative[p] > best {
                best = self.cumulative[p];
            }
            k += 1;
        }
        assert(parents@.take(k as int) == parents@);
        best + own as u128
    }

    /// The cumulative difficulty of a block with these parents and this
    /// difficulty of its own, or `InvalidOrder` where one of the parents has
    /// not been weighed yet.
    pub fn get_cumulative_difficulty(&self, parents: &Vec<usize>, own: u64) -> (r: Result<
        u128,
        BlockchainError,
    >)
        requires
            forall|i: int|
                0 <= i < self.cumulative@.len() ==> (#[trigger] self.cumulative@[i]) <= (i + 1)
                    * 0xffff_ffff_ffff_ffff,
        ensures
            self.weighs_all(parents@) ==> r is Ok && r->Ok_0 == cumulative_of(
                self.cumulative@,
                parents@,
                own,
            ),
            !self.weighs_all(parents@) ==> r == Err::<u128, BlockchainError>(BlockchainError::InvalidOrder),
    {
        if self.has_weighed(parents) {
            Ok(self.cumulative_over(parents, own))
        } else {
            Err(BlockchainError::InvalidOrder)
        }
    }

    /// Weighs the next block of the graph: the first that has not been
    /// weighed. Its parents stand before it, so they have been weighed. The
    /// result is its cumulative difficulty.
    pub fn weigh(&mut self, dag: &Dag, own: u64, timestamp: u64) -> (weight: u128)
        requires
            dag.wf(),
            old(self).wf(dag.nodes@),
            old(self).cumulative@.len() < dag.nodes@.len(),
        ensures
            final(self).wf(dag.nodes@),
            final(self).own@ == old(self).own@.push(own),
            final(self).timestamps@ == old(self).timestamps@.push(timestamp),
            final(self).cumulative@ == old(self).cumulative@.push(weight),
            weight == cumulative_of(
                old(self).cumulative@,
                dag.nodes@[old(self).cumulative@.len() as int].parents@,
                own,
            ),
    {
        let i: usize = self.cumulative.len();
        let ghost before = self.cumulative@;
        assert(self.weighs_all(dag.nodes@[i as int].parents@));
        let weight: u128 = self.cumulative_over(&dag.nodes[i].parents, own);
        proof {
            lemma_max_weight(before, dag.nodes@[i as int].parents@);
            let ps = dag.nodes@[i as int].parents@;
            if ps.len() > 0 {
                let k = choose|k: int|
                    0 <= k < ps.len() && before[(#[trigger] ps[k]) as int] == max_weight(before, ps);
                assert(ps[k] < i);
                assert(before[ps[k] as int] <= (ps[k] + 1) * 0xffff_ffff_ffff_ffff);
            }
        }
        self.own.push(own);
        self.cumulative.push(weight);
        self.timestamps.push(timestamp);
        proof {
            let after = self.cumulative@;
            assert forall|j: int| 0 <= j < after.len() implies (#[trigger] after[j])
                == cumulative_of(after, dag.nodes@[j].parents@, self.own@[j]) by {
                let ps = dag.nodes@[j].parents@;
                assert forall|k: int| 0 <= k < ps.len() implies before[(#[trigger] ps[k]) as int]
                    == after[ps[k] as int] by {
                    assert(ps[k] < j);
                }
                lemma_max_weight_same(before, after, ps);
                if j < i {
                    assert(after[j] == before[j]);
                }
            }
        }
        weight
    }

    /// The difficulty that a block on these tips has to meet. Without tips it
    /// is the least difficulty. Else it is set anew from the tip that
    /// outranks the others: over the last `DIFFICULTY_WINDOW` steps of the
    /// canonical path below it, the difficulty of that tip is scaled by the
    /// time that was meant to pass over the time that passed, and held within
    /// the factor `MAX_ADJUSTMENT` of it.
    pub fn get_difficulty_at_tips(&self, dag: &Dag, tips: &Vec<usize>) -> (difficulty: u64)
        requires
            dag.wf(),
            self.wf(dag.nodes@),
            self.cumulative@.len() == dag.nodes@.len(),
            forall|k: int| 0 <= k < tips@.len() ==> (#[trigger] tips@[k]) < dag.nodes@.len(),
        ensures
            difficulty == required_difficulty(
                dag.nodes@,
                self.cumulative@,
                self.own@,
                self.timestamps@,
                tips@,
            ),
            difficulty >= MINIMUM_DIFFICULTY,
    {
        if tips.len() == 0 {
            return MINIMUM_DIFFICULTY;
        }
        let top: usize = best_of(dag, &self.cumulative, tips);
        let mut cur: usize = top;
        let mut steps: u64 = 0;
        while steps < DIFFICULTY_WINDOW && dag.nodes[cur].parents.len() > 0
            invariant
                dag.wf(),
                self.cumulative@.len() == dag.nodes@.len(),
                cur < dag.nodes@.len(),
                steps <= DIFFICULTY_WINDOW,
                walk_back(dag.nodes@, self.cumulative@, top as int, DIFFICULTY_WINDOW as nat)
                    == walk_back(
                    dag.nodes@,
                    self.cumulative@,
                    cur as int,
                    (DIFFICULTY_WINDOW - steps) as nat,
                ),
                walk_len(dag.nodes@, self.cumulative@, top as int, DIFFICULTY_WINDOW as nat)
                    == steps + walk_len(
                    dag.nodes@,
                    self.cumulative@,
                    cur as int,
                    (DIFFICULTY_WINDOW - steps) as nat,
                ),
            decreases DIFFICULTY_WINDOW - steps,
        {
            cur = best_of(dag, &self.cumulative, &dag.nodes[cur].parents);
            steps += 1;
        }
        let last: u64 = self.own[top];
        let elapsed: u64 = if self.timestamps[top] > self.timestamps[cur] {
            self.timestamps[top] - self.timestamps[cur]
        } else {
            0
        };
        set_anew(last, elapsed, steps)
    }
}

/// Two tables that agree on the blocks of a list give the same greatest
/// weight.
pub proof fn lemma_max_weight_same(first: Seq<u128>, second: Seq<u128>, list: Seq<usize>)
    requires
        forall|k: int|
            0 <= k < list.len() ==> first[(#[trigger] list[k]) as int] == second[list[k] as int],
    ensures
        max_weight(first, list) == max_weight(second, list),
    decreases list.len(),
{
    if list.len() > 0 {
        let front = list.drop_last();
        assert(forall|k: int| 0 <= k < front.len() ==> front[k] == list[k]);
        lemma_max_weight_same(first, second, front);
        assert(list[list.len() - 1] == list.last());
    }
}

/// The block that stands `steps` steps down the canonical path from block
/// `b`, or the block without parents in which the path ends before that.
pub open spec fn walk_back(nodes: Seq<Node>, weights: Seq<u128>, b: int, steps: nat) -> int
    decreases steps,
{
    if steps == 0 || !(0 <= b < nodes.len()) || nodes[b].parents@.len() == 0 {
        b
    } else {
        walk_back(nodes, weights, pick_best(nodes, weights, nodes[b].parents@), (steps - 1) as nat)
    }
}

/// The number of steps that `walk_back` takes.
pub open spec fn walk_len(nodes: Seq<Node>, weights: Seq<u128>, b: int, steps: nat) -> nat
    decreases steps,
{
    if steps == 0 || !(0 <= b < nodes.len()) || nodes[b].parents@.len() == 0 {
        0
    } else {
        1 + walk_len(
            nodes,
            weights,
            pick_best(nodes, weights, nodes[b].parents@),
            (steps - 1) as nat,
        )
    }
}

/// The difficulty `last`, set anew after `steps` steps of the canonical path
/// over which `elapsed` milliseconds passed. With no step it stays. Else it
/// is scaled by the time that was meant to pass over the time that passed (at
/// least one millisecond), held between `last / MAX_ADJUSTMENT` and `last *
/// MAX_ADJUSTMENT`, and kept within 64 bits. It is never below
/// `MINIMUM_DIFFICULTY`.
pub open spec fn retarget(last: u64, elapsed: u64, steps: u64) -> int {
    let span = if elapsed < 1 {
        1
    } else {
        elapsed as int
    };
    let raw = if steps == 0 {
        last as int
    } else {
        (last * (steps * BLOCK_TIME)) / span
    };
    let held = if raw < last / MAX_ADJUSTMENT {
        (last / MAX_ADJUSTMENT) as int
    } else if raw > last * MAX_ADJUSTMENT {
        last * MAX_ADJUSTMENT
    } else {
        raw
    };
    let kept = if held > u64::MAX {
        u64::MAX as int
    } else {
        held
    };
    if kept < MINIMUM_DIFFICULTY {
        MINIMUM_DIFFICULTY as int
    } else {
        kept
    }
}

/// Computes `retarget`.
pub fn set_anew(last: u64, elapsed: u64, steps: u64) -> (difficulty: u64)
    requires
        steps <= DIFFICULTY_WINDOW,
    ensures
        difficulty == retarget(last, elapsed, steps),
        difficulty >= MINIMUM_DIFFICULTY,
{
    let span: u128 = if elapsed < 1 {
        1
    } else {
        elapsed as u128
    };
    let meant: u128 = (steps * BLOCK_TIME) as u128;
    assert(last * meant <= 0xffff_ffff_ffff_ffff * 240000) by (nonlinear_arith)
        requires
            0 <= last <= 0xffff_ffff_ffff_ffff,
            0 <= meant <= 240000,
    ;
    let raw: u128 = if steps == 0 {
        last as u128
    } else {
        (last as u128 * meant) / span
    };
    let low: u128 = (last / MAX_ADJUSTMENT) as u128;
    let high: u128 = last as u128 * MAX_ADJUSTMENT as u128;
    let held: u128 = if raw < low {
        low
    } else if raw > high {
        high
    } else {
        raw
    };
    let kept: u64 = if held > u64::MAX as u128 {
        u64::MAX
    } else {
        held as u64
    };
    if kept < MINIMUM_DIFFICULTY {
        MINIMUM_DIFFICULTY
    } else {
        kept
    }
}

/// The difficulty that a block on the tips `tips` has to meet.
pub open spec fn required_difficulty(
    nodes: Seq<Node>,
    weights: Seq<u128>,
    own: Seq<u64>,
    timestamps: Seq<u64>,
    tips: Seq<usize>,
) -> int {
    if tips.len() == 0 {
        MINIMUM_DIFFICULTY as int
    } else {
        let top = pick_best(nodes, weights, tips);
        let bottom = walk_back(nodes, weights, top, DIFFICULTY_WINDOW as nat);
        let steps = walk_len(nodes, weights, top, DIFFICULTY_WINDOW as nat);
        let elapsed = if timestamps[top] > timestamps[bottom] {
            (timestamps[top] - timestamps[bottom]) as u64
        } else {
            0
        };
        retarget(own[top], elapsed, steps as u64)
    }
}

} // verus!
