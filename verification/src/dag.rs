//! The graph of blocks: who the parents of each block are, and which blocks
//! have no child yet.

use crate::types::{hash_lt, lemma_hash_order_total, Hash256};
use vstd::prelude::*;

verus! {

/// Why a block is not taken into the graph.
#[derive(Clone, Copy, Debug, PartialEq, Eq, Structural)]
pub enum DagError {
    /// A parent of the block is not in the graph.
    MissingParent,
    /// The block is in the graph already.
    DuplicateBlock,
}

/// A block of the graph. Its parents are named by their positions in the
/// graph's list of blocks.
#[derive(Debug)]
pub struct Node {
    pub hash: Hash256,
    pub parents: Vec<usize>,
    pub height: u64,
}

/// The graph: its blocks in the order in which they came, parents before
/// children; the positions of its tips, ascending by hash; and the positions
/// of all its blocks, ascending by hash, by which a block is found from its
/// hash.
#[derive(Debug)]
pub struct Dag {
    pub nodes: Vec<Node>,
    pub tips: Vec<usize>,
    pub by_hash: Vec<usize>,
}

/// Every parent of a block stands before the block.
pub open spec fn parents_precede(nodes: Seq<Node>) -> bool {
    forall|i: int, k: int|
        0 <= i < nodes.len() && 0 <= k < nodes[i].parents@.len() ==> (
        #[trigger] nodes[i].parents@[k]) < i
}

/// No two blocks share a hash.
pub open spec fn hashes_distinct(nodes: Seq<Node>) -> bool {
    forall|i: int, j: int|
        0 <= i < nodes.len() && 0 <= j < nodes.len() && i != j ==> (#[trigger] nodes[i]).hash != (
        #[trigger] nodes[j]).hash
}

/// The height of block `i` is 0 where it has no parent, and else one more than
/// the greatest height among its parents.
pub open spec fn height_fits(nodes: Seq<Node>, i: int) -> bool {
    let parents = nodes[i].parents@;
    if parents.len() == 0 {
        nodes[i].height == 0
    } else {
        &&& forall|k: int|
            0 <= k < parents.len() ==> nodes[(#[trigger] parents[k]) as int].height
                < nodes[i].height
        &&& exists|k: int|
            0 <= k < parents.len() && nodes[(#[trigger] parents[k]) as int].height + 1
                == nodes[i].height
    }
}

/// Whether the position `i` occurs in `list`.
pub open spec fn lists(list: Seq<usize>, i: int) -> bool {
    exists|k: int| 0 <= k < list.len() && (#[trigger] list[k]) == i
}

/// The blocks are linked as those of a graph are: there are no more of them
/// than can be counted, parents stand before their children, hashes are
/// unique, and heights follow from the parents.
pub open spec fn well_linked(nodes: Seq<Node>) -> bool {
    &&& nodes.len() <= usize::MAX
    &&& parents_precede(nodes)
    &&& hashes_distinct(nodes)
    &&& forall|i: int| 0 <= i < nodes.len() ==> #[trigger] height_fits(nodes, i)
}

/// Block `i` has no child among the blocks.
pub open spec fn is_tip(nodes: Seq<Node>, i: int) -> bool {
    forall|j: int| 0 <= j < nodes.len() ==> !lists((#[trigger] nodes[j]).parents@, i)
}

/// The positions in `list` are of blocks, and ascend strictly by hash.
pub open spec fn ascending_by_hash(nodes: Seq<Node>, list: Seq<usize>) -> bool {
    &&& forall|k: int| 0 <= k < list.len() ==> (#[trigger] list[k]) < nodes.len()
    &&& forall|k: int, l: int|
        0 <= k < l < list.len() ==> hash_lt(
            nodes[(#[trigger] list[k]) as int].hash,
            nodes[(#[trigger] list[l]) as int].hash,
        )
}

/// The list holds the position of every block, ascending by hash.
pub open spec fn indexed(nodes: Seq<Node>, index: Seq<usize>) -> bool {
    &&& ascending_by_hash(nodes, index)
    &&& forall|i: int| 0 <= i < nodes.len() ==> #[trigger] lists(index, i)
}

/// The hashes of the blocks at the positions in `list`.
pub open spec fn hashes_at(nodes: Seq<Node>, list: Seq<usize>) -> Seq<Hash256> {
    Seq::new(list.len(), |k: int| nodes[list[k] as int].hash)
}

/// The hash of block `i`, where `extra` is the hash of a block that comes in
/// at the end of `nodes`.
pub open spec fn hash_or(nodes: Seq<Node>, extra: Hash256, i: int) -> Hash256 {
    if i == nodes.len() {
        extra
    } else {
        nodes[i].hash
    }
}

/// Puts the position of the last block into the list of the positions of
/// the blocks before it by hash, at its place by hash.
fn put_in_index(nodes: &Vec<Node>, index: &mut Vec<usize>)
    requires
        nodes@.len() > 0,
        hashes_distinct(nodes@),
        forall|k: int| 0 <= k < old(index)@.len() ==> (#[trigger] old(index)@[k]) < nodes@.len() - 1,
        forall|k: int, l: int|
            0 <= k < l < old(index)@.len() ==> hash_lt(
                nodes@[(#[trigger] old(index)@[k]) as int].hash,
                nodes@[(#[trigger] old(index)@[l]) as int].hash,
            ),
    ensures
        ascending_by_hash(nodes@, final(index)@),
        forall|i: int| #[trigger]
            lists(final(index)@, i) <==> (lists(old(index)@, i) || i == nodes@.len() - 1),
{
    let n: usize = nodes.len() - 1;
    let ghost s = index@;
    let mut pos: usize = index.len();
    loop
        invariant
            index@ == s,
            n == nodes@.len() - 1,
            pos <= s.len(),
            forall|k: int| 0 <= k < s.len() ==> (#[trigger] s[k]) < n,
            forall|l: int|
                pos <= l < s.len() ==> hash_lt(
                    nodes@[n as int].hash,
                    nodes@[(#[trigger] s[l]) as int].hash,
                ),
        ensures
            pos == 0 || !hash_lt(nodes@[n as int].hash, nodes@[s[pos - 1] as int].hash),
        decreases pos,
    {
        if pos == 0 {
            break;
        }
        let before: bool = nodes[n].hash.lt(&nodes[index[pos - 1]].hash);
        if !before {
            break;
        }
        pos -= 1;
    }
    index.insert(pos, n);
    proof {
        let r = index@;
        assert(r == s.insert(pos as int, n));
        assert forall|k: int| 0 <= k < r.len() implies (#[trigger] r[k]) < nodes@.len() by {
            if k < pos {
                assert(r[k] == s[k]);
            } else if k > pos {
                assert(r[k] == s[k - 1]);
            }
        }
        assert forall|k: int, l: int| 0 <= k < l < r.len() implies hash_lt(
            nodes@[(#[trigger] r[k]) as int].hash,
            nodes@[(#[trigger] r[l]) as int].hash,
        ) by {
            let new_hash = nodes@[n as int].hash;
            if l < pos {
                assert(r[k] == s[k] && r[l] == s[l]);
            } else if l == pos {
                assert(r[k] == s[k]);
                assert(s[pos - 1] < n);
                assert(nodes@[s[pos - 1] as int].hash != new_hash);
                lemma_hash_order_total(nodes@[s[pos - 1] as int].hash, new_hash, new_hash);
                if k < pos - 1 {
                    assert(hash_lt(nodes@[s[k] as int].hash, nodes@[s[pos - 1] as int].hash));
                    lemma_hash_order_total(
                        nodes@[s[k] as int].hash,
                        nodes@[s[pos - 1] as int].hash,
                        new_hash,
                    );
                }
            } else if k == pos {
                assert(r[l] == s[l - 1]);
            } else if k < pos {
                assert(r[k] == s[k] && r[l] == s[l - 1]);
            } else {
                assert(r[k] == s[k - 1] && r[l] == s[l - 1]);
            }
        }
        assert forall|i: int| #[trigger] lists(r, i) <==> (lists(s, i) || i == n) by {
            if lists(r, i) {
                let k = choose|k: int| 0 <= k < r.len() && r[k] == i;
                if k < pos {
                    assert(s[k] == i);
                } else if k > pos {
                    assert(s[k - 1] == i);
                }
            }
            if lists(s, i) {
                let k = choose|k: int| 0 <= k < s.len() && s[k] == i;
                if k < pos {
                    assert(r[k] == i);
                } else {
                    assert(r[k + 1] == i);
                }
            }
            if i == n {
                assert(r[pos as int] == i);
            }
        }
    }
}

/// Whether the position `i` occurs in `list`.
pub fn has_index(list: &Vec<usize>, i: usize) -> (b: bool)
    ensures
        b == lists(list@, i as int),
{
    let mut k: usize = 0;
    while k < list.len()
        invariant
            k <= list@.len(),
            forall|l: int| 0 <= l < k ==> (#[trigger] list@[l]) != i,
        decreases list@.len() - k,
    {
        if list[k] == i {
            return true;
        }
        k += 1;
    }
    false
}

impl Dag {
    /// The number of blocks.
    pub open spec fn spec_len(&self) -> nat {
        self.nodes@.len()
    }

    /// Whether a block with this hash is in the graph.
    pub open spec fn contains(&self, hash: Hash256) -> bool {
        exists|i: int| 0 <= i < self.nodes@.len() && (#[trigger] self.nodes@[i]).hash == hash
    }

    /// The hashes of the parents of block `i`, in the order in which the block
    /// names them.
    pub open spec fn parent_hashes(&self, i: int) -> Seq<Hash256> {
        hashes_at(self.nodes@, self.nodes@[i].parents@)
    }

    /// The hashes of the tips, ascending.
    pub open spec fn tip_hashes(&self) -> Seq<Hash256> {
        hashes_at(self.nodes@, self.tips@)
    }

    /// The graph is well formed: parents stand before their children, so that
    /// it has no cycle; hashes are unique; heights follow from the parents;
    /// every block is listed by its hash; and the tips are exactly the blocks
    /// without a child, ascending by hash.
    pub open spec fn wf(&self) -> bool {
        &&& well_linked(self.nodes@)
        &&& forall|i: int|
            0 <= i < self.nodes@.len() ==> (#[trigger] self.nodes@[i]).height <= i
        &&& indexed(self.nodes@, self.by_hash@)
        &&& ascending_by_hash(self.nodes@, self.tips@)
        &&& forall|i: int|
            0 <= i < self.nodes@.len() ==> (lists(self.tips@, i) <==> #[trigger] is_tip(
                self.nodes@,
                i,
            ))
    }

    /// The graph without a block.
    pub fn new() -> (dag: Dag)
        ensures
            dag.wf(),
            dag.nodes@.len() == 0,
            dag.tips@.len() == 0,
    {
        Dag { nodes: Vec::new(), tips: Vec::new(), by_hash: Vec::new() }
    }

    /// The number of blocks.
    pub fn len(&self) -> (n: usize)
        ensures
            n == self.nodes@.len(),
    {
        self.nodes.len()
    }

    /// The position of the block with this hash. The search goes by the list
    /// of the blocks by hash, and halves what is left at each step.
    pub fn index_of(&self, hash: &Hash256) -> (r: Option<usize>)
        requires
            self.wf(),
        ensures
            match r {
                Some(i) => i < self.nodes@.len() && self.nodes@[i as int].hash == *hash,
                None => !self.contains(*hash),
            },
            self.contains(*hash) <==> r is Some,
    {
        let mut low: usize = 0;
        let mut high: usize = self.by_hash.len();
        while low < high
            invariant
                self.wf(),
                low <= high <= self.by_hash@.len(),
                forall|l: int|
                    0 <= l < low ==> hash_lt(
                        self.nodes@[(#[trigger] self.by_hash@[l]) as int].hash,
                        *hash,
                    ),
                forall|l: int|
                    high <= l < self.by_hash@.len() ==> hash_lt(
                        *hash,
                        self.nodes@[(#[trigger] self.by_hash@[l]) as int].hash,
                    ),
            decreases high - low,
        {
            let mid: usize = low + (high - low) / 2;
            let i: usize = self.by_hash[mid];
            let found: Hash256 = self.nodes[i].hash;
            if found == *hash {
                return Some(i);
            }
            if found.lt(hash) {
                proof {
                    assert forall|l: int| 0 <= l < mid + 1 implies hash_lt(
                        self.nodes@[(#[trigger] self.by_hash@[l]) as int].hash,
                        *hash,
                    ) by {
                        if l < mid {
                            lemma_hash_order_total(
                                self.nodes@[self.by_hash@[l] as int].hash,
                                found,
                                *hash,
                            );
                        }
                    }
                }
                low = mid + 1;
            } else {
                proof {
                    lemma_hash_order_total(*hash, found, found);
                    assert forall|l: int| mid <= l < self.by_hash@.len() implies hash_lt(
                        *hash,
                        self.nodes@[(#[trigger] self.by_hash@[l]) as int].hash,
                    ) by {
                        if l > mid {
                            lemma_hash_order_total(
                                *hash,
                                found,
                                self.nodes@[self.by_hash@[l] as int].hash,
                            );
                        }
                    }
                }
                high = mid;
            }
        }
        proof {
            assert forall|i: int| 0 <= i < self.nodes@.len() implies (
            #[trigger] self.nodes@[i]).hash != *hash by {
                assert(lists(self.by_hash@, i));
                let l = choose|l: int| 0 <= l < self.by_hash@.len() && self.by_hash@[l] == i;
                lemma_hash_order_total(*hash, *hash, *hash);
            }
        }
        None
    }

    /// Whether a block with this hash is in the graph.
    pub fn has_block(&self, hash: &Hash256) -> (b: bool)
        requires
            self.wf(),
        ensures
            b == self.contains(*hash),
    {
        self.index_of(hash).is_some()
    }

    /// The positions of the blocks with these hashes, one for one, or `None`
    /// where one of them is not in the graph.
    pub fn resolve(&self, hashes: &Vec<Hash256>) -> (r: Option<Vec<usize>>)
        requires
            self.wf(),
        ensures
            match r {
                Some(list) => {
                    &&& list@.len() == hashes@.len()
                    &&& forall|k: int|
                        0 <= k < list@.len() ==> (#[trigger] list@[k]) < self.nodes@.len()
                    &&& hashes_at(self.nodes@, list@) == hashes@
                },
                None => exists|k: int|
                    0 <= k < hashes@.len() && !self.contains(#[trigger] hashes@[k]),
            },
            r is Some <==> forall|k: int|
                0 <= k < hashes@.len() ==> self.contains(#[trigger] hashes@[k]),
    {
        let mut list: Vec<usize> = Vec::new();
        let mut k: usize = 0;
        while k < hashes.len()
            invariant
                self.wf(),
                k <= hashes@.len(),
                list@.len() == k,
                forall|l: int| 0 <= l < k ==> (#[trigger] list@[l]) < self.nodes@.len(),
                forall|l: int|
                    0 <= l < k ==> self.nodes@[(#[trigger] list@[l]) as int].hash == hashes@[l],
                forall|l: int| 0 <= l < k ==> self.contains(#[trigger] hashes@[l]),
            decreases hashes@.len() - k,
        {
            match self.index_of(&hashes[k]) {
                Some(i) => {
                    list.push(i);
                },
                None => {
                    return None;
                },
            }
            k += 1;
        }
        assert(hashes_at(self.nodes@, list@) =~= hashes@);
        Some(list)
    }

    /// The height of a block with these parents: 0 without a parent, else one
    /// more than the greatest height among them.
    pub fn height_above(&self, parents: &Vec<usize>) -> (h: u64)
        requires
            self.wf(),
            self.nodes@.len() < usize::MAX,
            forall|k: int| 0 <= k < parents@.len() ==> (#[trigger] parents@[k]) < self.nodes@.len(),
        ensures
            h <= self.nodes@.len(),
            parents@.len() == 0 ==> h == 0,
            forall|k: int|
                0 <= k < parents@.len() ==> self.nodes@[(#[trigger] parents@[k]) as int].height < h,
            parents@.len() > 0 ==> exists|k: int|
                0 <= k < parents@.len() && self.nodes@[(#[trigger] parents@[k]) as int].height + 1
                    == h,
    {
        if parents.len() == 0 {
            return 0;
        }
        let mut best: u64 = self.nodes[parents[0]].height;
        let ghost mut at: int = 0;
        let mut k: usize = 1;
        while k < parents.len()
            invariant
                self.wf(),
                1 <= k <= parents@.len(),
                0 <= at < k,
                best == self.nodes@[parents@[at] as int].height,
                forall|l: int|
                    0 <= l < parents@.len() ==> (#[trigger] parents@[l]) < self.nodes@.len(),
                forall|l: int|
                    0 <= l < k ==> self.nodes@[(#[trigger] parents@[l]) as int].height <= best,
            decreases parents@.len() - k,
        {
            let h: u64 = self.nodes[parents[k]].height;
            if h > best {
                best = h;
                proof {
                    at = k as int;
                }
            }
            k += 1;
        }
        assert(self.nodes@[parents@[at] as int].height <= parents@[at]);
        best + 1
    }

    /// The tips once a block with hash `hash` and parents `parents` has come
    /// in at the end of the list: the old tips that are none of its parents,
    /// and the block itself, ascending by hash.
    fn tips_with(&self, parents: &Vec<usize>, hash: &Hash256) -> (tips: Vec<usize>)
        requires
            self.wf(),
            !self.contains(*hash),
        ensures
            forall|k: int| 0 <= k < tips@.len() ==> (#[trigger] tips@[k]) <= self.nodes@.len(),
            forall|k: int, l: int|
                0 <= k < l < tips@.len() ==> hash_lt(
                    hash_or(self.nodes@, *hash, (#[trigger] tips@[k]) as int),
                    hash_or(self.nodes@, *hash, (#[trigger] tips@[l]) as int),
                ),
            forall|i: int|
                0 <= i <= self.nodes@.len() ==> (#[trigger] lists(tips@, i) <==> (i
                    == self.nodes@.len() || (lists(self.tips@, i) && !lists(parents@, i)))),
    {
        let n: usize = self.nodes.len();
        let mut out: Vec<usize> = Vec::new();
        let mut placed: bool = false;
        let mut k: usize = 0;
        while k < self.tips.len()
            invariant
                self.wf(),
                !self.contains(*hash),
                n == self.nodes@.len(),
                k <= self.tips@.len(),
                forall|x: int| 0 <= x < out@.len() ==> (#[trigger] out@[x]) <= n,
                forall|x: int, y: int|
                    0 <= x < y < out@.len() ==> hash_lt(
                        hash_or(self.nodes@, *hash, (#[trigger] out@[x]) as int),
                        hash_or(self.nodes@, *hash, (#[trigger] out@[y]) as int),
                    ),
                forall|x: int, l: int|
                    0 <= x < out@.len() && k <= l < self.tips@.len() ==> hash_lt(
                        hash_or(self.nodes@, *hash, (#[trigger] out@[x]) as int),
                        self.nodes@[(#[trigger] self.tips@[l]) as int].hash,
                    ),
                !placed ==> forall|x: int|
                    0 <= x < out@.len() ==> hash_lt(
                        hash_or(self.nodes@, *hash, (#[trigger] out@[x]) as int),
                        *hash,
                    ),
                forall|i: int|
                    0 <= i <= n ==> (#[trigger] lists(out@, i) <==> ((placed && i == n) || (lists(
                        self.tips@.take(k as int),
                        i,
                    ) && !lists(parents@, i)))),
            decreases self.tips@.len() - k,
        {
            let t: usize = self.tips[k];
            let ghost before = out@;
            let ghost was_placed = placed;
            proof {
                lemma_hash_order_total(*hash, self.nodes@[t as int].hash, *hash);
                assert(self.nodes@[t as int].hash != *hash);
            }
            if !placed && hash.lt(&self.nodes[t].hash) {
                out.push(n);
                placed = true;
                proof {
                    assert forall|x: int, l: int|
                        0 <= x < out@.len() && k <= l < self.tips@.len() implies hash_lt(
                        hash_or(self.nodes@, *hash, (#[trigger] out@[x]) as int),
                        self.nodes@[(#[trigger] self.tips@[l]) as int].hash,
                    ) by {
                        if x == out@.len() - 1 && l > k {
                            lemma_hash_order_total(
                                *hash,
                                self.nodes@[t as int].hash,
                                self.nodes@[self.tips@[l] as int].hash,
                            );
                        }
                    }
                }
            }
            let ghost middle = out@;
            let skip: bool = has_index(parents, t);
            if !skip {
                out.push(t);
            }
            proof {
                let taken = self.tips@.take(k as int);
                let more = self.tips@.take(k + 1);
                assert(more == taken.push(t));
                assert forall|i: int| 0 <= i <= n implies (#[trigger] lists(out@, i) <==> ((placed
                    && i == n) || (lists(more, i) && !lists(parents@, i)))) by {
                    if lists(out@, i) {
                        let x = choose|x: int| 0 <= x < out@.len() && out@[x] == i;
                        if x < before.len() {
                            assert(before[x] == i);
                            assert(lists(before, i));
                            if !(was_placed && i == n) {
                                let y = choose|y: int| 0 <= y < taken.len() && taken[y] == i;
                                assert(more[y] == i);
                            }
                        } else if x < middle.len() {
                            assert(i == n);
                        } else {
                            assert(i == t);
                            assert(more[k as int] == i);
                        }
                    }
                    if placed && i == n {
                        if was_placed {
                            assert(lists(before, i));
                            let x = choose|x: int| 0 <= x < before.len() && before[x] == i;
                            assert(out@[x] == i);
                        } else {
                            assert(out@[before.len() as int] == i);
                        }
                    }
                    if lists(more, i) && !lists(parents@, i) {
                        let y = choose|y: int| 0 <= y < more.len() && more[y] == i;
                        if y < k {
                            assert(taken[y] == i);
                            assert(lists(taken, i));
                            assert(lists(before, i));
                            let x = choose|x: int| 0 <= x < before.len() && before[x] == i;
                            assert(out@[x] == i);
                        } else {
                            assert(i == t);
                            assert(out@[out@.len() - 1] == i);
                        }
                    }
                }
                assert forall|x: int|
                    0 <= x < out@.len() && !placed implies hash_lt(
                    hash_or(self.nodes@, *hash, (#[trigger] out@[x]) as int),
                    *hash,
                ) by {
                    if x == out@.len() - 1 && !skip {
                        lemma_hash_order_total(*hash, self.nodes@[t as int].hash, *hash);
                    }
                }
            }
            k += 1;
        }
        let ghost before = out@;
        let ghost was_placed = placed;
        assert(self.tips@.take(k as int) == self.tips@);
        if !placed {
            out.push(n);
        }
        proof {
            let last = out@.len() - 1;
            assert forall|i: int| 0 <= i <= n implies (#[trigger] lists(out@, i) <==> (i == n || (
                lists(self.tips@, i) && !lists(parents@, i)))) by {
                if !was_placed {
                    if lists(out@, i) {
                        let x = choose|x: int| 0 <= x < out@.len() && out@[x] == i;
                        if x < last {
                            assert(before[x] == i);
                            assert(lists(before, i));
                        }
                    }
                    if i == n {
                        assert(out@[last] == i);
                    }
                    if lists(self.tips@, i) && !lists(parents@, i) {
                        assert(lists(before, i));
                        let x = choose|x: int| 0 <= x < before.len() && before[x] == i;
                        assert(out@[x] == i);
                    }
                }
            }
        }
        out
    }

    /// The position of the block with this hash.
    pub open spec fn position(&self, hash: Hash256) -> int {
        choose|i: int| 0 <= i < self.nodes@.len() && (#[trigger] self.nodes@[i]).hash == hash
    }

    /// The positions of the blocks with these hashes, one for one.
    pub open spec fn positions(&self, hashes: Seq<Hash256>) -> Seq<usize> {
        Seq::new(hashes.len(), |k: int| self.position(hashes[k]) as usize)
    }

    /// A list of positions at which the blocks have these hashes is the list
    /// of the positions of these hashes.
    pub proof fn lemma_positions(&self, list: Seq<usize>, hashes: Seq<Hash256>)
        requires
            self.wf(),
            forall|k: int| 0 <= k < list.len() ==> (#[trigger] list[k]) < self.nodes@.len(),
            hashes_at(self.nodes@, list) == hashes,
        ensures
            list == self.positions(hashes),
    {
        assert(list.len() == hashes.len());
        assert forall|k: int| 0 <= k < list.len() implies list[k] == self.positions(hashes)[k] by {
            assert(hashes_at(self.nodes@, list)[k] == hashes[k]);
            assert(self.nodes@[list[k] as int].hash == hashes[k]);
            let p = self.position(hashes[k]);
            assert(self.nodes@[p].hash == hashes[k]);
        }
        assert(list =~= self.positions(hashes));
    }

    /// The block that came last has no child: a graph with a block has a tip.
    pub proof fn lemma_last_is_tip(&self)
        requires
            self.wf(),
            self.nodes@.len() > 0,
        ensures
            lists(self.tips@, self.nodes@.len() - 1),
            self.tips@.len() > 0,
    {
        let last = self.nodes@.len() - 1;
        assert forall|j: int| 0 <= j < self.nodes@.len() implies !lists(
            (#[trigger] self.nodes@[j]).parents@,
            last,
        ) by {
            if lists(self.nodes@[j].parents@, last) {
                let k = choose|k: int|
                    0 <= k < self.nodes@[j].parents@.len() && self.nodes@[j].parents@[k] == last;
                assert(self.nodes@[j].parents@[k] < j);
            }
        }
        assert(is_tip(self.nodes@, last));
    }

    /// Whether `height` is the height of a block whose parents have these
    /// hashes: 0 without a parent, else one more than the greatest height
    /// among them.
    pub open spec fn fits_height(&self, tips: Seq<Hash256>, height: u64) -> bool {
        if tips.len() == 0 {
            height == 0
        } else {
            &&& forall|k: int|
                0 <= k < tips.len() ==> self.nodes@[self.position(#[trigger] tips[k])].height
                    < height
            &&& exists|k: int|
                0 <= k < tips.len() && self.nodes@[self.position(#[trigger] tips[k])].height + 1
                    == height
        }
    }

    /// Whether every one of these hashes is of a block in the graph.
    pub open spec fn knows_all(&self, hashes: Seq<Hash256>) -> bool {
        forall|k: int| 0 <= k < hashes.len() ==> self.contains(#[trigger] hashes[k])
    }

    /// Whether `self` is `before` with one block more, of this hash and with
    /// these parents: the blocks of `before` stand as they stood, the new one
    /// stands last, and the tips are those of `before` that are none of its
    /// parents, and the new block.
    pub open spec fn extends(&self, before: &Dag, hash: Hash256, parents: Seq<Hash256>) -> bool {
        let n = before.nodes@.len() as int;
        &&& self.nodes@.len() == n + 1
        &&& self.nodes@.take(n) == before.nodes@
        &&& self.nodes@[n].hash == hash
        &&& self.parent_hashes(n) == parents
        &&& forall|h: Hash256|
            #[trigger] self.tip_hashes().contains(h) <==> (h == hash || (
            before.tip_hashes().contains(h) && !parents.contains(h)))
    }

    /// Takes a block into the graph. A hash that is in the graph already is
    /// refused first, then a parent that is not; a refusal changes nothing.
    /// Else the block comes in at the end: its parents leave the tips, and it
    /// becomes one. The result is its position.
    pub fn add_block(&mut self, hash: Hash256, parents: &Vec<Hash256>) -> (r: Result<
        usize,
        DagError,
    >)
        requires
            old(self).wf(),
            old(self).nodes@.len() < usize::MAX,
        ensures
            final(self).wf(),
            old(self).contains(hash) ==> r == Err::<usize, DagError>(DagError::DuplicateBlock),
            !old(self).contains(hash) && !old(self).knows_all(parents@) ==> r == Err::<
                usize,
                DagError,
            >(DagError::MissingParent),
            !old(self).contains(hash) && old(self).knows_all(parents@) ==> r == Ok::<
                usize,
                DagError,
            >(old(self).nodes@.len() as usize),
            r is Err ==> *final(self) == *old(self),
            r is Ok ==> final(self).extends(old(self), hash, parents@),
    {
        if self.has_block(&hash) {
            return Err(DagError::DuplicateBlock);
        }
        let list: Vec<usize> = match self.resolve(parents) {
            Some(list) => list,
            None => {
                return Err(DagError::MissingParent);
            },
        };
        let height: u64 = self.height_above(&list);
        let tips: Vec<usize> = self.tips_with(&list, &hash);
        let n: usize = self.nodes.len();
        let ghost before = *self;
        let ghost links = list@;
        self.nodes.push(Node { hash, parents: list, height });
        self.tips = tips;
        proof {
            let old_nodes = before.nodes@;
            let new_nodes = self.nodes@;
            assert(forall|i: int| 0 <= i < n ==> new_nodes[i] == old_nodes[i]);
            assert forall|i: int, j: int|
                0 <= i < new_nodes.len() && 0 <= j < new_nodes.len() && i != j implies (
            #[trigger] new_nodes[i]).hash != (#[trigger] new_nodes[j]).hash by {
                if i < n {
                    assert(old_nodes[i].hash == new_nodes[i].hash);
                }
                if j < n {
                    assert(old_nodes[j].hash == new_nodes[j].hash);
                }
            }
            assert forall|k: int, l: int| 0 <= k < l < self.by_hash@.len() implies hash_lt(
                new_nodes[(#[trigger] self.by_hash@[k]) as int].hash,
                new_nodes[(#[trigger] self.by_hash@[l]) as int].hash,
            ) by {
                assert(self.by_hash@[k] < n && self.by_hash@[l] < n);
                assert(hash_lt(
                    old_nodes[self.by_hash@[k] as int].hash,
                    old_nodes[self.by_hash@[l] as int].hash,
                ));
            }
        }
        put_in_index(&self.nodes, &mut self.by_hash);
        proof {
            let old_nodes = before.nodes@;
            let new_nodes = self.nodes@;
            assert forall|i: int| 0 <= i < new_nodes.len() implies #[trigger] lists(
                self.by_hash@,
                i,
            ) by {
                if i < n {
                    assert(lists(before.by_hash@, i));
                }
            }
            assert(new_nodes.take(n as int) == old_nodes);
            assert(forall|i: int| 0 <= i < n ==> new_nodes[i] == old_nodes[i]);
            assert(new_nodes[n as int].parents@ == links);
            assert(self.parent_hashes(n as int) =~= parents@) by {
                assert forall|k: int| 0 <= k < links.len() implies self.parent_hashes(n as int)[k]
                    == parents@[k] by {
                    assert(hashes_at(old_nodes, links)[k] == parents@[k]);
                }
            }
            assert(hashes_distinct(new_nodes)) by {
                assert forall|i: int, j: int|
                    0 <= i < new_nodes.len() && 0 <= j < new_nodes.len() && i != j implies (
                #[trigger] new_nodes[i]).hash != (#[trigger] new_nodes[j]).hash by {
                    if i < n {
                        assert(old_nodes[i].hash == new_nodes[i].hash);
                    }
                    if j < n {
                        assert(old_nodes[j].hash == new_nodes[j].hash);
                    }
                }
            }
            assert forall|i: int| 0 <= i < new_nodes.len() implies #[trigger] height_fits(
                new_nodes,
                i,
            ) by {
                if i < n {
                    assert(height_fits(old_nodes, i));
                    let ps = old_nodes[i].parents@;
                    assert(forall|k: int|
                        0 <= k < ps.len() ==> new_nodes[(#[trigger] ps[k]) as int] == old_nodes[ps[k] as int]);
                    if ps.len() > 0 {
                        let k = choose|k: int|
                            0 <= k < ps.len() && old_nodes[(#[trigger] ps[k]) as int].height + 1
                                == old_nodes[i].height;
                        assert(new_nodes[ps[k] as int].height + 1 == new_nodes[i].height);
                    }
                } else {
                    if links.len() > 0 {
                        let k = choose|k: int|
                            0 <= k < links.len() && old_nodes[(#[trigger] links[k]) as int].height
                                + 1 == height;
                        assert(new_nodes[links[k] as int].height + 1 == new_nodes[i].height);
                    }
                }
            }
            assert forall|i: int| 0 <= i < new_nodes.len() implies (lists(self.tips@, i)
                <==> #[trigger] is_tip(new_nodes, i)) by {
                if i < n {
                    if is_tip(new_nodes, i) {
                        assert forall|j: int| 0 <= j < old_nodes.len() implies !lists(
                            (#[trigger] old_nodes[j]).parents@,
                            i,
                        ) by {
                            assert(new_nodes[j].parents@ == old_nodes[j].parents@);
                        }
                        assert(is_tip(old_nodes, i));
                        assert(!lists(new_nodes[n as int].parents@, i));
                    }
                    if lists(self.tips@, i) {
                        assert(is_tip(old_nodes, i));
                        assert forall|j: int| 0 <= j < new_nodes.len() implies !lists(
                            (#[trigger] new_nodes[j]).parents@,
                            i,
                        ) by {
                            if j < n {
                                assert(new_nodes[j].parents@ == old_nodes[j].parents@);
                            }
                        }
                    }
                } else {
                    assert forall|j: int| 0 <= j < new_nodes.len() implies !lists(
                        (#[trigger] new_nodes[j]).parents@,
                        i,
                    ) by {
                        if lists(new_nodes[j].parents@, i) {
                            let k = choose|k: int|
                                0 <= k < new_nodes[j].parents@.len() && new_nodes[j].parents@[k]
                                    == i;
                            assert(new_nodes[j].parents@[k] < j);
                        }
                    }
                    assert(lists(self.tips@, n as int));
                }
            }
            assert(ascending_by_hash(new_nodes, self.tips@)) by {
                assert forall|k: int, l: int| 0 <= k < l < self.tips@.len() implies hash_lt(
                    new_nodes[(#[trigger] self.tips@[k]) as int].hash,
                    new_nodes[(#[trigger] self.tips@[l]) as int].hash,
                ) by {
                    assert(hash_or(old_nodes, hash, self.tips@[k] as int)
                        == new_nodes[self.tips@[k] as int].hash);
                    assert(hash_or(old_nodes, hash, self.tips@[l] as int)
                        == new_nodes[self.tips@[l] as int].hash);
                }
            }
            assert forall|h: Hash256|
                #[trigger] self.tip_hashes().contains(h) <==> (h == hash || (
                before.tip_hashes().contains(h) && !parents@.contains(h))) by {
                if self.tip_hashes().contains(h) {
                    let k = choose|k: int|
                        0 <= k < self.tip_hashes().len() && self.tip_hashes()[k] == h;
                    let i = self.tips@[k] as int;
                    assert(lists(self.tips@, i));
                    if i != n {
                        assert(lists(before.tips@, i));
                        let m = choose|m: int| 0 <= m < before.tips@.len() && before.tips@[m] == i;
                        assert(before.tip_hashes()[m] == h);
                        if parents@.contains(h) {
                            let q = choose|q: int| 0 <= q < parents@.len() && parents@[q] == h;
                            assert(hashes_at(old_nodes, links)[q] == h);
                            assert(old_nodes[links[q] as int].hash == old_nodes[i].hash);
                            assert(links[q] == i);
                            assert(lists(links, i));
                        }
                    }
                }
                if h == hash {
                    assert(lists(self.tips@, n as int));
                    let k = choose|k: int| 0 <= k < self.tips@.len() && self.tips@[k] == n;
                    assert(self.tip_hashes()[k] == h);
                }
                if before.tip_hashes().contains(h) && !parents@.contains(h) {
                    let m = choose|m: int|
                        0 <= m < before.tip_hashes().len() && before.tip_hashes()[m] == h;
                    let i = before.tips@[m] as int;
                    assert(lists(before.tips@, i));
                    if lists(links, i) {
                        let q = choose|q: int| 0 <= q < links.len() && links[q] == i;
                        assert(hashes_at(old_nodes, links)[q] == parents@[q]);
                        assert(parents@[q] == h);
                    }
                    assert(lists(self.tips@, i));
                    let k = choose|k: int| 0 <= k < self.tips@.len() && self.tips@[k] == i;
                    assert(self.tip_hashes()[k] == h);
                }
            }
        }
        Ok(n)
    }

    /// The hashes of the parents of block `i`, in the order in which the block
    /// names them.
    pub fn parents_of(&self, i: usize) -> (hashes: Vec<Hash256>)
        requires
            self.wf(),
            i < self.nodes@.len(),
        ensures
            hashes@ == self.parent_hashes(i as int),
    {
        let mut hashes: Vec<Hash256> = Vec::new();
        let mut k: usize = 0;
        while k < self.nodes[i].parents.len()
            invariant
                self.wf(),
                i < self.nodes@.len(),
                k <= self.nodes@[i as int].parents@.len(),
                hashes@.len() == k,
                forall|l: int|
                    0 <= l < k ==> hashes@[l] == self.nodes@[self.nodes@[i as int].parents@[l] as int].hash,
            decreases self.nodes@[i as int].parents@.len() - k,
        {
            let p: usize = self.nodes[i].parents[k];
            assert(self.nodes@[i as int].parents@[k as int] < i);
            hashes.push(self.nodes[p].hash);
            k += 1;
        }
        assert(hashes@ =~= self.parent_hashes(i as int));
        hashes
    }

    /// The hashes of the tips, ascending: the order is the same wherever the
    /// same graph is held.
    pub fn get_tips(&self) -> (tips: Vec<Hash256>)
        requires
            self.wf(),
        ensures
            tips@ == self.tip_hashes(),
            forall|k: int, l: int| 0 <= k < l < tips@.len() ==> hash_lt(tips@[k], tips@[l]),
            forall|i: int|
                0 <= i < self.nodes@.len() ==> (tips@.contains((#[trigger] self.nodes@[i]).hash)
                    <==> is_tip(self.nodes@, i)),
    {
        let mut out: Vec<Hash256> = Vec::new();
        let mut k: usize = 0;
        while k < self.tips.len()
            invariant
                self.wf(),
                k <= self.tips@.len(),
                out@ == self.tip_hashes().take(k as int),
            decreases self.tips@.len() - k,
        {
            let t: usize = self.tips[k];
            out.push(self.nodes[t].hash);
            assert(self.tip_hashes().take(k + 1) == self.tip_hashes().take(k as int).push(
                self.tip_hashes()[k as int],
            ));
            k += 1;
        }
        assert(out@ == self.tip_hashes());
        proof {
            assert forall|i: int| 0 <= i < self.nodes@.len() implies (out@.contains(
                (#[trigger] self.nodes@[i]).hash,
            ) <==> is_tip(self.nodes@, i)) by {
                if is_tip(self.nodes@, i) {
                    assert(lists(self.tips@, i));
                    let k = choose|k: int| 0 <= k < self.tips@.len() && self.tips@[k] == i;
                    assert(out@[k] == self.nodes@[i].hash);
                }
                if out@.contains(self.nodes@[i].hash) {
                    let k = choose|k: int| 0 <= k < out@.len() && out@[k] == self.nodes@[i].hash;
                    let t = self.tips@[k];
                    assert(self.nodes@[t as int].hash == self.nodes@[i].hash);
                    assert(t == i);
                    assert(lists(self.tips@, i));
                }
            }
        }
        out
    }
}

} // verus!
