//! The linear order of the blocks: which blocks stand below a tip, which
//! parent of a block continues the canonical path, and in what sequence the
//! blocks below a tip are counted.

use crate::dag::{hashes_distinct, height_fits, lists, parents_precede, well_linked, Dag, Node};
use crate::types::{hash_lt, lemma_hash_order_total, BlockchainError};
use vstd::prelude::*;

verus! {

/// Whether block `a` is block `b` or stands below it: is a parent of `b`, or
/// a parent of a parent, and so on.
pub open spec fn reaches(nodes: Seq<Node>, a: int, b: int) -> bool
    decreases b,
{
    a == b || (0 <= b < nodes.len() && exists|k: int|
        0 <= k < nodes[b].parents@.len() && 0 <= (#[trigger] nodes[b].parents@[k]) < b && reaches(
            nodes,
            a,
            nodes[b].parents@[k] as int,
        ))
}

/// Whether block `a` is an ancestor of block `b`: stands below it and is not
/// the block itself.
pub open spec fn is_ancestor(nodes: Seq<Node>, a: int, b: int) -> bool {
    a != b && reaches(nodes, a, b)
}

/// A block stands below its children.
pub proof fn lemma_parent_reaches(nodes: Seq<Node>, p: int, b: int)
    requires
        parents_precede(nodes),
        0 <= b < nodes.len(),
        lists(nodes[b].parents@, p),
    ensures
        reaches(nodes, p, b),
{
    let k = choose|k: int| 0 <= k < nodes[b].parents@.len() && nodes[b].parents@[k] == p;
    assert(nodes[b].parents@[k] < b);
    assert(reaches(nodes, p, nodes[b].parents@[k] as int));
}

/// What stands below a block that stands below another stands below that one.
pub proof fn lemma_reaches_transitive(nodes: Seq<Node>, a: int, b: int, c: int)
    requires
        reaches(nodes, a, b),
        reaches(nodes, b, c),
    ensures
        reaches(nodes, a, c),
    decreases c,
{
    if b != c {
        let k = choose|k: int|
            0 <= k < nodes[c].parents@.len() && 0 <= (#[trigger] nodes[c].parents@[k]) < c
                && reaches(nodes, b, nodes[c].parents@[k] as int);
        lemma_reaches_transitive(nodes, a, b, nodes[c].parents@[k] as int);
    }
}

/// A block that stands below another came before it, and is lower: so no
/// block is its own ancestor.
pub proof fn lemma_reaches_below(nodes: Seq<Node>, a: int, b: int)
    requires
        forall|i: int| 0 <= i < nodes.len() ==> #[trigger] height_fits(nodes, i),
        reaches(nodes, a, b),
        0 <= b < nodes.len(),
    ensures
        0 <= a <= b,
        a != b ==> nodes[a].height < nodes[b].height,
    decreases b,
{
    if a != b {
        let k = choose|k: int|
            0 <= k < nodes[b].parents@.len() && 0 <= (#[trigger] nodes[b].parents@[k]) < b
                && reaches(nodes, a, nodes[b].parents@[k] as int);
        let p = nodes[b].parents@[k] as int;
        lemma_reaches_below(nodes, a, p);
        assert(height_fits(nodes, b));
        assert(nodes[p].height < nodes[b].height);
    }
}

/// Whether a set of blocks, given by one mark for each block, holds with each
/// of its blocks from `from` on the parents of that block.
pub open spec fn closed_from(nodes: Seq<Node>, marks: Seq<bool>, from: int) -> bool {
    forall|c: int, k: int|
        from <= c < nodes.len() && marks[c] && 0 <= k < nodes[c].parents@.len()
            ==> marks[(#[trigger] nodes[c].parents@[k]) as int]
}

/// A set that holds block `b` and the parents of each of its blocks holds all
/// that stands below `b`.
pub proof fn lemma_closed_holds(nodes: Seq<Node>, marks: Seq<bool>, a: int, b: int)
    requires
        marks.len() == nodes.len(),
        closed_from(nodes, marks, 0),
        0 <= b < nodes.len(),
        marks[b],
        reaches(nodes, a, b),
    ensures
        marks[a],
    decreases b,
{
    if a != b {
        let k = choose|k: int|
            0 <= k < nodes[b].parents@.len() && 0 <= (#[trigger] nodes[b].parents@[k]) < b
                && reaches(nodes, a, nodes[b].parents@[k] as int);
        lemma_closed_holds(nodes, marks, a, nodes[b].parents@[k] as int);
    }
}

/// One mark for each block of the graph: whether it stands at or below block
/// `tip`.
pub fn mark_below(dag: &Dag, tip: usize) -> (marks: Vec<bool>)
    requires
        dag.wf(),
        tip < dag.nodes@.len(),
    ensures
        marks@.len() == dag.nodes@.len(),
        forall|a: int| 0 <= a < marks@.len() ==> (#[trigger] marks@[a] <==> reaches(
            dag.nodes@,
            a,
            tip as int,
        )),
{
    let n: usize = dag.nodes.len();
    let mut marks: Vec<bool> = Vec::new();
    let mut i: usize = 0;
    while i < n
        invariant
            n == dag.nodes@.len(),
            i <= n,
            marks@.len() == i,
            forall|a: int| 0 <= a < i ==> (#[trigger] marks@[a] <==> a == tip),
        decreases n - i,
    {
        marks.push(i == tip);
        i += 1;
    }
    let mut c: usize = tip + 1;
    while c > 0
        invariant
            dag.wf(),
            n == dag.nodes@.len(),
            tip < n,
            c <= tip + 1,
            marks@.len() == n,
            marks@[tip as int],
            forall|a: int| 0 <= a < n && #[trigger] marks@[a] ==> reaches(dag.nodes@, a, tip as int),
            closed_from(dag.nodes@, marks@, c as int),
        decreases c,
    {
        c -= 1;
        if marks[c] {
            let mut k: usize = 0;
            while k < dag.nodes[c].parents.len()
                invariant
                    dag.wf(),
                    n == dag.nodes@.len(),
                    tip < n,
                    c <= tip,
                    marks@.len() == n,
                    marks@[tip as int],
                    marks@[c as int],
                    k <= dag.nodes@[c as int].parents@.len(),
                    forall|a: int|
                        0 <= a < n && #[trigger] marks@[a] ==> reaches(dag.nodes@, a, tip as int),
                    closed_from(dag.nodes@, marks@, c + 1),
                    forall|l: int|
                        0 <= l < k ==> marks@[(#[trigger] dag.nodes@[c as int].parents@[l]) as int],
                decreases dag.nodes@[c as int].parents@.len() - k,
            {
                let p: usize = dag.nodes[c].parents[k];
                assert(dag.nodes@[c as int].parents@[k as int] < c);
                proof {
                    assert(lists(dag.nodes@[c as int].parents@, p as int));
                    lemma_parent_reaches(dag.nodes@, p as int, c as int);
                    lemma_reaches_transitive(dag.nodes@, p as int, c as int, tip as int);
                }
                marks.set(p, true);
                k += 1;
            }
        }
    }
    proof {
        assert forall|a: int| 0 <= a < marks@.len() implies (#[trigger] marks@[a] <==> reaches(
            dag.nodes@,
            a,
            tip as int,
        )) by {
            if reaches(dag.nodes@, a, tip as int) {
                lemma_closed_holds(dag.nodes@, marks@, a, tip as int);
            }
        }
    }
    marks
}

/// Whether block `a` goes before block `b` as the continuation of a path:
/// it is the heavier by cumulative difficulty, or as heavy and of the lesser
/// hash.
pub open spec fn outranks(nodes: Seq<Node>, weights: Seq<u128>, a: int, b: int) -> bool {
    weights[a] > weights[b] || (weights[a] == weights[b] && hash_lt(nodes[a].hash, nodes[b].hash))
}

/// The block of `list` that outranks the others; -1 where the list is empty.
pub open spec fn pick_best(nodes: Seq<Node>, weights: Seq<u128>, list: Seq<usize>) -> int
    decreases list.len(),
{
    if list.len() == 0 {
        -1
    } else if list.len() == 1 {
        list[0] as int
    } else {
        let rest = pick_best(nodes, weights, list.drop_last());
        if outranks(nodes, weights, list.last() as int, rest) {
            list.last() as int
        } else {
            rest
        }
    }
}

/// The block that `pick_best` gives is one of the list, and none of the list
/// outranks it.
pub proof fn lemma_pick_best(nodes: Seq<Node>, weights: Seq<u128>, list: Seq<usize>)
    requires
        list.len() > 0,
    ensures
        lists(list, pick_best(nodes, weights, list)),
        forall|k: int|
            0 <= k < list.len() ==> !outranks(
                nodes,
                weights,
                (#[trigger] list[k]) as int,
                pick_best(nodes, weights, list),
            ),
    decreases list.len(),
{
    let best = pick_best(nodes, weights, list);
    if list.len() == 1 {
        assert(list[0] == best);
        lemma_hash_order_total(nodes[best].hash, nodes[best].hash, nodes[best].hash);
    } else {
        let front = list.drop_last();
        let rest = pick_best(nodes, weights, front);
        lemma_pick_best(nodes, weights, front);
        let at = choose|k: int| 0 <= k < front.len() && front[k] == rest;
        assert(list[at] == rest);
        assert(list[list.len() - 1] == list.last());
        assert forall|k: int| 0 <= k < list.len() implies !outranks(
            nodes,
            weights,
            (#[trigger] list[k]) as int,
            best,
        ) by {
            let x = list[k] as int;
            lemma_hash_order_total(nodes[x].hash, nodes[rest].hash, nodes[best].hash);
            lemma_hash_order_total(nodes[x].hash, nodes[best].hash, nodes[rest].hash);
            if k < front.len() {
                assert(front[k] == list[k]);
            }
        }
    }
}

/// Computes `pick_best`.
pub fn best_of(dag: &Dag, weights: &Vec<u128>, list: &Vec<usize>) -> (best: usize)
    requires
        weights@.len() == dag.nodes@.len(),
        list@.len() > 0,
        forall|k: int| 0 <= k < list@.len() ==> (#[trigger] list@[k]) < dag.nodes@.len(),
    ensures
        best == pick_best(dag.nodes@, weights@, list@),
        best < dag.nodes@.len(),
{
    let mut best: usize = list[0];
    let mut k: usize = 1;
    assert(list@.take(1).drop_last().len() == 0);
    while k < list.len()
        invariant
            weights@.len() == dag.nodes@.len(),
            1 <= k <= list@.len(),
            forall|l: int| 0 <= l < list@.len() ==> (#[trigger] list@[l]) < dag.nodes@.len(),
            best == pick_best(dag.nodes@, weights@, list@.take(k as int)),
            best < dag.nodes@.len(),
        decreases list@.len() - k,
    {
        let x: usize = list[k];
        assert(list@.take(k + 1).drop_last() == list@.take(k as int));
        if weights[x] > weights[best] || (weights[x] == weights[best] && dag.nodes[x].hash.lt(
            &dag.nodes[best].hash,
        )) {
            best = x;
        }
        k += 1;
    }
    assert(list@.take(k as int) == list@);
    best
}

/// Whether block `a` is counted before block `b` among the blocks that join
/// the order together: it is the lower, or as high and of the lesser hash.
pub open spec fn key_lt(nodes: Seq<Node>, a: int, b: int) -> bool {
    nodes[a].height < nodes[b].height || (nodes[a].height == nodes[b].height && hash_lt(
        nodes[a].hash,
        nodes[b].hash,
    ))
}

/// The list `s` with block `x` put in after the last block that is counted
/// before it.
pub open spec fn insert_sorted(nodes: Seq<Node>, s: Seq<usize>, x: usize) -> Seq<usize>
    decreases s.len(),
{
    if s.len() == 0 {
        seq![x]
    } else if key_lt(nodes, s.last() as int, x as int) {
        s.push(x)
    } else {
        insert_sorted(nodes, s.drop_last(), x).push(s.last())
    }
}

/// Computes `insert_sorted` in place.
pub fn insert_by_key(dag: &Dag, list: &mut Vec<usize>, x: usize)
    requires
        x < dag.nodes@.len(),
        forall|k: int| 0 <= k < old(list)@.len() ==> (#[trigger] old(list)@[k]) < dag.nodes@.len(),
    ensures
        final(list)@ == insert_sorted(dag.nodes@, old(list)@, x),
{
    let ghost s = list@;
    let mut pos: usize = list.len();
    assert(s.take(pos as int) == s);
    assert(s.skip(pos as int) =~= Seq::<usize>::empty());
    assert(insert_sorted(dag.nodes@, s, x) =~= insert_sorted(dag.nodes@, s.take(pos as int), x)
        + s.skip(pos as int));
    loop
        invariant
            list@ == s,
            pos <= s.len(),
            x < dag.nodes@.len(),
            forall|k: int| 0 <= k < s.len() ==> (#[trigger] s[k]) < dag.nodes@.len(),
            insert_sorted(dag.nodes@, s, x) == insert_sorted(dag.nodes@, s.take(pos as int), x)
                + s.skip(pos as int),
        ensures
            pos == 0 || key_lt(dag.nodes@, s[pos - 1] as int, x as int),
        decreases pos,
    {
        if pos == 0 {
            break;
        }
        let y: usize = list[pos - 1];
        let before: bool = dag.nodes[y].height < dag.nodes[x].height || (dag.nodes[y].height
            == dag.nodes[x].height && dag.nodes[y].hash.lt(&dag.nodes[x].hash));
        if before {
            break;
        }
        proof {
            let head = s.take(pos as int);
            assert(head.last() == y);
            assert(head.drop_last() == s.take(pos - 1));
            assert(insert_sorted(dag.nodes@, s.take(pos - 1), x).push(y) + s.skip(pos as int)
                =~= insert_sorted(dag.nodes@, s.take(pos - 1), x) + s.skip(pos - 1));
        }
        pos -= 1;
    }
    proof {
        let head = s.take(pos as int);
        if pos > 0 {
            assert(head.last() == s[pos - 1]);
        }
        assert(insert_sorted(dag.nodes@, head, x) == head.push(x));
        assert(s.insert(pos as int, x) =~= head.push(x) + s.skip(pos as int));
    }
    list.insert(pos, x);
}

/// The blocks below position `upto` that stand below block `t` and not at or
/// below block `m`, ascending by height and then by hash: those that join the
/// order with `t` where the path comes to `t` from `m`.
pub open spec fn merged(nodes: Seq<Node>, m: int, t: int, upto: int) -> Seq<usize>
    decreases upto,
{
    if upto <= 0 {
        Seq::empty()
    } else {
        let rest = merged(nodes, m, t, upto - 1);
        let a = upto - 1;
        if a != t && reaches(nodes, a, t) && !reaches(nodes, a, m) {
            insert_sorted(nodes, rest, a as usize)
        } else {
            rest
        }
    }
}

/// The order of the blocks at and below block `t`. A block without parents
/// stands alone. Else the order is that of the parent that outranks the
/// others, then the blocks that only `t` brings in, ascending by height and
/// then by hash, then `t`.
pub open spec fn order_of(nodes: Seq<Node>, weights: Seq<u128>, t: int) -> Seq<usize>
    decreases t,
{
    if t < 0 || t >= nodes.len() {
        Seq::empty()
    } else if nodes[t].parents@.len() == 0 {
        seq![t as usize]
    } else {
        let m = pick_best(nodes, weights, nodes[t].parents@);
        if 0 <= m < t {
            order_of(nodes, weights, m) + merged(nodes, m, t, t) + seq![t as usize]
        } else {
            seq![t as usize]
        }
    }
}

/// Computes `order_of`: first the canonical path from `tip` down to a block
/// without parents, then the order along it from there up.
pub fn linearize(dag: &Dag, weights: &Vec<u128>, tip: usize) -> (order: Vec<usize>)
    requires
        dag.wf(),
        weights@.len() == dag.nodes@.len(),
        tip < dag.nodes@.len(),
    ensures
        order@ == order_of(dag.nodes@, weights@, tip as int),
{
    let mut spine: Vec<usize> = Vec::new();
    let mut cur: usize = tip;
    spine.push(cur);
    while dag.nodes[cur].parents.len() > 0
        invariant
            dag.wf(),
            weights@.len() == dag.nodes@.len(),
            spine@.len() > 0,
            spine@[0] == tip,
            cur == spine@.last(),
            forall|j: int| 0 <= j < spine@.len() ==> (#[trigger] spine@[j]) < dag.nodes@.len(),
            forall|j: int|
                0 <= j < spine@.len() - 1 ==> {
                    &&& dag.nodes@[(#[trigger] spine@[j]) as int].parents@.len() > 0
                    &&& spine@[j + 1] == pick_best(
                        dag.nodes@,
                        weights@,
                        dag.nodes@[spine@[j] as int].parents@,
                    )
                    &&& spine@[j + 1] < spine@[j]
                },
        decreases cur,
    {
        let next: usize = best_of(dag, weights, &dag.nodes[cur].parents);
        proof {
            lemma_pick_best(dag.nodes@, weights@, dag.nodes@[cur as int].parents@);
            let k = choose|k: int|
                0 <= k < dag.nodes@[cur as int].parents@.len() && dag.nodes@[cur as int].parents@[k]
                    == next;
            assert(dag.nodes@[cur as int].parents@[k] < cur);
        }
        spine.push(next);
        cur = next;
    }
    let mut out: Vec<usize> = Vec::new();
    out.push(cur);
    let mut j: usize = spine.len() - 1;
    assert(out@ =~= order_of(dag.nodes@, weights@, spine@[j as int] as int));
    while j > 0
        invariant
            dag.wf(),
            weights@.len() == dag.nodes@.len(),
            spine@.len() > 0,
            spine@[0] == tip,
            j < spine@.len(),
            forall|j: int| 0 <= j < spine@.len() ==> (#[trigger] spine@[j]) < dag.nodes@.len(),
            forall|j: int|
                0 <= j < spine@.len() - 1 ==> {
                    &&& dag.nodes@[(#[trigger] spine@[j]) as int].parents@.len() > 0
                    &&& spine@[j + 1] == pick_best(
                        dag.nodes@,
                        weights@,
                        dag.nodes@[spine@[j] as int].parents@,
                    )
                    &&& spine@[j + 1] < spine@[j]
                },
            out@ == order_of(dag.nodes@, weights@, spine@[j as int] as int),
        decreases j,
    {
        let m: usize = spine[j];
        let t: usize = spine[j - 1];
        let below_m: Vec<bool> = mark_below(dag, m);
        let below_t: Vec<bool> = mark_below(dag, t);
        let mut group: Vec<usize> = Vec::new();
        let mut a: usize = 0;
        while a < t
            invariant
                dag.wf(),
                a <= t,
                t < dag.nodes@.len(),
                m < dag.nodes@.len(),
                below_m@.len() == dag.nodes@.len(),
                below_t@.len() == dag.nodes@.len(),
                forall|x: int|
                    0 <= x < below_m@.len() ==> (#[trigger] below_m@[x] <==> reaches(
                        dag.nodes@,
                        x,
                        m as int,
                    )),
                forall|x: int|
                    0 <= x < below_t@.len() ==> (#[trigger] below_t@[x] <==> reaches(
                        dag.nodes@,
                        x,
                        t as int,
                    )),
                forall|k: int| 0 <= k < group@.len() ==> (#[trigger] group@[k]) < dag.nodes@.len(),
                group@ == merged(dag.nodes@, m as int, t as int, a as int),
            decreases t - a,
        {
            if below_t[a] && !below_m[a] {
                insert_by_key(dag, &mut group, a);
                proof {
                    lemma_insert_sorted_holds(dag.nodes@, merged(dag.nodes@, m as int, t as int, a as int), a);
                    assert forall|k: int| 0 <= k < group@.len() implies (#[trigger] group@[k])
                        < dag.nodes@.len() by {
                        assert(lists(group@, group@[k] as int));
                    }
                }
            }
            a += 1;
        }
        let ghost prefix = out@;
        let mut k: usize = 0;
        while k < group.len()
            invariant
                k <= group@.len(),
                out@ == prefix + group@.take(k as int),
            decreases group@.len() - k,
        {
            out.push(group[k]);
            assert(group@.take(k + 1) == group@.take(k as int).push(group@[k as int]));
            k += 1;
        }
        assert(group@.take(k as int) == group@);
        out.push(t);
        assert(out@ =~= prefix + group@ + seq![t]);
        j -= 1;
    }
    out
}

/// A list with a block put in holds that block and what it held.
pub proof fn lemma_insert_sorted_holds(nodes: Seq<Node>, s: Seq<usize>, x: usize)
    ensures
        insert_sorted(nodes, s, x).len() == s.len() + 1,
        forall|a: int| #[trigger] lists(insert_sorted(nodes, s, x), a) <==> (lists(s, a) || a == x),
    decreases s.len(),
{
    let r = insert_sorted(nodes, s, x);
    if s.len() == 0 {
        assert(r[0] == x);
        assert forall|a: int| #[trigger] lists(r, a) <==> (lists(s, a) || a == x) by {
            if a == x {
                assert(r[0] == a);
            }
        }
    } else if key_lt(nodes, s.last() as int, x as int) {
        assert forall|a: int| #[trigger] lists(r, a) <==> (lists(s, a) || a == x) by {
            if lists(r, a) {
                let k = choose|k: int| 0 <= k < r.len() && r[k] == a;
                if k < s.len() {
                    assert(s[k] == a);
                }
            }
            if lists(s, a) {
                let k = choose|k: int| 0 <= k < s.len() && s[k] == a;
                assert(r[k] == a);
            }
            if a == x {
                assert(r[s.len() as int] == a);
            }
        }
    } else {
        let front = s.drop_last();
        let inner = insert_sorted(nodes, front, x);
        lemma_insert_sorted_holds(nodes, front, x);
        assert forall|a: int| #[trigger] lists(r, a) <==> (lists(s, a) || a == x) by {
            if lists(r, a) {
                let k = choose|k: int| 0 <= k < r.len() && r[k] == a;
                if k < inner.len() {
                    assert(inner[k] == a);
                    assert(lists(inner, a));
                    if lists(front, a) {
                        let l = choose|l: int| 0 <= l < front.len() && front[l] == a;
                        assert(s[l] == a);
                    }
                } else {
                    assert(s[s.len() - 1] == a);
                }
            }
            if lists(s, a) {
                let k = choose|k: int| 0 <= k < s.len() && s[k] == a;
                if k < front.len() {
                    assert(front[k] == a);
                    assert(lists(front, a));
                    assert(lists(inner, a));
                    let l = choose|l: int| 0 <= l < inner.len() && inner[l] == a;
                    assert(r[l] == a);
                } else {
                    assert(r[r.len() - 1] == a);
                }
            }
            if a == x {
                assert(lists(inner, a));
                let l = choose|l: int| 0 <= l < inner.len() && inner[l] == a;
                assert(r[l] == a);
            }
        }
    }
}

/// Whether the blocks of `s` ascend strictly by height and then by hash.
pub open spec fn ascending_by_key(nodes: Seq<Node>, s: Seq<usize>) -> bool {
    forall|k: int, l: int|
        0 <= k < l < s.len() ==> key_lt(nodes, (#[trigger] s[k]) as int, (#[trigger] s[l]) as int)
}

/// The order by height and then by hash is strict and, among blocks of one
/// graph, total.
pub proof fn lemma_key_order(nodes: Seq<Node>, a: int, b: int, c: int)
    requires
        hashes_distinct(nodes),
        0 <= a < nodes.len(),
        0 <= b < nodes.len(),
        0 <= c < nodes.len(),
    ensures
        !key_lt(nodes, a, a),
        a != b ==> key_lt(nodes, a, b) || key_lt(nodes, b, a),
        key_lt(nodes, a, b) && key_lt(nodes, b, c) ==> key_lt(nodes, a, c),
        key_lt(nodes, a, b) ==> !key_lt(nodes, b, a),
{
    lemma_hash_order_total(nodes[a].hash, nodes[b].hash, nodes[c].hash);
    lemma_hash_order_total(nodes[b].hash, nodes[a].hash, nodes[c].hash);
    if a != b {
        assert(nodes[a].hash != nodes[b].hash);
    }
}

/// An ascending list with a block put in that it did not hold ascends.
pub proof fn lemma_insert_sorted_ascends(nodes: Seq<Node>, s: Seq<usize>, x: usize)
    requires
        hashes_distinct(nodes),
        x < nodes.len(),
        forall|k: int| 0 <= k < s.len() ==> (#[trigger] s[k]) < nodes.len(),
        ascending_by_key(nodes, s),
        !lists(s, x as int),
    ensures
        ascending_by_key(nodes, insert_sorted(nodes, s, x)),
    decreases s.len(),
{
    let r = insert_sorted(nodes, s, x);
    lemma_insert_sorted_holds(nodes, s, x);
    if s.len() == 0 {
    } else if key_lt(nodes, s.last() as int, x as int) {
        assert forall|k: int, l: int| 0 <= k < l < r.len() implies key_lt(
            nodes,
            (#[trigger] r[k]) as int,
            (#[trigger] r[l]) as int,
        ) by {
            if l == s.len() {
                if k < s.len() - 1 {
                    assert(key_lt(nodes, s[k] as int, s[s.len() - 1] as int));
                    lemma_key_order(nodes, s[k] as int, s.last() as int, x as int);
                }
            } else {
                assert(key_lt(nodes, s[k] as int, s[l] as int));
            }
        }
    } else {
        let front = s.drop_last();
        let last = s.last();
        let inner = insert_sorted(nodes, front, x);
        assert(forall|k: int| 0 <= k < front.len() ==> front[k] == s[k]);
        assert(!lists(front, x as int)) by {
            if lists(front, x as int) {
                let k = choose|k: int| 0 <= k < front.len() && front[k] == x;
                assert(s[k] == x);
            }
        }
        lemma_insert_sorted_ascends(nodes, front, x);
        lemma_insert_sorted_holds(nodes, front, x);
        assert(s[s.len() - 1] == last);
        assert(last != x);
        lemma_key_order(nodes, last as int, x as int, x as int);
        assert forall|k: int, l: int| 0 <= k < l < r.len() implies key_lt(
            nodes,
            (#[trigger] r[k]) as int,
            (#[trigger] r[l]) as int,
        ) by {
            if l == inner.len() {
                assert(inner[k] == r[k]);
                assert(lists(inner, r[k] as int));
                if lists(front, r[k] as int) {
                    let q = choose|q: int| 0 <= q < front.len() && front[q] == r[k];
                    assert(key_lt(nodes, s[q] as int, s[s.len() - 1] as int));
                }
            } else {
                assert(key_lt(nodes, inner[k] as int, inner[l] as int));
            }
        }
    }
}

/// What `merged` holds: each block below `upto` that stands below `t` and not
/// at or below `m`, once, and nothing else; and it ascends.
pub proof fn lemma_merged(nodes: Seq<Node>, m: int, t: int, upto: int)
    requires
        hashes_distinct(nodes),
        nodes.len() <= usize::MAX,
        0 <= upto <= nodes.len(),
    ensures
        forall|a: int| #[trigger]
            lists(merged(nodes, m, t, upto), a) <==> (0 <= a < upto && a != t && reaches(
                nodes,
                a,
                t,
            ) && !reaches(nodes, a, m)),
        forall|k: int|
            0 <= k < merged(nodes, m, t, upto).len() ==> (#[trigger] merged(nodes, m, t, upto)[k])
                < upto,
        ascending_by_key(nodes, merged(nodes, m, t, upto)),
    decreases upto,
{
    let r = merged(nodes, m, t, upto);
    if upto > 0 {
        let rest = merged(nodes, m, t, upto - 1);
        let a = upto - 1;
        lemma_merged(nodes, m, t, upto - 1);
        if a != t && reaches(nodes, a, t) && !reaches(nodes, a, m) {
            lemma_insert_sorted_holds(nodes, rest, a as usize);
            assert(!lists(rest, a));
            lemma_insert_sorted_ascends(nodes, rest, a as usize);
            assert forall|k: int| 0 <= k < r.len() implies (#[trigger] r[k]) < upto by {
                assert(lists(r, r[k] as int));
                if lists(rest, r[k] as int) {
                    let q = choose|q: int| 0 <= q < rest.len() && rest[q] == r[k];
                }
            }
        }
    }
}

/// What the order at a block holds, and how: exactly the blocks at and below
/// that block, and no block at a later place stands at or below a block at an
/// earlier place. So no block is counted twice, and every ancestor of a
/// block is counted before it.
pub proof fn lemma_order_of(nodes: Seq<Node>, weights: Seq<u128>, t: int)
    requires
        well_linked(nodes),
        0 <= t < nodes.len(),
    ensures
        forall|a: int| #[trigger] lists(order_of(nodes, weights, t), a) <==> reaches(nodes, a, t),
        forall|x: int, y: int|
            0 <= x < y < order_of(nodes, weights, t).len() ==> !reaches(
                nodes,
                (#[trigger] order_of(nodes, weights, t)[y]) as int,
                (#[trigger] order_of(nodes, weights, t)[x]) as int,
            ),
        forall|x: int|
            0 <= x < order_of(nodes, weights, t).len() ==> (#[trigger] order_of(
                nodes,
                weights,
                t,
            )[x]) <= t,
        order_of(nodes, weights, t).len() > 0,
        order_of(nodes, weights, t).last() == t,
    decreases t,
{
    let o = order_of(nodes, weights, t);
    let ps = nodes[t].parents@;
    if ps.len() == 0 {
        assert(o[0] == t);
        assert forall|a: int| #[trigger] lists(o, a) <==> reaches(nodes, a, t) by {
            if a == t {
                assert(o[0] == a);
            }
        }
    } else {
        let m = pick_best(nodes, weights, ps);
        lemma_pick_best(nodes, weights, ps);
        let at = choose|k: int| 0 <= k < ps.len() && ps[k] == m;
        assert(ps[at] < t);
        lemma_parent_reaches(nodes, m, t);
        let head = order_of(nodes, weights, m);
        let group = merged(nodes, m, t, t);
        lemma_order_of(nodes, weights, m);
        lemma_merged(nodes, m, t, t);
        assert(o == head + group + seq![t as usize]);
        let h = head.len() as int;
        let g = group.len() as int;
        assert(o.len() == h + g + 1);
        assert(forall|x: int| 0 <= x < h ==> o[x] == head[x]);
        assert(forall|x: int| h <= x < h + g ==> o[x] == group[x - h]);
        assert(o[h + g] == t);
        assert forall|a: int| #[trigger] lists(o, a) <==> reaches(nodes, a, t) by {
            if lists(o, a) {
                let x = choose|x: int| 0 <= x < o.len() && o[x] == a;
                if x < h {
                    assert(lists(head, a));
                    lemma_reaches_transitive(nodes, a, m, t);
                } else if x < h + g {
                    assert(group[x - h] == a);
                    assert(lists(group, a));
                }
            }
            if reaches(nodes, a, t) {
                lemma_reaches_below(nodes, a, t);
                if a == t {
                    assert(o[h + g] == a);
                } else if reaches(nodes, a, m) {
                    assert(lists(head, a));
                    let x = choose|x: int| 0 <= x < head.len() && head[x] == a;
                    assert(o[x] == a);
                } else {
                    assert(lists(group, a));
                    let x = choose|x: int| 0 <= x < group.len() && group[x] == a;
                    assert(o[h + x] == a);
                }
            }
        }
        assert forall|x: int| 0 <= x < o.len() implies (#[trigger] o[x]) <= t by {
            if x < h {
                assert(head[x] <= m);
            } else if x < h + g {
                assert(group[x - h] < t);
            }
        }
        assert forall|x: int, y: int| 0 <= x < y < o.len() implies !reaches(
            nodes,
            (#[trigger] o[y]) as int,
            (#[trigger] o[x]) as int,
        ) by {
            let a = o[x] as int;
            let b = o[y] as int;
            if reaches(nodes, b, a) {
                if y < h {
                    assert(!reaches(nodes, head[y] as int, head[x] as int));
                } else if y < h + g {
                    assert(lists(group, b)) by {
                        assert(group[y - h] == b);
                    }
                    if x < h {
                        assert(lists(head, a)) by {
                            assert(head[x] == a);
                        }
                        lemma_reaches_transitive(nodes, b, a, m);
                    } else {
                        assert(key_lt(nodes, group[x - h] as int, group[y - h] as int));
                        assert(group[x - h] < t);
                        lemma_key_order(nodes, a, b, b);
                        lemma_reaches_below(nodes, b, a);
                    }
                } else {
                    if x < h {
                        assert(head[x] <= m);
                    } else {
                        assert(group[x - h] < t);
                    }
                    lemma_reaches_below(nodes, b, a);
                }
            }
        }
    }
}

/// An ancestor of a counted block is counted, and at an earlier place.
pub proof fn lemma_ancestor_first(
    nodes: Seq<Node>,
    weights: Seq<u128>,
    tip: int,
    a: int,
    b: int,
    y: int,
)
    requires
        well_linked(nodes),
        0 <= tip < nodes.len(),
        is_ancestor(nodes, a, b),
        0 <= y < order_of(nodes, weights, tip).len(),
        order_of(nodes, weights, tip)[y] == b,
    ensures
        exists|x: int| 0 <= x < y && #[trigger] order_of(nodes, weights, tip)[x] == a,
{
    let o = order_of(nodes, weights, tip);
    lemma_order_of(nodes, weights, tip);
    assert(lists(o, b));
    lemma_reaches_transitive(nodes, a, b, tip);
    assert(lists(o, a));
    let x = choose|x: int| 0 <= x < o.len() && o[x] == a;
    if x > y {
        assert(!reaches(nodes, o[x] as int, o[y] as int));
    }
    assert(x != y);
    assert(o[x] == a);
}

/// No block is counted twice.
pub proof fn lemma_order_distinct(nodes: Seq<Node>, weights: Seq<u128>, tip: int, x: int, y: int)
    requires
        well_linked(nodes),
        0 <= tip < nodes.len(),
        0 <= x < order_of(nodes, weights, tip).len(),
        0 <= y < order_of(nodes, weights, tip).len(),
        order_of(nodes, weights, tip)[x] == order_of(nodes, weights, tip)[y],
    ensures
        x == y,
{
    let o = order_of(nodes, weights, tip);
    lemma_order_of(nodes, weights, tip);
    if x < y {
        assert(!reaches(nodes, o[y] as int, o[x] as int));
    }
    if y < x {
        assert(!reaches(nodes, o[x] as int, o[y] as int));
    }
}

/// Whether block `s` lies on the canonical path that ends in block `t`: it is
/// `t`, or lies on the path that ends in the parent of `t` that outranks the
/// others.
pub open spec fn on_path(nodes: Seq<Node>, weights: Seq<u128>, s: int, t: int) -> bool
    decreases t,
{
    s == t || (0 <= t < nodes.len() && nodes[t].parents@.len() > 0 && {
        let m = pick_best(nodes, weights, nodes[t].parents@);
        0 <= m < t && on_path(nodes, weights, s, m)
    })
}

/// A block of the canonical path that ends in `t` came no later than `t`.
pub proof fn lemma_on_path_below(nodes: Seq<Node>, weights: Seq<u128>, s: int, t: int)
    requires
        on_path(nodes, weights, s, t),
    ensures
        s <= t,
    decreases t,
{
    if s != t {
        lemma_on_path_below(nodes, weights, s, pick_best(nodes, weights, nodes[t].parents@));
    }
}

/// The order at a block of the canonical path is the beginning of the order
/// at the end of that path: what is counted up to a block of the path is
/// counted alike wherever the path goes on to.
pub proof fn lemma_path_prefix(nodes: Seq<Node>, weights: Seq<u128>, s: int, t: int)
    requires
        0 <= s < nodes.len(),
        0 <= t < nodes.len(),
        on_path(nodes, weights, s, t),
    ensures
        order_of(nodes, weights, s).len() <= order_of(nodes, weights, t).len(),
        order_of(nodes, weights, t).take(order_of(nodes, weights, s).len() as int) == order_of(
            nodes,
            weights,
            s,
        ),
    decreases t,
{
    let whole = order_of(nodes, weights, t);
    if s == t {
        assert(whole.take(whole.len() as int) == whole);
    } else {
        let m = pick_best(nodes, weights, nodes[t].parents@);
        lemma_path_prefix(nodes, weights, s, m);
        let head = order_of(nodes, weights, m);
        let part = order_of(nodes, weights, s);
        assert(whole.take(head.len() as int) == head);
        assert(whole.take(part.len() as int) == head.take(part.len() as int));
    }
}

/// Two canonical paths that share a block count alike up to that block.
pub proof fn lemma_common_ancestor_keeps(
    nodes: Seq<Node>,
    weights: Seq<u128>,
    common: int,
    first: int,
    second: int,
)
    requires
        0 <= common < nodes.len(),
        0 <= first < nodes.len(),
        0 <= second < nodes.len(),
        on_path(nodes, weights, common, first),
        on_path(nodes, weights, common, second),
    ensures
        order_of(nodes, weights, first).take(order_of(nodes, weights, common).len() as int)
            == order_of(nodes, weights, second).take(
            order_of(nodes, weights, common).len() as int,
        ),
{
    lemma_path_prefix(nodes, weights, common, first);
    lemma_path_prefix(nodes, weights, common, second);
}

/// The number of places from the start in which two orders agree.
pub open spec fn agree_len(a: Seq<usize>, b: Seq<usize>) -> int
    decreases a.len(),
{
    if a.len() == 0 || b.len() == 0 || a[0] != b[0] {
        0
    } else {
        1 + agree_len(a.skip(1), b.skip(1))
    }
}

/// Two orders agree in their first `k` places and no further exactly where
/// `k` is `agree_len`.
pub proof fn lemma_agree_len(a: Seq<usize>, b: Seq<usize>, k: int)
    requires
        0 <= k <= a.len(),
        k <= b.len(),
        forall|x: int| 0 <= x < k ==> a[x] == b[x],
        k == a.len() || k == b.len() || a[k] != b[k],
    ensures
        agree_len(a, b) == k,
    decreases k,
{
    if k > 0 {
        assert(a[0] == b[0]);
        let c = a.skip(1);
        let d = b.skip(1);
        assert(forall|x: int| 0 <= x < k - 1 ==> c[x] == a[x + 1] && d[x] == b[x + 1]);
        if k - 1 < c.len() && k - 1 < d.len() {
            assert(c[k - 1] == a[k] && d[k - 1] == b[k]);
        }
        lemma_agree_len(c, d, k - 1);
    }
}

/// The place of block `i` in the order, or -1 where it has none.
pub open spec fn place_of(place: Seq<Option<usize>>, i: int) -> int {
    match place[i] {
        Some(t) => t as int,
        None => -1,
    }
}

/// The order as it is kept: the blocks that are counted, by topoheight, and
/// for each block of the graph its topoheight, if it has one.
#[derive(Debug)]
pub struct Orderer {
    pub order: Vec<usize>,
    pub place: Vec<Option<usize>>,
}

impl Orderer {
    /// The order is well formed over the blocks of a graph: every block of
    /// the graph has a slot; the topoheights are exactly the places in the
    /// order, one for each counted block; and the parents of a counted block
    /// are counted, at lower topoheights.
    pub open spec fn wf(&self, nodes: Seq<Node>) -> bool {
        &&& self.place@.len() == nodes.len()
        &&& forall|t: int|
            0 <= t < self.order@.len() ==> (#[trigger] self.order@[t]) < nodes.len() && place_of(
                self.place@,
                self.order@[t] as int,
            ) == t
        &&& forall|i: int|
            0 <= i < nodes.len() && (#[trigger] place_of(self.place@, i)) >= 0 ==> place_of(
                self.place@,
                i,
            ) < self.order@.len() && self.order@[place_of(self.place@, i)] == i
        &&& forall|t: int, k: int|
            0 <= t < self.order@.len() && 0 <= k < nodes[self.order@[t] as int].parents@.len()
                ==> 0 <= place_of(
                self.place@,
                (#[trigger] nodes[(#[trigger] self.order@[t]) as int].parents@[k]) as int,
            ) < t
    }

    /// Whether block `i` has no topoheight and each of its parents has one.
    pub open spec fn admits(&self, nodes: Seq<Node>, i: int) -> bool {
        &&& place_of(self.place@, i) < 0
        &&& forall|k: int|
            0 <= k < nodes[i].parents@.len() ==> place_of(
                self.place@,
                (#[trigger] nodes[i].parents@[k]) as int,
            ) >= 0
    }

    /// The order that counts no block of a graph without blocks.
    pub fn new() -> (orderer: Orderer)
        ensures
            orderer.order@.len() == 0,
            orderer.place@.len() == 0,
    {
        Orderer { order: Vec::new(), place: Vec::new() }
    }

    /// Makes the slot of a block that has come into the graph.
    pub fn track(&mut self)
        ensures
            final(self).order@ == old(self).order@,
            final(self).place@ == old(self).place@.push(None),
    {
        self.place.push(None);
    }

    /// The topoheight of block `i`, if it has one.
    pub fn topoheight_of(&self, i: usize) -> (r: Option<u64>)
        requires
            i < self.place@.len(),
        ensures
            match r {
                Some(t) => place_of(self.place@, i as int) == t,
                None => place_of(self.place@, i as int) < 0,
            },
    {
        match self.place[i] {
            Some(t) => Some(t as u64),
            None => None,
        }
    }

    /// Gives block `block` the next topoheight. A block that has one, or a
    /// parent of which has none, is refused with `InvalidOrder`, and nothing
    /// changes.
    pub fn assign_topoheight(&mut self, dag: &Dag, block: usize) -> (r: Result<u64, BlockchainError>)
        requires
            dag.wf(),
            old(self).wf(dag.nodes@),
            block < dag.nodes@.len(),
        ensures
            final(self).wf(dag.nodes@),
            old(self).admits(dag.nodes@, block as int) ==> r == Ok::<u64, BlockchainError>(
                old(self).order@.len() as u64,
            ) && final(self).order@ == old(self).order@.push(block),
            !old(self).admits(dag.nodes@, block as int) ==> r == Err::<u64, BlockchainError>(
                BlockchainError::InvalidOrder,
            ) && *final(self) == *old(self),
    {
        if self.place[block].is_some() {
            return Err(BlockchainError::InvalidOrder);
        }
        let mut k: usize = 0;
        while k < dag.nodes[block].parents.len()
            invariant
                dag.wf(),
                self.wf(dag.nodes@),
                *self == *old(self),
                block < dag.nodes@.len(),
                k <= dag.nodes@[block as int].parents@.len(),
                forall|l: int|
                    0 <= l < k ==> place_of(
                        self.place@,
                        (#[trigger] dag.nodes@[block as int].parents@[l]) as int,
                    ) >= 0,
            decreases dag.nodes@[block as int].parents@.len() - k,
        {
            let p: usize = dag.nodes[block].parents[k];
            assert(dag.nodes@[block as int].parents@[k as int] < block);
            if self.place[p].is_none() {
                return Err(BlockchainError::InvalidOrder);
            }
            k += 1;
        }
        let t: usize = self.order.len();
        let ghost before = *self;
        assert(t < dag.nodes@.len()) by {
            lemma_counted_once(dag.nodes@, self.order@, self.place@);
            if t >= dag.nodes@.len() {
                assert(place_of(self.place@, block as int) < 0);
            }
        }
        self.order.push(block);
        self.place.set(block, Some(t));
        proof {
            let nodes = dag.nodes@;
            assert forall|x: int| 0 <= x < self.order@.len() implies (#[trigger] self.order@[x])
                < nodes.len() && place_of(self.place@, self.order@[x] as int) == x by {
                if x < t {
                    assert(before.order@[x] == self.order@[x]);
                    assert(place_of(before.place@, before.order@[x] as int) == x);
                }
            }
            assert forall|i: int|
                0 <= i < nodes.len() && (#[trigger] place_of(self.place@, i)) >= 0 implies place_of(
                self.place@,
                i,
            ) < self.order@.len() && self.order@[place_of(self.place@, i)] == i by {
                if i != block {
                    assert(place_of(before.place@, i) >= 0);
                    assert(before.order@[place_of(before.place@, i)] == i);
                }
            }
            assert forall|x: int, l: int|
                0 <= x < self.order@.len() && 0 <= l < nodes[self.order@[x] as int].parents@.len()
                    implies 0 <= place_of(
                self.place@,
                (#[trigger] nodes[(#[trigger] self.order@[x]) as int].parents@[l]) as int,
            ) < x by {
                let p = nodes[self.order@[x] as int].parents@[l] as int;
                assert(p < self.order@[x]);
                if x < t {
                    assert(before.order@[x] == self.order@[x]);
                    assert(0 <= place_of(before.place@, p) < x);
                    assert(p != block);
                } else {
                    assert(place_of(before.place@, p) >= 0);
                    assert(p != block);
                }
            }
        }
        Ok(t as u64)
    }

    /// Takes the topoheights from `len` on away: the order is cut to its
    /// first `len` places, and what was counted after them has no topoheight
    /// any more.
    pub fn truncate(&mut self, dag: &Dag, len: usize)
        requires
            dag.wf(),
            old(self).wf(dag.nodes@),
        ensures
            final(self).wf(dag.nodes@),
            len < old(self).order@.len() ==> final(self).order@ == old(self).order@.take(
                len as int,
            ),
            len >= old(self).order@.len() ==> final(self).order@ == old(self).order@,
    {
        while self.order.len() > len
            invariant
                dag.wf(),
                self.wf(dag.nodes@),
                self.order@.len() <= old(self).order@.len(),
                len < old(self).order@.len() ==> self.order@.len() >= len,
                len >= old(self).order@.len() ==> self.order@.len() == old(self).order@.len(),
                self.order@ == old(self).order@.take(self.order@.len() as int),
            decreases self.order@.len(),
        {
            let ghost before = *self;
            let last: usize = self.order[self.order.len() - 1];
            let ghost t = self.order@.len() - 1;
            self.order.pop();
            self.place.set(last, None);
            proof {
                let nodes = dag.nodes@;
                assert(self.order@ == old(self).order@.take(self.order@.len() as int));
                assert forall|x: int| 0 <= x < self.order@.len() implies (
                #[trigger] self.order@[x]) < nodes.len() && place_of(
                    self.place@,
                    self.order@[x] as int,
                ) == x by {
                    assert(before.order@[x] == self.order@[x]);
                    assert(place_of(before.place@, before.order@[x] as int) == x);
                }
                assert forall|i: int|
                    0 <= i < nodes.len() && (#[trigger] place_of(self.place@, i))
                        >= 0 implies place_of(self.place@, i) < self.order@.len()
                    && self.order@[place_of(self.place@, i)] == i by {
                    assert(i != last);
                    assert(place_of(before.place@, i) >= 0);
                    assert(before.order@[place_of(before.place@, i)] == i);
                    assert(place_of(before.place@, i) != t);
                }
                assert forall|x: int, l: int|
                    0 <= x < self.order@.len() && 0 <= l
                        < nodes[self.order@[x] as int].parents@.len() implies 0 <= place_of(
                    self.place@,
                    (#[trigger] nodes[(#[trigger] self.order@[x]) as int].parents@[l]) as int,
                ) < x by {
                    let p = nodes[self.order@[x] as int].parents@[l] as int;
                    assert(before.order@[x] == self.order@[x]);
                    assert(0 <= place_of(before.place@, p) < x);
                    assert(p != last);
                }
            }
        }
        assert(old(self).order@.take(old(self).order@.len() as int) == old(self).order@);
    }

    /// Brings the order to that at block `tip`. The places in which the old
    /// order and the new one agree from the start are kept as they are; the
    /// topoheights after them are taken away and given anew. The result is
    /// the number of places kept.
    pub fn reorder(&mut self, dag: &Dag, weights: &Vec<u128>, tip: usize) -> (kept: usize)
        requires
            dag.wf(),
            old(self).wf(dag.nodes@),
            weights@.len() == dag.nodes@.len(),
            tip < dag.nodes@.len(),
        ensures
            final(self).wf(dag.nodes@),
            final(self).order@ == order_of(dag.nodes@, weights@, tip as int),
            kept == agree_len(old(self).order@, final(self).order@),
            kept <= old(self).order@.len(),
            kept <= final(self).order@.len(),
            final(self).order@.take(kept as int) == old(self).order@.take(kept as int),
    {
        let target: Vec<usize> = linearize(dag, weights, tip);
        let mut kept: usize = 0;
        while kept < self.order.len() && kept < target.len() && self.order[kept] == target[kept]
            invariant
                *self == *old(self),
                kept <= self.order@.len(),
                kept <= target@.len(),
                forall|x: int| 0 <= x < kept ==> self.order@[x] == target@[x],
            decreases target@.len() - kept,
        {
            kept += 1;
        }
        let ghost stopped = kept == self.order@.len() || kept == target@.len() || self.order@[kept as int]
            != target@[kept as int];
        assert(stopped);
        self.truncate(dag, kept);
        assert(self.order@ =~= target@.take(kept as int));
        assert(old(self).order@.take(kept as int) =~= target@.take(kept as int));
        let mut t: usize = kept;
        while t < target.len()
            invariant
                dag.wf(),
                self.wf(dag.nodes@),
                weights@.len() == dag.nodes@.len(),
                tip < dag.nodes@.len(),
                target@ == order_of(dag.nodes@, weights@, tip as int),
                kept <= t <= target@.len(),
                self.order@ == target@.take(t as int),
            decreases target@.len() - t,
        {
            let b: usize = target[t];
            proof {
                let nodes = dag.nodes@;
                lemma_order_of(nodes, weights@, tip as int);
                assert(target@[t as int] <= tip);
                if place_of(self.place@, b as int) >= 0 {
                    let x = place_of(self.place@, b as int);
                    assert(self.order@[x] == b);
                    assert(target@[x] == b);
                    lemma_order_distinct(nodes, weights@, tip as int, x, t as int);
                }
                assert forall|k: int| 0 <= k < nodes[b as int].parents@.len() implies place_of(
                    self.place@,
                    (#[trigger] nodes[b as int].parents@[k]) as int,
                ) >= 0 by {
                    let p = nodes[b as int].parents@[k] as int;
                    assert(p < b);
                    assert(lists(nodes[b as int].parents@, p));
                    lemma_parent_reaches(nodes, p, b as int);
                    lemma_ancestor_first(nodes, weights@, tip as int, p, b as int, t as int);
                    let x = choose|x: int|
                        0 <= x < t && #[trigger] order_of(nodes, weights@, tip as int)[x] == p;
                    assert(self.order@[x] == p);
                }
                assert(self.admits(nodes, b as int));
            }
            let _ = self.assign_topoheight(dag, b);
            assert(target@.take(t + 1) == target@.take(t as int).push(b));
            t += 1;
        }
        assert(target@.take(t as int) == target@);
        proof {
            lemma_agree_len(old(self).order@, target@, kept as int);
        }
        kept
    }
}

/// In a well-formed order every ancestor of a counted block is counted, and
/// at a lower topoheight.
pub proof fn lemma_ancestors_counted_first(orderer: &Orderer, nodes: Seq<Node>, a: int, b: int)
    requires
        orderer.wf(nodes),
        0 <= b < nodes.len(),
        is_ancestor(nodes, a, b),
        place_of(orderer.place@, b) >= 0,
    ensures
        0 <= place_of(orderer.place@, a) < place_of(orderer.place@, b),
    decreases b,
{
    let k = choose|k: int|
        0 <= k < nodes[b].parents@.len() && 0 <= (#[trigger] nodes[b].parents@[k]) < b && reaches(
            nodes,
            a,
            nodes[b].parents@[k] as int,
        );
    let p = nodes[b].parents@[k] as int;
    let t = place_of(orderer.place@, b);
    assert(orderer.order@[t] == b);
    assert(0 <= place_of(orderer.place@, nodes[orderer.order@[t] as int].parents@[k] as int) < t);
    if a != p {
        lemma_ancestors_counted_first(orderer, nodes, a, p);
    }
}

/// An order in which each block has its own place is no longer than the
/// graph has blocks, and where it is that long it counts every block.
pub proof fn lemma_counted_once(nodes: Seq<Node>, order: Seq<usize>, place: Seq<Option<usize>>)
    requires
        place.len() == nodes.len(),
        forall|t: int|
            0 <= t < order.len() ==> (#[trigger] order[t]) < nodes.len() && place_of(
                place,
                order[t] as int,
            ) == t,
    ensures
        order.len() <= nodes.len(),
        order.len() == nodes.len() ==> forall|i: int|
            0 <= i < nodes.len() ==> (#[trigger] place_of(place, i)) >= 0,
{
    let counted = Set::new(|i: int| 0 <= i < nodes.len() && place_of(place, i) >= 0);
    let all = Set::new(|i: int| 0 <= i < nodes.len());
    lemma_range_set(nodes.len() as int);
    assert(counted.subset_of(all));
    vstd::set_lib::lemma_len_subset(counted, all);
    lemma_places_counted(order, place, nodes.len() as int, order.len() as int);
    let upto = Set::new(
        |i: int| 0 <= i < nodes.len() && 0 <= place_of(place, i) < order.len(),
    );
    assert(upto.subset_of(counted));
    vstd::set_lib::lemma_len_subset(upto, counted);
    if order.len() == nodes.len() {
        assert(counted.len() == all.len());
        vstd::set_lib::lemma_subset_equality(counted, all);
        assert forall|i: int| 0 <= i < nodes.len() implies (#[trigger] place_of(place, i))
            >= 0 by {
            assert(all.contains(i));
        }
    }
}

/// The integers from 0 up to `n` are `n` in number.
pub proof fn lemma_range_set(n: int)
    requires
        n >= 0,
    ensures
        Set::new(|i: int| 0 <= i < n).finite(),
        Set::new(|i: int| 0 <= i < n).len() == n,
    decreases n,
{
    let s = Set::new(|i: int| 0 <= i < n);
    if n == 0 {
        assert(s =~= Set::<int>::empty());
    } else {
        lemma_range_set(n - 1);
        let r = Set::new(|i: int| 0 <= i < n - 1);
        assert(s =~= r.insert(n - 1));
    }
}

/// The blocks with a place below `upto` are `upto` in number.
pub proof fn lemma_places_counted(
    order: Seq<usize>,
    place: Seq<Option<usize>>,
    n: int,
    upto: int,
)
    requires
        place.len() == n,
        0 <= upto <= order.len(),
        forall|t: int|
            0 <= t < order.len() ==> (#[trigger] order[t]) < n && place_of(place, order[t] as int)
                == t,
    ensures
        Set::new(|i: int| 0 <= i < n && 0 <= place_of(place, i) < upto).finite(),
        Set::new(|i: int| 0 <= i < n && 0 <= place_of(place, i) < upto).len() >= upto,
    decreases upto,
{
    let s = Set::new(|i: int| 0 <= i < n && 0 <= place_of(place, i) < upto);
    lemma_range_set(n);
    let all = Set::new(|i: int| 0 <= i < n);
    assert(s.subset_of(all));
    vstd::set_lib::lemma_len_subset(s, all);
    if upto > 0 {
        lemma_places_counted(order, place, n, upto - 1);
        let r = Set::new(|i: int| 0 <= i < n && 0 <= place_of(place, i) < upto - 1);
        let b = order[upto - 1] as int;
        assert(place_of(place, b) == upto - 1);
        assert(!r.contains(b));
        assert(r.insert(b).subset_of(s));
        vstd::set_lib::lemma_len_subset(r.insert(b), s);
    }
}

/// Whether `more` and `more_weights` hold the blocks and weights of `nodes`
/// and `weights` in their places, and others after them.
pub open spec fn grown_from(
    nodes: Seq<Node>,
    weights: Seq<u128>,
    more: Seq<Node>,
    more_weights: Seq<u128>,
) -> bool {
    &&& nodes.len() == weights.len()
    &&& more.len() == more_weights.len()
    &&& nodes.len() <= more.len()
    &&& forall|i: int| 0 <= i < nodes.len() ==> #[trigger] more[i] == nodes[i]
    &&& forall|i: int| 0 <= i < nodes.len() ==> #[trigger] more_weights[i] == weights[i]
}

/// What stands below a block does not change when more blocks come.
pub proof fn lemma_reaches_grown(nodes: Seq<Node>, more: Seq<Node>, a: int, b: int)
    requires
        nodes.len() <= more.len(),
        forall|i: int| 0 <= i < nodes.len() ==> #[trigger] more[i] == nodes[i],
        0 <= b < nodes.len(),
    ensures
        reaches(more, a, b) == reaches(nodes, a, b),
    decreases b,
{
    assert(more[b] == nodes[b]);
    let ps = nodes[b].parents@;
    assert forall|k: int| 0 <= k < ps.len() && 0 <= (#[trigger] ps[k]) < b implies reaches(
        more,
        a,
        ps[k] as int,
    ) == reaches(nodes, a, ps[k] as int) by {
        lemma_reaches_grown(nodes, more, a, ps[k] as int);
    }
    if a != b {
        if reaches(nodes, a, b) {
            let k = choose|k: int|
                0 <= k < ps.len() && 0 <= (#[trigger] ps[k]) < b && reaches(nodes, a, ps[k] as int);
            assert(reaches(more, a, more[b].parents@[k] as int));
        }
        if reaches(more, a, b) {
            let k = choose|k: int|
                0 <= k < ps.len() && 0 <= (#[trigger] more[b].parents@[k]) < b && reaches(
                    more,
                    a,
                    more[b].parents@[k] as int,
                );
            assert(reaches(nodes, a, ps[k] as int));
        }
    }
}

/// The block that outranks the others of a list does not change when more
/// blocks come.
pub proof fn lemma_pick_best_grown(
    nodes: Seq<Node>,
    weights: Seq<u128>,
    more: Seq<Node>,
    more_weights: Seq<u128>,
    list: Seq<usize>,
)
    requires
        grown_from(nodes, weights, more, more_weights),
        forall|k: int| 0 <= k < list.len() ==> (#[trigger] list[k]) < nodes.len(),
    ensures
        pick_best(more, more_weights, list) == pick_best(nodes, weights, list),
        list.len() > 0 ==> 0 <= pick_best(nodes, weights, list) < nodes.len(),
    decreases list.len(),
{
    if list.len() > 1 {
        let front = list.drop_last();
        assert(forall|k: int| 0 <= k < front.len() ==> front[k] == list[k]);
        lemma_pick_best_grown(nodes, weights, more, more_weights, front);
        assert(list[list.len() - 1] < nodes.len());
    } else if list.len() == 1 {
        assert(list[0] < nodes.len());
    }
}

/// Putting a block into a list gives the same list when more blocks come.
pub proof fn lemma_insert_sorted_grown(nodes: Seq<Node>, more: Seq<Node>, s: Seq<usize>, x: usize)
    requires
        nodes.len() <= more.len(),
        forall|i: int| 0 <= i < nodes.len() ==> #[trigger] more[i] == nodes[i],
        forall|k: int| 0 <= k < s.len() ==> (#[trigger] s[k]) < nodes.len(),
        x < nodes.len(),
    ensures
        insert_sorted(more, s, x) == insert_sorted(nodes, s, x),
    decreases s.len(),
{
    if s.len() > 0 {
        let front = s.drop_last();
        assert(forall|k: int| 0 <= k < front.len() ==> front[k] == s[k]);
        lemma_insert_sorted_grown(nodes, more, front, x);
        assert(s[s.len() - 1] < nodes.len());
        assert(more[s.last() as int] == nodes[s.last() as int]);
        assert(more[x as int] == nodes[x as int]);
    }
}

/// The blocks that join the order with a block do not change when more
/// blocks come.
pub proof fn lemma_merged_grown(nodes: Seq<Node>, more: Seq<Node>, m: int, t: int, upto: int)
    requires
        hashes_distinct(nodes),
        more.len() <= usize::MAX,
        nodes.len() <= more.len(),
        forall|i: int| 0 <= i < nodes.len() ==> #[trigger] more[i] == nodes[i],
        0 <= m < nodes.len(),
        0 <= t < nodes.len(),
        0 <= upto <= nodes.len(),
    ensures
        merged(more, m, t, upto) == merged(nodes, m, t, upto),
    decreases upto,
{
    if upto > 0 {
        lemma_merged_grown(nodes, more, m, t, upto - 1);
        let a = upto - 1;
        lemma_reaches_grown(nodes, more, a, t);
        lemma_reaches_grown(nodes, more, a, m);
        lemma_merged(nodes, m, t, upto - 1);
        let rest = merged(nodes, m, t, upto - 1);
        assert forall|k: int| 0 <= k < rest.len() implies (#[trigger] rest[k]) < nodes.len() by {}
        lemma_insert_sorted_grown(nodes, more, rest, a as usize);
    }
}

/// The order at a block, and the canonical path that ends in it, do not
/// change when more blocks come: they are made by the blocks at and below
/// it alone.
pub proof fn lemma_order_grown(
    nodes: Seq<Node>,
    weights: Seq<u128>,
    more: Seq<Node>,
    more_weights: Seq<u128>,
    s: int,
    t: int,
)
    requires
        well_linked(nodes),
        more.len() <= usize::MAX,
        grown_from(nodes, weights, more, more_weights),
        0 <= t < nodes.len(),
    ensures
        order_of(more, more_weights, t) == order_of(nodes, weights, t),
        on_path(more, more_weights, s, t) == on_path(nodes, weights, s, t),
    decreases t,
{
    assert(more[t] == nodes[t]);
    let ps = nodes[t].parents@;
    if ps.len() > 0 {
        assert forall|k: int| 0 <= k < ps.len() implies (#[trigger] ps[k]) < nodes.len() by {
            assert(nodes[t].parents@[k] < t);
        }
        lemma_pick_best_grown(nodes, weights, more, more_weights, ps);
        let m = pick_best(nodes, weights, ps);
        lemma_pick_best(nodes, weights, ps);
        let at = choose|k: int| 0 <= k < ps.len() && ps[k] == m;
        assert(ps[at] < t);
        lemma_order_grown(nodes, weights, more, more_weights, s, m);
        lemma_merged_grown(nodes, more, m, t, t);
    }
}

} // verus!
