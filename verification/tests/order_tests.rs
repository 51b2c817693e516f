use xelis_daemon::dag::Dag;
use xelis_daemon::difficulty::DifficultyTable;
use xelis_daemon::order::{best_of, insert_by_key, linearize, mark_below, Orderer};
use xelis_daemon::types::{BlockchainError, Hash256};

fn h(n: u64) -> Hash256 {
    Hash256::new(0, 0, 0, n)
}

fn graph(blocks: &[(u64, Vec<u64>, u64)]) -> (Dag, DifficultyTable) {
    let mut dag = Dag::new();
    let mut table = DifficultyTable::new();
    for (id, parents, own) in blocks {
        let tips: Vec<Hash256> = parents.iter().map(|p| h(*p)).collect();
        dag.add_block(h(*id), &tips).unwrap();
        table.weigh(&dag, *own, 0);
    }
    (dag, table)
}

fn diamond() -> (Dag, DifficultyTable) {
    graph(&[
        (10, vec![], 1000),
        (30, vec![10], 1000),
        (20, vec![10], 1000),
        (21, vec![20], 1000),
        (40, vec![30, 21], 1000),
    ])
}

#[test]
fn blocks_below_a_tip_are_marked() {
    let (dag, _) = diamond();
    assert_eq!(mark_below(&dag, 0), vec![true, false, false, false, false]);
    assert_eq!(mark_below(&dag, 1), vec![true, true, false, false, false]);
    assert_eq!(mark_below(&dag, 3), vec![true, false, true, true, false]);
    assert_eq!(mark_below(&dag, 4), vec![true, true, true, true, true]);
}

#[test]
fn the_heavier_block_is_picked_and_the_lesser_hash_among_equals() {
    let (dag, table) = diamond();
    assert_eq!(best_of(&dag, &table.cumulative, &vec![1, 3]), 3);
    assert_eq!(best_of(&dag, &table.cumulative, &vec![3, 1]), 3);
    assert_eq!(best_of(&dag, &table.cumulative, &vec![1, 2]), 2);
    assert_eq!(best_of(&dag, &table.cumulative, &vec![2, 1]), 2);
    assert_eq!(best_of(&dag, &table.cumulative, &vec![1]), 1);
}

#[test]
fn blocks_are_put_in_by_height_and_hash() {
    let (dag, _) = diamond();
    let mut list: Vec<usize> = Vec::new();
    insert_by_key(&dag, &mut list, 3);
    assert_eq!(list, vec![3]);
    insert_by_key(&dag, &mut list, 1);
    assert_eq!(list, vec![1, 3]);
    insert_by_key(&dag, &mut list, 2);
    assert_eq!(list, vec![2, 1, 3]);
    insert_by_key(&dag, &mut list, 0);
    assert_eq!(list, vec![0, 2, 1, 3]);
    insert_by_key(&dag, &mut list, 4);
    assert_eq!(list, vec![0, 2, 1, 3, 4]);
}

#[test]
fn the_order_follows_the_heavier_parent_and_merges_the_rest() {
    let (dag, table) = diamond();
    assert_eq!(linearize(&dag, &table.cumulative, 0), vec![0]);
    assert_eq!(linearize(&dag, &table.cumulative, 1), vec![0, 1]);
    assert_eq!(linearize(&dag, &table.cumulative, 3), vec![0, 2, 3]);
    assert_eq!(linearize(&dag, &table.cumulative, 4), vec![0, 2, 3, 1, 4]);
}

#[test]
fn every_ancestor_is_counted_before_its_descendants() {
    let (dag, table) = graph(&[
        (1, vec![], 1000),
        (12, vec![1], 1000),
        (11, vec![1], 1500),
        (13, vec![1], 1000),
        (22, vec![12, 13], 1000),
        (21, vec![11], 1000),
        (31, vec![21, 22], 1000),
        (32, vec![22], 4000),
        (41, vec![31, 32], 1000),
    ]);
    let order = linearize(&dag, &table.cumulative, 8);
    assert_eq!(order, vec![0, 1, 3, 4, 7, 2, 5, 6, 8]);
    let mut place = vec![usize::MAX; 9];
    for (t, block) in order.iter().enumerate() {
        assert_eq!(place[*block], usize::MAX);
        place[*block] = t;
    }
    for i in 0..9usize {
        let below = mark_below(&dag, i);
        for a in 0..9usize {
            if below[a] && a != i {
                assert!(place[a] < place[i]);
            }
        }
    }
}

#[test]
fn the_order_is_the_same_however_the_blocks_came() {
    let (first, first_table) = graph(&[
        (10, vec![], 1000),
        (30, vec![10], 1000),
        (20, vec![10], 1000),
        (21, vec![20], 1000),
        (40, vec![30, 21], 1000),
    ]);
    let (second, second_table) = graph(&[
        (10, vec![], 1000),
        (20, vec![10], 1000),
        (21, vec![20], 1000),
        (30, vec![10], 1000),
        (40, vec![21, 30], 1000),
    ]);
    let by_hash = |dag: &Dag, order: Vec<usize>| -> Vec<Hash256> {
        order.iter().map(|i| dag.nodes[*i].hash).collect()
    };
    assert_eq!(
        by_hash(&first, linearize(&first, &first_table.cumulative, 4)),
        by_hash(&second, linearize(&second, &second_table.cumulative, 4))
    );
    assert_eq!(
        by_hash(&first, linearize(&first, &first_table.cumulative, 4)),
        vec![h(10), h(20), h(21), h(30), h(40)]
    );
}

#[test]
fn topoheights_are_given_after_the_parents() {
    let (dag, _) = diamond();
    let mut orderer = Orderer::new();
    for _ in 0..5 {
        orderer.track();
    }
    assert_eq!(orderer.assign_topoheight(&dag, 1), Err(BlockchainError::InvalidOrder));
    assert_eq!(orderer.assign_topoheight(&dag, 0), Ok(0));
    assert_eq!(orderer.assign_topoheight(&dag, 0), Err(BlockchainError::InvalidOrder));
    assert_eq!(orderer.assign_topoheight(&dag, 4), Err(BlockchainError::InvalidOrder));
    assert_eq!(orderer.assign_topoheight(&dag, 3), Err(BlockchainError::InvalidOrder));
    assert_eq!(orderer.assign_topoheight(&dag, 1), Ok(1));
    assert_eq!(orderer.assign_topoheight(&dag, 2), Ok(2));
    assert_eq!(orderer.assign_topoheight(&dag, 4), Err(BlockchainError::InvalidOrder));
    assert_eq!(orderer.assign_topoheight(&dag, 3), Ok(3));
    assert_eq!(orderer.assign_topoheight(&dag, 4), Ok(4));
    assert_eq!(orderer.order, vec![0, 1, 2, 3, 4]);
    assert_eq!(orderer.topoheight_of(3), Some(3));
    orderer.truncate(&dag, 2);
    assert_eq!(orderer.order, vec![0, 1]);
    assert_eq!(orderer.topoheight_of(1), Some(1));
    assert_eq!(orderer.topoheight_of(2), None);
    assert_eq!(orderer.topoheight_of(4), None);
    orderer.truncate(&dag, 7);
    assert_eq!(orderer.order, vec![0, 1]);
    assert_eq!(orderer.assign_topoheight(&dag, 3), Err(BlockchainError::InvalidOrder));
    assert_eq!(orderer.assign_topoheight(&dag, 2), Ok(2));
}

#[test]
fn reordering_keeps_what_agrees() {
    let (dag, table) = diamond();
    let mut orderer = Orderer::new();
    for _ in 0..5 {
        orderer.track();
    }
    assert_eq!(orderer.reorder(&dag, &table.cumulative, 1), 0);
    assert_eq!(orderer.order, vec![0, 1]);
    assert_eq!(orderer.reorder(&dag, &table.cumulative, 1), 2);
    assert_eq!(orderer.reorder(&dag, &table.cumulative, 3), 1);
    assert_eq!(orderer.order, vec![0, 2, 3]);
    assert_eq!(orderer.topoheight_of(1), None);
    assert_eq!(orderer.topoheight_of(3), Some(2));
    assert_eq!(orderer.reorder(&dag, &table.cumulative, 4), 3);
    assert_eq!(orderer.order, vec![0, 2, 3, 1, 4]);
    assert_eq!(orderer.topoheight_of(1), Some(3));
    assert_eq!(orderer.reorder(&dag, &table.cumulative, 0), 1);
    assert_eq!(orderer.order, vec![0]);
}
