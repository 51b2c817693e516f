use xelis_daemon::dag::{has_index, Dag, DagError};
use xelis_daemon::types::Hash256;

fn h(n: u64) -> Hash256 {
    Hash256::new(0, 0, 0, n)
}

#[test]
fn hashes_are_ordered_word_by_word() {
    assert!(Hash256::new(0, 0, 0, 1).lt(&Hash256::new(0, 0, 0, 2)));
    assert!(!Hash256::new(0, 0, 0, 2).lt(&Hash256::new(0, 0, 0, 1)));
    assert!(!Hash256::new(0, 0, 0, 2).lt(&Hash256::new(0, 0, 0, 2)));
    assert!(Hash256::new(0, 9, 9, 9).lt(&Hash256::new(1, 0, 0, 0)));
    assert!(Hash256::new(1, 0, 9, 9).lt(&Hash256::new(1, 1, 0, 0)));
    assert!(Hash256::new(1, 1, 0, 9).lt(&Hash256::new(1, 1, 1, 0)));
    assert!(!Hash256::new(2, 0, 0, 0).lt(&Hash256::new(1, 9, 9, 9)));
    assert_eq!(Hash256::zero(), Hash256::new(0, 0, 0, 0));
}

#[test]
fn a_block_without_parents_becomes_a_tip() {
    let mut dag = Dag::new();
    assert_eq!(dag.len(), 0);
    assert!(dag.get_tips().is_empty());
    assert_eq!(dag.add_block(h(5), &Vec::new()), Ok(0));
    assert_eq!(dag.len(), 1);
    assert_eq!(dag.get_tips(), vec![h(5)]);
    assert!(dag.has_block(&h(5)));
    assert!(!dag.has_block(&h(6)));
    assert_eq!(dag.index_of(&h(5)), Some(0));
    assert_eq!(dag.index_of(&h(6)), None);
    assert_eq!(dag.nodes[0].height, 0);
}

#[test]
fn parents_leave_the_tips() {
    let mut dag = Dag::new();
    assert_eq!(dag.add_block(h(1), &Vec::new()), Ok(0));
    assert_eq!(dag.add_block(h(9), &vec![h(1)]), Ok(1));
    assert_eq!(dag.get_tips(), vec![h(9)]);
    assert_eq!(dag.add_block(h(4), &vec![h(1)]), Ok(2));
    assert_eq!(dag.get_tips(), vec![h(4), h(9)]);
    assert_eq!(dag.add_block(h(7), &vec![h(1)]), Ok(3));
    assert_eq!(dag.get_tips(), vec![h(4), h(7), h(9)]);
    assert_eq!(dag.add_block(h(2), &vec![h(9), h(4)]), Ok(4));
    assert_eq!(dag.get_tips(), vec![h(2), h(7)]);
    assert_eq!(dag.nodes[4].height, 2);
    assert_eq!(dag.nodes[4].parents, vec![1, 2]);
    assert_eq!(dag.parents_of(4), vec![h(9), h(4)]);
    assert_eq!(dag.add_block(h(3), &vec![h(2), h(7)]), Ok(5));
    assert_eq!(dag.get_tips(), vec![h(3)]);
    assert_eq!(dag.nodes[5].height, 3);
}

#[test]
fn a_known_block_is_a_duplicate() {
    let mut dag = Dag::new();
    assert_eq!(dag.add_block(h(1), &Vec::new()), Ok(0));
    assert_eq!(dag.add_block(h(2), &vec![h(1)]), Ok(1));
    assert_eq!(dag.add_block(h(2), &vec![h(1)]), Err(DagError::DuplicateBlock));
    assert_eq!(dag.add_block(h(1), &Vec::new()), Err(DagError::DuplicateBlock));
    assert_eq!(dag.len(), 2);
    assert_eq!(dag.get_tips(), vec![h(2)]);
}

#[test]
fn an_unknown_parent_is_missing() {
    let mut dag = Dag::new();
    assert_eq!(dag.add_block(h(1), &Vec::new()), Ok(0));
    assert_eq!(dag.add_block(h(2), &vec![h(3)]), Err(DagError::MissingParent));
    assert_eq!(dag.add_block(h(2), &vec![h(1), h(3)]), Err(DagError::MissingParent));
    assert_eq!(dag.add_block(h(2), &vec![h(2)]), Err(DagError::MissingParent));
    assert_eq!(dag.len(), 1);
    assert_eq!(dag.get_tips(), vec![h(1)]);
}

#[test]
fn a_duplicate_is_refused_before_a_missing_parent() {
    let mut dag = Dag::new();
    assert_eq!(dag.add_block(h(1), &Vec::new()), Ok(0));
    assert_eq!(dag.add_block(h(1), &vec![h(8)]), Err(DagError::DuplicateBlock));
}

#[test]
fn positions_are_resolved_one_for_one() {
    let mut dag = Dag::new();
    assert_eq!(dag.add_block(h(1), &Vec::new()), Ok(0));
    assert_eq!(dag.add_block(h(2), &vec![h(1)]), Ok(1));
    assert_eq!(dag.add_block(h(3), &vec![h(1)]), Ok(2));
    assert_eq!(dag.resolve(&vec![h(3), h(1), h(3)]), Some(vec![2, 0, 2]));
    assert_eq!(dag.resolve(&vec![h(3), h(4)]), None);
    assert_eq!(dag.resolve(&Vec::new()), Some(Vec::new()));
    assert_eq!(dag.height_above(&vec![0]), 1);
    assert_eq!(dag.height_above(&vec![0, 2]), 2);
    assert_eq!(dag.height_above(&Vec::new()), 0);
    assert!(has_index(&vec![4, 5, 6], 5));
    assert!(!has_index(&vec![4, 5, 6], 7));
}

#[test]
fn several_blocks_without_parents() {
    let mut dag = Dag::new();
    assert_eq!(dag.add_block(h(3), &Vec::new()), Ok(0));
    assert_eq!(dag.add_block(h(1), &Vec::new()), Ok(1));
    assert_eq!(dag.get_tips(), vec![h(1), h(3)]);
    assert_eq!(dag.add_block(h(2), &vec![h(3), h(1)]), Ok(2));
    assert_eq!(dag.get_tips(), vec![h(2)]);
    assert_eq!(dag.nodes[2].height, 1);
}

#[test]
fn blocks_are_found_by_hash_however_they_came() {
    let mut dag = Dag::new();
    let mut ids: Vec<u64> = Vec::new();
    let mut id: u64 = 17;
    for i in 0..60usize {
        id = (id * 37 + 11) % 101;
        while ids.contains(&id) {
            id = (id + 1) % 101;
        }
        let parents = if i == 0 { Vec::new() } else { vec![h(ids[i / 2])] };
        assert_eq!(dag.add_block(h(id), &parents), Ok(i));
        ids.push(id);
    }
    for (i, id) in ids.iter().enumerate() {
        assert_eq!(dag.index_of(&h(*id)), Some(i));
        assert!(dag.has_block(&h(*id)));
    }
    for id in 0..101u64 {
        if !ids.contains(&id) {
            assert_eq!(dag.index_of(&h(id)), None);
        }
    }
    assert_eq!(dag.index_of(&Hash256::new(1, 0, 0, ids[0])), None);
    assert_eq!(dag.by_hash.len(), 60);
    for pair in dag.by_hash.windows(2) {
        assert!(dag.nodes[pair[0]].hash.lt(&dag.nodes[pair[1]].hash));
    }
    let tips = dag.get_tips();
    for pair in tips.windows(2) {
        assert!(pair[0].lt(&pair[1]));
    }
    assert_eq!(tips.len(), 30);
}
