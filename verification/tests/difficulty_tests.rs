use xelis_daemon::dag::Dag;
use xelis_daemon::difficulty::{
    set_anew, DifficultyTable, BLOCK_TIME, DIFFICULTY_WINDOW, MAX_ADJUSTMENT, MINIMUM_DIFFICULTY,
};
use xelis_daemon::types::{BlockchainError, Hash256};

fn h(n: u64) -> Hash256 {
    Hash256::new(0, 0, 0, n)
}

#[test]
fn constants_of_the_difficulty() {
    assert_eq!(MINIMUM_DIFFICULTY, 1000);
    assert_eq!(BLOCK_TIME, 15000);
    assert_eq!(DIFFICULTY_WINDOW, 16);
    assert_eq!(MAX_ADJUSTMENT, 2);
}

#[test]
fn difficulty_is_set_anew_from_the_time_that_passed() {
    assert_eq!(set_anew(1000, 0, 0), 1000);
    assert_eq!(set_anew(4000, 123, 0), 4000);
    assert_eq!(set_anew(1000, 15000, 1), 1000);
    assert_eq!(set_anew(4000, 10000, 1), 6000);
    assert_eq!(set_anew(4000, 20000, 1), 3000);
    assert_eq!(set_anew(5000, 45000, 2), 3333);
    assert_eq!(set_anew(6000, 40000, 2), 4500);
}

#[test]
fn the_adjustment_is_held_within_its_factor() {
    assert_eq!(set_anew(4000, 30000, 1), 2000);
    assert_eq!(set_anew(4000, 300000, 1), 2000);
    assert_eq!(set_anew(4000, 7500, 1), 8000);
    assert_eq!(set_anew(4000, 1, 1), 8000);
    assert_eq!(set_anew(4000, 0, 1), 8000);
    assert_eq!(set_anew(4000, u64::MAX, 16), 2000);
}

#[test]
fn the_difficulty_stays_within_its_bounds() {
    assert_eq!(set_anew(1000, 30000, 1), 1000);
    assert_eq!(set_anew(0, 15000, 1), 1000);
    assert_eq!(set_anew(500, 0, 0), 1000);
    assert_eq!(set_anew(u64::MAX, 1, 16), u64::MAX);
    assert_eq!(set_anew(u64::MAX, 0, 0), u64::MAX);
}

#[test]
fn cumulative_difficulty_adds_the_heaviest_parent() {
    let mut dag = Dag::new();
    let mut table = DifficultyTable::new();
    assert_eq!(dag.add_block(h(1), &Vec::new()), Ok(0));
    assert_eq!(table.get_cumulative_difficulty(&Vec::new(), 1000), Ok(1000));
    assert_eq!(table.weigh(&dag, 1000, 0), 1000);
    assert_eq!(dag.add_block(h(2), &vec![h(1)]), Ok(1));
    assert_eq!(table.weigh(&dag, 3000, 15000), 4000);
    assert_eq!(dag.add_block(h(3), &vec![h(1)]), Ok(2));
    assert_eq!(table.weigh(&dag, 1500, 15000), 2500);
    assert_eq!(table.get_cumulative_difficulty(&vec![1, 2], 200), Ok(4200));
    assert_eq!(table.get_cumulative_difficulty(&vec![2, 1], 200), Ok(4200));
    assert_eq!(table.get_cumulative_difficulty(&vec![2], 200), Ok(2700));
    assert_eq!(dag.add_block(h(4), &vec![h(2), h(3)]), Ok(3));
    assert_eq!(table.weigh(&dag, 200, 30000), 4200);
    assert_eq!(table.cumulative, vec![1000, 4000, 2500, 4200]);
    assert_eq!(table.own, vec![1000, 3000, 1500, 200]);
    assert_eq!(table.timestamps, vec![0, 15000, 15000, 30000]);
}

#[test]
fn a_parent_that_is_not_weighed_is_out_of_order() {
    let mut dag = Dag::new();
    let mut table = DifficultyTable::new();
    assert_eq!(dag.add_block(h(1), &Vec::new()), Ok(0));
    assert_eq!(
        table.get_cumulative_difficulty(&vec![0], 1000),
        Err(BlockchainError::InvalidOrder)
    );
    assert_eq!(table.weigh(&dag, 1000, 0), 1000);
    assert_eq!(table.get_cumulative_difficulty(&vec![0], 1000), Ok(2000));
    assert_eq!(
        table.get_cumulative_difficulty(&vec![0, 1], 1000),
        Err(BlockchainError::InvalidOrder)
    );
}

#[test]
fn cumulative_difficulty_has_room_for_the_greatest_difficulties() {
    let mut dag = Dag::new();
    let mut table = DifficultyTable::new();
    assert_eq!(dag.add_block(h(1), &Vec::new()), Ok(0));
    assert_eq!(table.weigh(&dag, u64::MAX, 0), u64::MAX as u128);
    assert_eq!(dag.add_block(h(2), &vec![h(1)]), Ok(1));
    assert_eq!(table.weigh(&dag, u64::MAX, 1), 2 * (u64::MAX as u128));
}

#[test]
fn difficulty_at_tips() {
    let mut dag = Dag::new();
    let mut table = DifficultyTable::new();
    assert_eq!(table.get_difficulty_at_tips(&dag, &Vec::new()), 1000);
    assert_eq!(dag.add_block(h(1), &Vec::new()), Ok(0));
    table.weigh(&dag, 4000, 0);
    assert_eq!(table.get_difficulty_at_tips(&dag, &vec![0]), 4000);
    assert_eq!(dag.add_block(h(2), &vec![h(1)]), Ok(1));
    table.weigh(&dag, 4000, 10000);
    assert_eq!(table.get_difficulty_at_tips(&dag, &vec![1]), 6000);
    assert_eq!(dag.add_block(h(3), &vec![h(2)]), Ok(2));
    table.weigh(&dag, 6000, 40000);
    assert_eq!(table.get_difficulty_at_tips(&dag, &vec![2]), 4500);
    assert_eq!(dag.add_block(h(4), &vec![h(2)]), Ok(3));
    table.weigh(&dag, 6000, 25000);
    assert_eq!(table.get_difficulty_at_tips(&dag, &vec![3]), 7200);
    assert_eq!(table.get_difficulty_at_tips(&dag, &vec![2, 3]), 4500);
    assert_eq!(table.get_difficulty_at_tips(&dag, &vec![3, 2]), 4500);
}

#[test]
fn the_window_ends_the_walk() {
    let mut dag = Dag::new();
    let mut table = DifficultyTable::new();
    assert_eq!(dag.add_block(h(1), &Vec::new()), Ok(0));
    table.weigh(&dag, 1000, 0);
    for i in 1..20u64 {
        assert_eq!(dag.add_block(h(i + 1), &vec![h(i)]), Ok(i as usize));
        let timestamp = if i < 4 { i * 1_000_000 } else { 3_000_000 + (i - 3) * 10000 };
        table.weigh(&dag, 3000, timestamp);
    }
    assert_eq!(table.get_difficulty_at_tips(&dag, &vec![19]), 4500);
}
