use xelis_daemon::execution::{compute_effects, running_value};
use xelis_daemon::ledger::{Effect, Key, Ledger};
use xelis_daemon::mempool::{hash_listed, Mempool, Transaction, MINIMUM_FEE};
use xelis_daemon::types::{BlockchainError, Hash256};

fn h(n: u64) -> Hash256 {
    Hash256::new(0, 0, 0, n)
}

fn native() -> Hash256 {
    Hash256::zero()
}

fn tx(id: u64, sender: u64, recipient: u64, amount: u64, fee: u64, nonce: u64) -> Transaction {
    Transaction {
        hash: h(id),
        sender: h(sender),
        recipient: h(recipient),
        asset: native(),
        amount,
        fee,
        nonce,
        size: 100,
    }
}

fn funded() -> Ledger {
    let mut ledger = Ledger::new();
    ledger.apply_block(
        h(900),
        0,
        &vec![
            Effect::Balance { account: h(1), asset: native(), balance: 100_000 },
            Effect::Balance { account: h(2), asset: native(), balance: 50_000 },
            Effect::Balance { account: h(1), asset: h(7), balance: 300 },
            Effect::Nonce { account: h(2), nonce: 4 },
        ],
    );
    ledger
}

#[test]
fn a_transaction_is_let_in_and_waits_last() {
    let ledger = funded();
    let mut pool = Mempool::new();
    assert_eq!(pool.len(), 0);
    assert_eq!(pool.add_tx(&ledger, tx(10, 1, 2, 500, 1000, 0), true), Ok(()));
    assert_eq!(pool.add_tx(&ledger, tx(11, 2, 1, 500, 2000, 4), true), Ok(()));
    assert_eq!(pool.len(), 2);
    assert_eq!(pool.txs, vec![tx(10, 1, 2, 500, 1000, 0), tx(11, 2, 1, 500, 2000, 4)]);
    assert_eq!(pool.view_tx(&h(11)), Ok(tx(11, 2, 1, 500, 2000, 4)));
    assert_eq!(pool.view_tx(&h(12)), Err(BlockchainError::NotFound));
    assert_eq!(pool.position(&h(11)), Some(1));
    assert_eq!(pool.position(&h(12)), None);
}

#[test]
fn a_transaction_that_waits_is_a_duplicate() {
    let ledger = funded();
    let mut pool = Mempool::new();
    assert_eq!(pool.add_tx(&ledger, tx(10, 1, 2, 500, 1000, 0), true), Ok(()));
    assert_eq!(
        pool.add_tx(&ledger, tx(10, 1, 2, 500, 1000, 0), true),
        Err(BlockchainError::DuplicateTx)
    );
    assert_eq!(
        pool.add_tx(&ledger, tx(10, 2, 1, 1, 1, 9), false),
        Err(BlockchainError::DuplicateTx)
    );
    assert_eq!(pool.len(), 1);
}

#[test]
fn a_nonce_that_skips_ahead_is_invalid() {
    let ledger = funded();
    let mut pool = Mempool::new();
    assert_eq!(
        pool.add_tx(&ledger, tx(10, 1, 2, 500, 1000, 1), true),
        Err(BlockchainError::InvalidNonce)
    );
    assert_eq!(
        pool.add_tx(&ledger, tx(11, 2, 1, 500, 1000, 5), true),
        Err(BlockchainError::InvalidNonce)
    );
    assert_eq!(
        pool.add_tx(&ledger, tx(12, 2, 1, 500, 1000, 3), true),
        Err(BlockchainError::InvalidNonce)
    );
    assert_eq!(
        pool.add_tx(&ledger, tx(13, 2, 1, 500, 1000, u64::MAX), true),
        Err(BlockchainError::InvalidNonce)
    );
    assert_eq!(pool.len(), 0);
    assert_eq!(pool.add_tx(&ledger, tx(14, 2, 1, 500, 1000, 4), true), Ok(()));
    assert_eq!(
        pool.add_tx(&ledger, tx(15, 2, 1, 500, 1000, 4), true),
        Err(BlockchainError::InvalidNonce)
    );
    assert_eq!(
        pool.add_tx(&ledger, tx(16, 2, 1, 500, 1000, 6), true),
        Err(BlockchainError::InvalidNonce)
    );
    assert_eq!(pool.add_tx(&ledger, tx(17, 2, 1, 500, 1000, 5), true), Ok(()));
    assert_eq!(pool.expected_nonce(&h(2), 4), 6);
    assert_eq!(pool.expected_nonce(&h(1), 0), 0);
    assert_eq!(pool.expected_nonce(&h(2), 9), 9);
}

#[test]
fn what_cannot_be_paid_is_refused() {
    let ledger = funded();
    let mut pool = Mempool::new();
    assert_eq!(
        pool.add_tx(&ledger, tx(10, 1, 2, 99_001, 1000, 0), true),
        Err(BlockchainError::InsufficientBalance)
    );
    assert_eq!(
        pool.add_tx(&ledger, tx(11, 1, 2, u64::MAX, 1000, 0), true),
        Err(BlockchainError::InsufficientBalance)
    );
    assert_eq!(
        pool.add_tx(&ledger, tx(12, 3, 2, 1, 1000, 0), true),
        Err(BlockchainError::InsufficientBalance)
    );
    assert_eq!(pool.add_tx(&ledger, tx(13, 1, 2, 99_000, 1000, 0), true), Ok(()));
    let mut other = tx(14, 1, 2, 301, 1000, 1);
    other.asset = h(7);
    assert_eq!(pool.add_tx(&ledger, other, true), Err(BlockchainError::InsufficientBalance));
    other.amount = 300;
    other.fee = 100_001;
    assert_eq!(pool.add_tx(&ledger, other, true), Err(BlockchainError::InsufficientBalance));
    other.fee = 100_000;
    assert_eq!(pool.add_tx(&ledger, other, true), Ok(()));
}

#[test]
fn the_other_refusals_and_their_turn() {
    let ledger = funded();
    let mut pool = Mempool::new();
    assert_eq!(MINIMUM_FEE, 1000);
    assert_eq!(
        pool.add_tx(&ledger, tx(10, 1, 2, 500, 1000, 0), false),
        Err(BlockchainError::InvalidSignature)
    );
    assert_eq!(
        pool.add_tx(&ledger, tx(10, 1, 1, 500, 1000, 0), true),
        Err(BlockchainError::InvalidTransaction)
    );
    assert_eq!(
        pool.add_tx(&ledger, tx(10, 1, 2, 500, 999, 0), true),
        Err(BlockchainError::InvalidFee)
    );
    assert_eq!(
        pool.add_tx(&ledger, tx(10, 1, 1, 500, 999, 7), false),
        Err(BlockchainError::InvalidSignature)
    );
    assert_eq!(
        pool.add_tx(&ledger, tx(10, 1, 1, 500, 999, 7), true),
        Err(BlockchainError::InvalidTransaction)
    );
    assert_eq!(
        pool.add_tx(&ledger, tx(10, 1, 2, 500_000, 999, 7), true),
        Err(BlockchainError::InvalidFee)
    );
    assert_eq!(
        pool.add_tx(&ledger, tx(10, 1, 2, 500_000, 1000, 7), true),
        Err(BlockchainError::InvalidNonce)
    );
    assert_eq!(pool.len(), 0);
}

#[test]
fn sorted_transactions_never_rise_in_fee() {
    let ledger = funded();
    let mut pool = Mempool::new();
    assert!(pool.get_sorted_txs().is_empty());
    assert_eq!(pool.add_tx(&ledger, tx(10, 1, 2, 1, 2000, 0), true), Ok(()));
    assert_eq!(pool.add_tx(&ledger, tx(11, 2, 1, 1, 5000, 4), true), Ok(()));
    assert_eq!(pool.add_tx(&ledger, tx(12, 1, 2, 1, 2000, 1), true), Ok(()));
    assert_eq!(pool.add_tx(&ledger, tx(13, 2, 1, 1, 1000, 5), true), Ok(()));
    assert_eq!(pool.add_tx(&ledger, tx(14, 1, 2, 1, 9000, 2), true), Ok(()));
    assert_eq!(pool.add_tx(&ledger, tx(15, 2, 1, 1, 2000, 6), true), Ok(()));
    let sorted = pool.get_sorted_txs();
    let ids: Vec<u64> = sorted.iter().map(|t| t.hash.w3).collect();
    assert_eq!(ids, vec![14, 11, 10, 12, 15, 13]);
    for pair in sorted.windows(2) {
        assert!(pair[0].fee >= pair[1].fee);
    }
    assert_eq!(pool.len(), 6);
    assert_eq!(pool.txs[0].hash, h(10));
}

#[test]
fn included_transactions_leave() {
    let ledger = funded();
    let mut pool = Mempool::new();
    assert_eq!(pool.add_tx(&ledger, tx(10, 1, 2, 1, 2000, 0), true), Ok(()));
    assert_eq!(pool.add_tx(&ledger, tx(11, 2, 1, 1, 5000, 4), true), Ok(()));
    assert_eq!(pool.add_tx(&ledger, tx(12, 1, 2, 1, 2000, 1), true), Ok(()));
    pool.remove_included(&vec![h(11), h(99)]);
    assert_eq!(pool.txs, vec![tx(10, 1, 2, 1, 2000, 0), tx(12, 1, 2, 1, 2000, 1)]);
    pool.remove_included(&Vec::new());
    assert_eq!(pool.len(), 2);
    pool.remove_included(&vec![h(12), h(10)]);
    assert_eq!(pool.len(), 0);
    assert!(hash_listed(&vec![h(1), h(2)], &h(2)));
    assert!(!hash_listed(&vec![h(1), h(2)], &h(3)));
}

#[test]
fn the_pool_is_held_against_a_new_ledger() {
    let ledger = funded();
    let mut pool = Mempool::new();
    assert_eq!(pool.add_tx(&ledger, tx(10, 1, 2, 1, 2000, 0), true), Ok(()));
    assert_eq!(pool.add_tx(&ledger, tx(11, 2, 1, 1, 5000, 4), true), Ok(()));
    assert_eq!(pool.add_tx(&ledger, tx(12, 1, 2, 1, 2000, 1), true), Ok(()));
    assert_eq!(pool.add_tx(&ledger, tx(13, 2, 1, 1, 5000, 5), true), Ok(()));
    let mut moved = funded();
    moved.apply_block(
        h(901),
        0,
        &vec![
            Effect::Nonce { account: h(1), nonce: 1 },
            Effect::Balance { account: h(2), asset: native(), balance: 5001 },
        ],
    );
    let returned = vec![tx(20, 3, 1, 1, 1000, 0), tx(21, 2, 1, 1, 1000, 5), tx(22, 1, 2, 5, 1000, 2)];
    pool.reconcile(&moved, &returned, &vec![h(13), h(77)]);
    assert_eq!(
        pool.txs,
        vec![
            tx(11, 2, 1, 1, 5000, 4),
            tx(12, 1, 2, 1, 2000, 1),
            tx(21, 2, 1, 1, 1000, 5),
            tx(22, 1, 2, 5, 1000, 2),
        ]
    );
}

#[test]
fn running_values_follow_the_last_effect() {
    let ledger = funded();
    let key = Key { account: h(1), asset: native() };
    let nonce_key = Key { account: h(2), asset: native() };
    assert_eq!(running_value(&ledger.balances, &Vec::new(), &key, true), 100_000);
    assert_eq!(running_value(&ledger.nonces, &Vec::new(), &nonce_key, false), 4);
    let effects = vec![
        Effect::Balance { account: h(1), asset: native(), balance: 7 },
        Effect::Nonce { account: h(1), nonce: 3 },
        Effect::Balance { account: h(1), asset: native(), balance: 9 },
        Effect::Balance { account: h(2), asset: native(), balance: 1 },
        Effect::Nonce { account: h(2), nonce: 5 },
    ];
    assert_eq!(running_value(&ledger.balances, &effects, &key, true), 9);
    assert_eq!(running_value(&ledger.nonces, &effects, &key, false), 3);
    assert_eq!(running_value(&ledger.nonces, &effects, &nonce_key, false), 5);
    let unknown = Key { account: h(5), asset: native() };
    assert_eq!(running_value(&ledger.balances, &effects, &unknown, true), 0);
}

#[test]
fn the_effects_of_a_block() {
    let ledger = funded();
    let mut other = tx(12, 1, 3, 100, 1000, 1);
    other.asset = h(7);
    let txs = vec![
        tx(10, 1, 2, 500, 1000, 0),
        tx(11, 2, 1, 1, 1000, 7),
        other,
        tx(13, 1, 2, 1_000_000, 1000, 2),
        tx(14, 2, 2, 1, 1000, 4),
        tx(15, 2, 9, 50_500, 1000, 4),
        tx(16, 2, 9, 49_500, 1000, 4),
    ];
    let effects = compute_effects(&ledger, &txs, h(9), 5000);
    assert_eq!(
        effects,
        vec![
            Effect::Nonce { account: h(1), nonce: 1 },
            Effect::Balance { account: h(1), asset: native(), balance: 98_500 },
            Effect::Balance { account: h(2), asset: native(), balance: 50_500 },
            Effect::Nonce { account: h(1), nonce: 2 },
            Effect::Balance { account: h(1), asset: h(7), balance: 200 },
            Effect::Balance { account: h(1), asset: native(), balance: 97_500 },
            Effect::Balance { account: h(3), asset: h(7), balance: 100 },
            Effect::Nonce { account: h(2), nonce: 5 },
            Effect::Balance { account: h(2), asset: native(), balance: 0 },
            Effect::Balance { account: h(9), asset: native(), balance: 49_500 },
            Effect::Balance { account: h(9), asset: native(), balance: 57_500 },
        ]
    );
}

#[test]
fn a_block_without_transactions_pays_the_reward() {
    let ledger = funded();
    assert_eq!(
        compute_effects(&ledger, &Vec::new(), h(1), 5000),
        vec![Effect::Balance { account: h(1), asset: native(), balance: 105_000 }]
    );
    assert_eq!(
        compute_effects(&Ledger::new(), &Vec::new(), h(1), 5000),
        vec![Effect::Balance { account: h(1), asset: native(), balance: 5000 }]
    );
}
