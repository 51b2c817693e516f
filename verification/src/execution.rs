//! What a block does to the account state: which of its transactions take
//! effect, and what they and the reward change.

use crate::ledger::{
    current_value, effect_on, nonce_key, Effect, Key, Ledger, LedgerView, Version, VersionedStore,
};
use crate::mempool::{can_pay, native_asset, Transaction};
use crate::types::Hash256;
use vstd::prelude::*;

verus! {

/// The value that holds for `key` once `effects` have come over `versions`:
/// that of the last effect on the key, else the last of the versions.
pub open spec fn running(versions: Seq<Version>, effects: Seq<Effect>, key: Key, balances: bool) -> u64
    decreases effects.len(),
{
    if effects.len() == 0 {
        current_value(versions)
    } else {
        match effect_on(effects.last(), key, balances) {
            Some(value) => value,
            None => running(versions, effects.drop_last(), key, balances),
        }
    }
}

/// The balance of the account in the asset once `done` has come over the
/// state.
pub open spec fn running_balance(
    view: LedgerView,
    done: Seq<Effect>,
    account: Hash256,
    asset: Hash256,
) -> u64 {
    running(view.balances[Key { account, asset }], done, Key { account, asset }, true)
}

/// The nonce of the account once `done` has come over the state.
pub open spec fn running_nonce(view: LedgerView, done: Seq<Effect>, account: Hash256) -> u64 {
    running(view.nonces[nonce_key(account)], done, nonce_key(account), false)
}

/// Whether the transaction takes effect once `done` has come over the
/// state: it does not pay its own sender, carries the nonce of its sender,
/// which has a successor, can be paid, and what it pays fits into the
/// balance of the recipient.
pub open spec fn takes_effect(view: LedgerView, done: Seq<Effect>, tx: Transaction) -> bool {
    &&& tx.sender != tx.recipient
    &&& tx.nonce == running_nonce(view, done, tx.sender)
    &&& tx.nonce < u64::MAX
    &&& can_pay(
        tx,
        running_balance(view, done, tx.sender, tx.asset),
        running_balance(view, done, tx.sender, native_asset()),
    )
    &&& running_balance(view, done, tx.recipient, tx.asset) + tx.amount <= u64::MAX
}

/// The effects of the transaction once `done` has come over the state: none
/// where it does not take effect; else the next nonce of the sender, what is
/// left to the sender, and what the recipient holds with the amount.
pub open spec fn tx_effects(view: LedgerView, done: Seq<Effect>, tx: Transaction) -> Seq<Effect> {
    let paid = running_balance(view, done, tx.sender, tx.asset);
    let native = running_balance(view, done, tx.sender, native_asset());
    let got = running_balance(view, done, tx.recipient, tx.asset);
    if !takes_effect(view, done, tx) {
        Seq::empty()
    } else if tx.asset == native_asset() {
        seq![
            Effect::Nonce { account: tx.sender, nonce: (tx.nonce + 1) as u64 },
            Effect::Balance {
                account: tx.sender,
                asset: tx.asset,
                balance: (paid - tx.amount - tx.fee) as u64,
            },
            Effect::Balance {
                account: tx.recipient,
                asset: tx.asset,
                balance: (got + tx.amount) as u64,
            },
        ]
    } else {
        seq![
            Effect::Nonce { account: tx.sender, nonce: (tx.nonce + 1) as u64 },
            Effect::Balance {
                account: tx.sender,
                asset: tx.asset,
                balance: (paid - tx.amount) as u64,
            },
            Effect::Balance {
                account: tx.sender,
                asset: native_asset(),
                balance: (native - tx.fee) as u64,
            },
            Effect::Balance {
                account: tx.recipient,
                asset: tx.asset,
                balance: (got + tx.amount) as u64,
            },
        ]
    }
}

/// The effects of the transactions, each on the state as the ones before it
/// leave it.
pub open spec fn txs_effects(view: LedgerView, txs: Seq<Transaction>) -> Seq<Effect>
    decreases txs.len(),
{
    if txs.len() == 0 {
        Seq::empty()
    } else {
        let done = txs_effects(view, txs.drop_last());
        done + tx_effects(view, done, txs.last())
    }
}

/// The fees of the transactions that take effect.
pub open spec fn fees_collected(view: LedgerView, txs: Seq<Transaction>) -> int
    decreases txs.len(),
{
    if txs.len() == 0 {
        0
    } else {
        let done = txs_effects(view, txs.drop_last());
        fees_collected(view, txs.drop_last()) + if takes_effect(view, done, txs.last()) {
            txs.last().fee as int
        } else {
            0
        }
    }
}

/// What the miner holds of the native asset after the block: what it held,
/// the reward and the fees collected, and at most what 64 bits hold.
pub open spec fn miner_balance(held: u64, reward: u64, fees: int) -> u64 {
    if held + reward + fees > u64::MAX {
        u64::MAX
    } else {
        (held + reward + fees) as u64
    }
}

/// The effects of a block: those of its transactions, in their order, and
/// then what the miner holds with the reward and the fees.
pub open spec fn block_effects(
    view: LedgerView,
    txs: Seq<Transaction>,
    miner: Hash256,
    reward: u64,
) -> Seq<Effect> {
    let done = txs_effects(view, txs);
    done.push(
        Effect::Balance {
            account: miner,
            asset: native_asset(),
            balance: miner_balance(
                running_balance(view, done, miner, native_asset()),
                reward,
                fees_collected(view, txs),
            ),
        },
    )
}

/// Computes `running` over a store.
pub fn running_value(store: &VersionedStore, effects: &Vec<Effect>, key: &Key, balances: bool) -> (value:
    u64)
    requires
        store.wf(),
    ensures
        value == running(store.history(*key), effects@, *key, balances),
{
    let mut k: usize = effects.len();
    assert(effects@.take(k as int) == effects@);
    while k > 0
        invariant
            store.wf(),
            k <= effects@.len(),
            running(store.history(*key), effects@, *key, balances) == running(
                store.history(*key),
                effects@.take(k as int),
                *key,
                balances,
            ),
        decreases k,
    {
        assert(effects@.take(k as int).drop_last() == effects@.take(k - 1));
        assert(effects@.take(k as int).last() == effects@[k - 1]);
        match effects[k - 1] {
            Effect::Balance { account, asset, balance } => {
                if balances && key.account == account && key.asset == asset {
                    return balance;
                }
            },
            Effect::Nonce { account, nonce } => {
                if !balances && key.account == account && key.asset == Hash256::zero() {
                    return nonce;
                }
            },
        }
        k -= 1;
    }
    match store.last_version(key) {
        Some(v) => v.value,
        None => 0,
    }
}

/// Computes `block_effects` on the state that `ledger` holds.
pub fn compute_effects(ledger: &Ledger, txs: &Vec<Transaction>, miner: Hash256, reward: u64) -> (effects:
    Vec<Effect>)
    requires
        ledger.wf(),
    ensures
        effects@ == block_effects(ledger@, txs@, miner, reward),
{
    let native: Hash256 = Hash256::zero();
    let mut effects: Vec<Effect> = Vec::new();
    let mut fees: u128 = 0;
    let mut i: usize = 0;
    while i < txs.len()
        invariant
            ledger.wf(),
            native == native_asset(),
            i <= txs@.len(),
            effects@ == txs_effects(ledger@, txs@.take(i as int)),
            fees == fees_collected(ledger@, txs@.take(i as int)),
            fees <= i * 0xffff_ffff_ffff_ffff,
        decreases txs@.len() - i,
    {
        assert(txs@.take(i + 1).drop_last() == txs@.take(i as int));
        assert(txs@.take(i + 1).last() == txs@[i as int]);
        let ghost done = effects@;
        let tx: Transaction = txs[i];
        let sender_key = Key { account: tx.sender, asset: tx.asset };
        let native_key = Key { account: tx.sender, asset: native };
        let recipient_key = Key { account: tx.recipient, asset: tx.asset };
        let nonce_at = Key { account: tx.sender, asset: native };
        let nonce: u64 = running_value(&ledger.nonces, &effects, &nonce_at, false);
        let paid: u64 = running_value(&ledger.balances, &effects, &sender_key, true);
        let held: u64 = running_value(&ledger.balances, &effects, &native_key, true);
        let got: u64 = running_value(&ledger.balances, &effects, &recipient_key, true);
        let payable: bool = if tx.asset == native {
            tx.fee <= paid && tx.amount <= paid - tx.fee
        } else {
            tx.amount <= paid && tx.fee <= held
        };
        if tx.sender != tx.recipient && tx.nonce == nonce && tx.nonce < u64::MAX && payable
            && tx.amount <= u64::MAX - got {
            assert(takes_effect(ledger@, done, tx));
            effects.push(Effect::Nonce { account: tx.sender, nonce: tx.nonce + 1 });
            if tx.asset == native {
                effects.push(
                    Effect::Balance {
                        account: tx.sender,
                        asset: tx.asset,
                        balance: paid - tx.amount - tx.fee,
                    },
                );
            } else {
                effects.push(
                    Effect::Balance { account: tx.sender, asset: tx.asset, balance: paid - tx.amount },
                );
                effects.push(
                    Effect::Balance { account: tx.sender, asset: native, balance: held - tx.fee },
                );
            }
            effects.push(
                Effect::Balance { account: tx.recipient, asset: tx.asset, balance: got + tx.amount },
            );
            fees = fees + tx.fee as u128;
            assert(effects@ =~= done + tx_effects(ledger@, done, tx));
        } else {
            assert(!takes_effect(ledger@, done, tx));
            assert(effects@ =~= done + tx_effects(ledger@, done, tx));
        }
        i += 1;
    }
    assert(txs@.take(i as int) == txs@);
    let miner_key = Key { account: miner, asset: native };
    let held: u64 = running_value(&ledger.balances, &effects, &miner_key, true);
    let total: u128 = held as u128 + reward as u128 + fees;
    let balance: u64 = if total > u64::MAX as u128 {
        u64::MAX
    } else {
        total as u64
    };
    effects.push(Effect::Balance { account: miner, asset: native, balance });
    effects
}

} // verus!
