//! The account state: for every account and asset the balances it had, and
//! for every account the nonces it had, each with the topoheight from which
//! it held; and the supply minted and the reward paid at every topoheight.

use crate::types::{BlockchainError, Hash256};
use vstd::prelude::*;

verus! {

/// What a history is kept for: an account and an asset.
#[derive(Clone, Copy, Debug, PartialEq, Eq, Structural)]
pub struct Key {
    pub account: Hash256,
    pub asset: Hash256,
}

/// A value and the topoheight from which it held.
#[derive(Clone, Copy, Debug, PartialEq, Eq, Structural)]
pub struct Version {
    pub topoheight: u64,
    pub value: u64,
}

/// The versions recorded for one key, the oldest first.
#[derive(Debug)]
pub struct History {
    pub key: Key,
    pub versions: Vec<Version>,
}

/// Histories by key.
#[derive(Debug)]
pub struct VersionedStore {
    pub entries: Vec<History>,
}

/// The topoheights of the versions ascend strictly: no two versions share
/// one.
pub open spec fn ascending(versions: Seq<Version>) -> bool {
    forall|i: int, j: int|
        0 <= i < j < versions.len() ==> (#[trigger] versions[i]).topoheight < (
        #[trigger] versions[j]).topoheight
}

/// Every version is of a topoheight below `limit`.
pub open spec fn all_below(versions: Seq<Version>, limit: int) -> bool {
    forall|i: int| 0 <= i < versions.len() ==> (#[trigger] versions[i]).topoheight < limit
}

/// The versions recorded for `key` among `entries`; none where it has no
/// entry.
pub open spec fn history_in(entries: Seq<History>, key: Key) -> Seq<Version>
    decreases entries.len(),
{
    if entries.len() == 0 {
        Seq::empty()
    } else if entries.last().key == key {
        entries.last().versions@
    } else {
        history_in(entries.drop_last(), key)
    }
}

/// No two entries are for the same key.
pub open spec fn keys_distinct(entries: Seq<History>) -> bool {
    forall|i: int, j: int|
        0 <= i < entries.len() && 0 <= j < entries.len() && i != j ==> (#[trigger] entries[i]).key
            != (#[trigger] entries[j]).key
}

/// The versions with `value` recorded at `topoheight`: in place of the last
/// version where that is of the same topoheight, else after it.
pub open spec fn written(versions: Seq<Version>, topoheight: u64, value: u64) -> Seq<Version> {
    if versions.len() > 0 && versions.last().topoheight == topoheight {
        versions.drop_last().push(Version { topoheight, value })
    } else {
        versions.push(Version { topoheight, value })
    }
}

/// The versions without those at the end that are of a topoheight above
/// `topoheight`.
pub open spec fn upto(versions: Seq<Version>, topoheight: u64) -> Seq<Version>
    decreases versions.len(),
{
    if versions.len() > 0 && versions.last().topoheight > topoheight {
        upto(versions.drop_last(), topoheight)
    } else {
        versions
    }
}

/// Of ascending versions `upto` keeps exactly those of a topoheight at or
/// below the bound, in their places.
pub proof fn lemma_upto(versions: Seq<Version>, topoheight: u64)
    requires
        ascending(versions),
    ensures
        upto(versions, topoheight).len() <= versions.len(),
        upto(versions, topoheight) == versions.take(upto(versions, topoheight).len() as int),
        forall|i: int|
            0 <= i < versions.len() ==> (i < upto(versions, topoheight).len() <==> (
            #[trigger] versions[i]).topoheight <= topoheight),
    decreases versions.len(),
{
    if versions.len() > 0 && versions.last().topoheight > topoheight {
        let front = versions.drop_last();
        lemma_upto(front, topoheight);
        let kept = upto(front, topoheight);
        assert(front.take(kept.len() as int) == versions.take(kept.len() as int));
        assert forall|i: int| 0 <= i < versions.len() implies (i < kept.len() <==> (
        #[trigger] versions[i]).topoheight <= topoheight) by {
            if i < front.len() {
                assert(front[i] == versions[i]);
            }
        }
    } else {
        assert(versions.take(versions.len() as int) == versions);
        if versions.len() > 0 {
            assert forall|i: int| 0 <= i < versions.len() implies (#[trigger] versions[i]).topoheight
                <= topoheight by {
                if i < versions.len() - 1 {
                    assert(versions[i].topoheight < versions[versions.len() - 1].topoheight);
                }
            }
        }
    }
}

/// The history of the key of an entry is what the entry holds.
pub proof fn lemma_history_found(entries: Seq<History>, i: int)
    requires
        keys_distinct(entries),
        0 <= i < entries.len(),
    ensures
        history_in(entries, entries[i].key) == entries[i].versions@,
    decreases entries.len(),
{
    if i < entries.len() - 1 {
        let front = entries.drop_last();
        assert(entries[entries.len() - 1].key != entries[i].key);
        assert(front[i] == entries[i]);
        lemma_history_found(front, i);
    }
}

/// A key without an entry has no history.
pub proof fn lemma_history_absent(entries: Seq<History>, key: Key)
    requires
        forall|j: int| 0 <= j < entries.len() ==> (#[trigger] entries[j]).key != key,
    ensures
        history_in(entries, key) == Seq::<Version>::empty(),
    decreases entries.len(),
{
    if entries.len() > 0 {
        let front = entries.drop_last();
        assert(entries[entries.len() - 1].key != key);
        assert(forall|j: int| 0 <= j < front.len() ==> front[j] == entries[j]);
        lemma_history_absent(front, key);
    }
}

/// Where two lists of entries have the same keys in the same places, and the
/// entries for `key` hold the same, the history of `key` is the same.
pub proof fn lemma_history_same(first: Seq<History>, second: Seq<History>, key: Key)
    requires
        first.len() == second.len(),
        forall|j: int| 0 <= j < first.len() ==> (#[trigger] first[j]).key == second[j].key,
        forall|j: int|
            0 <= j < first.len() && (#[trigger] first[j]).key == key ==> first[j].versions@
                == second[j].versions@,
    ensures
        history_in(first, key) == history_in(second, key),
    decreases first.len(),
{
    if first.len() > 0 {
        let n = first.len() - 1;
        assert(first[n].key == second[n].key);
        assert(forall|j: int| 0 <= j < n ==> first.drop_last()[j] == first[j]);
        assert(forall|j: int| 0 <= j < n ==> second.drop_last()[j] == second[j]);
        lemma_history_same(first.drop_last(), second.drop_last(), key);
    }
}

/// Where every entry of `second` holds what the entry of `first` in its
/// place holds up to a topoheight, every history in `second` is the history
/// in `first` up to that topoheight.
pub proof fn lemma_history_upto(
    first: Seq<History>,
    second: Seq<History>,
    key: Key,
    topoheight: u64,
)
    requires
        first.len() == second.len(),
        forall|j: int| 0 <= j < first.len() ==> (#[trigger] first[j]).key == second[j].key,
        forall|j: int|
            0 <= j < first.len() ==> (#[trigger] second[j]).versions@ == upto(
                first[j].versions@,
                topoheight,
            ),
    ensures
        history_in(second, key) == upto(history_in(first, key), topoheight),
    decreases first.len(),
{
    if first.len() > 0 {
        let n = first.len() - 1;
        assert(first[n].key == second[n].key);
        assert(second[n].versions@ == upto(first[n].versions@, topoheight));
        assert(forall|j: int| 0 <= j < n ==> first.drop_last()[j] == first[j]);
        assert(forall|j: int| 0 <= j < n ==> second.drop_last()[j] == second[j]);
        lemma_history_upto(first.drop_last(), second.drop_last(), key, topoheight);
    }
}

impl VersionedStore {
    /// The versions recorded for `key`, the oldest first.
    pub open spec fn history(&self, key: Key) -> Seq<Version> {
        history_in(self.entries@, key)
    }

    /// The store is well formed: one entry for a key, and in every entry
    /// the topoheights ascend strictly.
    pub open spec fn wf(&self) -> bool {
        &&& keys_distinct(self.entries@)
        &&& forall|i: int|
            0 <= i < self.entries@.len() ==> ascending((#[trigger] self.entries@[i]).versions@)
    }

    /// Every version in the store is of a topoheight below `limit`.
    pub open spec fn below(&self, limit: int) -> bool {
        forall|i: int|
            0 <= i < self.entries@.len() ==> all_below(
                (#[trigger] self.entries@[i]).versions@,
                limit,
            )
    }

    /// The store without a version.
    pub fn new() -> (store: VersionedStore)
        ensures
            store.wf(),
            store.entries@.len() == 0,
            forall|key: Key| #[trigger] store.history(key) == Seq::<Version>::empty(),
            forall|limit: int| #[trigger] store.below(limit),
    {
        VersionedStore { entries: Vec::new() }
    }

    /// In a well-formed store every history ascends; in one below a limit
    /// every history is below it.
    pub proof fn lemma_history(&self, key: Key)
        requires
            self.wf(),
        ensures
            ascending(self.history(key)),
            forall|limit: int| self.below(limit) ==> all_below(#[trigger] self.history(key), limit),
            self.history(key).len() > 0 ==> exists|i: int|
                0 <= i < self.entries@.len() && (#[trigger] self.entries@[i]).key == key,
    {
        if exists|i: int| 0 <= i < self.entries@.len() && (#[trigger] self.entries@[i]).key == key {
            let i = choose|i: int|
                0 <= i < self.entries@.len() && (#[trigger] self.entries@[i]).key == key;
            lemma_history_found(self.entries@, i);
        } else {
            lemma_history_absent(self.entries@, key);
        }
    }

    /// The place of the entry for `key`.
    pub fn find(&self, key: &Key) -> (r: Option<usize>)
        requires
            self.wf(),
        ensures
            match r {
                Some(i) => i < self.entries@.len() && self.entries@[i as int].key == *key
                    && self.entries@[i as int].versions@ == self.history(*key),
                None => (forall|j: int|
                    0 <= j < self.entries@.len() ==> (#[trigger] self.entries@[j]).key != *key)
                    && self.history(*key) == Seq::<Version>::empty(),
            },
    {
        let mut i: usize = 0;
        while i < self.entries.len()
            invariant
                self.wf(),
                i <= self.entries@.len(),
                forall|j: int| 0 <= j < i ==> (#[trigger] self.entries@[j]).key != *key,
            decreases self.entries@.len() - i,
        {
            if self.entries[i].key == *key {
                proof {
                    lemma_history_found(self.entries@, i as int);
                }
                return Some(i);
            }
            i += 1;
        }
        proof {
            lemma_history_absent(self.entries@, *key);
        }
        None
    }

    /// The last version recorded for `key`, if there is one.
    pub fn last_version(&self, key: &Key) -> (r: Option<Version>)
        requires
            self.wf(),
        ensures
            self.history(*key).len() == 0 ==> r is None,
            self.history(*key).len() > 0 ==> r == Some(self.history(*key).last()),
    {
        match self.find(key) {
            Some(i) => {
                let n: usize = self.entries[i].versions.len();
                if n == 0 {
                    None
                } else {
                    Some(self.entries[i].versions[n - 1])
                }
            },
            None => None,
        }
    }

    /// The version recorded for `key` at exactly `topoheight`, if there is
    /// one: a topoheight between two versions has none. The versions ascend,
    /// so the search halves what is left at each step.
    pub fn version_at(&self, key: &Key, topoheight: u64) -> (r: Option<Version>)
        requires
            self.wf(),
        ensures
            match r {
                Some(v) => v.topoheight == topoheight && self.history(*key).contains(v),
                None => forall|k: int|
                    0 <= k < self.history(*key).len() ==> (#[trigger] self.history(
                        *key,
                    )[k]).topoheight != topoheight,
            },
    {
        match self.find(key) {
            Some(i) => {
                let ghost versions = self.history(*key);
                let mut low: usize = 0;
                let mut high: usize = self.entries[i].versions.len();
                while low < high
                    invariant
                        i < self.entries@.len(),
                        self.entries@[i as int].versions@ == versions,
                        versions == self.history(*key),
                        ascending(versions),
                        low <= high <= versions.len(),
                        forall|l: int|
                            0 <= l < low ==> (#[trigger] versions[l]).topoheight < topoheight,
                        forall|l: int|
                            high <= l < versions.len() ==> (#[trigger] versions[l]).topoheight
                                > topoheight,
                    decreases high - low,
                {
                    let mid: usize = low + (high - low) / 2;
                    let v: Version = self.entries[i].versions[mid];
                    if v.topoheight == topoheight {
                        assert(versions[mid as int] == v);
                        return Some(v);
                    } else if v.topoheight < topoheight {
                        assert forall|l: int| 0 <= l < mid + 1 implies (
                        #[trigger] versions[l]).topoheight < topoheight by {
                            if l < mid {
                                assert(versions[l].topoheight < versions[mid as int].topoheight);
                            }
                        }
                        low = mid + 1;
                    } else {
                        assert forall|l: int| mid <= l < versions.len() implies (
                        #[trigger] versions[l]).topoheight > topoheight by {
                            if l > mid {
                                assert(versions[mid as int].topoheight < versions[l].topoheight);
                            }
                        }
                        high = mid;
                    }
                }
                None
            },
            None => None,
        }
    }

    /// Records `value` for `key` at `topoheight`: in place of the last
    /// version of the key where that is of the same topoheight, else as a new
    /// last version. No other key is touched.
    pub fn write(&mut self, key: Key, topoheight: u64, value: u64)
        requires
            old(self).wf(),
            old(self).below(topoheight + 1),
        ensures
            final(self).wf(),
            final(self).below(topoheight + 1),
            final(self).history(key) == written(old(self).history(key), topoheight, value),
            forall|other: Key|
                other != key ==> #[trigger] final(self).history(other) == old(self).history(other),
    {
        let ghost before = self.entries@;
        let version = Version { topoheight, value };
        match self.find(&key) {
            Some(i) => {
                let n: usize = self.entries[i].versions.len();
                if n > 0 && self.entries[i].versions[n - 1].topoheight == topoheight {
                    self.entries[i].versions.set(n - 1, version);
                    assert(self.entries@[i as int].versions@ =~= written(
                        before[i as int].versions@,
                        topoheight,
                        value,
                    ));
                } else {
                    self.entries[i].versions.push(version);
                }
                proof {
                    let after = self.entries@;
                    assert(after.len() == before.len());
                    assert(forall|j: int| 0 <= j < after.len() && j != i ==> after[j] == before[j]);
                    assert(after[i as int].key == key);
                    assert(keys_distinct(after)) by {
                        assert forall|a: int, b: int|
                            0 <= a < after.len() && 0 <= b < after.len() && a != b implies (
                        #[trigger] after[a]).key != (#[trigger] after[b]).key by {
                            assert(before[a].key == after[a].key);
                            assert(before[b].key == after[b].key);
                        }
                    }
                    let old_versions = before[i as int].versions@;
                    let new_versions = after[i as int].versions@;
                    assert(all_below(old_versions, topoheight + 1));
                    assert(ascending(old_versions));
                    assert(ascending(new_versions)) by {
                        assert forall|a: int, b: int| 0 <= a < b < new_versions.len() implies (
                        #[trigger] new_versions[a]).topoheight < (
                        #[trigger] new_versions[b]).topoheight by {
                            if b < new_versions.len() - 1 {
                                assert(old_versions[a].topoheight < old_versions[b].topoheight);
                            } else if n > 0 && old_versions[n - 1].topoheight == topoheight {
                                assert(old_versions[a].topoheight < old_versions[b].topoheight);
                            } else {
                                assert(old_versions[a].topoheight <= topoheight);
                                if n > 0 {
                                    assert(a <= n - 1);
                                    if a < n - 1 {
                                        assert(old_versions[a].topoheight < old_versions[n
                                            - 1].topoheight);
                                    }
                                }
                            }
                        }
                    }
                    assert(all_below(new_versions, topoheight + 1)) by {
                        assert forall|a: int| 0 <= a < new_versions.len() implies (
                        #[trigger] new_versions[a]).topoheight < topoheight + 1 by {
                            if a < new_versions.len() - 1 {
                                assert(old_versions[a].topoheight < topoheight + 1);
                            }
                        }
                    }
                    lemma_history_found(after, i as int);
                    assert forall|other: Key| other != key implies #[trigger] history_in(
                        after,
                        other,
                    ) == history_in(before, other) by {
                        lemma_history_same(before, after, other);
                    }
                }
            },
            None => {
                let mut versions: Vec<Version> = Vec::new();
                versions.push(version);
                self.entries.push(History { key, versions });
                proof {
                    let after = self.entries@;
                    assert(after.drop_last() == before);
                    assert(after.last().versions@ =~= written(
                        Seq::<Version>::empty(),
                        topoheight,
                        value,
                    ));
                    assert(forall|j: int| 0 <= j < before.len() ==> after[j] == before[j]);
                }
            },
        }
    }

    /// Discards the versions of a topoheight above `topoheight`, in every
    /// history.
    pub fn rollback_to(&mut self, topoheight: u64)
        requires
            old(self).wf(),
        ensures
            final(self).wf(),
            final(self).below(topoheight + 1),
            forall|key: Key| #[trigger]
                final(self).history(key) == upto(old(self).history(key), topoheight),
    {
        let ghost before = self.entries@;
        let mut i: usize = 0;
        while i < self.entries.len()
            invariant
                old(self).wf(),
                before == old(self).entries@,
                i <= self.entries@.len(),
                self.entries@.len() == before.len(),
                forall|j: int| 0 <= j < before.len() ==> (#[trigger] self.entries@[j]).key
                    == before[j].key,
                forall|j: int|
                    0 <= j < i ==> (#[trigger] self.entries@[j]).versions@ == upto(
                        before[j].versions@,
                        topoheight,
                    ),
                forall|j: int| i <= j < before.len() ==> (#[trigger] self.entries@[j]) == before[j],
            decreases self.entries@.len() - i,
        {
            let ghost start = self.entries@;
            while self.entries[i].versions.len() > 0 && self.entries[i].versions[self.entries[i].versions.len()
                - 1].topoheight > topoheight
                invariant
                    i < self.entries@.len(),
                    self.entries@.len() == start.len(),
                    forall|j: int| 0 <= j < start.len() && j != i ==> (#[trigger] self.entries@[j])
                        == start[j],
                    self.entries@[i as int].key == start[i as int].key,
                    upto(self.entries@[i as int].versions@, topoheight) == upto(
                        start[i as int].versions@,
                        topoheight,
                    ),
                decreases self.entries@[i as int].versions@.len(),
            {
                self.entries[i].versions.pop();
            }
            i += 1;
        }
        proof {
            let after = self.entries@;
            assert forall|key: Key| #[trigger]
                history_in(after, key) == upto(history_in(before, key), topoheight) by {
                lemma_history_upto(before, after, key, topoheight);
            }
            assert forall|j: int| 0 <= j < after.len() implies ascending(
                (#[trigger] after[j]).versions@,
            ) && all_below(after[j].versions@, topoheight + 1) by {
                lemma_upto(before[j].versions@, topoheight);
                let kept = after[j].versions@;
                assert forall|a: int, b: int| 0 <= a < b < kept.len() implies (
                #[trigger] kept[a]).topoheight < (#[trigger] kept[b]).topoheight by {
                    assert(before[j].versions@[a].topoheight < before[j].versions@[b].topoheight);
                }
                assert forall|a: int| 0 <= a < kept.len() implies (#[trigger] kept[a]).topoheight
                    < topoheight + 1 by {
                    assert(before[j].versions@[a].topoheight <= topoheight);
                }
            }
            assert(keys_distinct(after)) by {
                assert forall|a: int, b: int|
                    0 <= a < after.len() && 0 <= b < after.len() && a != b implies (
                #[trigger] after[a]).key != (#[trigger] after[b]).key by {
                    assert(before[a].key == after[a].key);
                    assert(before[b].key == after[b].key);
                }
            }
        }
    }
}

/// The most that is ever minted, in the smallest unit.
pub const MAX_SUPPLY: u64 = 1_840_000_000_000;

/// The part of what is left to mint that a block mints, as a divisor.
pub const EMISSION_DIVISOR: u64 = 1_048_576;

/// The reward of a block that comes when `supply` has been minted.
pub open spec fn reward_at(supply: u64) -> int {
    if supply >= MAX_SUPPLY {
        0
    } else {
        (MAX_SUPPLY - supply) / (EMISSION_DIVISOR as int)
    }
}

/// Computes `reward_at`. With it the supply never passes `MAX_SUPPLY`.
pub fn block_reward(supply: u64) -> (reward: u64)
    ensures
        reward == reward_at(supply),
        supply <= MAX_SUPPLY ==> supply + reward <= MAX_SUPPLY,
{
    if supply >= MAX_SUPPLY {
        0
    } else {
        (MAX_SUPPLY - supply) / EMISSION_DIVISOR
    }
}

/// What is recorded of a block at its topoheight: its hash, the reward it
/// paid and the supply minted with it.
#[derive(Clone, Copy, Debug, PartialEq, Eq, Structural)]
pub struct AppliedBlock {
    pub hash: Hash256,
    pub reward: u64,
    pub supply: u64,
}

/// One change that a block makes to the account state.
#[derive(Clone, Copy, Debug, PartialEq, Eq, Structural)]
pub enum Effect {
    /// The account holds `balance` of the asset from this block on.
    Balance { account: Hash256, asset: Hash256, balance: u64 },
    /// The next transaction of the account carries `nonce`.
    Nonce { account: Hash256, nonce: u64 },
}

/// The key under which the nonces of an account are kept.
pub open spec fn nonce_key(account: Hash256) -> Key {
    Key { account, asset: Hash256 { w0: 0, w1: 0, w2: 0, w3: 0 } }
}

/// The value that `effect` gives to `key`, among the balances or among the
/// nonces; `None` where it does not touch the key.
pub open spec fn effect_on(effect: Effect, key: Key, balances: bool) -> Option<u64> {
    match effect {
        Effect::Balance { account, asset, balance } => if balances && key == (Key {
            account,
            asset,
        }) {
            Some(balance)
        } else {
            None
        },
        Effect::Nonce { account, nonce } => if !balances && key == nonce_key(account) {
            Some(nonce)
        } else {
            None
        },
    }
}

/// The versions of `key` once `effects` have been recorded at `topoheight`,
/// in their order: a later effect on the same key replaces an earlier one.
pub open spec fn after_effects(
    versions: Seq<Version>,
    effects: Seq<Effect>,
    key: Key,
    balances: bool,
    topoheight: u64,
) -> Seq<Version>
    decreases effects.len(),
{
    if effects.len() == 0 {
        versions
    } else {
        let before = after_effects(versions, effects.drop_last(), key, balances, topoheight);
        match effect_on(effects.last(), key, balances) {
            Some(value) => written(before, topoheight, value),
            None => before,
        }
    }
}

/// The supply minted below topoheight `t`.
pub open spec fn supply_below(applied: Seq<AppliedBlock>, t: int) -> int {
    if t <= 0 {
        0
    } else {
        applied[t - 1].supply as int
    }
}

/// The account state with what is recorded of the blocks that made it, by
/// topoheight.
#[derive(Debug)]
pub struct Ledger {
    pub balances: VersionedStore,
    pub nonces: VersionedStore,
    pub applied: Vec<AppliedBlock>,
}

impl Ledger {
    /// The number of blocks applied: the topoheight that the next block
    /// gets.
    pub open spec fn spec_len(&self) -> nat {
        self.applied@.len()
    }

    /// The balances that the account had of the asset, the oldest first.
    pub open spec fn balance_history(&self, account: Hash256, asset: Hash256) -> Seq<Version> {
        self.balances.history(Key { account, asset })
    }

    /// The nonces that the account had, the oldest first.
    pub open spec fn nonce_history(&self, account: Hash256) -> Seq<Version> {
        self.nonces.history(nonce_key(account))
    }

    /// The supply minted by the blocks applied.
    pub open spec fn supply(&self) -> int {
        supply_below(self.applied@, self.applied@.len() as int)
    }

    /// The ledger is well formed: every history ascends strictly by
    /// topoheight and holds no version of a topoheight that no block has;
    /// the supply grows by the reward of each block and stays within
    /// `MAX_SUPPLY`.
    pub open spec fn wf(&self) -> bool {
        &&& self.balances.wf()
        &&& self.nonces.wf()
        &&& self.balances.below(self.applied@.len() as int)
        &&& self.nonces.below(self.applied@.len() as int)
        &&& self.applied@.len() <= u64::MAX
        &&& forall|t: int|
            0 <= t < self.applied@.len() ==> (#[trigger] self.applied@[t]).supply == supply_below(
                self.applied@,
                t,
            ) + self.applied@[t].reward && self.applied@[t].supply <= MAX_SUPPLY
    }

    /// The ledger of no block.
    pub fn new() -> (ledger: Ledger)
        ensures
            ledger.wf(),
            ledger.applied@.len() == 0,
            forall|key: Key| #[trigger] ledger.balances.history(key) == Seq::<Version>::empty(),
            forall|key: Key| #[trigger] ledger.nonces.history(key) == Seq::<Version>::empty(),
    {
        Ledger { balances: VersionedStore::new(), nonces: VersionedStore::new(), applied: Vec::new() }
    }

    /// The number of blocks applied.
    pub fn len(&self) -> (n: usize)
        ensures
            n == self.applied@.len(),
    {
        self.applied.len()
    }

    /// The supply minted by the blocks applied.
    pub fn get_supply(&self) -> (supply: u64)
        ensures
            supply == self.supply(),
    {
        let n: usize = self.applied.len();
        if n == 0 {
            0
        } else {
            self.applied[n - 1].supply
        }
    }

    /// The last balance of the account in the asset, with the topoheight from
    /// which it holds: of all versions recorded for the key the one of the
    /// greatest topoheight, which is at or below the topoheight of the chain.
    /// `NotFound` where the key has no version.
    pub fn get_last_balance(&self, account: &Hash256, asset: &Hash256) -> (r: Result<
        (u64, u64),
        BlockchainError,
    >)
        requires
            self.wf(),
        ensures
            self.balance_history(*account, *asset).len() == 0 ==> r == Err::<
                (u64, u64),
                BlockchainError,
            >(BlockchainError::NotFound),
            self.balance_history(*account, *asset).len() > 0 ==> r == Ok::<
                (u64, u64),
                BlockchainError,
            >(
                (
                    self.balance_history(*account, *asset).last().topoheight,
                    self.balance_history(*account, *asset).last().value,
                ),
            ),
            r is Ok ==> r->Ok_0.0 < self.applied@.len() && forall|k: int|
                0 <= k < self.balance_history(*account, *asset).len() ==> (
                #[trigger] self.balance_history(*account, *asset)[k]).topoheight <= r->Ok_0.0,
    {
        let key = Key { account: *account, asset: *asset };
        proof {
            self.balances.lemma_history(key);
            let h = self.balances.history(key);
            if h.len() > 0 {
                assert(all_below(h, self.applied@.len() as int));
                assert forall|k: int| 0 <= k < h.len() implies (#[trigger] h[k]).topoheight
                    <= h.last().topoheight by {
                    if k < h.len() - 1 {
                        assert(h[k].topoheight < h[h.len() - 1].topoheight);
                    }
                }
                assert(h[h.len() - 1].topoheight < self.applied@.len());
            }
        }
        match self.balances.last_version(&key) {
            Some(v) => Ok((v.topoheight, v.value)),
            None => Err(BlockchainError::NotFound),
        }
    }

    /// The balance of the account in the asset that was recorded at exactly
    /// `topoheight`. `NotFound` where none was recorded there: a topoheight
    /// between two versions has none.
    pub fn get_balance_at_exact_topoheight(
        &self,
        account: &Hash256,
        asset: &Hash256,
        topoheight: u64,
    ) -> (r: Result<u64, BlockchainError>)
        requires
            self.wf(),
        ensures
            match r {
                Ok(balance) => self.balance_history(*account, *asset).contains(
                    Version { topoheight, value: balance },
                ),
                Err(e) => e == BlockchainError::NotFound && forall|k: int|
                    0 <= k < self.balance_history(*account, *asset).len() ==> (
                    #[trigger] self.balance_history(*account, *asset)[k]).topoheight != topoheight,
            },
    {
        let key = Key { account: *account, asset: *asset };
        match self.balances.version_at(&key, topoheight) {
            Some(v) => Ok(v.value),
            None => Err(BlockchainError::NotFound),
        }
    }

    /// The balance that the account holds of the asset: the last recorded,
    /// and 0 where none is.
    pub fn balance_of(&self, account: &Hash256, asset: &Hash256) -> (balance: u64)
        requires
            self.wf(),
        ensures
            balance == current_value(self.balance_history(*account, *asset)),
    {
        let key = Key { account: *account, asset: *asset };
        match self.balances.last_version(&key) {
            Some(v) => v.value,
            None => 0,
        }
    }

    /// The nonce that the next transaction of the account carries: the last
    /// recorded, and 0 for an account that has sent none.
    pub fn get_nonce(&self, account: &Hash256) -> (nonce: u64)
        requires
            self.wf(),
        ensures
            nonce == current_value(self.nonce_history(*account)),
    {
        let key = Key { account: *account, asset: Hash256::zero() };
        match self.nonces.last_version(&key) {
            Some(v) => v.value,
            None => 0,
        }
    }

    /// The assets of which a balance was ever recorded, each once, in the
    /// sequence in which they first came.
    pub fn get_assets(&self) -> (assets: Vec<Hash256>)
        ensures
            assets@ == assets_in(self.balances.entries@, self.balances.entries@.len() as int),
    {
        let mut assets: Vec<Hash256> = Vec::new();
        let mut i: usize = 0;
        while i < self.balances.entries.len()
            invariant
                i <= self.balances.entries@.len(),
                assets@ == assets_in(self.balances.entries@, i as int),
            decreases self.balances.entries@.len() - i,
        {
            let asset: Hash256 = self.balances.entries[i].key.asset;
            let mut found: bool = false;
            let mut k: usize = 0;
            while k < assets.len()
                invariant
                    k <= assets@.len(),
                    found <==> exists|l: int| 0 <= l < k && assets@[l] == asset,
                decreases assets@.len() - k,
            {
                if assets[k] == asset {
                    found = true;
                }
                k += 1;
            }
            if !found {
                assets.push(asset);
            }
            i += 1;
        }
        assets
    }

    /// Records a block at the next topoheight: its effects on balances and
    /// nonces, in their order, each as a version of that topoheight, and the
    /// reward and the supply with it. The result is the topoheight.
    pub fn apply_block(&mut self, hash: Hash256, reward: u64, effects: &Vec<Effect>) -> (t: u64)
        requires
            old(self).wf(),
            old(self).applied@.len() < usize::MAX,
            old(self).supply() + reward <= MAX_SUPPLY,
        ensures
            final(self).wf(),
            t == old(self).applied@.len(),
            final(self).applied@ == old(self).applied@.push(
                AppliedBlock { hash, reward, supply: (old(self).supply() + reward) as u64 },
            ),
            forall|key: Key| #[trigger]
                final(self).balances.history(key) == after_effects(
                    old(self).balances.history(key),
                    effects@,
                    key,
                    true,
                    t,
                ),
            forall|key: Key| #[trigger]
                final(self).nonces.history(key) == after_effects(
                    old(self).nonces.history(key),
                    effects@,
                    key,
                    false,
                    t,
                ),
    {
        let n: usize = self.applied.len();
        let t: u64 = n as u64;
        let supply: u64 = self.get_supply() + reward;
        let mut k: usize = 0;
        while k < effects.len()
            invariant
                k <= effects@.len(),
                n == old(self).applied@.len(),
                t == n,
                self.applied@ == old(self).applied@,
                self.balances.wf(),
                self.nonces.wf(),
                self.balances.below(t + 1),
                self.nonces.below(t + 1),
                forall|key: Key| #[trigger]
                    self.balances.history(key) == after_effects(
                        old(self).balances.history(key),
                        effects@.take(k as int),
                        key,
                        true,
                        t,
                    ),
                forall|key: Key| #[trigger]
                    self.nonces.history(key) == after_effects(
                        old(self).nonces.history(key),
                        effects@.take(k as int),
                        key,
                        false,
                        t,
                    ),
            decreases effects@.len() - k,
        {
            let ghost balances_before = self.balances;
            let ghost nonces_before = self.nonces;
            assert(effects@.take(k + 1).drop_last() == effects@.take(k as int));
            assert(effects@.take(k + 1).last() == effects@[k as int]);
            match effects[k] {
                Effect::Balance { account, asset, balance } => {
                    let key = Key { account, asset };
                    self.balances.write(key, t, balance);
                    assert forall|other: Key| #[trigger]
                        self.balances.history(other) == after_effects(
                            old(self).balances.history(other),
                            effects@.take(k + 1),
                            other,
                            true,
                            t,
                        ) by {
                        if other != key {
                            assert(self.balances.history(other) == balances_before.history(other));
                        }
                    }
                },
                Effect::Nonce { account, nonce } => {
                    let key = Key { account, asset: Hash256::zero() };
                    self.nonces.write(key, t, nonce);
                    assert forall|other: Key| #[trigger]
                        self.nonces.history(other) == after_effects(
                            old(self).nonces.history(other),
                            effects@.take(k + 1),
                            other,
                            false,
                            t,
                        ) by {
                        if other != key {
                            assert(self.nonces.history(other) == nonces_before.history(other));
                        }
                    }
                },
            }
            k += 1;
        }
        assert(effects@.take(k as int) == effects@);
        self.applied.push(AppliedBlock { hash, reward, supply });
        proof {
            let after = self.applied@;
            let before = old(self).applied@;
            assert forall|x: int| 0 <= x < after.len() implies (#[trigger] after[x]).supply
                == supply_below(after, x) + after[x].reward && after[x].supply <= MAX_SUPPLY by {
                if x < n {
                    assert(after[x] == before[x]);
                    assert(before[x].supply == supply_below(before, x) + before[x].reward);
                    if x > 0 {
                        assert(after[x - 1] == before[x - 1]);
                    }
                } else {
                    if x > 0 {
                        assert(after[x - 1] == before[x - 1]);
                    }
                }
            }
        }
        t
    }

    /// Discards what the blocks above `topoheight` recorded: the versions of
    /// a topoheight above it, in every history, and the rewards and supplies
    /// above it.
    pub fn rollback_to(&mut self, topoheight: u64)
        requires
            old(self).wf(),
        ensures
            final(self).wf(),
            topoheight + 1 < old(self).applied@.len() ==> final(self).applied@ == old(
                self,
            ).applied@.take(topoheight + 1),
            topoheight + 1 >= old(self).applied@.len() ==> final(self).applied@ == old(
                self,
            ).applied@,
            forall|key: Key| #[trigger]
                final(self).balances.history(key) == upto(
                    old(self).balances.history(key),
                    topoheight,
                ),
            forall|key: Key| #[trigger]
                final(self).nonces.history(key) == upto(old(self).nonces.history(key), topoheight),
    {
        let n: usize = self.applied.len();
        if topoheight >= n as u64 {
            proof {
                assert forall|key: Key| #[trigger]
                    self.balances.history(key) == upto(self.balances.history(key), topoheight) by {
                    self.balances.lemma_history(key);
                    lemma_upto_all(self.balances.history(key), topoheight);
                }
                assert forall|key: Key| #[trigger]
                    self.nonces.history(key) == upto(self.nonces.history(key), topoheight) by {
                    self.nonces.lemma_history(key);
                    lemma_upto_all(self.nonces.history(key), topoheight);
                }
            }
            return ;
        }
        let keep: usize = topoheight as usize + 1;
        self.balances.rollback_to(topoheight);
        self.nonces.rollback_to(topoheight);
        self.applied.truncate(keep);
        proof {
            let after = self.applied@;
            let before = old(self).applied@;
            assert(after =~= before.take(keep as int));
            assert forall|x: int| 0 <= x < after.len() implies (#[trigger] after[x]).supply
                == supply_below(after, x) + after[x].reward && after[x].supply <= MAX_SUPPLY by {
                assert(after[x] == before[x]);
                assert(before[x].supply == supply_below(before, x) + before[x].reward);
                if x > 0 {
                    assert(after[x - 1] == before[x - 1]);
                }
            }
        }
    }
}

/// The assets of the first `upto` entries, each once, in the sequence in
/// which they first come.
pub open spec fn assets_in(entries: Seq<History>, upto: int) -> Seq<Hash256>
    decreases upto,
{
    if upto <= 0 {
        Seq::empty()
    } else {
        let before = assets_in(entries, upto - 1);
        if before.contains(entries[upto - 1].key.asset) {
            before
        } else {
            before.push(entries[upto - 1].key.asset)
        }
    }
}

/// `assets_in` holds the asset of every one of the entries, and no asset
/// twice.
pub proof fn lemma_assets_in(entries: Seq<History>, upto: int)
    requires
        0 <= upto <= entries.len(),
    ensures
        forall|i: int|
            0 <= i < upto ==> assets_in(entries, upto).contains((#[trigger] entries[i]).key.asset),
        forall|k: int, l: int|
            0 <= k < l < assets_in(entries, upto).len() ==> assets_in(entries, upto)[k]
                != assets_in(entries, upto)[l],
    decreases upto,
{
    if upto > 0 {
        lemma_assets_in(entries, upto - 1);
        let before = assets_in(entries, upto - 1);
        let all = assets_in(entries, upto);
        let asset = entries[upto - 1].key.asset;
        assert forall|i: int| 0 <= i < upto implies all.contains(
            (#[trigger] entries[i]).key.asset,
        ) by {
            if i < upto - 1 {
                let k = choose|k: int| 0 <= k < before.len() && before[k] == entries[i].key.asset;
                assert(all[k] == entries[i].key.asset);
            } else if before.contains(asset) {
            } else {
                assert(all[all.len() - 1] == asset);
            }
        }
        assert forall|k: int, l: int| 0 <= k < l < all.len() implies all[k] != all[l] by {
            if l < before.len() {
                assert(before[k] != before[l]);
            } else {
                assert(before[k] == all[k]);
            }
        }
    }
}

/// The value that holds at the end of a history; 0 where the history is
/// empty.
pub open spec fn current_value(versions: Seq<Version>) -> u64 {
    if versions.len() == 0 {
        0
    } else {
        versions.last().value
    }
}

/// Versions that are all at or below a topoheight stay as they are up to it.
pub proof fn lemma_upto_all(versions: Seq<Version>, topoheight: u64)
    requires
        all_below(versions, topoheight + 1),
    ensures
        upto(versions, topoheight) == versions,
{
    if versions.len() > 0 {
        assert(versions[versions.len() - 1].topoheight < topoheight + 1);
    }
}

/// What a block wrote alone is gone once the ledger is rolled back below
/// it: a history that held nothing above `bound`, written at a topoheight
/// above `bound` and cut at `bound`, is the history that it was.
pub proof fn lemma_rollback_restores(
    versions: Seq<Version>,
    topoheight: u64,
    value: u64,
    bound: u64,
)
    requires
        all_below(versions, bound + 1),
        bound < topoheight,
    ensures
        upto(written(versions, topoheight, value), bound) == versions,
        current_value(upto(written(versions, topoheight, value), bound)) == current_value(versions),
{
    let w = written(versions, topoheight, value);
    if versions.len() > 0 {
        assert(versions[versions.len() - 1].topoheight < bound + 1);
    }
    assert(w == versions.push(Version { topoheight, value }));
    assert(w.drop_last() == versions);
    lemma_upto_all(versions, bound);
}

/// The account state as a mathematical value: every history by its
/// key, and what is recorded of the blocks by topoheight.
pub struct LedgerView {
    pub balances: Map<Key, Seq<Version>>,
    pub nonces: Map<Key, Seq<Version>>,
    pub applied: Seq<AppliedBlock>,
}

/// The state in which no block has been applied.
pub open spec fn empty_view() -> LedgerView {
    LedgerView {
        balances: Map::new(|key: Key| true, |key: Key| Seq::<Version>::empty()),
        nonces: Map::new(|key: Key| true, |key: Key| Seq::<Version>::empty()),
        applied: Seq::empty(),
    }
}

/// Whether two states hold the same.
pub open spec fn same_state(a: LedgerView, b: LedgerView) -> bool {
    &&& a.applied == b.applied
    &&& forall|key: Key| #[trigger] a.balances[key] == b.balances[key]
    &&& forall|key: Key| #[trigger] a.nonces[key] == b.nonces[key]
}

impl View for Ledger {
    type V = LedgerView;

    open spec fn view(&self) -> LedgerView {
        LedgerView {
            balances: Map::new(|key: Key| true, |key: Key| self.balances.history(key)),
            nonces: Map::new(|key: Key| true, |key: Key| self.nonces.history(key)),
            applied: self.applied@,
        }
    }
}

} // verus!
