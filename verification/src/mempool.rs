//! The pool of transactions that wait for a block: what is let in, in what
//! sequence it is offered to a block, and what stays when the chain moves.

use crate::ledger::{current_value, Ledger};
use crate::types::{BlockchainError, Hash256};
use vstd::prelude::*;

verus! {

/// The least fee of a transaction.
pub const MINIMUM_FEE: u64 = 1000;

/// A transfer: `amount` of `asset` from `sender` to `recipient`, for a `fee`
/// in the native asset. `nonce` counts the transactions of the sender, and
/// `size` is the room that the transaction takes in a block, in bytes.
#[derive(Clone, Copy, Debug, PartialEq, Eq, Structural)]
pub struct Transaction {
    pub hash: Hash256,
    pub sender: Hash256,
    pub recipient: Hash256,
    pub asset: Hash256,
    pub amount: u64,
    pub fee: u64,
    pub nonce: u64,
    pub size: u64,
}

/// The asset in which fees and rewards are paid.
pub open spec fn native_asset() -> Hash256 {
    Hash256 { w0: 0, w1: 0, w2: 0, w3: 0 }
}

/// Whether a transaction with this hash is among `pool`.
pub open spec fn holds_hash(pool: Seq<Transaction>, hash: Hash256) -> bool {
    exists|i: int| 0 <= i < pool.len() && (#[trigger] pool[i]).hash == hash
}

/// The nonce that the next transaction of `sender` has to carry: the one
/// after the greatest that it has in `pool`, and `base`, the nonce of the
/// account, where it has none there or only lower ones.
pub open spec fn next_nonce(pool: Seq<Transaction>, sender: Hash256, base: u64) -> int
    decreases pool.len(),
{
    if pool.len() == 0 {
        base as int
    } else {
        let before = next_nonce(pool.drop_last(), sender, base);
        if pool.last().sender == sender && pool.last().nonce >= before {
            pool.last().nonce + 1
        } else {
            before
        }
    }
}

/// Whether the sender can pay the transaction from `balance`, which it holds
/// of the asset of the transaction, and `native_balance`, which it holds of
/// the native asset.
pub open spec fn can_pay(tx: Transaction, balance: u64, native_balance: u64) -> bool {
    if tx.asset == native_asset() {
        tx.amount + tx.fee <= balance
    } else {
        tx.amount <= balance && tx.fee <= native_balance
    }
}

/// Why the transaction is not let in beside `pool`, the first reason that
/// holds; `None` where it is let in. `nonce`, `balance` and `native_balance`
/// are what the ledger holds for its sender.
pub open spec fn verdict(
    pool: Seq<Transaction>,
    tx: Transaction,
    signature_ok: bool,
    nonce: u64,
    balance: u64,
    native_balance: u64,
) -> Option<BlockchainError> {
    if holds_hash(pool, tx.hash) {
        Some(BlockchainError::DuplicateTx)
    } else if !signature_ok {
        Some(BlockchainError::InvalidSignature)
    } else if tx.sender == tx.recipient {
        Some(BlockchainError::InvalidTransaction)
    } else if tx.fee < MINIMUM_FEE {
        Some(BlockchainError::InvalidFee)
    } else if tx.nonce == u64::MAX || tx.nonce != next_nonce(pool, tx.sender, nonce) {
        Some(BlockchainError::InvalidNonce)
    } else if !can_pay(tx, balance, native_balance) {
        Some(BlockchainError::InsufficientBalance)
    } else {
        None
    }
}

/// `verdict` with what `ledger` holds for the sender of the transaction.
pub open spec fn verdict_on(
    pool: Seq<Transaction>,
    ledger: &Ledger,
    tx: Transaction,
    signature_ok: bool,
) -> Option<BlockchainError> {
    verdict(
        pool,
        tx,
        signature_ok,
        current_value(ledger.nonce_history(tx.sender)),
        current_value(ledger.balance_history(tx.sender, tx.asset)),
        current_value(ledger.balance_history(tx.sender, native_asset())),
    )
}

/// The nonce that `next_nonce` gives is at least `base` and above every nonce
/// that the sender has in the pool.
pub proof fn lemma_next_nonce(pool: Seq<Transaction>, sender: Hash256, base: u64)
    ensures
        next_nonce(pool, sender, base) >= base,
        forall|i: int|
            0 <= i < pool.len() && (#[trigger] pool[i]).sender == sender ==> pool[i].nonce
                < next_nonce(pool, sender, base),
    decreases pool.len(),
{
    if pool.len() > 0 {
        let front = pool.drop_last();
        lemma_next_nonce(front, sender, base);
        assert(forall|i: int| 0 <= i < front.len() ==> front[i] == pool[i]);
    }
}

/// A transaction whose nonce skips ahead of the nonce that its sender has
/// to use next is refused with `InvalidNonce`, where nothing that is tested
/// before the nonce refuses it.
pub proof fn lemma_nonce_gap_is_refused(
    pool: Seq<Transaction>,
    tx: Transaction,
    nonce: u64,
    balance: u64,
    native_balance: u64,
)
    requires
        !holds_hash(pool, tx.hash),
        tx.sender != tx.recipient,
        tx.fee >= MINIMUM_FEE,
        tx.nonce > next_nonce(pool, tx.sender, nonce),
    ensures
        verdict(pool, tx, true, nonce, balance, native_balance) == Some(
            BlockchainError::InvalidNonce,
        ),
        pool.len() == 0 ==> next_nonce(pool, tx.sender, nonce) == nonce,
{
}

/// The transactions with `tx` put in after the last that pays at least its
/// fee.
pub open spec fn insert_by_fee(sorted: Seq<Transaction>, tx: Transaction) -> Seq<Transaction>
    decreases sorted.len(),
{
    if sorted.len() == 0 {
        seq![tx]
    } else if sorted.last().fee >= tx.fee {
        sorted.push(tx)
    } else {
        insert_by_fee(sorted.drop_last(), tx).push(sorted.last())
    }
}

/// The transactions by fee, the highest first; among those of one fee, the
/// one that came first stays first.
pub open spec fn by_fee(pool: Seq<Transaction>) -> Seq<Transaction>
    decreases pool.len(),
{
    if pool.len() == 0 {
        Seq::empty()
    } else {
        insert_by_fee(by_fee(pool.drop_last()), pool.last())
    }
}

/// Whether the fees never rise along the sequence.
pub open spec fn fees_descend(txs: Seq<Transaction>) -> bool {
    forall|i: int, j: int|
        0 <= i < j < txs.len() ==> (#[trigger] txs[i]).fee >= (#[trigger] txs[j]).fee
}

/// Putting a transaction in keeps what was there, adds the transaction, and
/// keeps the fees from rising.
pub proof fn lemma_insert_by_fee(sorted: Seq<Transaction>, tx: Transaction)
    ensures
        insert_by_fee(sorted, tx).len() == sorted.len() + 1,
        insert_by_fee(sorted, tx).to_multiset() == sorted.to_multiset().insert(tx),
        fees_descend(sorted) ==> fees_descend(insert_by_fee(sorted, tx)),
    decreases sorted.len(),
{
    broadcast use vstd::seq_lib::group_to_multiset_ensures;

    let r = insert_by_fee(sorted, tx);
    if sorted.len() == 0 {
        assert(r == Seq::<Transaction>::empty().push(tx));
    } else if sorted.last().fee >= tx.fee {
        if fees_descend(sorted) {
            assert forall|i: int, j: int| 0 <= i < j < r.len() implies (#[trigger] r[i]).fee >= (
            #[trigger] r[j]).fee by {
                if j == sorted.len() {
                    if i < sorted.len() - 1 {
                        assert(sorted[i].fee >= sorted[sorted.len() - 1].fee);
                    }
                } else {
                    assert(sorted[i].fee >= sorted[j].fee);
                }
            }
        }
    } else {
        let front = sorted.drop_last();
        let last = sorted.last();
        let inner = insert_by_fee(front, tx);
        lemma_insert_by_fee(front, tx);
        assert(sorted == front.push(last));
        assert(r == inner.push(last));
        assert(r.to_multiset() == sorted.to_multiset().insert(tx)) by {
            assert(r.to_multiset() =~= front.to_multiset().insert(tx).insert(last));
            assert(sorted.to_multiset() =~= front.to_multiset().insert(last));
            assert(front.to_multiset().insert(tx).insert(last) =~= front.to_multiset().insert(
                last,
            ).insert(tx));
        }
        if fees_descend(sorted) {
            assert(fees_descend(front)) by {
                assert forall|i: int, j: int| 0 <= i < j < front.len() implies (
                #[trigger] front[i]).fee >= (#[trigger] front[j]).fee by {
                    assert(sorted[i].fee >= sorted[j].fee);
                }
            }
            assert forall|i: int, j: int| 0 <= i < j < r.len() implies (#[trigger] r[i]).fee >= (
            #[trigger] r[j]).fee by {
                if j == inner.len() {
                    assert(inner.to_multiset().count(inner[i]) > 0);
                    if inner[i] != tx {
                        assert(front.to_multiset().count(inner[i]) > 0);
                        assert(front.contains(inner[i]));
                        let q = choose|q: int| 0 <= q < front.len() && front[q] == inner[i];
                        assert(sorted[q].fee >= sorted[sorted.len() - 1].fee);
                    }
                } else {
                    assert(inner[i].fee >= inner[j].fee);
                }
            }
        }
    }
}

/// The transactions by fee are the transactions of the pool, each as often as
/// the pool holds it, and their fees never rise.
pub proof fn lemma_by_fee(pool: Seq<Transaction>)
    ensures
        by_fee(pool).len() == pool.len(),
        by_fee(pool).to_multiset() == pool.to_multiset(),
        fees_descend(by_fee(pool)),
    decreases pool.len(),
{
    broadcast use vstd::seq_lib::group_to_multiset_ensures;

    if pool.len() == 0 {
    } else {
        let front = pool.drop_last();
        lemma_by_fee(front);
        lemma_insert_by_fee(by_fee(front), pool.last());
        assert(pool == front.push(pool.last()));
    }
}

/// Whether two transactions can wait together: they differ in hash, and do
/// not take the same nonce of the same sender.
pub open spec fn compatible(a: Transaction, b: Transaction) -> bool {
    a.hash != b.hash && !(a.sender == b.sender && a.nonce == b.nonce)
}

/// Whether the transactions can wait together, and each leaves room for a
/// next nonce.
pub open spec fn pool_ok(pool: Seq<Transaction>) -> bool {
    &&& forall|i: int, j: int|
        0 <= i < pool.len() && 0 <= j < pool.len() && i != j ==> compatible(
            #[trigger] pool[i],
            #[trigger] pool[j],
        )
    &&& forall|i: int| 0 <= i < pool.len() ==> (#[trigger] pool[i]).nonce < u64::MAX
}

/// The transactions of `pool` whose hash is not among `hashes`, in their
/// order.
pub open spec fn without(pool: Seq<Transaction>, hashes: Seq<Hash256>) -> Seq<Transaction>
    decreases pool.len(),
{
    if pool.len() == 0 {
        Seq::empty()
    } else {
        let front = without(pool.drop_last(), hashes);
        if hashes.contains(pool.last().hash) {
            front
        } else {
            front.push(pool.last())
        }
    }
}

/// What `without` keeps is of the pool and not among the hashes, and can
/// wait together where the pool could.
pub proof fn lemma_without(pool: Seq<Transaction>, hashes: Seq<Hash256>)
    ensures
        forall|tx: Transaction| #[trigger]
            without(pool, hashes).contains(tx) <==> (pool.contains(tx) && !hashes.contains(
                tx.hash,
            )),
        pool_ok(pool) ==> pool_ok(without(pool, hashes)),
    decreases pool.len(),
{
    let r = without(pool, hashes);
    if pool.len() > 0 {
        let front = pool.drop_last();
        let last = pool.last();
        let kept = without(front, hashes);
        lemma_without(front, hashes);
        assert(forall|i: int| 0 <= i < front.len() ==> front[i] == pool[i]);
        assert(pool[pool.len() - 1] == last);
        assert forall|tx: Transaction| #[trigger]
            r.contains(tx) <==> (pool.contains(tx) && !hashes.contains(tx.hash)) by {
            if r.contains(tx) {
                let k = choose|k: int| 0 <= k < r.len() && r[k] == tx;
                if k < kept.len() {
                    assert(kept[k] == tx);
                    assert(kept.contains(tx));
                    let q = choose|q: int| 0 <= q < front.len() && front[q] == tx;
                    assert(pool[q] == tx);
                }
            }
            if pool.contains(tx) && !hashes.contains(tx.hash) {
                let q = choose|q: int| 0 <= q < pool.len() && pool[q] == tx;
                if q < front.len() {
                    assert(front[q] == tx);
                    assert(front.contains(tx));
                    assert(kept.contains(tx));
                    let k = choose|k: int| 0 <= k < kept.len() && kept[k] == tx;
                    assert(r[k] == tx);
                } else {
                    assert(r[r.len() - 1] == tx);
                }
            }
        }
        if pool_ok(pool) {
            assert(pool_ok(front));
            assert forall|i: int, j: int|
                0 <= i < r.len() && 0 <= j < r.len() && i != j implies compatible(
                #[trigger] r[i],
                #[trigger] r[j],
            ) by {
                if i < kept.len() && j < kept.len() {
                    assert(compatible(kept[i], kept[j]));
                } else {
                    let inner = if i < kept.len() {
                        i
                    } else {
                        j
                    };
                    assert(kept[inner] == r[inner]);
                    assert(kept.contains(r[inner]));
                    assert(front.contains(r[inner]));
                    let q = choose|q: int| 0 <= q < front.len() && front[q] == r[inner];
                    assert(compatible(pool[q], pool[pool.len() - 1]));
                    assert(compatible(pool[pool.len() - 1], pool[q]));
                }
            }
            assert forall|i: int| 0 <= i < r.len() implies (#[trigger] r[i]).nonce < u64::MAX by {
                assert(r.contains(r[i]));
                assert(pool.contains(r[i]));
                let q = choose|q: int| 0 <= q < pool.len() && pool[q] == r[i];
            }
        }
    }
}

/// The pool once the candidates have asked to be let in, one after the
/// other, each with a signature that holds: a candidate whose hash is among
/// `included` is passed over, and so is one that is refused.
pub open spec fn readmitted(
    pool: Seq<Transaction>,
    ledger: &Ledger,
    candidates: Seq<Transaction>,
    included: Seq<Hash256>,
) -> Seq<Transaction>
    decreases candidates.len(),
{
    if candidates.len() == 0 {
        pool
    } else {
        let before = readmitted(pool, ledger, candidates.drop_last(), included);
        if included.contains(candidates.last().hash) || verdict_on(
            before,
            ledger,
            candidates.last(),
            true,
        ) is Some {
            before
        } else {
            before.push(candidates.last())
        }
    }
}

/// Whether `hash` is among `hashes`.
pub fn hash_listed(hashes: &Vec<Hash256>, hash: &Hash256) -> (b: bool)
    ensures
        b == hashes@.contains(*hash),
{
    let mut k: usize = 0;
    while k < hashes.len()
        invariant
            k <= hashes@.len(),
            forall|l: int| 0 <= l < k ==> hashes@[l] != *hash,
        decreases hashes@.len() - k,
    {
        if hashes[k] == *hash {
            return true;
        }
        k += 1;
    }
    false
}

/// The transactions that wait, in the order in which they came.
#[derive(Debug)]
pub struct Mempool {
    pub txs: Vec<Transaction>,
}

impl Mempool {
    /// The pool is well formed: its transactions can wait together.
    pub open spec fn wf(&self) -> bool {
        pool_ok(self.txs@)
    }

    /// The pool in which nothing waits.
    pub fn new() -> (pool: Mempool)
        ensures
            pool.wf(),
            pool.txs@.len() == 0,
    {
        Mempool { txs: Vec::new() }
    }

    /// The number of transactions that wait.
    pub fn len(&self) -> (n: usize)
        ensures
            n == self.txs@.len(),
    {
        self.txs.len()
    }

    /// The place of the transaction with this hash.
    pub fn position(&self, hash: &Hash256) -> (r: Option<usize>)
        ensures
            match r {
                Some(i) => i < self.txs@.len() && self.txs@[i as int].hash == *hash,
                None => !holds_hash(self.txs@, *hash),
            },
    {
        let mut i: usize = 0;
        while i < self.txs.len()
            invariant
                i <= self.txs@.len(),
                forall|j: int| 0 <= j < i ==> (#[trigger] self.txs@[j]).hash != *hash,
            decreases self.txs@.len() - i,
        {
            if self.txs[i].hash == *hash {
                return Some(i);
            }
            i += 1;
        }
        None
    }

    /// The transaction with this hash, or `NotFound`.
    pub fn view_tx(&self, hash: &Hash256) -> (r: Result<Transaction, BlockchainError>)
        ensures
            match r {
                Ok(tx) => tx.hash == *hash && self.txs@.contains(tx),
                Err(e) => e == BlockchainError::NotFound && !holds_hash(self.txs@, *hash),
            },
    {
        match self.position(hash) {
            Some(i) => {
                assert(self.txs@.contains(self.txs@[i as int]));
                Ok(self.txs[i])
            },
            None => Err(BlockchainError::NotFound),
        }
    }

    /// Computes `next_nonce`.
    pub fn expected_nonce(&self, sender: &Hash256, base: u64) -> (nonce: u64)
        requires
            self.wf(),
        ensures
            nonce == next_nonce(self.txs@, *sender, base),
    {
        let mut nonce: u64 = base;
        let mut i: usize = 0;
        while i < self.txs.len()
            invariant
                self.wf(),
                i <= self.txs@.len(),
                nonce == next_nonce(self.txs@.take(i as int), *sender, base),
            decreases self.txs@.len() - i,
        {
            assert(self.txs@.take(i + 1).drop_last() == self.txs@.take(i as int));
            let tx: Transaction = self.txs[i];
            if tx.sender == *sender && tx.nonce >= nonce {
                nonce = tx.nonce + 1;
            }
            i += 1;
        }
        assert(self.txs@.take(i as int) == self.txs@);
        nonce
    }

    /// Lets a transaction in, or refuses it. It is refused, by the first of
    /// these that holds: with `DuplicateTx` where it waits already; with
    /// `InvalidSignature` where `signature_ok` is false; with
    /// `InvalidTransaction` where it pays its own sender; with `InvalidFee`
    /// where its fee is below `MINIMUM_FEE`; with `InvalidNonce` where its
    /// nonce is not the one that follows the nonces of its sender, in the
    /// ledger and in the pool; with `InsufficientBalance` where its sender
    /// cannot pay amount and fee. A refusal changes nothing. Else it comes
    /// last.
    pub fn add_tx(&mut self, ledger: &Ledger, tx: Transaction, signature_ok: bool) -> (r: Result<
        (),
        BlockchainError,
    >)
        requires
            old(self).wf(),
            ledger.wf(),
        ensures
            final(self).wf(),
            match verdict_on(old(self).txs@, ledger, tx, signature_ok) {
                Some(e) => r == Err::<(), BlockchainError>(e) && final(self).txs@ == old(
                    self,
                ).txs@,
                None => r is Ok && final(self).txs@ == old(self).txs@.push(tx),
            },
    {
        if self.position(&tx.hash).is_some() {
            return Err(BlockchainError::DuplicateTx);
        }
        if !signature_ok {
            return Err(BlockchainError::InvalidSignature);
        }
        if tx.sender == tx.recipient {
            return Err(BlockchainError::InvalidTransaction);
        }
        if tx.fee < MINIMUM_FEE {
            return Err(BlockchainError::InvalidFee);
        }
        let base: u64 = ledger.get_nonce(&tx.sender);
        let expected: u64 = self.expected_nonce(&tx.sender, base);
        if tx.nonce == u64::MAX || tx.nonce != expected {
            return Err(BlockchainError::InvalidNonce);
        }
        let native: Hash256 = Hash256::zero();
        let balance: u64 = ledger.balance_of(&tx.sender, &tx.asset);
        let payable: bool = if tx.asset == native {
            tx.fee <= balance && tx.amount <= balance - tx.fee
        } else {
            tx.amount <= balance && tx.fee <= ledger.balance_of(&tx.sender, &native)
        };
        if !payable {
            return Err(BlockchainError::InsufficientBalance);
        }
        proof {
            lemma_next_nonce(self.txs@, tx.sender, base);
        }
        self.txs.push(tx);
        proof {
            let before = old(self).txs@;
            let after = self.txs@;
            assert forall|i: int, j: int|
                0 <= i < after.len() && 0 <= j < after.len() && i != j implies compatible(
                #[trigger] after[i],
                #[trigger] after[j],
            ) by {
                if i < before.len() && j < before.len() {
                    assert(compatible(before[i], before[j]));
                } else if i < before.len() {
                    assert(before[i].hash != tx.hash);
                } else {
                    assert(before[j].hash != tx.hash);
                }
            }
        }
        Ok(())
    }

    /// The transactions by fee, the highest first, as a block is offered
    /// them; among those of one fee the one that came first stays first. The
    /// fees never rise along the result, and it holds what the pool holds.
    pub fn get_sorted_txs(&self) -> (sorted: Vec<Transaction>)
        ensures
            sorted@ == by_fee(self.txs@),
            fees_descend(sorted@),
            sorted@.len() == self.txs@.len(),
            sorted@.to_multiset() == self.txs@.to_multiset(),
    {
        let mut sorted: Vec<Transaction> = Vec::new();
        let mut i: usize = 0;
        while i < self.txs.len()
            invariant
                i <= self.txs@.len(),
                sorted@ == by_fee(self.txs@.take(i as int)),
            decreases self.txs@.len() - i,
        {
            assert(self.txs@.take(i + 1).drop_last() == self.txs@.take(i as int));
            let tx: Transaction = self.txs[i];
            let ghost s = sorted@;
            let mut pos: usize = sorted.len();
            assert(s.take(pos as int) == s);
            assert(insert_by_fee(s, tx) =~= insert_by_fee(s.take(pos as int), tx) + s.skip(
                pos as int,
            ));
            while pos > 0 && sorted[pos - 1].fee < tx.fee
                invariant
                    sorted@ == s,
                    pos <= s.len(),
                    insert_by_fee(s, tx) == insert_by_fee(s.take(pos as int), tx) + s.skip(
                        pos as int,
                    ),
                decreases pos,
            {
                proof {
                    let head = s.take(pos as int);
                    assert(head.last() == s[pos - 1]);
                    assert(head.drop_last() == s.take(pos - 1));
                    assert(insert_by_fee(s.take(pos - 1), tx).push(s[pos - 1]) + s.skip(pos as int)
                        =~= insert_by_fee(s.take(pos - 1), tx) + s.skip(pos - 1));
                }
                pos -= 1;
            }
            proof {
                let head = s.take(pos as int);
                if pos > 0 {
                    assert(head.last() == s[pos - 1]);
                }
                assert(insert_by_fee(head, tx) == head.push(tx));
                assert(s.insert(pos as int, tx) =~= head.push(tx) + s.skip(pos as int));
            }
            sorted.insert(pos, tx);
            i += 1;
        }
        assert(self.txs@.take(i as int) == self.txs@);
        proof {
            lemma_by_fee(self.txs@);
        }
        sorted
    }

    /// Takes out the transactions whose hash is among `hashes`: those that
    /// a block has taken in.
    pub fn remove_included(&mut self, hashes: &Vec<Hash256>)
        requires
            old(self).wf(),
        ensures
            final(self).wf(),
            final(self).txs@ == without(old(self).txs@, hashes@),
    {
        let mut kept: Vec<Transaction> = Vec::new();
        let mut i: usize = 0;
        while i < self.txs.len()
            invariant
                i <= self.txs@.len(),
                kept@ == without(self.txs@.take(i as int), hashes@),
            decreases self.txs@.len() - i,
        {
            assert(self.txs@.take(i + 1).drop_last() == self.txs@.take(i as int));
            let tx: Transaction = self.txs[i];
            if !hash_listed(hashes, &tx.hash) {
                kept.push(tx);
            }
            i += 1;
        }
        assert(self.txs@.take(i as int) == self.txs@);
        proof {
            lemma_without(self.txs@, hashes@);
        }
        self.txs = kept;
    }

    /// Holds the pool against a ledger that has changed. Every transaction
    /// that waits, and then every transaction of `returned`, which blocks
    /// that left the order give back, asks to be let in again into an empty
    /// pool, in that order. One whose hash is among `included`, which the
    /// blocks of the order hold, is dropped; so is one that the ledger no
    /// longer allows.
    pub fn reconcile(
        &mut self,
        ledger: &Ledger,
        returned: &Vec<Transaction>,
        included: &Vec<Hash256>,
    )
        requires
            ledger.wf(),
        ensures
            final(self).wf(),
            final(self).txs@ == readmitted(
                Seq::empty(),
                ledger,
                old(self).txs@ + returned@,
                included@,
            ),
    {
        let ghost candidates = self.txs@ + returned@;
        let mut pool = Mempool::new();
        let mut i: usize = 0;
        while i < self.txs.len()
            invariant
                ledger.wf(),
                pool.wf(),
                *self == *old(self),
                candidates == self.txs@ + returned@,
                i <= self.txs@.len(),
                pool.txs@ == readmitted(
                    Seq::empty(),
                    ledger,
                    candidates.take(i as int),
                    included@,
                ),
            decreases self.txs@.len() - i,
        {
            assert(candidates.take(i + 1).drop_last() == candidates.take(i as int));
            assert(candidates.take(i + 1).last() == self.txs@[i as int]);
            let tx: Transaction = self.txs[i];
            if !hash_listed(included, &tx.hash) {
                let _ = pool.add_tx(ledger, tx, true);
            }
            i += 1;
        }
        let n: usize = self.txs.len();
        let mut j: usize = 0;
        while j < returned.len()
            invariant
                ledger.wf(),
                pool.wf(),
                *self == *old(self),
                candidates == self.txs@ + returned@,
                n == self.txs@.len(),
                j <= returned@.len(),
                pool.txs@ == readmitted(
                    Seq::empty(),
                    ledger,
                    candidates.take(n + j),
                    included@,
                ),
            decreases returned@.len() - j,
        {
            assert(candidates.take(n + j + 1).drop_last() == candidates.take(n + j));
            assert(candidates.take(n + j + 1).last() == returned@[j as int]);
            let tx: Transaction = returned[j];
            if !hash_listed(included, &tx.hash) {
                let _ = pool.add_tx(ledger, tx, true);
            }
            j += 1;
        }
        assert(candidates.take(n + j) == candidates);
        self.txs = pool.txs;
    }
}

} // verus!
