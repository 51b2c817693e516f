//! Identifiers shared by every component.

use vstd::prelude::*;

verus! {

/// A 256-bit identifier, held as four 64-bit words, the most significant first.
#[derive(Clone, Copy, Debug, PartialEq, Eq, Structural)]
pub struct Hash256 {
    pub w0: u64,
    pub w1: u64,
    pub w2: u64,
    pub w3: u64,
}

/// The strict order of identifiers: word by word, the most significant first.
pub open spec fn hash_lt(a: Hash256, b: Hash256) -> bool {
    a.w0 < b.w0 || (a.w0 == b.w0 && (a.w1 < b.w1 || (a.w1 == b.w1 && (a.w2 < b.w2 || (a.w2
        == b.w2 && a.w3 < b.w3)))))
}

impl Hash256 {
    /// The identifier made of the four words.
    pub fn new(w0: u64, w1: u64, w2: u64, w3: u64) -> (h: Hash256)
        ensures
            h == (Hash256 { w0, w1, w2, w3 }),
    {
        Hash256 { w0, w1, w2, w3 }
    }

    /// The identifier whose words are all zero.
    pub fn zero() -> (h: Hash256)
        ensures
            h == (Hash256 { w0: 0, w1: 0, w2: 0, w3: 0 }),
    {
        Hash256 { w0: 0, w1: 0, w2: 0, w3: 0 }
    }

    /// Whether `self` comes strictly before `other`.
    pub fn lt(&self, other: &Hash256) -> (b: bool)
        ensures
            b == hash_lt(*self, *other),
    {
        if self.w0 != other.w0 {
            self.w0 < other.w0
        } else if self.w1 != other.w1 {
            self.w1 < other.w1
        } else if self.w2 != other.w2 {
            self.w2 < other.w2
        } else {
            self.w3 < other.w3
        }
    }
}

/// The order of identifiers is strict and total.
pub proof fn lemma_hash_order_total(a: Hash256, b: Hash256, c: Hash256)
    ensures
        !hash_lt(a, a),
        hash_lt(a, b) || hash_lt(b, a) || a == b,
        hash_lt(a, b) ==> !hash_lt(b, a),
        hash_lt(a, b) && hash_lt(b, c) ==> hash_lt(a, c),
{
}

/// The kinds of failure.
#[derive(Clone, Copy, Debug, PartialEq, Eq, Structural)]
pub enum ErrorKind {
    /// A block or a transaction is malformed, or fails the test of its work
    /// or of its signature.
    Validation,
    /// A block or a transaction does not fit what is known: a parent is
    /// missing, it is known already, or it comes out of turn.
    Consensus,
    /// The account state does not allow it, or holds nothing under the key.
    State,
}

/// Why a block, a transaction or a question is refused.
#[derive(Clone, Copy, Debug, PartialEq, Eq, Structural)]
pub enum BlockchainError {
    /// The height that the block gives is not the one that follows from its
    /// parents.
    InvalidHeight,
    /// The work of the block is below the difficulty that its tips ask for.
    InsufficientDifficulty,
    /// The signature of the transaction does not hold.
    InvalidSignature,
    /// The transaction pays its own sender.
    InvalidTransaction,
    /// The fee of the transaction is below the least fee.
    InvalidFee,
    /// A parent of the block is not known.
    UnknownParent,
    /// The block is known already.
    AlreadyExists,
    /// A block comes before its parents.
    InvalidOrder,
    /// The transaction is held already.
    DuplicateTx,
    /// The nonce of the transaction is not the next of its sender.
    InvalidNonce,
    /// The sender cannot pay what the transaction spends.
    InsufficientBalance,
    /// Nothing is recorded under the key.
    NotFound,
}

/// The kind of each failure.
pub open spec fn kind_of(error: BlockchainError) -> ErrorKind {
    match error {
        BlockchainError::InvalidHeight => ErrorKind::Validation,
        BlockchainError::InsufficientDifficulty => ErrorKind::Validation,
        BlockchainError::InvalidSignature => ErrorKind::Validation,
        BlockchainError::InvalidTransaction => ErrorKind::Validation,
        BlockchainError::InvalidFee => ErrorKind::Validation,
        BlockchainError::UnknownParent => ErrorKind::Consensus,
        BlockchainError::AlreadyExists => ErrorKind::Consensus,
        BlockchainError::InvalidOrder => ErrorKind::Consensus,
        BlockchainError::DuplicateTx => ErrorKind::Consensus,
        BlockchainError::InvalidNonce => ErrorKind::State,
        BlockchainError::InsufficientBalance => ErrorKind::State,
        BlockchainError::NotFound => ErrorKind::State,
    }
}

impl BlockchainError {
    /// The kind of the failure.
    pub fn kind(&self) -> (k: ErrorKind)
        ensures
            k == kind_of(*self),
    {
        match self {
            BlockchainError::InvalidHeight => ErrorKind::Validation,
            BlockchainError::InsufficientDifficulty => ErrorKind::Validation,
            BlockchainError::InvalidSignature => ErrorKind::Validation,
            BlockchainError::InvalidTransaction => ErrorKind::Validation,
            BlockchainError::InvalidFee => ErrorKind::Validation,
            BlockchainError::UnknownParent => ErrorKind::Consensus,
            BlockchainError::AlreadyExists => ErrorKind::Consensus,
            BlockchainError::InvalidOrder => ErrorKind::Consensus,
            BlockchainError::DuplicateTx => ErrorKind::Consensus,
            BlockchainError::InvalidNonce => ErrorKind::State,
            BlockchainError::InsufficientBalance => ErrorKind::State,
            BlockchainError::NotFound => ErrorKind::State,
        }
    }
}

} // verus!
