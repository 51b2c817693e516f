//! Core of a proof-of-work node whose ledger is a directed acyclic graph of
//! blocks: the graph and its tips, the fork-choice weight, the linear order of
//! the blocks, the versioned account state, the pool of pending transactions
//! and the admission of blocks, with the decisions of the request layer above
//! them.

pub mod chain;
pub mod dag;
pub mod difficulty;
pub mod execution;
pub mod ledger;
pub mod mempool;
pub mod order;
pub mod replay;
pub mod rpc;
pub mod types;
