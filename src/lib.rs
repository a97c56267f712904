//! Chain synchronisation core of a layer-2 ledger: a watcher that follows the
//! chain's events, a store of block-scoped account updates with a materialised
//! verified state, and a log of submitted operations.

pub mod account;
pub mod storage;
pub mod watcher;
