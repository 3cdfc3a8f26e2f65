//! What holds of the ledger as a whole.

pub mod answers;
pub mod batching;
pub mod plain;
pub mod posting;
pub mod queue;
pub mod records;
pub mod recording;
pub mod request;
pub mod taking;
pub mod verdict;
