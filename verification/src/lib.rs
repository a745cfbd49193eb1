//! The message handling of a node in a proof-of-work chain with account balances.

pub mod block;
pub mod blockchain;
pub mod connect;
pub mod hash;
pub mod intake;
pub mod inventory;
pub mod laws;
pub mod ledger;
pub mod mempool;
pub mod message;
pub mod note;
pub mod orphan;
pub mod peers;
pub mod table;
pub mod transaction;
pub mod worker;
