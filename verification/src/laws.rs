//! What holds of the node as a whole, whatever the messages are.

pub mod accounts;
pub mod delivery;
pub mod gossip;
pub mod growth;
pub mod joining;
pub mod money;
pub mod node;
pub mod replies;
pub mod shapes;
