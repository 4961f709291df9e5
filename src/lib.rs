//! Pending-message pool of a Filecoin-style node and the content-addressed
//! archive (CAR) codec that feeds its block store.
pub mod message;
pub mod msg_set;
pub mod admission;
pub mod pool;
pub mod varint;
pub mod cid;
pub mod car;
pub mod output;
