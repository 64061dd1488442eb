//! An in-process multi-producer, single-consumer channel with closing
//! detection: any number of sender handles queue values under one lock, and a
//! single receiver drains them in lock-acquisition order, amortising lock
//! traffic through a private buffer.

pub mod cell;
pub mod hashmap;
pub mod mpsc;
pub mod rc;

pub use mpsc::channel;
pub use mpsc::Receiver;
pub use mpsc::Sender;
