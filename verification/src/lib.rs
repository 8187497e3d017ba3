//! Canvas synchronization engine: single-pixel writes are validated, committed
//! to a durable bit-field store, mirrored into an in-memory canvas and fanned
//! out to live subscribers through bounded, lossy mailboxes.

pub mod canvas;
pub mod coordinator;
pub mod hub;
pub mod ordering;
pub mod pixel;
pub mod store;
pub mod stream;
