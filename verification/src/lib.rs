//! Deterministic core of a rotating savings circle: a fixed group of members
//! each deposit an identical amount per cycle, one member receives the pooled
//! pot in round-robin order, and penalties for missed deposits are
//! redistributed to the members. The crate holds only the state-transition
//! logic; the surrounding host (storage, authentication, the token service
//! that actually moves funds, event publication and the clock) supplies plain
//! values in and carries the returned transfer instructions out.

pub mod bitmap;
pub mod circle;
pub mod errors;
pub mod laws;
pub mod registry;
pub mod state;
