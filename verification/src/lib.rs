//! A live-occupancy counter: tracks how many viewers are concurrently
//! watching each content key and broadcasts the current count to every
//! viewer of that key.
//!
//! The verified core is the membership registry (key -> set of subscribers,
//! with bounded drop-on-full delivery channels) and the per-connection
//! protocol state machine. Transport, timers and metrics exposition are
//! unverified collaborators that drive these types from outside.

pub mod channel;
pub mod registry;
pub mod session;
