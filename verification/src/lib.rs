//! Conflict-free replicated data over an unreliable, unordered transport:
//! hybrid logical clock timestamps, unique node identifiers, last-write-wins
//! registers, grow-only and positive-negative counters, vector clocks, and a
//! fixed-layout binary codec for update messages.
pub mod serialization;
pub mod text;
pub mod timestamp;
pub mod clock;
pub mod hlc;
pub mod uid;
pub mod lwwregister;
pub mod gcounter;
pub mod pncounter;
pub mod vclock;
pub mod message;
