//! Erasure-coded Byzantine reliable broadcast: commitment scheme, erasure
//! coding, message model and the per-instance protocol state machine.

pub mod hash;
pub mod merkle;
pub mod msg;
pub mod coding;
pub mod state;
pub mod protocol;
pub mod laws;
