//! Protocol core of a small image-conversion server: digests, wire framing,
//! and the per-connection session state machine.

pub mod digest;
pub mod frame;
pub mod session;
