//! Client side of the hosted Filesystem service.
//!
//! Handles retain exact workspace and generation identities. Each operation is
//! checked against the negotiated limits and becomes one message; each reply is
//! checked before a handle is made from it.

pub mod handles;
pub mod laws;
pub mod options;
pub mod transaction;
pub mod wire;
