//! The chat relay core: the wire-level action protocol, the shared registry
//! of connected peers, and the per-connection session state machine.

pub mod action;
pub mod registry;
pub mod session;
