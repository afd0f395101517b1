//! Multi-contract commitment anchors: the proof objects that bind bundles of
//! contract state transitions to one transaction output, and their verification.

pub mod anchor;
pub mod contracts;
pub mod dbc;
pub mod digest;
pub mod encoding;
pub mod error;
pub mod frontend;
pub mod laws;
pub mod listing;
pub mod merkle;
pub mod mmb;
pub mod mpc;
pub mod wire;
