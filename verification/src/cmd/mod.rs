//! Commands of the wire protocol.

pub mod frame;
pub mod get;
