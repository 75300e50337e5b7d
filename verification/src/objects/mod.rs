//! The objects that the engine stores under its keys.

pub mod string;
