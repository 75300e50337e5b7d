//! The client-side routing cache: which replica group owns which shard.

pub mod laws;
pub mod model;
pub mod state;
pub mod updater;
