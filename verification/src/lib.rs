//! Health tracking and peer gossip for a pool of upstream RPC providers.

pub mod behaviour;
pub mod clock;
pub mod errors;
pub mod health;
pub mod laws;
pub mod probe;
pub mod provider;
pub mod ranking;
pub mod registry;
pub mod state;
pub mod text;
