//! The games the library knows, and a player sitting at one of them.

pub mod player;
pub mod variants;
