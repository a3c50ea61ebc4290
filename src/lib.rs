//! Mod profile management for Noita: the mod-list codec, the profile
//! registry, the merge of a stored profile with the game's live list, the
//! game-path resolution rules and the workflow that ties them together.

pub mod mod_config;
pub mod codec;
pub mod error;
pub mod sync;
pub mod path;
pub mod profiles;
pub mod utils;
pub mod config;
pub mod cli;
