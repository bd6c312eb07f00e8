//! Picks a display layout from the set of connected displays and turns it
//! into an ordered list of output operations.
//!
//! - `index`: connected displays keyed by hardware identifier.
//! - `config`: the profile catalog.
//! - `matcher`: the one profile whose displays are exactly the connected ones.
//! - `layout`: the operations, and command-line words, that apply a profile.
//! - `devices`: displays described from their identifier blocks.

pub mod config;
pub mod devices;
pub mod index;
pub mod layout;
pub mod matcher;
