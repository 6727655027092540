//! The terminal UI: what it knows, what keys, clicks and events make of it, and
//! what it shows.

pub mod chat;
pub mod dates;
pub mod events;
pub mod keys;
pub mod laws;
pub mod lines;
pub mod panes;
pub mod shown;
pub mod state;
pub mod text;
