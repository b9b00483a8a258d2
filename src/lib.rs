//! Verified core of a backup tool that assembles downloaded content into one
//! tar archive: framing of entries, chunked entries of a declared size, and the
//! scheduling of entries registered by many producers.

pub mod archive;
pub mod packer;
pub mod clock;
pub mod config;
pub mod logging;
pub mod telegram;
pub mod trello;
pub mod cli;
