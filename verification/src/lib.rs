//! Listing what a user dropped onto a page: the dropped files and
//! directories, and everything below the directories, one line per entry.
//!
//! The crate holds the decisions of that listing and none of the host calls:
//! a caller reads the host and hands plain values in.

pub mod entry;
pub mod expander;
pub mod handle;
pub mod host;
pub mod item;
pub mod laws;
pub mod property;
pub mod reach;
pub mod text;
pub mod walker;
