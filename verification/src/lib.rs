//! Mirrors the currently playing track of a local media player into a
//! presence-sharing channel, enriched with metadata from a public catalog
//! search service.
//!
//! This crate holds the verified core: the disk-backed, time-to-live
//! metadata cache with its persisted format, the artwork resolver's
//! decisions, the presence state derivation, and the reconnect supervisor.
//! All clocks, file, network and IPC work stay with the caller, which hands
//! the library plain values.

pub mod cache;
pub mod persist;
pub mod presence;
pub mod resolver;
pub mod structs;
pub mod supervisor;
pub mod util;
