//! A verified core for a license-file tool: an in-memory catalog of license
//! records with key-based lookup, rendering of a record for display, and a
//! codec for the on-disk cache file, proved to round-trip.

pub mod codec;
pub mod license;
pub mod repo;
pub mod text;
