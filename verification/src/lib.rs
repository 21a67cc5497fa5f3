//! An in-memory database mapping IPv4 addresses to the autonomous system
//! (AS) that announces them.
//!
//! Raw IP ranges are decomposed into CIDR-aligned blocks ([`normalize`]),
//! collected into a sequence sorted by base address ([`index`]), queried by
//! binary search ([`index::Index::lookup`]), and persisted in a compact
//! binary form ([`codec`]) so the index need not be rebuilt on every run.
//! [`parse`] turns the fields of the tab-separated source dataset into raw
//! ranges, and [`ingest`] runs the whole pipeline from textual records to a
//! queryable index.

pub mod block;
pub mod codec;
pub mod index;
pub mod ingest;
pub mod normalize;
pub mod parse;
