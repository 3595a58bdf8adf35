//! Spatial persistence and subscription core for a position-addressable world.
//!
//! - [`geometry`]: positions, storage regions and subscription cubes.
//! - [`cache`]: the recency cache that holds region identities.
//! - [`record`]: records and the rows that store them.
//! - [`resolver`]: maps a world position to its shard identity.
//! - [`insert`]: grouping of records into shards and the create-on-miss protocol.
//! - [`query`]: read-back of the records of one region.
//! - [`area_map`]: the per-world index of subscribed peers.
use vstd::prelude::*;

pub mod area_map;
pub mod cache;
pub mod geometry;
pub mod insert;
pub mod query;
pub mod record;
pub mod resolver;

verus! {

} // verus!
