//! In-memory indexing core for an experience-replay store.
//!
//! Actors insert trajectory items, samplers draw items with probability
//! proportional to a mutable priority weight, and items are shared across
//! logical views through reference counting.  The core is three coupled
//! structures — a weighted-sampling sum tree, a shared-ownership reference
//! counter, and an item/metadata store — plus the integration layer that
//! binds tree slots to item identifiers and clears slots when an item's
//! last reference is released.

pub mod errors;
pub mod integration;
pub mod metadata_storage;
pub mod ref_count;
pub mod sumtree;
