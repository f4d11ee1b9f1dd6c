//! A single-threaded, in-memory associative container whose entries are
//! reference counted and reached through stable, generational handles.
//!
//! The construction is layered, each layer earning its guarantees from the
//! one below:
//!
//! - [`handle_hash_map`]: the structural layer. A hash index over a slot
//!   table with generational slot identifiers. Lookups, inserts and removals
//!   are keyed by a stored 64-bit hash that is computed once, at insertion,
//!   and never recomputed; handles stay valid exactly as long as their entry
//!   and can never alias a later occupant of a reused slot.
//! - [`counted_hash_map`]: adds a per-entry reference counter whose
//!   acquire and release operations mint and consume move-only tokens.
//!   An entry is removed exactly when its counter returns to zero.
//! - [`rc_hash_map`]: the public map. Entries are reached through `Ref`
//!   values that each account for one unit of the entry's count; cloning a
//!   `Ref` increments the count, returning one decrements it, and returning
//!   the last one removes the entry and hands its key and value back to the
//!   caller, who may in turn return further `Ref`s held inside them (a
//!   cascade over an acyclic reference graph). Every accessor checks that
//!   the `Ref` was minted by the map it is used with.
//!
//! True reference cycles would keep each other alive forever, as with any
//! reference counting scheme without a cycle collector; store only acyclic
//! reference graphs.

pub mod counted_hash_map;
pub mod handle_hash_map;
pub mod keys;
pub mod laws;
pub mod rc_hash_map;
pub mod reentrancy;
pub mod tokens;

pub use handle_hash_map::Handle;
pub use handle_hash_map::HandleHashMap;
pub use handle_hash_map::InsertError;
pub use rc_hash_map::RcHashMap;
pub use rc_hash_map::Ref;
pub use rc_hash_map::WrongMap;
