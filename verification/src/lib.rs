//! A slot-based object store with recyclable integer handles.
//!
//! Values of a uniform type are inserted into a growable collection and each
//! receives a small stable integer id. Entries are retrieved or mutated by id
//! in constant time, and removed entries make their ids eligible for reuse
//! without shifting or invalidating other entries.
//!
//! Three abstractions form the design:
//! - [`IdCache`]: an id allocator that hands out and recycles small
//!   non-negative integers (a watermark counter plus a free stack);
//! - [`CacheStorage`]: dense storage pairing the allocator with a backing
//!   vector, so that an id is always the index of its slot;
//! - [`ShrinkableStorage`]: a compacting variant that defers physical removal:
//!   ids are marked free and an explicit compaction pass reclaims space and
//!   renumbers the survivors.

use vstd::prelude::*;

mod cache_storage;
mod id_cache;
mod shrinkable_storage;

pub use crate::cache_storage::CacheStorage;
pub use crate::cache_storage::StoreModel;
pub use crate::cache_storage::lemma_extend_is_repeated_insert;
pub use crate::cache_storage::lemma_insert_keeps_wf;
pub use crate::cache_storage::lemma_insert_remove_reinsert;
pub use crate::cache_storage::lemma_placed_keeps_wf;
pub use crate::cache_storage::lemma_removed_keeps_wf;
pub use crate::id_cache::AllocModel;
pub use crate::id_cache::IdCache;
pub use crate::id_cache::acquired_many;
pub use crate::id_cache::ids_view;
pub use crate::id_cache::lemma_acquire_gives_unheld_id;
pub use crate::id_cache::lemma_acquire_stack_order;
pub use crate::id_cache::lemma_seeded_acquire_all;
pub use crate::id_cache::lemma_two_acquires_distinct;
pub use crate::shrinkable_storage::ShrinkModel;
pub use crate::shrinkable_storage::ShrinkableStorage;
pub use crate::shrinkable_storage::lemma_survivors_exact;
pub use crate::shrinkable_storage::seq_swap_remove;
pub use crate::shrinkable_storage::shrunk_seq;
pub use crate::shrinkable_storage::strictly_ascending;
pub use crate::shrinkable_storage::survivor_ids;

verus! {

/// A handle for one stored value: a non-negative integer, dense, starting at
/// 0, assigned in strictly increasing order for new slots and otherwise
/// reused from the free pool.
pub type Id = usize;

} // verus!
