//! A generational cycle-detecting garbage collector for a reference-counted
//! host runtime. Objects are managed primarily by host-side reference counts;
//! this library finds and reclaims reference cycles that counting alone cannot
//! free, organized over three age-based generations.

pub mod collector;
pub mod error;
pub mod gc;
pub mod generation;
pub mod object;
pub mod traversal;

pub use error::{GCError, GCResult};
pub use gc::GarbageCollector;
pub use object::{IdSource, ObjectId, PyGCHead, PyObject};

use vstd::prelude::*;

verus! {

/// Statistics reported by the collector facade.
#[derive(Debug, Clone)]
pub struct GCStats {
    /// Number of collection passes completed so far.
    pub collections: usize,
    /// Total number of objects reclaimed over all passes.
    pub collected: usize,
    /// Number of objects currently quarantined as uncollectable.
    pub uncollectable: usize,
    /// Number of objects currently tracked.
    pub total_tracked: usize,
    /// Current population of each generation.
    pub generation_counts: [usize; 3],
}

} // verus!
