//! Terrain level-of-detail selection and streaming.
//!
//! The crate decides, once per simulation step, which square regions of an
//! unbounded terrain plane should be rendered and at what level of detail,
//! and tracks the asynchronous production of their meshes:
//!
//! - [`config`] holds the tuning knobs (region size, distance thresholds,
//!   concurrency limit).
//! - [`heightmap`] defines the height oracle the selection consults.
//! - [`quadtree`] recomputes each step which regions are selected, by
//!   recursive distance-based subdivision.
//! - [`streaming`] schedules mesh generation for the selected regions with a
//!   priority queue, a concurrency bound, and bookkeeping that keeps a region
//!   visible until its replacement set is fully ready.
//!
//! All geometry is carried in integer world units; callers that measure the
//! world in other units convert at the boundary.

use vstd::prelude::*;

pub mod config;
pub mod heightmap;
pub mod quadtree;
pub mod streaming;

verus! {

/// Metadata of one rendered terrain chunk: which quadtree region it stands
/// for and at which mesh subdivision count it was built.
pub struct Chunk {
    /// Grid coordinates of this chunk.
    pub coords: (i32, i32),
    /// Current LOD level for this chunk.
    pub current_lod: u32,
    /// Quadtree region id this chunk belongs to.
    pub node_id: u64,
}

} // verus!
