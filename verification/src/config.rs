//! Terrain configuration and builder.
//!
//! All lengths are in integer world units; the two fractional knobs
//! (`mountain_threshold`, `lod_hysteresis`) are stored in per-mille, so a
//! value of 150 means 15%.

use vstd::prelude::*;

verus! {

/// Largest admissible LOD distance threshold. Keeping thresholds below this
/// bound lets the selection compare squared distances in 128-bit arithmetic
/// without overflow.
pub const MAX_LOD_DISTANCE: u64 = 0x2000_0000;

/// Largest admissible render distance (in chunks from the camera).
pub const MAX_RENDER_DISTANCE: i32 = 0x10000;

/// Largest admissible chunk size (world units).
pub const MAX_CHUNK_SIZE: u64 = 0x100000;

/// Largest admissible quadtree depth. Grid coordinates double per level, so
/// this keeps them inside `i32` for every root the camera window can reach.
pub const MAX_QUADTREE_DEPTH: u8 = 10;

/// Main configuration for the terrain system.
#[derive(Clone, Debug)]
pub struct TerrainConfig {
    /// Size of each terrain chunk in world units.
    pub chunk_size: u64,
    /// Number of chunks to render in each direction from the camera.
    pub render_distance: i32,
    /// Maximum terrain height.
    pub max_height: u64,
    /// Sea level height (terrain below this may be considered underwater).
    pub water_level: u64,
    /// Height threshold for the mountain biome, in per-mille of the
    /// normalized height range.
    pub mountain_threshold: u32,
    /// Domain warp strength for organic terrain shapes.
    pub warp_strength: u64,
    /// Depth of skirts below chunk edges to hide LOD seams.
    pub skirt_depth: u64,
    /// Distance thresholds for LOD transitions `[near, mid, far]`, ascending.
    pub lod_distances: [u64; 3],
    /// Mesh subdivisions for each LOD tier `[highest, high, medium, low]`.
    pub lod_subdivisions: [u32; 4],
    /// Maximum number of concurrent mesh generation tasks.
    pub max_concurrent_tasks: usize,
    /// Hysteresis buffer for LOD transitions, in per-mille of the distance
    /// threshold.
    pub lod_hysteresis: u32,
    /// Maximum quadtree depth.
    pub max_quadtree_depth: u8,
}

impl TerrainConfig {
    /// The bounds every usable configuration obeys: ascending thresholds,
    /// at least one mesh subdivision per tier (a zero count is a caller
    /// error, not a runtime-recoverable condition), and the machine limits
    /// that keep the selection arithmetic in range.
    pub open spec fn wf(self) -> bool {
        &&& 0 < self.chunk_size <= MAX_CHUNK_SIZE
        &&& 0 <= self.render_distance <= MAX_RENDER_DISTANCE
        &&& self.lod_distances[0] <= self.lod_distances[1]
        &&& self.lod_distances[1] <= self.lod_distances[2]
        &&& self.lod_distances[2] <= MAX_LOD_DISTANCE
        &&& self.lod_hysteresis <= 1000
        &&& self.mountain_threshold <= 1000
        &&& self.max_quadtree_depth <= MAX_QUADTREE_DEPTH
        &&& self.lod_subdivisions[0] >= 1
        &&& self.lod_subdivisions[1] >= 1
        &&& self.lod_subdivisions[2] >= 1
        &&& self.lod_subdivisions[3] >= 1
    }

    /// The configuration every field of which is the documented default.
    pub open spec fn spec_default() -> TerrainConfig {
        TerrainConfig {
            chunk_size: 100,
            render_distance: 50,
            max_height: 180,
            water_level: 15,
            mountain_threshold: 600,
            warp_strength: 60,
            skirt_depth: 50,
            lod_distances: [300u64, 1000u64, 2500u64],
            lod_subdivisions: [64u32, 32u32, 16u32, 8u32],
            max_concurrent_tasks: 8,
            lod_hysteresis: 150,
            max_quadtree_depth: 8,
        }
    }

    /// Create a new configuration with default values.
    pub fn new() -> (c: Self)
        ensures
            c == Self::spec_default(),
            c.wf(),
    {
        Self::default()
    }

    /// Create a builder for customizing the terrain configuration.
    pub fn builder() -> (b: TerrainConfigBuilder)
        ensures
            b.spec_config() == Self::spec_default(),
    {
        TerrainConfigBuilder { config: Self::default() }
    }
}

impl Default for TerrainConfig {
    /// The documented default configuration.
    fn default() -> (c: Self)
        ensures
            c == Self::spec_default(),
            c.wf(),
    {
        let c = TerrainConfig {
            chunk_size: 100,
            render_distance: 50,
            max_height: 180,
            water_level: 15,
            mountain_threshold: 600,
            warp_strength: 60,
            skirt_depth: 50,
            lod_distances: [300u64, 1000u64, 2500u64],
            lod_subdivisions: [64u32, 32u32, 16u32, 8u32],
            max_concurrent_tasks: 8,
            lod_hysteresis: 150,
            max_quadtree_depth: 8,
        };
        c
    }
}

/// Builder for creating a customized [`TerrainConfig`].
pub struct TerrainConfigBuilder {
    config: TerrainConfig,
}

impl Default for TerrainConfigBuilder {
    /// A builder starting from the default configuration.
    fn default() -> (b: Self)
        ensures
            b.spec_config() == TerrainConfig::spec_default(),
    {
        TerrainConfigBuilder { config: TerrainConfig::default() }
    }
}

impl TerrainConfigBuilder {
    /// The configuration as built so far.
    pub closed spec fn spec_config(self) -> TerrainConfig {
        self.config
    }

    /// Set the chunk size in world units.
    pub fn chunk_size(self, size: u64) -> (b: Self)
        ensures
            b.spec_config() == (TerrainConfig { chunk_size: size, ..self.spec_config() }),
    {
        let mut b = self;
        b.config.chunk_size = size;
        b
    }

    /// Set the render distance (chunks in each direction from the camera).
    pub fn render_distance(self, distance: i32) -> (b: Self)
        ensures
            b.spec_config() == (TerrainConfig { render_distance: distance, ..self.spec_config() }),
    {
        let mut b = self;
        b.config.render_distance = distance;
        b
    }

    /// Set the maximum terrain height.
    pub fn max_height(self, height: u64) -> (b: Self)
        ensures
            b.spec_config() == (TerrainConfig { max_height: height, ..self.spec_config() }),
    {
        let mut b = self;
        b.config.max_height = height;
        b
    }

    /// Set the water level.
    pub fn water_level(self, level: u64) -> (b: Self)
        ensures
            b.spec_config() == (TerrainConfig { water_level: level, ..self.spec_config() }),
    {
        let mut b = self;
        b.config.water_level = level;
        b
    }

    /// Set the mountain threshold in per-mille of the normalized height range.
    pub fn mountain_threshold(self, threshold: u32) -> (b: Self)
        ensures
            b.spec_config() == (TerrainConfig { mountain_threshold: threshold, ..self.spec_config() }),
    {
        let mut b = self;
        b.config.mountain_threshold = threshold;
        b
    }

    /// Set the domain warp strength.
    pub fn warp_strength(self, strength: u64) -> (b: Self)
        ensures
            b.spec_config() == (TerrainConfig { warp_strength: strength, ..self.spec_config() }),
    {
        let mut b = self;
        b.config.warp_strength = strength;
        b
    }

    /// Set the skirt depth for hiding LOD seams.
    pub fn skirt_depth(self, depth: u64) -> (b: Self)
        ensures
            b.spec_config() == (TerrainConfig { skirt_depth: depth, ..self.spec_config() }),
    {
        let mut b = self;
        b.config.skirt_depth = depth;
        b
    }

    /// Set the LOD distance thresholds `[near, mid, far]`.
    pub fn lod_distances(self, distances: [u64; 3]) -> (b: Self)
        ensures
            b.spec_config() == (TerrainConfig { lod_distances: distances, ..self.spec_config() }),
    {
        let mut b = self;
        b.config.lod_distances = distances;
        b
    }

    /// Set the LOD subdivisions `[highest, high, medium, low]`.
    pub fn lod_subdivisions(self, subdivisions: [u32; 4]) -> (b: Self)
        ensures
            b.spec_config() == (TerrainConfig { lod_subdivisions: subdivisions, ..self.spec_config() }),
    {
        let mut b = self;
        b.config.lod_subdivisions = subdivisions;
        b
    }

    /// Set the maximum number of concurrent mesh generation tasks.
    pub fn max_concurrent_tasks(self, max: usize) -> (b: Self)
        ensures
            b.spec_config() == (TerrainConfig { max_concurrent_tasks: max, ..self.spec_config() }),
    {
        let mut b = self;
        b.config.max_concurrent_tasks = max;
        b
    }

    /// Set the LOD hysteresis buffer in per-mille of the distance threshold.
    pub fn lod_hysteresis(self, hysteresis: u32) -> (b: Self)
        ensures
            b.spec_config() == (TerrainConfig { lod_hysteresis: hysteresis, ..self.spec_config() }),
    {
        let mut b = self;
        b.config.lod_hysteresis = hysteresis;
        b
    }

    /// Set the maximum quadtree depth.
    pub fn max_quadtree_depth(self, depth: u8) -> (b: Self)
        ensures
            b.spec_config() == (TerrainConfig { max_quadtree_depth: depth, ..self.spec_config() }),
    {
        let mut b = self;
        b.config.max_quadtree_depth = depth;
        b
    }

    /// Build the configuration.
    pub fn build(self) -> (c: TerrainConfig)
        ensures
            c == self.spec_config(),
    {
        self.config
    }
}

} // verus!
