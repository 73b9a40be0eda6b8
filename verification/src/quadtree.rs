//! Quadtree-based LOD selection for terrain regions.
//!
//! The terrain plane is covered by a forest of square regions, one tree per
//! root cell near the camera. Each step the tree is traversed to decide which
//! regions are selected for rendering: a region close to the camera is
//! subdivided into its four children, a distant one is selected directly at a
//! coarser detail tier.
//!
//! Geometry is integer-valued. Distances are compared as squared values, so
//! every threshold test is exact: `dist < t` holds iff
//! `4 * dist_sq < (2 * t) * (2 * t)`, and the per-depth threshold table uses
//! doubled thresholds so that even the halved deepest entry stays an integer.

use vstd::prelude::*;

use crate::config::{TerrainConfig, MAX_QUADTREE_DEPTH};
use crate::heightmap::HeightmapSource;

verus! {

/// World coordinates (of the camera and of region bounds) are kept within
/// this bound so that squared distances fit in `u64`.
pub const COORD_LIMIT: i64 = 0x4000_0000;

/// Heights reported by the oracle are clipped to this bound before they
/// enter the distance computation.
pub const HEIGHT_LIMIT: i64 = 0x4000_0000;

/// Root region ids stay below this bound; together with the depth cap it
/// keeps every derived child id (`4 * id + offset`) inside `u64`.
pub const ROOT_ID_LIMIT: u64 = 0x100_0000_0000;

/// Root grid coordinates stay within this bound; doubling per level then
/// keeps the grid coordinates of every descendant inside `i32`.
pub const ROOT_COORD_LIMIT: i32 = 0x10000;

/// `2^e`.
pub open spec fn pow2(e: nat) -> nat
    decreases e,
{
    if e == 0 {
        1
    } else {
        2 * pow2((e - 1) as nat)
    }
}

/// `4^e`.
pub open spec fn pow4(e: nat) -> nat
    decreases e,
{
    if e == 0 {
        1
    } else {
        4 * pow4((e - 1) as nat)
    }
}

/// The largest id a well-formed node of the given depth may carry: deep
/// enough below `u64::MAX` that four more child-id derivations stay in range.
pub open spec fn id_bound(depth: nat) -> int {
    ROOT_ID_LIMIT * pow4(depth) - 2
}

/// The largest grid-coordinate magnitude a well-formed node of the given
/// depth may carry.
pub open spec fn coord_bound(depth: nat) -> int {
    (ROOT_COORD_LIMIT + 1) * pow2(depth) - 1
}

/// A node in the terrain quadtree: a square region of the XZ plane.
pub struct QuadtreeNode {
    /// Unique identifier for this node.
    pub id: u64,
    /// Center of the region's bounds (world units, XZ plane).
    pub center_x: i64,
    pub center_z: i64,
    /// Half the side length of the square region.
    pub half_size: i64,
    /// LOD tier (0 = highest detail, higher = lower detail).
    pub lod_level: u8,
    /// Depth in the quadtree (0 = root).
    pub depth: u8,
    /// Grid coordinates at this node's depth.
    pub coords: (i32, i32),
    /// Render handle if this node has a spawned chunk.
    pub entity: Option<u64>,
    /// Whether this node is currently selected for rendering.
    pub selected: bool,
    /// Child nodes (`None` for a leaf).
    pub children: Option<Box<ChildNodes>>,
}

/// The four children of a subdivided node, by compass quadrant
/// (x grows east, z grows south).
pub struct ChildNodes {
    pub nw: QuadtreeNode,
    pub ne: QuadtreeNode,
    pub sw: QuadtreeNode,
    pub se: QuadtreeNode,
}

impl QuadtreeNode {
    /// The child a freshly subdivided node gets in the given quadrant:
    /// a quarter-size region, one level deeper. `dx`/`dz` are 0 for the
    /// west/north half and 1 for the east/south half.
    pub open spec fn spec_child(self, id: u64, dx: int, dz: int) -> QuadtreeNode {
        QuadtreeNode {
            id,
            center_x: (if dx == 0 { self.center_x - self.half_size / 2 } else { self.center_x + self.half_size / 2 }) as i64,
            center_z: (if dz == 0 { self.center_z - self.half_size / 2 } else { self.center_z + self.half_size / 2 }) as i64,
            half_size: (self.half_size / 2) as i64,
            lod_level: (self.depth + 1) as u8,
            depth: (self.depth + 1) as u8,
            coords: ((self.coords.0 * 2 + dx) as i32, (self.coords.1 * 2 + dz) as i32),
            entity: None,
            selected: false,
            children: None,
        }
    }

    /// The geometric relation between a node and its child in the quadrant
    /// picked by `dx`/`dz` (0 = west/north half, 1 = east/south half): a
    /// quarter of the parent's bounds, one level deeper, on the doubled grid.
    pub open spec fn child_geom(self, child: QuadtreeNode, dx: int, dz: int) -> bool {
        &&& child.center_x == (if dx == 0 { self.center_x - self.half_size / 2 } else { self.center_x + self.half_size / 2 })
        &&& child.center_z == (if dz == 0 { self.center_z - self.half_size / 2 } else { self.center_z + self.half_size / 2 })
        &&& child.half_size == self.half_size / 2
        &&& child.depth == self.depth + 1
        &&& child.coords.0 == self.coords.0 * 2 + dx
        &&& child.coords.1 == self.coords.1 * 2 + dz
    }

    /// Structural well-formedness: bounded geometry and ids, children one
    /// level deeper on the matching sub-grid with quarter bounds. A
    /// subdivided node has an even half size, so its four children tile its
    /// bounds exactly, with no uncovered ring and no overlap.
    pub open spec fn wf(self) -> bool
        decreases self,
    {
        &&& 0 <= self.half_size
        &&& -COORD_LIMIT <= self.center_x - self.half_size
        &&& self.center_x + self.half_size <= COORD_LIMIT
        &&& -COORD_LIMIT <= self.center_z - self.half_size
        &&& self.center_z + self.half_size <= COORD_LIMIT
        &&& 1 <= self.id <= id_bound(self.depth as nat)
        &&& self.depth <= MAX_QUADTREE_DEPTH
        &&& -coord_bound(self.depth as nat) <= self.coords.0 <= coord_bound(self.depth as nat)
        &&& -coord_bound(self.depth as nat) <= self.coords.1 <= coord_bound(self.depth as nat)
        &&& match self.children {
            None => true,
            Some(c) => {
                &&& self.depth < MAX_QUADTREE_DEPTH
                &&& self.half_size % 2 == 0
                &&& self.child_geom(c.nw, 0, 0) && c.nw.wf()
                &&& self.child_geom(c.ne, 1, 0) && c.ne.wf()
                &&& self.child_geom(c.sw, 0, 1) && c.sw.wf()
                &&& self.child_geom(c.se, 1, 1) && c.se.wf()
            },
        }
    }

    /// Whether every child id in the tree is derived from its parent's id by
    /// the documented scheme: offset 1..=4 appended in base four.
    pub open spec fn ids_canonical(self) -> bool
        decreases self,
    {
        match self.children {
            None => true,
            Some(c) => {
                &&& c.nw.id == 4 * self.id + 1 && c.nw.ids_canonical()
                &&& c.ne.id == 4 * self.id + 2 && c.ne.ids_canonical()
                &&& c.sw.id == 4 * self.id + 3 && c.sw.ids_canonical()
                &&& c.se.id == 4 * self.id + 4 && c.se.ids_canonical()
            },
        }
    }

    /// Create a new leaf node.
    pub fn new(id: u64, center_x: i64, center_z: i64, half_size: i64, depth: u8, coords: (i32, i32)) -> (n: Self)
        ensures
            n == (QuadtreeNode {
                id,
                center_x,
                center_z,
                half_size,
                lod_level: depth,
                depth,
                coords,
                entity: None,
                selected: false,
                children: None,
            }),
    {
        QuadtreeNode {
            id,
            center_x,
            center_z,
            half_size,
            lod_level: depth,
            depth,
            coords,
            entity: None,
            selected: false,
            children: None,
        }
    }

    /// The center of this node's region.
    pub fn center(&self) -> (c: (i64, i64))
        ensures
            c == (self.center_x, self.center_z),
    {
        (self.center_x, self.center_z)
    }

    /// The side length of this node's region (width equals height).
    pub fn size(&self) -> (s: i64)
        requires
            0 <= self.half_size < 0x4000_0000_0000_0000,
        ensures
            s == 2 * self.half_size,
    {
        self.half_size * 2
    }

    /// Whether this node is a leaf (has no children).
    pub fn is_leaf(&self) -> (r: bool)
        ensures
            r == self.children is None,
    {
        self.children.is_none()
    }

    /// Subdivide this node into four children, drawing ids from `next_id`
    /// (one increment per child, in quadrant order NW, NE, SW, SE). A node
    /// that already has children is left unchanged. The half size must be
    /// even, so the children tile this node's bounds exactly
    /// ([`lemma_children_tile`]): no uncovered ring, no overlap.
    pub fn subdivide(&mut self, next_id: &mut u64)
        requires
            old(self).wf(),
            old(self).depth < MAX_QUADTREE_DEPTH,
            old(self).half_size % 2 == 0,
            *old(next_id) + 4 <= id_bound(old(self).depth as nat + 1),
        ensures
            final(self).wf(),
            old(self).children is Some ==> *final(self) == *old(self) && *final(next_id) == *old(next_id),
            old(self).children is None ==> {
                &&& *final(next_id) == *old(next_id) + 4
                &&& *final(self) == (QuadtreeNode {
                    children: final(self).children,
                    ..*old(self)
                })
                &&& final(self).children matches Some(c) && {
                    &&& c.nw == old(self).spec_child((*old(next_id) + 1) as u64, 0, 0)
                    &&& c.ne == old(self).spec_child((*old(next_id) + 2) as u64, 1, 0)
                    &&& c.sw == old(self).spec_child((*old(next_id) + 3) as u64, 0, 1)
                    &&& c.se == old(self).spec_child((*old(next_id) + 4) as u64, 1, 1)
                }
            },
    {
        if self.children.is_some() {
            return;
        }

        proof {
            lemma_pow4_bounds(self.depth as nat);
        }

        let quarter = self.half_size / 2;
        let new_depth = self.depth + 1;

        let id_nw = *next_id + 1;
        let id_ne = *next_id + 2;
        let id_sw = *next_id + 3;
        let id_se = *next_id + 4;
        *next_id = *next_id + 4;

        let nw = QuadtreeNode::new(
            id_nw,
            self.center_x - quarter,
            self.center_z - quarter,
            quarter,
            new_depth,
            (self.coords.0 * 2, self.coords.1 * 2),
        );
        let ne = QuadtreeNode::new(
            id_ne,
            self.center_x + quarter,
            self.center_z - quarter,
            quarter,
            new_depth,
            (self.coords.0 * 2 + 1, self.coords.1 * 2),
        );
        let sw = QuadtreeNode::new(
            id_sw,
            self.center_x - quarter,
            self.center_z + quarter,
            quarter,
            new_depth,
            (self.coords.0 * 2, self.coords.1 * 2 + 1),
        );
        let se = QuadtreeNode::new(
            id_se,
            self.center_x + quarter,
            self.center_z + quarter,
            quarter,
            new_depth,
            (self.coords.0 * 2 + 1, self.coords.1 * 2 + 1),
        );

        self.children = Some(Box::new(ChildNodes { nw, ne, sw, se }));

        proof {
            let h = old(self).half_size as int;
            let cx = old(self).center_x as int;
            let cz = old(self).center_z as int;
            assert(0 <= h / 2 <= h);
            let c = *self.children.unwrap();
            assert(-COORD_LIMIT <= cx - h / 2 <= COORD_LIMIT);
            assert(-COORD_LIMIT <= cx + h / 2 <= COORD_LIMIT);
            assert(-COORD_LIMIT <= cz - h / 2 <= COORD_LIMIT);
            assert(-COORD_LIMIT <= cz + h / 2 <= COORD_LIMIT);
            let s_nw = old(self).spec_child((*old(next_id) + 1) as u64, 0, 0);
            let s_ne = old(self).spec_child((*old(next_id) + 2) as u64, 1, 0);
            let s_sw = old(self).spec_child((*old(next_id) + 3) as u64, 0, 1);
            let s_se = old(self).spec_child((*old(next_id) + 4) as u64, 1, 1);
            assert(s_nw.center_x == old(self).center_x - h / 2 && s_nw.center_z == old(self).center_z - h / 2);
            assert(s_ne.center_x == old(self).center_x + h / 2 && s_ne.center_z == old(self).center_z - h / 2);
            assert(s_sw.center_x == old(self).center_x - h / 2 && s_sw.center_z == old(self).center_z + h / 2);
            assert(s_se.center_x == old(self).center_x + h / 2 && s_se.center_z == old(self).center_z + h / 2);
            assert(c.nw == s_nw);
            assert(c.ne == s_ne);
            assert(c.sw == s_sw);
            assert(c.se == s_se);
            assert(c.nw.wf());
            assert(c.ne.wf());
            assert(c.sw.wf());
            assert(c.se.wf());
            assert(self.wf());
        }
    }

    /// Squared 3D distance from the camera to the closest point of this
    /// region's footprint, with the vertical component taken from the
    /// estimated elevation of the region.
    pub open spec fn spec_dist_sq(self, cam_x: int, cam_y: int, cam_z: int, est_height: int) -> int {
        let px = clamp_int(cam_x, self.center_x - self.half_size, self.center_x + self.half_size);
        let pz = clamp_int(cam_z, self.center_z - self.half_size, self.center_z + self.half_size);
        (px - cam_x) * (px - cam_x) + (est_height - cam_y) * (est_height - cam_y) + (pz - cam_z) * (pz - cam_z)
    }

    /// Squared distance from the camera to the closest point of this node's
    /// bounds, using the estimated terrain height for the vertical component.
    ///
    /// The squared value orders points exactly as the distance itself, and
    /// every threshold test in this module compares squares, so no precision
    /// is lost by never taking the root.
    pub fn distance_to_camera(&self, cam_x: i64, cam_y: i64, cam_z: i64, estimated_height: i64) -> (d: u64)
        requires
            self.wf(),
            -COORD_LIMIT <= cam_x <= COORD_LIMIT,
            -COORD_LIMIT <= cam_y <= COORD_LIMIT,
            -COORD_LIMIT <= cam_z <= COORD_LIMIT,
            -HEIGHT_LIMIT <= estimated_height <= HEIGHT_LIMIT,
        ensures
            d == self.spec_dist_sq(cam_x as int, cam_y as int, cam_z as int, estimated_height as int),
    {
        let min_x = self.center_x - self.half_size;
        let max_x = self.center_x + self.half_size;
        let min_z = self.center_z - self.half_size;
        let max_z = self.center_z + self.half_size;

        let closest_x = if cam_x < min_x { min_x } else if cam_x > max_x { max_x } else { cam_x };
        let closest_z = if cam_z < min_z { min_z } else if cam_z > max_z { max_z } else { cam_z };

        let dx = closest_x - cam_x;
        let dy = estimated_height - cam_y;
        let dz = closest_z - cam_z;

        proof {
            lemma_square_bound(dx as int);
            lemma_square_bound(dy as int);
            lemma_square_bound(dz as int);
        }

        (dx * dx) as u64 + (dy * dy) as u64 + (dz * dz) as u64
    }

    /// Decide whether this node should be subdivided, from the squared
    /// distance to the camera.
    fn should_subdivide(&self, dist_sq: u64, config: &TerrainConfig, max_depth: u8) -> (r: bool)
        requires
            config.wf(),
        ensures
            r == spec_should_subdivide(self.depth as int, dist_sq as int, *config, max_depth as int),
    {
        if self.depth >= max_depth {
            return false;
        }

        let t2x: u64 = if self.depth == 0 {
            4 * config.lod_distances[2]
        } else if self.depth == 1 {
            2 * config.lod_distances[2]
        } else if self.depth == 2 {
            2 * config.lod_distances[1]
        } else if self.depth == 3 {
            2 * config.lod_distances[0]
        } else {
            config.lod_distances[0]
        };

        proof {
            lemma_u64_square_bound(t2x);
        }

        4 * (dist_sq as u128) < (t2x as u128) * (t2x as u128)
    }

    /// The LOD tier for this node, from the squared distance to the camera.
    fn calculate_lod(&self, dist_sq: u64, config: &TerrainConfig) -> (lod: u8)
        requires
            config.wf(),
        ensures
            lod == spec_calculate_lod(dist_sq as int, *config),
    {
        let d0 = config.lod_distances[0];
        let d1 = config.lod_distances[1];
        let d2 = config.lod_distances[2];
        proof {
            lemma_u64_square_bound(d0);
            lemma_u64_square_bound(d1);
            lemma_u64_square_bound(d2);
        }
        if dist_sq < d0 * d0 {
            0
        } else if dist_sq < d1 * d1 {
            1
        } else if dist_sq < d2 * d2 {
            2
        } else {
            3
        }
    }

    /// Recursively recompute which nodes of this subtree are selected for
    /// rendering, from the camera position: a node nearer than its depth's
    /// threshold is subdivided (children are created on first need) and its
    /// children decide; otherwise the node itself is selected, at the LOD
    /// tier its distance falls in. The half size must halve exactly through
    /// the remaining depth budget, so that every subdivision this pass makes
    /// tiles its parent.
    #[verifier::rlimit(100)]
    pub fn select_for_rendering<O: HeightmapSource>(
        &mut self,
        cam_x: i64,
        cam_y: i64,
        cam_z: i64,
        config: &TerrainConfig,
        oracle: &O,
        max_depth: u8,
    )
        requires
            old(self).wf(),
            config.wf(),
            -COORD_LIMIT <= cam_x <= COORD_LIMIT,
            -COORD_LIMIT <= cam_y <= COORD_LIMIT,
            -COORD_LIMIT <= cam_z <= COORD_LIMIT,
            max_depth <= MAX_QUADTREE_DEPTH,
            old(self).depth <= max_depth
                ==> old(self).half_size as int
                    % (pow2((max_depth - old(self).depth) as nat) as int) == 0,
        ensures
            final(self).wf(),
            *final(self) == spec_select(
                *old(self),
                cam_x as int,
                cam_y as int,
                cam_z as int,
                *config,
                *oracle,
                max_depth as int,
            ),
        decreases max_depth as int - self.depth as int,
    {
        self.selected = false;

        let raw = oracle.sample(self.center_x, self.center_z);
        let est = if raw < -HEIGHT_LIMIT {
            -HEIGHT_LIMIT
        } else if raw > HEIGHT_LIMIT {
            HEIGHT_LIMIT
        } else {
            raw
        };
        let dist_sq = self.distance_to_camera(cam_x, cam_y, cam_z, est);
        let sub = self.should_subdivide(dist_sq, config, max_depth);

        if sub {
            proof {
                lemma_halving_keeps_divisibility(
                    self.half_size as int, (max_depth - self.depth) as nat);
            }
            if self.children.is_none() {
                proof {
                    lemma_pow4_bounds(self.depth as nat);
                }
                let mut next_id: u64 = self.id * 4;
                self.subdivide(&mut next_id);
            }

            let ghost mid = *self;
            let mut c = self.children.take().unwrap();
            let ghost c0 = *c;

            proof {
                assert(c0 == spec_ensure_children(*old(self)));
                assert(c0.nw.wf() && c0.ne.wf() && c0.sw.wf() && c0.se.wf());
                assert(c0.nw.depth == old(self).depth + 1);
            }

            c.nw.select_for_rendering(cam_x, cam_y, cam_z, config, oracle, max_depth);
            c.ne.select_for_rendering(cam_x, cam_y, cam_z, config, oracle, max_depth);
            c.sw.select_for_rendering(cam_x, cam_y, cam_z, config, oracle, max_depth);
            c.se.select_for_rendering(cam_x, cam_y, cam_z, config, oracle, max_depth);

            self.children = Some(c);

            proof {
                lemma_select_keeps_frame(
                    c0.nw, cam_x as int, cam_y as int, cam_z as int, *config, *oracle, max_depth as int);
                lemma_select_keeps_frame(
                    c0.ne, cam_x as int, cam_y as int, cam_z as int, *config, *oracle, max_depth as int);
                lemma_select_keeps_frame(
                    c0.sw, cam_x as int, cam_y as int, cam_z as int, *config, *oracle, max_depth as int);
                lemma_select_keeps_frame(
                    c0.se, cam_x as int, cam_y as int, cam_z as int, *config, *oracle, max_depth as int);
                assert(self.wf());
                assert(*self == spec_select(
                    *old(self), cam_x as int, cam_y as int, cam_z as int, *config, *oracle, max_depth as int));
            }
        } else {
            self.lod_level = self.calculate_lod(dist_sq, config);
            self.selected = true;
        }
    }

    /// The mesh subdivision count for this node's LOD tier.
    pub fn subdivisions(&self, config: &TerrainConfig) -> (s: u32)
        requires
            self.lod_level < 4,
        ensures
            s == config.lod_subdivisions[self.lod_level as int],
    {
        config.lod_subdivisions[self.lod_level as usize]
    }

    /// This node's rendering summary.
    pub open spec fn to_selected(self) -> SelectedNode {
        SelectedNode {
            id: self.id,
            center_x: self.center_x,
            center_z: self.center_z,
            half_size: self.half_size,
            lod_level: self.lod_level,
            coords: self.coords,
            entity: self.entity,
        }
    }

    /// The selected regions of this subtree, in depth-first order, stopping
    /// at the first selected node on each path: descendants of a selected
    /// node are never reported, which is what makes the result a partition.
    pub open spec fn spec_collected(self) -> Seq<SelectedNode>
        decreases self,
    {
        if self.selected {
            seq![self.to_selected()]
        } else {
            match self.children {
                None => Seq::empty(),
                Some(c) => c.nw.spec_collected() + c.ne.spec_collected() + c.sw.spec_collected()
                    + c.se.spec_collected(),
            }
        }
    }

    /// Append every currently selected region of this subtree to `selected`,
    /// stopping at the first selected ancestor on each path.
    pub fn collect_selected(&self, selected: &mut Vec<SelectedNode>)
        ensures
            final(selected)@ == old(selected)@ + self.spec_collected(),
        decreases self,
    {
        if self.selected {
            selected.push(SelectedNode {
                id: self.id,
                center_x: self.center_x,
                center_z: self.center_z,
                half_size: self.half_size,
                lod_level: self.lod_level,
                coords: self.coords,
                entity: self.entity,
            });
        } else if let Some(c) = &self.children {
            c.nw.collect_selected(selected);
            c.ne.collect_selected(selected);
            c.sw.collect_selected(selected);
            c.se.collect_selected(selected);
            proof {
                assert(final(selected)@ =~= old(selected)@ + self.spec_collected());
            }
        } else {
            proof {
                assert(final(selected)@ =~= old(selected)@ + self.spec_collected());
            }
        }
    }

    /// The first node of this subtree carrying the given id, in depth-first
    /// order.
    pub open spec fn spec_find(self, id: u64) -> Option<QuadtreeNode>
        decreases self,
    {
        if self.id == id {
            Some(self)
        } else {
            match self.children {
                None => None,
                Some(c) => if c.nw.spec_find(id) is Some {
                    c.nw.spec_find(id)
                } else if c.ne.spec_find(id) is Some {
                    c.ne.spec_find(id)
                } else if c.sw.spec_find(id) is Some {
                    c.sw.spec_find(id)
                } else {
                    c.se.spec_find(id)
                },
            }
        }
    }

    /// Find the node with the given id in this subtree.
    pub fn find_in_node(&self, id: u64) -> (r: Option<&QuadtreeNode>)
        ensures
            r matches Some(n) ==> self.spec_find(id) == Some(*n),
            r is None ==> self.spec_find(id) is None,
        decreases self,
    {
        if self.id == id {
            return Some(self);
        }
        if let Some(c) = &self.children {
            let r = c.nw.find_in_node(id);
            if r.is_some() {
                return r;
            }
            let r = c.ne.find_in_node(id);
            if r.is_some() {
                return r;
            }
            let r = c.sw.find_in_node(id);
            if r.is_some() {
                return r;
            }
            return c.se.find_in_node(id);
        }
        None
    }

    /// This tree with the node [`QuadtreeNode::spec_find`] locates replaced
    /// by `new`; the tree itself if the id is absent.
    pub open spec fn spec_replace(self, id: u64, new: QuadtreeNode) -> QuadtreeNode
        decreases self,
    {
        if self.id == id {
            new
        } else {
            match self.children {
                None => self,
                Some(c) => if c.nw.spec_find(id) is Some {
                    QuadtreeNode {
                        children: Some(Box::new(ChildNodes { nw: c.nw.spec_replace(id, new), ..*c })),
                        ..self
                    }
                } else if c.ne.spec_find(id) is Some {
                    QuadtreeNode {
                        children: Some(Box::new(ChildNodes { ne: c.ne.spec_replace(id, new), ..*c })),
                        ..self
                    }
                } else if c.sw.spec_find(id) is Some {
                    QuadtreeNode {
                        children: Some(Box::new(ChildNodes { sw: c.sw.spec_replace(id, new), ..*c })),
                        ..self
                    }
                } else if c.se.spec_find(id) is Some {
                    QuadtreeNode {
                        children: Some(Box::new(ChildNodes { se: c.se.spec_replace(id, new), ..*c })),
                        ..self
                    }
                } else {
                    self
                },
            }
        }
    }

    /// Find the node with the given id in this subtree, mutably: the caller
    /// receives the node [`QuadtreeNode::spec_find`] locates, and whatever it
    /// makes of it stands at that node's place afterwards.
    pub fn find_in_node_mut(&mut self, id: u64) -> (r: Option<&mut QuadtreeNode>)
        ensures
            old(self).spec_find(id) is None
                ==> r is None && *final(self) == *old(self),
            old(self).spec_find(id) matches Some(found) ==> r matches Some(n) && {
                &&& *n == found
                &&& *final(self) == old(self).spec_replace(id, *final(n))
            },
        decreases *self,
    {
        if self.id == id {
            return Some(self);
        }
        match &mut self.children {
            None => None,
            Some(c) => {
                if c.nw.find_in_node(id).is_some() {
                    c.nw.find_in_node_mut(id)
                } else if c.ne.find_in_node(id).is_some() {
                    c.ne.find_in_node_mut(id)
                } else if c.sw.find_in_node(id).is_some() {
                    c.sw.find_in_node_mut(id)
                } else if c.se.find_in_node(id).is_some() {
                    c.se.find_in_node_mut(id)
                } else {
                    None
                }
            },
        }
    }
}

/// A node that has been selected for rendering.
#[derive(Clone, Copy, Debug)]
pub struct SelectedNode {
    /// Region id.
    pub id: u64,
    /// Center of the region's bounds.
    pub center_x: i64,
    pub center_z: i64,
    /// Half the side length of the square region.
    pub half_size: i64,
    /// LOD tier the region was selected at.
    pub lod_level: u8,
    /// Grid coordinates at the region's depth.
    pub coords: (i32, i32),
    /// Render handle if the region already has a spawned chunk.
    pub entity: Option<u64>,
}

/// `v` clamped into `[lo, hi]`.
pub open spec fn clamp_int(v: int, lo: int, hi: int) -> int {
    if v < lo {
        lo
    } else if v > hi {
        hi
    } else {
        v
    }
}

/// `h` clipped into the admissible height band.
pub open spec fn clip_height(h: int) -> int {
    clamp_int(h, -HEIGHT_LIMIT as int, HEIGHT_LIMIT as int)
}

/// Twice the subdivision threshold for a node of the given depth: finer
/// thresholds deeper in the tree. Doubling keeps the halved deepest entry an
/// integer; the comparison squares both sides, so
/// `dist < threshold(depth)` iff `4 * dist_sq < threshold_2x(depth)^2`.
pub open spec fn spec_subdivide_threshold_2x(depth: int, config: TerrainConfig) -> int {
    if depth == 0 {
        4 * config.lod_distances[2]
    } else if depth == 1 {
        2 * config.lod_distances[2]
    } else if depth == 2 {
        2 * config.lod_distances[1]
    } else if depth == 3 {
        2 * config.lod_distances[0]
    } else {
        config.lod_distances[0] as int
    }
}

/// Whether a node of the given depth and squared camera distance is
/// subdivided: it must be above the depth cap and nearer than the per-depth
/// threshold.
pub open spec fn spec_should_subdivide(depth: int, dist_sq: int, config: TerrainConfig, max_depth: int) -> bool {
    &&& depth < max_depth
    &&& 4 * dist_sq < spec_subdivide_threshold_2x(depth, config) * spec_subdivide_threshold_2x(depth, config)
}

/// The LOD tier for a selected node: tier `i` iff the distance is below the
/// `i`-th ascending threshold, tier 3 beyond them all.
pub open spec fn spec_calculate_lod(dist_sq: int, config: TerrainConfig) -> u8 {
    if dist_sq < config.lod_distances[0] * config.lod_distances[0] {
        0
    } else if dist_sq < config.lod_distances[1] * config.lod_distances[1] {
        1
    } else if dist_sq < config.lod_distances[2] * config.lod_distances[2] {
        2
    } else {
        3
    }
}

/// The children a node acquires when the selection subdivides it and none
/// exist yet: four quarter regions with the canonical ids `4 * id + 1..=4`.
pub open spec fn spec_fresh_children(node: QuadtreeNode) -> ChildNodes {
    ChildNodes {
        nw: node.spec_child((4 * node.id + 1) as u64, 0, 0),
        ne: node.spec_child((4 * node.id + 2) as u64, 1, 0),
        sw: node.spec_child((4 * node.id + 3) as u64, 0, 1),
        se: node.spec_child((4 * node.id + 4) as u64, 1, 1),
    }
}

/// The children the selection recurses into: the existing ones if the node
/// was subdivided before, else fresh ones.
pub open spec fn spec_ensure_children(node: QuadtreeNode) -> ChildNodes {
    match node.children {
        Some(c) => *c,
        None => spec_fresh_children(node),
    }
}

/// One selection pass over a subtree, with an explicit recursion budget.
/// On trees whose children sit one level below their parent (part of
/// [`QuadtreeNode::wf`]) the budget `max_depth - depth` never runs out
/// before the depth test does, so this equals what the traversal computes.
pub open spec fn spec_select_fuel<O: HeightmapSource>(
    node: QuadtreeNode,
    cam_x: int,
    cam_y: int,
    cam_z: int,
    config: TerrainConfig,
    oracle: O,
    max_depth: int,
    fuel: nat,
) -> QuadtreeNode
    decreases fuel,
{
    let est = clip_height(oracle.spec_sample(node.center_x, node.center_z) as int);
    let dist_sq = node.spec_dist_sq(cam_x, cam_y, cam_z, est);
    if spec_should_subdivide(node.depth as int, dist_sq, config, max_depth) && fuel > 0 {
        let c = spec_ensure_children(node);
        QuadtreeNode {
            selected: false,
            children: Some(Box::new(ChildNodes {
                nw: spec_select_fuel(c.nw, cam_x, cam_y, cam_z, config, oracle, max_depth, (fuel - 1) as nat),
                ne: spec_select_fuel(c.ne, cam_x, cam_y, cam_z, config, oracle, max_depth, (fuel - 1) as nat),
                sw: spec_select_fuel(c.sw, cam_x, cam_y, cam_z, config, oracle, max_depth, (fuel - 1) as nat),
                se: spec_select_fuel(c.se, cam_x, cam_y, cam_z, config, oracle, max_depth, (fuel - 1) as nat),
            })),
            ..node
        }
    } else {
        QuadtreeNode {
            selected: true,
            lod_level: spec_calculate_lod(dist_sq, config),
            ..node
        }
    }
}

/// What one selection pass makes of a subtree rooted at `node`.
pub open spec fn spec_select<O: HeightmapSource>(
    node: QuadtreeNode,
    cam_x: int,
    cam_y: int,
    cam_z: int,
    config: TerrainConfig,
    oracle: O,
    max_depth: int,
) -> QuadtreeNode {
    let fuel = if node.depth <= max_depth {
        (max_depth - node.depth) as nat
    } else {
        0
    };
    spec_select_fuel(node, cam_x, cam_y, cam_z, config, oracle, max_depth, fuel)
}

/// Selection only rewrites the selection flag, the LOD tier and the
/// children: identity, geometry and spawn handle stay as they were.
proof fn lemma_select_keeps_frame<O: HeightmapSource>(
    node: QuadtreeNode,
    cam_x: int,
    cam_y: int,
    cam_z: int,
    config: TerrainConfig,
    oracle: O,
    max_depth: int,
)
    ensures
        ({
            let r = spec_select(node, cam_x, cam_y, cam_z, config, oracle, max_depth);
            &&& r.id == node.id
            &&& r.center_x == node.center_x
            &&& r.center_z == node.center_z
            &&& r.half_size == node.half_size
            &&& r.depth == node.depth
            &&& r.coords == node.coords
            &&& r.entity == node.entity
        }),
{
}

/// A value no larger than `2^31` has a square no larger than `2^62`.
proof fn lemma_u64_square_bound(v: u64)
    requires
        v <= 0x8000_0000,
    ensures
        v * v <= 0x4000_0000_0000_0000,
{
    assert(v * v <= 0x4000_0000_0000_0000) by (nonlinear_arith)
        requires v <= 0x8000_0000;
}

/// A difference of two coordinates within the world bound has a square
/// below `2^62`.
proof fn lemma_square_bound(d: int)
    requires
        -2 * COORD_LIMIT <= d <= 2 * COORD_LIMIT,
    ensures
        0 <= d * d <= 0x4000_0000_0000_0000,
{
    assert(0 <= d * d <= 0x4000_0000_0000_0000) by (nonlinear_arith)
        requires -0x8000_0000 <= d <= 0x8000_0000;
}

/// `pow4` and `pow2` stay positive and grow with depth; at the capped depth
/// they are still small enough for the id and coordinate arithmetic.
proof fn lemma_pow4_bounds(d: nat)
    requires
        d < MAX_QUADTREE_DEPTH,
    ensures
        pow4(d + 1) == 4 * pow4(d),
        pow2(d + 1) == 2 * pow2(d),
        1 <= pow4(d),
        1 <= pow2(d),
        pow4(d + 1) <= 0x100000,
        pow2(d + 1) <= 0x400,
{
    assert(pow4(d + 1) == 4 * pow4(d));
    assert(pow2(d + 1) == 2 * pow2(d));
    lemma_pow_positive(d);
    lemma_pow_mono(d + 1, MAX_QUADTREE_DEPTH as nat);
    assert(pow4(MAX_QUADTREE_DEPTH as nat) == 0x100000 && pow2(MAX_QUADTREE_DEPTH as nat) == 0x400) by {
        reveal_with_fuel(pow4, 11);
        reveal_with_fuel(pow2, 11);
    }
}

/// Powers of two and four are at least one.
proof fn lemma_pow_positive(d: nat)
    ensures
        1 <= pow4(d),
        1 <= pow2(d),
    decreases d,
{
    if d > 0 {
        lemma_pow_positive((d - 1) as nat);
    }
}

/// A value divisible by `2^k` with `k >= 1` is even, and its exact half is
/// divisible by `2^(k-1)`: the halving budget survives one subdivision.
proof fn lemma_halving_keeps_divisibility(h: int, k: nat)
    requires
        k >= 1,
        0 <= h,
        h % (pow2(k) as int) == 0,
    ensures
        h % 2 == 0,
        (h / 2) % (pow2((k - 1) as nat) as int) == 0,
{
    let p = pow2((k - 1) as nat) as int;
    lemma_pow_positive((k - 1) as nat);
    assert(pow2(k) == 2 * pow2((k - 1) as nat));
    let q = h / (2 * p);
    vstd::arithmetic::div_mod::lemma_fundamental_div_mod(h, 2 * p);
    assert(h == 2 * p * q);
    assert(h == (p * q) * 2 && h == 2 * (p * q) && q * p == p * q) by (nonlinear_arith)
        requires h == 2 * p * q;
    vstd::arithmetic::div_mod::lemma_mod_multiples_basic(p * q, 2);
    vstd::arithmetic::div_mod::lemma_div_multiples_vanish(p * q, 2);
    assert(h / 2 == p * q);
    vstd::arithmetic::div_mod::lemma_mod_multiples_basic(q, p);
    assert((p * q) % p == 0);
}

/// Powers of two and four do not decrease with the exponent.
proof fn lemma_pow_mono(a: nat, b: nat)
    requires
        a <= b,
    ensures
        pow4(a) <= pow4(b),
        pow2(a) <= pow2(b),
    decreases b,
{
    if a < b {
        lemma_pow_mono(a, (b - 1) as nat);
        lemma_pow_positive((b - 1) as nat);
    }
}


/// One root cell of the quadtree forest.
pub struct RootEntry {
    /// The root's grid cell.
    pub coords: (i32, i32),
    /// The tree rooted at that cell.
    pub node: QuadtreeNode,
}

/// No two entries share a grid cell.
pub open spec fn entries_unique(s: Seq<RootEntry>) -> bool {
    forall |i: int, j: int| 0 <= i < j < s.len() ==> (#[trigger] s[i]).coords != (#[trigger] s[j]).coords
}

/// Whether some entry occupies the given grid cell.
pub open spec fn entries_contain(s: Seq<RootEntry>, k: (i32, i32)) -> bool {
    exists |i: int| 0 <= i < s.len() && (#[trigger] s[i]).coords == k
}

/// The index of the entry at the given grid cell.
pub open spec fn entry_index(s: Seq<RootEntry>, k: (i32, i32)) -> int {
    choose |i: int| 0 <= i < s.len() && (#[trigger] s[i]).coords == k
}

/// The tree at the given grid cell.
pub open spec fn entry_at(s: Seq<RootEntry>, k: (i32, i32)) -> QuadtreeNode {
    s[entry_index(s, k)].node
}

/// Looking a cell up is insensitive to entry order once keys are unique:
/// any entry whose cell is `k` is the entry the view reports.
proof fn lemma_entry_at_index(s: Seq<RootEntry>, i: int)
    requires
        entries_unique(s),
        0 <= i < s.len(),
    ensures
        entries_contain(s, s[i].coords),
        entry_index(s, s[i].coords) == i,
        entry_at(s, s[i].coords) == s[i].node,
{
    assert(entries_contain(s, s[i].coords));
    let j = entry_index(s, s[i].coords);
    assert(0 <= j < s.len() && s[j].coords == s[i].coords);
    if i != j {
        assert(s[i].coords != s[j].coords);
    }
}


/// The terrain quadtree resource that manages all terrain nodes: a forest of
/// root cells on a fixed grid, each the origin of distance-based subdivision.
pub struct TerrainQuadtree {
    /// Root trees of the forest, keyed by their grid cell; at most one tree
    /// per cell.
    pub roots: Vec<RootEntry>,
    /// Maximum depth of the quadtree.
    pub max_depth: u8,
    /// Side length of each root region, in world units.
    pub root_size: i64,
    /// Next available root id.
    pub next_id: u64,
}

impl TerrainQuadtree {
    /// The next root id to be assigned.
    pub open spec fn spec_next_id(self) -> u64 {
        self.next_id
    }

    /// The fresh tree planted at a grid cell: a leaf covering the whole cell.
    pub open spec fn spec_fresh_root(self, k: (i32, i32), id: u64) -> QuadtreeNode {
        QuadtreeNode {
            id,
            center_x: (k.0 * self.root_size) as i64,
            center_z: (k.1 * self.root_size) as i64,
            half_size: (self.root_size / 2) as i64,
            lod_level: 0,
            depth: 0,
            coords: k,
            entity: None,
            selected: false,
            children: None,
        }
    }

    /// One root entry as the forest keeps it: a well-formed, totally
    /// selected, canonically numbered tree of depth 0, sitting on its grid
    /// cell, with the cell's bounds. Roots only ever enter the forest fresh
    /// out of a selection pass, so selection is total over every tree the
    /// forest holds, and every child id is derived from its parent's.
    pub open spec fn entry_wf(self, e: RootEntry) -> bool {
        &&& e.node.wf()
        &&& e.node.sel_total()
        &&& e.node.ids_canonical()
        &&& e.node.depth == 0
        &&& e.node.coords == e.coords
        &&& -ROOT_COORD_LIMIT <= e.coords.0 <= ROOT_COORD_LIMIT
        &&& -ROOT_COORD_LIMIT <= e.coords.1 <= ROOT_COORD_LIMIT
        &&& e.node.center_x == e.coords.0 * self.root_size
        &&& e.node.center_z == e.coords.1 * self.root_size
        &&& e.node.half_size == self.root_size / 2
    }

    /// Well-formedness of the whole forest: bounded parameters, one tree per
    /// cell, every tree well-formed on its cell. The root size is exactly
    /// halvable through the whole depth budget, so subdivision never loses a
    /// unit to rounding and the selected regions tile each root cell
    /// exactly.
    pub open spec fn wf(self) -> bool {
        &&& 1 <= self.root_size <= 0x2000
        &&& self.max_depth <= MAX_QUADTREE_DEPTH
        &&& self.root_size as int % (pow2((self.max_depth + 1) as nat) as int) == 0
        &&& entries_unique(self.roots@)
        &&& forall |i: int| 0 <= i < self.roots@.len() ==> self.entry_wf(#[trigger] self.roots@[i])
    }

    /// Create a new quadtree with the given configuration. The root size
    /// must be divisible by two one more time than the depth budget, so that
    /// every subdivision down to `max_depth` halves exactly.
    pub fn new(max_depth: u8, root_size: i64) -> (t: Self)
        requires
            max_depth <= MAX_QUADTREE_DEPTH,
            1 <= root_size <= 0x2000,
            root_size as int % (pow2((max_depth + 1) as nat) as int) == 0,
        ensures
            t.wf(),
            t.roots@.len() == 0,
            t.max_depth == max_depth,
            t.root_size == root_size,
            t.spec_next_id() == 0,
    {
        TerrainQuadtree { roots: Vec::new(), max_depth, root_size, next_id: 0 }
    }

    /// Find the index of the root entry for a grid cell.
    fn root_index_of(&self, k: (i32, i32)) -> (r: Option<usize>)
        requires
            entries_unique(self.roots@),
        ensures
            match r {
                Some(i) => i < self.roots@.len() && self.roots@[i as int].coords == k,
                None => !entries_contain(self.roots@, k),
            },
    {
        let mut i: usize = 0;
        while i < self.roots.len()
            invariant
                i <= self.roots@.len(),
                forall |j: int| 0 <= j < i ==> (#[trigger] self.roots@[j]).coords != k,
            decreases self.roots@.len() - i,
        {
            let e = &self.roots[i];
            if e.coords.0 == k.0 && e.coords.1 == k.1 {
                return Some(i);
            }
            i += 1;
        }
        None
    }

    /// Collect all nodes that should be rendered, over the whole forest, in
    /// root order.
    pub fn collect_selected_nodes(&self) -> (r: Vec<SelectedNode>)
        ensures
            r@ == self.spec_collected_nodes(),
    {
        let mut selected: Vec<SelectedNode> = Vec::new();
        let mut i: usize = 0;
        while i < self.roots.len()
            invariant
                i <= self.roots@.len(),
                selected@ == spec_collect_roots(self.roots@.take(i as int)),
            decreases self.roots@.len() - i,
        {
            proof {
                assert(self.roots@.take(i + 1).drop_last() =~= self.roots@.take(i as int));
                assert(self.roots@.take(i + 1).last() == self.roots@[i as int]);
            }
            self.roots[i].node.collect_selected(&mut selected);
            i += 1;
        }
        proof {
            assert(self.roots@.take(self.roots@.len() as int) =~= self.roots@);
        }
        selected
    }

    /// Every selected region of the forest, in root order.
    pub open spec fn spec_collected_nodes(self) -> Seq<SelectedNode> {
        spec_collect_roots(self.roots@)
    }

    /// Find a node by its id, searching each root tree in order: the result
    /// is the find of the first root tree that holds the id.
    pub fn find_node(&self, id: u64) -> (r: Option<&QuadtreeNode>)
        ensures
            r matches Some(n) ==> n.id == id && exists |i: int| {
                &&& 0 <= i < self.roots@.len()
                &&& (#[trigger] self.roots@[i]).node.spec_find(id) == Some(*n)
                &&& forall |j: int| 0 <= j < i
                    ==> (#[trigger] self.roots@[j]).node.spec_find(id) is None
            },
            r is None ==> forall |i: int| 0 <= i < self.roots@.len()
                ==> (#[trigger] self.roots@[i]).node.spec_find(id) is None,
    {
        let mut i: usize = 0;
        while i < self.roots.len()
            invariant
                i <= self.roots@.len(),
                forall |j: int| 0 <= j < i ==> (#[trigger] self.roots@[j]).node.spec_find(id) is None,
            decreases self.roots@.len() - i,
        {
            let r = self.roots[i].node.find_in_node(id);
            if r.is_some() {
                proof {
                    lemma_spec_find_id(self.roots@[i as int].node, id);
                }
                return r;
            }
            i += 1;
        }
        None
    }

    /// Find a node by its id, mutably, searching each root tree in order:
    /// the caller receives the node the first holding tree locates, and
    /// whatever it makes of it stands at that node's place afterwards.
    /// Mutating the node can break the forest's well-formedness; it is the
    /// caller's to restore before the next update.
    pub fn find_node_mut(&mut self, id: u64) -> (r: Option<&mut QuadtreeNode>)
        ensures
            r is None ==> *final(self) == *old(self)
                && forall |i: int| 0 <= i < old(self).roots@.len()
                    ==> (#[trigger] old(self).roots@[i]).node.spec_find(id) is None,
            r matches Some(n) ==> {
                &&& final(self).max_depth == old(self).max_depth
                &&& final(self).root_size == old(self).root_size
                &&& final(self).spec_next_id() == old(self).spec_next_id()
                &&& exists |i: int| {
                    &&& 0 <= i < old(self).roots@.len()
                    &&& (forall |j: int| 0 <= j < i
                        ==> (#[trigger] old(self).roots@[j]).node.spec_find(id) is None)
                    &&& (#[trigger] old(self).roots@[i]).node.spec_find(id) == Some(*n)
                    &&& final(self).roots@ == old(self).roots@.update(i, RootEntry {
                        coords: old(self).roots@[i].coords,
                        node: old(self).roots@[i].node.spec_replace(id, *final(n)),
                    })
                }
            },
    {
        let n = self.roots.len();
        let mut i: usize = 0;
        while i < n
            invariant
                *self == *old(self),
                n == self.roots@.len(),
                i <= n,
                forall |j: int| 0 <= j < i ==> (#[trigger] self.roots@[j]).node.spec_find(id) is None,
            decreases n - i,
        {
            if self.roots[i].node.find_in_node(id).is_some() {
                let entry = &mut self.roots[i];
                let r = entry.node.find_in_node_mut(id);
                return r;
            }
            i += 1;
        }
        None
    }
}

impl Default for TerrainQuadtree {
    /// An empty forest with the documented default parameters: depth 4 and
    /// root regions of 800 units (8 times the default chunk size of 100).
    fn default() -> (t: Self)
        ensures
            t.wf(),
            t.roots@.len() == 0,
            t.max_depth == 4,
            t.root_size == 800,
            t.spec_next_id() == 0,
    {
        let t = TerrainQuadtree { roots: Vec::new(), max_depth: 4, root_size: 800, next_id: 0 };
        proof {
            assert(pow2(5) == 32) by {
                reveal_with_fuel(pow2, 6);
            }
            assert((t.max_depth + 1) as nat == 5);
            assert(t.root_size as int % (pow2((t.max_depth + 1) as nat) as int) == 0);
            assert(t.wf());
        }
        t
    }
}

/// The selected regions of a sequence of root trees, concatenated in order.
pub open spec fn spec_collect_roots(s: Seq<RootEntry>) -> Seq<SelectedNode>
    decreases s.len(),
{
    if s.len() == 0 {
        Seq::empty()
    } else {
        spec_collect_roots(s.drop_last()) + s.last().node.spec_collected()
    }
}

/// A found node carries the id it was searched for.
proof fn lemma_spec_find_id(node: QuadtreeNode, id: u64)
    ensures
        node.spec_find(id) matches Some(n) ==> n.id == id,
    decreases node,
{
    match node.children {
        None => {},
        Some(c) => {
            lemma_spec_find_id(c.nw, id);
            lemma_spec_find_id(c.ne, id);
            lemma_spec_find_id(c.sw, id);
            lemma_spec_find_id(c.se, id);
        },
    }
}


/// `a / b` rounded to the nearest integer (halves toward positive infinity).
pub open spec fn spec_round_div(a: int, b: int) -> int {
    (2 * a + b) / (2 * b)
}

/// Whether grid cell `k` lies in the square window of radius `n` around
/// `(rx, rz)`.
pub open spec fn in_window(k: (i32, i32), rx: int, rz: int, n: int) -> bool {
    rx - n <= k.0 <= rx + n && rz - n <= k.1 <= rz + n
}

/// `a / b` rounded to the nearest integer, halves toward positive infinity.
fn round_div(a: i64, b: i64) -> (q: i64)
    requires
        1 <= b <= 0x2000,
        -0x2000_0000 <= a <= 0x2000_0000,
    ensures
        q == spec_round_div(a as int, b as int),
{
    let n = 2 * a + b;
    let d = 2 * b;
    let shifted = n + 0x4000_0000 * d;
    proof {
        assert(shifted >= 0);
        vstd::arithmetic::div_mod::lemma_hoist_over_denominator(
            n as int, 0x4000_0000, d as nat);
        assert((n + 0x4000_0000 * d) / (d as int) == n as int / d as int + 0x4000_0000);
    }
    shifted / d - 0x4000_0000
}

impl TerrainQuadtree {
    /// The grid cell of the camera, on each axis the nearest multiple of the
    /// root size.
    pub open spec fn spec_center_cell(self, cam: int) -> int {
        spec_round_div(cam, self.root_size as int)
    }

    /// How many root cells in each direction of the camera's cell the update
    /// maintains, from the configured render span.
    pub open spec fn spec_window_radius(self, config: TerrainConfig) -> int {
        (config.render_distance * config.chunk_size + self.root_size - 1) / (self.root_size as int) + 1
    }

    /// The state a window cell has after the update visited it: its tree
    /// exists and is exactly one selection pass over what stood there before,
    /// or over a fresh root whose id was drawn from the id counter.
    pub open spec fn cell_updated<O: HeightmapSource>(
        self,
        m0: Seq<RootEntry>,
        old_next: u64,
        k: (i32, i32),
        cam_x: int,
        cam_y: int,
        cam_z: int,
        config: TerrainConfig,
        oracle: O,
    ) -> bool {
        &&& entries_contain(self.roots@, k)
        &&& (entries_contain(m0, k) ==> entry_at(self.roots@, k) == spec_select(
            entry_at(m0, k), cam_x, cam_y, cam_z, config, oracle, self.max_depth as int))
        &&& (!entries_contain(m0, k) ==> exists |rid: u64|
            old_next < rid <= self.spec_next_id()
                && entry_at(self.roots@, k) == spec_select(
                    #[trigger] self.spec_fresh_root(k, rid),
                    cam_x, cam_y, cam_z, config, oracle, self.max_depth as int))
    }

    /// Ensure the root at cell `k` exists (creating it with the next id if
    /// absent) and run one selection pass over it. No other cell changes.
    fn visit_cell<O: HeightmapSource>(
        &mut self,
        k: (i32, i32),
        cam_x: i64,
        cam_y: i64,
        cam_z: i64,
        config: &TerrainConfig,
        oracle: &O,
    )
        requires
            old(self).wf(),
            config.wf(),
            -COORD_LIMIT <= cam_x <= COORD_LIMIT,
            -COORD_LIMIT <= cam_y <= COORD_LIMIT,
            -COORD_LIMIT <= cam_z <= COORD_LIMIT,
            -ROOT_COORD_LIMIT <= k.0 <= ROOT_COORD_LIMIT,
            -ROOT_COORD_LIMIT <= k.1 <= ROOT_COORD_LIMIT,
            old(self).spec_next_id() < 0xFF_FFFF_FFFE,
        ensures
            final(self).wf(),
            final(self).max_depth == old(self).max_depth,
            final(self).root_size == old(self).root_size,
            entries_contain(final(self).roots@, k),
            entries_contain(old(self).roots@, k) ==> {
                &&& final(self).spec_next_id() == old(self).spec_next_id()
                &&& entry_at(final(self).roots@, k) == spec_select(
                    entry_at(old(self).roots@, k),
                    cam_x as int, cam_y as int, cam_z as int,
                    *config, *oracle, old(self).max_depth as int)
            },
            !entries_contain(old(self).roots@, k) ==> {
                &&& final(self).spec_next_id() == old(self).spec_next_id() + 1
                &&& entry_at(final(self).roots@, k) == spec_select(
                    old(self).spec_fresh_root(k, (old(self).spec_next_id() + 1) as u64),
                    cam_x as int, cam_y as int, cam_z as int,
                    *config, *oracle, old(self).max_depth as int)
            },
            forall |k2: (i32, i32)| k2 != k
                ==> (#[trigger] entries_contain(final(self).roots@, k2)
                    <==> entries_contain(old(self).roots@, k2)),
            forall |k2: (i32, i32)| k2 != k && entries_contain(old(self).roots@, k2)
                ==> #[trigger] entry_at(final(self).roots@, k2) == entry_at(old(self).roots@, k2),
    {
        let found = self.root_index_of(k);
        match found {
            Some(i) => {
                proof {
                    lemma_entry_at_index(self.roots@, i as int);
                    lemma_remove_entry(self.roots@, i as int);
                    lemma_halving_keeps_divisibility(
                        self.root_size as int, (self.max_depth + 1) as nat);
                }
                let mut e = self.roots.remove(i);
                e.node.select_for_rendering(cam_x, cam_y, cam_z, config, oracle, self.max_depth);
                proof {
                    lemma_select_keeps_frame(
                        entry_at(old(self).roots@, k),
                        cam_x as int, cam_y as int, cam_z as int,
                        *config, *oracle, old(self).max_depth as int);
                    lemma_select_total(
                        entry_at(old(self).roots@, k),
                        cam_x as int, cam_y as int, cam_z as int,
                        *config, *oracle, old(self).max_depth as int);
                    lemma_select_ids_canonical(
                        entry_at(old(self).roots@, k),
                        cam_x as int, cam_y as int, cam_z as int,
                        *config, *oracle, old(self).max_depth as int,
                        old(self).max_depth as nat);
                    lemma_push_entry(self.roots@, e);
                }
                self.roots.push(e);
            },
            None => {
                self.next_id = self.next_id + 1;
                proof {
                    assert(-0x2000_0000 <= k.0 as int * self.root_size <= 0x2000_0000
                        && -0x2000_0000 <= k.1 as int * self.root_size <= 0x2000_0000)
                        by (nonlinear_arith)
                        requires
                            -0x10000 <= k.0 <= 0x10000,
                            -0x10000 <= k.1 <= 0x10000,
                            1 <= self.root_size <= 0x2000;
                }
                let cx = (k.0 as i64) * self.root_size;
                let cz = (k.1 as i64) * self.root_size;
                let node = QuadtreeNode::new(self.next_id, cx, cz, self.root_size / 2, 0, k);
                let mut e = RootEntry { coords: k, node };
                proof {
                    assert(pow2(0) == 1 && pow4(0) == 1);
                    assert(0 <= self.root_size / 2 <= self.root_size);
                    assert(e.node == old(self).spec_fresh_root(k, (old(self).spec_next_id() + 1) as u64));
                    assert(e.node.wf());
                    lemma_halving_keeps_divisibility(
                        self.root_size as int, (self.max_depth + 1) as nat);
                }
                e.node.select_for_rendering(cam_x, cam_y, cam_z, config, oracle, self.max_depth);
                proof {
                    lemma_select_keeps_frame(
                        old(self).spec_fresh_root(k, (old(self).spec_next_id() + 1) as u64),
                        cam_x as int, cam_y as int, cam_z as int,
                        *config, *oracle, old(self).max_depth as int);
                    lemma_select_total(
                        old(self).spec_fresh_root(k, (old(self).spec_next_id() + 1) as u64),
                        cam_x as int, cam_y as int, cam_z as int,
                        *config, *oracle, old(self).max_depth as int);
                    lemma_select_ids_canonical(
                        old(self).spec_fresh_root(k, (old(self).spec_next_id() + 1) as u64),
                        cam_x as int, cam_y as int, cam_z as int,
                        *config, *oracle, old(self).max_depth as int,
                        old(self).max_depth as nat);
                    lemma_push_entry(self.roots@, e);
                }
                self.roots.push(e);
            },
        }
    }
}

impl TerrainQuadtree {
    /// Update the quadtree from the camera position: every root cell in the
    /// camera's window gets a tree (created on first sight) and one selection
    /// pass; root cells farther than the window radius plus a retention
    /// margin of two are dropped, trees and all.
    #[verifier::rlimit(100)]
    pub fn update<O: HeightmapSource>(
        &mut self,
        cam_x: i64,
        cam_y: i64,
        cam_z: i64,
        config: &TerrainConfig,
        oracle: &O,
    )
        requires
            old(self).wf(),
            config.wf(),
            -COORD_LIMIT <= cam_y <= COORD_LIMIT,
            -0x4000 * old(self).root_size <= cam_x <= 0x4000 * old(self).root_size,
            -0x4000 * old(self).root_size <= cam_z <= 0x4000 * old(self).root_size,
            config.render_distance as int * config.chunk_size as int <= 0x8000 * old(self).root_size,
            old(self).spec_next_id() <= 0x80_0000_0000,
        ensures
            final(self).wf(),
            final(self).max_depth == old(self).max_depth,
            final(self).root_size == old(self).root_size,
            old(self).spec_next_id() <= final(self).spec_next_id(),
            ({
                let rx = old(self).spec_center_cell(cam_x as int);
                let rz = old(self).spec_center_cell(cam_z as int);
                let n = old(self).spec_window_radius(*config);
                &&& forall |k: (i32, i32)| in_window(k, rx, rz, n)
                    ==> final(self).cell_updated(
                        old(self).roots@, old(self).spec_next_id(), k,
                        cam_x as int, cam_y as int, cam_z as int, *config, *oracle)
                &&& forall |k: (i32, i32)| !in_window(k, rx, rz, n)
                    ==> (#[trigger] entries_contain(final(self).roots@, k)
                        <==> entries_contain(old(self).roots@, k) && in_window(k, rx, rz, n + 2))
                &&& forall |k: (i32, i32)| !in_window(k, rx, rz, n) && entries_contain(final(self).roots@, k)
                    ==> #[trigger] entry_at(final(self).roots@, k) == entry_at(old(self).roots@, k)
            }),
    {
        let ghost m0 = old(self).roots@;
        let ghost next0 = old(self).spec_next_id();

        let rs = self.root_size;
        proof {
            assert(-0x2000_0000 <= cam_x <= 0x2000_0000 && -0x2000_0000 <= cam_z <= 0x2000_0000)
                by (nonlinear_arith)
                requires
                    1 <= rs <= 0x2000,
                    -0x4000 * rs <= cam_x <= 0x4000 * rs,
                    -0x4000 * rs <= cam_z <= 0x4000 * rs;
        }
        let rx = round_div(cam_x, rs);
        let rz = round_div(cam_z, rs);

        proof {
            assert(0 <= config.render_distance as int * config.chunk_size as int <= 0x10_0000_0000)
                by (nonlinear_arith)
                requires
                    0 <= config.render_distance <= 0x10000,
                    0 < config.chunk_size <= 0x100000;
        }
        let span = (config.render_distance as i64) * (config.chunk_size as i64);
        let n = (span + rs - 1) / rs + 1;

        proof {
            lemma_window_params(cam_x as int, cam_z as int, span as int, rs as int, rx as int, rz as int, n as int);
        }

        let mut zi: i64 = -n;
        while zi <= n
            invariant
                self.wf(),
                self.max_depth == old(self).max_depth,
                self.root_size == old(self).root_size,
                rs == self.root_size,
                config.wf(),
                -COORD_LIMIT <= cam_x <= COORD_LIMIT,
                -COORD_LIMIT <= cam_y <= COORD_LIMIT,
                -COORD_LIMIT <= cam_z <= COORD_LIMIT,
                rx == old(self).spec_center_cell(cam_x as int),
                rz == old(self).spec_center_cell(cam_z as int),
                n == old(self).spec_window_radius(*config),
                1 <= n <= 0x8001,
                -0x4001 <= rx <= 0x4001,
                -0x4001 <= rz <= 0x4001,
                -n <= zi <= n + 1,
                m0 == old(self).roots@,
                next0 == old(self).spec_next_id(),
                next0 <= 0x80_0000_0000,
                next0 <= self.spec_next_id(),
                self.spec_next_id() <= next0 + (zi + n) * (2 * n + 1),
                forall |k: (i32, i32)| in_window(k, rx as int, rz as int, n as int) && k.1 < rz + zi
                    ==> self.cell_updated(m0, next0, k,
                        cam_x as int, cam_y as int, cam_z as int, *config, *oracle),
                forall |k: (i32, i32)| !(in_window(k, rx as int, rz as int, n as int) && k.1 < rz + zi)
                    ==> (#[trigger] entries_contain(self.roots@, k) <==> entries_contain(m0, k)),
                forall |k: (i32, i32)| !(in_window(k, rx as int, rz as int, n as int) && k.1 < rz + zi)
                        && entries_contain(m0, k)
                    ==> #[trigger] entry_at(self.roots@, k) == entry_at(m0, k),
            decreases n - zi + 1,
        {
            let mut xi: i64 = -n;
            let ghost row_next = self.spec_next_id();
            while xi <= n
                invariant
                    self.wf(),
                    self.max_depth == old(self).max_depth,
                    self.root_size == old(self).root_size,
                    rs == self.root_size,
                    config.wf(),
                    -COORD_LIMIT <= cam_x <= COORD_LIMIT,
                    -COORD_LIMIT <= cam_y <= COORD_LIMIT,
                    -COORD_LIMIT <= cam_z <= COORD_LIMIT,
                    1 <= n <= 0x8001,
                    -0x4001 <= rx <= 0x4001,
                    -0x4001 <= rz <= 0x4001,
                    -n <= zi <= n,
                    -n <= xi <= n + 1,
                    m0 == old(self).roots@,
                    next0 == old(self).spec_next_id(),
                    next0 <= 0x80_0000_0000,
                    next0 <= row_next <= self.spec_next_id(),
                    row_next <= next0 + (zi + n) * (2 * n + 1),
                    self.spec_next_id() <= row_next + (xi + n),
                    forall |k: (i32, i32)| in_window(k, rx as int, rz as int, n as int)
                            && (k.1 < rz + zi || (k.1 == rz + zi && k.0 < rx + xi))
                        ==> self.cell_updated(m0, next0, k,
                            cam_x as int, cam_y as int, cam_z as int, *config, *oracle),
                    forall |k: (i32, i32)| !(in_window(k, rx as int, rz as int, n as int)
                            && (k.1 < rz + zi || (k.1 == rz + zi && k.0 < rx + xi)))
                        ==> (#[trigger] entries_contain(self.roots@, k) <==> entries_contain(m0, k)),
                    forall |k: (i32, i32)| !(in_window(k, rx as int, rz as int, n as int)
                            && (k.1 < rz + zi || (k.1 == rz + zi && k.0 < rx + xi)))
                            && entries_contain(m0, k)
                        ==> #[trigger] entry_at(self.roots@, k) == entry_at(m0, k),
                decreases n - xi + 1,
            {
                let k = ((rx + xi) as i32, (rz + zi) as i32);
                proof {
                    assert(self.spec_next_id() < 0xFF_FFFF_FFFE) by (nonlinear_arith)
                        requires
                            self.spec_next_id() <= row_next + (xi + n),
                            row_next <= next0 + (zi + n) * (2 * n + 1),
                            next0 <= 0x80_0000_0000,
                            1 <= n <= 0x8001,
                            -n <= zi <= n,
                            -n <= xi <= n;
                }
                let ghost pre = *self;
                self.visit_cell(k, cam_x, cam_y, cam_z, config, oracle);
                proof {
                    assert(entries_contain(pre.roots@, k) <==> entries_contain(m0, k));
                    if entries_contain(m0, k) {
                        assert(entry_at(pre.roots@, k) == entry_at(m0, k));
                        assert(entry_at(self.roots@, k) == spec_select(
                            entry_at(m0, k), cam_x as int, cam_y as int, cam_z as int,
                            *config, *oracle, self.max_depth as int));
                    } else {
                        let rid = (pre.spec_next_id() + 1) as u64;
                        assert(self.spec_fresh_root(k, rid) == pre.spec_fresh_root(k, rid));
                        assert(next0 < rid <= self.spec_next_id()
                            && entry_at(self.roots@, k) == spec_select(
                                self.spec_fresh_root(k, rid),
                                cam_x as int, cam_y as int, cam_z as int,
                                *config, *oracle, self.max_depth as int));
                    }
                    assert(self.cell_updated(m0, next0, k,
                        cam_x as int, cam_y as int, cam_z as int, *config, *oracle));
                    assert forall |k2: (i32, i32)| in_window(k2, rx as int, rz as int, n as int)
                            && (k2.1 < rz + zi || (k2.1 == rz + zi && k2.0 < rx + xi + 1))
                            && k2 != k
                        implies self.cell_updated(m0, next0, k2,
                            cam_x as int, cam_y as int, cam_z as int, *config, *oracle) by {
                        assert(pre.cell_updated(m0, next0, k2,
                            cam_x as int, cam_y as int, cam_z as int, *config, *oracle));
                        assert(entries_contain(self.roots@, k2));
                        assert(entry_at(self.roots@, k2) == entry_at(pre.roots@, k2));
                        if !entries_contain(m0, k2) {
                            let rid = choose |rid: u64| next0 < rid <= pre.spec_next_id()
                                && entry_at(pre.roots@, k2) == spec_select(
                                    #[trigger] pre.spec_fresh_root(k2, rid),
                                    cam_x as int, cam_y as int, cam_z as int,
                                    *config, *oracle, pre.max_depth as int);
                            assert(self.spec_fresh_root(k2, rid) == pre.spec_fresh_root(k2, rid));
                            assert(next0 < rid <= self.spec_next_id()
                                && entry_at(self.roots@, k2) == spec_select(
                                    self.spec_fresh_root(k2, rid),
                                    cam_x as int, cam_y as int, cam_z as int,
                                    *config, *oracle, self.max_depth as int));
                        }
                    }
                }
                xi = xi + 1;
            }
            proof {
                assert((zi + n) * (2 * n + 1) + (2 * n + 1) == (zi + 1 + n) * (2 * n + 1))
                    by (nonlinear_arith);
                assert forall |k: (i32, i32)| in_window(k, rx as int, rz as int, n as int)
                        && k.1 < rz + (zi + 1)
                    implies self.cell_updated(m0, next0, k,
                        cam_x as int, cam_y as int, cam_z as int, *config, *oracle) by {
                    assert(k.1 < rz + zi || (k.1 == rz + zi && k.0 < rx + (n + 1)));
                }
            }
            zi = zi + 1;
        }

        let max_dist = n + 2;
        let ghost pre = self.roots@;
        let ghost mid = *self;
        let mut kept: Vec<RootEntry> = Vec::new();

        proof {
            assert(self.roots@ =~= pre.take(self.roots@.len() as int));
        }

        while self.roots.len() > 0
            invariant
                self.wf(),
                self.max_depth == old(self).max_depth,
                self.root_size == old(self).root_size,
                -0x4001 <= rx <= 0x4001,
                -0x4001 <= rz <= 0x4001,
                1 <= n <= 0x8001,
                max_dist == n + 2,
                entries_unique(pre),
                entries_unique(kept@),
                self.roots@.len() <= pre.len(),
                self.roots@ == pre.take(self.roots@.len() as int),
                mid.roots@ == pre,
                mid.max_depth == self.max_depth,
                mid.root_size == self.root_size,
                mid.spec_next_id() == self.spec_next_id(),
                next0 <= self.spec_next_id(),
                forall |k: (i32, i32)| in_window(k, rx as int, rz as int, n as int)
                    ==> mid.cell_updated(m0, next0, k,
                        cam_x as int, cam_y as int, cam_z as int, *config, *oracle),
                forall |k: (i32, i32)| !in_window(k, rx as int, rz as int, n as int)
                    ==> (#[trigger] entries_contain(pre, k) <==> entries_contain(m0, k)),
                forall |k: (i32, i32)| !in_window(k, rx as int, rz as int, n as int)
                        && entries_contain(m0, k)
                    ==> #[trigger] entry_at(pre, k) == entry_at(m0, k),
                forall |i: int| 0 <= i < pre.len() ==> self.entry_wf(#[trigger] pre[i]),
                forall |i: int| 0 <= i < kept@.len() ==> self.entry_wf(#[trigger] kept@[i]),
                forall |k: (i32, i32)| #[trigger] entries_contain(kept@, k) ==> {
                    &&& entries_contain(pre, k)
                    &&& !entries_contain(self.roots@, k)
                    &&& entry_at(kept@, k) == entry_at(pre, k)
                    &&& in_window(k, rx as int, rz as int, max_dist as int)
                },
                forall |k: (i32, i32)| entries_contain(pre, k) && !(#[trigger] entries_contain(self.roots@, k))
                        && in_window(k, rx as int, rz as int, max_dist as int)
                    ==> entries_contain(kept@, k),
            decreases self.roots@.len(),
        {
            let ghost before = self.roots@;
            let popped = self.roots.pop();
            if let Some(e) = popped {
                proof {
                    let l = before.len() - 1;
                    assert(before.len() <= pre.len());
                    assert(before == pre.take(before.len() as int));
                    assert(pre.take(before.len() as int)[l] == pre[l]);
                    assert(e == before[l] && before[l] == pre[l]);
                    assert forall |j: int| 0 <= j < l implies self.roots@[j] == pre.take(l)[j] by {
                        assert(self.roots@[j] == before[j]);
                        assert(pre.take(before.len() as int)[j] == pre[j]);
                        assert(pre.take(l)[j] == pre[j]);
                    }
                    assert(self.roots@ =~= pre.take(l));
                    lemma_entry_at_index(pre, l);
                    if entries_contain(self.roots@, e.coords) {
                        let j = entry_index(self.roots@, e.coords);
                        assert(pre[j].coords == e.coords && j != l);
                    }
                }
                let ghost ec = e.coords;
                let dx = (e.coords.0 as i64) - rx;
                let dz = (e.coords.1 as i64) - rz;
                if -max_dist <= dx && dx <= max_dist && -max_dist <= dz && dz <= max_dist {
                    proof {
                        lemma_push_entry(kept@, e);
                    }
                    kept.push(e);
                }
                proof {
                    let l = before.len() - 1;
                    assert forall |k: (i32, i32)| entries_contain(before, k) && k != ec
                        implies #[trigger] entries_contain(self.roots@, k) by {
                        let j = entry_index(before, k);
                        assert(0 <= j < before.len() && before[j].coords == k);
                        assert(j != l);
                        assert(self.roots@[j] == before[j]);
                    }
                }
            }
        }

        let ghost remaining = self.roots@;
        self.roots = kept;

        proof {
            let rxi = rx as int;
            let rzi = rz as int;
            let ni = n as int;
            assert(remaining.len() == 0);
            assert forall |k: (i32, i32)| in_window(k, rxi, rzi, ni)
                implies self.cell_updated(m0, next0, k,
                    cam_x as int, cam_y as int, cam_z as int, *config, *oracle) by {
                assert(mid.cell_updated(m0, next0, k,
                    cam_x as int, cam_y as int, cam_z as int, *config, *oracle));
                assert(entries_contain(mid.roots@, k));
                assert(entries_contain(pre, k));
                assert(!entries_contain(remaining, k));
                assert(in_window(k, rxi, rzi, ni + 2));
                assert(entries_contain(self.roots@, k));
                assert(entry_at(self.roots@, k) == entry_at(pre, k));
                assert(entry_at(mid.roots@, k) == entry_at(pre, k));
                if !entries_contain(m0, k) {
                    let rid = choose |rid: u64| next0 < rid <= mid.spec_next_id()
                        && entry_at(mid.roots@, k) == spec_select(
                            #[trigger] mid.spec_fresh_root(k, rid),
                            cam_x as int, cam_y as int, cam_z as int,
                            *config, *oracle, mid.max_depth as int);
                    assert(self.spec_fresh_root(k, rid) == mid.spec_fresh_root(k, rid));
                    assert(next0 < rid <= self.spec_next_id()
                        && entry_at(self.roots@, k) == spec_select(
                            self.spec_fresh_root(k, rid),
                            cam_x as int, cam_y as int, cam_z as int,
                            *config, *oracle, self.max_depth as int));
                }
            }
            assert forall |k: (i32, i32)| !in_window(k, rxi, rzi, ni)
                implies (#[trigger] entries_contain(self.roots@, k)
                    <==> entries_contain(m0, k) && in_window(k, rxi, rzi, ni + 2)) by {
                if entries_contain(self.roots@, k) {
                    assert(entries_contain(pre, k));
                }
                if entries_contain(m0, k) && in_window(k, rxi, rzi, ni + 2) {
                    assert(entries_contain(pre, k));
                    assert(!entries_contain(remaining, k));
                }
            }
        }
    }
}

/// Bounds on the camera's root cell and the window radius, from the bounds
/// the update requires of the camera and the render span.
proof fn lemma_window_params(cam_x: int, cam_z: int, span: int, rs: int, rx: int, rz: int, n: int)
    requires
        1 <= rs <= 0x2000,
        -0x4000 * rs <= cam_x <= 0x4000 * rs,
        -0x4000 * rs <= cam_z <= 0x4000 * rs,
        0 <= span <= 0x8000 * rs,
        rx == spec_round_div(cam_x, rs),
        rz == spec_round_div(cam_z, rs),
        n == (span + rs - 1) / rs + 1,
    ensures
        1 <= n <= 0x8001,
        -0x4001 <= rx <= 0x4001,
        -0x4001 <= rz <= 0x4001,
{
    vstd::arithmetic::div_mod::lemma_div_pos_is_pos(span + rs - 1, rs);
    assert(span + rs - 1 < 0x8001 * rs) by (nonlinear_arith)
        requires span <= 0x8000 * rs, 1 <= rs;
    vstd::arithmetic::div_mod::lemma_multiply_divide_lt(span + rs - 1, rs, 0x8001);
    lemma_round_div_bound(cam_x, rs, 0x4000);
    lemma_round_div_bound(cam_z, rs, 0x4000);
}

/// A rounded quotient of a value within `m` multiples of the divisor lies
/// within `m + 1`.
proof fn lemma_round_div_bound(a: int, b: int, m: int)
    requires
        1 <= b,
        0 <= m,
        -m * b <= a <= m * b,
    ensures
        -(m + 1) <= spec_round_div(a, b) <= m + 1,
{
    assert(2 * a + b < (m + 1) * (2 * b)) by (nonlinear_arith)
        requires a <= m * b, 1 <= b, 0 <= m;
    vstd::arithmetic::div_mod::lemma_multiply_divide_lt(2 * a + b, 2 * b, m + 1);
    assert((-(m + 1)) * (2 * b) <= 2 * a + b) by (nonlinear_arith)
        requires -m * b <= a, 1 <= b, 0 <= m;
    vstd::arithmetic::div_mod::lemma_div_multiples_vanish(-(m + 1), 2 * b);
    assert((2 * b) * (-(m + 1)) == (-(m + 1)) * (2 * b)) by (nonlinear_arith);
    vstd::arithmetic::div_mod::lemma_div_is_ordered((-(m + 1)) * (2 * b), 2 * a + b, 2 * b);
}

/// Removing the entry at `i` keeps keys unique, drops exactly that cell, and
/// leaves every other cell's tree untouched.
proof fn lemma_remove_entry(s: Seq<RootEntry>, i: int)
    requires
        entries_unique(s),
        0 <= i < s.len(),
    ensures
        entries_unique(s.remove(i)),
        !entries_contain(s.remove(i), s[i].coords),
        forall |k: (i32, i32)| k != s[i].coords
            ==> (#[trigger] entries_contain(s.remove(i), k) <==> entries_contain(s, k)),
        forall |k: (i32, i32)| k != s[i].coords && entries_contain(s, k)
            ==> #[trigger] entry_at(s.remove(i), k) == entry_at(s, k),
{
    let t = s.remove(i);
    assert forall |k: (i32, i32)| k != s[i].coords && entries_contain(s, k)
        implies #[trigger] entries_contain(t, k) by {
        let j = entry_index(s, k);
        let j2: int = if j < i { j } else { j - 1 };
        assert(t[j2].coords == k);
    }
    assert forall |k: (i32, i32)| k != s[i].coords && entries_contain(s, k)
        implies #[trigger] entry_at(t, k) == entry_at(s, k) by {
        let j = entry_index(s, k);
        let j2: int = if j < i { j } else { j - 1 };
        assert(t[j2].coords == k);
        lemma_entry_at_index(t, j2);
        lemma_entry_at_index(s, j);
    }
    assert forall |k: (i32, i32)| entries_contain(t, k) && k != s[i].coords
        implies entries_contain(s, k) by {
        let j = entry_index(t, k);
        let j2: int = if j < i { j } else { j + 1 };
        assert(s[j2].coords == k);
    }
    if entries_contain(t, s[i].coords) {
        let j = entry_index(t, s[i].coords);
        let j2: int = if j < i { j } else { j + 1 };
        assert(s[j2].coords == s[i].coords && j2 != i);
    }
}

/// Appending an entry with a fresh cell keeps keys unique, adds exactly that
/// cell, and leaves every other cell's tree untouched.
proof fn lemma_push_entry(s: Seq<RootEntry>, e: RootEntry)
    requires
        entries_unique(s),
        !entries_contain(s, e.coords),
    ensures
        entries_unique(s.push(e)),
        entries_contain(s.push(e), e.coords),
        entry_at(s.push(e), e.coords) == e.node,
        forall |k: (i32, i32)| k != e.coords
            ==> (#[trigger] entries_contain(s.push(e), k) <==> entries_contain(s, k)),
        forall |k: (i32, i32)| k != e.coords && entries_contain(s, k)
            ==> #[trigger] entry_at(s.push(e), k) == entry_at(s, k),
{
    let t = s.push(e);
    assert(t[s.len() as int] == e);
    assert forall |i: int, j: int| 0 <= i < j < t.len() implies (#[trigger] t[i]).coords != (#[trigger] t[j]).coords by {
        if j < s.len() {
            assert(t[i] == s[i] && t[j] == s[j]);
        } else {
            assert(t[j] == e);
            assert(t[i] == s[i]);
            if s[i].coords == e.coords {
                assert(entries_contain(s, e.coords));
            }
        }
    }
    lemma_entry_at_index(t, s.len() as int);
    assert forall |k: (i32, i32)| k != e.coords && entries_contain(s, k)
        implies #[trigger] entries_contain(t, k) by {
        let j = entry_index(s, k);
        assert(t[j].coords == k);
    }
    assert forall |k: (i32, i32)| k != e.coords && entries_contain(s, k)
        implies #[trigger] entry_at(t, k) == entry_at(s, k) by {
        let j = entry_index(s, k);
        assert(t[j].coords == k);
        lemma_entry_at_index(t, j);
        lemma_entry_at_index(s, j);
    }
    assert forall |k: (i32, i32)| k != e.coords && entries_contain(t, k)
        implies entries_contain(s, k) by {
        let j = entry_index(t, k);
        assert(j != s.len());
        assert(s[j].coords == k);
    }
}


/// The tier index the hysteresis calculation assigns to a current
/// subdivision count: the first tier whose count matches, tier 0 if none.
pub open spec fn spec_current_lod_index(current_lod: u32, config: TerrainConfig) -> int {
    if config.lod_subdivisions[0] == current_lod {
        0
    } else if config.lod_subdivisions[1] == current_lod {
        1
    } else if config.lod_subdivisions[2] == current_lod {
        2
    } else if config.lod_subdivisions[3] == current_lod {
        3
    } else {
        0
    }
}

/// Threshold `i` with the hysteresis buffer applied: moving away from the
/// camera must overshoot the threshold, moving closer must undershoot it.
pub open spec fn spec_effective_threshold(i: int, current_index: int, config: TerrainConfig) -> int {
    let t = config.lod_distances[i] as int;
    let buffer = t * config.lod_hysteresis / 1000;
    if current_index <= i {
        t + buffer
    } else {
        t - buffer
    }
}

/// The subdivision count the hysteresis calculation picks: the first tier
/// whose buffered threshold lies beyond the distance, the coarsest if none.
pub open spec fn spec_lod_with_hysteresis(distance: int, current_lod: u32, config: TerrainConfig) -> u32 {
    let ci = spec_current_lod_index(current_lod, config);
    if distance < spec_effective_threshold(0, ci, config) {
        config.lod_subdivisions[0]
    } else if distance < spec_effective_threshold(1, ci, config) {
        config.lod_subdivisions[1]
    } else if distance < spec_effective_threshold(2, ci, config) {
        config.lod_subdivisions[2]
    } else {
        config.lod_subdivisions[3]
    }
}

/// A hysteresis buffer never exceeds its threshold.
proof fn lemma_buffer_le_threshold(t: u64, h: u32)
    requires
        h <= 1000,
    ensures
        0 <= t as int * h as int / 1000 <= t,
{
    assert(0 <= t as int * h as int <= t as int * 1000) by (nonlinear_arith)
        requires h <= 1000;
    vstd::arithmetic::div_mod::lemma_div_pos_is_pos(t as int * h as int, 1000);
    vstd::arithmetic::div_mod::lemma_div_is_ordered(t as int * h as int, t as int * 1000, 1000);
    assert(t as int * 1000 == 1000 * t as int) by (nonlinear_arith);
    vstd::arithmetic::div_mod::lemma_div_multiples_vanish(t as int, 1000);
}

/// Calculate the LOD subdivision count with hysteresis, to prevent rapid
/// switching at tier boundaries: a chunk keeps its tier until the camera
/// moves a buffer's worth past the raw threshold.
pub fn calculate_lod_with_hysteresis(distance: u64, current_lod: u32, config: &TerrainConfig) -> (r: u32)
    requires
        config.wf(),
        distance <= 0x8000_0000_0000_0000,
    ensures
        r == spec_lod_with_hysteresis(distance as int, current_lod, *config),
{
    let current_index: usize = if config.lod_subdivisions[0] == current_lod {
        0
    } else if config.lod_subdivisions[1] == current_lod {
        1
    } else if config.lod_subdivisions[2] == current_lod {
        2
    } else if config.lod_subdivisions[3] == current_lod {
        3
    } else {
        0
    };

    let mut i: usize = 0;
    while i < 3
        invariant
            config.wf(),
            distance <= 0x8000_0000_0000_0000,
            i <= 3,
            current_index == spec_current_lod_index(current_lod, *config),
            forall |j: int| 0 <= j < i
                ==> !(distance < spec_effective_threshold(j, current_index as int, *config)),
        decreases 3 - i,
    {
        let t = config.lod_distances[i];
        proof {
            lemma_buffer_le_threshold(t, config.lod_hysteresis);
            assert(t as int * config.lod_hysteresis as int <= 0x2000_0000 * 1000) by (nonlinear_arith)
                requires t <= 0x2000_0000, config.lod_hysteresis <= 1000;
        }
        let buffer = t * (config.lod_hysteresis as u64) / 1000;
        let effective = if current_index <= i { t + buffer } else { t - buffer };
        if distance < effective {
            return config.lod_subdivisions[i];
        }
        i += 1;
    }

    config.lod_subdivisions[3]
}

/// Moving the camera closer to a region never turns a subdivision decision
/// off: if a region subdivides at some squared distance, it also subdivides
/// at every smaller one. With the fixed per-depth thresholds this is what
/// makes growing camera proximity only deepen the selected detail.
pub proof fn lemma_subdivide_monotonic(depth: int, dist_sq_near: int, dist_sq_far: int, config: TerrainConfig, max_depth: int)
    requires
        0 <= dist_sq_near <= dist_sq_far,
        spec_should_subdivide(depth, dist_sq_far, config, max_depth),
    ensures
        spec_should_subdivide(depth, dist_sq_near, config, max_depth),
{
}

/// Moving the camera closer never coarsens the LOD tier of a selected
/// region.
pub proof fn lemma_lod_monotonic(dist_sq_near: int, dist_sq_far: int, config: TerrainConfig)
    requires
        dist_sq_near <= dist_sq_far,
    ensures
        spec_calculate_lod(dist_sq_near, config) <= spec_calculate_lod(dist_sq_far, config),
{
}

/// Selection is idempotent: running a selection pass twice over a subtree,
/// with the same camera, configuration, oracle and budget, yields the tree
/// of the first pass. Together with [`spec_select`] being a function of its
/// inputs, re-running selection on fixed inputs is deterministic.
pub proof fn lemma_select_fuel_idempotent<O: HeightmapSource>(
    node: QuadtreeNode,
    cam_x: int,
    cam_y: int,
    cam_z: int,
    config: TerrainConfig,
    oracle: O,
    max_depth: int,
    fuel: nat,
)
    ensures
        spec_select_fuel(
            spec_select_fuel(node, cam_x, cam_y, cam_z, config, oracle, max_depth, fuel),
            cam_x, cam_y, cam_z, config, oracle, max_depth, fuel)
            == spec_select_fuel(node, cam_x, cam_y, cam_z, config, oracle, max_depth, fuel),
    decreases fuel,
{
    let r = spec_select_fuel(node, cam_x, cam_y, cam_z, config, oracle, max_depth, fuel);
    let est = clip_height(oracle.spec_sample(node.center_x, node.center_z) as int);
    let dist_sq = node.spec_dist_sq(cam_x, cam_y, cam_z, est);
    if spec_should_subdivide(node.depth as int, dist_sq, config, max_depth) && fuel > 0 {
        let c = spec_ensure_children(node);
        lemma_select_fuel_idempotent(c.nw, cam_x, cam_y, cam_z, config, oracle, max_depth, (fuel - 1) as nat);
        lemma_select_fuel_idempotent(c.ne, cam_x, cam_y, cam_z, config, oracle, max_depth, (fuel - 1) as nat);
        lemma_select_fuel_idempotent(c.sw, cam_x, cam_y, cam_z, config, oracle, max_depth, (fuel - 1) as nat);
        lemma_select_fuel_idempotent(c.se, cam_x, cam_y, cam_z, config, oracle, max_depth, (fuel - 1) as nat);
    }
}

/// Selection is idempotent at the traversal's own budget: a second pass over
/// an already selected tree changes nothing.
pub proof fn lemma_select_idempotent<O: HeightmapSource>(
    node: QuadtreeNode,
    cam_x: int,
    cam_y: int,
    cam_z: int,
    config: TerrainConfig,
    oracle: O,
    max_depth: int,
)
    ensures
        spec_select(
            spec_select(node, cam_x, cam_y, cam_z, config, oracle, max_depth),
            cam_x, cam_y, cam_z, config, oracle, max_depth)
            == spec_select(node, cam_x, cam_y, cam_z, config, oracle, max_depth),
{
    let fuel = if node.depth <= max_depth { (max_depth - node.depth) as nat } else { 0 };
    lemma_select_fuel_idempotent(node, cam_x, cam_y, cam_z, config, oracle, max_depth, fuel);
}

/// Child ids recover their parent: for any region id derived as
/// `4 * p + offset` with offset in 1..=4, `(id - 1) / 4` equals `p`; and a
/// parent with id `p` numbers its children `4 * p + 1` through `4 * p + 4`.
pub proof fn lemma_id_arithmetic(p: u64, offset: u64)
    requires
        1 <= offset <= 4,
    ensures
        (4 * p as int + offset - 1) / 4 == p,
        4 * p as int + offset > 4 * p as int,
{
    vstd::arithmetic::div_mod::lemma_div_multiples_vanish_fancy(p as int, offset - 1, 4);
}

/// In a canonically numbered tree, every child's id is greater than 4 and
/// integer division by four after subtracting one recovers the parent's id.
pub proof fn lemma_tree_parent_id(node: QuadtreeNode)
    requires
        node.ids_canonical(),
        node.children is Some,
        1 <= node.id,
    ensures
        ({
            let c = *node.children.unwrap();
            &&& c.nw.id > 4 && (c.nw.id - 1) / 4 == node.id
            &&& c.ne.id > 4 && (c.ne.id - 1) / 4 == node.id
            &&& c.sw.id > 4 && (c.sw.id - 1) / 4 == node.id
            &&& c.se.id > 4 && (c.se.id - 1) / 4 == node.id
        }),
{
    vstd::arithmetic::div_mod::lemma_div_multiples_vanish_fancy(node.id as int, 0, 4);
    vstd::arithmetic::div_mod::lemma_div_multiples_vanish_fancy(node.id as int, 1, 4);
    vstd::arithmetic::div_mod::lemma_div_multiples_vanish_fancy(node.id as int, 2, 4);
    vstd::arithmetic::div_mod::lemma_div_multiples_vanish_fancy(node.id as int, 3, 4);
}

/// The children a subdividing node would freshly create are well-formed,
/// sit on the matching quadrants, and carry the canonical ids.
proof fn lemma_fresh_children_wf(node: QuadtreeNode)
    requires
        node.wf(),
        node.depth < MAX_QUADTREE_DEPTH,
    ensures
        ({
            let c = spec_fresh_children(node);
            &&& node.child_geom(c.nw, 0, 0) && c.nw.wf()
            &&& node.child_geom(c.ne, 1, 0) && c.ne.wf()
            &&& node.child_geom(c.sw, 0, 1) && c.sw.wf()
            &&& node.child_geom(c.se, 1, 1) && c.se.wf()
        }),
{
    lemma_pow4_bounds(node.depth as nat);
    let h = node.half_size as int;
    let cx = node.center_x as int;
    let cz = node.center_z as int;
    assert(0 <= h / 2 <= h);
    assert(-COORD_LIMIT <= cx - h / 2 <= COORD_LIMIT);
    assert(-COORD_LIMIT <= cx + h / 2 <= COORD_LIMIT);
    assert(-COORD_LIMIT <= cz - h / 2 <= COORD_LIMIT);
    assert(-COORD_LIMIT <= cz + h / 2 <= COORD_LIMIT);
    let c = spec_fresh_children(node);
    assert(c.nw.center_x == cx - h / 2 && c.nw.center_z == cz - h / 2);
    assert(c.ne.center_x == cx + h / 2 && c.ne.center_z == cz - h / 2);
    assert(c.sw.center_x == cx - h / 2 && c.sw.center_z == cz + h / 2);
    assert(c.se.center_x == cx + h / 2 && c.se.center_z == cz + h / 2);
    assert(c.nw.wf());
    assert(c.ne.wf());
    assert(c.sw.wf());
    assert(c.se.wf());
}

/// A selection pass keeps canonical numbering, and numbers the children it
/// creates canonically.
pub proof fn lemma_select_ids_canonical<O: HeightmapSource>(
    node: QuadtreeNode,
    cam_x: int,
    cam_y: int,
    cam_z: int,
    config: TerrainConfig,
    oracle: O,
    max_depth: int,
    fuel: nat,
)
    requires
        node.wf(),
        node.ids_canonical(),
        max_depth <= MAX_QUADTREE_DEPTH,
    ensures
        spec_select_fuel(node, cam_x, cam_y, cam_z, config, oracle, max_depth, fuel).ids_canonical(),
        spec_select_fuel(node, cam_x, cam_y, cam_z, config, oracle, max_depth, fuel).id == node.id,
    decreases fuel,
{
    let est = clip_height(oracle.spec_sample(node.center_x, node.center_z) as int);
    let dist_sq = node.spec_dist_sq(cam_x, cam_y, cam_z, est);
    if spec_should_subdivide(node.depth as int, dist_sq, config, max_depth) && fuel > 0 {
        let c = spec_ensure_children(node);
        if node.children is None {
            lemma_pow4_bounds(node.depth as nat);
            lemma_fresh_children_wf(node);
            assert(c.nw.id == 4 * node.id + 1);
        }
        lemma_select_ids_canonical(c.nw, cam_x, cam_y, cam_z, config, oracle, max_depth, (fuel - 1) as nat);
        lemma_select_ids_canonical(c.ne, cam_x, cam_y, cam_z, config, oracle, max_depth, (fuel - 1) as nat);
        lemma_select_ids_canonical(c.sw, cam_x, cam_y, cam_z, config, oracle, max_depth, (fuel - 1) as nat);
        lemma_select_ids_canonical(c.se, cam_x, cam_y, cam_z, config, oracle, max_depth, (fuel - 1) as nat);
    }
}

impl QuadtreeNode {
    /// Selection is total over this subtree: on every path from here down,
    /// some node is selected before the paths run out (either this node, or
    /// all four children recursively). This is the state one selection pass
    /// leaves behind.
    pub open spec fn sel_total(self) -> bool
        decreases self,
    {
        self.selected || match self.children {
            None => false,
            Some(c) => c.nw.sel_total() && c.ne.sel_total() && c.sw.sel_total()
                && c.se.sel_total(),
        }
    }

    /// The selected subtrees of this tree, in depth-first order, stopping at
    /// the first selected node on each path; [`QuadtreeNode::spec_collected`]
    /// reports exactly their summaries.
    pub open spec fn spec_selected_subtrees(self) -> Seq<QuadtreeNode>
        decreases self,
    {
        if self.selected {
            seq![self]
        } else {
            match self.children {
                None => Seq::empty(),
                Some(c) => c.nw.spec_selected_subtrees() + c.ne.spec_selected_subtrees()
                    + c.sw.spec_selected_subtrees() + c.se.spec_selected_subtrees(),
            }
        }
    }
}

/// A selection pass leaves the subtree totally selected: every path ends at
/// a selected node.
pub proof fn lemma_select_sel_total<O: HeightmapSource>(
    node: QuadtreeNode,
    cam_x: int,
    cam_y: int,
    cam_z: int,
    config: TerrainConfig,
    oracle: O,
    max_depth: int,
    fuel: nat,
)
    ensures
        spec_select_fuel(node, cam_x, cam_y, cam_z, config, oracle, max_depth, fuel).sel_total(),
    decreases fuel,
{
    let est = clip_height(oracle.spec_sample(node.center_x, node.center_z) as int);
    let dist_sq = node.spec_dist_sq(cam_x, cam_y, cam_z, est);
    if spec_should_subdivide(node.depth as int, dist_sq, config, max_depth) && fuel > 0 {
        let c = spec_ensure_children(node);
        lemma_select_sel_total(c.nw, cam_x, cam_y, cam_z, config, oracle, max_depth, (fuel - 1) as nat);
        lemma_select_sel_total(c.ne, cam_x, cam_y, cam_z, config, oracle, max_depth, (fuel - 1) as nat);
        lemma_select_sel_total(c.sw, cam_x, cam_y, cam_z, config, oracle, max_depth, (fuel - 1) as nat);
        lemma_select_sel_total(c.se, cam_x, cam_y, cam_z, config, oracle, max_depth, (fuel - 1) as nat);
    }
}

/// The summaries collected from a tree are exactly the summaries of its
/// selected subtrees, in the same order.
pub proof fn lemma_collected_of_subtrees(node: QuadtreeNode)
    ensures
        node.spec_collected().len() == node.spec_selected_subtrees().len(),
        forall |i: int| 0 <= i < node.spec_selected_subtrees().len()
            ==> node.spec_collected()[i]
                == (#[trigger] node.spec_selected_subtrees()[i]).to_selected(),
    decreases node,
{
    if !node.selected {
        match node.children {
            None => {},
            Some(c) => {
                lemma_collected_of_subtrees(c.nw);
                lemma_collected_of_subtrees(c.ne);
                lemma_collected_of_subtrees(c.sw);
                lemma_collected_of_subtrees(c.se);
            },
        }
    }
}

/// Whether a node's square region contains the world point `(px, pz)`.
/// Regions are half-open on their east and south edges, so abutting regions
/// share no point.
pub open spec fn node_contains(n: QuadtreeNode, px: int, pz: int) -> bool {
    &&& n.center_x - n.half_size <= px < n.center_x + n.half_size
    &&& n.center_z - n.half_size <= pz < n.center_z + n.half_size
}

/// An even value is exactly twice its half.
proof fn lemma_even_half(h: int)
    requires
        0 <= h,
        h % 2 == 0,
    ensures
        h == 2 * (h / 2),
{
    vstd::arithmetic::div_mod::lemma_fundamental_div_mod(h, 2);
}

/// The four children of a subdivided node tile its bounds exactly: a point
/// lies in the node iff it lies in one of the children, and never in two.
pub proof fn lemma_children_tile(node: QuadtreeNode, px: int, pz: int)
    requires
        node.wf(),
        node.children is Some,
    ensures
        ({
            let c = *node.children.unwrap();
            &&& (node_contains(node, px, pz) <==> node_contains(c.nw, px, pz)
                || node_contains(c.ne, px, pz) || node_contains(c.sw, px, pz)
                || node_contains(c.se, px, pz))
            &&& !(node_contains(c.nw, px, pz) && node_contains(c.ne, px, pz))
            &&& !(node_contains(c.nw, px, pz) && node_contains(c.sw, px, pz))
            &&& !(node_contains(c.nw, px, pz) && node_contains(c.se, px, pz))
            &&& !(node_contains(c.ne, px, pz) && node_contains(c.sw, px, pz))
            &&& !(node_contains(c.ne, px, pz) && node_contains(c.se, px, pz))
            &&& !(node_contains(c.sw, px, pz) && node_contains(c.se, px, pz))
        }),
{
    lemma_even_half(node.half_size as int);
}

/// Every selected subtree's region lies within its tree's region: a point
/// contained in an entry is contained in the root of the tree it came from.
proof fn lemma_entries_contained(node: QuadtreeNode, px: int, pz: int)
    requires
        node.wf(),
    ensures
        forall |i: int| 0 <= i < node.spec_selected_subtrees().len()
            && node_contains(#[trigger] node.spec_selected_subtrees()[i], px, pz)
            ==> node_contains(node, px, pz),
    decreases node,
{
    let entries = node.spec_selected_subtrees();
    if node.selected {
        assert(entries == seq![node]);
        assert(entries[0] == node);
    } else {
        match node.children {
            None => {},
            Some(c) => {
                lemma_entries_contained(c.nw, px, pz);
                lemma_entries_contained(c.ne, px, pz);
                lemma_entries_contained(c.sw, px, pz);
                lemma_entries_contained(c.se, px, pz);
                lemma_children_tile(node, px, pz);
                let l1 = c.nw.spec_selected_subtrees().len() as int;
                let l2 = c.ne.spec_selected_subtrees().len() as int;
                let l3 = c.sw.spec_selected_subtrees().len() as int;
                let l4 = c.se.spec_selected_subtrees().len() as int;
                assert forall |i: int| 0 <= i < entries.len()
                    && node_contains(#[trigger] entries[i], px, pz)
                    implies node_contains(node, px, pz) by {
                    if i < l1 {
                        assert(entries[i] == c.nw.spec_selected_subtrees()[i]);
                        assert(node_contains(c.nw, px, pz));
                    } else if i < l1 + l2 {
                        assert(entries[i] == c.ne.spec_selected_subtrees()[i - l1]);
                        assert(node_contains(c.ne, px, pz));
                    } else if i < l1 + l2 + l3 {
                        assert(entries[i] == c.sw.spec_selected_subtrees()[i - l1 - l2]);
                        assert(node_contains(c.sw, px, pz));
                    } else {
                        assert(entries[i] == c.se.spec_selected_subtrees()[i - l1 - l2 - l3]);
                        assert(node_contains(c.se, px, pz));
                    }
                }
            },
        }
    }
}

/// The partition invariant: over a well-formed, totally selected tree, every
/// world point of the tree's region lies in exactly one selected region. The
/// selected regions tile the plane the tree covers, with no gap and no
/// overlap.
pub proof fn lemma_selected_partition(node: QuadtreeNode, px: int, pz: int)
    requires
        node.wf(),
        node.sel_total(),
        node_contains(node, px, pz),
    ensures
        exists |i: int| 0 <= i < node.spec_selected_subtrees().len()
            && node_contains(#[trigger] node.spec_selected_subtrees()[i], px, pz),
        forall |i: int, j: int| 0 <= i < node.spec_selected_subtrees().len()
            && 0 <= j < node.spec_selected_subtrees().len()
            && node_contains(#[trigger] node.spec_selected_subtrees()[i], px, pz)
            && node_contains(#[trigger] node.spec_selected_subtrees()[j], px, pz)
            ==> i == j,
    decreases node,
{
    let entries = node.spec_selected_subtrees();
    if node.selected {
        assert(entries == seq![node]);
        assert(entries[0] == node);
        assert(node_contains(entries[0], px, pz));
    } else {
        let c = *node.children.unwrap();
        lemma_children_tile(node, px, pz);
        let l1 = c.nw.spec_selected_subtrees().len() as int;
        let l2 = c.ne.spec_selected_subtrees().len() as int;
        let l3 = c.sw.spec_selected_subtrees().len() as int;
        let l4 = c.se.spec_selected_subtrees().len() as int;

        lemma_entries_contained(c.nw, px, pz);
        lemma_entries_contained(c.ne, px, pz);
        lemma_entries_contained(c.sw, px, pz);
        lemma_entries_contained(c.se, px, pz);

        // exactly one quadrant holds the point
        let q: QuadtreeNode = if node_contains(c.nw, px, pz) { c.nw }
            else if node_contains(c.ne, px, pz) { c.ne }
            else if node_contains(c.sw, px, pz) { c.sw }
            else { c.se };
        assert(node_contains(q, px, pz));
        lemma_selected_partition(q, px, pz);
        let qi = choose |i: int| 0 <= i < q.spec_selected_subtrees().len()
            && node_contains(#[trigger] q.spec_selected_subtrees()[i], px, pz);
        let offset: int = if node_contains(c.nw, px, pz) { 0 }
            else if node_contains(c.ne, px, pz) { l1 }
            else if node_contains(c.sw, px, pz) { l1 + l2 }
            else { l1 + l2 + l3 };
        assert(entries[offset + qi] == q.spec_selected_subtrees()[qi]);
        assert(node_contains(entries[offset + qi], px, pz));

        // no two entries hold it
        assert forall |i: int, j: int| 0 <= i < entries.len() && 0 <= j < entries.len()
            && node_contains(#[trigger] entries[i], px, pz)
            && node_contains(#[trigger] entries[j], px, pz)
            implies i == j by {
            let qa: QuadtreeNode = if i < l1 { c.nw } else if i < l1 + l2 { c.ne }
                else if i < l1 + l2 + l3 { c.sw } else { c.se };
            let qb: QuadtreeNode = if j < l1 { c.nw } else if j < l1 + l2 { c.ne }
                else if j < l1 + l2 + l3 { c.sw } else { c.se };
            let ia: int = if i < l1 { i } else if i < l1 + l2 { i - l1 }
                else if i < l1 + l2 + l3 { i - l1 - l2 } else { i - l1 - l2 - l3 };
            let jb: int = if j < l1 { j } else if j < l1 + l2 { j - l1 }
                else if j < l1 + l2 + l3 { j - l1 - l2 } else { j - l1 - l2 - l3 };
            assert(entries[i] == qa.spec_selected_subtrees()[ia]);
            assert(entries[j] == qb.spec_selected_subtrees()[jb]);
            assert(node_contains(qa, px, pz));
            assert(node_contains(qb, px, pz));
            if qa == qb {
                lemma_selected_partition(qa, px, pz);
            }
        }
    }
}

/// A selection pass leaves the subtree totally selected, at the traversal's
/// own budget.
pub proof fn lemma_select_total<O: HeightmapSource>(
    node: QuadtreeNode,
    cam_x: int,
    cam_y: int,
    cam_z: int,
    config: TerrainConfig,
    oracle: O,
    max_depth: int,
)
    ensures
        spec_select(node, cam_x, cam_y, cam_z, config, oracle, max_depth).sel_total(),
{
    let fuel = if node.depth <= max_depth { (max_depth - node.depth) as nat } else { 0 };
    lemma_select_sel_total(node, cam_x, cam_y, cam_z, config, oracle, max_depth, fuel);
}

/// The selected regions of a sequence of root trees, as whole subtrees, in
/// root order; [`spec_collect_roots`] reports exactly their summaries.
pub open spec fn spec_forest_subtrees(s: Seq<RootEntry>) -> Seq<QuadtreeNode>
    decreases s.len(),
{
    if s.len() == 0 {
        Seq::empty()
    } else {
        spec_forest_subtrees(s.drop_last()) + s.last().node.spec_selected_subtrees()
    }
}

/// Whether every entry is a well-formed, totally selected depth-0 tree
/// sitting on its own grid cell of side `rs`: the cell state the forest
/// maintains.
pub open spec fn roots_world_wf(s: Seq<RootEntry>, rs: int) -> bool {
    &&& 1 <= rs
    &&& rs % 2 == 0
    &&& entries_unique(s)
    &&& forall |i: int| 0 <= i < s.len() ==> {
        let e = #[trigger] s[i];
        &&& e.node.wf()
        &&& e.node.sel_total()
        &&& e.node.depth == 0
        &&& e.node.coords == e.coords
        &&& e.node.center_x == e.coords.0 * rs
        &&& e.node.center_z == e.coords.1 * rs
        &&& e.node.half_size == rs / 2
    }
}

/// Two distinct root cells of side `rs` are disjoint: no world point lies in
/// both.
proof fn lemma_root_cells_disjoint(a: RootEntry, b: RootEntry, rs: int, px: int, pz: int)
    requires
        1 <= rs,
        rs % 2 == 0,
        a.coords != b.coords,
        a.node.coords == a.coords && b.node.coords == b.coords,
        a.node.center_x == a.coords.0 * rs && a.node.center_z == a.coords.1 * rs,
        b.node.center_x == b.coords.0 * rs && b.node.center_z == b.coords.1 * rs,
        a.node.half_size == rs / 2 && b.node.half_size == rs / 2,
        node_contains(a.node, px, pz),
    ensures
        !node_contains(b.node, px, pz),
{
    lemma_even_half(rs);
    if a.coords.0 != b.coords.0 {
        let c1 = a.coords.0 as int;
        let c2 = b.coords.0 as int;
        assert(c1 < c2 ==> c1 * rs + rs <= c2 * rs) by (nonlinear_arith)
            requires 1 <= rs;
        assert(c2 < c1 ==> c2 * rs + rs <= c1 * rs) by (nonlinear_arith)
            requires 1 <= rs;
    } else {
        let c1 = a.coords.1 as int;
        let c2 = b.coords.1 as int;
        assert(c1 < c2 ==> c1 * rs + rs <= c2 * rs) by (nonlinear_arith)
            requires 1 <= rs;
        assert(c2 < c1 ==> c2 * rs + rs <= c1 * rs) by (nonlinear_arith)
            requires 1 <= rs;
    }
}

/// The partition invariant over the whole forest: every world point lying in
/// some root cell lies in exactly one selected region of the forest.
/// Together with [`lemma_collected_of_subtrees`] this carries over to what
/// `collect_selected_nodes` returns: the selected regions tile the covered
/// plane with no gap and no overlap.
pub proof fn lemma_forest_partition(s: Seq<RootEntry>, rs: int, px: int, pz: int)
    requires
        roots_world_wf(s, rs),
    ensures
        (exists |i: int| 0 <= i < s.len()
            && node_contains((#[trigger] s[i]).node, px, pz))
            ==> exists |j: int| 0 <= j < spec_forest_subtrees(s).len()
                && node_contains(#[trigger] spec_forest_subtrees(s)[j], px, pz),
        forall |j: int| 0 <= j < spec_forest_subtrees(s).len()
            && node_contains(#[trigger] spec_forest_subtrees(s)[j], px, pz)
            ==> exists |i: int| 0 <= i < s.len()
                && node_contains((#[trigger] s[i]).node, px, pz),
        forall |j1: int, j2: int| 0 <= j1 < spec_forest_subtrees(s).len()
            && 0 <= j2 < spec_forest_subtrees(s).len()
            && node_contains(#[trigger] spec_forest_subtrees(s)[j1], px, pz)
            && node_contains(#[trigger] spec_forest_subtrees(s)[j2], px, pz)
            ==> j1 == j2,
    decreases s.len(),
{
    if s.len() == 0 {
        return;
    }
    let prefix = s.drop_last();
    assert(roots_world_wf(prefix, rs)) by {
        assert forall |i: int| 0 <= i < prefix.len() implies {
            let e = #[trigger] prefix[i];
            &&& e.node.wf()
            &&& e.node.sel_total()
            &&& e.node.depth == 0
            &&& e.node.coords == e.coords
            &&& e.node.center_x == e.coords.0 * rs
            &&& e.node.center_z == e.coords.1 * rs
            &&& e.node.half_size == rs / 2
        } by {
            assert(prefix[i] == s[i]);
        }
        assert forall |a: int, b: int| 0 <= a < b < prefix.len()
            implies (#[trigger] prefix[a]).coords != (#[trigger] prefix[b]).coords by {
            assert(prefix[a] == s[a] && prefix[b] == s[b]);
        }
    }
    lemma_forest_partition(prefix, rs, px, pz);

    let last = s.last().node;
    assert(s[s.len() - 1].node == last);
    let pf = spec_forest_subtrees(prefix);
    let seg = last.spec_selected_subtrees();
    let whole = spec_forest_subtrees(s);
    assert(whole == pf + seg);

    lemma_entries_contained(last, px, pz);

    // Entries of the last segment hold only points the last root holds.
    assert forall |j: int| 0 <= j < whole.len()
        && node_contains(#[trigger] whole[j], px, pz)
        implies exists |i: int| 0 <= i < s.len()
            && node_contains((#[trigger] s[i]).node, px, pz) by {
        if j < pf.len() {
            assert(whole[j] == pf[j]);
            let i = choose |i: int| 0 <= i < prefix.len()
                && node_contains((#[trigger] prefix[i]).node, px, pz);
            assert(s[i].node == prefix[i].node);
            assert(node_contains(s[i].node, px, pz));
        } else {
            assert(whole[j] == seg[j - pf.len()]);
            assert(node_contains(last, px, pz));
            assert(node_contains(s[s.len() - 1].node, px, pz));
        }
    }

    if exists |i: int| 0 <= i < s.len() && node_contains((#[trigger] s[i]).node, px, pz) {
        let i = choose |i: int| 0 <= i < s.len()
            && node_contains((#[trigger] s[i]).node, px, pz);
        if i == s.len() - 1 {
            lemma_selected_partition(last, px, pz);
            let qj = choose |qj: int| 0 <= qj < seg.len()
                && node_contains(#[trigger] seg[qj], px, pz);
            assert(whole[pf.len() + qj] == seg[qj]);
            assert(node_contains(whole[pf.len() + qj], px, pz));
        } else {
            assert(prefix[i] == s[i]);
            assert(node_contains(prefix[i].node, px, pz));
            let j = choose |j: int| 0 <= j < pf.len()
                && node_contains(#[trigger] pf[j], px, pz);
            assert(whole[j] == pf[j]);
            assert(node_contains(whole[j], px, pz));
        }
    }

    assert forall |j1: int, j2: int| 0 <= j1 < whole.len() && 0 <= j2 < whole.len()
        && node_contains(#[trigger] whole[j1], px, pz)
        && node_contains(#[trigger] whole[j2], px, pz)
        implies j1 == j2 by {
        if j1 < pf.len() && j2 < pf.len() {
            assert(whole[j1] == pf[j1] && whole[j2] == pf[j2]);
        } else if j1 >= pf.len() && j2 >= pf.len() {
            assert(whole[j1] == seg[j1 - pf.len()] && whole[j2] == seg[j2 - pf.len()]);
            lemma_selected_partition(last, px, pz);
        } else {
            // one entry from the prefix, one from the last root: their roots
            // both hold the point, but distinct root cells are disjoint
            let ja: int = if j1 < pf.len() { j1 } else { j2 };
            let jb: int = if j1 < pf.len() { j2 } else { j1 };
            assert(whole[ja] == pf[ja]);
            assert(whole[jb] == seg[jb - pf.len()]);
            let i = choose |i: int| 0 <= i < prefix.len()
                && node_contains((#[trigger] prefix[i]).node, px, pz);
            assert(node_contains(last, px, pz));
            assert(prefix[i] == s[i]);
            assert(s[i].coords != s[s.len() - 1].coords);
            lemma_root_cells_disjoint(s[i], s[s.len() - 1], rs, px, pz);
        }
    }
}

/// Whether a selected region's square bounds contain the world point
/// `(px, pz)`; half-open on the east and south edges, like
/// [`node_contains`].
pub open spec fn selected_contains(n: SelectedNode, px: int, pz: int) -> bool {
    &&& n.center_x - n.half_size <= px < n.center_x + n.half_size
    &&& n.center_z - n.half_size <= pz < n.center_z + n.half_size
}

/// The summaries collected from a forest are exactly the summaries of its
/// selected subtrees, in the same order.
pub proof fn lemma_forest_collected(s: Seq<RootEntry>)
    ensures
        spec_collect_roots(s).len() == spec_forest_subtrees(s).len(),
        forall |j: int| 0 <= j < spec_forest_subtrees(s).len()
            ==> spec_collect_roots(s)[j]
                == (#[trigger] spec_forest_subtrees(s)[j]).to_selected(),
    decreases s.len(),
{
    if s.len() > 0 {
        lemma_forest_collected(s.drop_last());
        lemma_collected_of_subtrees(s.last().node);
        let pf = spec_forest_subtrees(s.drop_last());
        let pc = spec_collect_roots(s.drop_last());
        assert forall |j: int| 0 <= j < spec_forest_subtrees(s).len()
            implies spec_collect_roots(s)[j]
                == (#[trigger] spec_forest_subtrees(s)[j]).to_selected() by {
            if j < pf.len() {
                assert(spec_forest_subtrees(s)[j] == pf[j]);
                assert(spec_collect_roots(s)[j] == pc[j]);
            } else {
                assert(spec_forest_subtrees(s)[j]
                    == s.last().node.spec_selected_subtrees()[j - pf.len()]);
                assert(spec_collect_roots(s)[j]
                    == s.last().node.spec_collected()[j - pf.len()]);
            }
        }
    }
}

impl TerrainQuadtree {
    /// The partition invariant, at the forest, stated over what
    /// `collect_selected_nodes` returns: in any well-formed quadtree — the
    /// state `update` both requires and reestablishes — every world point
    /// lying in some root cell lies in the bounds of exactly one collected
    /// region. The collected regions tile the covered plane with no gap and
    /// no overlap.
    pub proof fn lemma_partition(self, px: int, pz: int)
        requires
            self.wf(),
        ensures
            (exists |i: int| 0 <= i < self.roots@.len()
                && node_contains((#[trigger] self.roots@[i]).node, px, pz))
                ==> exists |j: int| 0 <= j < self.spec_collected_nodes().len()
                    && selected_contains(#[trigger] self.spec_collected_nodes()[j], px, pz),
            forall |j1: int, j2: int| 0 <= j1 < self.spec_collected_nodes().len()
                && 0 <= j2 < self.spec_collected_nodes().len()
                && selected_contains(#[trigger] self.spec_collected_nodes()[j1], px, pz)
                && selected_contains(#[trigger] self.spec_collected_nodes()[j2], px, pz)
                ==> j1 == j2,
    {
        lemma_halving_keeps_divisibility(
            self.root_size as int, (self.max_depth + 1) as nat);
        assert(roots_world_wf(self.roots@, self.root_size as int));
        lemma_forest_partition(self.roots@, self.root_size as int, px, pz);
        lemma_forest_collected(self.roots@);
        let subtrees = spec_forest_subtrees(self.roots@);
        let collected = self.spec_collected_nodes();
        assert forall |j: int| 0 <= j < collected.len()
            implies (selected_contains(#[trigger] collected[j], px, pz)
                <==> node_contains(subtrees[j], px, pz)) by {
            assert(collected[j] == subtrees[j].to_selected());
        }
        if exists |i: int| 0 <= i < self.roots@.len()
            && node_contains((#[trigger] self.roots@[i]).node, px, pz) {
            let j = choose |j: int| 0 <= j < subtrees.len()
                && node_contains(#[trigger] subtrees[j], px, pz);
            assert(selected_contains(collected[j], px, pz));
        }
    }
}
} // verus!