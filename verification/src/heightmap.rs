//! Height sampling for the terrain plane.
//!
//! The quadtree consumes elevation as an opaque oracle: a pure function of
//! world coordinates. This module defines that capability and a simple
//! built-in source; richer sources (noise stacks, image-backed heightmaps)
//! implement [`HeightmapSource`] outside the library and convert their samples
//! to integer world units at the boundary.

use vstd::prelude::*;

verus! {

/// An oracle for terrain elevation: a pure function of world coordinates.
///
/// The quadtree consults it once per visited region, at the region's center.
/// `spec_sample` is the mathematical value of the oracle; `sample` computes
/// exactly that value. Implementations outside the library are not checked
/// against their `spec_sample`; everything proved about the selection then
/// holds relative to the samples they actually return.
pub trait HeightmapSource: Sized {
    /// The elevation this oracle assigns to `(x, z)`.
    spec fn spec_sample(&self, x: i64, z: i64) -> i64;

    /// Sample the height at a world position.
    fn sample(&self, x: i64, z: i64) -> (h: i64)
        ensures
            h == self.spec_sample(x, z),
    ;
}

/// A procedural heightmap: an affine function of the world coordinates,
/// saturated at the `i64` range. Useful as a deterministic built-in source
/// and for exercising the selection against simple slopes.
pub struct ProceduralHeightmap {
    /// Elevation at the origin.
    pub base: i64,
    /// Elevation gained per unit step in x.
    pub slope_x: i64,
    /// Elevation gained per unit step in z.
    pub slope_z: i64,
}

/// `v` clamped into the `i64` range.
pub open spec fn saturate_i64(v: int) -> i64 {
    if v < i64::MIN {
        i64::MIN
    } else if v > i64::MAX {
        i64::MAX
    } else {
        v as i64
    }
}

impl ProceduralHeightmap {
    /// Create a procedural heightmap from its plane coefficients.
    pub fn new(base: i64, slope_x: i64, slope_z: i64) -> (h: Self)
        ensures
            h == (ProceduralHeightmap { base, slope_x, slope_z }),
    {
        ProceduralHeightmap { base, slope_x, slope_z }
    }
}

impl HeightmapSource for ProceduralHeightmap {
    /// `base + slope_x * x + slope_z * z`, saturated at the `i64` range.
    open spec fn spec_sample(&self, x: i64, z: i64) -> i64 {
        saturate_i64(self.base + self.slope_x * x + self.slope_z * z)
    }

    fn sample(&self, x: i64, z: i64) -> (h: i64)
        ensures
            h == self.spec_sample(x, z),
    {
        proof {
            lemma_plane_sample_bounds(self.slope_x as int, x as int, self.slope_z as int, z as int);
        }
        let p1 = (self.slope_x as i128) * (x as i128);
        let p2 = (self.slope_z as i128) * (z as i128);
        let b = self.base as i128;

        if p1 > 0 && p2 > i128::MAX - p1 {
            return i64::MAX;
        }
        if p1 < 0 && p2 < i128::MIN - p1 {
            return i64::MIN;
        }
        let t = p1 + p2;
        if t > 0 && b > i128::MAX - t {
            return i64::MAX;
        }
        if t < 0 && b < i128::MIN - t {
            return i64::MIN;
        }
        let v = b + t;
        if v < i64::MIN as i128 {
            i64::MIN
        } else if v > i64::MAX as i128 {
            i64::MAX
        } else {
            v as i64
        }
    }
}

/// Two products of `i64` values and their sum with a third fit in `i128`.
proof fn lemma_plane_sample_bounds(a: int, b: int, c: int, d: int)
    requires
        -0x8000_0000_0000_0000 <= a < 0x8000_0000_0000_0000,
        -0x8000_0000_0000_0000 <= b < 0x8000_0000_0000_0000,
        -0x8000_0000_0000_0000 <= c < 0x8000_0000_0000_0000,
        -0x8000_0000_0000_0000 <= d < 0x8000_0000_0000_0000,
    ensures
        -0x4000_0000_0000_0000_0000_0000_0000_0000 <= a * b
            <= 0x4000_0000_0000_0000_0000_0000_0000_0000,
        -0x4000_0000_0000_0000_0000_0000_0000_0000 <= c * d
            <= 0x4000_0000_0000_0000_0000_0000_0000_0000,
{
    assert(-0x4000_0000_0000_0000_0000_0000_0000_0000 <= a * b
        <= 0x4000_0000_0000_0000_0000_0000_0000_0000) by (nonlinear_arith)
        requires
            -0x8000_0000_0000_0000 <= a <= 0x8000_0000_0000_0000,
            -0x8000_0000_0000_0000 <= b <= 0x8000_0000_0000_0000;
    assert(-0x4000_0000_0000_0000_0000_0000_0000_0000 <= c * d
        <= 0x4000_0000_0000_0000_0000_0000_0000_0000) by (nonlinear_arith)
        requires
            -0x8000_0000_0000_0000 <= c <= 0x8000_0000_0000_0000,
            -0x8000_0000_0000_0000 <= d <= 0x8000_0000_0000_0000;
}


/// Cast a vertical ray at `(x, z)` against the terrain surface: the hit
/// point, unless the surface there lies above `max_height`.
pub fn raycast_vertical<O: HeightmapSource>(oracle: &O, x: i64, z: i64, max_height: i64) -> (r: Option<(i64, i64, i64)>)
    ensures
        oracle.spec_sample(x, z) <= max_height ==> r == Some((x, oracle.spec_sample(x, z), z)),
        oracle.spec_sample(x, z) > max_height ==> r is None,
{
    let height = oracle.sample(x, z);
    if height <= max_height {
        Some((x, height, z))
    } else {
        None
    }
}
} // verus!
