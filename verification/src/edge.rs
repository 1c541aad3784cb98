//! One side of a wall triangle, projected into its dominant plane, with the
//! engine's half-plane acceptance test.
//!
//! Vertices are signed 16-bit integer triples; normals are single-precision
//! triples carried as bit patterns.  The acceptance test evaluates
//! `r = (y1 - y) * (w2 - w1) - (w1 - w) * (y2 - y1)` in single precision, in
//! exactly this order, and accepts `r >= 0` (positive orientation) or
//! `r <= 0` (negative orientation): reproducing that formula bit for bit is
//! the point of the library, so every step here rounds exactly as the
//! engine's hardware does.

use crate::float_arith::f32_add_spec;
use crate::float_arith::f32_mul_spec;
use crate::float_arith::f32_of_int_spec;
use crate::float_arith::f32_sub_spec;
use crate::float_arith::neg_spec;
use crate::float_arith::ratio_spec;
use crate::float_arith::f32_add;
use crate::float_arith::f32_mul;
use crate::float_arith::f32_of_int;
use crate::float_arith::f32_ratio;
use crate::float_arith::f32_sub;
use crate::float_arith::lemma_add_spec_bound;
use crate::float_arith::lemma_mul_spec_bound;
use crate::float_arith::lemma_neg_props;
use crate::float_arith::lemma_of_int_props;
use crate::float_bits::is_finite;
use crate::float_bits::is_nan;
use crate::float_bits::mag_of;
use crate::float_bits::mag_val;
use crate::float_bits::val149;
use crate::float_bits::f32_le;
use crate::float_bits::f32_lt;
use crate::float_range::RangeF32;
use vstd::arithmetic::power2::pow2;
use vstd::prelude::*;

verus! {

/// Bit pattern of the axis-dominance threshold 0.707.
pub const AXIS_THRESHOLD_BITS: u32 = 0x3F34_FDF4;

/// Bit pattern of -0.707.
pub const NEG_AXIS_THRESHOLD_BITS: u32 = 0xBF34_FDF4;

/// The axis along which a wall projects.
#[derive(Clone, Copy, Debug, PartialEq, Eq, Hash, Structural)]
pub enum ProjectionAxis {
    X,
    Z,
}

/// Every component of a normal is a comparable (non-NaN) pattern.
pub open spec fn normal_wf(normal: [u32; 3]) -> bool {
    &&& !is_nan(normal[0])
    &&& !is_nan(normal[1])
    &&& !is_nan(normal[2])
}

impl ProjectionAxis {
    /// The axis the wall's normal is more aligned with: X when
    /// `|normal.x| > 0.707`, else Z.
    pub open spec fn of_wall_spec(normal: [u32; 3]) -> ProjectionAxis {
        if val149(normal[0]) < val149(NEG_AXIS_THRESHOLD_BITS) || val149(AXIS_THRESHOLD_BITS)
            < val149(normal[0]) {
            ProjectionAxis::X
        } else {
            ProjectionAxis::Z
        }
    }

    /// Determine the projection axis for a wall given its normal vector.
    pub fn of_wall(normal: &[u32; 3]) -> (r: ProjectionAxis)
        requires
            normal_wf(*normal),
        ensures
            r == ProjectionAxis::of_wall_spec(*normal),
    {
        if f32_lt(normal[0], NEG_AXIS_THRESHOLD_BITS) || f32_lt(AXIS_THRESHOLD_BITS, normal[0]) {
            ProjectionAxis::X
        } else {
            ProjectionAxis::Z
        }
    }
}

/// The orientation of a wall: which sign of the test value `r` it accepts.
#[derive(Clone, Copy, Debug, PartialEq, Eq, Hash, Structural)]
pub enum Orientation {
    /// Accept r if r >= 0.
    Positive,
    /// Accept r if r <= 0.
    Negative,
}

impl Orientation {
    /// Positive iff (axis is X and `normal.x > 0`) or (axis is Z and
    /// `normal.z <= 0`).
    pub open spec fn of_wall_spec(normal: [u32; 3]) -> Orientation {
        match ProjectionAxis::of_wall_spec(normal) {
            ProjectionAxis::X => if val149(normal[0]) > 0 {
                Orientation::Positive
            } else {
                Orientation::Negative
            },
            ProjectionAxis::Z => if val149(normal[2]) <= 0 {
                Orientation::Positive
            } else {
                Orientation::Negative
            },
        }
    }

    /// Get the orientation for a wall given its normal vector.
    pub fn of_wall(normal: &[u32; 3]) -> (r: Orientation)
        requires
            normal_wf(*normal),
        ensures
            r == Orientation::of_wall_spec(*normal),
    {
        match ProjectionAxis::of_wall(normal) {
            ProjectionAxis::X => {
                if f32_lt(0, normal[0]) {
                    Orientation::Positive
                } else {
                    Orientation::Negative
                }
            },
            ProjectionAxis::Z => {
                if f32_le(normal[2], 0) {
                    Orientation::Positive
                } else {
                    Orientation::Negative
                }
            },
        }
    }
}

/// A projected point used for edge calculations: the non-vertical coordinate
/// `w` (x for Z-projective walls, z for X-projective walls) and the height
/// `y`.
#[derive(Clone, Copy, Debug, PartialEq, Eq, Hash, Structural)]
pub struct ProjectedPoint<T> {
    pub w: T,
    pub y: T,
}

impl<T: Copy> ProjectedPoint<T> {
    /// Project the point along the given axis.
    pub fn project(point: [T; 3], axis: ProjectionAxis) -> (r: ProjectedPoint<T>)
        ensures
            axis == ProjectionAxis::X ==> r == (ProjectedPoint { w: point[2], y: point[1] }),
            axis == ProjectionAxis::Z ==> r == (ProjectedPoint { w: point[0], y: point[1] }),
    {
        match axis {
            ProjectionAxis::X => ProjectedPoint { w: point[2], y: point[1] },
            ProjectionAxis::Z => ProjectedPoint { w: point[0], y: point[1] },
        }
    }
}

/// An edge of a wall, as one half-plane acceptance test.  `vertex1`,
/// `vertex2` are listed in source winding order.
#[derive(Clone, Copy, Debug, PartialEq, Eq, Hash, Structural)]
pub struct Edge {
    pub projection_axis: ProjectionAxis,
    pub vertex1: ProjectedPoint<i16>,
    pub vertex2: ProjectedPoint<i16>,
    pub orientation: Orientation,
}

/// The bit pattern of the test value
/// `(y1 - y) * (w2 - w1) - (w1 - w) * (y2 - y1)`, with the edge's integer
/// vertices promoted to single precision and every operation rounded to
/// nearest, ties to even.
#[verifier::opaque]
pub open spec fn formula_bits(e: Edge, w: u32, y: u32) -> u32 {
    let w1 = f32_of_int_spec(e.vertex1.w as int);
    let y1 = f32_of_int_spec(e.vertex1.y as int);
    let w2 = f32_of_int_spec(e.vertex2.w as int);
    let y2 = f32_of_int_spec(e.vertex2.y as int);
    f32_sub_spec(
        f32_mul_spec(f32_sub_spec(y1, y), f32_sub_spec(w2, w1)),
        f32_mul_spec(f32_sub_spec(w1, w), f32_sub_spec(y2, y1)),
    )
}

/// Whether the edge accepts the projected point: the test value's sign
/// matches the orientation (either zero pattern passes both).
pub open spec fn accepts_spec(e: Edge, w: u32, y: u32) -> bool {
    match e.orientation {
        Orientation::Positive => val149(formula_bits(e, w, y)) >= 0,
        Orientation::Negative => val149(formula_bits(e, w, y)) <= 0,
    }
}

/// Coordinates the acceptance test is defined over: far below the binades
/// where its intermediate products could overflow.
pub open spec fn coord_in_range(b: u32) -> bool {
    mag_val(mag_of(b)) < pow2(200)
}

/// Coordinates within a seam's projected domain, which integer vertices
/// bound.
pub open spec fn coord_in_seam(b: u32) -> bool {
    mag_val(mag_of(b)) < pow2(166)
}

/// What projection returns: the dominant-plane coordinates of a triple.
pub open spec fn project_spec<T>(point: [T; 3], axis: ProjectionAxis) -> ProjectedPoint<T> {
    match axis {
        ProjectionAxis::X => ProjectedPoint { w: point[2], y: point[1] },
        ProjectionAxis::Z => ProjectedPoint { w: point[0], y: point[1] },
    }
}

impl Edge {
    /// What `new` returns: axis and orientation from the normal, vertices
    /// projected along that axis.
    pub open spec fn new_spec(vertices: ([i16; 3], [i16; 3]), normal: [u32; 3]) -> Edge {
        let axis = ProjectionAxis::of_wall_spec(normal);
        Edge {
            projection_axis: axis,
            vertex1: project_spec(vertices.0, axis),
            vertex2: project_spec(vertices.1, axis),
            orientation: Orientation::of_wall_spec(normal),
        }
    }

    /// Build the edge of a wall from two of its vertices and its normal.
    pub fn new(vertices: ([i16; 3], [i16; 3]), normal: [u32; 3]) -> (r: Edge)
        requires
            normal_wf(normal),
        ensures
            r == Edge::new_spec(vertices, normal),
    {
        let axis = ProjectionAxis::of_wall(&normal);
        Edge {
            projection_axis: axis,
            vertex1: ProjectedPoint::project(vertices.0, axis),
            vertex2: ProjectedPoint::project(vertices.1, axis),
            orientation: Orientation::of_wall(&normal),
        }
    }

    /// Vertical in projected space: both vertices share a `w`.
    pub fn is_vertical(&self) -> (r: bool)
        ensures
            r == (self.vertex1.w == self.vertex2.w),
    {
        self.vertex1.w == self.vertex2.w
    }

    /// What `w_range` returns: `[min(w1, w2), max(w1, w2))`, the integer
    /// endpoints promoted exactly.
    pub open spec fn w_range_spec(e: Edge) -> RangeF32 {
        RangeF32 {
            start: f32_of_int_spec(
                if e.vertex1.w <= e.vertex2.w {
                    e.vertex1.w as int
                } else {
                    e.vertex2.w as int
                },
            ),
            end: f32_of_int_spec(
                if e.vertex1.w <= e.vertex2.w {
                    e.vertex2.w as int
                } else {
                    e.vertex1.w as int
                },
            ),
        }
    }

    /// The edge's projected `w` domain.
    pub fn w_range(&self) -> (r: RangeF32)
        ensures
            r == Edge::w_range_spec(*self),
            r.wf(),
    {
        let (lo, hi): (i16, i16) = if self.vertex1.w <= self.vertex2.w {
            (self.vertex1.w, self.vertex2.w)
        } else {
            (self.vertex2.w, self.vertex1.w)
        };
        proof {
            vstd::arithmetic::power2::lemma2_to64();
            lemma_of_int_props(lo as int, 16);
            lemma_of_int_props(hi as int, 16);
        }
        RangeF32 { start: f32_of_int(lo as i64), end: f32_of_int(hi as i64) }
    }

    /// Return true if the projected point lies on the inside of the edge:
    /// the engine's half-plane test, bit for bit.
    pub fn accepts_projected(&self, point: ProjectedPoint<u32>) -> (r: bool)
        requires
            coord_in_range(point.w),
            coord_in_range(point.y),
        ensures
            r == accepts_spec(*self, point.w, point.y),
    {
        let w1 = f32_of_int(self.vertex1.w as i64);
        let y1 = f32_of_int(self.vertex1.y as i64);
        let w2 = f32_of_int(self.vertex2.w as i64);
        let y2 = f32_of_int(self.vertex2.y as i64);
        proof {
            reveal(formula_bits);
            vstd::arithmetic::power2::lemma2_to64();
            lemma_of_int_props(self.vertex1.w as int, 16);
            lemma_of_int_props(self.vertex1.y as int, 16);
            lemma_of_int_props(self.vertex2.w as int, 16);
            lemma_of_int_props(self.vertex2.y as int, 16);
            lemma_coord_finite(point.w, 200);
            lemma_coord_finite(point.y, 200);
            lemma_bound_widen(w1, 166, 200);
            lemma_bound_widen(y1, 166, 200);
            lemma_bound_widen(w2, 166, 200);
            lemma_bound_widen(y2, 166, 200);
            lemma_neg_props(point.y);
            lemma_neg_props(w1);
            lemma_neg_props(point.w);
            lemma_neg_props(y1);
            lemma_add_spec_bound(y1, neg_spec(point.y), 200);
            lemma_add_spec_bound(w2, neg_spec(w1), 200);
            lemma_add_spec_bound(w1, neg_spec(point.w), 200);
            lemma_add_spec_bound(y2, neg_spec(y1), 200);
        }
        let d1 = f32_sub(y1, point.y);
        let d2 = f32_sub(w2, w1);
        let d3 = f32_sub(w1, point.w);
        let d4 = f32_sub(y2, y1);
        proof {
            lemma_mul_spec_bound(d1, d2, 202, 202);
            lemma_mul_spec_bound(d3, d4, 202, 202);
        }
        let p1 = f32_mul(d1, d2);
        let p2 = f32_mul(d3, d4);
        proof {
            lemma_neg_props(p2);
            lemma_add_spec_bound(p1, neg_spec(p2), 256);
            lemma_bound_widen(p1, 256, 256);
        }
        let rr = f32_sub(p1, p2);
        match self.orientation {
            Orientation::Positive => f32_le(0, rr),
            Orientation::Negative => f32_le(rr, 0),
        }
    }

    /// Return true if the given point lies on the inside of the edge.  A
    /// point is inside a wall iff all three of the wall's edges accept it.
    pub fn accepts(&self, point: [u32; 3]) -> (r: bool)
        requires
            coord_in_range(point[0]),
            coord_in_range(point[1]),
            coord_in_range(point[2]),
        ensures
            self.projection_axis == ProjectionAxis::X ==> r == accepts_spec(
                *self,
                point[2],
                point[1],
            ),
            self.projection_axis == ProjectionAxis::Z ==> r == accepts_spec(
                *self,
                point[0],
                point[1],
            ),
    {
        self.accepts_projected(ProjectedPoint::project(point, self.projection_axis))
    }

    /// The slope pattern `(y2 - y1) / (w2 - w1)`, rounded once.
    pub open spec fn slope_bits(e: Edge) -> u32 {
        let dy = e.vertex2.y as int - e.vertex1.y as int;
        let dw = e.vertex2.w as int - e.vertex1.w as int;
        let sign: u32 = if (dy < 0) != (dw < 0) {
            1
        } else {
            0
        };
        ratio_spec(
            sign,
            if dy < 0 {
                (-dy) as nat
            } else {
                dy as nat
            },
            if dw < 0 {
                (-dw) as nat
            } else {
                dw as nat
            },
        )
    }

    /// The approximate `y` of the edge's line at `w`:
    /// `y1 + (w - w1) * ((y2 - y1) / (w2 - w1))`, each step rounded to
    /// nearest.
    #[verifier::opaque]
    pub open spec fn approx_y_spec(e: Edge, w: u32) -> u32 {
        let w1 = f32_of_int_spec(e.vertex1.w as int);
        let y1 = f32_of_int_spec(e.vertex1.y as int);
        f32_add_spec(y1, f32_mul_spec(f32_sub_spec(w, w1), Edge::slope_bits(e)))
    }

    /// Compute the approximate `y` of the edge's line at `w`.
    pub fn approx_y(&self, w: u32) -> (r: u32)
        requires
            self.vertex1.w != self.vertex2.w,
            coord_in_seam(w),
        ensures
            r == Edge::approx_y_spec(*self, w),
            is_finite(r),
            !is_nan(r),
            mag_val(mag_of(r)) < pow2(190),
    {
        let dy: i32 = (self.vertex2.y as i32) - (self.vertex1.y as i32);
        let dw: i32 = (self.vertex2.w as i32) - (self.vertex1.w as i32);
        let sign: u32 = if (dy < 0) != (dw < 0) {
            1
        } else {
            0
        };
        let pmag: u64 = if dy < 0 {
            (-(dy as i64)) as u64
        } else {
            dy as u64
        };
        let qmag: u64 = if dw < 0 {
            (-(dw as i64)) as u64
        } else {
            dw as u64
        };
        let slope = f32_ratio(sign, pmag, qmag);
        let w1 = f32_of_int(self.vertex1.w as i64);
        let y1 = f32_of_int(self.vertex1.y as i64);
        proof {
            reveal(Edge::approx_y_spec);
            vstd::arithmetic::power2::lemma2_to64();
            lemma_of_int_props(self.vertex1.w as int, 16);
            lemma_of_int_props(self.vertex1.y as int, 16);
            lemma_coord_finite(w, 166);
            lemma_neg_props(w1);
            lemma_add_spec_bound(w, neg_spec(w1), 166);
            // The slope's binade is bounded by the integer differences.
            if pmag > 0 {
                crate::float_arith::lemma_rat_len_bounds(pmag as nat, qmag as nat);
                let t = crate::float_arith::rat_len(pmag as nat, qmag as nat);
                if t >= 19 {
                    assert((qmag as nat) * pow2((t + 63) as nat) <= (pmag as nat) * pow2(64));
                    assert((pmag as nat) * pow2(64) < pow2(81)) by {
                        vstd::arithmetic::mul::lemma_mul_strict_inequality(
                            pmag as int,
                            0x2_0000,
                            pow2(64) as int,
                        );
                        vstd::arithmetic::power2::lemma_pow2_adds(17, 64);
                    }
                    assert((qmag as nat) * pow2((t + 63) as nat) >= pow2(82)) by {
                        vstd::arithmetic::mul::lemma_mul_inequality(
                            1,
                            qmag as int,
                            pow2((t + 63) as nat) as int,
                        );
                        if 82 < t + 63 {
                            vstd::arithmetic::power2::lemma_pow2_strictly_increases(
                                82,
                                (t + 63) as nat,
                            );
                        }
                    }
                    assert(pow2(81) < pow2(82)) by {
                        vstd::arithmetic::power2::lemma_pow2_strictly_increases(81, 82);
                    }
                    assert(false);
                }
                lemma_bound_widen(slope, (150 + t) as nat, 168);
            } else {
                vstd::arithmetic::div_mod::lemma_fundamental_div_mod_converse(
                    (sign * 0x8000_0000) as int,
                    0x8000_0000,
                    sign as int,
                    0,
                );
                assert(mag_val(mag_of(slope)) == 0);
                vstd::arithmetic::power2::lemma_pow2_pos(168);
            }
            lemma_mul_spec_bound(f32_add_spec(w, neg_spec(w1)), slope, 168, 168);
        }
        let d = f32_sub(w, w1);
        let m = f32_mul(d, slope);
        proof {
            lemma_bound_widen(y1, 166, 188);
            lemma_add_spec_bound(y1, m, 188);
        }
        f32_add(y1, m)
    }
}

/// A coordinate below any binade under the infinite one is finite and
/// comparable.
proof fn lemma_coord_finite(b: u32, l: nat)
    requires
        mag_val(mag_of(b)) < pow2(l),
        l <= 276,
    ensures
        is_finite(b),
        !is_nan(b),
{
    vstd::arithmetic::power2::lemma2_to64();
    if mag_of(b) >= crate::float_bits::INF_BITS {
        let f = mag_of(b) % 0x80_0000;
        assert(mag_of(b) / 0x80_0000 == 255);
        assert(mag_val(mag_of(b)) == (0x80_0000 + f) * pow2(254));
        assert((0x80_0000 + f) * pow2(254) >= 0x80_0000 * pow2(254)) by {
            vstd::arithmetic::mul::lemma_mul_inequality(
                0x80_0000,
                0x80_0000 + f,
                pow2(254) as int,
            );
        }
        assert(0x80_0000 * pow2(254) >= pow2(l)) by {
            vstd::arithmetic::power2::lemma_pow2_adds(23, 254);
            if l < 277 {
                vstd::arithmetic::power2::lemma_pow2_strictly_increases(l, 277);
            }
        }
        assert(false);
    }
}

/// A binade bound loosens to any higher binade.
proof fn lemma_bound_widen(b: u32, l1: nat, l2: nat)
    requires
        mag_val(mag_of(b)) < pow2(l1),
        l1 <= l2,
    ensures
        mag_val(mag_of(b)) < pow2(l2),
{
    if l1 < l2 {
        vstd::arithmetic::power2::lemma_pow2_strictly_increases(l1, l2);
    }
}

} // verus!
