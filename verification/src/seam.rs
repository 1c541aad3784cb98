//! A seam: two edges from different walls that nominally share a boundary,
//! with per-point and per-range gap/overlap classification.
//!
//! A point on the shared boundary is a *gap* when neither edge accepts it
//! and an *overlap* when both do; either is an artifact of single-precision
//! rounding in the acceptance formula.  Classification of one `w` searches
//! outward from the edge line's approximate height, one representable value
//! at a time, alternating below and above, for a bounded number of steps.

use crate::edge::Edge;
use crate::edge::ProjectedPoint;
use crate::edge::ProjectionAxis;
use crate::edge::accepts_spec;
use crate::edge::coord_in_range;
use crate::edge::coord_in_seam;
use crate::edge::normal_wf;
use crate::float_arith::f32_of_int_spec;
use crate::float_bits::INF_BITS;
use crate::float_bits::zidx;
use crate::float_bits::f32_max_spec;
use crate::float_bits::f32_min_spec;
use crate::float_bits::is_finite;
use crate::float_bits::is_flushed;
use crate::float_bits::is_nan;
use crate::float_bits::lemma_zidx_order;
use crate::float_bits::lemma_mag_val_mono;
use crate::float_bits::lemma_next_value_zidx;
use crate::float_bits::lemma_val_decompose;
use crate::float_bits::mag_of;
use crate::float_bits::mag_val;
use crate::float_bits::NEG_ZERO_BITS;
use crate::float_bits::next_spec;
use crate::float_bits::next_value_spec;
use crate::float_bits::prev_spec;
use crate::float_bits::val149;
use crate::float_bits::f32_lt;
use crate::float_bits::next_f32;
use crate::float_bits::next_value;
use crate::float_bits::prev_f32;
use crate::float_range::RangeF32;
use vstd::arithmetic::power2::pow2;
use vstd::prelude::*;

verus! {

/// Which heights a found classification is reported for.  The filter gates
/// only the report: it does not change which height the search finds first,
/// so a classification at a filtered-out height hides ones further away.
#[derive(Clone, Copy, Debug, PartialEq, Eq, Hash, Structural)]
pub enum PointFilter {
    AnyY,
    IntY,
    QuarterIntY,
}

impl Default for PointFilter {
    fn default() -> (r: PointFilter)
        ensures
            r == PointFilter::AnyY,
    {
        PointFilter::AnyY
    }
}

impl PointFilter {
    /// Whether the filter passes the height `y`: every height, the integer
    /// heights, or the integer heights together with the positive
    /// quarter-integer ones (the engine's fractional comparison never
    /// reports a negative non-integer quarter).
    pub open spec fn matches_spec(self, y: u32) -> bool {
        match self {
            PointFilter::AnyY => true,
            PointFilter::IntY => val149(y) % (pow2(149) as int) == 0,
            PointFilter::QuarterIntY => val149(y) % (pow2(149) as int) == 0 || (val149(y) > 0
                && val149(y) % (pow2(147) as int) == 0),
        }
    }

    /// All filters, for enumeration by a caller.
    pub fn all() -> (r: Vec<PointFilter>)
        ensures
            r@ == seq![PointFilter::AnyY, PointFilter::IntY, PointFilter::QuarterIntY],
    {
        let mut v: Vec<PointFilter> = Vec::new();
        v.push(PointFilter::AnyY);
        v.push(PointFilter::IntY);
        v.push(PointFilter::QuarterIntY);
        proof {
            assert(v@ =~= seq![PointFilter::AnyY, PointFilter::IntY, PointFilter::QuarterIntY]);
        }
        v
    }

    /// Whether the filter passes the projected point's height.
    pub fn matches(&self, point: ProjectedPoint<u32>) -> (r: bool)
        requires
            is_finite(point.y),
        ensures
            r == self.matches_spec(point.y),
    {
        match self {
            PointFilter::AnyY => true,
            PointFilter::IntY => val_divisible(point.y, 149),
            PointFilter::QuarterIntY => {
                if val_divisible(point.y, 149) {
                    true
                } else {
                    f32_lt(0, point.y) && val_divisible(point.y, 147)
                }
            },
        }
    }
}

/// The classification of one `(w, y)` sample.
#[derive(Clone, Copy, Debug, PartialEq, Eq, Hash, Structural)]
pub enum PointStatus {
    Gap,
    Overlap,
    Neither,
}

/// Which classifications a report keeps.
#[derive(Clone, Copy, Debug, PartialEq, Eq, Hash, Structural)]
pub enum PointStatusFilter {
    GapsOnly,
    OverlapsOnly,
    GapsAndOverlaps,
    AllPoints,
}

impl PointStatusFilter {
    /// All status filters, for enumeration by a caller.
    pub fn all() -> (r: Vec<PointStatusFilter>)
        ensures
            r@ == seq![
                PointStatusFilter::GapsOnly,
                PointStatusFilter::OverlapsOnly,
                PointStatusFilter::GapsAndOverlaps,
                PointStatusFilter::AllPoints,
            ],
    {
        let mut v: Vec<PointStatusFilter> = Vec::new();
        v.push(PointStatusFilter::GapsOnly);
        v.push(PointStatusFilter::OverlapsOnly);
        v.push(PointStatusFilter::GapsAndOverlaps);
        v.push(PointStatusFilter::AllPoints);
        proof {
            assert(v@ =~= seq![
                PointStatusFilter::GapsOnly,
                PointStatusFilter::OverlapsOnly,
                PointStatusFilter::GapsAndOverlaps,
                PointStatusFilter::AllPoints,
            ]);
        }
        v
    }

    /// Whether the report keeps a point with this status.
    pub open spec fn matches_spec(self, status: PointStatus) -> bool {
        match self {
            PointStatusFilter::GapsOnly => status == PointStatus::Gap,
            PointStatusFilter::OverlapsOnly => status == PointStatus::Overlap,
            PointStatusFilter::GapsAndOverlaps => status == PointStatus::Gap || status
                == PointStatus::Overlap,
            PointStatusFilter::AllPoints => true,
        }
    }

    pub fn matches(&self, status: PointStatus) -> (r: bool)
        ensures
            r == self.matches_spec(status),
    {
        match self {
            PointStatusFilter::GapsOnly => status == PointStatus::Gap,
            PointStatusFilter::OverlapsOnly => status == PointStatus::Overlap,
            PointStatusFilter::GapsAndOverlaps => status == PointStatus::Gap || status
                == PointStatus::Overlap,
            PointStatusFilter::AllPoints => true,
        }
    }
}

/// The classification of a contiguous sub-range.
#[derive(Clone, Copy, Debug, PartialEq, Eq, Hash, Structural)]
pub enum RangeStatus {
    Checked { has_gap: bool, has_overlap: bool },
    Unchecked,
    Skipped,
}

/// A 3D vertex of the collision mesh.
#[derive(Clone, Copy, Debug, PartialEq, Eq, Hash, Structural)]
pub struct Vertex3 {
    pub x: i16,
    pub y: i16,
    pub z: i16,
}

impl Vertex3 {
    /// Package an integer triple.
    pub fn of_array(a: [i16; 3]) -> (r: Vertex3)
        ensures
            r == (Vertex3 { x: a[0], y: a[1], z: a[2] }),
    {
        Vertex3 { x: a[0], y: a[1], z: a[2] }
    }
}

/// The modeled shared boundary between two walls: a pair of edges whose
/// vertex pairs are reverse-equal, plus the raw 3D endpoints for
/// reconstruction.  Identity is structural and is the lookup key for
/// progress that persists across rebuilds.
#[derive(Clone, Copy, Debug, PartialEq, Eq, Hash, Structural)]
pub struct Seam {
    pub edge1: Edge,
    pub edge2: Edge,
    pub endpoint1: Vertex3,
    pub endpoint2: Vertex3,
}

/// Two integer triples agree in every component.
pub open spec fn arr3_eq_spec(a: [i16; 3], b: [i16; 3]) -> bool {
    a[0] == b[0] && a[1] == b[1] && a[2] == b[2]
}

fn arr3_eq(a: &[i16; 3], b: &[i16; 3]) -> (r: bool)
    ensures
        r == arr3_eq_spec(*a, *b),
{
    a[0] == b[0] && a[1] == b[1] && a[2] == b[2]
}

impl Seam {
    /// Both edges share a projection axis and neither is vertical in
    /// projected space.
    pub open spec fn wf(self) -> bool {
        &&& self.edge1.projection_axis == self.edge2.projection_axis
        &&& self.edge1.vertex1.w != self.edge1.vertex2.w
        &&& self.edge2.vertex1.w != self.edge2.vertex2.w
    }

    /// What `between` returns: no seam when the axes differ, when the vertex
    /// pairs are not reverse-equal, or when either edge is vertical in
    /// projected space.
    pub open spec fn between_spec(
        vertices1: ([i16; 3], [i16; 3]),
        normal1: [u32; 3],
        vertices2: ([i16; 3], [i16; 3]),
        normal2: [u32; 3],
    ) -> Option<Seam> {
        let e1 = Edge::new_spec(vertices1, normal1);
        let e2 = Edge::new_spec(vertices2, normal2);
        if e1.projection_axis != e2.projection_axis {
            Option::None
        } else if arr3_eq_spec(vertices1.0, vertices2.1) && arr3_eq_spec(
            vertices1.1,
            vertices2.0,
        ) {
            if e1.vertex1.w == e1.vertex2.w || e2.vertex1.w == e2.vertex2.w {
                Option::None
            } else {
                Option::Some(
                    Seam {
                        edge1: e1,
                        edge2: e2,
                        endpoint1: Vertex3 {
                            x: vertices1.0[0],
                            y: vertices1.0[1],
                            z: vertices1.0[2],
                        },
                        endpoint2: Vertex3 {
                            x: vertices1.1[0],
                            y: vertices1.1[1],
                            z: vertices1.1[2],
                        },
                    },
                )
            }
        } else {
            Option::None
        }
    }

    /// Try to build the seam between two edges given by their vertices and
    /// wall normals.  Absence is the expected outcome for unrelated edges,
    /// never a failure.
    pub fn between(
        vertices1: ([i16; 3], [i16; 3]),
        normal1: [u32; 3],
        vertices2: ([i16; 3], [i16; 3]),
        normal2: [u32; 3],
    ) -> (r: Option<Seam>)
        requires
            normal_wf(normal1),
            normal_wf(normal2),
        ensures
            r == Seam::between_spec(vertices1, normal1, vertices2, normal2),
            r matches Option::Some(s) ==> s.wf(),
    {
        let edge1 = Edge::new(vertices1, normal1);
        let edge2 = Edge::new(vertices2, normal2);
        if !matches_axis(edge1.projection_axis, edge2.projection_axis) {
            return Option::None;
        }
        if arr3_eq(&vertices1.0, &vertices2.1) && arr3_eq(&vertices1.1, &vertices2.0) {
            if edge1.is_vertical() || edge2.is_vertical() {
                return Option::None;
            }
            Option::Some(
                Seam {
                    edge1,
                    edge2,
                    endpoint1: Vertex3::of_array(vertices1.0),
                    endpoint2: Vertex3::of_array(vertices1.1),
                },
            )
        } else {
            Option::None
        }
    }

    /// What `w_range` returns: the intersection of both edges' projected
    /// domains.
    pub open spec fn w_range_spec(s: Seam) -> RangeF32 {
        let r1 = Edge::w_range_spec(s.edge1);
        let r2 = Edge::w_range_spec(s.edge2);
        let start = f32_max_spec(r1.start, r2.start);
        RangeF32 {
            start: start,
            end: f32_max_spec(f32_min_spec(r1.end, r2.end), start),
        }
    }

    /// The seam's `w` domain.
    #[verifier::rlimit(100)]
    pub fn w_range(&self) -> (r: RangeF32)
        ensures
            r == Seam::w_range_spec(*self),
            r.wf(),
            coord_in_seam(r.start),
            coord_in_seam(r.end),
            is_finite(r.start),
            is_finite(r.end),
    {
        let r1 = self.edge1.w_range();
        let r2 = self.edge2.w_range();
        proof {
            vstd::arithmetic::power2::lemma2_to64();
            lemma_int16_range_coord(self.edge1.vertex1.w as int, self.edge1.vertex2.w as int);
            lemma_int16_range_coord(self.edge2.vertex1.w as int, self.edge2.vertex2.w as int);
            crate::float_arith::lemma_of_int_props(self.edge1.vertex1.w as int, 16);
            crate::float_arith::lemma_of_int_props(self.edge1.vertex2.w as int, 16);
            crate::float_arith::lemma_of_int_props(self.edge2.vertex1.w as int, 16);
            crate::float_arith::lemma_of_int_props(self.edge2.vertex2.w as int, 16);
        }
        r1.intersect(&r2)
    }

    /// What `check_point` returns: search outward from the approximate line
    /// height, one representable value at a time, alternating below and
    /// above, until one edge alone accepts twice over (no classification) or
    /// a height classifies.  The filter gates only the report: the first
    /// classifying height decides, and if it fails the filter the result is
    /// no report for this `w`, even when a filter-passing classification
    /// lies further out.
    pub open spec fn check_point_spec(s: Seam, w: u32, filter: PointFilter) -> (u32, PointStatus) {
        let y0 = Edge::approx_y_spec(s.edge1, w);
        search_spec(s, w, filter, y0, y0, next_spec(y0), false, false, 0)
    }

    /// Classify one `w` along the seam.
    pub fn check_point(&self, w: u32, filter: PointFilter) -> (r: (u32, PointStatus))
        requires
            self.wf(),
            coord_in_seam(w),
        ensures
            r == Seam::check_point_spec(*self, w, filter),
    {
        let ghost s = *self;
        let y_approx = self.edge1.approx_y(w);
        proof {
            lemma_mag_below_190(y_approx);
        }
        let mut y_lo: u32 = y_approx;
        let mut y_hi: u32 = next_f32(y_approx);
        let mut seen_in1 = false;
        let mut seen_in2 = false;
        let mut i: u32 = 0;
        while i < 20
            invariant
                s == *self,
                s.wf(),
                coord_in_seam(w),
                i <= 20,
                y_approx == Edge::approx_y_spec(s.edge1, w),
                !is_nan(y_lo),
                !is_nan(y_hi),
                mag_of(y_lo) < 0x5400_0000 + i + 1,
                mag_of(y_hi) < 0x5400_0000 + i + 2,
                Seam::check_point_spec(s, w, filter) == search_spec(
                    s,
                    w,
                    filter,
                    Edge::approx_y_spec(s.edge1, w),
                    y_lo,
                    y_hi,
                    seen_in1,
                    seen_in2,
                    i as nat,
                ),
            decreases 20 - i,
        {
            if seen_in1 && seen_in2 {
                proof {
                    assert(search_spec(
                        s,
                        w,
                        filter,
                        Edge::approx_y_spec(s.edge1, w),
                        y_lo,
                        y_hi,
                        seen_in1,
                        seen_in2,
                        i as nat,
                    ) == (Edge::approx_y_spec(s.edge1, w), PointStatus::Neither));
                }
                return (y_approx, PointStatus::Neither);
            }
            let y: u32 = if i % 2 == 0 {
                let y = y_lo;
                y_lo = prev_f32(y_lo);
                y
            } else {
                let y = y_hi;
                y_hi = next_f32(y_hi);
                y
            };
            proof {
                lemma_small_mag_in_range(y);
                lemma_small_mag_in_range(w);
            }
            let point = ProjectedPoint { w, y };
            let in1 = self.edge1.accepts_projected(point);
            let in2 = self.edge2.accepts_projected(point);
            if in1 && in2 {
                if filter.matches(point) {
                    return (y, PointStatus::Overlap);
                } else {
                    return (y_approx, PointStatus::Neither);
                }
            }
            if !in1 && !in2 {
                if filter.matches(point) {
                    return (y, PointStatus::Gap);
                } else {
                    return (y_approx, PointStatus::Neither);
                }
            }
            if in1 && !in2 {
                seen_in1 = true;
            }
            if in2 && !in1 {
                seen_in2 = true;
            }
            i = i + 1;
        }
        (y_approx, PointStatus::Neither)
    }

    /// What `check_range` returns: every representable value in the range is
    /// classified, the zero value once (the walk lands on positive zero when
    /// crossing the origin); the count of interesting points is the range's
    /// size plus one per gap or overlap found.
    pub open spec fn check_range_spec(s: Seam, r: RangeF32, filter: PointFilter) -> (
        int,
        RangeStatus,
    ) {
        let rec = range_rec(s, walk_start(r), r.end, filter, r.count_spec() as nat);
        (
            r.count_spec() + rec.0,
            RangeStatus::Checked { has_gap: rec.1, has_overlap: rec.2 },
        )
    }

    /// Classify every representable `w` in the range and aggregate.
    pub fn check_range(&self, w_range: &RangeF32, filter: PointFilter) -> (r: (u64, RangeStatus))
        requires
            self.wf(),
            w_range.wf(),
            coord_in_seam(w_range.start),
            coord_in_seam(w_range.end),
        ensures
            r.0 as int == Seam::check_range_spec(*self, *w_range, filter).0,
            r.1 == Seam::check_range_spec(*self, *w_range, filter).1,
    {
        let ghost s = *self;
        let ghost fuel0: nat = w_range.count_spec() as nat;
        let total: usize = w_range.count();
        let mut w: u32 = if w_range.start == NEG_ZERO_BITS {
            0
        } else {
            w_range.start
        };
        let mut has_gap = false;
        let mut has_overlap = false;
        let mut extra: u64 = 0;
        proof {
            if !w_range.is_empty_spec() {
                lemma_zidx_order(w_range.start, w_range.end);
            }
        }
        while f32_lt(w, w_range.end)
            invariant
                s == *self,
                s.wf(),
                w_range.wf(),
                coord_in_seam(w_range.start),
                coord_in_seam(w_range.end),
                fuel0 == w_range.count_spec(),
                !is_nan(w),
                is_flushed(w),
                w != NEG_ZERO_BITS,
                val149(w_range.start) <= val149(w),
                zidx(w_range.start) <= zidx(w),
                zidx(w) - zidx(w_range.start) <= fuel0,
                extra <= zidx(w) - zidx(w_range.start),
                range_rec(s, walk_start(*w_range), w_range.end, filter, fuel0) == ({
                    let rest = range_rec(
                        s,
                        w,
                        w_range.end,
                        filter,
                        (fuel0 - (zidx(w) - zidx(w_range.start))) as nat,
                    );
                    (extra + rest.0, has_gap || rest.1, has_overlap || rest.2)
                }),
            decreases zidx(w_range.end) - zidx(w),
        {
            proof {
                // In range: the walk position is bounded by the endpoints.
                lemma_abs_val_coord(w, w_range.start, w_range.end);
                lemma_zidx_order(w, w_range.end);
                assert(fuel0 - (zidx(w) - zidx(w_range.start)) >= 1);
            }
            let st = self.check_point(w, filter).1;
            match st {
                PointStatus::Gap => {
                    has_gap = true;
                    extra = extra + 1;
                },
                PointStatus::Overlap => {
                    has_overlap = true;
                    extra = extra + 1;
                },
                PointStatus::Neither => {},
            }
            proof {
                assert(w != INF_BITS) by {
                    if mag_of(w) == INF_BITS {
                        assert(mag_val(INF_BITS) == 0x80_0000 * pow2(254));
                        assert(0x80_0000 * pow2(254) == pow2(277)) by {
                            vstd::arithmetic::power2::lemma_pow2_adds(23, 254);
                            vstd::arithmetic::power2::lemma2_to64();
                        }
                        assert(pow2(166) < pow2(277)) by {
                            vstd::arithmetic::power2::lemma_pow2_strictly_increases(166, 277);
                        }
                    }
                }
                lemma_next_value_zidx(w);
            }
            w = next_value(w);
        }
        proof {
            let k = zidx(w) - zidx(w_range.start);
            let rest = range_rec(s, w, w_range.end, filter, (fuel0 - k) as nat);
            assert(rest == (0int, false, false));
        }
        (total as u64 + extra, RangeStatus::Checked { has_gap, has_overlap })
    }
}

/// Law: for a seam built from two edges that are exact reverses of each
/// other, the seam's `w` domain is `[min(w1, w2), max(w1, w2))` of either
/// edge's vertices.
pub proof fn lemma_reverse_seam_w_range(s: Seam)
    requires
        s.edge1.vertex1 == s.edge2.vertex2,
        s.edge1.vertex2 == s.edge2.vertex1,
    ensures
        Seam::w_range_spec(s).start == f32_of_int_spec(
            if s.edge1.vertex1.w <= s.edge1.vertex2.w {
                s.edge1.vertex1.w as int
            } else {
                s.edge1.vertex2.w as int
            },
        ),
        Seam::w_range_spec(s).end == f32_of_int_spec(
            if s.edge1.vertex1.w <= s.edge1.vertex2.w {
                s.edge1.vertex2.w as int
            } else {
                s.edge1.vertex1.w as int
            },
        ),
{
    let lo: int = if s.edge1.vertex1.w <= s.edge1.vertex2.w {
        s.edge1.vertex1.w as int
    } else {
        s.edge1.vertex2.w as int
    };
    let hi: int = if s.edge1.vertex1.w <= s.edge1.vertex2.w {
        s.edge1.vertex2.w as int
    } else {
        s.edge1.vertex1.w as int
    };
    // Both edges span the same integers, and the exact conversions keep
    // their order, so the intersection clamps nothing.
    crate::float_arith::lemma_of_int_exact(lo);
    crate::float_arith::lemma_of_int_exact(hi);
    vstd::arithmetic::mul::lemma_mul_inequality(lo, hi, pow2(149) as int);
    assert(val149(f32_of_int_spec(lo)) <= val149(f32_of_int_spec(hi)));
}

/// Law: classification is a pure function of the seam, the range and the
/// filter: two runs over the same inputs yield identical results.  (The
/// executable `check_range` is pinned to `check_range_spec`, so this law
/// carries over to any two of its calls.)
pub proof fn lemma_check_range_idempotent(
    s: Seam,
    r: RangeF32,
    filter: PointFilter,
    r1: (int, RangeStatus),
    r2: (int, RangeStatus),
)
    requires
        r1 == Seam::check_range_spec(s, r, filter),
        r2 == Seam::check_range_spec(s, r, filter),
    ensures
        r1 == r2,
{
}

/// The bounded outward search of `check_point`, one step per call: `i`
/// counts steps already taken, `y_lo`/`y_hi` are the next candidates below
/// and above, and `seen1`/`seen2` record one-sided acceptances.  The first
/// height that classifies (both or neither edge accepts) ends the search;
/// a filter-rejected classification is reported as no classification.
pub open spec fn search_spec(
    s: Seam,
    w: u32,
    filter: PointFilter,
    y0: u32,
    y_lo: u32,
    y_hi: u32,
    seen1: bool,
    seen2: bool,
    i: nat,
) -> (u32, PointStatus)
    decreases 20 - i,
{
    if i >= 20 {
        (y0, PointStatus::Neither)
    } else if seen1 && seen2 {
        (y0, PointStatus::Neither)
    } else {
        let y = if i % 2 == 0 {
            y_lo
        } else {
            y_hi
        };
        let y_lo2 = if i % 2 == 0 {
            prev_spec(y_lo)
        } else {
            y_lo
        };
        let y_hi2 = if i % 2 == 0 {
            y_hi
        } else {
            next_spec(y_hi)
        };
        let in1 = accepts_spec(s.edge1, w, y);
        let in2 = accepts_spec(s.edge2, w, y);
        if in1 == in2 {
            // The first classifying height decides; the filter gates only
            // whether it is reported.
            if filter.matches_spec(y) {
                (y, if in1 {
                    PointStatus::Overlap
                } else {
                    PointStatus::Gap
                })
            } else {
                (y0, PointStatus::Neither)
            }
        } else {
            let seen1b = seen1 || (in1 && !in2);
            let seen2b = seen2 || (in2 && !in1);
            search_spec(s, w, filter, y0, y_lo2, y_hi2, seen1b, seen2b, i + 1)
        }
    }
}

/// Where the walk over a range begins: at the range's start, except that a
/// negative-zero start is taken up as positive zero, the zero value's one
/// walk representative.
pub open spec fn walk_start(r: RangeF32) -> u32 {
    if r.start == NEG_ZERO_BITS {
        0u32
    } else {
        r.start
    }
}

/// The walk of `check_range`: classify `w`, step to the next representable
/// value (each value visited once), and fold gaps and overlaps, stopping at
/// the range's end.  The first component counts the gaps and overlaps
/// found.
pub open spec fn range_rec(s: Seam, w: u32, end: u32, filter: PointFilter, fuel: nat) -> (
    int,
    bool,
    bool,
)
    decreases fuel,
{
    if fuel == 0 {
        (0int, false, false)
    } else if !(val149(w) < val149(end)) {
        (0int, false, false)
    } else {
        let st = Seam::check_point_spec(s, w, filter).1;
        let rest = range_rec(s, next_value_spec(w), end, filter, (fuel - 1) as nat);
        (
            (if st == PointStatus::Gap || st == PointStatus::Overlap {
                1int
            } else {
                0int
            }) + rest.0,
            (st == PointStatus::Gap) || rest.1,
            (st == PointStatus::Overlap) || rest.2,
        )
    }
}

/// Whether the scaled value is divisible by `2^t`: for the integer heights
/// `t` is 149 (unit grid), for quarter-integer heights 147.
fn val_divisible(y: u32, t: u32) -> (r: bool)
    requires
        is_finite(y),
        24 <= t <= 149,
    ensures
        r == (val149(y) % (pow2(t as nat) as int) == 0int),
{
    proof {
        lemma_val_decompose(y);
        vstd::arithmetic::power2::lemma_pow2_pos(t as nat);
        lemma_neg_divisible(
            (crate::float_bits::mant_of(y) * pow2(crate::float_bits::kexp_of(y))) as int,
            pow2(t as nat) as int,
        );
    }
    let mag: u32 = y % 0x8000_0000;
    if mag == 0 {
        proof {
            vstd::arithmetic::div_mod::lemma_small_mod(0, pow2(t as nat));
        }
        return true;
    }
    let e: u32 = mag / 0x80_0000;
    let f: u32 = mag % 0x80_0000;
    let (m, k): (u32, u32) = if e == 0 {
        (f, 0)
    } else {
        (0x80_0000 + f, e - 1)
    };
    proof {
        assert(m as nat == crate::float_bits::mant_of(y));
        assert(k as nat == crate::float_bits::kexp_of(y));
        assert(m > 0);
    }
    if k >= t {
        proof {
            vstd::arithmetic::power2::lemma_pow2_adds(t as nat, (k - t) as nat);
            assert((m as nat) * pow2(k as nat) == ((m as nat) * pow2((k - t) as nat)) * pow2(
                t as nat,
            )) by {
                vstd::arithmetic::mul::lemma_mul_is_associative(
                    m as int,
                    pow2((k - t) as nat) as int,
                    pow2(t as nat) as int,
                );
                vstd::arithmetic::mul::lemma_mul_is_commutative(
                    pow2((k - t) as nat) as int,
                    pow2(t as nat) as int,
                );
            }
            vstd::arithmetic::div_mod::lemma_mod_multiples_basic(
                ((m as nat) * pow2((k - t) as nat)) as int,
                pow2(t as nat) as int,
            );
        }
        true
    } else {
        proof {
            // Factor the grid: divisibility by 2^t reduces to the low
            // `t - k` digits of the significand.
            vstd::arithmetic::power2::lemma_pow2_pos(k as nat);
            vstd::arithmetic::power2::lemma_pow2_pos((t - k) as nat);
            vstd::arithmetic::power2::lemma_pow2_adds(k as nat, (t - k) as nat);
            vstd::arithmetic::div_mod::lemma_truncate_middle(
                m as int,
                pow2(k as nat) as int,
                pow2((t - k) as nat) as int,
            );
            vstd::arithmetic::mul::lemma_mul_is_commutative(m as int, pow2(k as nat) as int);
            assert((((m as nat) * pow2(k as nat)) as int) % (pow2(t as nat) as int) == (pow2(
                k as nat,
            ) as int) * ((m as int) % (pow2((t - k) as nat) as int)));
            vstd::arithmetic::mul::lemma_mul_nonzero(
                pow2(k as nat) as int,
                (m as int) % (pow2((t - k) as nat) as int),
            );
            vstd::arithmetic::div_mod::lemma_mod_bound(m as int, pow2((t - k) as nat) as int);
        }
        let sh: u32 = t - k;
        if sh > 24 {
            proof {
                assert((m as nat) < pow2(sh as nat)) by {
                    vstd::arithmetic::power2::lemma2_to64();
                    if 24 < sh {
                        vstd::arithmetic::power2::lemma_pow2_strictly_increases(24, sh as nat);
                    }
                }
                vstd::arithmetic::div_mod::lemma_small_mod(m as nat, pow2(sh as nat));
            }
            false
        } else {
            let d: u128 = crate::float_arith::pow2_u128(sh);
            (m as u128) % d == 0
        }
    }
}

/// Divisibility is indifferent to sign.
proof fn lemma_neg_divisible(x: int, d: int)
    requires
        d > 0,
    ensures
        ((-x) % d == 0) == (x % d == 0),
{
    if x % d == 0 {
        vstd::arithmetic::div_mod::lemma_fundamental_div_mod(x, d);
        assert(-x == d * (-(x / d)) + 0) by {
            vstd::arithmetic::mul::lemma_mul_unary_negation(d, x / d);
        }
        vstd::arithmetic::div_mod::lemma_fundamental_div_mod_converse_mod(-x, d, -(x / d), 0);
    }
    if (-x) % d == 0 {
        vstd::arithmetic::div_mod::lemma_fundamental_div_mod(-x, d);
        assert(x == d * (-((-x) / d)) + 0) by {
            vstd::arithmetic::mul::lemma_mul_unary_negation(d, (-x) / d);
        }
        vstd::arithmetic::div_mod::lemma_fundamental_div_mod_converse_mod(x, d, -((-x) / d), 0);
    }
}

/// Two distinct axes compare as such (plain enum comparison).
fn matches_axis(a: ProjectionAxis, b: ProjectionAxis) -> (r: bool)
    ensures
        r == (a == b),
{
    a == b
}

/// A pattern whose scaled magnitude stays below 2^190 has small magnitude
/// bits.
proof fn lemma_mag_below_190(y: u32)
    requires
        mag_val(mag_of(y)) < pow2(190),
    ensures
        mag_of(y) < 0x5400_0000,
{
    vstd::arithmetic::power2::lemma2_to64();
    if mag_of(y) >= 0x5400_0000 {
        if mag_of(y) > INF_BITS {
            let f = mag_of(y) % 0x80_0000;
            assert(mag_of(y) / 0x80_0000 == 255);
            assert(mag_val(mag_of(y)) == (0x80_0000 + f) * pow2(254));
            assert((0x80_0000 + f) * pow2(254) >= pow2(277)) by {
                vstd::arithmetic::mul::lemma_mul_inequality(
                    0x80_0000,
                    0x80_0000 + f,
                    pow2(254) as int,
                );
                vstd::arithmetic::power2::lemma_pow2_adds(23, 254);
            }
            assert(pow2(190) < pow2(277)) by {
                vstd::arithmetic::power2::lemma_pow2_strictly_increases(190, 277);
            }
        } else if mag_of(y) > 0x5400_0000 {
            lemma_mag_val_mono(0x5400_0000u32, mag_of(y));
        }
        assert(mag_val(0x5400_0000u32) == 0x80_0000 * pow2(167));
        assert(0x80_0000 * pow2(167) == pow2(190)) by {
            vstd::arithmetic::power2::lemma_pow2_adds(23, 167);
        }
    }
}

/// A pattern with small magnitude bits is a valid coordinate for the
/// acceptance test.
proof fn lemma_small_mag_in_range(y: u32)
    requires
        mag_of(y) < 0x5500_0000 || mag_val(mag_of(y)) < pow2(166),
    ensures
        coord_in_range(y),
{
    vstd::arithmetic::power2::lemma2_to64();
    if mag_of(y) < 0x5500_0000 {
        if mag_of(y) < 0x5500_0000 {
            lemma_mag_val_mono(mag_of(y), 0x5500_0000u32);
        }
        assert(mag_val(0x5500_0000u32) == 0x80_0000 * pow2(169));
        assert(0x80_0000 * pow2(169) == pow2(192)) by {
            vstd::arithmetic::power2::lemma_pow2_adds(23, 169);
        }
        assert(pow2(192) < pow2(200)) by {
            vstd::arithmetic::power2::lemma_pow2_strictly_increases(192, 200);
        }
    } else {
        assert(pow2(166) < pow2(200)) by {
            vstd::arithmetic::power2::lemma_pow2_strictly_increases(166, 200);
        }
    }
}

/// An edge's integer `w` endpoints are seam coordinates.
proof fn lemma_int16_range_coord(w1: int, w2: int)
    requires
        -0x8000 <= w1 <= 0x7FFF,
        -0x8000 <= w2 <= 0x7FFF,
    ensures
        mag_val(mag_of(f32_of_int_spec(if w1 <= w2 {
            w1
        } else {
            w2
        }))) < pow2(166),
        mag_val(mag_of(f32_of_int_spec(if w1 <= w2 {
            w2
        } else {
            w1
        }))) < pow2(166),
{
    vstd::arithmetic::power2::lemma2_to64();
    crate::float_arith::lemma_of_int_props(if w1 <= w2 {
        w1
    } else {
        w2
    }, 16);
    crate::float_arith::lemma_of_int_props(if w1 <= w2 {
        w2
    } else {
        w1
    }, 16);
}

/// Within the walk, the value of `w` lies between the endpoints, so it is a
/// seam coordinate.
proof fn lemma_abs_val_coord(w: u32, start: u32, end: u32)
    requires
        coord_in_seam(start),
        coord_in_seam(end),
        val149(start) <= val149(w),
        val149(w) < val149(end),
    ensures
        coord_in_seam(w),
{
    crate::float_bits::lemma_val_decompose(w);
    crate::float_bits::lemma_val_decompose(start);
    crate::float_bits::lemma_val_decompose(end);
}

} // verus!
