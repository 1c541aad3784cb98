//! The seam logic against a plain floating-point mirror: edge acceptance,
//! point and range classification, seam construction, progress bookkeeping
//! and the spatial partition.

use seamcheck::edge::{Edge, Orientation, ProjectedPoint, ProjectionAxis};
use seamcheck::export::export_rows;
use seamcheck::float_bits::{next_f32, prev_f32};
use seamcheck::float_range::RangeF32;
use seamcheck::model::{canonicalize_process_name, classify_surface, SurfaceType};
use seamcheck::seam::{PointFilter, PointStatus, PointStatusFilter, RangeStatus, Seam, Vertex3};
use seamcheck::seam_processor::{
    complete_taken_segment, seams_between, SeamProcessor, SeamProgress, SeamRequest,
    DEFAULT_SEGMENT_LENGTH_BITS,
};
use seamcheck::spatial_partition::{SpatialPartition, Surface};

fn nb(v: [f32; 3]) -> [u32; 3] {
    [v[0].to_bits(), v[1].to_bits(), v[2].to_bits()]
}

fn wall(v1: [i16; 3], v2: [i16; 3], v3: [i16; 3], n: [f32; 3]) -> Surface {
    Surface {
        flags: 0,
        vertex1: v1,
        vertex2: v2,
        vertex3: v3,
        normal: nb(n),
        origin_offset: 0,
    }
}

/// Plain-float mirror of the acceptance formula.
fn accepts_ref(e: &Edge, w: f32, y: f32) -> bool {
    let w1 = e.vertex1.w as f32;
    let y1 = e.vertex1.y as f32;
    let w2 = e.vertex2.w as f32;
    let y2 = e.vertex2.y as f32;
    let r = (y1 - y) * (w2 - w1) - (w1 - w) * (y2 - y1);
    match e.orientation {
        Orientation::Positive => r >= 0.0,
        Orientation::Negative => r <= 0.0,
    }
}

fn matches_ref(filter: PointFilter, y: f32) -> bool {
    match filter {
        PointFilter::AnyY => true,
        PointFilter::IntY => y.fract() == 0.0,
        PointFilter::QuarterIntY => [0.0f32, 0.25, 0.5, 0.75].contains(&y.fract()),
    }
}

fn next_ref(x: f32) -> f32 {
    f32::from_bits(next_f32(x.to_bits()))
}

/// Step to the next representable value, zero visited once as +0.0.
fn next_value_ref(x: f32) -> f32 {
    let n = next_f32(x.to_bits());
    if n == 0x8000_0000 {
        0.0
    } else {
        f32::from_bits(n)
    }
}

fn prev_ref(x: f32) -> f32 {
    f32::from_bits(prev_f32(x.to_bits()))
}

/// Plain-float mirror of the outward point search.
fn check_point_ref(s: &Seam, w: f32, filter: PointFilter) -> (f32, PointStatus) {
    let w1 = s.edge1.vertex1.w as f32;
    let y1 = s.edge1.vertex1.y as f32;
    let dy = (s.edge1.vertex2.y as i32 - s.edge1.vertex1.y as i32) as f32;
    let dw = (s.edge1.vertex2.w as i32 - s.edge1.vertex1.w as i32) as f32;
    let y_approx = y1 + (w - w1) * (dy / dw);
    let mut seen_in1 = false;
    let mut seen_in2 = false;
    let mut y_lo = y_approx;
    let mut y_hi = next_ref(y_approx);
    for i in 0..20 {
        if seen_in1 && seen_in2 {
            break;
        }
        let y;
        if i % 2 == 0 {
            y = y_lo;
            y_lo = prev_ref(y_lo);
        } else {
            y = y_hi;
            y_hi = next_ref(y_hi);
        }
        let in1 = accepts_ref(&s.edge1, w, y);
        let in2 = accepts_ref(&s.edge2, w, y);
        // The first classifying height decides; the filter gates only the
        // report.
        if in1 && in2 {
            if matches_ref(filter, y) {
                return (y, PointStatus::Overlap);
            }
            return (y_approx, PointStatus::Neither);
        }
        if !in1 && !in2 {
            if matches_ref(filter, y) {
                return (y, PointStatus::Gap);
            }
            return (y_approx, PointStatus::Neither);
        }
        if in1 && !in2 {
            seen_in1 = true;
        }
        if in2 && !in1 {
            seen_in2 = true;
        }
    }
    (y_approx, PointStatus::Neither)
}

fn check_range_ref(s: &Seam, start: f32, end: f32, filter: PointFilter) -> (bool, bool) {
    let mut has_gap = false;
    let mut has_overlap = false;
    let mut w = if start.to_bits() == 0x8000_0000 { 0.0 } else { start };
    while w < end {
        match check_point_ref(s, w, filter).1 {
            PointStatus::Gap => has_gap = true,
            PointStatus::Overlap => has_overlap = true,
            PointStatus::Neither => {},
        }
        w = next_value_ref(w);
    }
    (has_gap, has_overlap)
}

/// The fixture seam: two walls sharing the boundary from (-50,0,0) to
/// (50,3,0), projected along Z.
fn fixture_seam() -> Seam {
    let v1: [i16; 3] = [-50, 0, 0];
    let v2: [i16; 3] = [50, 3, 0];
    let n1 = [0.0f32, 0.0, -1.0];
    let n2 = [0.0f32, 0.0, 1.0];
    Seam::between((v1, v2), nb(n1), (v2, v1), nb(n2)).expect("fixture seam must form")
}

#[test]
fn axis_and_orientation_of_wall() {
    assert_eq!(ProjectionAxis::of_wall(&nb([1.0, 0.0, 0.0])), ProjectionAxis::X);
    assert_eq!(ProjectionAxis::of_wall(&nb([-0.9, 0.0, 0.1])), ProjectionAxis::X);
    assert_eq!(ProjectionAxis::of_wall(&nb([0.5, 0.0, 0.8])), ProjectionAxis::Z);
    assert_eq!(ProjectionAxis::of_wall(&nb([0.707, 0.0, 0.707])), ProjectionAxis::Z);
    assert_eq!(Orientation::of_wall(&nb([1.0, 0.0, 0.0])), Orientation::Positive);
    assert_eq!(Orientation::of_wall(&nb([-1.0, 0.0, 0.0])), Orientation::Negative);
    assert_eq!(Orientation::of_wall(&nb([0.0, 0.0, -1.0])), Orientation::Positive);
    assert_eq!(Orientation::of_wall(&nb([0.0, 0.0, 1.0])), Orientation::Negative);
}

#[test]
fn projection_picks_the_dominant_plane() {
    let p: [i16; 3] = [3, 7, 11];
    let px = ProjectedPoint::project(p, ProjectionAxis::X);
    assert_eq!((px.w, px.y), (11, 7));
    let pz = ProjectedPoint::project(p, ProjectionAxis::Z);
    assert_eq!((pz.w, pz.y), (3, 7));
}

#[test]
fn vertical_edge_accepts_half_plane() {
    // Vertices (w=0,y=0) -> (w=0,y=10), positive orientation: the test
    // value reduces to 10*w, so exactly the points with r >= 0 pass.
    let e = Edge {
        projection_axis: ProjectionAxis::Z,
        vertex1: ProjectedPoint { w: 0, y: 0 },
        vertex2: ProjectedPoint { w: 0, y: 10 },
        orientation: Orientation::Positive,
    };
    let samples: [(f32, f32); 8] = [
        (1.0, 5.0),
        (0.5, -3.0),
        (1e-20, 7.0),
        (0.0, 2.0),
        (-0.0, 2.0),
        (-1.0, 5.0),
        (-0.5, -3.0),
        (-1e-20, 7.0),
    ];
    for &(w, y) in samples.iter() {
        let got = e.accepts_projected(ProjectedPoint { w: w.to_bits(), y: y.to_bits() });
        let r = (0.0f32 - y) * (0.0f32 - 0.0) - (0.0f32 - w) * (10.0f32 - 0.0);
        assert_eq!(got, r >= 0.0, "at w={w} y={y}");
        assert_eq!(got, accepts_ref(&e, w, y));
        assert_eq!(got, w >= 0.0 || w == -0.0, "half-plane at w={w}");
    }
}

#[test]
fn accepts_matches_hardware_widely() {
    let e = Edge {
        projection_axis: ProjectionAxis::Z,
        vertex1: ProjectedPoint { w: -7, y: 3 },
        vertex2: ProjectedPoint { w: 11, y: -2 },
        orientation: Orientation::Negative,
    };
    let mut state: u32 = 0xDEAD_BEEF;
    for _ in 0..500 {
        state = state.wrapping_mul(1664525).wrapping_add(1013904223);
        let w = ((state >> 8) as f32 / 65536.0) - 128.0;
        state = state.wrapping_mul(1664525).wrapping_add(1013904223);
        let y = ((state >> 8) as f32 / 65536.0) - 128.0;
        let got = e.accepts_projected(ProjectedPoint { w: w.to_bits(), y: y.to_bits() });
        assert_eq!(got, accepts_ref(&e, w, y), "w={w} y={y}");
    }
}

#[test]
fn between_rejects_mismatches() {
    let v1: [i16; 3] = [0, 0, 0];
    let v2: [i16; 3] = [10, 3, 0];
    let v3: [i16; 3] = [10, 3, 5];
    // Axis mismatch.
    assert!(Seam::between((v1, v2), nb([0.0, 0.0, 1.0]), (v2, v1), nb([1.0, 0.0, 0.0])).is_none());
    // Vertices not reverse-equal.
    assert!(Seam::between((v1, v2), nb([0.0, 0.0, 1.0]), (v1, v2), nb([0.0, 0.0, -1.0])).is_none());
    // Vertical edge in projected space (w is x for Z-projective walls).
    let t1: [i16; 3] = [4, 0, 0];
    let t2: [i16; 3] = [4, 9, 0];
    assert!(Seam::between((t1, t2), nb([0.0, 0.0, 1.0]), (t2, t1), nb([0.0, 0.0, -1.0])).is_none());
    // A well-formed pair does produce a seam.
    assert!(Seam::between((v1, v2), nb([0.0, 0.0, 1.0]), (v2, v1), nb([0.0, 0.0, -1.0])).is_some());
}

#[test]
fn w_range_of_reverse_edges_is_min_max() {
    let s = fixture_seam();
    let r = s.w_range();
    assert_eq!(r.start, (-50.0f32).to_bits());
    assert_eq!(r.end, 50.0f32.to_bits());
}

#[test]
fn check_point_matches_hardware_mirror() {
    let s = fixture_seam();
    for filter in [PointFilter::AnyY, PointFilter::IntY, PointFilter::QuarterIntY] {
        for base in [-49.5f32, -2.0, 1.25, 13.7, 49.0] {
            let mut w = base;
            for _ in 0..50 {
                let (ry, rst) = check_point_ref(&s, w, filter);
                let (gy, gst) = s.check_point(w.to_bits(), filter);
                assert_eq!(gst, rst, "status at w={w} {filter:?}");
                assert_eq!(gy, ry.to_bits(), "y at w={w} {filter:?}");
                w = next_ref(w);
            }
        }
    }
}

#[test]
fn check_range_matches_hardware_mirror() {
    let s = fixture_seam();
    for base in [-3.0f32, 1.5, 42.0] {
        let start = base;
        let mut end = base;
        for _ in 0..300 {
            end = next_ref(end);
        }
        let range = RangeF32 { start: start.to_bits(), end: end.to_bits() };
        let (count, status) = s.check_range(&range, PointFilter::AnyY);
        let (has_gap, has_overlap) = check_range_ref(&s, start, end, PointFilter::AnyY);
        assert_eq!(status, RangeStatus::Checked { has_gap, has_overlap }, "at {base}");
        assert!(count >= 300);
    }
}

#[test]
fn agreeing_fixture_window_has_no_gap_and_no_overlap() {
    // Where the two reversed edges' formulas agree (each sampled point
    // claimed by exactly one side), classification reports neither gaps nor
    // overlaps.  The agreeing case is a surface continuing across two
    // same-facing walls.  Scan windows of the domain for one where the
    // plain-float mirror confirms agreement, then hold the library to it.
    let v1: [i16; 3] = [-50, 30000, 0];
    let v2: [i16; 3] = [50, 30003, 0];
    let n = [0.0f32, 0.0, -1.0];
    let s = Seam::between((v1, v2), nb(n), (v2, v1), nb(n)).expect("fixture seam must form");
    let mut found = false;
    for base in [2.1f32, 3.7, 5.3, 11.9, 23.45, 37.21, 41.07, -17.3, -33.1, 47.9] {
        let start = base;
        let mut end = base;
        for _ in 0..200 {
            end = next_ref(end);
        }
        if check_range_ref(&s, start, end, PointFilter::AnyY) == (false, false) {
            found = true;
            let range = RangeF32 { start: start.to_bits(), end: end.to_bits() };
            let (_, status) = s.check_range(&range, PointFilter::AnyY);
            assert_eq!(status, RangeStatus::Checked { has_gap: false, has_overlap: false });
            break;
        }
    }
    assert!(found, "no agreeing window found in the fixture domain");
}

#[test]
fn check_range_is_idempotent() {
    let s = fixture_seam();
    let start = 7.5f32;
    let mut end = start;
    for _ in 0..200 {
        end = next_ref(end);
    }
    let range = RangeF32 { start: start.to_bits(), end: end.to_bits() };
    let first = s.check_range(&range, PointFilter::QuarterIntY);
    let second = s.check_range(&range, PointFilter::QuarterIntY);
    assert_eq!(first, second);
}

#[test]
fn export_rows_lists_matching_points() {
    let s = fixture_seam();
    let start = -2.5f32;
    let mut end = start;
    for _ in 0..200 {
        end = next_ref(end);
    }
    let range = RangeF32 { start: start.to_bits(), end: end.to_bits() };
    let all = export_rows(&s, &range, PointFilter::AnyY, PointStatusFilter::AllPoints);
    assert_eq!(all.len(), 200);
    let mut w = start;
    for row in all.iter() {
        assert_eq!(row.0, w.to_bits());
        let (ry, rst) = check_point_ref(&s, w, PointFilter::AnyY);
        assert_eq!(row.1, ry.to_bits());
        assert_eq!(row.2, rst);
        w = next_value_ref(w);
    }
    let gaps = export_rows(&s, &range, PointFilter::AnyY, PointStatusFilter::GapsOnly);
    for row in gaps.iter() {
        assert_eq!(row.2, PointStatus::Gap);
    }
    let both = export_rows(&s, &range, PointFilter::AnyY, PointStatusFilter::GapsAndOverlaps);
    assert!(gaps.len() <= both.len() && both.len() <= all.len());
}

#[test]
fn walk_visits_zero_once_as_positive_zero() {
    // Three negative normals, then the zero value (as +0), then positive
    // normals: one row per value, negative zero never its own row.
    let s = fixture_seam();
    let range = RangeF32 { start: 0x8080_0002, end: 0x0080_0002 };
    assert_eq!(range.count(), 6);
    let rows = export_rows(&s, &range, PointFilter::AnyY, PointStatusFilter::AllPoints);
    let ws: Vec<u32> = rows.iter().map(|r| r.0).collect();
    assert_eq!(
        ws,
        vec![0x8080_0002, 0x8080_0001, 0x8080_0000, 0x0000_0000, 0x0080_0000, 0x0080_0001],
    );
    let (count, _) = s.check_range(&range, PointFilter::AnyY);
    assert!(count >= 6);
}

#[test]
fn progress_drained_reconstructs_domain_with_one_skipped_zone() {
    let s = fixture_seam();
    let domain = s.w_range();
    let mut planner = SeamProgress::new(domain, DEFAULT_SEGMENT_LENGTH_BITS);
    let mut progress = SeamProgress::new(domain, DEFAULT_SEGMENT_LENGTH_BITS);
    let segs: Vec<(RangeF32, bool)> = planner.take_all_segments();
    for &(seg, skipped) in segs.iter() {
        // The classification itself is exercised elsewhere; the bookkeeping
        // only needs a non-Unchecked status, and the flagged zone is
        // recorded as Skipped by the fold itself.
        let status = RangeStatus::Checked { has_gap: false, has_overlap: false };
        complete_taken_segment(&mut progress, (seg, skipped), status);
    }
    assert!(progress.is_complete());
    let out = progress.segments();
    // The union of the completed segments and the (empty) remaining range
    // reconstructs [-50, 50) exactly.
    assert_eq!(out[0].0.start, (-50.0f32).to_bits());
    for k in 1..out.len() {
        assert_eq!(out[k].0.start, out[k - 1].0.end, "segments must chain");
    }
    assert_eq!(out[out.len() - 1].0.end, 50.0f32.to_bits());
    assert_eq!(out[out.len() - 1].1, RangeStatus::Unchecked);
    // The zero crossing is exactly one uncoalesced Skipped segment [-1, 1).
    let skipped: Vec<&(RangeF32, RangeStatus)> =
        out.iter().filter(|e| e.1 == RangeStatus::Skipped).collect();
    assert_eq!(skipped.len(), 1);
    assert_eq!(skipped[0].0.start, (-1.0f32).to_bits());
    assert_eq!(skipped[0].0.end, 1.0f32.to_bits());
}

#[test]
fn partition_separated_walls_yield_no_pairs() {
    let mut p = SpatialPartition::new();
    // Three walls in mutually non-adjacent buckets (bucket size 200, one
    // bucket of margin): far apart on both axes.
    p.insert(wall([0, 0, 0], [10, 5, 0], [10, 0, 0], [0.0, 0.0, 1.0]));
    p.insert(wall([5000, 0, 5000], [5010, 5, 5000], [5010, 0, 5000], [0.0, 0.0, 1.0]));
    p.insert(wall([-5000, 0, -5000], [-4990, 5, -5000], [-4990, 0, -5000], [0.0, 0.0, 1.0]));
    assert_eq!(p.pairs().len(), 0);
}

#[test]
fn partition_sharing_walls_yield_one_pair_either_order() {
    let a = wall([0, 0, 0], [10, 5, 0], [10, 0, 0], [0.0, 0.0, 1.0]);
    let b = wall([10, 5, 0], [0, 0, 0], [0, 5, 0], [0.0, 0.0, -1.0]);
    let mut p1 = SpatialPartition::new();
    p1.insert(a);
    p1.insert(b);
    assert_eq!(p1.pairs(), vec![(0usize, 1usize)]);
    let mut p2 = SpatialPartition::new();
    p2.insert(b);
    p2.insert(a);
    assert_eq!(p2.pairs(), vec![(0usize, 1usize)]);
}

#[test]
fn walls_are_selected_by_normal_y() {
    assert!(wall([0, 0, 0], [1, 0, 0], [0, 1, 0], [0.0, 0.01, -1.0]).is_wall());
    assert!(wall([0, 0, 0], [1, 0, 0], [0, 1, 0], [0.0, -0.01, 1.0]).is_wall());
    assert!(!wall([0, 0, 0], [1, 0, 0], [0, 1, 0], [0.0, 0.02, 1.0]).is_wall());
    assert!(!wall([0, 0, 0], [1, 0, 0], [0, 1, 0], [0.0, 1.0, 0.0]).is_wall());
}

#[test]
fn seams_between_finds_the_shared_boundary() {
    let a = wall([-50, 0, 0], [50, 3, 0], [50, 0, 0], [0.0, 0.0, 1.0]);
    let b = wall([50, 3, 0], [-50, 0, 0], [-50, 3, 0], [0.0, 0.0, -1.0]);
    let seams = seams_between(&a, &b);
    assert_eq!(seams.len(), 1);
    assert_eq!(seams[0].endpoint1, Vertex3 { x: -50, y: 0, z: 0 });
    assert_eq!(seams[0].endpoint2, Vertex3 { x: 50, y: 3, z: 0 });
}

#[test]
fn processor_tracks_progress_and_focus() {
    let s = fixture_seam();
    let mut proc = SeamProcessor::new();
    proc.set_active_seams(vec![s]);
    assert_eq!(proc.active_seams().len(), 1);
    assert_eq!(proc.remaining_seams(), 1);
    // An empty queue refills with one request per seam lacking progress.
    let reqs = proc.refill_requests();
    assert_eq!(reqs.len(), 1);
    assert_eq!(reqs[0].seam, s);
    assert!(!reqs[0].is_focused);
    assert!(proc.request_is_active(&reqs[0]));
    // A finished background result lands in the progress map.
    let mut done = SeamProgress::new(s.w_range(), DEFAULT_SEGMENT_LENGTH_BITS);
    let mut planned = SeamProgress::new(s.w_range(), DEFAULT_SEGMENT_LENGTH_BITS);
    for seg in planned.take_all_segments() {
        let status = RangeStatus::Checked { has_gap: false, has_overlap: true };
        complete_taken_segment(&mut done, seg, status);
    }
    proc.apply_result(&reqs[0], done);
    assert_eq!(proc.remaining_seams(), 0);
    assert!(proc.refill_requests().is_empty());
    let got = proc.seam_progress(&s);
    assert!(got.is_complete());
    // A focused request reports through its own slot and asks the caller to
    // queue it once.
    let zone = RangeF32 { start: (-2.0f32).to_bits(), end: 2.0f32.to_bits() };
    let (p1, q1) = proc.focused_seam_progress(&s, zone, 1.0f32.to_bits());
    assert!(q1.is_some());
    assert!(!p1.is_complete());
    let (_, q2) = proc.focused_seam_progress(&s, zone, 1.0f32.to_bits());
    assert!(q2.is_none());
    // Dropping a stale queued request for an inactive seam.
    proc.set_active_seams(Vec::new());
    assert!(!proc.request_is_active(&SeamRequest::unfocused(s)));
}

#[test]
fn classify_and_canonicalize() {
    assert_eq!(classify_surface(&nb([0.0, 1.0, 0.0])), SurfaceType::Floor);
    assert_eq!(classify_surface(&nb([0.0, -1.0, 0.0])), SurfaceType::Ceiling);
    assert_eq!(classify_surface(&nb([0.9, 0.0, 0.1])), SurfaceType::WallXProj);
    assert_eq!(classify_surface(&nb([0.1, 0.0, 0.9])), SurfaceType::WallZProj);
    assert_eq!(canonicalize_process_name(b"My_Game.exe"), b"my-game".to_vec());
    assert_eq!(canonicalize_process_name(b"tool.exe.exe"), b"tool".to_vec());
    assert_eq!(canonicalize_process_name(b"plain"), b"plain".to_vec());
    let filters = PointFilter::all();
    assert_eq!(filters.len(), 3);
    let sfilters = PointStatusFilter::all();
    assert_eq!(sfilters.len(), 4);
    assert!(PointStatusFilter::GapsOnly.matches(PointStatus::Gap));
    assert!(!PointStatusFilter::GapsOnly.matches(PointStatus::Overlap));
    assert!(PointStatusFilter::AllPoints.matches(PointStatus::Neither));
}

#[test]
fn point_filter_matches_fract_semantics() {
    let cases: [f32; 12] = [
        0.0, -0.0, 1.0, -3.0, 2.5, -2.5, 0.25, 0.75, -0.25, 1.125, 100000.5, 16777216.0,
    ];
    for &y in cases.iter() {
        for filter in [PointFilter::AnyY, PointFilter::IntY, PointFilter::QuarterIntY] {
            let got = filter.matches(ProjectedPoint { w: 0, y: y.to_bits() });
            assert_eq!(got, matches_ref(filter, y), "{filter:?} at {y}");
        }
    }
}
