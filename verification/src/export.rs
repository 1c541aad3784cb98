//! The bulk export primitive: classify every representable `w` of a range
//! and keep the rows whose status the report wants.  The caller renders the
//! rows (value and bit pattern of `w` and of the classified `y`, and the
//! status) into its tabular text format and reports progress by exporting
//! chunk by chunk.

use crate::edge::coord_in_seam;
use crate::float_bits::INF_BITS;
use crate::float_bits::zidx;
use crate::float_bits::is_flushed;
use crate::float_bits::is_nan;
use crate::float_bits::lemma_next_value_zidx;
use crate::float_bits::lemma_zidx_order;
use crate::float_bits::mag_of;
use crate::float_bits::mag_val;
use crate::float_bits::NEG_ZERO_BITS;
use crate::float_bits::next_value_spec;
use crate::float_bits::val149;
use crate::float_bits::f32_lt;
use crate::float_bits::next_value;
use crate::float_range::RangeF32;
use crate::seam::walk_start;
use crate::seam::PointFilter;
use crate::seam::PointStatus;
use crate::seam::PointStatusFilter;
use crate::seam::Seam;
use vstd::arithmetic::power2::pow2;
use vstd::prelude::*;

verus! {

/// The rows the export of one range yields, walking the representable
/// values upward (the zero value once, as positive zero): each classified
/// point whose status passes the filter, as `(w, y, status)`.
pub open spec fn export_rec(
    s: Seam,
    w: u32,
    end: u32,
    point_filter: PointFilter,
    status_filter: PointStatusFilter,
    fuel: nat,
) -> Seq<(u32, u32, PointStatus)>
    decreases fuel,
{
    if fuel == 0 {
        Seq::<(u32, u32, PointStatus)>::empty()
    } else if !(val149(w) < val149(end)) {
        Seq::<(u32, u32, PointStatus)>::empty()
    } else {
        let (y, st) = Seam::check_point_spec(s, w, point_filter);
        let rest = export_rec(
            s,
            next_value_spec(w),
            end,
            point_filter,
            status_filter,
            (fuel - 1) as nat,
        );
        if status_filter.matches_spec(st) {
            seq![(w, y, st)] + rest
        } else {
            rest
        }
    }
}

/// Classify every representable `w` in the range and collect the rows whose
/// status passes the filter.
pub fn export_rows(
    seam: &Seam,
    w_range: &RangeF32,
    point_filter: PointFilter,
    status_filter: PointStatusFilter,
) -> (rows: Vec<(u32, u32, PointStatus)>)
    requires
        seam.wf(),
        w_range.wf(),
        coord_in_seam(w_range.start),
        coord_in_seam(w_range.end),
    ensures
        rows@ == export_rec(
            *seam,
            walk_start(*w_range),
            w_range.end,
            point_filter,
            status_filter,
            w_range.count_spec() as nat,
        ),
{
    let ghost s = *seam;
    let ghost fuel0: nat = w_range.count_spec() as nat;
    let mut rows: Vec<(u32, u32, PointStatus)> = Vec::new();
    let mut w: u32 = if w_range.start == NEG_ZERO_BITS {
        0
    } else {
        w_range.start
    };
    proof {
        if !w_range.is_empty_spec() {
            lemma_zidx_order(w_range.start, w_range.end);
        }
        assert(rows@ + export_rec(s, w, w_range.end, point_filter, status_filter, fuel0)
            =~= export_rec(
            s,
            walk_start(*w_range),
            w_range.end,
            point_filter,
            status_filter,
            fuel0,
        ));
    }
    while f32_lt(w, w_range.end)
        invariant
            s == *seam,
            s.wf(),
            w_range.wf(),
            coord_in_seam(w_range.start),
            coord_in_seam(w_range.end),
            fuel0 == w_range.count_spec(),
            !is_nan(w),
            is_flushed(w),
            w != NEG_ZERO_BITS,
            val149(w_range.start) <= val149(w),
            zidx(w_range.start) <= zidx(w),
            zidx(w) - zidx(w_range.start) <= fuel0,
            export_rec(s, walk_start(*w_range), w_range.end, point_filter, status_filter, fuel0)
                == rows@ + export_rec(
                s,
                w,
                w_range.end,
                point_filter,
                status_filter,
                (fuel0 - (zidx(w) - zidx(w_range.start))) as nat,
            ),
        decreases zidx(w_range.end) - zidx(w),
    {
        proof {
            lemma_in_walk_coord(w, w_range.start, w_range.end);
            lemma_zidx_order(w, w_range.end);
            assert(fuel0 - (zidx(w) - zidx(w_range.start)) >= 1);
        }
        let (y, st) = seam.check_point(w, point_filter);
        let keep = status_filter.matches(st);
        let ghost rows_before = rows@;
        if keep {
            rows.push((w, y, st));
        }
        proof {
            let rest = export_rec(
                s,
                next_value_spec(w),
                w_range.end,
                point_filter,
                status_filter,
                (fuel0 - (zidx(w) - zidx(w_range.start)) - 1) as nat,
            );
            if keep {
                assert(rows@ =~= rows_before.push((w, y, st)));
                assert(rows_before.push((w, y, st)) + rest =~= rows_before + (seq![(w, y, st)]
                    + rest));
            }
            assert(w != INF_BITS) by {
                if mag_of(w) == INF_BITS {
                    assert(mag_val(INF_BITS) == 0x80_0000 * pow2(254));
                    assert(0x80_0000 * pow2(254) == pow2(277)) by {
                        vstd::arithmetic::power2::lemma_pow2_adds(23, 254);
                        vstd::arithmetic::power2::lemma2_to64();
                    }
                    assert(pow2(166) < pow2(277)) by {
                        vstd::arithmetic::power2::lemma_pow2_strictly_increases(166, 277);
                    }
                }
            }
            lemma_next_value_zidx(w);
        }
        w = next_value(w);
    }
    rows
}

/// Within the walk, the position is a seam coordinate.
proof fn lemma_in_walk_coord(w: u32, start: u32, end: u32)
    requires
        coord_in_seam(start),
        coord_in_seam(end),
        val149(start) <= val149(w),
        val149(w) < val149(end),
    ensures
        coord_in_seam(w),
{
    crate::float_bits::lemma_val_decompose(w);
    crate::float_bits::lemma_val_decompose(start);
    crate::float_bits::lemma_val_decompose(end);
}

} // verus!
