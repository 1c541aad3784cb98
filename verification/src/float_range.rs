//! Half-open ranges `[start, end)` of single-precision values, carried as
//! bit patterns with both endpoints flushed to zero if denormal.  A range is
//! empty when `end <= start` as the hardware compares the values; counting
//! and enumeration step along adjacent representable values (`next_f32`),
//! visiting each signed zero once when the range straddles zero.

use crate::float_bits::zidx;
use crate::float_bits::flush_f32_to_zero;
use crate::float_bits::flush_spec;
use crate::float_bits::is_flushed;
use crate::float_bits::is_finite;
use crate::float_bits::is_nan;
use crate::float_bits::lemma_zidx_order;
use crate::float_bits::mag_of;
use crate::float_bits::next_spec;
use crate::float_bits::sign_of;
use crate::float_bits::val149;
use crate::float_bits::f32_le;
use crate::float_bits::f32_max;
use crate::float_bits::f32_min;
use crate::float_bits::next_f32;
use crate::float_arith::f32_add_spec;
use crate::float_arith::f32_mul_spec;
use crate::float_arith::f32_of_int_spec;
use crate::float_arith::f32_add;
use crate::float_arith::f32_mul;
use crate::float_arith::f32_of_int;
use vstd::prelude::*;

verus! {

/// A half-open span `[start, end)` of single-precision values, endpoints as
/// bit patterns.
#[derive(Clone, Copy, Debug, PartialEq, Eq, Structural)]
pub struct RangeF32 {
    pub start: u32,
    pub end: u32,
}

impl RangeF32 {
    /// Well-formed: endpoints are flushed, comparable patterns.
    pub open spec fn wf(self) -> bool {
        &&& is_flushed(self.start)
        &&& is_flushed(self.end)
        &&& !is_nan(self.start)
        &&& !is_nan(self.end)
    }

    /// Empty when the end does not exceed the start.
    pub open spec fn is_empty_spec(self) -> bool {
        val149(self.end) <= val149(self.start)
    }

    /// Number of representable values in the span: the normal values and
    /// zero lying in it, with zero counted once (the two zero patterns are
    /// one value).
    pub open spec fn count_spec(self) -> int {
        if self.is_empty_spec() {
            0
        } else {
            zidx(self.end) - zidx(self.start)
        }
    }

    /// Construct `[start, end)`, flushing both endpoints.
    pub fn inclusive_exclusive(start: u32, end: u32) -> (r: RangeF32)
        requires
            !is_nan(start),
            !is_nan(end),
        ensures
            r.start == flush_spec(start),
            r.end == flush_spec(end),
            r.wf(),
    {
        RangeF32 { start: flush_f32_to_zero(start), end: flush_f32_to_zero(end) }
    }

    /// Construct the span holding every value from `min` to `max`
    /// inclusive: `[min, next_f32(max))`.
    pub fn inclusive(min: u32, max: u32) -> (r: RangeF32)
        requires
            !is_nan(min),
            !is_nan(max),
        ensures
            r.start == flush_spec(min),
            max != 0x7F80_0000u32 ==> r.end == flush_spec(next_spec(max)),
            max == 0x7F80_0000u32 ==> r.end == 0x7F80_0000u32,
            r.wf(),
    {
        if max == 0x7F80_0000 {
            // There is no value above positive infinity; the span stops
            // there.
            RangeF32::inclusive_exclusive(min, 0x7F80_0000)
        } else {
            RangeF32::inclusive_exclusive(min, next_f32(max))
        }
    }

    /// The empty span at zero.
    pub fn empty() -> (r: RangeF32)
        ensures
            r.wf(),
            r.is_empty_spec(),
            r.start == 0u32,
            r.end == 0u32,
    {
        RangeF32 { start: 0, end: 0 }
    }

    /// Whether the span holds no value.
    pub fn is_empty(&self) -> (r: bool)
        requires
            self.wf(),
        ensures
            r == self.is_empty_spec(),
    {
        f32_le(self.end, self.start)
    }

    /// How many representable values the span holds, summing the
    /// negative-side and positive-side walks.
    pub fn count(&self) -> (n: usize)
        requires
            self.wf(),
        ensures
            n as int == self.count_spec(),
    {
        if f32_le(self.end, self.start) {
            return 0;
        }
        let a: i64 = zidx_exec(self.start);
        let b: i64 = zidx_exec(self.end);
        proof {
            lemma_zidx_order(self.start, self.end);
        }
        (b - a) as usize
    }

    /// The span of values lying in both spans.
    pub fn intersect(&self, other: &RangeF32) -> (r: RangeF32)
        requires
            self.wf(),
            other.wf(),
        ensures
            r.wf(),
            r.start == crate::float_bits::f32_max_spec(self.start, other.start),
            r.end == crate::float_bits::f32_max_spec(
                crate::float_bits::f32_min_spec(self.end, other.end),
                r.start,
            ),
            val149(r.start) <= val149(r.end),
    {
        let s = f32_max(self.start, other.start);
        let e = f32_max(f32_min(self.end, other.end), s);
        RangeF32 { start: s, end: e }
    }

    /// Remove a sub-span, returning the pieces on either side (possibly
    /// empty): `[start, min(other.start, end))` and
    /// `[max(other.end, start), end)`.
    pub fn cut_out(&self, other: &RangeF32) -> (r: (RangeF32, RangeF32))
        requires
            self.wf(),
            other.wf(),
        ensures
            r.0.wf(),
            r.1.wf(),
            r.0.start == self.start,
            r.1.end == self.end,
            r.0.end == crate::float_bits::f32_max_spec(
                crate::float_bits::f32_min_spec(other.start, self.end),
                self.start,
            ),
            r.1.start == crate::float_bits::f32_min_spec(
                crate::float_bits::f32_max_spec(other.end, self.start),
                self.end,
            ),
            val149(r.0.start) <= val149(r.0.end),
            val149(r.1.start) <= val149(r.1.end),
    {
        let left_end = f32_max(f32_min(other.start, self.end), self.start);
        let right_start = f32_min(f32_max(other.end, self.start), self.end);
        (
            RangeF32 { start: self.start, end: left_end },
            RangeF32 { start: right_start, end: self.end },
        )
    }
}

impl RangeF32 {
    /// Cut the span into fixed-length segments, the final segment shorter:
    /// segment `i` runs from `start + i * len` to the lesser of
    /// `start + (i+1) * len` and `end`, every step in single precision, and
    /// the sequence stops at the first empty segment.
    #[verifier::rlimit(90)]
    pub fn split(&self, segment_length: u32) -> (v: Vec<RangeF32>)
        requires
            self.wf(),
            is_finite(self.start),
            is_finite(segment_length),
        ensures
            v@ == split_spec(self.start, self.end, segment_length, 0, 0xFFFF_FFFFnat),
            forall|j: int| 0 <= j < v@.len() ==> (#[trigger] v@[j]).wf() && !v@[j].is_empty_spec(),
            forall|j: int| 0 < j < v@.len() ==> v@[j].start == v@[j - 1].end,
            v@.len() > 0 ==> val149(v@[0].start) == val149(self.start),
    {
        let ghost fuel0: nat = 0xFFFF_FFFFnat;
        let mut v: Vec<RangeF32> = Vec::new();
        let mut i: u32 = 0;
        proof {
            assert(v@ + split_spec(self.start, self.end, segment_length, 0, fuel0) =~= split_spec(
                self.start,
                self.end,
                segment_length,
                0,
                fuel0,
            ));
        }
        loop
            invariant
                self.wf(),
                is_finite(self.start),
                is_finite(segment_length),
                fuel0 == 0xFFFF_FFFFnat,
                i <= 0xFFFF_FFFF,
                split_spec(self.start, self.end, segment_length, 0, fuel0) == v@ + split_spec(
                    self.start,
                    self.end,
                    segment_length,
                    i as nat,
                    (fuel0 - i) as nat,
                ),
            ensures
                v@ == split_spec(self.start, self.end, segment_length, 0, fuel0),
            decreases 0x1_0000_0000 - i,
        {
            if i >= 0xFFFF_FFFF {
                proof {
                    lemma_split_stop(self.start, self.end, segment_length, i as nat, 0);
                    assert(v@ + Seq::<RangeF32>::empty() =~= v@);
                }
                break ;
            }
            let iv = f32_of_int(i as i64);
            let iv1 = f32_of_int((i + 1) as i64);
            proof {
                crate::float_arith::lemma_of_int_finite(i as int);
                crate::float_arith::lemma_of_int_finite((i + 1) as int);
            }
            let lo_raw = f32_mul(iv, segment_length);
            let hi_raw = f32_mul(iv1, segment_length);
            if !crate::float_bits::f32_is_finite(lo_raw) || !crate::float_bits::f32_is_finite(
                hi_raw,
            ) {
                proof {
                    lemma_split_stop(
                        self.start,
                        self.end,
                        segment_length,
                        i as nat,
                        (fuel0 - i) as nat,
                    );
                    assert(v@ + Seq::<RangeF32>::empty() =~= v@);
                }
                break ;
            }
            let lo = f32_add(self.start, lo_raw);
            let hi = f32_add(self.start, hi_raw);
            proof {
                crate::float_arith::lemma_add_spec_not_nan(self.start, lo_raw);
                crate::float_arith::lemma_add_spec_not_nan(self.start, hi_raw);
            }
            let hi2 = f32_min(hi, self.end);
            let r = RangeF32::inclusive_exclusive(lo, hi2);
            proof {
                assert(r == split_seg(self.start, self.end, segment_length, i as nat));
            }
            if r.is_empty() {
                proof {
                    lemma_split_stop(
                        self.start,
                        self.end,
                        segment_length,
                        i as nat,
                        (fuel0 - i) as nat,
                    );
                    assert(v@ + Seq::<RangeF32>::empty() =~= v@);
                }
                break ;
            }
            proof {
                lemma_split_unfold(
                    self.start,
                    self.end,
                    segment_length,
                    i as nat,
                    (fuel0 - i) as nat,
                );
                let rest = split_spec(
                    self.start,
                    self.end,
                    segment_length,
                    i as nat + 1,
                    ((fuel0 - i) as nat - 1) as nat,
                );
                assert(v@.push(r) + rest =~= v@ + (seq![r] + rest));
            }
            v.push(r);
            i = i + 1;
        }
        proof {
            lemma_split_chain(self.start, self.end, segment_length, 0, fuel0);
            if v@.len() > 0 {
                // A nonempty result means none of the stopping cases held at
                // the first step, so the first segment is the step-zero one.
                let lo_raw = f32_mul_spec(f32_of_int_spec(0), segment_length);
                let hi_raw = f32_mul_spec(f32_of_int_spec(1), segment_length);
                if !is_finite(lo_raw) || !is_finite(hi_raw) || split_seg(
                    self.start,
                    self.end,
                    segment_length,
                    0,
                ).is_empty_spec() {
                    lemma_split_stop(self.start, self.end, segment_length, 0, fuel0);
                    assert(false);
                }
                lemma_split_unfold(self.start, self.end, segment_length, 0, fuel0);
                assert(v@[0] == split_seg(self.start, self.end, segment_length, 0));
                lemma_split_first(self.start, self.end, segment_length);
            }
        }
        v
    }
}

/// The segments `split` yields, from segment `i` on, with at most `fuel`
/// further segments.
pub open spec fn split_spec(start: u32, end: u32, seg: u32, i: nat, fuel: nat) -> Seq<RangeF32>
    decreases fuel,
{
    if fuel == 0 {
        Seq::<RangeF32>::empty()
    } else {
        let lo_raw = f32_mul_spec(f32_of_int_spec(i as int), seg);
        let hi_raw = f32_mul_spec(f32_of_int_spec((i + 1) as int), seg);
        if !is_finite(lo_raw) || !is_finite(hi_raw) {
            Seq::<RangeF32>::empty()
        } else {
            let lo = f32_add_spec(start, lo_raw);
            let hi = f32_add_spec(start, hi_raw);
            let r = RangeF32 {
                start: flush_spec(lo),
                end: flush_spec(crate::float_bits::f32_min_spec(hi, end)),
            };
            if r.is_empty_spec() {
                Seq::<RangeF32>::empty()
            } else {
                seq![r] + split_spec(start, end, seg, i + 1, (fuel - 1) as nat)
            }
        }
    }
}

/// The segment the recursion pushes at step `i`.
pub open spec fn split_seg(start: u32, end: u32, seg: u32, i: nat) -> RangeF32 {
    RangeF32 {
        start: flush_spec(f32_add_spec(start, f32_mul_spec(f32_of_int_spec(i as int), seg))),
        end: flush_spec(
            crate::float_bits::f32_min_spec(
                f32_add_spec(start, f32_mul_spec(f32_of_int_spec(i as int + 1), seg)),
                end,
            ),
        ),
    }
}

/// One unfolding of the recursion, in the continuing case.
proof fn lemma_split_unfold(start: u32, end: u32, seg: u32, i: nat, fuel: nat)
    requires
        fuel > 0,
        is_finite(f32_mul_spec(f32_of_int_spec(i as int), seg)),
        is_finite(f32_mul_spec(f32_of_int_spec(i as int + 1), seg)),
        !split_seg(start, end, seg, i).is_empty_spec(),
    ensures
        split_spec(start, end, seg, i, fuel) == seq![split_seg(start, end, seg, i)] + split_spec(
            start,
            end,
            seg,
            i + 1,
            (fuel - 1) as nat,
        ),
{
}

/// One unfolding of the recursion, in the stopping cases.
proof fn lemma_split_stop(start: u32, end: u32, seg: u32, i: nat, fuel: nat)
    requires
        fuel == 0 || !is_finite(f32_mul_spec(f32_of_int_spec(i as int), seg)) || !is_finite(
            f32_mul_spec(f32_of_int_spec(i as int + 1), seg),
        ) || split_seg(start, end, seg, i).is_empty_spec(),
    ensures
        split_spec(start, end, seg, i, fuel) == Seq::<RangeF32>::empty(),
{
}

/// Law: the first segment starts at the range's own start (as a value; a
/// negative zero start reappears as positive zero, the same value).
pub proof fn lemma_split_first(start: u32, end: u32, seg: u32)
    requires
        is_flushed(start),
        is_finite(start),
        !is_nan(end),
    ensures
        val149(split_seg(start, end, seg, 0).start) == val149(start),
{
    crate::float_bits::lemma_val_decompose(start);
    let zero_i = f32_of_int_spec(0);
    assert(mag_of(zero_i) == 0 && val149(zero_i) == 0) by {
        crate::float_arith::lemma_pack_props(0, 0, 0);
    }
    let zp = f32_mul_spec(zero_i, seg);
    assert(val149(zero_i) * val149(seg) == 0) by {
        vstd::arithmetic::mul::lemma_mul_by_zero_is_zero(val149(seg));
    }
    assert(mag_of(zp) == 0 && val149(zp) == 0) by {
        crate::float_bits::lemma_val_decompose(zp);
    }
    let lo = f32_add_spec(start, zp);
    let s = val149(start) + val149(zp);
    if s == 0 {
        crate::float_bits::lemma_flush_val(lo);
        crate::float_bits::lemma_val_decompose(flush_spec(lo));
    } else {
        crate::float_arith::lemma_pack_identity(start);
        assert(lo == start) by {
            crate::float_bits::lemma_val_decompose(start);
            if sign_of(start) == 0 {
                assert(s == crate::float_bits::mant_of(start) * vstd::arithmetic::power2::pow2(
                    crate::float_bits::kexp_of(start),
                ));
            } else {
                assert(-s == crate::float_bits::mant_of(start) * vstd::arithmetic::power2::pow2(
                    crate::float_bits::kexp_of(start),
                ));
            }
        }
        crate::float_bits::lemma_flush_val(lo);
    }
}

/// When the clamped upper bound of one segment still lies below the next
/// nonempty segment, the clamp picked the unclamped bound: the pieces chain.
proof fn lemma_min_pick(lo: u32, hi: u32, end: u32)
    requires
        !is_nan(lo),
        !is_nan(hi),
        !is_nan(end),
        is_flushed(end),
        val149(flush_spec(lo)) < val149(flush_spec(crate::float_bits::f32_min_spec(hi, end))),
    ensures
        crate::float_bits::f32_min_spec(lo, end) == lo,
{
    if val149(end) < val149(lo) {
        let m = crate::float_bits::f32_min_spec(hi, end);
        crate::float_bits::lemma_flush_val(lo);
        crate::float_bits::lemma_flush_val(m);
        crate::float_bits::lemma_flushed_val_gap(end);
        assert(val149(m) <= val149(end));
        assert(false);
    }
}

/// Law: the segments of `split` chain exactly, each nonempty and
/// well-formed: their union is the interval from the first segment's start
/// to the last segment's end, with nothing dropped or repeated between.
pub proof fn lemma_split_chain(start: u32, end: u32, seg: u32, i: nat, fuel: nat)
    requires
        is_flushed(start),
        !is_nan(start),
        is_finite(start),
        is_flushed(end),
        !is_nan(end),
        is_finite(seg),
    ensures
        forall|j: int|
            0 <= j < split_spec(start, end, seg, i, fuel).len() ==> (#[trigger] split_spec(
                start,
                end,
                seg,
                i,
                fuel,
            )[j]).wf() && !split_spec(start, end, seg, i, fuel)[j].is_empty_spec(),
        forall|j: int|
            0 < j < split_spec(start, end, seg, i, fuel).len() ==> split_spec(
                start,
                end,
                seg,
                i,
                fuel,
            )[j].start == split_spec(start, end, seg, i, fuel)[j - 1].end,
    decreases fuel,
{
    if fuel > 0 {
        let lo_raw = f32_mul_spec(f32_of_int_spec(i as int), seg);
        let hi_raw = f32_mul_spec(f32_of_int_spec((i + 1) as int), seg);
        if is_finite(lo_raw) && is_finite(hi_raw) {
            let lo = f32_add_spec(start, lo_raw);
            let hi = f32_add_spec(start, hi_raw);
            let r = RangeF32 {
                start: flush_spec(lo),
                end: flush_spec(crate::float_bits::f32_min_spec(hi, end)),
            };
            if !r.is_empty_spec() {
                crate::float_arith::lemma_add_spec_not_nan(start, lo_raw);
                crate::float_arith::lemma_add_spec_not_nan(start, hi_raw);
                lemma_split_chain(start, end, seg, i + 1, (fuel - 1) as nat);
                let whole = split_spec(start, end, seg, i, fuel);
                let rest = split_spec(start, end, seg, i + 1, (fuel - 1) as nat);
                assert(whole == seq![r] + rest);
                assert(whole[0] == r);
                assert(r.wf());
                assert(forall|j: int| 0 < j < whole.len() ==> whole[j] == rest[j - 1]);
                if rest.len() > 0 {
                    // The next segment is nonempty, so this segment's clamp
                    // kept the shared bound: the two chain.
                    let lo2_raw = f32_mul_spec(f32_of_int_spec((i + 1) as int), seg);
                    let hi2_raw = f32_mul_spec(f32_of_int_spec((i + 2) as int), seg);
                    assert(is_finite(lo2_raw) && is_finite(hi2_raw));
                    let lo2 = f32_add_spec(start, lo2_raw);
                    let hi2 = f32_add_spec(start, hi2_raw);
                    let r2 = RangeF32 {
                        start: flush_spec(lo2),
                        end: flush_spec(crate::float_bits::f32_min_spec(hi2, end)),
                    };
                    assert(rest[0] == r2);
                    assert(!r2.is_empty_spec());
                    crate::float_arith::lemma_add_spec_not_nan(start, lo2_raw);
                    crate::float_arith::lemma_add_spec_not_nan(start, hi2_raw);
                    lemma_min_pick(lo2, hi2, end);
                    assert(r.end == r2.start);
                }
            }
        }
    }
}

/// Law: cutting a sub-span that lies within the span leaves exactly the
/// pieces up to the sub-span's start and from its end: recombining the left
/// piece, the sub-span and the right piece restores the span.
pub proof fn lemma_cut_out_recombines(r: RangeF32, sub: RangeF32)
    requires
        r.wf(),
        sub.wf(),
        val149(r.start) <= val149(sub.start),
        val149(sub.start) <= val149(sub.end),
        val149(sub.end) <= val149(r.end),
    ensures
        crate::float_bits::f32_min_spec(sub.start, r.end) == sub.start,
        crate::float_bits::f32_max_spec(sub.end, r.start) == sub.end,
{
}

/// How many representable values lie in `[start, end)` after flushing both
/// endpoints, zero counted once: the free-standing form of
/// `RangeF32::count`.
pub fn f32s_between(start: u32, end: u32) -> (n: u32)
    requires
        !is_nan(start),
        !is_nan(end),
    ensures
        n as int == (RangeF32 { start: flush_spec(start), end: flush_spec(end) }).count_spec(),
{
    let r = RangeF32::inclusive_exclusive(start, end);
    let c = r.count();
    proof {
        // The value index spans at most the whole pattern space.
        assert(r.count_spec() < 0x1_0000_0000);
    }
    c as u32
}

/// The value index, as a machine integer.
fn zidx_exec(b: u32) -> (k: i64)
    ensures
        k as int == zidx(b),
{
    let mag: u32 = b % 0x8000_0000;
    if b / 0x8000_0000 == 0 {
        if mag == 0 {
            0
        } else {
            (mag as i64) - 0x7F_FFFF
        }
    } else {
        if mag == 0 {
            0
        } else {
            0x7F_FFFF - (mag as i64)
        }
    }
}

} // verus!
