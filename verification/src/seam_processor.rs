//! The orchestration core: per-seam progress records, the work requests a
//! background worker consumes, and the per-tick decision logic.
//!
//! The active-seam set is rebuilt from scratch every tick; a seam's progress
//! survives across ticks under its structural identity and is never evicted.
//! Threading itself (the queue's mutual exclusion, the results channel, the
//! worker loop) lives with the caller: everything here is a pure decision
//! over plain state, so the caller's loop only moves values.

use crate::float_bits::f32_min_spec;
use crate::float_bits::flush_spec;
use crate::float_bits::is_finite;
use crate::float_bits::val149;
use crate::float_bits::f32_lt;
use crate::float_bits::f32_min;
use crate::float_arith::f32_add;
use crate::float_arith::f32_add_spec;
use crate::float_range::RangeF32;
use crate::seam::PointStatus;
use crate::seam::RangeStatus;
use crate::seam::Seam;
use vstd::prelude::*;

verus! {

/// Bit pattern of the default background segment length, 5.0 world units.
pub const DEFAULT_SEGMENT_LENGTH_BITS: u32 = 0x40A0_0000;

/// Bit pattern of 1.0, the upper edge of the skipped zero-crossing zone.
pub const ONE_BITS: u32 = 0x3F80_0000;

/// Bit pattern of -1.0, the lower edge of the skipped zero-crossing zone.
pub const NEG_ONE_BITS: u32 = 0xBF80_0000;

/// Where the next background segment ends: one segment length up (in
/// single precision), clamped to the range's end, clamped to -1.0 when the
/// segment would cross into the zero zone from below; a frontier that fails
/// to advance (or overflows) falls back to the range's end.
pub open spec fn split_point(start: u32, segment_length: u32, end: u32) -> u32 {
    let a = flush_spec(f32_min_spec(f32_add_spec(start, segment_length), end));
    let b = if val149(start) < val149(NEG_ONE_BITS) && val149(NEG_ONE_BITS) < val149(a) {
        NEG_ONE_BITS
    } else {
        a
    };
    let c = if !(val149(start) < val149(b)) {
        end
    } else {
        b
    };
    if !is_finite(c) {
        end
    } else {
        c
    }
}

/// A unit of queued work: one seam, the sub-range to classify, the segment
/// length to cut it into, and whether it is the caller's focused request.
#[derive(Clone, Copy, Debug, PartialEq, Eq, Structural)]
pub struct SeamRequest {
    pub seam: Seam,
    pub w_range: RangeF32,
    pub segment_length: u32,
    pub is_focused: bool,
}

impl SeamRequest {
    /// A background request: the seam's whole domain at the default segment
    /// length.
    pub fn unfocused(seam: Seam) -> (r: SeamRequest)
        ensures
            r.seam == seam,
            r.w_range == Seam::w_range_spec(seam),
            r.segment_length == DEFAULT_SEGMENT_LENGTH_BITS,
            !r.is_focused,
            r.w_range.wf(),
    {
        let w_range = seam.w_range();
        SeamRequest { seam, w_range, segment_length: DEFAULT_SEGMENT_LENGTH_BITS, is_focused: false }
    }

    /// A focused request: a caller-visible sub-range at a finer segment
    /// length.
    pub fn focused(seam: Seam, w_range: RangeF32, segment_length: u32) -> (r: SeamRequest)
        ensures
            r == (SeamRequest { seam, w_range, segment_length, is_focused: true }),
    {
        SeamRequest { seam, w_range, segment_length, is_focused: true }
    }
}

/// An ordered, coalesced list of classified sub-ranges plus the one
/// remaining (unchecked) tail.  Completed segments chain: each begins where
/// the one before it ended, and the walk never passes the remaining range's
/// start, so the union of the completed segments and the remaining range is
/// one contiguous span of the seam's domain.
#[derive(Debug)]
pub struct SeamProgress {
    pub segment_length: u32,
    pub complete: Vec<(RangeF32, RangeStatus)>,
    pub remaining: RangeF32,
}

impl SeamProgress {
    /// Where the completed chain currently ends.
    pub open spec fn chain_end(self) -> u32 {
        if self.complete.len() > 0 {
            self.complete[self.complete.len() - 1].0.end
        } else {
            self.remaining.start
        }
    }

    /// Two progress records hold the same data.
    pub open spec fn same_as(self, other: SeamProgress) -> bool {
        &&& self.segment_length == other.segment_length
        &&& self.complete@ == other.complete@
        &&& self.remaining == other.remaining
    }

    /// Structural invariant: segments are well-formed, nonempty, never
    /// `Unchecked`, and chain contiguously up to the remaining range.
    pub open spec fn wf(self) -> bool {
        &&& self.remaining.wf()
        &&& is_finite(self.remaining.start) || self.remaining.is_empty_spec()
        &&& is_finite(self.segment_length)
        &&& forall|i: int|
            0 <= i < self.complete.len() ==> (#[trigger] self.complete[i]).0.wf()
                && !self.complete[i].0.is_empty_spec() && self.complete[i].1
                != RangeStatus::Unchecked
        &&& forall|i: int|
            0 < i < self.complete.len() ==> (#[trigger] self.complete[i]).0.start
                == self.complete[i - 1].0.end
        &&& self.complete.len() > 0 ==> val149(
            self.complete[self.complete.len() - 1].0.end,
        ) <= val149(self.remaining.start)
    }

    /// Fresh progress: nothing completed, the whole range remaining.
    pub fn new(range: RangeF32, segment_length: u32) -> (r: SeamProgress)
        requires
            range.wf(),
            is_finite(range.start) || range.is_empty_spec(),
            is_finite(segment_length),
        ensures
            r.wf(),
            r.remaining == range,
            r.segment_length == segment_length,
            r.complete@ =~= Seq::<(RangeF32, RangeStatus)>::empty(),
    {
        SeamProgress { segment_length, complete: Vec::new(), remaining: range }
    }

    /// An identical copy.
    pub fn duplicate(&self) -> (r: SeamProgress)
        ensures
            r.segment_length == self.segment_length,
            r.complete@ == self.complete@,
            r.remaining == self.remaining,
    {
        let mut complete: Vec<(RangeF32, RangeStatus)> = Vec::new();
        let mut i: usize = 0;
        while i < self.complete.len()
            invariant
                i <= self.complete.len(),
                complete@ =~= self.complete@.take(i as int),
            decreases self.complete.len() - i,
        {
            complete.push(self.complete[i]);
            proof {
                assert(complete@ =~= self.complete@.take(i + 1));
            }
            i = i + 1;
        }
        proof {
            assert(complete@ =~= self.complete@);
        }
        SeamProgress {
            segment_length: self.segment_length,
            complete,
            remaining: self.remaining,
        }
    }

    /// The ordered segments: every completed one, then the remaining range
    /// as `Unchecked`.
    pub fn segments(&self) -> (r: Vec<(RangeF32, RangeStatus)>)
        ensures
            r@ =~= self.complete@ + seq![(self.remaining, RangeStatus::Unchecked)],
    {
        let mut r = self.duplicate().complete;
        r.push((self.remaining, RangeStatus::Unchecked));
        r
    }

    /// Whether nothing remains to classify.
    pub fn is_complete(&self) -> (r: bool)
        requires
            self.remaining.wf(),
        ensures
            r == self.remaining.is_empty_spec(),
    {
        self.remaining.is_empty()
    }

    /// Carve the next work segment off the remaining range and advance past
    /// it.  Every returned segment begins exactly where the remaining range
    /// began, so consecutive segments chain.  A segment whose start lies in
    /// `[-1, 1)` is flagged: the zero crossing is numerically fragile and is
    /// completed as `Skipped` instead of being classified; a background
    /// segment approaching from below is clamped to end at -1 so the flagged
    /// segment covers the zone alone.
    pub fn take_next_segment(&mut self) -> (r: Option<(RangeF32, bool)>)
        requires
            old(self).wf(),
        ensures
            final(self).wf(),
            final(self).segment_length == old(self).segment_length,
            final(self).complete@ == old(self).complete@,
            final(self).remaining.end == old(self).remaining.end,
            val149(old(self).remaining.start) <= val149(final(self).remaining.start),
            r is None ==> final(self).remaining.is_empty_spec() && final(self).remaining
                == old(self).remaining,
            r matches Option::Some(seg) ==> seg.0.wf() && !seg.0.is_empty_spec() && seg.0.start
                == old(self).remaining.start && seg.0.end == final(self).remaining.start && seg.1
                == (val149(NEG_ONE_BITS) <= val149(old(self).remaining.start) && val149(
                old(self).remaining.start,
            ) < val149(ONE_BITS)),
            r matches Option::Some(seg) ==> (seg.1 ==> seg.0.end == f32_min_spec(
                ONE_BITS,
                old(self).remaining.end,
            )) && (!seg.1 ==> seg.0.end == split_point(
                old(self).remaining.start,
                old(self).segment_length,
                old(self).remaining.end,
            )),
            r matches Option::Some(seg) ==> val149(seg.0.end) <= val149(
                old(self).remaining.end,
            ),
    {
        if self.remaining.is_empty() {
            return Option::None;
        }
        if !f32_lt(self.remaining.start, NEG_ONE_BITS) && f32_lt(self.remaining.start, ONE_BITS) {
            // The zero-crossing zone, as its own never-coalesced segment.
            let split = f32_min(ONE_BITS, self.remaining.end);
            let seg = RangeF32 { start: self.remaining.start, end: split };
            self.remaining = RangeF32 { start: split, end: self.remaining.end };
            return Option::Some((seg, true));
        }
        let addr = f32_add(self.remaining.start, self.segment_length);
        proof {
            crate::float_arith::lemma_add_spec_not_nan(self.remaining.start, self.segment_length);
        }
        let mut split = crate::float_bits::flush_f32_to_zero(f32_min(addr, self.remaining.end));
        if f32_lt(self.remaining.start, NEG_ONE_BITS) && f32_lt(NEG_ONE_BITS, split) {
            split = NEG_ONE_BITS;
        }
        if !f32_lt(self.remaining.start, split) {
            // The segment length is too small to move the frontier: yield
            // the rest as one final segment rather than stall.
            split = self.remaining.end;
        }
        if !crate::float_bits::f32_is_finite(split) {
            // The clamped sum overflowed: nothing representable lies beyond
            // it, so the rest is one final segment.
            split = self.remaining.end;
        }
        proof {
            // The split never passes the range's end: the clamp is a value
            // minimum, and flushing a denormal to zero stays below any
            // flushed end above it.
            let m = crate::float_bits::f32_min_spec(
                f32_add_spec(self.remaining.start, self.segment_length),
                self.remaining.end,
            );
            crate::float_bits::lemma_flush_val(m);
            crate::float_bits::lemma_flushed_val_gap(self.remaining.end);
            assert(val149(split) <= val149(self.remaining.end));
        }
        let result = RangeF32 { start: self.remaining.start, end: split };
        self.remaining = RangeF32 { start: split, end: self.remaining.end };
        Option::Some((result, false))
    }

    /// Law and planner in one: carve the whole remaining range into
    /// consecutive segments.  The segments chain exactly — each begins where
    /// the one before it ended — the first begins at the remaining range's
    /// start, the last ends at its end (as a value), and nothing remains:
    /// the union of the taken segments reconstructs the drained range
    /// exactly.
    pub fn take_all_segments(&mut self) -> (v: Vec<(RangeF32, bool)>)
        requires
            old(self).wf(),
        ensures
            final(self).wf(),
            final(self).segment_length == old(self).segment_length,
            final(self).complete@ == old(self).complete@,
            final(self).remaining.end == old(self).remaining.end,
            final(self).remaining.is_empty_spec(),
            forall|j: int|
                0 <= j < v@.len() ==> (#[trigger] v@[j]).0.wf() && !v@[j].0.is_empty_spec(),
            forall|j: int| 0 < j < v@.len() ==> (#[trigger] v@[j]).0.start == v@[j - 1].0.end,
            v@.len() > 0 ==> v@[0].0.start == old(self).remaining.start,
            v@.len() > 0 ==> v@[v@.len() - 1].0.end == final(self).remaining.start && val149(
                v@[v@.len() - 1].0.end,
            ) == val149(old(self).remaining.end),
            v@.len() == 0 ==> old(self).remaining.is_empty_spec() && final(self).remaining
                == old(self).remaining,
    {
        let mut v: Vec<(RangeF32, bool)> = Vec::new();
        loop
            invariant
                self.wf(),
                self.segment_length == old(self).segment_length,
                self.complete@ == old(self).complete@,
                self.remaining.end == old(self).remaining.end,
                forall|j: int|
                    0 <= j < v@.len() ==> (#[trigger] v@[j]).0.wf() && !v@[j].0.is_empty_spec(),
                forall|j: int| 0 < j < v@.len() ==> (#[trigger] v@[j]).0.start == v@[j - 1].0.end,
                v@.len() > 0 ==> v@[0].0.start == old(self).remaining.start,
                v@.len() > 0 ==> v@[v@.len() - 1].0.end == self.remaining.start,
                v@.len() > 0 ==> val149(v@[v@.len() - 1].0.end) <= val149(
                    old(self).remaining.end,
                ),
                v@.len() == 0 ==> self.remaining == old(self).remaining,
            ensures
                self.wf(),
                self.segment_length == old(self).segment_length,
                self.complete@ == old(self).complete@,
                self.remaining.end == old(self).remaining.end,
                self.remaining.is_empty_spec(),
                forall|j: int|
                    0 <= j < v@.len() ==> (#[trigger] v@[j]).0.wf() && !v@[j].0.is_empty_spec(),
                forall|j: int| 0 < j < v@.len() ==> (#[trigger] v@[j]).0.start == v@[j - 1].0.end,
                v@.len() > 0 ==> v@[0].0.start == old(self).remaining.start,
                v@.len() > 0 ==> v@[v@.len() - 1].0.end == self.remaining.start,
                v@.len() > 0 ==> val149(v@[v@.len() - 1].0.end) <= val149(
                    old(self).remaining.end,
                ),
                v@.len() == 0 ==> self.remaining == old(self).remaining,
            decreases crate::float_bits::zidx(self.remaining.end) - crate::float_bits::zidx(
                self.remaining.start,
            ),
        {
            let ghost rem_before = self.remaining;
            match self.take_next_segment() {
                Option::None => {
                    break ;
                },
                Option::Some(seg) => {
                    let ghost vold = v@;
                    v.push(seg);
                    proof {
                        assert(v@[v@.len() - 1] == seg);
                        assert(forall|j: int| 0 <= j < vold.len() ==> v@[j] == vold[j]);
                        // The walk advanced strictly: the measure shrinks.
                        crate::float_bits::lemma_zidx_order(rem_before.start, seg.0.end);
                        crate::float_bits::lemma_zidx_order(seg.0.end, rem_before.end);
                    }
                },
            }
        }
        proof {
            if v@.len() > 0 {
                // Empty remainder below its own end pins the last segment's
                // end to the range's end, as a value.
                assert(val149(self.remaining.start) >= val149(self.remaining.end));
                assert(val149(v@[v@.len() - 1].0.end) <= val149(old(self).remaining.end));
            }
        }
        v
    }

    /// Record a classified segment: the remaining range gives up its front
    /// up to the segment's end, and the segment joins the completed chain,
    /// merging into the previous segment when the status repeats.  The union
    /// of the completed segments and the remaining range is unchanged.  An
    /// empty segment records nothing; completing a segment as `Unchecked` is
    /// a bookkeeping bug and is excluded outright.
    pub fn complete_segment(&mut self, range: RangeF32, status: RangeStatus)
        requires
            old(self).wf(),
            range.wf(),
            status != RangeStatus::Unchecked,
            !range.is_empty_spec() ==> range.start == old(self).remaining.start,
            !range.is_empty_spec() ==> is_finite(range.end) || val149(range.end) >= val149(
                old(self).remaining.end,
            ),
            !range.is_empty_spec() && old(self).complete.len() > 0 ==> range.start
                == old(self).complete[old(self).complete.len() - 1].0.end,
        ensures
            final(self).wf(),
            final(self).segment_length == old(self).segment_length,
            final(self).remaining.end == old(self).remaining.end,
            range.is_empty_spec() ==> *final(self) == *old(self),
            !range.is_empty_spec() ==> final(self).remaining.start == range.end
                && final(self).chain_end() == range.end,
            !range.is_empty_spec() ==> final(self).complete@ == (
            if old(self).complete.len() > 0 && old(self).complete@[old(self).complete.len()
                - 1].0.end == range.start && old(self).complete@[old(self).complete.len() - 1].1
                == status {
                old(self).complete@.take(old(self).complete.len() - 1).push(
                    (
                        RangeF32 {
                            start: old(self).complete@[old(self).complete.len() - 1].0.start,
                            end: range.end,
                        },
                        status,
                    ),
                )
            } else {
                old(self).complete@.push((range, status))
            }),
    {
        if !range.is_empty() {
            self.remaining = RangeF32 { start: range.end, end: self.remaining.end };
            let n = self.complete.len();
            if n > 0 {
                let last = self.complete[n - 1];
                if last.0.end == range.start && range_status_eq(last.1, status) {
                    let ghost before = self.complete@;
                    let merged = (RangeF32 { start: last.0.start, end: range.end }, status);
                    let _ = self.complete.remove(n - 1);
                    self.complete.push(merged);
                    proof {
                        assert(self.complete@[n - 1] == merged);
                        assert(forall|t: int|
                            0 <= t < n - 1 ==> self.complete@[t] == before[t]);
                        assert(!merged.0.is_empty_spec()) by {
                            assert(val149(last.0.start) < val149(last.0.end));
                            assert(val149(range.start) < val149(range.end));
                        }
                        assert(self.complete@ =~= before.take(n - 1).push(merged));
                    }
                    return ;
                }
            }
            self.complete.push((range, status));
        }
    }
}

/// The tick-driven decision state: the active seams of the current tick,
/// the persistent per-seam progress records, and the focused request's
/// separate slot.  The caller's loop owns the actual work queue and results
/// channel; every decision about them is a function here.
pub struct SeamProcessor {
    pub active_seams: Vec<Seam>,
    pub progress: Vec<(Seam, SeamProgress)>,
    pub focused: Option<(SeamRequest, SeamProgress)>,
}

impl SeamProcessor {
    /// A progress record is on file for the seam.
    pub open spec fn progress_has(self, s: Seam) -> bool {
        exists|i: int| 0 <= i < self.progress.len() && (#[trigger] self.progress[i]).0 == s
    }

    /// Every record on file satisfies the progress invariant, under one key
    /// each.
    pub open spec fn wf(self) -> bool {
        &&& forall|i: int| 0 <= i < self.progress.len() ==> (#[trigger] self.progress[i]).1.wf()
        &&& forall|i: int, j: int|
            0 <= i < j < self.progress.len() ==> (#[trigger] self.progress[i]).0 != (
            #[trigger] self.progress[j]).0
    }

    /// An idle processor: no seams, no records, no focus.
    pub fn new() -> (r: SeamProcessor)
        ensures
            r.wf(),
            r.active_seams@ =~= Seq::<Seam>::empty(),
            r.progress@.len() == 0,
            r.focused is None,
    {
        SeamProcessor { active_seams: Vec::new(), progress: Vec::new(), focused: Option::None }
    }

    /// Adopt this tick's freshly rediscovered seams; progress records and
    /// the focused slot persist untouched.
    pub fn set_active_seams(&mut self, seams: Vec<Seam>)
        requires
            old(self).wf(),
        ensures
            final(self).wf(),
            final(self).active_seams == seams,
            final(self).progress == old(self).progress,
            final(self).focused == old(self).focused,
    {
        self.active_seams = seams;
    }

    /// The seams discovered this tick.
    pub fn active_seams(&self) -> (r: &Vec<Seam>)
        ensures
            r == &self.active_seams,
    {
        &self.active_seams
    }

    /// Whether a queued request still refers to an active seam; the
    /// caller's queue drops the others every tick.
    pub fn request_is_active(&self, request: &SeamRequest) -> (r: bool)
        ensures
            r == exists|i: int|
                0 <= i < self.active_seams.len() && (#[trigger] self.active_seams[i])
                    == request.seam,
    {
        let mut i: usize = 0;
        while i < self.active_seams.len()
            invariant
                i <= self.active_seams.len(),
                forall|j: int| 0 <= j < i ==> (#[trigger] self.active_seams[j]) != request.seam,
            decreases self.active_seams.len() - i,
        {
            if seam_eq(&self.active_seams[i], &request.seam) {
                return true;
            }
            i = i + 1;
        }
        false
    }

    /// Index of the seam's record, if one is on file.
    fn progress_lookup(&self, seam: &Seam) -> (r: Option<usize>)
        ensures
            r matches Option::Some(i) ==> i < self.progress.len() && self.progress[i as int].0
                == *seam,
            r is None ==> !self.progress_has(*seam),
    {
        let mut i: usize = 0;
        while i < self.progress.len()
            invariant
                i <= self.progress.len(),
                forall|j: int| 0 <= j < i ==> (#[trigger] self.progress[j]).0 != *seam,
            decreases self.progress.len() - i,
        {
            if seam_eq(&self.progress[i].0, seam) {
                return Option::Some(i);
            }
            i = i + 1;
        }
        Option::None
    }

    /// The seam's progress: the record on file, or fresh progress over the
    /// seam's whole domain at the default segment length.
    pub fn seam_progress(&self, seam: &Seam) -> (r: SeamProgress)
        requires
            self.wf(),
        ensures
            forall|i: int|
                0 <= i < self.progress.len() && (#[trigger] self.progress[i]).0 == *seam
                    ==> r.segment_length == self.progress[i].1.segment_length && r.complete@
                    == self.progress[i].1.complete@ && r.remaining == self.progress[i].1.remaining,
            !self.progress_has(*seam) ==> r.remaining == Seam::w_range_spec(*seam)
                && r.segment_length == DEFAULT_SEGMENT_LENGTH_BITS && r.complete@.len() == 0,
            r.wf(),
    {
        match self.progress_lookup(seam) {
            Option::Some(i) => {
                proof {
                    assert(forall|j: int|
                        0 <= j < self.progress.len() && (#[trigger] self.progress[j]).0 == *seam
                            ==> j == i as int);
                    assert(self.progress[i as int].1.wf());
                }
                self.progress[i].1.duplicate()
            },
            Option::None => {
                let w_range = seam.w_range();
                SeamProgress::new(w_range, DEFAULT_SEGMENT_LENGTH_BITS)
            },
        }
    }

    /// One background request per active seam that has no record on file
    /// yet, in discovery order: the tick's queue refill when the queue has
    /// drained.
    pub fn refill_requests(&self) -> (v: Vec<SeamRequest>)
        requires
            self.wf(),
        ensures
            forall|k: int|
                0 <= k < v@.len() ==> !(#[trigger] v@[k]).is_focused && v@[k].segment_length
                    == DEFAULT_SEGMENT_LENGTH_BITS && v@[k].w_range == Seam::w_range_spec(
                    v@[k].seam,
                ) && !self.progress_has(v@[k].seam),
            forall|k: int|
                0 <= k < v@.len() ==> exists|i: int|
                    0 <= i < self.active_seams.len() && self.active_seams[i] == (#[trigger] v@[
                        k
                    ]).seam,
            forall|i: int|
                0 <= i < self.active_seams.len() && !self.progress_has(
                    #[trigger] self.active_seams[i],
                ) ==> exists|k: int| 0 <= k < v@.len() && v@[k].seam == self.active_seams[i],
    {
        let mut v: Vec<SeamRequest> = Vec::new();
        let mut i: usize = 0;
        while i < self.active_seams.len()
            invariant
                self.wf(),
                i <= self.active_seams.len(),
                forall|k: int|
                    0 <= k < v@.len() ==> !(#[trigger] v@[k]).is_focused && v@[k].segment_length
                        == DEFAULT_SEGMENT_LENGTH_BITS && v@[k].w_range == Seam::w_range_spec(
                        v@[k].seam,
                    ) && !self.progress_has(v@[k].seam),
                forall|k: int|
                    0 <= k < v@.len() ==> exists|j: int|
                        0 <= j < self.active_seams.len() && self.active_seams[j] == (#[trigger] v@[
                            k
                        ]).seam,
                forall|j: int|
                    0 <= j < i && !self.progress_has(#[trigger] self.active_seams[j]) ==> exists|
                        k: int,
                    | 0 <= k < v@.len() && v@[k].seam == self.active_seams[j],
            decreases self.active_seams.len() - i,
        {
            let seam = self.active_seams[i];
            match self.progress_lookup(&seam) {
                Option::None => {
                    let req = SeamRequest::unfocused(seam);
                    let ghost vold = v@;
                    v.push(req);
                    proof {
                        assert(v@[v@.len() - 1].seam == seam);
                        assert(forall|k: int| 0 <= k < vold.len() ==> v@[k] == vold[k]);
                        assert forall|j: int|
                            0 <= j < i + 1 && !self.progress_has(
                                #[trigger] self.active_seams[j],
                            ) implies exists|k: int|
                            0 <= k < v@.len() && v@[k].seam == self.active_seams[j] by {
                            if j < i {
                                let k = choose|k: int|
                                    0 <= k < vold.len() && vold[k].seam == self.active_seams[j];
                                assert(v@[k].seam == self.active_seams[j]);
                            } else {
                                assert(v@[v@.len() - 1].seam == self.active_seams[j]);
                            }
                        }
                    }
                },
                Option::Some(idx) => {
                    proof {
                        assert(self.progress[idx as int].0 == seam);
                        assert(self.progress_has(seam));
                    }
                },
            }
            i = i + 1;
        }
        v
    }

    /// Fold a finished unit of work back in: a focused result lands in the
    /// focused slot only while its request is still current (else it is
    /// stale and discarded); a background result replaces the seam's record
    /// (or creates one), touching nothing else.
    pub fn apply_result(&mut self, request: &SeamRequest, progress: SeamProgress)
        requires
            old(self).wf(),
            progress.wf(),
        ensures
            final(self).wf(),
            final(self).active_seams == old(self).active_seams,
            request.is_focused ==> final(self).progress == old(self).progress
                && final(self).focused == (match old(self).focused {
                Option::Some(p) => if p.0 == *request {
                    Option::Some((*request, progress))
                } else {
                    old(self).focused
                },
                Option::None => old(self).focused,
            }),
            !request.is_focused ==> final(self).focused == old(self).focused,
            !request.is_focused && old(self).progress_has(request.seam) ==> exists|i: int|
                0 <= i < old(self).progress.len() && (#[trigger] old(self).progress[i]).0
                    == request.seam && final(self).progress@ == old(self).progress@.update(
                    i,
                    (request.seam, progress),
                ),
            !request.is_focused && !old(self).progress_has(request.seam) ==> final(self).progress@
                == old(self).progress@.push((request.seam, progress)),
            !request.is_focused ==> final(self).progress_has(request.seam),
    {
        if request.is_focused {
            let replace = match &self.focused {
                Option::Some((focused_request, _)) => requests_eq(focused_request, request),
                Option::None => false,
            };
            if replace {
                self.focused = Option::Some((*request, progress));
            }
        } else {
            let ghost before = self.progress@;
            match self.progress_lookup(&request.seam) {
                Option::Some(i) => {
                    self.progress[i] = (request.seam, progress);
                    proof {
                        assert(final(self).progress[i as int].0 == request.seam);
                        assert(final(self).progress@ =~= before.update(
                            i as int,
                            (request.seam, progress),
                        ));
                    }
                },
                Option::None => {
                    self.progress.push((request.seam, progress));
                    proof {
                        assert(final(self).progress[final(self).progress.len() - 1].0
                            == request.seam);
                    }
                },
            }
        }
    }

    /// Begin (or continue) focused inspection of a seam over a visible
    /// sub-range: returns the progress to show now — the stored focused
    /// progress when the focused seam matches, else fresh progress over the
    /// requested range — and, exactly when the request differs from the
    /// stored one, the request the caller must queue after clearing the
    /// backlog (the slot is then retargeted to it).
    pub fn focused_seam_progress(&mut self, seam: &Seam, w_range: RangeF32, segment_length: u32)
        -> (r: (SeamProgress, Option<SeamRequest>))
        requires
            old(self).wf(),
            w_range.wf(),
            is_finite(w_range.start) || w_range.is_empty_spec(),
            is_finite(segment_length),
        ensures
            final(self).wf(),
            final(self).progress == old(self).progress,
            final(self).active_seams == old(self).active_seams,
            ({
                let request = SeamRequest { seam: *seam, w_range, segment_length, is_focused: true };
                &&& (match old(self).focused {
                    Option::Some(p) => {
                        &&& (p.0.seam == *seam ==> r.0.same_as(p.1))
                        &&& (p.0.seam != *seam ==> r.0.segment_length == segment_length
                            && r.0.complete@.len() == 0 && r.0.remaining == w_range)
                        &&& (p.0 == request ==> r.1 is None && final(self).focused == old(
                            self).focused)
                        &&& (p.0 != request ==> r.1 == Option::Some(request) && (final(
                            self).focused matches Option::Some(q) && q.0 == request && q.1.same_as(
                            r.0,
                        )))
                    },
                    Option::None => {
                        &&& r.0.segment_length == segment_length && r.0.complete@.len() == 0
                            && r.0.remaining == w_range
                        &&& r.1 == Option::Some(request)
                        &&& (final(self).focused matches Option::Some(q) && q.0 == request
                            && q.1.same_as(r.0))
                    },
                })
            }),
    {
        let request = SeamRequest::focused(*seam, w_range, segment_length);
        let mut progress = SeamProgress::new(w_range, segment_length);
        let mut same_request = false;
        match &self.focused {
            Option::Some((focused_request, focused_progress)) => {
                if seam_eq(&focused_request.seam, seam) {
                    progress = focused_progress.duplicate();
                }
                if requests_eq(focused_request, &request) {
                    same_request = true;
                }
            },
            Option::None => {},
        }
        if same_request {
            return (progress, Option::None);
        }
        self.focused = Option::Some((request, progress.duplicate()));
        (progress, Option::Some(request))
    }

    /// An active seam still has work outstanding: its record's remaining
    /// range is nonempty, or it has no record and its domain is nonempty.
    pub open spec fn pending_spec(self, s: Seam) -> bool {
        if self.progress_has(s) {
            exists|i: int|
                0 <= i < self.progress.len() && (#[trigger] self.progress[i]).0 == s
                    && !self.progress[i].1.remaining.is_empty_spec()
        } else {
            !Seam::w_range_spec(s).is_empty_spec()
        }
    }

    /// How many of the first `k` active seams still have work outstanding.
    pub open spec fn pending_count(self, k: int) -> int
        decreases k,
    {
        if k <= 0 {
            0
        } else {
            self.pending_count(k - 1) + if self.pending_spec(self.active_seams[k - 1]) {
                1int
            } else {
                0int
            }
        }
    }

    /// How many active seams still have work outstanding.
    pub fn remaining_seams(&self) -> (n: usize)
        requires
            self.wf(),
        ensures
            n == self.pending_count(self.active_seams@.len() as int),
            n <= self.active_seams.len(),
    {
        let mut n: usize = 0;
        let mut i: usize = 0;
        while i < self.active_seams.len()
            invariant
                self.wf(),
                i <= self.active_seams.len(),
                n <= i,
                n == self.pending_count(i as int),
            decreases self.active_seams.len() - i,
        {
            let seam = self.active_seams[i];
            let p = self.seam_progress(&seam);
            proof {
                if self.progress_has(seam) {
                    let j = choose|j: int|
                        0 <= j < self.progress.len() && (#[trigger] self.progress[j]).0 == seam;
                    assert(p.remaining == self.progress[j].1.remaining);
                    if self.pending_spec(seam) {
                        let t = choose|t: int|
                            0 <= t < self.progress.len() && (#[trigger] self.progress[t]).0
                                == seam && !self.progress[t].1.remaining.is_empty_spec();
                        assert(t == j);
                    }
                    if !p.remaining.is_empty_spec() {
                        assert(self.pending_spec(seam)) by {
                            assert(0 <= j < self.progress.len() && self.progress[j].0 == seam
                                && !self.progress[j].1.remaining.is_empty_spec());
                        }
                    }
                }
                assert(self.pending_count(i + 1) == self.pending_count(i as int) + if self
                    .pending_spec(seam) {
                    1int
                } else {
                    0int
                });
            }
            if !p.is_complete() {
                n = n + 1;
            }
            i = i + 1;
        }
        n
    }
}

/// One of the three boundary edges of a wall, in winding order.
fn edge_vertices(w: &crate::spatial_partition::Surface, k: usize) -> (r: ([i16; 3], [i16; 3]))
    requires
        k < 3,
    ensures
        k == 0 ==> r == (w.vertex1, w.vertex2),
        k == 1 ==> r == (w.vertex2, w.vertex3),
        k == 2 ==> r == (w.vertex3, w.vertex1),
{
    if k == 0 {
        (w.vertex1, w.vertex2)
    } else if k == 1 {
        (w.vertex2, w.vertex3)
    } else {
        (w.vertex3, w.vertex1)
    }
}

/// The two vertices of a wall's boundary edge, by its winding position.
pub open spec fn edge_pair_spec(w: crate::spatial_partition::Surface, k: int) -> (
    [i16; 3],
    [i16; 3],
) {
    if k == 0 {
        (w.vertex1, w.vertex2)
    } else if k == 1 {
        (w.vertex2, w.vertex3)
    } else {
        (w.vertex3, w.vertex1)
    }
}

/// The seams of the nine edge pairings from pairing `t` on (pairing `t`
/// matches boundary edge `t / 3` of the first wall against boundary edge
/// `t % 3` of the second): exactly the successful constructions, in order.
pub open spec fn seams_between_rec(
    w1: crate::spatial_partition::Surface,
    w2: crate::spatial_partition::Surface,
    t: nat,
) -> Seq<Seam>
    decreases 9 - t,
{
    if t >= 9 {
        Seq::<Seam>::empty()
    } else {
        let s = Seam::between_spec(
            edge_pair_spec(w1, t as int / 3),
            w1.normal,
            edge_pair_spec(w2, t as int % 3),
            w2.normal,
        );
        (match s {
            Option::Some(x) => seq![x],
            Option::None => Seq::<Seam>::empty(),
        }) + seams_between_rec(w1, w2, t + 1)
    }
}

/// Every seam between two walls: exactly the successful constructions over
/// the nine pairings of one boundary edge from each wall, in pairing order.
pub fn seams_between(
    w1: &crate::spatial_partition::Surface,
    w2: &crate::spatial_partition::Surface,
) -> (v: Vec<Seam>)
    requires
        crate::edge::normal_wf(w1.normal),
        crate::edge::normal_wf(w2.normal),
    ensures
        v@ == seams_between_rec(*w1, *w2, 0),
        forall|k: int| 0 <= k < v@.len() ==> (#[trigger] v@[k]).wf(),
{
    let mut v: Vec<Seam> = Vec::new();
    let mut t: usize = 0;
    proof {
        assert(v@ + seams_between_rec(*w1, *w2, 0) =~= seams_between_rec(*w1, *w2, 0));
    }
    while t < 9
        invariant
            t <= 9,
            crate::edge::normal_wf(w1.normal),
            crate::edge::normal_wf(w2.normal),
            forall|k: int| 0 <= k < v@.len() ==> (#[trigger] v@[k]).wf(),
            seams_between_rec(*w1, *w2, 0) == v@ + seams_between_rec(*w1, *w2, t as nat),
        decreases 9 - t,
    {
        let ea = edge_vertices(w1, t / 3);
        let eb = edge_vertices(w2, t % 3);
        proof {
            assert(ea == edge_pair_spec(*w1, t as int / 3));
            assert(eb == edge_pair_spec(*w2, t as int % 3));
        }
        let ghost vold = v@;
        match Seam::between(ea, w1.normal, eb, w2.normal) {
            Option::Some(seam) => {
                v.push(seam);
                proof {
                    assert(v@ + seams_between_rec(*w1, *w2, (t + 1) as nat) =~= vold + (seq![seam]
                        + seams_between_rec(*w1, *w2, (t + 1) as nat)));
                }
            },
            Option::None => {
                proof {
                    assert(Seq::<Seam>::empty() + seams_between_rec(*w1, *w2, (t + 1) as nat)
                        =~= seams_between_rec(*w1, *w2, (t + 1) as nat));
                }
            },
        }
        t = t + 1;
    }
    v
}

/// The focused seam's finer output, as the caller selected it: an explicit
/// per-point list or a segment list.
pub enum SeamOutput {
    Points(PointsOutput),
    Segments(SeamProgress),
}

/// An explicit per-point classification list.
pub struct PointsOutput {
    pub points: Vec<(crate::edge::ProjectedPoint<u32>, PointStatus)>,
}

/// The focused seam and its output reshaped for a reporting collaborator.
pub struct FocusedSeamInfo {
    pub seam: Seam,
    pub data: FocusedSeamData,
}

/// Either classified points placed in the projected plane, or the segment
/// list with the unchecked tail.
pub enum FocusedSeamData {
    Points(Vec<((u32, u32, u32), PointStatus)>),
    Segments(Vec<(RangeF32, RangeStatus)>),
}

/// Where a projected point sits in space, by the seam's axis: an
/// X-projective seam spans `(0, y, w)`, a Z-projective one `(w, y, 0)`
/// (coordinates as bit patterns, the free axis at zero).
pub open spec fn focused_point_pos(
    axis: crate::edge::ProjectionAxis,
    p: crate::edge::ProjectedPoint<u32>,
) -> (u32, u32, u32) {
    match axis {
        crate::edge::ProjectionAxis::X => (0u32, p.y, p.w),
        crate::edge::ProjectionAxis::Z => (p.w, p.y, 0u32),
    }
}

/// Reshape the focused seam's output for reporting: points are placed in
/// the projected plane by the seam's axis; segments are listed with the
/// unchecked tail.
pub fn get_focused_seam_info(seam: &Seam, output: &SeamOutput) -> (r: FocusedSeamInfo)
    ensures
        r.seam == *seam,
        output matches SeamOutput::Points(po) ==> r.data matches FocusedSeamData::Points(v)
            && v@.len() == po.points@.len() && forall|k: int|
            0 <= k < po.points@.len() ==> #[trigger] v@[k] == (
                focused_point_pos(seam.edge1.projection_axis, po.points@[k].0),
                po.points@[k].1,
            ),
        output matches SeamOutput::Segments(p) ==> r.data matches FocusedSeamData::Segments(v)
            && v@ == p.complete@ + seq![(p.remaining, RangeStatus::Unchecked)],
{
    match output {
        SeamOutput::Points(po) => {
            let mut v: Vec<((u32, u32, u32), PointStatus)> = Vec::new();
            let mut k: usize = 0;
            while k < po.points.len()
                invariant
                    k <= po.points.len(),
                    v@.len() == k,
                    forall|j: int|
                        0 <= j < k ==> #[trigger] v@[j] == (
                            focused_point_pos(seam.edge1.projection_axis, po.points@[j].0),
                            po.points@[j].1,
                        ),
                decreases po.points.len() - k,
            {
                let (point, status) = po.points[k];
                let pos: (u32, u32, u32) = match seam.edge1.projection_axis {
                    crate::edge::ProjectionAxis::X => (0u32, point.y, point.w),
                    crate::edge::ProjectionAxis::Z => (point.w, point.y, 0u32),
                };
                v.push((pos, status));
                k = k + 1;
            }
            FocusedSeamInfo { seam: *seam, data: FocusedSeamData::Points(v) }
        },
        SeamOutput::Segments(progress) => {
            let segs = progress.segments();
            proof {
                assert(segs@ == progress.complete@ + seq![
                    (progress.remaining, RangeStatus::Unchecked),
                ]);
            }
            FocusedSeamInfo { seam: *seam, data: FocusedSeamData::Segments(segs) }
        },
    }
}

/// Plain comparison of two seams (structural identity).
fn seam_eq(a: &Seam, b: &Seam) -> (r: bool)
    ensures
        r == (*a == *b),
{
    *a == *b
}

/// Plain comparison of two requests.
fn requests_eq(a: &SeamRequest, b: &SeamRequest) -> (r: bool)
    ensures
        r == (*a == *b),
{
    *a == *b
}

/// Fold one taken segment back into a progress record: a flagged segment
/// is recorded as `Skipped` — the zero-crossing zone is never classified —
/// and any other takes the classification it was given.
pub fn complete_taken_segment(
    progress: &mut SeamProgress,
    seg: (RangeF32, bool),
    status: RangeStatus,
)
    requires
        old(progress).wf(),
        seg.0.wf(),
        status != RangeStatus::Unchecked,
        !seg.0.is_empty_spec() ==> seg.0.start == old(progress).remaining.start,
        !seg.0.is_empty_spec() ==> is_finite(seg.0.end) || val149(seg.0.end) >= val149(
            old(progress).remaining.end,
        ),
        !seg.0.is_empty_spec() && old(progress).complete.len() > 0 ==> seg.0.start
            == old(progress).complete[old(progress).complete.len() - 1].0.end,
    ensures
        final(progress).wf(),
        final(progress).segment_length == old(progress).segment_length,
        final(progress).remaining.end == old(progress).remaining.end,
        !seg.0.is_empty_spec() ==> final(progress).remaining.start == seg.0.end
            && final(progress).chain_end() == seg.0.end,
        !seg.0.is_empty_spec() ==> final(progress).complete@[final(progress).complete.len()
            - 1].1 == (if seg.1 {
            RangeStatus::Skipped
        } else {
            status
        }),
{
    if seg.1 {
        progress.complete_segment(seg.0, RangeStatus::Skipped);
    } else {
        progress.complete_segment(seg.0, status);
    }
}

/// Plain comparison of two range statuses.
fn range_status_eq(a: RangeStatus, b: RangeStatus) -> (r: bool)
    ensures
        r == (a == b),
{
    match (a, b) {
        (
            RangeStatus::Checked { has_gap: g1, has_overlap: o1 },
            RangeStatus::Checked { has_gap: g2, has_overlap: o2 },
        ) => g1 == g2 && o1 == o2,
        (RangeStatus::Unchecked, RangeStatus::Unchecked) => true,
        (RangeStatus::Skipped, RangeStatus::Skipped) => true,
        _ => false,
    }
}

} // verus!
