//! The integer float model against the hardware: every operation in the
//! library is compared bit for bit with the machine's own single-precision
//! arithmetic.

use seamcheck::float_arith::{f32_add, f32_mul, f32_neg, f32_of_int, f32_ratio, f32_sub};
use seamcheck::float_bits::{
    f32_is_finite, f32_le, f32_lt, f32_max, f32_min, flush_f32_to_zero, next_f32, prev_f32,
    step_by,
};
use seamcheck::float_range::RangeF32;

fn flush_ref(x: f32) -> f32 {
    let bits = x.to_bits();
    let exp = (bits & !(1 << 31)) >> 23;
    if exp == 0 {
        f32::from_bits(bits & (1 << 31))
    } else {
        x
    }
}

fn next_ref(x: f32) -> f32 {
    let x = flush_ref(x);
    let bits = x.to_bits();
    let result_bits = if bits == 0 {
        1 << 23
    } else if (bits & (1 << 31)) == 0 {
        bits + 1
    } else if bits == (1 << 31) {
        0
    } else if bits == ((1 << 31) | (1 << 23)) {
        1 << 31
    } else {
        bits - 1
    };
    f32::from_bits(result_bits)
}

fn prev_ref(x: f32) -> f32 {
    let x = flush_ref(x);
    let bits = x.to_bits();
    let result_bits = if bits == 0 {
        1 << 31
    } else if bits == (1 << 23) {
        0
    } else if (bits & (1 << 31)) == 0 {
        bits - 1
    } else if bits == (1 << 31) {
        (1 << 31) | (1 << 23)
    } else {
        bits + 1
    };
    f32::from_bits(result_bits)
}

/// A small deterministic pattern generator for exhaustive-ish sweeps.
fn patterns() -> Vec<u32> {
    let mut v: Vec<u32> = vec![
        0x0000_0000, // +0
        0x8000_0000, // -0
        0x0080_0000, // smallest normal
        0x8080_0000,
        0x3F80_0000, // 1.0
        0xBF80_0000,
        0x4049_0FDB, // pi-ish
        0x3EAA_AAAB, // 1/3
        0x7F7F_FFFF, // largest finite
        0xFF7F_FFFF,
        0x0000_0001, // denormals
        0x8000_0001,
        0x007F_FFFF,
        0x3400_0000,
        0x4B80_0000, // 2^24
        0x4B80_0001,
        0x42C8_0000, // 100.0
        0xC248_0000, // -50.0
    ];
    let mut state: u32 = 0x1234_5678;
    for _ in 0..400 {
        state = state.wrapping_mul(1664525).wrapping_add(1013904223);
        v.push(state);
    }
    v
}

#[test]
fn flush_next_prev_match_hardware() {
    for &b in patterns().iter() {
        let x = f32::from_bits(b);
        assert_eq!(flush_f32_to_zero(b), flush_ref(x).to_bits(), "flush {b:#X}");
        if !x.is_nan() {
            assert_eq!(next_f32(b), next_ref(x).to_bits(), "next {b:#X}");
            assert_eq!(prev_f32(b), prev_ref(x).to_bits(), "prev {b:#X}");
        }
    }
}

#[test]
fn stepping_crosses_zero_once_each_way() {
    let neg_min_normal = 0x8080_0000u32;
    let neg_zero = 0x8000_0000u32;
    let pos_zero = 0x0000_0000u32;
    let pos_min_normal = 0x0080_0000u32;
    assert_eq!(next_f32(neg_min_normal), neg_zero);
    assert_eq!(next_f32(neg_zero), pos_zero);
    assert_eq!(next_f32(pos_zero), pos_min_normal);
    assert_eq!(prev_f32(pos_min_normal), pos_zero);
    assert_eq!(prev_f32(pos_zero), neg_zero);
    assert_eq!(prev_f32(neg_zero), neg_min_normal);
}

#[test]
fn next_prev_roundtrip_and_increase() {
    for &b in patterns().iter() {
        let x = flush_ref(f32::from_bits(b));
        if x.is_nan() || x.is_infinite() {
            continue;
        }
        let fb = x.to_bits();
        assert_eq!(next_f32(prev_f32(fb)), fb);
        assert_eq!(prev_f32(next_f32(fb)), fb);
        if x < f32::MAX && fb != 0x8000_0000 {
            assert!(f32::from_bits(next_f32(fb)) > x, "next({x}) not above");
        }
    }
}

#[test]
fn step_by_agrees_with_single_steps() {
    for &b in patterns().iter() {
        let x = flush_ref(f32::from_bits(b));
        if x.is_nan() {
            continue;
        }
        let fb = x.to_bits();
        assert_eq!(step_by(fb, 0), fb);
        let mut up = fb;
        for k in 1..=40i64 {
            up = next_f32(up);
            if f32::from_bits(up).is_nan() {
                break;
            }
            assert_eq!(step_by(fb, k), up, "{fb:#X} + {k}");
            assert_eq!(step_by(up, -k), fb, "{fb:#X} roundtrip {k}");
        }
    }
    // Crossing zero lands exactly on the signed zeros and continues.
    let neg_min = 0x8080_0000u32;
    assert_eq!(step_by(neg_min, 1), 0x8000_0000);
    assert_eq!(step_by(neg_min, 2), 0x0000_0000);
    assert_eq!(step_by(neg_min, 3), 0x0080_0000);
    assert_eq!(step_by(0x0080_0000, -3), neg_min);
    // Far overshoot clamps at the infinities.
    assert_eq!(step_by(0, i64::MAX), f32::INFINITY.to_bits());
    assert_eq!(step_by(0, i64::MIN), f32::NEG_INFINITY.to_bits());
}

#[test]
fn comparisons_match_hardware() {
    let pats = patterns();
    for &a in pats.iter() {
        for &b in pats.iter().take(60) {
            let (x, y) = (f32::from_bits(a), f32::from_bits(b));
            if x.is_nan() || y.is_nan() {
                continue;
            }
            assert_eq!(f32_lt(a, b), x < y, "lt {a:#X} {b:#X}");
            assert_eq!(f32_le(a, b), x <= y, "le {a:#X} {b:#X}");
            let mx = f32::from_bits(f32_max(a, b));
            let mn = f32::from_bits(f32_min(a, b));
            assert_eq!(mx == x || mx == y, true);
            assert!(mx >= x && mx >= y || (mx == 0.0 && x <= 0.0 && y <= 0.0));
            assert!(mn <= x && mn <= y || (mn == 0.0 && x >= 0.0 && y >= 0.0));
        }
        assert_eq!(f32_is_finite(a), f32::from_bits(a).is_finite());
    }
}

#[test]
fn add_sub_mul_match_hardware() {
    let pats = patterns();
    for &a in pats.iter() {
        for &b in pats.iter().take(60) {
            let (x, y) = (f32::from_bits(a), f32::from_bits(b));
            if !x.is_finite() || !y.is_finite() {
                continue;
            }
            assert_eq!(f32_add(a, b), (x + y).to_bits(), "add {a:#010X} {b:#010X}");
            assert_eq!(f32_sub(a, b), (x - y).to_bits(), "sub {a:#010X} {b:#010X}");
            assert_eq!(f32_mul(a, b), (x * y).to_bits(), "mul {a:#010X} {b:#010X}");
        }
        assert_eq!(f32_neg(a), (-f32::from_bits(a)).to_bits());
    }
}

#[test]
fn int_conversion_and_ratio_match_hardware() {
    let ints: Vec<i64> = vec![
        0, 1, -1, 7, -7, 200, 32767, -32768, 65535, 16777215, 16777217, -16777219, 99999999,
    ];
    for &v in ints.iter() {
        assert_eq!(f32_of_int(v), (v as f32).to_bits(), "of_int {v}");
    }
    for p in [1u64, 2, 3, 7, 10, 100, 32767, 65535, 12345] {
        for q in [1u64, 2, 3, 7, 10, 200, 32767, 65535, 999] {
            let expect = (p as f32) / (q as f32);
            assert_eq!(f32_ratio(0, p, q), expect.to_bits(), "ratio {p}/{q}");
            assert_eq!(f32_ratio(1, p, q), (-expect).to_bits(), "-ratio {p}/{q}");
        }
    }
}

#[test]
fn count_of_inclusive_unit_range_matches_split_computation() {
    // Negative side: the normals in [-1.0, -2^-126]; positive side: the
    // normals in [2^-126, 1.0]; computed separately and summed, plus the
    // zero value counted once.
    let one = 1.0f32.to_bits(); // 0x3F80_0000
    let positives = (one - 0x0080_0000) + 1; // normals in [2^-126, 1.0]
    let negatives = positives; // mirrored
    let expected = (positives + negatives + 1) as usize;
    assert_eq!(expected, 2113929219);
    let r = RangeF32::inclusive((-1.0f32).to_bits(), one);
    assert_eq!(r.count(), expected);
    // The half-open variant leaves out 1.0 itself.
    assert_eq!(
        seamcheck::float_range::f32s_between((-1.0f32).to_bits(), one) as usize,
        expected - 1,
    );
}

#[test]
fn count_counts_zero_once() {
    // Three negative normals, the zero value, two positive normals.
    let r = RangeF32 { start: 0x8080_0002, end: 0x0080_0002 };
    assert_eq!(r.count(), 6);
    // Either zero pattern as an endpoint bounds the same values.
    let to_zero = RangeF32 { start: 0x8080_0002, end: 0 };
    let to_neg_zero = RangeF32 { start: 0x8080_0002, end: 0x8000_0000 };
    assert_eq!(to_zero.count(), 3);
    assert_eq!(to_neg_zero.count(), 3);
    let from_zero = RangeF32 { start: 0, end: 0x0080_0002 };
    let from_neg_zero = RangeF32 { start: 0x8000_0000, end: 0x0080_0002 };
    assert_eq!(from_zero.count(), 3);
    assert_eq!(from_neg_zero.count(), 3);
}

#[test]
fn count_small_ranges() {
    let a = 1.5f32.to_bits();
    let mut e = a;
    for _ in 0..10 {
        e = next_f32(e);
    }
    let r = RangeF32 { start: a, end: e };
    assert_eq!(r.count(), 10);
    assert!(!r.is_empty());
    let empty = RangeF32 { start: e, end: a };
    assert_eq!(empty.count(), 0);
    assert!(empty.is_empty());
}

#[test]
fn intersect_and_cut_out_recombine() {
    let r = RangeF32 { start: (-8.0f32).to_bits(), end: 8.0f32.to_bits() };
    let sub = RangeF32 { start: (-1.0f32).to_bits(), end: 1.0f32.to_bits() };
    let (left, right) = r.cut_out(&sub);
    // The pieces and the sub-range tile the original exactly.
    assert_eq!(left.start, r.start);
    assert_eq!(left.end, sub.start);
    assert_eq!(right.start, sub.end);
    assert_eq!(right.end, r.end);
    assert_eq!(left.count() + sub.count() + right.count(), r.count());
    let i = r.intersect(&sub);
    assert_eq!(i.start, sub.start);
    assert_eq!(i.end, sub.end);
    // Cutting out a disjoint range leaves the original and an empty piece.
    let outside = RangeF32 { start: 100.0f32.to_bits(), end: 200.0f32.to_bits() };
    let (l2, r2) = r.cut_out(&outside);
    assert_eq!(l2.start, r.start);
    assert_eq!(l2.end, r.end);
    assert!(r2.is_empty());
}

#[test]
fn degenerate_pieces_are_normalized() {
    // No range operation may produce end < start: degenerate pieces clamp
    // to an empty range.
    let r = RangeF32 { start: 1.0f32.to_bits(), end: 2.0f32.to_bits() };
    let below = RangeF32 { start: 0.5f32.to_bits(), end: 0.75f32.to_bits() };
    let (left, right) = r.cut_out(&below);
    assert!(f32::from_bits(left.start) <= f32::from_bits(left.end));
    assert!(f32::from_bits(right.start) <= f32::from_bits(right.end));
    assert!(left.is_empty());
    assert_eq!(right.start, r.start);
    assert_eq!(right.end, r.end);
    let disjoint = RangeF32 { start: 5.0f32.to_bits(), end: 9.0f32.to_bits() };
    let i = r.intersect(&disjoint);
    assert!(f32::from_bits(i.start) <= f32::from_bits(i.end));
    assert!(i.is_empty());
}

#[test]
fn split_chains_and_recombines() {
    let r = RangeF32 { start: (-12.0f32).to_bits(), end: 13.0f32.to_bits() };
    let segs = r.split(5.0f32.to_bits());
    assert!(segs.len() > 0);
    assert_eq!(segs[0].start, r.start);
    for k in 1..segs.len() {
        assert_eq!(segs[k].start, segs[k - 1].end, "segments must chain");
    }
    assert_eq!(segs[segs.len() - 1].end, r.end);
    // Hardware mirror of the segmentation arithmetic.
    let mut expect: Vec<(f32, f32)> = Vec::new();
    let (start, end, len) = (-12.0f32, 13.0f32, 5.0f32);
    let mut i = 0;
    loop {
        let lo = flush_ref(start + i as f32 * len);
        let hi = flush_ref((start + (i + 1) as f32 * len).min(end));
        if !(lo < hi) {
            break;
        }
        expect.push((lo, hi));
        i += 1;
    }
    assert_eq!(segs.len(), expect.len());
    for k in 0..segs.len() {
        assert_eq!(segs[k].start, expect[k].0.to_bits());
        assert_eq!(segs[k].end, expect[k].1.to_bits());
    }
}
