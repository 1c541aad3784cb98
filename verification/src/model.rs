//! Configuration records for attaching to a running target, coarse surface
//! classification for reporting, and small shared value types.

use crate::edge::normal_wf;
use crate::edge::AXIS_THRESHOLD_BITS;
use crate::edge::NEG_AXIS_THRESHOLD_BITS;
use crate::float_bits::mag_of;
use crate::float_bits::mag_val;
use crate::float_bits::val149;
use crate::float_bits::f32_lt;
use crate::spatial_partition::WALL_NY_BITS;
use vstd::prelude::*;

verus! {

/// Global addresses of one game version's state.
#[derive(Clone, Copy, Debug, PartialEq, Eq, Structural)]
pub struct Globals {
    pub global_timer: u32,
    pub lakitu_state: u32,
    pub surfaces_allocated: u32,
    pub surface_pool: u32,
}

/// A known game version: its display name and its global addresses.
#[derive(Debug)]
pub struct GameVersion {
    pub name: Vec<u8>,
    pub globals: Globals,
}

/// Attachment configuration: per-executable base addresses and the known
/// game versions.
#[derive(Debug)]
pub struct Config {
    pub base_addresses: Vec<(Vec<u8>, usize)>,
    pub game_versions: Vec<GameVersion>,
}

/// Progress of a bulk export, in points.
#[derive(Clone, Copy, Debug, PartialEq, Eq, Structural)]
pub struct ExportProgress {
    pub complete: usize,
    pub total: usize,
}

/// Coarse classification of a surface for reporting.
#[derive(Clone, Copy, Debug, PartialEq, Eq, Structural)]
pub enum SurfaceType {
    Floor,
    Ceiling,
    WallXProj,
    WallZProj,
}

/// What `classify_surface` returns: floors point up beyond the wall
/// threshold, ceilings down, and walls split by their dominant axis.
pub open spec fn classify_surface_spec(normal: [u32; 3]) -> SurfaceType {
    if val149(normal[1]) > mag_val(mag_of(WALL_NY_BITS)) {
        SurfaceType::Floor
    } else if val149(normal[1]) < -mag_val(mag_of(WALL_NY_BITS)) {
        SurfaceType::Ceiling
    } else if val149(normal[0]) < val149(NEG_AXIS_THRESHOLD_BITS) || val149(AXIS_THRESHOLD_BITS)
        < val149(normal[0]) {
        SurfaceType::WallXProj
    } else {
        SurfaceType::WallZProj
    }
}

/// Classify a surface by its normal for reporting.
pub fn classify_surface(normal: &[u32; 3]) -> (r: SurfaceType)
    requires
        normal_wf(*normal),
    ensures
        r == classify_surface_spec(*normal),
{
    if f32_lt(WALL_NY_BITS, normal[1]) {
        SurfaceType::Floor
    } else if f32_lt(normal[1], 0x8000_0000u32 + WALL_NY_BITS) {
        proof {
            crate::float_arith::lemma_neg_props(WALL_NY_BITS);
        }
        SurfaceType::Ceiling
    } else if f32_lt(normal[0], NEG_AXIS_THRESHOLD_BITS) || f32_lt(
        AXIS_THRESHOLD_BITS,
        normal[0],
    ) {
        SurfaceType::WallXProj
    } else {
        SurfaceType::WallZProj
    }
}

/// What canonicalization returns: every trailing `.exe` stripped, `_`
/// replaced by `-`, ASCII letters lowered.
pub open spec fn canonical_name_spec(s: Seq<u8>) -> Seq<u8>
    decreases s.len(),
{
    if s.len() >= 4 && s.subrange(s.len() - 4, s.len() as int) =~= seq![
        0x2Eu8,
        0x65u8,
        0x78u8,
        0x65u8,
    ] {
        canonical_name_spec(s.subrange(0, s.len() - 4))
    } else {
        s.map_values(|b: u8| canonical_byte(b))
    }
}

/// One canonical byte: `_` becomes `-`, upper-case ASCII becomes lower.
pub open spec fn canonical_byte(b: u8) -> u8 {
    if b == 0x5F {
        0x2D
    } else if 0x41 <= b <= 0x5A {
        (b + 0x20) as u8
    } else {
        b
    }
}

/// Canonicalize an executable name (as bytes) for lookup: strip every
/// trailing `.exe`, turn `_` into `-`, lower the ASCII letters.
pub fn canonicalize_process_name(name: &[u8]) -> (r: Vec<u8>)
    ensures
        r@ == canonical_name_spec(name@),
{
    let mut end: usize = name.len();
    proof {
        assert(name@.subrange(0, name@.len() as int) =~= name@);
    }
    while end >= 4 && name[end - 4] == 0x2E && name[end - 3] == 0x65 && name[end - 2] == 0x78
        && name[end - 1] == 0x65
        invariant
            end <= name.len(),
            canonical_name_spec(name@) == canonical_name_spec(name@.subrange(0, end as int)),
        decreases end,
    {
        proof {
            let s = name@.subrange(0, end as int);
            assert(s.subrange(s.len() - 4, s.len() as int) =~= seq![
                0x2Eu8,
                0x65u8,
                0x78u8,
                0x65u8,
            ]);
            assert(s.subrange(0, s.len() - 4) =~= name@.subrange(0, end - 4));
        }
        end = end - 4;
    }
    let mut r: Vec<u8> = Vec::new();
    let mut i: usize = 0;
    proof {
        let s = name@.subrange(0, end as int);
        assert(canonical_name_spec(s) == s.map_values(|b: u8| canonical_byte(b)));
    }
    while i < end
        invariant
            i <= end,
            end <= name.len(),
            r@ =~= name@.subrange(0, end as int).map_values(|b: u8| canonical_byte(b)).take(
                i as int,
            ),
            canonical_name_spec(name@) == name@.subrange(0, end as int).map_values(
                |b: u8| canonical_byte(b),
            ),
        decreases end - i,
    {
        let b = name[i];
        let c: u8 = if b == 0x5F {
            0x2D
        } else if 0x41 <= b && b <= 0x5A {
            b + 0x20
        } else {
            b
        };
        r.push(c);
        proof {
            let m = name@.subrange(0, end as int).map_values(|bb: u8| canonical_byte(bb));
            assert(m[i as int] == canonical_byte(name@[i as int]));
            assert(r@ =~= m.take(i + 1));
        }
        i = i + 1;
    }
    proof {
        assert(r@ =~= name@.subrange(0, end as int).map_values(|b: u8| canonical_byte(b)));
    }
    r
}

} // verus!
