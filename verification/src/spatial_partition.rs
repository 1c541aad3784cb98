//! Broad-phase candidate-pair discovery: a uniform grid of 200-unit
//! buckets over the XZ plane.  Each surface is filed under every bucket its
//! bounding box touches (plus a one-bucket margin above), and candidate
//! pairs are surfaces sharing a bucket — a conservative overapproximation
//! whose false positives the seam constructor rejects.

use crate::float_bits::is_nan;
use crate::float_bits::mag_of;
use crate::float_bits::mag_val;
use crate::float_bits::f32_le;
use vstd::prelude::*;

verus! {

/// Side length of one grid bucket, in world units.
pub const BUCKET_SIZE: i16 = 200;

/// Bit pattern of 0.01, the wall-normal threshold: a triangle is a wall iff
/// `|normal.y| <= 0.01`.
pub const WALL_NY_BITS: u32 = 0x3C23_D70A;

/// One collision triangle, as read from the mesh snapshot: three signed
/// 16-bit vertices and a single-precision normal carried as bit patterns.
#[derive(Clone, Copy, Debug)]
pub struct Surface {
    pub flags: u8,
    pub vertex1: [i16; 3],
    pub vertex2: [i16; 3],
    pub vertex3: [i16; 3],
    pub normal: [u32; 3],
    pub origin_offset: u32,
}

impl Surface {
    /// A triangle is a wall iff its normal's `y` magnitude is at most 0.01.
    pub open spec fn is_wall_spec(self) -> bool {
        mag_val(mag_of(self.normal[1])) <= mag_val(mag_of(WALL_NY_BITS))
    }

    /// Whether this triangle participates as a wall.
    pub fn is_wall(&self) -> (r: bool)
        requires
            !is_nan(self.normal[1]),
        ensures
            r == self.is_wall_spec(),
    {
        let a: u32 = self.normal[1] % 0x8000_0000;
        f32_le(a, WALL_NY_BITS)
    }
}

/// The grid coordinate of a world coordinate: its 200-unit cell, rounding
/// toward negative infinity.
pub open spec fn bucket_of(c: int) -> int {
    c / 200
}

/// The smaller of three coordinates.
pub open spec fn min3(a: int, b: int, c: int) -> int {
    if a <= b && a <= c {
        a
    } else if b <= c {
        b
    } else {
        c
    }
}

/// The larger of three coordinates.
pub open spec fn max3(a: int, b: int, c: int) -> int {
    if a >= b && a >= c {
        a
    } else if b >= c {
        b
    } else {
        c
    }
}

/// The buckets a surface is filed under: every cell its XZ bounding box
/// touches, plus one cell of margin above each axis.
pub open spec fn in_bucket(s: Surface, bx: int, bz: int) -> bool {
    let xmin = min3(s.vertex1[0] as int, s.vertex2[0] as int, s.vertex3[0] as int);
    let xmax = max3(s.vertex1[0] as int, s.vertex2[0] as int, s.vertex3[0] as int);
    let zmin = min3(s.vertex1[2] as int, s.vertex2[2] as int, s.vertex3[2] as int);
    let zmax = max3(s.vertex1[2] as int, s.vertex2[2] as int, s.vertex3[2] as int);
    &&& bucket_of(xmin) <= bx <= bucket_of(xmax) + 1
    &&& bucket_of(zmin) <= bz <= bucket_of(zmax) + 1
}

/// Two surfaces are broad-phase neighbours: some bucket holds both.
pub open spec fn share_bucket(a: Surface, b: Surface) -> bool {
    exists|bx: int, bz: int| in_bucket(a, bx, bz) && #[trigger] in_bucket(b, bx, bz)
}

/// The bucketed index.  Every filed entry really lies in its bucket, so
/// every candidate pair really shares one.
pub struct SpatialPartition {
    pub surfaces: Vec<Surface>,
    pub buckets: Vec<(i16, i16, Vec<usize>)>,
}

impl SpatialPartition {
    /// Soundness half of the invariant: bucket entries point at stored
    /// surfaces that the bucket really covers, and no grid key appears in
    /// two entries.
    pub open spec fn wf(self) -> bool {
        &&& forall|j: int, k: int|
            0 <= j < self.buckets.len() && 0 <= k < (#[trigger] self.buckets[j]).2.len()
                ==> self.buckets[j].2[k] < self.surfaces.len() && in_bucket(
                self.surfaces[#[trigger] self.buckets[j].2[k] as int],
                self.buckets[j].0 as int,
                self.buckets[j].1 as int,
            )
        &&& forall|j1: int, j2: int|
            0 <= j1 < j2 < self.buckets.len() ==> !((#[trigger] self.buckets[j1]).0 == (
            #[trigger] self.buckets[j2]).0 && self.buckets[j1].1 == self.buckets[j2].1)
    }

    /// The entry keyed by the grid cell holds the index.
    pub open spec fn bucket_contains(self, bx: int, bz: int, i: int) -> bool {
        exists|j: int|
            0 <= j < self.buckets.len() && ((#[trigger] self.buckets[j]).0 as int) == bx && (
            self.buckets[j].1 as int) == bz && exists|k: int|
                0 <= k < self.buckets[j].2.len() && (#[trigger] self.buckets[j].2[k]) as int == i
    }

    /// Completeness half of the invariant: every stored surface is filed
    /// under every bucket its bounding box touches, so no candidate pair is
    /// missed.
    pub open spec fn covers(self) -> bool {
        forall|i: int, bx: int, bz: int|
            0 <= i < self.surfaces.len() && #[trigger] in_bucket(self.surfaces[i], bx, bz)
                ==> self.bucket_contains(bx, bz, i)
    }

    /// The surfaces filed so far.
    pub open spec fn surfaces_spec(self) -> Seq<Surface> {
        self.surfaces@
    }

    /// An empty index.
    pub fn new() -> (r: SpatialPartition)
        ensures
            r.wf(),
            r.covers(),
            r.surfaces_spec() =~= Seq::<Surface>::empty(),
    {
        SpatialPartition { surfaces: Vec::new(), buckets: Vec::new() }
    }

    /// How many surfaces are filed.
    pub fn len(&self) -> (n: usize)
        ensures
            n == self.surfaces_spec().len(),
    {
        self.surfaces.len()
    }

    /// The surface filed under an index.
    pub fn surface_at(&self, i: usize) -> (s: Surface)
        requires
            i < self.surfaces_spec().len(),
        ensures
            s == self.surfaces_spec()[i as int],
    {
        self.surfaces[i]
    }

    /// File a surface under every bucket its bounding box touches.
    pub fn insert(&mut self, surface: Surface)
        requires
            old(self).wf(),
            old(self).covers(),
        ensures
            final(self).wf(),
            final(self).covers(),
            final(self).surfaces_spec() =~= old(self).surfaces_spec().push(surface),
    {
        let idx = self.surfaces.len();
        self.surfaces.push(surface);
        let x_min = bucket_coord(min3_exec(surface.vertex1[0], surface.vertex2[0], surface.vertex3[0]));
        let x_max = bucket_coord(max3_exec(surface.vertex1[0], surface.vertex2[0], surface.vertex3[0]));
        let z_min = bucket_coord(min3_exec(surface.vertex1[2], surface.vertex2[2], surface.vertex3[2]));
        let z_max = bucket_coord(max3_exec(surface.vertex1[2], surface.vertex2[2], surface.vertex3[2]));
        let ghost sx_min = x_min as int;
        let ghost sx_max = x_max as int;
        let ghost sz_min = z_min as int;
        let ghost sz_max = z_max as int;
        proof {
            // The pushed surface leaves every old membership in place.
            assert(self.buckets@ == old(self).buckets@);
            assert forall|i: int, bx2: int, bz2: int|
                0 <= i < idx && #[trigger] in_bucket(self.surfaces[i], bx2, bz2) implies self
                .bucket_contains(bx2, bz2, i) by {
                assert(self.surfaces[i] == old(self).surfaces[i]);
                assert(in_bucket(old(self).surfaces[i], bx2, bz2));
                assert(old(self).bucket_contains(bx2, bz2, i));
            }
        }
        let mut bx: i16 = x_min;
        while bx <= x_max + 1
            invariant
                self.wf(),
                self.surfaces@ =~= old(self).surfaces@.push(surface),
                x_min <= bx,
                x_max + 1 < 0x7FFF,
                x_min as int == sx_min && x_max as int == sx_max,
                z_min as int == sz_min && z_max as int == sz_max,
                idx < self.surfaces.len(),
                self.surfaces[idx as int] == surface,
                bucket_of(min3(
                    surface.vertex1[0] as int,
                    surface.vertex2[0] as int,
                    surface.vertex3[0] as int,
                )) == sx_min,
                bucket_of(max3(
                    surface.vertex1[0] as int,
                    surface.vertex2[0] as int,
                    surface.vertex3[0] as int,
                )) == sx_max,
                bucket_of(min3(
                    surface.vertex1[2] as int,
                    surface.vertex2[2] as int,
                    surface.vertex3[2] as int,
                )) == sz_min,
                bucket_of(max3(
                    surface.vertex1[2] as int,
                    surface.vertex2[2] as int,
                    surface.vertex3[2] as int,
                )) == sz_max,
                forall|i: int, bx2: int, bz2: int|
                    0 <= i < idx && #[trigger] in_bucket(self.surfaces[i], bx2, bz2)
                        ==> self.bucket_contains(bx2, bz2, i),
                forall|x: int, z: int|
                    sx_min <= x < bx as int && sz_min <= z <= sz_max + 1
                        ==> self.bucket_contains(x, z, idx as int),
            decreases x_max + 2 - bx,
        {
            let mut bz: i16 = z_min;
            while bz <= z_max + 1
                invariant
                    self.wf(),
                    self.surfaces@ =~= old(self).surfaces@.push(surface),
                    z_min <= bz,
                    z_max + 1 < 0x7FFF,
                    x_min <= bx <= x_max + 1,
                    x_min as int == sx_min && x_max as int == sx_max,
                    z_min as int == sz_min && z_max as int == sz_max,
                    idx < self.surfaces.len(),
                    self.surfaces[idx as int] == surface,
                    bucket_of(min3(
                        surface.vertex1[0] as int,
                        surface.vertex2[0] as int,
                        surface.vertex3[0] as int,
                    )) == sx_min,
                    bucket_of(max3(
                        surface.vertex1[0] as int,
                        surface.vertex2[0] as int,
                        surface.vertex3[0] as int,
                    )) == sx_max,
                    bucket_of(min3(
                        surface.vertex1[2] as int,
                        surface.vertex2[2] as int,
                        surface.vertex3[2] as int,
                    )) == sz_min,
                    bucket_of(max3(
                        surface.vertex1[2] as int,
                        surface.vertex2[2] as int,
                        surface.vertex3[2] as int,
                    )) == sz_max,
                    forall|i: int, bx2: int, bz2: int|
                        0 <= i < idx && #[trigger] in_bucket(self.surfaces[i], bx2, bz2)
                            ==> self.bucket_contains(bx2, bz2, i),
                    forall|x: int, z: int|
                        sx_min <= x < bx as int && sz_min <= z <= sz_max + 1
                            ==> self.bucket_contains(x, z, idx as int),
                    forall|z: int|
                        sz_min <= z < bz as int ==> self.bucket_contains(
                            bx as int,
                            z,
                            idx as int,
                        ),
                decreases z_max + 2 - bz,
            {
                self.file_index(bx, bz, idx);
                bz = bz + 1;
            }
            bx = bx + 1;
        }
        proof {
            assert forall|i: int, bx2: int, bz2: int|
                0 <= i < self.surfaces.len() && #[trigger] in_bucket(
                    self.surfaces[i],
                    bx2,
                    bz2,
                ) implies self.bucket_contains(bx2, bz2, i) by {
                if i == idx {
                    assert(self.surfaces[i] == surface);
                    assert(sx_min <= bx2 <= sx_max + 1 && sz_min <= bz2 <= sz_max + 1);
                }
            }
        }
    }

    /// Append an index to the bucket's list, creating the bucket on first
    /// use: the new membership is filed and every old membership survives.
    fn file_index(&mut self, bx: i16, bz: i16, idx: usize)
        requires
            old(self).wf(),
            idx < old(self).surfaces.len(),
            in_bucket(old(self).surfaces[idx as int], bx as int, bz as int),
        ensures
            final(self).wf(),
            final(self).surfaces@ == old(self).surfaces@,
            final(self).bucket_contains(bx as int, bz as int, idx as int),
            forall|bx2: int, bz2: int, i2: int|
                old(self).bucket_contains(bx2, bz2, i2) ==> final(self).bucket_contains(
                    bx2,
                    bz2,
                    i2,
                ),
    {
        let mut j: usize = 0;
        while j < self.buckets.len()
            invariant
                self.wf(),
                self.surfaces@ == old(self).surfaces@,
                self.buckets@ == old(self).buckets@,
                idx < self.surfaces.len(),
                in_bucket(self.surfaces[idx as int], bx as int, bz as int),
                forall|j2: int|
                    0 <= j2 < j ==> !((#[trigger] self.buckets[j2]).0 == bx && self.buckets[j2].1
                        == bz),
            decreases self.buckets.len() - j,
        {
            if self.buckets[j].0 == bx && self.buckets[j].1 == bz {
                // Take the entry out, extend it, and put it back: every
                // other entry keeps its place, and the list keeps its
                // prefix.
                let ghost before = self.buckets@;
                let mut entry = self.buckets.remove(j);
                let ghost oldlist = entry.2@;
                entry.2.push(idx);
                self.buckets.insert(j, entry);
                proof {
                    assert(self.buckets@[j as int].0 == bx && self.buckets@[j as int].1 == bz);
                    assert(forall|t: int|
                        0 <= t < self.buckets@.len() && t != j ==> self.buckets@[t] == before[t]);
                    assert(self.buckets@[j as int].2@ =~= oldlist.push(idx));
                    assert(self.bucket_contains(bx as int, bz as int, idx as int)) by {
                        assert(self.buckets@[j as int].2[oldlist.len() as int] == idx);
                    }
                    assert forall|bx2: int, bz2: int, i2: int|
                        old(self).bucket_contains(bx2, bz2, i2) implies self.bucket_contains(
                        bx2,
                        bz2,
                        i2,
                    ) by {
                        let j2 = choose|j2: int|
                            0 <= j2 < before.len() && ((#[trigger] before[j2]).0 as int) == bx2 && (
                            before[j2].1 as int) == bz2 && exists|k: int|
                                0 <= k < before[j2].2.len() && (#[trigger] before[j2].2[k]) as int
                                    == i2;
                        let k2 = choose|k: int|
                            0 <= k < before[j2].2.len() && (#[trigger] before[j2].2[k]) as int
                                == i2;
                        if j2 == j {
                            assert(self.buckets@[j as int].2[k2] as int == i2);
                        } else {
                            assert(self.buckets@[j2] == before[j2]);
                            assert(self.buckets@[j2].2[k2] as int == i2);
                        }
                    }
                }
                return ;
            }
            j = j + 1;
        }
        let ghost before = self.buckets@;
        let mut list: Vec<usize> = Vec::new();
        list.push(idx);
        self.buckets.push((bx, bz, list));
        proof {
            assert(self.buckets@[before.len() as int].2[0] == idx);
            assert(forall|t: int| 0 <= t < before.len() ==> self.buckets@[t] == before[t]);
            assert forall|bx2: int, bz2: int, i2: int|
                old(self).bucket_contains(bx2, bz2, i2) implies self.bucket_contains(
                bx2,
                bz2,
                i2,
            ) by {
                let j2 = choose|j2: int|
                    0 <= j2 < before.len() && ((#[trigger] before[j2]).0 as int) == bx2 && (
                    before[j2].1 as int) == bz2 && exists|k: int|
                        0 <= k < before[j2].2.len() && (#[trigger] before[j2].2[k]) as int == i2;
                assert(self.buckets@[j2] == before[j2]);
            }
        }
    }

    /// Candidate pairs: exactly the index pairs `(a, b)` with `a < b` whose
    /// surfaces share a bucket, each pair reported once.
    pub fn pairs(&self) -> (v: Vec<(usize, usize)>)
        requires
            self.wf(),
            self.covers(),
        ensures
            forall|k: int|
                0 <= k < v@.len() ==> (#[trigger] v@[k]).0 < v@[k].1 && v@[k].1
                    < self.surfaces_spec().len() && share_bucket(
                    self.surfaces_spec()[v@[k].0 as int],
                    self.surfaces_spec()[v@[k].1 as int],
                ),
            forall|k1: int, k2: int| 0 <= k1 < k2 < v@.len() ==> v@[k1] != v@[k2],
            forall|a: usize, b: usize|
                a < b && b < self.surfaces_spec().len() && #[trigger] share_bucket(
                    self.surfaces_spec()[a as int],
                    self.surfaces_spec()[b as int],
                ) ==> v@.contains((a, b)),
    {
        let mut v: Vec<(usize, usize)> = Vec::new();
        let mut j: usize = 0;
        while j < self.buckets.len()
            invariant
                self.wf(),
                forall|k: int|
                    0 <= k < v@.len() ==> (#[trigger] v@[k]).0 < v@[k].1 && v@[k].1
                        < self.surfaces@.len() && share_bucket(
                        self.surfaces@[v@[k].0 as int],
                        self.surfaces@[v@[k].1 as int],
                    ),
                forall|k1: int, k2: int| 0 <= k1 < k2 < v@.len() ==> v@[k1] != v@[k2],
                forall|j2: int, ka: int, kb: int|
                    #![trigger self.buckets[j2].2[ka], self.buckets[j2].2[kb]]
                    0 <= j2 < j && 0 <= ka < self.buckets[j2].2.len() && 0 <= kb
                        < self.buckets[j2].2.len() && self.buckets[j2].2[ka]
                        < self.buckets[j2].2[kb] ==> v@.contains(
                        (self.buckets[j2].2[ka], self.buckets[j2].2[kb]),
                    ),
            decreases self.buckets.len() - j,
        {
            let list_len = self.buckets[j].2.len();
            let mut a: usize = 0;
            while a < list_len
                invariant
                    self.wf(),
                    j < self.buckets.len(),
                    a <= list_len,
                    list_len == self.buckets[j as int].2.len(),
                    forall|k: int|
                        0 <= k < v@.len() ==> (#[trigger] v@[k]).0 < v@[k].1 && v@[k].1
                            < self.surfaces@.len() && share_bucket(
                            self.surfaces@[v@[k].0 as int],
                            self.surfaces@[v@[k].1 as int],
                        ),
                    forall|k1: int, k2: int| 0 <= k1 < k2 < v@.len() ==> v@[k1] != v@[k2],
                    forall|j2: int, ka: int, kb: int|
                        #![trigger self.buckets[j2].2[ka], self.buckets[j2].2[kb]]
                        0 <= j2 < j && 0 <= ka < self.buckets[j2].2.len() && 0 <= kb
                            < self.buckets[j2].2.len() && self.buckets[j2].2[ka]
                            < self.buckets[j2].2[kb] ==> v@.contains(
                            (self.buckets[j2].2[ka], self.buckets[j2].2[kb]),
                        ),
                    forall|ka: int, kb: int|
                        #![trigger self.buckets[j as int].2[ka], self.buckets[j as int].2[kb]]
                        0 <= ka < a && 0 <= kb < self.buckets[j as int].2.len()
                            && self.buckets[j as int].2[ka] < self.buckets[j as int].2[kb]
                            ==> v@.contains(
                            (self.buckets[j as int].2[ka], self.buckets[j as int].2[kb]),
                        ),
                decreases list_len - a,
            {
                let mut b: usize = 0;
                while b < list_len
                    invariant
                        self.wf(),
                        j < self.buckets.len(),
                        a < list_len,
                        b <= list_len,
                        list_len == self.buckets[j as int].2.len(),
                        forall|k: int|
                            0 <= k < v@.len() ==> (#[trigger] v@[k]).0 < v@[k].1 && v@[k].1
                                < self.surfaces@.len() && share_bucket(
                                self.surfaces@[v@[k].0 as int],
                                self.surfaces@[v@[k].1 as int],
                            ),
                        forall|k1: int, k2: int| 0 <= k1 < k2 < v@.len() ==> v@[k1] != v@[k2],
                        forall|j2: int, ka: int, kb: int|
                            #![trigger self.buckets[j2].2[ka], self.buckets[j2].2[kb]]
                            0 <= j2 < j && 0 <= ka < self.buckets[j2].2.len() && 0 <= kb
                                < self.buckets[j2].2.len() && self.buckets[j2].2[ka]
                                < self.buckets[j2].2[kb] ==> v@.contains(
                                (self.buckets[j2].2[ka], self.buckets[j2].2[kb]),
                            ),
                        forall|ka: int, kb: int|
                            #![trigger self.buckets[j as int].2[ka], self.buckets[j as int].2[kb]]
                            0 <= ka < a && 0 <= kb < self.buckets[j as int].2.len()
                                && self.buckets[j as int].2[ka] < self.buckets[j as int].2[kb]
                                ==> v@.contains(
                                (self.buckets[j as int].2[ka], self.buckets[j as int].2[kb]),
                            ),
                        forall|kb: int|
                            0 <= kb < b && self.buckets[j as int].2[a as int] < (
                            #[trigger] self.buckets[j as int].2[kb]) ==> v@.contains(
                                (self.buckets[j as int].2[a as int], self.buckets[j as int].2[kb]),
                            ),
                    decreases list_len - b,
                {
                    let ia = self.buckets[j].2[a];
                    let ib = self.buckets[j].2[b];
                    if ia < ib && !contains_pair(&v, ia, ib) {
                        proof {
                            assert(in_bucket(
                                self.surfaces@[ia as int],
                                self.buckets@[j as int].0 as int,
                                self.buckets@[j as int].1 as int,
                            ));
                            assert(in_bucket(
                                self.surfaces@[ib as int],
                                self.buckets@[j as int].0 as int,
                                self.buckets@[j as int].1 as int,
                            ));
                        }
                        let ghost vold = v@;
                        v.push((ia, ib));
                        proof {
                            assert(v@[v@.len() - 1] == (ia, ib));
                            assert forall|e: (usize, usize)| vold.contains(e) implies v@.contains(
                                e,
                            ) by {
                                let k = choose|k: int| 0 <= k < vold.len() && vold[k] == e;
                                assert(v@[k] == e);
                            }
                        }
                    }
                    b = b + 1;
                }
                a = a + 1;
            }
            j = j + 1;
        }
        proof {
            assert forall|a: usize, b: usize|
                a < b && b < self.surfaces@.len() && #[trigger] share_bucket(
                    self.surfaces@[a as int],
                    self.surfaces@[b as int],
                ) implies v@.contains((a, b)) by {
                let (bx, bz) = choose|bx: int, bz: int|
                    in_bucket(self.surfaces@[a as int], bx, bz) && #[trigger] in_bucket(
                        self.surfaces@[b as int],
                        bx,
                        bz,
                    );
                assert(self.bucket_contains(bx, bz, a as int));
                assert(self.bucket_contains(bx, bz, b as int));
                let j1 = choose|j1: int|
                    0 <= j1 < self.buckets.len() && ((#[trigger] self.buckets[j1]).0 as int) == bx
                        && (self.buckets[j1].1 as int) == bz && exists|k: int|
                        0 <= k < self.buckets[j1].2.len() && (#[trigger] self.buckets[j1].2[k])
                            as int == a as int;
                let j2 = choose|j2: int|
                    0 <= j2 < self.buckets.len() && ((#[trigger] self.buckets[j2]).0 as int) == bx
                        && (self.buckets[j2].1 as int) == bz && exists|k: int|
                        0 <= k < self.buckets[j2].2.len() && (#[trigger] self.buckets[j2].2[k])
                            as int == b as int;
                assert(j1 == j2);
                let ka = choose|k: int|
                    0 <= k < self.buckets[j1].2.len() && (#[trigger] self.buckets[j1].2[k]) as int
                        == a as int;
                let kb = choose|k: int|
                    0 <= k < self.buckets[j1].2.len() && (#[trigger] self.buckets[j1].2[k]) as int
                        == b as int;
                assert(self.buckets[j1].2[ka] < self.buckets[j1].2[kb]);
                assert(v@.contains((self.buckets[j1].2[ka], self.buckets[j1].2[kb])));
            }
        }
        v
    }
}

/// Whether the pair is already collected.
fn contains_pair(v: &Vec<(usize, usize)>, a: usize, b: usize) -> (r: bool)
    ensures
        r == v@.contains((a, b)),
{
    let mut k: usize = 0;
    while k < v.len()
        invariant
            k <= v.len(),
            forall|t: int| 0 <= t < k ==> v@[t] != (a, b),
        decreases v.len() - k,
    {
        if v[k].0 == a && v[k].1 == b {
            proof {
                assert(v@[k as int] == (a, b));
            }
            return true;
        }
        k = k + 1;
    }
    false
}

/// The smaller of three 16-bit coordinates.
fn min3_exec(a: i16, b: i16, c: i16) -> (r: i16)
    ensures
        r as int == min3(a as int, b as int, c as int),
{
    if a <= b && a <= c {
        a
    } else if b <= c {
        b
    } else {
        c
    }
}

/// The larger of three 16-bit coordinates.
fn max3_exec(a: i16, b: i16, c: i16) -> (r: i16)
    ensures
        r as int == max3(a as int, b as int, c as int),
{
    if a >= b && a >= c {
        a
    } else if b >= c {
        b
    } else {
        c
    }
}

/// The grid cell of a coordinate, rounding toward negative infinity.
fn bucket_coord(c: i16) -> (b: i16)
    ensures
        b as int == bucket_of(c as int),
{
    let m: i32 = (c as i32) + 0x8000;
    let q: i32 = m / 200;
    let r: i32 = m % 200;
    let b: i32 = if r >= 168 {
        q - 163
    } else {
        q - 164
    };
    proof {
        vstd::arithmetic::div_mod::lemma_fundamental_div_mod(m as int, 200);
        vstd::arithmetic::div_mod::lemma_fundamental_div_mod_converse(
            c as int,
            200,
            b as int,
            if r >= 168 {
                r - 168
            } else {
                r + 32
            },
        );
    }
    b as i16
}

} // verus!
