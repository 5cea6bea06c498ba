//! Region snapshots and whole-grid union.

use crate::grid::{chunk_hi, chunk_lo, in_scan_order, lemma_chunk_box, tile_of, ChunkCoord, Grid, GridView};
use crate::region::{box_cell, box_count, box_number, cell_of, count_of, in_box, lemma_box_number, number_of};
use crate::sample::{is_nan, less, lt, solid};
use crate::vec3::UVec3;
use vstd::prelude::*;

verus! {

/// The samples of a box of voxels, taken from a grid at one moment.
pub struct RegionSnapshot {
    min: UVec3,
    max: UVec3,
    samples: Vec<u32>,
}

impl RegionSnapshot {
    /// First voxel of the box.
    pub closed spec fn lo(&self) -> UVec3 {
        self.min
    }

    /// First voxel past the box.
    pub closed spec fn hi(&self) -> UVec3 {
        self.max
    }

    /// There is a sample for each voxel of the box.
    pub closed spec fn wf(&self) -> bool {
        &&& box_count(self.min, self.max) <= usize::MAX
        &&& self.samples.len() == box_count(self.min, self.max)
    }

    /// The sample that was taken at voxel `(x, y, z)`.
    pub closed spec fn at(&self, x: int, y: int, z: int) -> u32 {
        self.samples@[box_number(self.min, self.max, x, y, z)]
    }

    /// The box: its first voxel, and the first voxel past it.
    pub fn bounds(&self) -> (r: (UVec3, UVec3))
        ensures
            r == (self.lo(), self.hi()),
    {
        (self.min, self.max)
    }

    /// The sample that was taken at a voxel.
    pub fn get(&self, x: u32, y: u32, z: u32) -> (r: u32)
        requires
            self.wf(),
            in_box(self.lo(), self.hi(), x as int, y as int, z as int),
        ensures
            r == self.at(x as int, y as int, z as int),
    {
        self.samples[number_of(self.min, self.max, x, y, z)]
    }
}

/// The box from `lo` to `hi` lies in a domain of resolution `res`.
pub open spec fn box_within(lo: UVec3, hi: UVec3, res: UVec3) -> bool {
    &&& hi.x <= res.x
    &&& hi.y <= res.y
    &&& hi.z <= res.z
}

/// What restoring a snapshot leaves at a voxel.
pub open spec fn restored_at(g: GridView, s: RegionSnapshot, x: int, y: int, z: int) -> u32 {
    if in_box(s.lo(), s.hi(), x, y, z) {
        s.at(x, y, z)
    } else {
        g.at(x, y, z)
    }
}

/// Restoring the snapshot changes some sample of chunk `c`.
pub open spec fn restore_writes(g: GridView, s: RegionSnapshot, c: ChunkCoord) -> bool {
    exists|x: int, y: int, z: int|
        in_box(s.lo(), s.hi(), x, y, z) && #[trigger] g.at(x, y, z) != s.at(x, y, z) && tile_of(x, y, z)
            == c
}

/// What the union with `other` leaves at a voxel: the smaller sample, where
/// `other` stores the voxel's tile.
pub open spec fn united_at(g: GridView, other: GridView, x: int, y: int, z: int) -> u32 {
    if other.tiles.dom().contains(tile_of(x, y, z)) && lt(other.at(x, y, z), g.at(x, y, z)) {
        other.at(x, y, z)
    } else {
        g.at(x, y, z)
    }
}

/// The union with `other` changes some sample of chunk `c`.
pub open spec fn union_writes(g: GridView, other: GridView, c: ChunkCoord) -> bool {
    exists|x: int, y: int, z: int|
        g.res.has(x, y, z) && lt(other.at(x, y, z), g.at(x, y, z)) && #[trigger] tile_of(x, y, z) == c
            && other.tiles.dom().contains(c)
}

impl Grid {
    /// Take the samples of the box from `min` to `max`.
    pub fn snapshot_region(&self, min: UVec3, max: UVec3) -> (r: RegionSnapshot)
        requires
            self.wf(),
            box_within(min, max, self@.res),
            box_count(min, max) <= usize::MAX,
        ensures
            r.wf(),
            r.lo() == min,
            r.hi() == max,
            forall|x: int, y: int, z: int|
                in_box(min, max, x, y, z) ==> #[trigger] r.at(x, y, z) == self@.at(x, y, z),
    {
        let n: usize = count_of(min, max);
        let mut samples: Vec<u32> = Vec::new();
        let mut k: usize = 0;
        while k < n
            invariant
                k <= n,
                self.wf(),
                box_within(min, max, self@.res),
                n == box_count(min, max),
                samples.len() == k,
                forall|j: int|
                    0 <= j < k ==> #[trigger] samples[j] == ({
                        let v = box_cell(min, max, j);
                        self@.at(v.x as int, v.y as int, v.z as int)
                    }),
            decreases n - k,
        {
            let v = cell_of(min, max, k);
            samples.push(self.get(v.x, v.y, v.z));
            k = k + 1;
        }
        let r = RegionSnapshot { min, max, samples };
        proof {
            assert forall|x: int, y: int, z: int| in_box(min, max, x, y, z) implies #[trigger] r.at(
                x,
                y,
                z,
            ) == self@.at(x, y, z) by {
                lemma_box_number(min, max, x, y, z);
            }
        }
        r
    }

    /// Put the samples of a snapshot back.
    pub fn restore_region(&mut self, snapshot: &RegionSnapshot)
        requires
            old(self).wf(),
            snapshot.wf(),
            box_within(snapshot.lo(), snapshot.hi(), old(self)@.res),
        ensures
            final(self).wf(),
            final(self)@.same_domain(old(self)@),
            forall|x: int, y: int, z: int|
                old(self)@.res.has(x, y, z) ==> #[trigger] final(self)@.at(x, y, z) == restored_at(
                    old(self)@,
                    *snapshot,
                    x,
                    y,
                    z,
                ),
            forall|c: ChunkCoord| #[trigger]
                final(self)@.tiles.dom().contains(c) <==> old(self)@.tiles.dom().contains(c)
                    || restore_writes(old(self)@, *snapshot, c),
    {
        let (min, max) = snapshot.bounds();
        let n: usize = snapshot.samples.len();
        let ghost was = self@;
        let mut k: usize = 0;
        while k < n
            invariant
                k <= n,
                self.wf(),
                snapshot.wf(),
                min == snapshot.lo(),
                max == snapshot.hi(),
                n == box_count(min, max),
                box_within(min, max, was.res),
                self@.same_domain(was),
                forall|x: int, y: int, z: int|
                    was.res.has(x, y, z) ==> #[trigger] self@.at(x, y, z) == (if in_box(
                        min,
                        max,
                        x,
                        y,
                        z,
                    ) && box_number(min, max, x, y, z) < k {
                        snapshot.at(x, y, z)
                    } else {
                        was.at(x, y, z)
                    }),
                forall|c: ChunkCoord| #[trigger]
                    self@.tiles.dom().contains(c) ==> was.tiles.dom().contains(c) || restore_writes(
                        was,
                        *snapshot,
                        c,
                    ),
                forall|c: ChunkCoord|
                    was.tiles.dom().contains(c) ==> #[trigger] self@.tiles.dom().contains(c),
                forall|x: int, y: int, z: int|
                    in_box(min, max, x, y, z) && box_number(min, max, x, y, z) < k && #[trigger] was.at(
                        x,
                        y,
                        z,
                    ) != snapshot.at(x, y, z) ==> self@.tiles.dom().contains(tile_of(x, y, z)),
            decreases n - k,
        {
            let v = cell_of(min, max, k);
            let s: u32 = snapshot.get(v.x, v.y, v.z);
            let ghost mid = self@;
            let ghost (vx, vy, vz) = (v.x as int, v.y as int, v.z as int);
            assert(mid.at(vx, vy, vz) == was.at(vx, vy, vz));
            if self.get(v.x, v.y, v.z) != s {
                self.set(v.x, v.y, v.z, s);
                assert(restore_writes(was, *snapshot, tile_of(vx, vy, vz)));
            }
            proof {
                assert forall|x: int, y: int, z: int| was.res.has(x, y, z) implies #[trigger] self@.at(
                    x,
                    y,
                    z,
                ) == (if in_box(min, max, x, y, z) && box_number(min, max, x, y, z) < k + 1 {
                    snapshot.at(x, y, z)
                } else {
                    was.at(x, y, z)
                }) by {
                    assert(mid.at(x, y, z) == mid.at(x, y, z));
                    if in_box(min, max, x, y, z) && box_number(min, max, x, y, z) == k {
                        lemma_box_number(min, max, x, y, z);
                        assert(x == vx && y == vy && z == vz);
                    }
                }
                assert forall|x: int, y: int, z: int|
                    in_box(min, max, x, y, z) && box_number(min, max, x, y, z) < k + 1
                        && #[trigger] was.at(x, y, z) != snapshot.at(x, y, z) implies self@.tiles.dom().contains(
                tile_of(x, y, z)) by {
                    if box_number(min, max, x, y, z) == k {
                        lemma_box_number(min, max, x, y, z);
                        assert(x == vx && y == vy && z == vz);
                    } else {
                        assert(mid.tiles.dom().contains(tile_of(x, y, z)));
                    }
                }
            }
            k = k + 1;
        }
        proof {
            assert forall|x: int, y: int, z: int| was.res.has(x, y, z) implies #[trigger] self@.at(
                x,
                y,
                z,
            ) == restored_at(was, *snapshot, x, y, z) by {
                if in_box(min, max, x, y, z) {
                    lemma_box_number(min, max, x, y, z);
                }
            }
            assert forall|c: ChunkCoord| #[trigger]
                self@.tiles.dom().contains(c) <==> was.tiles.dom().contains(c) || restore_writes(
                    was,
                    *snapshot,
                    c,
                ) by {
                if restore_writes(was, *snapshot, c) {
                    let (x, y, z) = choose|x: int, y: int, z: int|
                        in_box(min, max, x, y, z) && #[trigger] was.at(x, y, z) != snapshot.at(x, y, z)
                            && tile_of(x, y, z) == c;
                    lemma_box_number(min, max, x, y, z);
                }
            }
        }
    }

    /// Take over the samples of `other` that are smaller than this grid's.
    pub fn union_from(&mut self, other: &Grid)
        requires
            old(self).wf(),
            other.wf(),
            old(self)@.res == other@.res,
        ensures
            final(self).wf(),
            final(self)@.same_domain(old(self)@),
            forall|x: int, y: int, z: int|
                old(self)@.res.has(x, y, z) ==> #[trigger] final(self)@.at(x, y, z) == united_at(
                    old(self)@,
                    other@,
                    x,
                    y,
                    z,
                ),
            forall|c: ChunkCoord| #[trigger]
                final(self)@.tiles.dom().contains(c) <==> old(self)@.tiles.dom().contains(c)
                    || union_writes(old(self)@, other@, c),
    {
        let coords: Vec<ChunkCoord> = other.allocated_chunk_coords();
        let res = other.res();
        let ghost was = self@;
        let mut t: usize = 0;
        while t < coords.len()
            invariant
                t <= coords.len(),
                self.wf(),
                other.wf(),
                in_scan_order(coords@),
                forall|c: ChunkCoord| coords@.contains(c) <==> other@.tiles.dom().contains(c),
                self@.same_domain(was),
                was.res == res,
                other@.res == res,
                forall|x: int, y: int, z: int|
                    was.res.has(x, y, z) ==> #[trigger] self@.at(x, y, z) == (if listed_before(
                        coords@,
                        t as int,
                        tile_of(x, y, z),
                    ) {
                        united_at(was, other@, x, y, z)
                    } else {
                        was.at(x, y, z)
                    }),
                forall|c: ChunkCoord| #[trigger]
                    self@.tiles.dom().contains(c) ==> was.tiles.dom().contains(c) || union_writes(
                        was,
                        other@,
                        c,
                    ),
                forall|c: ChunkCoord|
                    was.tiles.dom().contains(c) ==> #[trigger] self@.tiles.dom().contains(c),
                forall|c: ChunkCoord|
                    listed_before(coords@, t as int, c) && union_writes(was, other@, c)
                        ==> #[trigger] self@.tiles.dom().contains(c),
            decreases coords.len() - t,
        {
            let c = coords[t];
            proof {
                assert(coords@.contains(c));
                other.lemma_wf_view();
                lemma_chunk_box(c, res);
            }
            self.union_chunk(other, c);
            let ghost now = self@;
            proof {
                lemma_listed_step(coords@, t as int);
            }
            t = t + 1;
        }
        proof {
            assert forall|c: ChunkCoord| other@.tiles.dom().contains(c) <==> listed_before(
                coords@,
                coords.len() as int,
                c,
            ) by {
                if other@.tiles.dom().contains(c) {
                    assert(coords@.contains(c));
                }
                if listed_before(coords@, coords.len() as int, c) {
                    assert(coords@.contains(c));
                }
            }
            assert forall|c: ChunkCoord| #[trigger]
                self@.tiles.dom().contains(c) <==> was.tiles.dom().contains(c) || union_writes(
                    was,
                    other@,
                    c,
                ) by {
                if union_writes(was, other@, c) {
                    assert(other@.tiles.dom().contains(c));
                }
            }
        }
    }

    /// The union with `other`, over the voxels of one stored chunk of it.
    fn union_chunk(&mut self, other: &Grid, c: ChunkCoord)
        requires
            old(self).wf(),
            other.wf(),
            old(self)@.res == other@.res,
            other@.tiles.dom().contains(c),
        ensures
            final(self).wf(),
            final(self)@.same_domain(old(self)@),
            forall|x: int, y: int, z: int|
                old(self)@.res.has(x, y, z) ==> #[trigger] final(self)@.at(x, y, z) == (if tile_of(
                    x,
                    y,
                    z,
                ) == c {
                    united_at(old(self)@, other@, x, y, z)
                } else {
                    old(self)@.at(x, y, z)
                }),
            forall|d: ChunkCoord| #[trigger]
                final(self)@.tiles.dom().contains(d) <==> old(self)@.tiles.dom().contains(d) || (d == c
                    && union_writes(old(self)@, other@, d)),
    {
        let res = other.res();
        proof {
            other.lemma_wf_view();
            lemma_chunk_box(c, res);
        }
        let lo = c.voxel_min();
        let hi = c.voxel_max(res);
        let n: usize = count_of(lo, hi);
        let ghost was = self@;
        let mut k: usize = 0;
        while k < n
            invariant
                k <= n,
                self.wf(),
                other.wf(),
                other@.res == res,
                was.res == res,
                other@.tiles.dom().contains(c),
                c.within(res),
                lo == chunk_lo(c),
                hi == chunk_hi(c, res),
                n == box_count(lo, hi),
                forall|x: int, y: int, z: int|
                    #![trigger in_box(lo, hi, x, y, z)]
                    in_box(lo, hi, x, y, z) <==> res.has(x, y, z) && tile_of(x, y, z) == c,
                self@.same_domain(was),
                forall|x: int, y: int, z: int|
                    res.has(x, y, z) ==> #[trigger] self@.at(x, y, z) == (if tile_of(x, y, z) == c
                        && box_number(lo, hi, x, y, z) < k {
                        united_at(was, other@, x, y, z)
                    } else {
                        was.at(x, y, z)
                    }),
                forall|d: ChunkCoord| #[trigger]
                    self@.tiles.dom().contains(d) ==> was.tiles.dom().contains(d) || (d == c
                        && union_writes(was, other@, d)),
                forall|d: ChunkCoord|
                    was.tiles.dom().contains(d) ==> #[trigger] self@.tiles.dom().contains(d),
                forall|x: int, y: int, z: int|
                    #![trigger tile_of(x, y, z)]
                    res.has(x, y, z) && tile_of(x, y, z) == c && box_number(lo, hi, x, y, z) < k && lt(
                        other@.at(x, y, z),
                        was.at(x, y, z),
                    ) ==> self@.tiles.dom().contains(c),
            decreases n - k,
        {
            let v = cell_of(lo, hi, k);
            let ghost (vx, vy, vz) = (v.x as int, v.y as int, v.z as int);
            let ghost mid = self@;
            assert(in_box(lo, hi, vx, vy, vz));
            let s: u32 = other.get(v.x, v.y, v.z);
            let d: u32 = self.get(v.x, v.y, v.z);
            assert(d == was.at(vx, vy, vz));
            if less(s, d) {
                self.set(v.x, v.y, v.z, s);
                assert(tile_of(vx, vy, vz) == c);
                assert(union_writes(was, other@, c));
            }
            proof {
                assert forall|x: int, y: int, z: int| res.has(x, y, z) implies #[trigger] self@.at(
                    x,
                    y,
                    z,
                ) == (if tile_of(x, y, z) == c && box_number(lo, hi, x, y, z) < k + 1 {
                    united_at(was, other@, x, y, z)
                } else {
                    was.at(x, y, z)
                }) by {
                    assert(mid.at(x, y, z) == mid.at(x, y, z));
                    if tile_of(x, y, z) == c && box_number(lo, hi, x, y, z) == k {
                        assert(in_box(lo, hi, x, y, z));
                        lemma_box_number(lo, hi, x, y, z);
                        assert(x == vx && y == vy && z == vz);
                    }
                }
                assert forall|x: int, y: int, z: int|
                    #![trigger tile_of(x, y, z)]
                    res.has(x, y, z) && tile_of(x, y, z) == c && box_number(lo, hi, x, y, z) < k + 1
                        && lt(other@.at(x, y, z), was.at(x, y, z)) implies self@.tiles.dom().contains(c) by {
                    if box_number(lo, hi, x, y, z) == k {
                        assert(in_box(lo, hi, x, y, z));
                        lemma_box_number(lo, hi, x, y, z);
                        assert(x == vx && y == vy && z == vz);
                    } else {
                        assert(mid.tiles.dom().contains(c));
                    }
                }
            }
            k = k + 1;
        }
        proof {
            assert forall|x: int, y: int, z: int| res.has(x, y, z) implies #[trigger] self@.at(x, y, z)
                == (if tile_of(x, y, z) == c {
                united_at(was, other@, x, y, z)
            } else {
                was.at(x, y, z)
            }) by {
                if tile_of(x, y, z) == c {
                    assert(in_box(lo, hi, x, y, z));
                    lemma_box_number(lo, hi, x, y, z);
                }
            }
            assert(union_writes(was, other@, c) ==> self@.tiles.dom().contains(c)) by {
                if union_writes(was, other@, c) {
                    let (x, y, z) = choose|x: int, y: int, z: int|
                        was.res.has(x, y, z) && lt(other@.at(x, y, z), was.at(x, y, z))
                            && #[trigger] tile_of(x, y, z) == c && other@.tiles.dom().contains(c);
                    assert(in_box(lo, hi, x, y, z));
                    lemma_box_number(lo, hi, x, y, z);
                }
            }
        }
    }
}

/// `c` is among the first `n` chunks of `s`.
pub open spec fn listed_before(s: Seq<ChunkCoord>, n: int, c: ChunkCoord) -> bool {
    exists|i: int| 0 <= i < n && #[trigger] s[i] == c
}

pub proof fn lemma_listed_step(s: Seq<ChunkCoord>, t: int)
    requires
        0 <= t < s.len(),
        in_scan_order(s),
    ensures
        forall|c: ChunkCoord| #[trigger]
            listed_before(s, t + 1, c) <==> listed_before(s, t, c) || c == s[t],
        !listed_before(s, t, s[t]),
{
    assert forall|c: ChunkCoord| #[trigger]
        listed_before(s, t + 1, c) <==> listed_before(s, t, c) || c == s[t] by {
        if listed_before(s, t, c) {
            let i = choose|i: int| 0 <= i < t && #[trigger] s[i] == c;
            assert(s[i] == c && i < t + 1);
        }
        if c == s[t] {
            assert(s[t] == c);
        }
    }
    if listed_before(s, t, s[t]) {
        let i = choose|i: int| 0 <= i < t && #[trigger] s[i] == s[t];
        assert(s[i].before(s[t]));
    }
}

/// What is put back is what was taken: inside the box of a snapshot the samples are those from
/// before, and outside it nothing changes.
pub proof fn law_snapshot_gives_back(
    start: GridView,
    now: GridView,
    s: RegionSnapshot,
    x: int,
    y: int,
    z: int,
)
    requires
        forall|a: int, b: int, c: int|
            in_box(s.lo(), s.hi(), a, b, c) ==> #[trigger] s.at(a, b, c) == start.at(a, b, c),
    ensures
        s.lo().x <= x < s.hi().x && s.lo().y <= y < s.hi().y && s.lo().z <= z < s.hi().z
            ==> restored_at(now, s, x, y, z) == start.at(x, y, z),
        !(s.lo().x <= x < s.hi().x && s.lo().y <= y < s.hi().y && s.lo().z <= z < s.hi().z)
            ==> restored_at(now, s, x, y, z) == now.at(x, y, z),
{
}

/// A union is solid where one of the two grids is, and its sample is never above either of
/// theirs where both are stored.
pub proof fn law_union_is_solid_where_either_is(g: GridView, other: GridView, x: int, y: int, z: int)
    requires
        !is_nan(g.at(x, y, z)),
    ensures
        solid(united_at(g, other, x, y, z)) <==> solid(g.at(x, y, z)) || solid(other.at(x, y, z)),
        united_at(g, other, x, y, z) == g.at(x, y, z) || united_at(g, other, x, y, z) == other.at(x, y, z),
        !lt(g.at(x, y, z), united_at(g, other, x, y, z)),
        other.tiles.dom().contains(tile_of(x, y, z)) ==> !lt(
            other.at(x, y, z),
            united_at(g, other, x, y, z),
        ),
{
}

} // verus!
