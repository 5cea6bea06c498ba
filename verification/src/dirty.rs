//! Dirty regions and the chunks they touch.

use crate::grid::{chunk_counts, in_scan_order, num_chunks, ChunkCoord};
use crate::region::in_box;
use crate::vec3::{least, UVec3};
use vstd::prelude::*;

verus! {

/// Box of dirty voxels: `min` is inside, `max` is just past it.
#[derive(Copy, Clone, Debug, PartialEq, Eq, Structural)]
pub struct DirtyRegion {
    pub min: UVec3,
    pub max: UVec3,
}

/// Along one axis: a change to voxels `lo..hi` shows in chunk `c`. A chunk
/// samples its own voxels and one more at its far end.
pub open spec fn axis_touches(lo: u32, hi: u32, count: u32, c: int) -> bool {
    &&& 0 <= c < count
    &&& c * 32 <= hi
    &&& lo <= (c + 1) * 32
}

spec fn listed(lo: UVec3, hi: UVec3, c: ChunkCoord) -> bool {
    in_box(lo, hi, c.x as int, c.y as int, c.z as int)
}

/// First chunk in which a change to voxel `v` shows.
fn first_chunk(v: u32) -> (r: u32)
    ensures
        v > 0 ==> r == (v - 1) / 32,
        v == 0 ==> r == 0,
{
    if v == 0 {
        0
    } else {
        (v - 1) / 32
    }
}

impl DirtyRegion {
    /// A change to this region shows in chunk `c` of a domain of resolution
    /// `res`.
    pub open spec fn touches(self, res: UVec3, c: ChunkCoord) -> bool {
        let n = chunk_counts(res);
        &&& axis_touches(self.min.x, self.max.x, n.x, c.x as int)
        &&& axis_touches(self.min.y, self.max.y, n.y, c.y as int)
        &&& axis_touches(self.min.z, self.max.z, n.z, c.z as int)
    }

    /// The voxel lies in this region.
    pub open spec fn has(self, x: int, y: int, z: int) -> bool {
        in_box(self.min, self.max, x, y, z)
    }

    /// The chunks in which a change to this region shows, in scan order.
    pub fn touched_chunks(&self, grid_res: UVec3) -> (r: Vec<ChunkCoord>)
        requires
            grid_res.x > 0,
            grid_res.y > 0,
            grid_res.z > 0,
        ensures
            in_scan_order(r@),
            forall|c: ChunkCoord| #[trigger] r@.contains(c) <==> self.touches(grid_res, c),
            forall|i: int| 0 <= i < r.len() ==> self.touches(grid_res, #[trigger] r@[i]),
    {
        let num = num_chunks(grid_res);
        let lo = UVec3 {
            x: first_chunk(self.min.x),
            y: first_chunk(self.min.y),
            z: first_chunk(self.min.z),
        };
        let hi = UVec3 {
            x: least(self.max.x / 32, num.x - 1) + 1,
            y: least(self.max.y / 32, num.y - 1) + 1,
            z: least(self.max.z / 32, num.z - 1) + 1,
        };
        let mut r: Vec<ChunkCoord> = Vec::new();
        let mut z: u32 = lo.z;
        while z < hi.z
            invariant
                lo.z <= z,
                z <= hi.z || hi.z < lo.z,
                hi.x <= 0x800_0000,
                hi.y <= 0x800_0000,
                hi.z <= 0x800_0000,
                in_scan_order(r@),
                forall|i: int| 0 <= i < r.len() ==> listed(lo, hi, (#[trigger] r@[i])) && r@[i].z < z,
                forall|c: ChunkCoord| listed(lo, hi, c) && c.z < z ==> #[trigger] r@.contains(c),
            decreases hi.z - z,
        {
            let mut y: u32 = lo.y;
            while y < hi.y
                invariant
                    lo.z <= z < hi.z,
                    lo.y <= y,
                    y <= hi.y || hi.y < lo.y,
                    hi.x <= 0x800_0000,
                    hi.y <= 0x800_0000,
                    in_scan_order(r@),
                    forall|i: int|
                        0 <= i < r.len() ==> listed(lo, hi, (#[trigger] r@[i])) && (r@[i].z < z || (
                        r@[i].z == z && r@[i].y < y)),
                    forall|c: ChunkCoord|
                        listed(lo, hi, c) && (c.z < z || (c.z == z && c.y < y)) ==> #[trigger] r@.contains(c),
                decreases hi.y - y,
            {
                let mut x: u32 = lo.x;
                while x < hi.x
                    invariant
                        lo.z <= z < hi.z,
                        lo.y <= y < hi.y,
                        lo.x <= x,
                        x <= hi.x || hi.x < lo.x,
                        hi.x <= 0x800_0000,
                        in_scan_order(r@),
                        forall|i: int|
                            0 <= i < r.len() ==> listed(lo, hi, (#[trigger] r@[i])) && r@[i].before(
                                ChunkCoord { x, y, z },
                            ),
                        forall|c: ChunkCoord|
                            listed(lo, hi, c) && c.before(ChunkCoord { x, y, z })
                                ==> #[trigger] r@.contains(c),
                    decreases hi.x - x,
                {
                    let ghost was = r@;
                    r.push(ChunkCoord::new(x, y, z));
                    proof {
                        assert forall|c: ChunkCoord|
                            listed(lo, hi, c) && c.before(
                                ChunkCoord { x: (x + 1) as u32, y, z },
                            ) implies #[trigger] r@.contains(c) by {
                            if c == (ChunkCoord { x, y, z }) {
                                assert(r@[was.len() as int] == c);
                            } else {
                                assert(was.contains(c));
                                let i = choose|i: int| 0 <= i < was.len() && was[i] == c;
                                assert(r@[i] == c);
                            }
                        }
                    }
                    x = x + 1;
                }
                y = y + 1;
            }
            z = z + 1;
        }
        proof {
            assert forall|c: ChunkCoord| listed(lo, hi, c) <==> self.touches(grid_res, c) by {}
            assert forall|c: ChunkCoord| #[trigger] r@.contains(c) <==> self.touches(grid_res, c) by {
                if r@.contains(c) {
                    let i = choose|i: int| 0 <= i < r.len() && r@[i] == c;
                    assert(listed(lo, hi, r@[i]));
                }
            }
        }
        r
    }
}

/// A change to a region shows in exactly those chunks of the domain that read one of its
/// voxels: a chunk reads its own voxels and one more around them on every side.
pub proof fn law_change_shows_where_it_is_read(r: DirtyRegion, res: UVec3, c: ChunkCoord)
    requires
        r.min.x < r.max.x,
        r.min.y < r.max.y,
        r.min.z < r.max.z,
    ensures
        r.touches(res, c) <==> {
            &&& c.x * 32 < res.x && c.y * 32 < res.y && c.z * 32 < res.z
            &&& exists|x: int, y: int, z: int|
                {
                    &&& #[trigger] r.has(x, y, z)
                    &&& c.x * 32 - 1 <= x <= c.x * 32 + 32
                    &&& c.y * 32 - 1 <= y <= c.y * 32 + 32
                    &&& c.z * 32 - 1 <= z <= c.z * 32 + 32
                }
        },
        forall|x: int, y: int, z: int| #[trigger]
            r.has(x, y, z) <==> r.min.x <= x < r.max.x && r.min.y <= y < r.max.y && r.min.z <= z
                < r.max.z,
{
    if r.touches(res, c) {
        let x: int = if r.min.x >= c.x * 32 - 1 { r.min.x as int } else { c.x * 32 - 1 };
        let y: int = if r.min.y >= c.y * 32 - 1 { r.min.y as int } else { c.y * 32 - 1 };
        let z: int = if r.min.z >= c.z * 32 - 1 { r.min.z as int } else { c.z * 32 - 1 };
        assert(r.has(x, y, z));
    }
}

} // verus!
