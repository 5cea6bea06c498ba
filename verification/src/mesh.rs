//! Sample lattices for meshing, and the meshes that come out.
//!
//! A mesher works on a dense box of samples with one layer of padding on every
//! side, so that it sees across chunk borders and closes the surface where the
//! domain ends.

use crate::dirty::DirtyRegion;
use crate::grid::{ChunkCoord, Grid, GridView};
use crate::region::{box_cell, box_count, box_number, cell_of, count_of, lemma_box_cell, lemma_box_number};
use crate::sample::solid;
use crate::vec3::{BitVec3, UVec3};
use fast_surface_nets::ndshape::{ConstShape, ConstShape3u32};
use vstd::prelude::*;

verus! {

/// Samples along each side of the lattice of a chunk.
pub const CHUNK_LATTICE: u32 = 34;

/// A mesh in piece-local space, ready to upload: per vertex a position, a normal
/// and a brightness, and three indices per triangle.
pub struct ExtractedMesh {
    pub positions: Vec<BitVec3>,
    pub normals: Vec<BitVec3>,
    pub cavity: Vec<u32>,
    pub indices: Vec<u32>,
}

impl ExtractedMesh {
    /// The mesh has no vertex.
    pub fn is_empty(&self) -> (r: bool)
        ensures
            r == (self.positions.len() == 0),
    {
        self.positions.len() == 0
    }
}

impl Default for ExtractedMesh {
    fn default() -> (r: ExtractedMesh)
        ensures
            r.positions@.len() == 0,
            r.normals@.len() == 0,
            r.cavity@.len() == 0,
            r.indices@.len() == 0,
    {
        ExtractedMesh {
            positions: Vec::new(),
            normals: Vec::new(),
            cavity: Vec::new(),
            indices: Vec::new(),
        }
    }
}

/// The sample at `(x, y, z)` of a lattice of the given size.
pub open spec fn lattice_at(s: Seq<u32>, size: UVec3, x: int, y: int, z: int) -> u32 {
    s[box_number(UVec3::zero(), size, x, y, z)]
}

/// The sample at a voxel, or `outside` where the domain has no such voxel.
pub open spec fn padded_at(g: GridView, outside: u32, x: int, y: int, z: int) -> u32 {
    if g.res.has(x, y, z) {
        g.at(x, y, z)
    } else {
        outside
    }
}

/// `s` is the lattice of a chunk: the chunk's voxels and one more on every side.
pub open spec fn is_chunk_lattice(s: Seq<u32>, g: GridView, c: ChunkCoord, outside: u32) -> bool {
    &&& s.len() == 39304
    &&& forall|x: int, y: int, z: int|
        0 <= x < 34 && 0 <= y < 34 && 0 <= z < 34 ==> #[trigger] lattice_at(
            s,
            chunk_lattice_size(),
            x,
            y,
            z,
        ) == padded_at(g, outside, c.x * 32 + x - 1, c.y * 32 + y - 1, c.z * 32 + z - 1)
}

pub open spec fn chunk_lattice_size() -> UVec3 {
    UVec3 { x: 34, y: 34, z: 34 }
}

/// Size of the lattice of a whole domain.
pub open spec fn full_lattice_size(res: UVec3) -> UVec3 {
    UVec3 { x: (res.x + 2) as u32, y: (res.y + 2) as u32, z: (res.z + 2) as u32 }
}

/// `s` is the lattice of a whole grid: all its voxels and one more on every side.
pub open spec fn is_full_lattice(s: Seq<u32>, g: GridView, outside: u32) -> bool {
    let size = full_lattice_size(g.res);
    &&& s.len() == size.volume()
    &&& forall|x: int, y: int, z: int|
        size.has(x, y, z) ==> #[trigger] lattice_at(s, size, x, y, z) == padded_at(
            g,
            outside,
            x - 1,
            y - 1,
            z - 1,
        )
}

/// Position of a sample in the lattice of a chunk, through
/// `ConstShape::linearize` of `ConstShape3u32<34, 34, 34>` in `ndshape`: x
/// counts once, y the length of a row, z the size of a slice.
#[verifier::external_body]
fn chunk_lattice_index(x: u32, y: u32, z: u32) -> (r: u32)
    requires
        x < 34,
        y < 34,
        z < 34,
    ensures
        r == x + 34 * y + 1156 * z,
{
    ConstShape3u32::<34, 34, 34>::linearize([x, y, z])
}

/// One coordinate of a lattice point in the domain, if the domain reaches there.
fn in_axis(start: u32, l: u32, n: u32) -> (r: Option<u32>)
    requires
        start <= 0xffff_ffe0,
        l < 34,
    ensures
        r is Some <==> 0 <= start + l - 1 < n,
        r matches Some(v) ==> v == start + l - 1,
{
    let at: u64 = start as u64 + l as u64;
    if at >= 1 && at - 1 < n as u64 {
        Some((at - 1) as u32)
    } else {
        None
    }
}

/// The lattice of one chunk. `outside` stands for the voxels that the domain
/// does not have.
pub fn chunk_samples(grid: &Grid, coord: ChunkCoord, outside: u32) -> (r: Vec<u32>)
    requires
        grid.wf(),
        coord.x <= u32::MAX / 32,
        coord.y <= u32::MAX / 32,
        coord.z <= u32::MAX / 32,
    ensures
        is_chunk_lattice(r@, grid@, coord, outside),
{
    let base = coord.voxel_min();
    let res = grid.res();
    let lo = UVec3 { x: 0, y: 0, z: 0 };
    let hi = UVec3 { x: CHUNK_LATTICE, y: CHUNK_LATTICE, z: CHUNK_LATTICE };
    assert(box_count(lo, hi) == 39304) by {
        assert(34int * 34int * 34int == 39304) by (nonlinear_arith);
    }
    let mut samples: Vec<u32> = Vec::new();
    let mut n: usize = 0;
    while n < 39304
        invariant
            n <= 39304,
            samples.len() == n,
        decreases 39304 - n,
    {
        samples.push(outside);
        n = n + 1;
    }
    let mut k: usize = 0;
    while k < 39304
        invariant
            grid.wf(),
            res == grid@.res,
            base.x == coord.x * 32,
            base.y == coord.y * 32,
            base.z == coord.z * 32,
            base.x <= 0xffff_ffe0,
            base.y <= 0xffff_ffe0,
            base.z <= 0xffff_ffe0,
            lo == UVec3::zero(),
            hi == chunk_lattice_size(),
            box_count(lo, hi) == 39304,
            k <= 39304,
            samples.len() == 39304,
            forall|x: int, y: int, z: int|
                0 <= x < 34 && 0 <= y < 34 && 0 <= z < 34 && box_number(lo, hi, x, y, z) < k
                    ==> #[trigger] lattice_at(samples@, hi, x, y, z) == padded_at(
                    grid@,
                    outside,
                    coord.x * 32 + x - 1,
                    coord.y * 32 + y - 1,
                    coord.z * 32 + z - 1,
                ),
        decreases 39304 - k,
    {
        let l = cell_of(lo, hi, k);
        let value: u32 = match (
            in_axis(base.x, l.x, res.x),
            in_axis(base.y, l.y, res.y),
            in_axis(base.z, l.z, res.z),
        ) {
            (Some(x), Some(y), Some(z)) => grid.get(x, y, z),
            _ => outside,
        };
        let i: usize = chunk_lattice_index(l.x, l.y, l.z) as usize;
        assert(i == k);
        let ghost was = samples@;
        samples.set(i, value);
        proof {
            assert forall|x: int, y: int, z: int|
                0 <= x < 34 && 0 <= y < 34 && 0 <= z < 34 && box_number(lo, hi, x, y, z) < k
                    + 1 implies #[trigger] lattice_at(samples@, hi, x, y, z) == padded_at(
                grid@,
                outside,
                coord.x * 32 + x - 1,
                coord.y * 32 + y - 1,
                coord.z * 32 + z - 1,
            ) by {
                lemma_box_number(lo, hi, x, y, z);
                if box_number(lo, hi, x, y, z) == k {
                    assert(x == l.x && y == l.y && z == l.z);
                } else {
                    assert(lattice_at(was, hi, x, y, z) == lattice_at(samples@, hi, x, y, z));
                }
            }
        }
        k = k + 1;
    }
    proof {
        assert forall|x: int, y: int, z: int| 0 <= x < 34 && 0 <= y < 34 && 0 <= z < 34 implies box_number(
            lo,
            hi,
            x,
            y,
            z,
        ) < 39304 by {
            lemma_box_number(lo, hi, x, y, z);
        }
    }
    samples
}

/// The lattice of a whole grid. `outside` stands for the voxels that the domain
/// does not have.
pub fn full_samples(grid: &Grid, outside: u32) -> (r: Vec<u32>)
    requires
        grid.wf(),
        (grid@.res.x + 2) * (grid@.res.y + 2) * (grid@.res.z + 2) <= u32::MAX,
    ensures
        is_full_lattice(r@, grid@, outside),
{
    let res = grid.res();
    proof {
        let (x, y, z) = (res.x as int, res.y as int, res.z as int);
        assert(x + 2 <= u32::MAX && y + 2 <= u32::MAX && z + 2 <= u32::MAX) by (nonlinear_arith)
            requires
                (x + 2) * (y + 2) * (z + 2) <= u32::MAX,
                x >= 0,
                y >= 0,
                z >= 0,
        ;
    }
    let lo = UVec3 { x: 0, y: 0, z: 0 };
    let hi = UVec3 { x: res.x + 2, y: res.y + 2, z: res.z + 2 };
    let count: usize = count_of(lo, hi);
    let mut samples: Vec<u32> = Vec::new();
    let mut k: usize = 0;
    while k < count
        invariant
            grid.wf(),
            res == grid@.res,
            lo == UVec3::zero(),
            hi == full_lattice_size(res),
            hi.x == res.x + 2,
            hi.y == res.y + 2,
            hi.z == res.z + 2,
            count == box_count(lo, hi),
            k <= count,
            samples.len() == k,
            forall|x: int, y: int, z: int|
                hi.has(x, y, z) && box_number(lo, hi, x, y, z) < k ==> #[trigger] lattice_at(
                    samples@,
                    hi,
                    x,
                    y,
                    z,
                ) == padded_at(grid@, outside, x - 1, y - 1, z - 1),
        decreases count - k,
    {
        let l = cell_of(lo, hi, k);
        let value: u32 = if l.x >= 1 && l.y >= 1 && l.z >= 1 && l.x - 1 < res.x && l.y - 1 < res.y
            && l.z - 1 < res.z {
            grid.get(l.x - 1, l.y - 1, l.z - 1)
        } else {
            outside
        };
        let ghost was = samples@;
        samples.push(value);
        proof {
            assert forall|x: int, y: int, z: int|
                hi.has(x, y, z) && box_number(lo, hi, x, y, z) < k + 1 implies #[trigger] lattice_at(
                samples@,
                hi,
                x,
                y,
                z,
            ) == padded_at(grid@, outside, x - 1, y - 1, z - 1) by {
                lemma_box_number(lo, hi, x, y, z);
                if box_number(lo, hi, x, y, z) == k {
                    assert(x == l.x && y == l.y && z == l.z);
                } else {
                    assert(lattice_at(was, hi, x, y, z) == lattice_at(samples@, hi, x, y, z));
                }
            }
        }
        k = k + 1;
    }
    proof {
        assert forall|x: int, y: int, z: int| hi.has(x, y, z) implies box_number(lo, hi, x, y, z)
            < count by {
            lemma_box_number(lo, hi, x, y, z);
        }
    }
    samples
}

/// `(x, y, z)` lies on the border of a lattice.
pub open spec fn on_border(size: UVec3, x: int, y: int, z: int) -> bool {
    x == 0 || y == 0 || z == 0 || x == size.x - 1 || y == size.y - 1 || z == size.z - 1
}

/// With an outside value that is not solid, nothing on the border of the lattice
/// of a whole grid is solid: the surface closes before the lattice ends.
pub proof fn law_border_is_air(s: Seq<u32>, g: GridView, outside: u32, x: int, y: int, z: int)
    requires
        is_full_lattice(s, g, outside),
        g.res.x <= u32::MAX - 2,
        g.res.y <= u32::MAX - 2,
        g.res.z <= u32::MAX - 2,
        !solid(outside),
        full_lattice_size(g.res).has(x, y, z),
        on_border(full_lattice_size(g.res), x, y, z),
    ensures
        !solid(lattice_at(s, full_lattice_size(g.res), x, y, z)),
{
}

/// The lattice of a chunk has each voxel of the chunk, and of the layer of voxels around it,
/// at one more than its distance from the first voxel of the chunk.
pub proof fn law_chunk_lattice_reads_its_voxels(
    s: Seq<u32>,
    g: GridView,
    c: ChunkCoord,
    outside: u32,
    x: int,
    y: int,
    z: int,
)
    requires
        is_chunk_lattice(s, g, c, outside),
        c.x * 32 - 1 <= x <= c.x * 32 + 32,
        c.y * 32 - 1 <= y <= c.y * 32 + 32,
        c.z * 32 - 1 <= z <= c.z * 32 + 32,
    ensures
        lattice_at(
            s,
            UVec3 { x: 34, y: 34, z: 34 },
            x - c.x * 32 + 1,
            y - c.y * 32 + 1,
            z - c.z * 32 + 1,
        ) == (if g.res.has(x, y, z) {
            g.at(x, y, z)
        } else {
            outside
        }),
{
    let (a, b, d) = (x - c.x * 32 + 1, y - c.y * 32 + 1, z - c.z * 32 + 1);
    assert(lattice_at(s, chunk_lattice_size(), a, b, d) == padded_at(
        g,
        outside,
        c.x * 32 + a - 1,
        c.y * 32 + b - 1,
        c.z * 32 + d - 1,
    ));
}

/// The lattice of a whole grid has each voxel one farther along each axis than the grid.
pub proof fn law_full_lattice_reads_every_voxel(
    s: Seq<u32>,
    g: GridView,
    outside: u32,
    x: int,
    y: int,
    z: int,
)
    requires
        is_full_lattice(s, g, outside),
        g.res.x <= u32::MAX - 2,
        g.res.y <= u32::MAX - 2,
        g.res.z <= u32::MAX - 2,
        g.res.has(x, y, z),
    ensures
        lattice_at(s, full_lattice_size(g.res), x + 1, y + 1, z + 1) == g.at(x, y, z),
{
    assert(lattice_at(s, full_lattice_size(g.res), x + 1, y + 1, z + 1) == padded_at(
        g,
        outside,
        x + 1 - 1,
        y + 1 - 1,
        z + 1 - 1,
    ));
}

/// A chunk that a change does not show in has the same lattice as before, so that its part
/// of the surface can stay as it is.
pub proof fn law_unmarked_chunk_keeps_its_lattice(
    s: Seq<u32>,
    t: Seq<u32>,
    before: GridView,
    after: GridView,
    r: DirtyRegion,
    c: ChunkCoord,
    outside: u32,
)
    requires
        is_chunk_lattice(s, before, c, outside),
        is_chunk_lattice(t, after, c, outside),
        after.same_domain(before),
        c.within(before.res),
        forall|x: int, y: int, z: int|
            before.res.has(x, y, z) && !r.has(x, y, z) ==> #[trigger] after.at(x, y, z) == before.at(
                x,
                y,
                z,
            ),
        !r.touches(before.res, c),
    ensures
        s == t,
{
    let size = chunk_lattice_size();
    let lo = UVec3::zero();
    assert forall|k: int| 0 <= k < s.len() implies #[trigger] s[k] == t[k] by {
        assert(box_count(lo, size) == 39304) by {
            assert(34 * 34 * 34 == 39304);
        }
        lemma_box_cell(lo, size, k);
        let v = box_cell(lo, size, k);
        let (a, b, d) = (v.x as int, v.y as int, v.z as int);
        let (x, y, z) = (c.x * 32 + a - 1, c.y * 32 + b - 1, c.z * 32 + d - 1);
        assert(lattice_at(s, size, a, b, d) == padded_at(before, outside, x, y, z));
        assert(lattice_at(t, size, a, b, d) == padded_at(after, outside, x, y, z));
        if r.has(x, y, z) {
            assert(c.x * 32 <= r.max.x && r.min.x <= (c.x + 1) * 32);
            assert(c.y * 32 <= r.max.y && r.min.y <= (c.y + 1) * 32);
            assert(c.z * 32 <= r.max.z && r.min.z <= (c.z + 1) * 32);
        }
        if before.res.has(x, y, z) {
            assert(after.at(x, y, z) == before.at(x, y, z));
        }
    }
    assert(s =~= t);
}

} // verus!
