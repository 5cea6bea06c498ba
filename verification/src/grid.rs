//! Sparse signed-distance grid.
//!
//! The domain is a box of voxels cut into cubic tiles. Only tiles that have
//! been written to are stored; a voxel of any other tile reads as [`FAR`],
//! which is empty space.

use crate::region::{box_cell, box_count, box_number, cell_of, count_of, in_box, lemma_box_cell, lemma_box_number, lemma_number_order, number_of, span};
use crate::sample::{solid, FAR};
use crate::vec3::{BitVec3, UVec3};
use vstd::prelude::*;

verus! {

/// Edge length of a chunk, and of a stored tile, in voxels.
pub const CHUNK_SIZE: u32 = 32;

/// Samples in one stored tile.
pub const TILE_SAMPLES: usize = 32768;

/// Chunk coordinates, in units of [`CHUNK_SIZE`] voxels.
#[derive(Copy, Clone, Debug, Hash, PartialEq, Eq, Structural)]
pub struct ChunkCoord {
    pub x: u32,
    pub y: u32,
    pub z: u32,
}

impl ChunkCoord {
    pub fn new(x: u32, y: u32, z: u32) -> (r: ChunkCoord)
        ensures
            r == (ChunkCoord { x, y, z }),
    {
        ChunkCoord { x, y, z }
    }

    /// The chunk starts inside a domain of resolution `res`.
    pub open spec fn within(self, res: UVec3) -> bool {
        &&& self.x * 32 < res.x
        &&& self.y * 32 < res.y
        &&& self.z * 32 < res.z
    }

    /// Scan order of chunks: by z, then y, then x.
    pub open spec fn before(self, other: ChunkCoord) -> bool {
        ||| self.z < other.z
        ||| self.z == other.z && self.y < other.y
        ||| self.z == other.z && self.y == other.y && self.x < other.x
    }

    /// The voxel `(x, y, z)` belongs to this chunk.
    pub open spec fn covers(self, x: int, y: int, z: int) -> bool {
        &&& self.x * 32 <= x < self.x * 32 + 32
        &&& self.y * 32 <= y < self.y * 32 + 32
        &&& self.z * 32 <= z < self.z * 32 + 32
    }

    /// First voxel of this chunk.
    pub fn voxel_min(&self) -> (r: UVec3)
        requires
            self.x <= u32::MAX / 32,
            self.y <= u32::MAX / 32,
            self.z <= u32::MAX / 32,
        ensures
            r.x == self.x * 32,
            r.y == self.y * 32,
            r.z == self.z * 32,
    {
        UVec3 { x: self.x * CHUNK_SIZE, y: self.y * CHUNK_SIZE, z: self.z * CHUNK_SIZE }
    }

    /// First voxel past this chunk, clipped to the domain.
    pub fn voxel_max(&self, grid_res: UVec3) -> (r: UVec3)
        requires
            self.x <= u32::MAX / 32,
            self.y <= u32::MAX / 32,
            self.z <= u32::MAX / 32,
        ensures
            r.x == clipped_end(self.x, grid_res.x),
            r.y == clipped_end(self.y, grid_res.y),
            r.z == clipped_end(self.z, grid_res.z),
    {
        UVec3 {
            x: chunk_end(self.x, grid_res.x),
            y: chunk_end(self.y, grid_res.y),
            z: chunk_end(self.z, grid_res.z),
        }
    }

    pub(crate) fn comes_before(&self, other: &ChunkCoord) -> (r: bool)
        ensures
            r == self.before(*other),
    {
        self.z < other.z || (self.z == other.z && (self.y < other.y || (self.y == other.y
            && self.x < other.x)))
    }
}

/// Along one axis: the first voxel past chunk `c`, or the end `n` of the domain
/// if that comes first.
pub open spec fn clipped_end(c: u32, n: u32) -> int {
    if (c + 1) * 32 < n {
        (c + 1) * 32
    } else {
        n as int
    }
}

fn chunk_end(c: u32, n: u32) -> (r: u32)
    requires
        c <= u32::MAX / 32,
    ensures
        r == clipped_end(c, n),
{
    let start: u32 = c * CHUNK_SIZE;
    if start < n && n - start > CHUNK_SIZE {
        start + CHUNK_SIZE
    } else {
        n
    }
}

/// First voxel of a chunk.
pub open spec fn chunk_lo(c: ChunkCoord) -> UVec3 {
    UVec3 { x: (c.x * 32) as u32, y: (c.y * 32) as u32, z: (c.z * 32) as u32 }
}

/// First voxel past a chunk, clipped to the domain.
pub open spec fn chunk_hi(c: ChunkCoord, res: UVec3) -> UVec3 {
    UVec3 {
        x: clipped_end(c.x, res.x) as u32,
        y: clipped_end(c.y, res.y) as u32,
        z: clipped_end(c.z, res.z) as u32,
    }
}

/// The voxels of a chunk are those of the domain that it covers.
pub proof fn lemma_chunk_box(c: ChunkCoord, res: UVec3)
    requires
        c.within(res),
    ensures
        forall|x: int, y: int, z: int|
            #![trigger in_box(chunk_lo(c), chunk_hi(c, res), x, y, z)]
            in_box(chunk_lo(c), chunk_hi(c, res), x, y, z) <==> res.has(x, y, z) && tile_of(x, y, z)
                == c,
        box_count(chunk_lo(c), chunk_hi(c, res)) <= 32768,
{
    let lo = chunk_lo(c);
    let hi = chunk_hi(c, res);
    let (sx, sy, sz) = (span(lo.x, hi.x), span(lo.y, hi.y), span(lo.z, hi.z));
    assert(0 <= sx * sy <= 1024) by (nonlinear_arith)
        requires
            0 <= sx <= 32,
            0 <= sy <= 32,
    ;
    assert((sx * sy) * sz <= 32768) by (nonlinear_arith)
        requires
            0 <= sx * sy <= 1024,
            0 <= sz <= 32,
    ;
}

/// The chunk that holds voxel `(x, y, z)`.
pub open spec fn tile_of(x: int, y: int, z: int) -> ChunkCoord {
    ChunkCoord { x: (x / 32) as u32, y: (y / 32) as u32, z: (z / 32) as u32 }
}

/// Position of voxel `(x, y, z)` in the samples of its tile.
pub open spec fn slot_of(x: int, y: int, z: int) -> int {
    x % 32 + (y % 32) * 32 + (z % 32) * 1024
}

/// What a grid holds: its domain and the samples of its stored tiles.
#[verifier::ext_equal]
pub struct GridView {
    pub res: UVec3,
    pub voxel_size: u32,
    pub origin: BitVec3,
    pub tiles: Map<ChunkCoord, Seq<u32>>,
}

impl GridView {
    /// The sample at voxel `(x, y, z)`.
    pub open spec fn at(self, x: int, y: int, z: int) -> u32 {
        if self.tiles.dom().contains(tile_of(x, y, z)) {
            self.tiles[tile_of(x, y, z)][slot_of(x, y, z)]
        } else {
            FAR
        }
    }

    /// The two grids have the same domain.
    pub open spec fn same_domain(self, other: GridView) -> bool {
        &&& self.res == other.res
        &&& self.voxel_size == other.voxel_size
        &&& self.origin == other.origin
    }

    /// Every stored tile is full, starts inside the domain, and holds [`FAR`]
    /// past the end of the domain.
    pub open spec fn wf(self) -> bool {
        &&& self.tiles.dom().finite()
        &&& forall|c: ChunkCoord| #[trigger]
            self.tiles.dom().contains(c) ==> c.within(self.res) && self.tiles[c].len() == 32768
        &&& forall|x: int, y: int, z: int| #[trigger]
            self.padding(x, y, z) ==> self.at(x, y, z) == FAR
    }

    /// Voxel `(x, y, z)` lies past the domain, in a stored tile.
    pub open spec fn padding(self, x: int, y: int, z: int) -> bool {
        &&& 0 <= x < 0x1_0000_0000
        &&& 0 <= y < 0x1_0000_0000
        &&& 0 <= z < 0x1_0000_0000
        &&& !self.res.has(x, y, z)
    }
}

/// One stored tile.
struct Tile {
    coord: ChunkCoord,
    samples: Vec<u32>,
}

/// Sparse scalar field. Samples are binary32 bit patterns of signed distances
/// in millimetres: negative inside the workpiece, positive outside.
pub struct Grid {
    res: UVec3,
    voxel_size: u32,
    origin: BitVec3,
    tiles: Vec<Tile>,
}

spec fn tiles_sorted(tiles: Seq<Tile>) -> bool {
    forall|i: int, j: int|
        0 <= i < j < tiles.len() ==> (#[trigger] tiles[i]).coord.before((#[trigger] tiles[j]).coord)
}

spec fn has_tile(tiles: Seq<Tile>, c: ChunkCoord) -> bool {
    exists|i: int| 0 <= i < tiles.len() && (#[trigger] tiles[i]).coord == c
}

spec fn tile_index(tiles: Seq<Tile>, c: ChunkCoord) -> int {
    choose|i: int| 0 <= i < tiles.len() && (#[trigger] tiles[i]).coord == c
}

spec fn tile_map(tiles: Seq<Tile>) -> Map<ChunkCoord, Seq<u32>> {
    Map::new(|c: ChunkCoord| has_tile(tiles, c), |c: ChunkCoord| tiles[tile_index(tiles, c)].samples@)
}

proof fn lemma_tile_at(tiles: Seq<Tile>, i: int)
    requires
        tiles_sorted(tiles),
        0 <= i < tiles.len(),
    ensures
        tile_map(tiles).dom().contains(tiles[i].coord),
        tile_map(tiles)[tiles[i].coord] == tiles[i].samples@,
{
    let c = tiles[i].coord;
    assert(has_tile(tiles, c));
    let j = tile_index(tiles, c);
    assert(0 <= j < tiles.len() && tiles[j].coord == c);
    if j < i {
        assert(tiles[j].coord.before(tiles[i].coord));
    } else if i < j {
        assert(tiles[i].coord.before(tiles[j].coord));
    }
}

impl View for Grid {
    type V = GridView;

    closed spec fn view(&self) -> GridView {
        GridView {
            res: self.res,
            voxel_size: self.voxel_size,
            origin: self.origin,
            tiles: tile_map(self.tiles@),
        }
    }
}

impl Grid {
    /// The grid is well formed.
    pub closed spec fn wf(&self) -> bool {
        &&& tiles_sorted(self.tiles@)
        &&& self@.wf()
    }

    /// A well formed grid holds a well formed field.
    pub broadcast proof fn lemma_wf_view(&self)
        requires
            #[trigger] self.wf(),
        ensures
            self@.wf(),
    {
    }

    /// The resolution of the domain.
    pub fn res(&self) -> (r: UVec3)
        ensures
            r == self@.res,
    {
        self.res
    }

    /// The edge length of a voxel in millimetres.
    pub fn voxel_size(&self) -> (r: u32)
        ensures
            r == self@.voxel_size,
    {
        self.voxel_size
    }

    /// The position of the first voxel in millimetres.
    pub fn origin(&self) -> (r: BitVec3)
        ensures
            r == self@.origin,
    {
        self.origin
    }

    /// A grid of empty space: no tile is stored.
    pub fn empty(res: UVec3, voxel_size: u32, origin: BitVec3) -> (r: Grid)
        ensures
            r.wf(),
            r@ == (GridView { res, voxel_size, origin, tiles: Map::empty() }),
    {
        let r = Grid { res, voxel_size, origin, tiles: Vec::new() };
        assert(r@.tiles =~= Map::empty());
        r
    }

    /// Index of the first stored tile that does not come before `c`.
    fn lower_bound(&self, c: &ChunkCoord) -> (r: usize)
        requires
            tiles_sorted(self.tiles@),
        ensures
            r <= self.tiles.len(),
            forall|i: int| 0 <= i < r ==> (#[trigger] self.tiles@[i]).coord.before(*c),
            forall|i: int| r <= i < self.tiles.len() ==> !(#[trigger] self.tiles@[i]).coord.before(*c),
    {
        let mut lo: usize = 0;
        let mut hi: usize = self.tiles.len();
        while lo < hi
            invariant
                lo <= hi <= self.tiles.len(),
                tiles_sorted(self.tiles@),
                forall|i: int| 0 <= i < lo ==> (#[trigger] self.tiles@[i]).coord.before(*c),
                forall|i: int|
                    hi <= i < self.tiles.len() ==> !(#[trigger] self.tiles@[i]).coord.before(*c),
            decreases hi - lo,
        {
            let mid: usize = lo + (hi - lo) / 2;
            if self.tiles[mid].coord.comes_before(c) {
                lo = mid + 1;
            } else {
                hi = mid;
            }
        }
        lo
    }

    /// The sample at a voxel.
    pub fn get(&self, ix: u32, iy: u32, iz: u32) -> (r: u32)
        requires
            self.wf(),
            self@.res.has(ix as int, iy as int, iz as int),
        ensures
            r == self@.at(ix as int, iy as int, iz as int),
    {
        let c = ChunkCoord { x: ix / CHUNK_SIZE, y: iy / CHUNK_SIZE, z: iz / CHUNK_SIZE };
        let at: usize = self.lower_bound(&c);
        if at < self.tiles.len() && self.tiles[at].coord.x == c.x && self.tiles[at].coord.y == c.y
            && self.tiles[at].coord.z == c.z {
            proof {
                lemma_tile_at(self.tiles@, at as int);
            }
            let slot: usize = (ix % CHUNK_SIZE) as usize + (iy % CHUNK_SIZE) as usize * 32 + (iz
                % CHUNK_SIZE) as usize * 1024;
            self.tiles[at].samples[slot]
        } else {
            proof {
                if has_tile(self.tiles@, c) {
                    let i = tile_index(self.tiles@, c);
                    if at < self.tiles.len() && i > at {
                        assert(self.tiles@[at as int].coord.before(self.tiles@[i].coord));
                    }
                }
            }
            FAR
        }
    }

    /// Write the sample at a voxel, storing its tile if need be.
    pub fn set(&mut self, ix: u32, iy: u32, iz: u32, v: u32)
        requires
            old(self).wf(),
            old(self)@.res.has(ix as int, iy as int, iz as int),
        ensures
            final(self).wf(),
            final(self)@.same_domain(old(self)@),
            final(self)@.tiles.dom() == old(self)@.tiles.dom().insert(
                tile_of(ix as int, iy as int, iz as int),
            ),
            final(self)@.at(ix as int, iy as int, iz as int) == v,
            forall|x: int, y: int, z: int|
                0 <= x < 0x1_0000_0000 && 0 <= y < 0x1_0000_0000 && 0 <= z < 0x1_0000_0000 && !(x == ix
                    && y == iy && z == iz) ==> #[trigger] final(self)@.at(x, y, z) == old(self)@.at(
                    x,
                    y,
                    z,
                ),
    {
        let c = ChunkCoord { x: ix / CHUNK_SIZE, y: iy / CHUNK_SIZE, z: iz / CHUNK_SIZE };
        let at: usize = self.lower_bound(&c);
        let ghost before = self.tiles@;
        let ghost was = self@;
        if !(at < self.tiles.len() && self.tiles[at].coord.x == c.x && self.tiles[at].coord.y == c.y
            && self.tiles[at].coord.z == c.z) {
            let fresh: Vec<u32> = vec![FAR; TILE_SAMPLES];
            self.tiles.insert(at, Tile { coord: c, samples: fresh });
            proof {
                lemma_insert_tile(before, at as int, self.tiles@[at as int]);
            }
        } else {
            proof {
                lemma_tile_at(before, at as int);
            }
        }
        let ghost mid = self.tiles@;
        proof {
            lemma_tile_at(mid, at as int);
        }
        let slot: usize = (ix % CHUNK_SIZE) as usize + (iy % CHUNK_SIZE) as usize * 32 + (iz
            % CHUNK_SIZE) as usize * 1024;
        self.tiles[at].samples[slot] = v;
        proof {
            lemma_replace_tile(mid, at as int, self.tiles@[at as int]);
            assert(self.tiles@ =~= mid.update(at as int, self.tiles@[at as int]));
            assert(self@.tiles.dom() =~= was.tiles.dom().insert(c));
            assert forall|x: int, y: int, z: int|
                0 <= x < 0x1_0000_0000 && 0 <= y < 0x1_0000_0000 && 0 <= z < 0x1_0000_0000 && !(x == ix
                    && y == iy && z == iz) implies #[trigger] self@.at(x, y, z) == was.at(x, y, z) by {
                if tile_of(x, y, z) == c && slot_of(x, y, z) == slot as int {
                    lemma_slot_injective(x, y, z, ix as int, iy as int, iz as int);
                }
                lemma_slot_range(x, y, z);
            }
            assert forall|k: ChunkCoord| #[trigger] self@.tiles.dom().contains(k) implies k.within(
                self@.res,
            ) && self@.tiles[k].len() == 32768 by {
                if k != c {
                    assert(was.tiles.dom().contains(k));
                }
            }
            assert forall|x: int, y: int, z: int| #[trigger] self@.padding(x, y, z) implies self@.at(
                x,
                y,
                z,
            ) == FAR by {
                assert(was.padding(x, y, z));
            }
        }
    }

    /// Position of a voxel in a dense buffer of the whole domain.
    pub fn idx(&self, ix: u32, iy: u32, iz: u32) -> (r: usize)
        requires
            self@.res.has(ix as int, iy as int, iz as int),
            self@.res.volume() <= usize::MAX,
        ensures
            r == ix + iy * self@.res.x + iz * self@.res.x * self@.res.y,
    {
        proof {
            lemma_domain_count(self.res);
            lemma_domain_number(self.res, ix as int, iy as int, iz as int);
        }
        number_of(UVec3 { x: 0, y: 0, z: 0 }, self.res, ix, iy, iz)
    }

    /// Number of chunks along each axis.
    pub fn num_chunks(&self) -> (r: UVec3)
        ensures
            r == chunk_counts(self@.res),
    {
        num_chunks(self.res)
    }

    /// Number of stored tiles.
    pub fn allocated_tile_count(&self) -> (r: usize)
        requires
            self.wf(),
        ensures
            r == self@.tiles.dom().len(),
    {
        proof {
            lemma_tile_count(self.tiles@);
        }
        self.tiles.len()
    }

    /// Coordinates of every stored tile, in scan order.
    pub fn allocated_chunk_coords(&self) -> (r: Vec<ChunkCoord>)
        requires
            self.wf(),
        ensures
            in_scan_order(r@),
            r.len() == self@.tiles.dom().len(),
            forall|c: ChunkCoord| r@.contains(c) <==> self@.tiles.dom().contains(c),
            forall|i: int| 0 <= i < r.len() ==> self@.tiles.dom().contains(#[trigger] r@[i]),
    {
        let mut r: Vec<ChunkCoord> = Vec::new();
        let mut i: usize = 0;
        while i < self.tiles.len()
            invariant
                self.wf(),
                i <= self.tiles.len(),
                r.len() == i,
                forall|j: int| 0 <= j < i ==> #[trigger] r@[j] == self.tiles@[j].coord,
            decreases self.tiles.len() - i,
        {
            r.push(self.tiles[i].coord);
            i = i + 1;
        }
        proof {
            lemma_tile_count(self.tiles@);
            assert forall|c: ChunkCoord| r@.contains(c) <==> self@.tiles.dom().contains(c) by {
                if self@.tiles.dom().contains(c) {
                    let k = tile_index(self.tiles@, c);
                    assert(r@[k] == c);
                }
                if r@.contains(c) {
                    let k = choose|k: int| 0 <= k < r.len() && r@[k] == c;
                    lemma_tile_at(self.tiles@, k);
                }
            }
            assert forall|j: int| 0 <= j < r.len() implies self@.tiles.dom().contains(#[trigger] r@[j]) by {
                lemma_tile_at(self.tiles@, j);
            }
        }
        r
    }
}

/// Chunks along an axis of `n` voxels.
pub open spec fn chunks_along(n: u32) -> int {
    (n + 31) / 32
}

/// Chunks along each axis of a domain.
pub open spec fn chunk_counts(res: UVec3) -> UVec3 {
    UVec3 {
        x: chunks_along(res.x) as u32,
        y: chunks_along(res.y) as u32,
        z: chunks_along(res.z) as u32,
    }
}

fn chunk_span(n: u32) -> (r: u32)
    ensures
        r == chunks_along(n),
{
    if n % CHUNK_SIZE == 0 {
        n / CHUNK_SIZE
    } else {
        n / CHUNK_SIZE + 1
    }
}

/// Chunks along each axis of a domain.
pub fn num_chunks(res: UVec3) -> (r: UVec3)
    ensures
        r == chunk_counts(res),
{
    UVec3 { x: chunk_span(res.x), y: chunk_span(res.y), z: chunk_span(res.z) }
}

/// Every chunk comes before the ones that follow it.
pub open spec fn in_scan_order(s: Seq<ChunkCoord>) -> bool {
    forall|i: int, j: int| 0 <= i < j < s.len() ==> (#[trigger] s[i]).before(#[trigger] s[j])
}

proof fn lemma_tile_count(tiles: Seq<Tile>)
    requires
        tiles_sorted(tiles),
    ensures
        tile_map(tiles).dom().finite(),
        tile_map(tiles).dom().len() == tiles.len(),
{
    let s = Seq::new(tiles.len(), |i: int| tiles[i].coord);
    assert(s.no_duplicates()) by {
        assert forall|i: int, j: int| 0 <= i < s.len() && 0 <= j < s.len() && i != j implies s[i]
            != s[j] by {
            if i < j {
                assert(tiles[i].coord.before(tiles[j].coord));
            } else {
                assert(tiles[j].coord.before(tiles[i].coord));
            }
        }
    }
    s.unique_seq_to_set();
    assert(s.to_set() =~= tile_map(tiles).dom()) by {
        assert forall|c: ChunkCoord| s.to_set().contains(c) <==> tile_map(tiles).dom().contains(c) by {
            if has_tile(tiles, c) {
                let k = tile_index(tiles, c);
                assert(s[k] == c);
            }
            if s.contains(c) {
                let k = choose|k: int| 0 <= k < s.len() && s[k] == c;
                assert(tiles[k].coord == c);
            }
        }
    }
}

/// The domain as a box has as many cells as its volume.
pub proof fn lemma_domain_count(res: UVec3)
    ensures
        box_count(UVec3::zero(), res) == res.volume(),
{
}

/// Number of a voxel in the whole domain, written out.
pub proof fn lemma_domain_number(res: UVec3, x: int, y: int, z: int)
    ensures
        res.x > 0 && res.y > 0 ==> box_number(UVec3::zero(), res, x, y, z) == x + y * res.x + z * res.x
            * res.y,
{
    let rx = res.x as int;
    let ry = res.y as int;
    assert((y + z * ry) * rx == y * rx + z * rx * ry) by (nonlinear_arith);
}

/// A well formed grid is determined by its domain, its stored tiles and the
/// samples of its voxels.
pub proof fn law_grid_determined(a: GridView, b: GridView)
    requires
        a.wf(),
        b.wf(),
        a.same_domain(b),
        a.tiles.dom() == b.tiles.dom(),
        forall|x: int, y: int, z: int|
            a.res.has(x, y, z) ==> #[trigger] a.at(x, y, z) == b.at(x, y, z),
    ensures
        a == b,
{
    assert forall|c: ChunkCoord| #[trigger] a.tiles.dom().contains(c) implies a.tiles[c] == b.tiles[c] by {
        assert(b.tiles.dom().contains(c));
        assert forall|i: int| 0 <= i < 32768 implies a.tiles[c][i] == b.tiles[c][i] by {
            let x = c.x * 32 + i % 32;
            let y = c.y * 32 + (i / 32) % 32;
            let z = c.z * 32 + i / 1024;
            assert(tile_of(x, y, z) == c);
            assert(slot_of(x, y, z) == i);
            if !a.res.has(x, y, z) {
                assert(a.padding(x, y, z) && b.padding(x, y, z));
            }
            assert(a.at(x, y, z) == b.at(x, y, z));
        }
        assert(a.tiles[c] =~= b.tiles[c]);
    }
    assert(a.tiles =~= b.tiles);
}

proof fn lemma_slot_range(x: int, y: int, z: int)
    ensures
        0 <= slot_of(x, y, z) < 32768,
{
}

/// Two voxels with the same tile and the same slot are the same voxel.
proof fn lemma_slot_injective(x: int, y: int, z: int, a: int, b: int, c: int)
    requires
        0 <= x < 0x1_0000_0000,
        0 <= y < 0x1_0000_0000,
        0 <= z < 0x1_0000_0000,
        0 <= a < 0x1_0000_0000,
        0 <= b < 0x1_0000_0000,
        0 <= c < 0x1_0000_0000,
        tile_of(x, y, z) == tile_of(a, b, c),
        slot_of(x, y, z) == slot_of(a, b, c),
    ensures
        x == a && y == b && z == c,
{
    assert(x / 32 == a / 32);
    assert(y / 32 == b / 32);
    assert(z / 32 == c / 32);
    let (p, q) = (x % 32, a % 32);
    let (r, s) = (y % 32, b % 32);
    let (t, u) = (z % 32, c % 32);
    assert(p + r * 32 + t * 1024 == q + s * 32 + u * 1024);
    assert(t == u);
    assert(r == s);
}

proof fn lemma_insert_tile(tiles: Seq<Tile>, at: int, t: Tile)
    requires
        tiles_sorted(tiles),
        0 <= at <= tiles.len(),
        forall|i: int| 0 <= i < at ==> (#[trigger] tiles[i]).coord.before(t.coord),
        forall|i: int| at <= i < tiles.len() ==> t.coord.before((#[trigger] tiles[i]).coord),
    ensures
        tiles_sorted(tiles.insert(at, t)),
        !tile_map(tiles).dom().contains(t.coord),
        tile_map(tiles.insert(at, t)) == tile_map(tiles).insert(t.coord, t.samples@),
{
    let new = tiles.insert(at, t);
    assert(tiles_sorted(new)) by {
        assert forall|i: int, j: int| 0 <= i < j < new.len() implies (#[trigger] new[i]).coord.before(
            (#[trigger] new[j]).coord,
        ) by {
            let pi = if i < at { i } else { i - 1 };
            let pj = if j < at { j } else { j - 1 };
            if i != at && j != at {
                assert(new[i] == tiles[pi] && new[j] == tiles[pj]);
            } else if i == at {
                assert(new[j] == tiles[pj]);
            } else {
                assert(new[i] == tiles[pi]);
            }
        }
    }
    assert forall|c: ChunkCoord|
        has_tile(new, c) == (has_tile(tiles, c) || c == t.coord) by {
        if has_tile(tiles, c) {
            let i = tile_index(tiles, c);
            let k = if i < at { i } else { i + 1 };
            assert(new[k] == tiles[i]);
        }
        if c == t.coord {
            assert(new[at].coord == c);
        }
        if has_tile(new, c) && c != t.coord {
            let i = tile_index(new, c);
            let k = if i < at { i } else { i - 1 };
            assert(new[i] == tiles[k]);
        }
    }
    let a = tile_map(new);
    let b = tile_map(tiles).insert(t.coord, t.samples@);
    assert(a.dom() =~= b.dom());
    assert forall|c: ChunkCoord| #[trigger] a.dom().contains(c) implies a[c] == b[c] by {
        let i = tile_index(new, c);
        lemma_tile_at(new, i);
        if i == at {
            lemma_tile_at(new, at);
        } else {
            let k = if i < at { i } else { i - 1 };
            assert(new[i] == tiles[k]);
            lemma_tile_at(tiles, k);
        }
    }
    assert(a =~= b);
}

proof fn lemma_replace_tile(tiles: Seq<Tile>, at: int, t: Tile)
    requires
        tiles_sorted(tiles),
        0 <= at < tiles.len(),
        tiles[at].coord == t.coord,
    ensures
        tiles_sorted(tiles.update(at, t)),
        tile_map(tiles.update(at, t)) == tile_map(tiles).insert(t.coord, t.samples@),
{
    let new = tiles.update(at, t);
    assert forall|i: int| 0 <= i < tiles.len() implies (#[trigger] new[i]).coord == tiles[i].coord by {}
    assert(tiles_sorted(new)) by {
        assert forall|i: int, j: int| 0 <= i < j < new.len() implies (#[trigger] new[i]).coord.before(
            (#[trigger] new[j]).coord,
        ) by {
            assert(tiles[i].coord.before(tiles[j].coord));
        }
    }
    assert forall|c: ChunkCoord| has_tile(new, c) == has_tile(tiles, c) by {
        if has_tile(tiles, c) {
            let i = tile_index(tiles, c);
            assert(new[i].coord == c);
        }
        if has_tile(new, c) {
            let i = tile_index(new, c);
            assert(tiles[i].coord == c);
        }
    }
    let a = tile_map(new);
    let b = tile_map(tiles).insert(t.coord, t.samples@);
    lemma_tile_at(tiles, at);
    assert(a.dom() =~= b.dom());
    assert forall|c: ChunkCoord| #[trigger] a.dom().contains(c) implies a[c] == b[c] by {
        let i = tile_index(new, c);
        lemma_tile_at(new, i);
        lemma_tile_at(tiles, i);
    }
    assert(a =~= b);
}

/// Some sample of chunk `c` among `data`, laid out over the whole domain, is
/// not [`FAR`].
pub open spec fn chunk_is_written(res: UVec3, data: Seq<u32>, n: int, c: ChunkCoord) -> bool {
    exists|k: int|
        0 <= k < n && #[trigger] data[k] != FAR && ({
            let v = box_cell(UVec3::zero(), res, k);
            tile_of(v.x as int, v.y as int, v.z as int) == c
        })
}

impl Grid {
    /// A grid from a dense buffer of samples, x fastest. `None` unless there is
    /// exactly one sample for each voxel. Tiles of empty space are not stored.
    pub fn from_samples(res: UVec3, voxel_size: u32, origin: BitVec3, data: Vec<u32>) -> (r: Option<
        Grid,
    >)
        ensures
            r is None <==> data.len() != res.volume(),
            r matches Some(g) ==> {
                &&& g.wf()
                &&& g@.res == res
                &&& g@.voxel_size == voxel_size
                &&& g@.origin == origin
                &&& forall|k: int|
                    #![trigger box_cell(UVec3::zero(), res, k)]
                    0 <= k < data.len() ==> ({
                        let v = box_cell(UVec3::zero(), res, k);
                        g@.at(v.x as int, v.y as int, v.z as int) == data[k]
                    })
                &&& forall|c: ChunkCoord| #[trigger]
                    g@.tiles.dom().contains(c) <==> chunk_is_written(
                        res,
                        data@,
                        data.len() as int,
                        c,
                    )
            },
    {
        proof {
            let (a, b, c) = (res.x as int, res.y as int, res.z as int);
            assert(0 <= a * b <= 0xffff_ffff * 0xffff_ffff) by (nonlinear_arith)
                requires
                    0 <= a <= 0xffff_ffff,
                    0 <= b <= 0xffff_ffff,
            ;
            assert(0 <= (a * b) * c <= 0xffff_ffff * 0xffff_ffff * 0xffff_ffff) by (nonlinear_arith)
                requires
                    0 <= a * b <= 0xffff_ffff * 0xffff_ffff,
                    0 <= c <= 0xffff_ffff,
            ;
        }
        let plane: u128 = res.x as u128 * res.y as u128;
        let expected: u128 = plane * res.z as u128;
        if data.len() as u128 != expected {
            return None;
        }
        let lo = UVec3 { x: 0, y: 0, z: 0 };
        let mut g = Grid::empty(res, voxel_size, origin);
        let mut k: usize = 0;
        while k < data.len()
            invariant
                k <= data.len(),
                lo == UVec3::zero(),
                data.len() == box_count(lo, res),
                g.wf(),
                g@.res == res,
                g@.voxel_size == voxel_size,
                g@.origin == origin,
                forall|x: int, y: int, z: int|
                    res.has(x, y, z) ==> #[trigger] g@.at(x, y, z) == (if box_number(lo, res, x, y, z)
                        < k {
                        data[box_number(lo, res, x, y, z)]
                    } else {
                        FAR
                    }),
                forall|c: ChunkCoord| #[trigger]
                    g@.tiles.dom().contains(c) <==> chunk_is_written(res, data@, k as int, c),
            decreases data.len() - k,
        {
            let v = cell_of(lo, res, k);
            let ghost before = g@;
            if data[k] != FAR {
                g.set(v.x, v.y, v.z, data[k]);
            }
            proof {
                assert forall|x: int, y: int, z: int| res.has(x, y, z) implies #[trigger] g@.at(x, y, z)
                    == (if box_number(lo, res, x, y, z) < k + 1 {
                    data[box_number(lo, res, x, y, z)]
                } else {
                    FAR
                }) by {
                    lemma_box_number(lo, res, x, y, z);
                    if box_number(lo, res, x, y, z) == k {
                        assert(x == v.x && y == v.y && z == v.z);
                    } else {
                        assert(before.at(x, y, z) == g@.at(x, y, z));
                    }
                }
                assert forall|c: ChunkCoord| #[trigger]
                    g@.tiles.dom().contains(c) <==> chunk_is_written(
                        res,
                        data@,
                        (k + 1) as int,
                        c,
                    ) by {
                    assert(before.tiles.dom().contains(c) <==> chunk_is_written(
                        res,
                        data@,
                        k as int,
                        c,
                    ));
                    if chunk_is_written(res, data@, k as int, c) {
                        let j = choose|j: int|
                            0 <= j < k && #[trigger] data[j] != FAR && ({
                                let w = box_cell(lo, res, j);
                                tile_of(w.x as int, w.y as int, w.z as int) == c
                            });
                        assert(data[j] != FAR);
                    }
                    if data[k as int] != FAR && tile_of(v.x as int, v.y as int, v.z as int) == c {
                        assert(chunk_is_written(res, data@, (k + 1) as int, c));
                    }
                }
            }
            k = k + 1;
        }
        proof {
            assert forall|j: int|
                #![trigger box_cell(UVec3::zero(), res, j)]
                0 <= j < data.len() implies ({
                let v = box_cell(UVec3::zero(), res, j);
                g@.at(v.x as int, v.y as int, v.z as int) == data[j]
            }) by {
                lemma_box_cell(lo, res, j);
            }
        }
        Some(g)
    }

    /// Every sample of the domain, x fastest.
    pub fn to_dense(&self) -> (r: Vec<u32>)
        requires
            self.wf(),
            self@.res.volume() <= usize::MAX,
        ensures
            r.len() == self@.res.volume(),
            forall|k: int|
                0 <= k < r.len() ==> #[trigger] r[k] == ({
                    let v = box_cell(UVec3::zero(), self@.res, k);
                    self@.at(v.x as int, v.y as int, v.z as int)
                }),
    {
        let lo = UVec3 { x: 0, y: 0, z: 0 };
        let n: usize = count_of(lo, self.res);
        let mut r: Vec<u32> = Vec::new();
        let mut k: usize = 0;
        while k < n
            invariant
                k <= n,
                self.wf(),
                lo == UVec3::zero(),
                n == box_count(lo, self@.res),
                r.len() == k,
                forall|j: int|
                    0 <= j < k ==> #[trigger] r[j] == ({
                        let v = box_cell(UVec3::zero(), self@.res, j);
                        self@.at(v.x as int, v.y as int, v.z as int)
                    }),
            decreases n - k,
        {
            let v = cell_of(lo, self.res, k);
            r.push(self.get(v.x, v.y, v.z));
            k = k + 1;
        }
        r
    }
}

impl Clone for Grid {
    fn clone(&self) -> (r: Grid)
        ensures
            self.wf() ==> r.wf() && r@ == self@,
    {
        let mut tiles: Vec<Tile> = Vec::new();
        let mut i: usize = 0;
        while i < self.tiles.len()
            invariant
                i <= self.tiles.len(),
                tiles.len() == i,
                forall|j: int|
                    0 <= j < i ==> (#[trigger] tiles@[j]).coord == self.tiles@[j].coord
                        && tiles@[j].samples@ == self.tiles@[j].samples@,
            decreases self.tiles.len() - i,
        {
            let samples: Vec<u32> = self.tiles[i].samples.clone();
            assert(samples@ =~= self.tiles@[i as int].samples@);
            tiles.push(Tile { coord: self.tiles[i].coord, samples });
            i = i + 1;
        }
        let r = Grid { res: self.res, voxel_size: self.voxel_size, origin: self.origin, tiles };
        proof {
            let a = r.tiles@;
            let b = self.tiles@;
            if self.wf() {
                assert forall|k: int, l: int| 0 <= k < l < a.len() implies (#[trigger] a[k]).coord.before(
                    (#[trigger] a[l]).coord,
                ) by {
                    assert(b[k].coord.before(b[l].coord));
                }
                assert forall|c: ChunkCoord| has_tile(a, c) == has_tile(b, c) by {
                    if has_tile(a, c) {
                        let k = tile_index(a, c);
                        assert(b[k].coord == c);
                    }
                    if has_tile(b, c) {
                        let k = tile_index(b, c);
                        assert(a[k].coord == c);
                    }
                }
                assert forall|c: ChunkCoord| #[trigger] tile_map(a).dom().contains(c) implies tile_map(
                    a,
                )[c] == tile_map(b)[c] by {
                    let k = tile_index(a, c);
                    lemma_tile_at(a, k);
                    lemma_tile_at(b, k);
                }
                assert(tile_map(a) =~= tile_map(b));
            }
        }
        r
    }
}

/// The domain has the voxel of slot `s` of chunk `c`.
pub open spec fn slot_in_domain(res: UVec3, c: ChunkCoord, s: int) -> bool {
    res.has(c.x * 32 + s % 32, c.y * 32 + (s / 32) % 32, c.z * 32 + s / 1024)
}

impl Grid {
    /// The samples of a stored tile, x fastest.
    pub fn tile_samples(&self, c: ChunkCoord) -> (r: &Vec<u32>)
        requires
            self.wf(),
            self@.tiles.dom().contains(c),
        ensures
            r@ == self@.tiles[c],
    {
        let at: usize = self.lower_bound(&c);
        proof {
            let k = tile_index(self.tiles@, c);
            assert(has_tile(self.tiles@, c));
            assert(0 <= k < self.tiles.len() && self.tiles@[k].coord == c);
            if at < k {
                assert(self.tiles@[at as int].coord.before(self.tiles@[k].coord));
            }
            lemma_tile_at(self.tiles@, at as int);
        }
        &self.tiles[at].samples
    }

    /// Store a whole tile.
    pub fn store_tile(&mut self, c: ChunkCoord, samples: Vec<u32>)
        requires
            old(self).wf(),
            c.within(old(self)@.res),
            samples.len() == TILE_SAMPLES,
            forall|s: int|
                0 <= s < samples.len() && !slot_in_domain(old(self)@.res, c, s) ==> #[trigger] samples@[s]
                    == FAR,
        ensures
            final(self).wf(),
            final(self)@ == (GridView {
                tiles: old(self)@.tiles.insert(c, samples@),
                ..old(self)@
            }),
    {
        let at: usize = self.lower_bound(&c);
        let ghost before = self.tiles@;
        let ghost was = self@;
        let ghost data = samples@;
        let known: bool = at < self.tiles.len() && self.tiles[at].coord.x == c.x
            && self.tiles[at].coord.y == c.y && self.tiles[at].coord.z == c.z;
        if known {
            self.tiles[at].samples = samples;
            proof {
                assert(self.tiles@ =~= before.update(at as int, self.tiles@[at as int]));
                lemma_replace_tile(before, at as int, self.tiles@[at as int]);
            }
        } else {
            self.tiles.insert(at, Tile { coord: c, samples });
            proof {
                lemma_insert_tile(before, at as int, self.tiles@[at as int]);
            }
        }
        proof {
            let now = self@;
            assert(now.tiles =~= was.tiles.insert(c, data));
            assert forall|x: int, y: int, z: int| #[trigger] now.padding(x, y, z) implies now.at(x, y, z)
                == FAR by {
                assert(was.padding(x, y, z));
                if tile_of(x, y, z) == c {
                    let s = slot_of(x, y, z);
                    lemma_slot_range(x, y, z);
                    lemma_slot_voxel(x, y, z);
                    assert(!slot_in_domain(was.res, c, s));
                }
            }
            assert forall|k: ChunkCoord| #[trigger] now.tiles.dom().contains(k) implies k.within(
                now.res,
            ) && now.tiles[k].len() == 32768 by {
                if k != c {
                    assert(was.tiles.dom().contains(k));
                }
            }
        }
    }
}

/// The voxel of a slot.
proof fn lemma_slot_voxel(x: int, y: int, z: int)
    requires
        0 <= x < 0x1_0000_0000,
        0 <= y < 0x1_0000_0000,
        0 <= z < 0x1_0000_0000,
    ensures
        ({
            let c = tile_of(x, y, z);
            let s = slot_of(x, y, z);
            &&& c.x * 32 + s % 32 == x
            &&& c.y * 32 + (s / 32) % 32 == y
            &&& c.z * 32 + s / 1024 == z
        }),
{
}

/// The chunks share out the domain: a voxel belongs to one chunk, which starts inside the
/// domain, and every chunk that starts inside the domain is counted.
pub proof fn law_chunks_share_out_the_domain(res: UVec3, c: ChunkCoord, x: int, y: int, z: int)
    requires
        res.has(x, y, z),
    ensures
        c == tile_of(x, y, z) <==> {
            &&& c.x * 32 <= x < c.x * 32 + 32
            &&& c.y * 32 <= y < c.y * 32 + 32
            &&& c.z * 32 <= z < c.z * 32 + 32
        },
        c.covers(x, y, z) <==> c == tile_of(x, y, z),
        tile_of(x, y, z).within(res),
        c.within(res) <==> c.x < chunk_counts(res).x && c.y < chunk_counts(res).y && c.z
            < chunk_counts(res).z,
        c.within(res) ==> (in_box(chunk_lo(c), chunk_hi(c, res), x, y, z) <==> c == tile_of(x, y, z)),
{
}

/// Within its chunk a voxel has a place of its own: next to it along x comes the next place,
/// along y the one 32 places on, and along z the one 1024 places on.
pub proof fn law_each_voxel_has_its_place(x: int, y: int, z: int, a: int, b: int, c: int)
    requires
        0 <= x < 0x1_0000_0000,
        0 <= y < 0x1_0000_0000,
        0 <= z < 0x1_0000_0000,
        0 <= a < 0x1_0000_0000,
        0 <= b < 0x1_0000_0000,
        0 <= c < 0x1_0000_0000,
    ensures
        0 <= slot_of(x, y, z) < 32768,
        tile_of(x, y, z) == tile_of(a, b, c) ==> slot_of(a, b, c) - slot_of(x, y, z) == (a - x) + 32 * (
        b - y) + 1024 * (c - z),
        tile_of(x, y, z) == tile_of(a, b, c) && slot_of(x, y, z) == slot_of(a, b, c) ==> x == a && y
            == b && z == c,
{
    if tile_of(x, y, z) == tile_of(a, b, c) {
        assert(x / 32 == a / 32 && y / 32 == b / 32 && z / 32 == c / 32);
        if slot_of(x, y, z) == slot_of(a, b, c) {
            lemma_slot_injective(x, y, z, a, b, c);
        }
    }
}

/// Where no tile is stored the space is far from any surface, and not solid.
pub proof fn law_missing_tile_is_far(g: GridView, x: int, y: int, z: int)
    requires
        !g.tiles.dom().contains(tile_of(x, y, z)),
    ensures
        g.at(x, y, z) == FAR,
        !solid(g.at(x, y, z)),
{
}

/// Chunks come in scan order, x fastest, then y, then z, and any two of them have an order.
pub proof fn law_chunks_come_in_scan_order(counts: UVec3, a: ChunkCoord, b: ChunkCoord)
    requires
        counts.has(a.x as int, a.y as int, a.z as int),
        counts.has(b.x as int, b.y as int, b.z as int),
    ensures
        a.before(b) <==> a.x + (a.y + a.z * counts.y) * counts.x < b.x + (b.y + b.z * counts.y)
            * counts.x,
        a != b ==> a.before(b) != b.before(a),
        !a.before(a),
{
    lemma_number_order(
        UVec3::zero(),
        counts,
        a.x as int,
        a.y as int,
        a.z as int,
        b.x as int,
        b.y as int,
        b.z as int,
    );
}

} // verus!
