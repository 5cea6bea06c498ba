//! The native project format, `.mudclay`.
//!
//! Everything is little-endian. A file starts with a prefix that all versions
//! share: the magic, the version, a reserved word, the resolution, the voxel
//! size and the origin.
//!
//! - Version 1 goes on with the number of samples and the samples of one dense
//!   grid, x fastest.
//! - Version 2 goes on with the tile size and the stored tiles of one grid.
//! - Version 3, the one that is written, goes on with the number of layers, the
//!   index of the active layer, and for each layer its id, its name, its
//!   visibility and its stored tiles.
//!
//! A list of stored tiles is the number of tiles and, for each, its chunk
//! coordinates and its samples.

use crate::bytes::{word, word_at};
use crate::grid::{chunk_is_written, law_grid_determined, lemma_domain_count, slot_in_domain, slot_of, tile_of, ChunkCoord, Grid, GridView, CHUNK_SIZE};
use crate::region::{box_cell, box_count, box_number, lemma_box_number};
use crate::sample::FAR;
use crate::text::{decimal, push_decimal};
use crate::vec3::{BitVec3, UVec3};
use vstd::prelude::*;
use vstd::string::StringExecFns;
use vstd::utf8::{decode_utf8, valid_utf8};

verus! {

/// Version of the files that are written.
pub const VERSION: u32 = 3;

/// Length of the prefix that all versions share.
pub const HEADER_PREFIX_LEN: usize = 44;

/// Length of the header of version 1, which ends with the number of samples.
pub const HEADER_LEN: usize = 48;

/// Most layers in a file.
pub const MAX_LAYERS: usize = 256;

/// Most stored tiles in a layer.
pub const MAX_TILES: usize = 1048576;

/// Bytes of a stored tile: its coordinates and its samples.
pub const TILE_BYTES: usize = 131084;

/// The bytes that every file starts with.
pub open spec fn magic() -> Seq<u8> {
    seq![77u8, 85, 68, 67, 76, 65, 89, 0]
}

/// Failures of the source that bytes are read from.
#[derive(Copy, Clone, Debug, PartialEq, Eq, Structural)]
pub enum IoKind {
    /// The source ended before the header did.
    UnexpectedEof,
    /// Any other failure.
    Other,
}

/// Reasons why a project cannot be read.
#[derive(Copy, Clone, Debug, PartialEq, Eq, Structural)]
pub enum ReadError {
    /// The source failed.
    Io(IoKind),
    /// The magic bytes are wrong.
    BadMagic,
    /// The version is not one that can be read.
    UnsupportedVersion(u32),
    /// Declared counts or sizes do not agree.
    HeaderInconsistent,
    /// The reserved word is not zero.
    ReservedFieldSet,
    /// The file is shorter than it declares.
    Truncated,
    /// A layer name is not UTF-8.
    BadName,
}

/// Reasons why a scene cannot be written.
#[derive(Copy, Clone, Debug, PartialEq, Eq, Structural)]
pub enum WriteError {
    /// The scene has no layer.
    EmptyScene,
    /// The active layer is not one of the scene's.
    ActiveOutOfRange,
    /// The layers do not share one domain.
    DomainMismatch,
    /// The domain has no voxel.
    NoVolume,
    /// There are more layers than a file can hold.
    TooManyLayers,
    /// A layer has more tiles than a file can hold.
    TooManyTiles,
}

impl WriteError {
    /// The message for the user.
    pub open spec fn text(self) -> Seq<char> {
        match self {
            WriteError::EmptyScene => "cannot write an empty project scene"@,
            WriteError::ActiveOutOfRange => "active layer index out of range"@,
            WriteError::DomainMismatch => "all layers must share the same domain"@,
            WriteError::NoVolume => "cannot write a domain without voxels"@,
            WriteError::TooManyLayers => "a project holds at most 256 layers"@,
            WriteError::TooManyTiles => "a layer holds at most 1048576 tiles"@,
        }
    }

    /// The message for the user.
    pub fn message(&self) -> (r: &'static str)
        ensures
            r@ == self.text(),
    {
        match *self {
            WriteError::EmptyScene => "cannot write an empty project scene",
            WriteError::ActiveOutOfRange => "active layer index out of range",
            WriteError::DomainMismatch => "all layers must share the same domain",
            WriteError::NoVolume => "cannot write a domain without voxels",
            WriteError::TooManyLayers => "a project holds at most 256 layers",
            WriteError::TooManyTiles => "a layer holds at most 1048576 tiles",
        }
    }
}

/// One layer of a project.
pub struct ProjectLayer {
    pub id: u32,
    pub name: String,
    pub visible: bool,
    pub grid: Grid,
}

/// The layers of a project, and which of them is active.
pub struct ProjectScene {
    pub layers: Vec<ProjectLayer>,
    pub active: usize,
}

/// What a layer holds.
#[verifier::ext_equal]
pub struct LayerView {
    pub id: u32,
    pub name: Seq<char>,
    pub visible: bool,
    pub grid: GridView,
}

/// What a scene holds.
#[verifier::ext_equal]
pub struct SceneView {
    pub layers: Seq<LayerView>,
    pub active: int,
}

impl View for ProjectLayer {
    type V = LayerView;

    open spec fn view(&self) -> LayerView {
        LayerView { id: self.id, name: self.name@, visible: self.visible, grid: self.grid@ }
    }
}

impl View for ProjectScene {
    type V = SceneView;

    open spec fn view(&self) -> SceneView {
        SceneView {
            layers: Seq::new(self.layers@.len(), |i: int| self.layers@[i]@),
            active: self.active as int,
        }
    }
}

impl ProjectScene {
    /// Every grid of the scene is well formed.
    pub open spec fn wf(&self) -> bool {
        forall|i: int| 0 <= i < self.layers@.len() ==> (#[trigger] self.layers@[i]).grid.wf()
    }
}

/// Start of tile number `i` of the list of tiles at offset `at`.
pub open spec fn tile_start(at: int, i: int) -> int {
    at + 4 + i * 131084
}

/// Chunk coordinates of tile number `i`.
pub open spec fn tile_coord(b: Seq<u8>, at: int, i: int) -> ChunkCoord {
    let p = tile_start(at, i);
    ChunkCoord { x: word(b, p), y: word(b, p + 4), z: word(b, p + 8) }
}

/// Samples of tile number `i`; past the domain there is empty space.
pub open spec fn tile_content(b: Seq<u8>, at: int, i: int, res: UVec3, c: ChunkCoord) -> Seq<u32> {
    Seq::new(
        32768,
        |s: int|
            if slot_in_domain(res, c, s) {
                word(b, tile_start(at, i) + 12 + 4 * s)
            } else {
                FAR
            },
    )
}

/// The last of the first `n` tiles that is of chunk `c`.
pub open spec fn last_tile(b: Seq<u8>, at: int, n: nat, c: ChunkCoord) -> Option<int>
    decreases n,
{
    if n == 0 {
        None
    } else if tile_coord(b, at, n - 1) == c {
        Some(n - 1)
    } else {
        last_tile(b, at, (n - 1) as nat, c)
    }
}

/// The grid that the first `n` tiles describe: of several tiles of a chunk the
/// last counts, and tiles outside the domain are passed over.
pub open spec fn tiles_grid(
    b: Seq<u8>,
    at: int,
    n: nat,
    res: UVec3,
    voxel_size: u32,
    origin: BitVec3,
) -> GridView {
    GridView {
        res,
        voxel_size,
        origin,
        tiles: Map::new(
            |c: ChunkCoord| c.within(res) && last_tile(b, at, n, c) is Some,
            |c: ChunkCoord| tile_content(b, at, last_tile(b, at, n, c)->0, res, c),
        ),
    }
}

/// What is wrong with the list of tiles at offset `at`.
pub open spec fn tiles_error(b: Seq<u8>, at: int) -> Option<ReadError> {
    if at + 4 > b.len() {
        Some(ReadError::Truncated)
    } else if word(b, at) > 1048576 {
        Some(ReadError::HeaderInconsistent)
    } else if tile_start(at, word(b, at) as int) > b.len() {
        Some(ReadError::Truncated)
    } else {
        None
    }
}

/// What is wrong with the layer at offset `at`.
pub open spec fn layer_error(b: Seq<u8>, at: int) -> Option<ReadError> {
    let n = word(b, at + 4);
    if at + 8 > b.len() {
        Some(ReadError::Truncated)
    } else if at + 8 + n > b.len() {
        Some(ReadError::Truncated)
    } else if !valid_utf8(b.subrange(at + 8, at + 8 + n)) {
        Some(ReadError::BadName)
    } else if at + 12 + n > b.len() {
        Some(ReadError::Truncated)
    } else if word(b, at + 8 + n) > 1 {
        Some(ReadError::HeaderInconsistent)
    } else {
        tiles_error(b, at + 12 + n)
    }
}

/// Where the layer at offset `at` ends.
pub open spec fn layer_end(b: Seq<u8>, at: int) -> int {
    let tiles = at + 12 + word(b, at + 4);
    tile_start(tiles, word(b, tiles) as int)
}

/// Where layer number `i` starts.
pub open spec fn layer_start(b: Seq<u8>, i: nat) -> int
    decreases i,
{
    if i == 0 {
        52
    } else {
        layer_end(b, layer_start(b, (i - 1) as nat))
    }
}

/// The first thing wrong with the first `n` layers.
pub open spec fn layers_error(b: Seq<u8>, n: nat) -> Option<ReadError>
    decreases n,
{
    if n == 0 {
        None
    } else {
        match layers_error(b, (n - 1) as nat) {
            Some(e) => Some(e),
            None => layer_error(b, layer_start(b, (n - 1) as nat)),
        }
    }
}

pub open spec fn file_res(b: Seq<u8>) -> UVec3 {
    UVec3 { x: word(b, 16), y: word(b, 20), z: word(b, 24) }
}

pub open spec fn file_origin(b: Seq<u8>) -> BitVec3 {
    BitVec3 { x: word(b, 32), y: word(b, 36), z: word(b, 40) }
}

/// What is wrong with a file.
pub open spec fn file_error(b: Seq<u8>) -> Option<ReadError> {
    let version = word(b, 8);
    let res = file_res(b);
    if b.len() < 44 {
        Some(ReadError::Io(IoKind::UnexpectedEof))
    } else if b.subrange(0, 8) != magic() {
        Some(ReadError::BadMagic)
    } else if word(b, 12) != 0 {
        Some(ReadError::ReservedFieldSet)
    } else if version != 1 && version != 2 && version != 3 {
        Some(ReadError::UnsupportedVersion(version))
    } else if res.x == 0 || res.y == 0 || res.z == 0 {
        Some(ReadError::HeaderInconsistent)
    } else if version == 1 {
        if b.len() < 48 {
            Some(ReadError::Io(IoKind::UnexpectedEof))
        } else if word(b, 44) != res.volume() {
            Some(ReadError::HeaderInconsistent)
        } else if 48 + 4 * word(b, 44) > b.len() {
            Some(ReadError::Truncated)
        } else {
            None
        }
    } else if version == 2 {
        if b.len() < 48 {
            Some(ReadError::Truncated)
        } else if word(b, 44) != 32 {
            Some(ReadError::HeaderInconsistent)
        } else {
            tiles_error(b, 48)
        }
    } else {
        if b.len() < 52 {
            Some(ReadError::Truncated)
        } else if word(b, 44) == 0 || word(b, 44) > 256 || word(b, 48) >= word(b, 44) {
            Some(ReadError::HeaderInconsistent)
        } else {
            layers_error(b, word(b, 44) as nat)
        }
    }
}

/// The samples of a dense grid.
pub open spec fn dense_samples(b: Seq<u8>) -> Seq<u32> {
    Seq::new(word(b, 44) as nat, |k: int| word(b, 48 + 4 * k))
}

/// `g` is the dense grid of a version 1 file.
pub open spec fn is_dense_grid(b: Seq<u8>, g: GridView) -> bool {
    &&& g.wf()
    &&& g.res == file_res(b)
    &&& g.voxel_size == word(b, 28)
    &&& g.origin == file_origin(b)
    &&& forall|k: int|
        #![trigger box_cell(UVec3::zero(), g.res, k)]
        0 <= k < dense_samples(b).len() ==> ({
            let v = box_cell(UVec3::zero(), g.res, k);
            g.at(v.x as int, v.y as int, v.z as int) == dense_samples(b)[k]
        })
    &&& forall|c: ChunkCoord| #[trigger]
        g.tiles.dom().contains(c) <==> chunk_is_written(
            g.res,
            dense_samples(b),
            dense_samples(b).len() as int,
            c,
        )
}

/// The grid that the list of tiles at offset `at` describes.
pub open spec fn grid_at(b: Seq<u8>, at: int) -> GridView {
    tiles_grid(b, at, word(b, at) as nat, file_res(b), word(b, 28), file_origin(b))
}

/// The layer at offset `at`.
pub open spec fn layer_at(b: Seq<u8>, at: int) -> LayerView {
    let n = word(b, at + 4);
    LayerView {
        id: word(b, at),
        name: decode_utf8(b.subrange(at + 8, at + 8 + n)),
        visible: word(b, at + 8 + n) == 1,
        grid: grid_at(b, at + 12 + n),
    }
}

/// The scene of a single grid.
pub open spec fn single_layer(g: GridView) -> SceneView {
    SceneView {
        layers: seq![LayerView { id: 0, name: "Layer 1"@, visible: true, grid: g }],
        active: 0,
    }
}

/// `s` is the scene that a file without errors describes.
pub open spec fn describes(b: Seq<u8>, s: SceneView) -> bool {
    if word(b, 8) == 1 {
        s.layers.len() == 1 && is_dense_grid(b, s.layers[0].grid) && s == single_layer(
            s.layers[0].grid,
        )
    } else if word(b, 8) == 2 {
        s == single_layer(grid_at(b, 48))
    } else {
        s == (SceneView {
            layers: Seq::new(
                word(b, 44) as nat,
                |i: int| layer_at(b, layer_start(b, i as nat)),
            ),
            active: word(b, 48) as int,
        })
    }
}

/// The text of a run of bytes, through `String::from_utf8` of std: there is one
/// exactly when the bytes are UTF-8, and it is what they decode to.
#[verifier::external_body]
fn utf8_text(bytes: Vec<u8>) -> (r: Option<String>)
    ensures
        r is Some <==> valid_utf8(bytes@),
        r matches Some(t) ==> t@ == decode_utf8(bytes@),
{
    String::from_utf8(bytes).ok()
}

/// The word at offset `at`, if the bytes reach that far.
pub fn read_u32(b: &[u8], at: usize) -> (r: Result<u32, ReadError>)
    requires
        at <= b.len(),
    ensures
        at + 4 > b.len() ==> r == Err::<u32, ReadError>(ReadError::Truncated),
        at + 4 <= b.len() ==> r == Ok::<u32, ReadError>(word(b@, at as int)),
{
    if b.len() - at < 4 {
        Err(ReadError::Truncated)
    } else {
        Ok(word_at(b, at))
    }
}

/// The `n` bytes at offset `at`, if the bytes reach that far.
pub fn read_exact_trunc(b: &[u8], at: usize, n: usize) -> (r: Result<Vec<u8>, ReadError>)
    requires
        at <= b.len(),
    ensures
        at + n > b.len() ==> r is Err && r->Err_0 == ReadError::Truncated,
        at + n <= b.len() ==> r is Ok && r->Ok_0@ == b@.subrange(at as int, at + n),
{
    if b.len() - at < n {
        return Err(ReadError::Truncated);
    }
    let mut out: Vec<u8> = Vec::new();
    let mut i: usize = 0;
    while i < n
        invariant
            i <= n,
            at + n <= b.len(),
            out@ =~= b@.subrange(at as int, at + i),
        decreases n - i,
    {
        out.push(b[at + i]);
        i = i + 1;
    }
    Ok(out)
}

/// Whether the domain has the voxel of slot `s` of chunk `c`.
fn has_slot(res: UVec3, c: ChunkCoord, s: u32) -> (r: bool)
    requires
        s < 32768,
    ensures
        r == slot_in_domain(res, c, s as int),
{
    let x: u64 = c.x as u64 * 32 + (s % 32) as u64;
    let y: u64 = c.y as u64 * 32 + ((s / 32) % 32) as u64;
    let z: u64 = c.z as u64 * 32 + (s / 1024) as u64;
    x < res.x as u64 && y < res.y as u64 && z < res.z as u64
}

/// One more tile.
proof fn lemma_tiles_grid_step(
    b: Seq<u8>,
    at: int,
    n: nat,
    res: UVec3,
    voxel_size: u32,
    origin: BitVec3,
)
    ensures
        ({
            let c = tile_coord(b, at, n as int);
            let g = tiles_grid(b, at, n, res, voxel_size, origin);
            let h = tiles_grid(b, at, (n + 1) as nat, res, voxel_size, origin);
            &&& !c.within(res) ==> h == g
            &&& c.within(res) ==> h == (GridView {
                tiles: g.tiles.insert(c, tile_content(b, at, n as int, res, c)),
                ..g
            })
        }),
{
    let c = tile_coord(b, at, n as int);
    let g = tiles_grid(b, at, n, res, voxel_size, origin);
    let h = tiles_grid(b, at, (n + 1) as nat, res, voxel_size, origin);
    assert forall|k: ChunkCoord| k != c implies last_tile(b, at, (n + 1) as nat, k) == #[trigger] last_tile(
        b,
        at,
        n,
        k,
    ) by {}
    assert(last_tile(b, at, (n + 1) as nat, c) == Some(n as int));
    if c.within(res) {
        assert(h.tiles =~= g.tiles.insert(c, tile_content(b, at, n as int, res, c)));
    } else {
        assert(h.tiles =~= g.tiles);
    }
}

/// The grid of the list of tiles at offset `at`, and where the list ends.
fn read_sparse_tiles_into(b: &[u8], at: usize, res: UVec3, voxel_size: u32, origin: BitVec3) -> (r: Result<
    (Grid, usize),
    ReadError,
>)
    requires
        at <= b.len(),
    ensures
        r is Err <==> tiles_error(b@, at as int) is Some,
        r matches Err(e) ==> tiles_error(b@, at as int) == Some(e),
        r matches Ok(v) ==> {
            &&& v.0.wf()
            &&& v.0@ == tiles_grid(
                b@,
                at as int,
                word(b@, at as int) as nat,
                res,
                voxel_size,
                origin,
            )
            &&& v.1 == tile_start(at as int, word(b@, at as int) as int)
            &&& v.1 <= b.len()
        },
{
    let tiles: u32 = match read_u32(b, at) {
        Ok(n) => n,
        Err(e) => {
            return Err(e);
        },
    };
    if tiles as usize > MAX_TILES {
        return Err(ReadError::HeaderInconsistent);
    }
    let room: u64 = (b.len() - at - 4) as u64;
    if room < tiles as u64 * 131084 {
        return Err(ReadError::Truncated);
    }
    let mut grid = Grid::empty(res, voxel_size, origin);
    proof {
        assert(grid@.tiles =~= tiles_grid(b@, at as int, 0, res, voxel_size, origin).tiles);
    }
    let mut i: u32 = 0;
    let mut p: usize = at + 4;
    while i < tiles
        invariant
            i <= tiles <= 1048576,
            p == tile_start(at as int, i as int),
            tile_start(at as int, tiles as int) <= b.len(),
            grid.wf(),
            grid@ == tiles_grid(b@, at as int, i as nat, res, voxel_size, origin),
        decreases tiles - i,
    {
        let c = ChunkCoord { x: word_at(b, p), y: word_at(b, p + 4), z: word_at(b, p + 8) };
        proof {
            lemma_tiles_grid_step(b@, at as int, i as nat, res, voxel_size, origin);
        }
        if c.x as u64 * 32 < res.x as u64 && c.y as u64 * 32 < res.y as u64 && c.z as u64 * 32
            < res.z as u64 {
            let mut samples: Vec<u32> = Vec::new();
            let mut s: u32 = 0;
            while s < 32768
                invariant
                    s <= 32768,
                    i < tiles <= 1048576,
                    p == tile_start(at as int, i as int),
                    tile_start(at as int, tiles as int) <= b.len(),
                    samples.len() == s,
                    forall|k: int|
                        0 <= k < s ==> #[trigger] samples@[k] == tile_content(
                            b@,
                            at as int,
                            i as int,
                            res,
                            c,
                        )[k],
                decreases 32768 - s,
            {
                if has_slot(res, c, s) {
                    samples.push(word_at(b, p + 12 + 4 * s as usize));
                } else {
                    samples.push(FAR);
                }
                s = s + 1;
            }
            assert(samples@ =~= tile_content(b@, at as int, i as int, res, c));
            grid.store_tile(c, samples);
        }
        i = i + 1;
        p = p + TILE_BYTES;
    }
    Ok((grid, p))
}

impl ProjectScene {
    /// The scene of a single grid.
    pub fn from_grid(grid: Grid) -> (r: ProjectScene)
        requires
            grid.wf(),
        ensures
            r.wf(),
            r@ == single_layer(grid@),
    {
        let mut layers: Vec<ProjectLayer> = Vec::new();
        layers.push(
            ProjectLayer { id: 0, name: String::from_str("Layer 1"), visible: true, grid },
        );
        let r = ProjectScene { layers, active: 0 };
        assert(r@.layers =~= single_layer(grid@).layers);
        r
    }
}

/// The grid of a version 1 file whose header is right.
fn read_v1_body(b: &[u8], res: UVec3, voxel_size: u32, origin: BitVec3) -> (r: Result<
    Grid,
    ReadError,
>)
    requires
        b.len() >= 44,
        word(b@, 8) == 1,
        b@.subrange(0, 8) == magic(),
        word(b@, 12) == 0,
        res == file_res(b@),
        voxel_size == word(b@, 28),
        origin == file_origin(b@),
        res.x > 0,
        res.y > 0,
        res.z > 0,
    ensures
        r is Err <==> file_error(b@) is Some,
        r matches Err(e) ==> file_error(b@) == Some(e),
        r matches Ok(g) ==> g.wf() && is_dense_grid(b@, g@),
{
    if b.len() < HEADER_LEN {
        return Err(ReadError::Io(IoKind::UnexpectedEof));
    }
    let count: u32 = word_at(b, 44);
    proof {
        let (x, y, z) = (res.x as int, res.y as int, res.z as int);
        assert(0 <= x * y <= 0xffff_ffff * 0xffff_ffff) by (nonlinear_arith)
            requires
                0 <= x <= 0xffff_ffff,
                0 <= y <= 0xffff_ffff,
        ;
        assert(0 <= (x * y) * z <= 0xffff_ffff * 0xffff_ffff * 0xffff_ffff) by (nonlinear_arith)
            requires
                0 <= x * y <= 0xffff_ffff * 0xffff_ffff,
                0 <= z <= 0xffff_ffff,
        ;
    }
    let plane: u128 = res.x as u128 * res.y as u128;
    let volume: u128 = plane * res.z as u128;
    if count as u128 != volume {
        return Err(ReadError::HeaderInconsistent);
    }
    let room: u64 = (b.len() - 48) as u64;
    if room < count as u64 * 4 {
        return Err(ReadError::Truncated);
    }
    let mut samples: Vec<u32> = Vec::new();
    let mut k: u32 = 0;
    while k < count
        invariant
            k <= count,
            count == word(b@, 44),
            48 + 4 * count <= b.len(),
            samples.len() == k,
            forall|j: int| 0 <= j < k ==> #[trigger] samples@[j] == dense_samples(b@)[j],
        decreases count - k,
    {
        samples.push(word_at(b, 48 + 4 * k as usize));
        k = k + 1;
    }
    let ghost data = samples@;
    assert(data =~= dense_samples(b@));
    match Grid::from_samples(res, voxel_size, origin, samples) {
        Some(g) => {
            proof {
                g.lemma_wf_view();
            }
            Ok(g)
        },
        None => Err(ReadError::HeaderInconsistent),
    }
}

/// The layer at offset `at`, and where it ends.
fn read_layer(b: &[u8], at: usize, res: UVec3, voxel_size: u32, origin: BitVec3) -> (r: Result<
    (ProjectLayer, usize),
    ReadError,
>)
    requires
        at <= b.len(),
        res == file_res(b@),
        voxel_size == word(b@, 28),
        origin == file_origin(b@),
    ensures
        r is Err <==> layer_error(b@, at as int) is Some,
        r matches Err(e) ==> layer_error(b@, at as int) == Some(e),
        r matches Ok(v) ==> {
            &&& v.0.grid.wf()
            &&& v.0@ == layer_at(b@, at as int)
            &&& v.1 == layer_end(b@, at as int)
            &&& v.1 <= b.len()
        },
{
    let id: u32 = match read_u32(b, at) {
        Ok(n) => n,
        Err(e) => {
            return Err(e);
        },
    };
    let size: u32 = match read_u32(b, at + 4) {
        Ok(n) => n,
        Err(e) => {
            return Err(e);
        },
    };
    let n: usize = size as usize;
    let bytes: Vec<u8> = match read_exact_trunc(b, at + 8, n) {
        Ok(v) => v,
        Err(e) => {
            return Err(e);
        },
    };
    let name: String = match utf8_text(bytes) {
        Some(t) => t,
        None => {
            return Err(ReadError::BadName);
        },
    };
    let flag: u32 = match read_u32(b, at + 8 + n) {
        Ok(v) => v,
        Err(e) => {
            return Err(e);
        },
    };
    if flag > 1 {
        return Err(ReadError::HeaderInconsistent);
    }
    match read_sparse_tiles_into(b, at + 12 + n, res, voxel_size, origin) {
        Ok((grid, end)) => Ok((ProjectLayer { id, name, visible: flag == 1, grid }, end)),
        Err(e) => Err(e),
    }
}

/// The layers of a version 3 file whose header is right.
fn read_v3_body(b: &[u8], res: UVec3, voxel_size: u32, origin: BitVec3) -> (r: Result<
    ProjectScene,
    ReadError,
>)
    requires
        b.len() >= 44,
        word(b@, 8) == 3,
        b@.subrange(0, 8) == magic(),
        word(b@, 12) == 0,
        res == file_res(b@),
        voxel_size == word(b@, 28),
        origin == file_origin(b@),
        res.x > 0,
        res.y > 0,
        res.z > 0,
    ensures
        r is Err <==> file_error(b@) is Some,
        r matches Err(e) ==> file_error(b@) == Some(e),
        r matches Ok(s) ==> s.wf() && describes(b@, s@),
{
    let count: u32 = match read_u32(b, 44) {
        Ok(n) => n,
        Err(e) => {
            return Err(e);
        },
    };
    let active: u32 = match read_u32(b, 48) {
        Ok(n) => n,
        Err(e) => {
            return Err(e);
        },
    };
    if count == 0 || count as usize > MAX_LAYERS || active >= count {
        return Err(ReadError::HeaderInconsistent);
    }
    let mut layers: Vec<ProjectLayer> = Vec::new();
    let mut p: usize = 52;
    let mut i: u32 = 0;
    while i < count
        invariant
            i <= count <= 256,
            b.len() >= 52,
            word(b@, 8) == 3,
            b@.subrange(0, 8) == magic(),
            word(b@, 12) == 0,
            count == word(b@, 44),
            active == word(b@, 48),
            active < count,
            res == file_res(b@),
            voxel_size == word(b@, 28),
            origin == file_origin(b@),
            res.x > 0,
            res.y > 0,
            res.z > 0,
            p == layer_start(b@, i as nat),
            p <= b.len(),
            layers_error(b@, i as nat) is None,
            layers.len() == i,
            forall|k: int|
                0 <= k < i ==> (#[trigger] layers@[k]).grid.wf() && layers@[k]@ == layer_at(
                    b@,
                    layer_start(b@, k as nat),
                ),
        decreases count - i,
    {
        match read_layer(b, p, res, voxel_size, origin) {
            Ok((layer, end)) => {
                layers.push(layer);
                p = end;
            },
            Err(e) => {
                proof {
                    lemma_layers_error_stays(b@, (i + 1) as nat, count as nat);
                }
                return Err(e);
            },
        }
        i = i + 1;
    }
    let r = ProjectScene { layers, active: active as usize };
    proof {
        assert(r@.layers =~= Seq::new(
            word(b@, 44) as nat,
            |k: int| layer_at(b@, layer_start(b@, k as nat)),
        ));
    }
    Ok(r)
}

/// The first error stays the first error.
proof fn lemma_layers_error_stays(b: Seq<u8>, m: nat, n: nat)
    requires
        m <= n,
        layers_error(b, m) is Some,
    ensures
        layers_error(b, n) == layers_error(b, m),
    decreases n,
{
    if m < n {
        lemma_layers_error_stays(b, m, (n - 1) as nat);
    }
}

/// Read a project of any version.
pub fn read_project_scene(b: &[u8]) -> (r: Result<ProjectScene, ReadError>)
    ensures
        r is Err <==> file_error(b@) is Some,
        r matches Err(e) ==> file_error(b@) == Some(e),
        r matches Ok(s) ==> s.wf() && describes(b@, s@),
{
    if b.len() < HEADER_PREFIX_LEN {
        return Err(ReadError::Io(IoKind::UnexpectedEof));
    }
    let right: bool = b[0] == 77 && b[1] == 85 && b[2] == 68 && b[3] == 67 && b[4] == 76 && b[5] == 65
        && b[6] == 89 && b[7] == 0;
    proof {
        let m = b@.subrange(0, 8);
        if right {
            assert(m =~= magic());
        } else {
            assert(m[0] == b@[0] && m[1] == b@[1] && m[2] == b@[2] && m[3] == b@[3] && m[4] == b@[4]
                && m[5] == b@[5] && m[6] == b@[6] && m[7] == b@[7]);
        }
    }
    if !right {
        return Err(ReadError::BadMagic);
    }
    let version: u32 = word_at(b, 8);
    if word_at(b, 12) != 0 {
        return Err(ReadError::ReservedFieldSet);
    }
    if version != 1 && version != 2 && version != 3 {
        return Err(ReadError::UnsupportedVersion(version));
    }
    let res = UVec3 { x: word_at(b, 16), y: word_at(b, 20), z: word_at(b, 24) };
    let voxel_size: u32 = word_at(b, 28);
    let origin = BitVec3 { x: word_at(b, 32), y: word_at(b, 36), z: word_at(b, 40) };
    if res.x == 0 || res.y == 0 || res.z == 0 {
        return Err(ReadError::HeaderInconsistent);
    }
    if version == 1 {
        match read_v1_body(b, res, voxel_size, origin) {
            Ok(g) => Ok(ProjectScene::from_grid(g)),
            Err(e) => Err(e),
        }
    } else if version == 2 {
        match read_u32(b, 44) {
            Ok(size) => {
                if size != CHUNK_SIZE {
                    return Err(ReadError::HeaderInconsistent);
                }
            },
            Err(e) => {
                return Err(e);
            },
        }
        match read_sparse_tiles_into(b, 48, res, voxel_size, origin) {
            Ok((g, _)) => Ok(ProjectScene::from_grid(g)),
            Err(e) => Err(e),
        }
    } else {
        read_v3_body(b, res, voxel_size, origin)
    }
}

/// Read a project and keep the grid of its active layer.
pub fn read_project(b: &[u8]) -> (r: Result<Grid, ReadError>)
    ensures
        r is Err <==> file_error(b@) is Some,
        r matches Err(e) ==> file_error(b@) == Some(e),
        r matches Ok(g) ==> g.wf() && exists|s: SceneView|
            {
                &&& #[trigger] describes(b@, s)
                &&& 0 <= s.active < s.layers.len()
                &&& g@ == s.layers[s.active].grid
            },
{
    match read_project_scene(b) {
        Ok(scene) => {
            assert(scene.layers.len() == scene@.layers.len());
            let g = scene.layers[scene.active].grid.clone();
            assert(describes(b@, scene@));
            Ok(g)
        },
        Err(e) => Err(e),
    }
}

impl ReadError {
    /// The message for the user.
    pub open spec fn text(self) -> Seq<char> {
        match self {
            ReadError::Io(IoKind::UnexpectedEof) => "I/O error: failed to fill whole buffer"@,
            ReadError::Io(IoKind::Other) => "I/O error"@,
            ReadError::BadMagic => "not a MUDCLAY file (bad magic bytes)"@,
            ReadError::UnsupportedVersion(v) => "unsupported .mudclay version "@ + decimal(v as nat)
                + " (this build reads v1–v3)"@,
            ReadError::HeaderInconsistent => "header fields are inconsistent"@,
            ReadError::ReservedFieldSet => "reserved header field is non-zero"@,
            ReadError::Truncated => "file is shorter than the declared payload"@,
            ReadError::BadName => "layer name is not valid UTF-8"@,
        }
    }

    /// The message for the user.
    pub fn message(&self) -> (r: String)
        ensures
            r@ == self.text(),
    {
        match *self {
            ReadError::Io(IoKind::UnexpectedEof) => String::from_str(
                "I/O error: failed to fill whole buffer",
            ),
            ReadError::Io(IoKind::Other) => String::from_str("I/O error"),
            ReadError::BadMagic => String::from_str("not a MUDCLAY file (bad magic bytes)"),
            ReadError::UnsupportedVersion(v) => {
                let mut r = String::from_str("unsupported .mudclay version ");
                push_decimal(&mut r, v as u64);
                r.append(" (this build reads v1–v3)");
                r
            },
            ReadError::HeaderInconsistent => String::from_str("header fields are inconsistent"),
            ReadError::ReservedFieldSet => String::from_str("reserved header field is non-zero"),
            ReadError::Truncated => String::from_str("file is shorter than the declared payload"),
            ReadError::BadName => String::from_str("layer name is not valid UTF-8"),
        }
    }
}

/// A file without errors describes one scene only.
pub proof fn law_file_determines_scene(b: Seq<u8>, s: SceneView, t: SceneView)
    requires
        file_error(b) is None,
        describes(b, s),
        describes(b, t),
    ensures
        s == t,
{
    if word(b, 8) == 1 {
        let g = s.layers[0].grid;
        let h = t.layers[0].grid;
        assert(g.tiles.dom() =~= h.tiles.dom());
        lemma_domain_count(g.res);
        assert forall|x: int, y: int, z: int| g.res.has(x, y, z) implies #[trigger] g.at(x, y, z)
            == h.at(x, y, z) by {
            lemma_box_number(UVec3::zero(), g.res, x, y, z);
            let k = box_number(UVec3::zero(), g.res, x, y, z);
            let v = box_cell(UVec3::zero(), g.res, k);
            assert(v.x == x && v.y == y && v.z == z);
        }
        law_grid_determined(g, h);
    }
}

/// A file of the first version has the samples of all voxels one after the other: along x, then
/// along y, then along z.
pub proof fn law_dense_file_is_read_in_scan_order(b: Seq<u8>, g: GridView, x: int, y: int, z: int)
    requires
        is_dense_grid(b, g),
        word(b, 44) == g.res.volume(),
        g.res.has(x, y, z),
    ensures
        g.at(x, y, z) == word(b, 48 + 4 * (x + (y + z * g.res.y) * g.res.x)),
        g.res.x == word(b, 16),
        g.res.y == word(b, 20),
        g.res.z == word(b, 24),
        g.voxel_size == word(b, 28),
        g.origin.x == word(b, 32),
        g.origin.y == word(b, 36),
        g.origin.z == word(b, 40),
{
    lemma_box_number(UVec3::zero(), g.res, x, y, z);
    let k = box_number(UVec3::zero(), g.res, x, y, z);
    assert(box_count(UVec3::zero(), g.res) == g.res.volume());
    let v = box_cell(UVec3::zero(), g.res, k);
    assert(g.at(v.x as int, v.y as int, v.z as int) == dense_samples(b)[k]);
}

/// A file that is read without an error starts with the mark, is of a known version, and has a
/// voxel along every axis. In a stack there is a layer for the active one, and no more layers
/// than allowed.
pub proof fn law_readable_file_makes_sense(b: Seq<u8>)
    requires
        file_error(b) is None,
    ensures
        b.len() >= 48,
        b.subrange(0, 8) == seq![77u8, 85u8, 68u8, 67u8, 76u8, 65u8, 89u8, 0u8],
        1 <= word(b, 8) <= 3,
        word(b, 12) == 0,
        word(b, 16) > 0 && word(b, 20) > 0 && word(b, 24) > 0,
        word(b, 8) == 1 ==> word(b, 44) == word(b, 16) * word(b, 20) * word(b, 24) && b.len() >= 48 + 4
            * word(b, 44),
        word(b, 8) == 2 ==> word(b, 44) == 32 && b.len() >= 52 + 131084 * word(b, 48),
        word(b, 8) == 3 ==> word(b, 48) < word(b, 44) <= 256,
{
    assert(magic() =~= seq![77u8, 85u8, 68u8, 67u8, 76u8, 65u8, 89u8, 0u8]);
}

/// Of a tile that a file has more than once the last one counts, and a voxel is read from its
/// own place in the tile of its chunk.
pub proof fn law_tile_is_read_at_its_place(
    b: Seq<u8>,
    at: int,
    n: nat,
    res: UVec3,
    voxel_size: u32,
    origin: BitVec3,
    i: int,
    x: int,
    y: int,
    z: int,
)
    requires
        res.has(x, y, z),
        0 <= i < n,
        ({
            let p = at + 4 + i * 131084;
            &&& word(b, p) == x / 32
            &&& word(b, p + 4) == y / 32
            &&& word(b, p + 8) == z / 32
        }),
        forall|j: int|
            i < j < n ==> #[trigger] tile_coord(b, at, j) != tile_of(x, y, z),
    ensures
        tiles_grid(b, at, n, res, voxel_size, origin).at(x, y, z) == word(
            b,
            at + 16 + i * 131084 + 4 * (x % 32 + 32 * (y % 32) + 1024 * (z % 32)),
        ),
{
    let c = tile_of(x, y, z);
    assert(tile_coord(b, at, i) == c);
    lemma_last_of(b, at, n, c, i);
    let s = slot_of(x, y, z);
    let g = tiles_grid(b, at, n, res, voxel_size, origin);
    assert(g.tiles.dom().contains(c));
    assert(0 <= s < 32768);
    assert(s % 32 == x % 32 && (s / 32) % 32 == y % 32 && s / 1024 == z % 32);
    assert(slot_in_domain(res, c, s));
}

proof fn lemma_last_of(b: Seq<u8>, at: int, n: nat, c: ChunkCoord, i: int)
    requires
        0 <= i < n,
        tile_coord(b, at, i) == c,
        forall|j: int| i < j < n ==> #[trigger] tile_coord(b, at, j) != c,
    ensures
        last_tile(b, at, n, c) == Some(i),
    decreases n,
{
    if i < n - 1 {
        assert(tile_coord(b, at, n - 1) != c);
        lemma_last_of(b, at, (n - 1) as nat, c, i);
    }
}

} // verus!
