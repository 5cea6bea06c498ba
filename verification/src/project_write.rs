//! Writing projects, always in version 3, and what reading one back gives.

use crate::bytes::{holds_at, le32, lemma_holds_split, lemma_word_in_run, lemma_word_of_le32, lemma_words_len, push_bytes, push_u32, push_words, word, words_bytes};
use crate::grid::{in_scan_order, slot_in_domain, slot_of, tile_of, ChunkCoord, Grid, GridView};
use crate::project::{describes, file_error, file_origin, file_res, last_tile, layer_at, layer_end, layer_error, layer_start, layers_error, magic, single_layer, tile_coord, tile_start, tiles_error, tiles_grid, LayerView, ProjectLayer, ProjectScene, SceneView, WriteError, MAX_LAYERS, MAX_TILES, TILE_BYTES, VERSION};
use crate::sample::{has_moved, moved, num_eq, same_number, FAR};
use crate::vec3::{BitVec3, UVec3};
use vstd::prelude::*;
use vstd::string::StringExecFns;
use vstd::utf8::{decode_utf8, encode_utf8, encode_utf8_decode_utf8, encode_utf8_valid_utf8, is_ascii_chars, is_ascii_chars_encode_utf8};

verus! {

/// `list` holds the stored tiles of `g`, in scan order.
pub open spec fn lists_tiles(list: Seq<ChunkCoord>, g: GridView) -> bool {
    &&& in_scan_order(list)
    &&& forall|c: ChunkCoord| #[trigger] list.contains(c) <==> g.tiles.dom().contains(c)
}

/// The stored tiles of a grid, in scan order.
pub open spec fn tile_list(g: GridView) -> Seq<ChunkCoord> {
    choose|list: Seq<ChunkCoord>| lists_tiles(list, g)
}

/// The bytes of one stored tile.
pub open spec fn tile_bytes(c: ChunkCoord, samples: Seq<u32>) -> Seq<u8> {
    le32(c.x) + le32(c.y) + le32(c.z) + words_bytes(samples)
}

/// The bytes of the first `n` tiles of a list.
pub open spec fn tiles_bytes(g: GridView, list: Seq<ChunkCoord>, n: nat) -> Seq<u8>
    decreases n,
{
    if n == 0 {
        Seq::empty()
    } else {
        tiles_bytes(g, list, (n - 1) as nat) + tile_bytes(list[n - 1], g.tiles[list[n - 1]])
    }
}

/// The bytes of the stored tiles of a grid, with their number in front.
pub open spec fn grid_bytes(g: GridView) -> Seq<u8> {
    let list = tile_list(g);
    le32(list.len() as u32) + tiles_bytes(g, list, list.len())
}

/// The bytes of a layer.
pub open spec fn layer_bytes(l: LayerView) -> Seq<u8> {
    le32(l.id) + le32(encode_utf8(l.name).len() as u32) + encode_utf8(l.name) + le32(
        if l.visible {
            1
        } else {
            0
        },
    ) + grid_bytes(l.grid)
}

/// The bytes of the first `n` layers.
pub open spec fn layers_bytes(layers: Seq<LayerView>, n: nat) -> Seq<u8>
    decreases n,
{
    if n == 0 {
        Seq::empty()
    } else {
        layers_bytes(layers, (n - 1) as nat) + layer_bytes(layers[n - 1])
    }
}

/// The bytes of the prefix that all versions share.
pub open spec fn prefix_bytes(version: u32, res: UVec3, voxel_size: u32, origin: BitVec3) -> Seq<u8> {
    magic() + words_bytes(
        seq![
            version,
            0,
            res.x,
            res.y,
            res.z,
            voxel_size,
            origin.x,
            origin.y,
            origin.z,
        ],
    )
}

/// The bytes of a scene.
pub open spec fn scene_bytes(s: SceneView) -> Seq<u8> {
    let g = s.layers[0].grid;
    prefix_bytes(3, g.res, g.voxel_size, g.origin) + le32(s.layers.len() as u32) + le32(
        s.active as u32,
    ) + layers_bytes(s.layers, s.layers.len())
}

/// The two grids can stand in one project: same resolution, voxel sizes that
/// are the same up to a millionth, and numerically equal origins.
pub open spec fn shares_domain(a: GridView, b: GridView) -> bool {
    &&& a.res == b.res
    &&& !moved(a.voxel_size, b.voxel_size)
    &&& num_eq(a.origin.x, b.origin.x)
    &&& num_eq(a.origin.y, b.origin.y)
    &&& num_eq(a.origin.z, b.origin.z)
}

/// Why a scene cannot be written: it is no scene, or a file could not hold it in a way
/// that can be read again.
pub open spec fn scene_error(s: SceneView) -> Option<WriteError> {
    if s.layers.len() == 0 {
        Some(WriteError::EmptyScene)
    } else if s.active >= s.layers.len() {
        Some(WriteError::ActiveOutOfRange)
    } else if exists|i: int|
        0 <= i < s.layers.len() && !shares_domain(
            (#[trigger] s.layers[i]).grid,
            s.layers[0].grid,
        ) {
        Some(WriteError::DomainMismatch)
    } else if s.layers[0].grid.res.x == 0 || s.layers[0].grid.res.y == 0
        || s.layers[0].grid.res.z == 0 {
        Some(WriteError::NoVolume)
    } else if s.layers.len() > MAX_LAYERS {
        Some(WriteError::TooManyLayers)
    } else if exists|i: int|
        0 <= i < s.layers.len() && (#[trigger] s.layers[i]).grid.tiles.dom().len() > MAX_TILES {
        Some(WriteError::TooManyTiles)
    } else {
        None
    }
}

/// The active layer has a place in the stack, and every layer a well formed grid.
pub open spec fn is_stack(s: SceneView) -> bool {
    &&& 0 <= s.active
    &&& forall|i: int| 0 <= i < s.layers.len() ==> (#[trigger] s.layers[i]).grid.wf()
}

/// The word in front of each name can count its bytes.
pub open spec fn names_counted(s: SceneView) -> bool {
    forall|i: int|
        0 <= i < s.layers.len() ==> encode_utf8((#[trigger] s.layers[i]).name).len() <= u32::MAX
}

/// A scan-ordered list is determined by what it holds.
proof fn lemma_list_unique(a: Seq<ChunkCoord>, b: Seq<ChunkCoord>)
    requires
        in_scan_order(a),
        in_scan_order(b),
        forall|c: ChunkCoord| #[trigger] a.contains(c) <==> b.contains(c),
    ensures
        a == b,
    decreases a.len(),
{
    if a.len() == 0 {
        if b.len() > 0 {
            assert(b.contains(b[0]));
            assert(a.contains(b[0]));
        }
        assert(a =~= b);
    } else {
        assert(a.contains(a.last()));
        assert(b.contains(a.last()));
        assert(b.contains(b.last()));
        assert(a.contains(b.last()));
        let i = choose|i: int| 0 <= i < a.len() && a[i] == b.last();
        let j = choose|j: int| 0 <= j < b.len() && b[j] == a.last();
        if i < a.len() - 1 {
            assert(a[i].before(a[a.len() - 1]));
            if j < b.len() - 1 {
                assert(b[j].before(b[b.len() - 1]));
            }
        }
        assert(a.last() == b.last());
        let p = a.drop_last();
        let q = b.drop_last();
        assert forall|c: ChunkCoord| #[trigger] p.contains(c) <==> q.contains(c) by {
            if p.contains(c) {
                let k = choose|k: int| 0 <= k < p.len() && p[k] == c;
                assert(a[k].before(a[a.len() - 1]));
                assert(a.contains(a[k]));
                let m = choose|m: int| 0 <= m < b.len() && b[m] == c;
                assert(q[m] == c);
            }
            if q.contains(c) {
                let k = choose|k: int| 0 <= k < q.len() && q[k] == c;
                assert(b[k].before(b[b.len() - 1]));
                assert(b.contains(b[k]));
                assert(a.contains(c));
                let m = choose|m: int| 0 <= m < a.len() && a[m] == c;
                assert(p[m] == c);
            }
        }
        lemma_list_unique(p, q);
        assert(a =~= p.push(a.last()));
        assert(b =~= q.push(b.last()));
    }
}

/// What lists the tiles of a grid is its list of tiles.
proof fn lemma_tile_list(list: Seq<ChunkCoord>, g: GridView)
    requires
        lists_tiles(list, g),
    ensures
        list == tile_list(g),
{
    let other = tile_list(g);
    assert(lists_tiles(other, g));
    assert forall|c: ChunkCoord| #[trigger] list.contains(c) <==> other.contains(c) by {
        assert(list.contains(c) <==> g.tiles.dom().contains(c));
        assert(other.contains(c) <==> g.tiles.dom().contains(c));
    }
    lemma_list_unique(list, other);
}

/// Add the stored tiles of a grid, with their number in front.
fn write_sparse_tiles(grid: &Grid, out: &mut Vec<u8>)
    requires
        grid.wf(),
    ensures
        final(out)@ == old(out)@ + grid_bytes(grid@),
{
    let ghost was = out@;
    let coords = grid.allocated_chunk_coords();
    proof {
        assert(lists_tiles(coords@, grid@));
        lemma_tile_list(coords@, grid@);
    }
    push_u32(out, #[verifier::truncate] (coords.len() as u32));
    let ghost head = out@;
    assert(head =~= head + tiles_bytes(grid@, coords@, 0));
    let mut i: usize = 0;
    while i < coords.len()
        invariant
            grid.wf(),
            i <= coords.len(),
            lists_tiles(coords@, grid@),
            out@ == head + tiles_bytes(grid@, coords@, i as nat),
        decreases coords.len() - i,
    {
        let c = coords[i];
        assert(coords@.contains(c));
        push_u32(out, c.x);
        push_u32(out, c.y);
        push_u32(out, c.z);
        push_words(out, grid.tile_samples(c));
        assert(out@ =~= head + tiles_bytes(grid@, coords@, (i + 1) as nat));
        i = i + 1;
    }
    assert(out@ =~= was + grid_bytes(grid@));
}

/// Add the prefix that all versions share.
fn write_common_header(out: &mut Vec<u8>, version: u32, res: UVec3, voxel_size: u32, origin: BitVec3)
    ensures
        final(out)@ == old(out)@ + prefix_bytes(version, res, voxel_size, origin),
{
    let ghost was = out@;
    out.push(77);
    out.push(85);
    out.push(68);
    out.push(67);
    out.push(76);
    out.push(65);
    out.push(89);
    out.push(0);
    assert(out@ =~= was + magic());
    let mut words: Vec<u32> = Vec::new();
    words.push(version);
    words.push(0);
    words.push(res.x);
    words.push(res.y);
    words.push(res.z);
    words.push(voxel_size);
    words.push(origin.x);
    words.push(origin.y);
    words.push(origin.z);
    push_words(out, &words);
    assert(words@ =~= seq![
        version,
        0,
        res.x,
        res.y,
        res.z,
        voxel_size,
        origin.x,
        origin.y,
        origin.z,
    ]);
    assert(out@ =~= was + prefix_bytes(version, res, voxel_size, origin));
}

/// Add a layer.
fn write_layer(layer: &ProjectLayer, out: &mut Vec<u8>)
    requires
        layer.grid.wf(),
    ensures
        final(out)@ == old(out)@ + layer_bytes(layer@),
{
    let ghost was = out@;
    push_u32(out, layer.id);
    let name: &[u8] = layer.name.as_str().as_bytes();
    assert(name@.subrange(0, name.len() as int) =~= encode_utf8(layer.name@));
    push_u32(out, #[verifier::truncate] (name.len() as u32));
    push_bytes(out, name, name.len());
    let flag: u32 = if layer.visible {
        1
    } else {
        0
    };
    push_u32(out, flag);
    write_sparse_tiles(&layer.grid, out);
    assert(out@ =~= was + layer_bytes(layer@));
}

/// Whether a grid can stand in one project with another.
fn same_project_domain(a: &Grid, b: &Grid) -> (r: bool)
    ensures
        r == shares_domain(a@, b@),
{
    let (p, q) = (a.res(), b.res());
    let (o, u) = (a.origin(), b.origin());
    p.x == q.x && p.y == q.y && p.z == q.z && !has_moved(a.voxel_size(), b.voxel_size())
        && same_number(o.x, u.x) && same_number(o.y, u.y) && same_number(o.z, u.z)
}

/// The first layer whose tiles a file cannot hold.
fn crowded_layer(scene: &ProjectScene) -> (r: Option<usize>)
    requires
        scene.wf(),
    ensures
        match r {
            Some(k) => k < scene.layers.len() && scene@.layers[k as int].grid.tiles.dom().len()
                > MAX_TILES,
            None => forall|i: int|
                0 <= i < scene.layers.len() ==> (#[trigger] scene@.layers[i]).grid.tiles.dom().len()
                    <= MAX_TILES,
        },
{
    let mut i: usize = 0;
    while i < scene.layers.len()
        invariant
            scene.wf(),
            i <= scene.layers.len(),
            forall|k: int|
                0 <= k < i ==> (#[trigger] scene@.layers[k]).grid.tiles.dom().len() <= MAX_TILES,
        decreases scene.layers.len() - i,
    {
        assert(scene@.layers[i as int] == scene.layers@[i as int]@);
        if scene.layers[i].grid.allocated_tile_count() > MAX_TILES {
            return Some(i);
        }
        i = i + 1;
    }
    None
}

/// Why a scene cannot be written, if it cannot.
fn find_error(scene: &ProjectScene) -> (r: Option<WriteError>)
    requires
        scene.wf(),
    ensures
        r == scene_error(scene@),
{
    if scene.layers.len() == 0 {
        return Some(WriteError::EmptyScene);
    }
    if scene.active >= scene.layers.len() {
        return Some(WriteError::ActiveOutOfRange);
    }
    let mut i: usize = 0;
    while i < scene.layers.len()
        invariant
            i <= scene.layers.len(),
            scene.layers.len() > 0,
            scene.active < scene.layers.len(),
            forall|k: int|
                0 <= k < i ==> shares_domain(
                    (#[trigger] scene.layers@[k]).grid@,
                    scene.layers@[0].grid@,
                ),
        decreases scene.layers.len() - i,
    {
        if !same_project_domain(&scene.layers[i].grid, &scene.layers[0].grid) {
            assert(!shares_domain(scene@.layers[i as int].grid, scene@.layers[0].grid));
            return Some(WriteError::DomainMismatch);
        }
        i = i + 1;
    }
    assert forall|k: int| 0 <= k < scene@.layers.len() implies shares_domain(
        (#[trigger] scene@.layers[k]).grid,
        scene@.layers[0].grid,
    ) by {
        assert(scene@.layers[k] == scene.layers@[k]@);
    }
    let first = &scene.layers[0].grid;
    let res = first.res();
    if res.x == 0 || res.y == 0 || res.z == 0 {
        return Some(WriteError::NoVolume);
    }
    if scene.layers.len() > MAX_LAYERS {
        return Some(WriteError::TooManyLayers);
    }
    match crowded_layer(scene) {
        Some(k) => {
            assert(scene@.layers[k as int].grid.tiles.dom().len() > MAX_TILES);
            return Some(WriteError::TooManyTiles);
        },
        None => {},
    }
    None
}

/// Write the bytes of a scene.
fn write_checked(scene: &ProjectScene) -> (r: Vec<u8>)
    requires
        scene.wf(),
        scene.layers.len() > 0,
    ensures
        r@ == scene_bytes(scene@),
{
    let first = &scene.layers[0].grid;
    let mut out: Vec<u8> = Vec::new();
    write_common_header(&mut out, VERSION, first.res(), first.voxel_size(), first.origin());
    push_u32(&mut out, #[verifier::truncate] (scene.layers.len() as u32));
    push_u32(&mut out, #[verifier::truncate] (scene.active as u32));
    let ghost head = out@;
    let ghost layers = scene@.layers;
    assert(head =~= head + layers_bytes(layers, 0));
    let mut j: usize = 0;
    while j < scene.layers.len()
        invariant
            scene.wf(),
            layers == scene@.layers,
            j <= scene.layers.len(),
            out@ == head + layers_bytes(layers, j as nat),
        decreases scene.layers.len() - j,
    {
        write_layer(&scene.layers[j], &mut out);
        assert(layers[j as int] == scene.layers@[j as int]@);
        assert(out@ =~= head + layers_bytes(layers, (j + 1) as nat));
        j = j + 1;
    }
    assert(out@ =~= scene_bytes(scene@));
    out
}

/// The layers of a scene are a stack.
proof fn lemma_scene_is_stack(scene: ProjectScene)
    requires
        scene.wf(),
    ensures
        is_stack(scene@),
{
    assert forall|k: int| 0 <= k < scene@.layers.len() implies (
    #[trigger] scene@.layers[k]).grid.wf() by {
        scene.layers@[k].grid.lemma_wf_view();
    }
}

/// Write a scene. What is written can be read again.
pub fn write_project_scene(scene: &ProjectScene) -> (r: Result<Vec<u8>, WriteError>)
    requires
        scene.wf(),
    ensures
        r is Err <==> scene_error(scene@) is Some,
        r matches Err(e) ==> scene_error(scene@) == Some(e),
        r matches Ok(b) ==> b@ == scene_bytes(scene@),
        r is Ok && names_counted(scene@) ==> file_error(scene_bytes(scene@)) is None,
{
    match find_error(scene) {
        Some(e) => Err(e),
        None => {
            proof {
                lemma_scene_is_stack(*scene);
                if names_counted(scene@) {
                    law_written_file_is_readable(scene@);
                }
            }
            Ok(write_checked(scene))
        },
    }
}

/// Write a single grid as a scene of one layer.
pub fn write_project(grid: &Grid) -> (r: Result<Vec<u8>, WriteError>)
    requires
        grid.wf(),
    ensures
        r is Err <==> scene_error(single_layer(grid@)) is Some,
        r matches Err(e) ==> scene_error(single_layer(grid@)) == Some(e),
        r matches Ok(b) ==> b@ == scene_bytes(single_layer(grid@)),
        r is Ok ==> file_error(scene_bytes(single_layer(grid@))) is None,
{
    proof {
        reveal_strlit("Layer 1");
        assert(is_ascii_chars("Layer 1"@));
        is_ascii_chars_encode_utf8("Layer 1"@);
    }
    write_project_scene(&ProjectScene::from_grid(grid.clone()))
}

/// A scan-ordered list with one more chunk.
spec fn with_chunk(list: Seq<ChunkCoord>, c: ChunkCoord) -> Seq<ChunkCoord>
    decreases list.len(),
{
    if list.len() == 0 || list.last().before(c) {
        list.push(c)
    } else {
        with_chunk(list.drop_last(), c).push(list.last())
    }
}

proof fn lemma_with_chunk(list: Seq<ChunkCoord>, c: ChunkCoord)
    requires
        in_scan_order(list),
        !list.contains(c),
    ensures
        in_scan_order(with_chunk(list, c)),
        forall|k: ChunkCoord| #[trigger]
            with_chunk(list, c).contains(k) <==> k == c || list.contains(k),
    decreases list.len(),
{
    let r = with_chunk(list, c);
    if list.len() == 0 || list.last().before(c) {
        assert forall|i: int, j: int| 0 <= i < j < r.len() implies (#[trigger] r[i]).before(
            #[trigger] r[j],
        ) by {
            if j == list.len() && i < list.len() - 1 {
                assert(list[i].before(list[list.len() - 1]));
            }
        }
        assert forall|k: ChunkCoord| #[trigger] r.contains(k) <==> k == c || list.contains(k) by {
            if list.contains(k) {
                let i = choose|i: int| 0 <= i < list.len() && list[i] == k;
                assert(r[i] == k);
            }
            assert(r[list.len() as int] == c);
        }
    } else {
        let front = list.drop_last();
        let last = list.last();
        assert(list.contains(last));
        assert(c.before(last));
        assert forall|k: ChunkCoord| #[trigger] front.contains(k) implies list.contains(k) && k.before(
            last,
        ) by {
            let i = choose|i: int| 0 <= i < front.len() && front[i] == k;
            assert(list[i] == k);
            assert(list[i].before(list[list.len() - 1]));
        }
        lemma_with_chunk(front, c);
        let part = with_chunk(front, c);
        assert forall|i: int, j: int| 0 <= i < j < r.len() implies (#[trigger] r[i]).before(
            #[trigger] r[j],
        ) by {
            assert(part.contains(part[i]));
        }
        assert forall|k: ChunkCoord| #[trigger] r.contains(k) <==> k == c || list.contains(k) by {
            if r.contains(k) {
                let i = choose|i: int| 0 <= i < r.len() && r[i] == k;
                if i < part.len() {
                    assert(part.contains(k));
                }
            }
            if k == c || list.contains(k) {
                if k == last {
                    assert(r[part.len() as int] == k);
                } else {
                    if list.contains(k) {
                        let i = choose|i: int| 0 <= i < list.len() && list[i] == k;
                        assert(front[i] == k);
                    }
                    assert(part.contains(k));
                    let i = choose|i: int| 0 <= i < part.len() && part[i] == k;
                    assert(r[i] == k);
                }
            }
        }
    }
}

/// Every finite set of chunks can be put into scan order.
proof fn lemma_list_exists(s: Set<ChunkCoord>) -> (list: Seq<ChunkCoord>)
    requires
        s.finite(),
    ensures
        in_scan_order(list),
        forall|c: ChunkCoord| #[trigger] list.contains(c) <==> s.contains(c),
    decreases s.len(),
{
    if s.len() == 0 {
        assert(s =~= Set::empty());
        Seq::empty()
    } else {
        let c = s.choose();
        let part = lemma_list_exists(s.remove(c));
        lemma_with_chunk(part, c);
        with_chunk(part, c)
    }
}

/// The list of tiles of a grid, and how long it is.
proof fn lemma_tile_list_lists(g: GridView)
    requires
        g.tiles.dom().finite(),
    ensures
        lists_tiles(tile_list(g), g),
        tile_list(g).len() == g.tiles.dom().len(),
        forall|i: int|
            0 <= i < tile_list(g).len() ==> g.tiles.dom().contains(#[trigger] tile_list(g)[i]),
{
    let known = lemma_list_exists(g.tiles.dom());
    assert(lists_tiles(known, g));
    let list = tile_list(g);
    assert(list.no_duplicates()) by {
        assert forall|i: int, j: int| 0 <= i < list.len() && 0 <= j < list.len() && i != j implies list[i]
            != list[j] by {
            if i < j {
                assert(list[i].before(list[j]));
            } else {
                assert(list[j].before(list[i]));
            }
        }
    }
    list.unique_seq_to_set();
    assert(list.to_set() =~= g.tiles.dom());
    assert forall|i: int| 0 <= i < list.len() implies g.tiles.dom().contains(#[trigger] list[i]) by {
        assert(list.contains(list[i]));
    }
}

proof fn lemma_tiles_bytes_len(g: GridView, list: Seq<ChunkCoord>, n: nat)
    requires
        n <= list.len(),
        forall|i: int| 0 <= i < n ==> g.tiles[#[trigger] list[i]].len() == 32768,
    ensures
        tiles_bytes(g, list, n).len() == n * 131084,
    decreases n,
{
    if n > 0 {
        lemma_tiles_bytes_len(g, list, (n - 1) as nat);
        lemma_words_len(g.tiles[list[n - 1]]);
    }
}

/// Length of a layer, written out.
proof fn lemma_layer_len(l: LayerView)
    requires
        l.grid.wf(),
    ensures
        layer_bytes(l).len() == 16 + encode_utf8(l.name).len() + l.grid.tiles.dom().len() * 131084,
{
    lemma_tile_list_lists(l.grid);
    let list = tile_list(l.grid);
    lemma_tiles_bytes_len(l.grid, list, list.len());
}

proof fn lemma_layers_len_grows(layers: Seq<LayerView>, m: nat, n: nat)
    requires
        m <= n,
    ensures
        layers_bytes(layers, m).len() <= layers_bytes(layers, n).len(),
    decreases n,
{
    if m < n {
        lemma_layers_len_grows(layers, m, (n - 1) as nat);
    }
}

/// Exact number of bytes that writing the scene gives.
pub fn project_scene_size(scene: &ProjectScene) -> (r: usize)
    requires
        scene.wf(),
        scene_bytes(scene@).len() <= usize::MAX,
    ensures
        r == scene_bytes(scene@).len(),
{
    let ghost layers = scene@.layers;
    proof {
        let g = layers[0].grid;
        lemma_words_len(
            seq![3, 0, g.res.x, g.res.y, g.res.z, g.voxel_size, g.origin.x, g.origin.y, g.origin.z],
        );
        assert(scene_bytes(scene@).len() == 52 + layers_bytes(layers, layers.len()).len());
    }
    let mut n: usize = 52;
    let mut i: usize = 0;
    while i < scene.layers.len()
        invariant
            scene.wf(),
            layers == scene@.layers,
            i <= scene.layers.len(),
            n == 52 + layers_bytes(layers, i as nat).len(),
            52 + layers_bytes(layers, layers.len()).len() <= usize::MAX,
        decreases scene.layers.len() - i,
    {
        let layer = &scene.layers[i];
        let name: usize = layer.name.as_str().as_bytes().len();
        let tiles: usize = layer.grid.allocated_tile_count();
        proof {
            layer.grid.lemma_wf_view();
            assert(layers[i as int] == layer@);
            lemma_layer_len(layer@);
            lemma_layers_len_grows(layers, (i + 1) as nat, layers.len());
            assert(layers_bytes(layers, (i + 1) as nat) == layers_bytes(layers, i as nat)
                + layer_bytes(layer@));
        }
        n = n + 16 + name + tiles * TILE_BYTES;
        i = i + 1;
    }
    n
}

/// Exact number of bytes that writing a single grid gives.
pub fn project_size(grid: &Grid) -> (r: usize)
    requires
        grid.wf(),
        scene_bytes(single_layer(grid@)).len() <= usize::MAX,
    ensures
        r == scene_bytes(single_layer(grid@)).len(),
{
    project_scene_size(&ProjectScene::from_grid(grid.clone()))
}

impl ProjectScene {
    /// Resolution of the shared domain.
    pub fn domain_res(&self) -> (r: UVec3)
        requires
            self.layers.len() > 0,
        ensures
            r == self@.layers[0].grid.res,
    {
        self.layers[0].grid.res()
    }

    /// Voxel size of the shared domain.
    pub fn domain_voxel_size(&self) -> (r: u32)
        requires
            self.layers.len() > 0,
        ensures
            r == self@.layers[0].grid.voxel_size,
    {
        self.layers[0].grid.voxel_size()
    }

    /// Origin of the shared domain.
    pub fn domain_origin(&self) -> (r: BitVec3)
        requires
            self.layers.len() > 0,
        ensures
            r == self@.layers[0].grid.origin,
    {
        self.layers[0].grid.origin()
    }
}

/// A layer with the domain of another grid.
pub open spec fn in_domain_of(l: LayerView, g: GridView) -> LayerView {
    LayerView {
        grid: GridView { voxel_size: g.voxel_size, origin: g.origin, ..l.grid },
        ..l
    }
}

/// The scene in which every layer has exactly the domain of the first.
pub open spec fn with_shared_domain(s: SceneView) -> SceneView {
    SceneView {
        layers: Seq::new(s.layers.len(), |i: int| in_domain_of(s.layers[i], s.layers[0].grid)),
        active: s.active,
    }
}

/// Tile number `i` of a list that stands in `b` can be read back.
proof fn lemma_tile_reads(b: Seq<u8>, at: int, g: GridView, list: Seq<ChunkCoord>, n: nat, i: int)
    requires
        0 <= at,
        holds_at(b, at + 4, tiles_bytes(g, list, n)),
        n <= list.len(),
        0 <= i < n,
        forall|k: int| 0 <= k < n ==> g.tiles[#[trigger] list[k]].len() == 32768,
    ensures
        tile_coord(b, at, i) == list[i],
        forall|s: int|
            0 <= s < 32768 ==> word(b, #[trigger] (tile_start(at, i) + 12 + 4 * s))
                == g.tiles[list[i]][s],
    decreases n,
{
    let front = tiles_bytes(g, list, (n - 1) as nat);
    let c = list[n - 1];
    let samples = g.tiles[c];
    lemma_tiles_bytes_len(g, list, (n - 1) as nat);
    lemma_holds_split(b, at + 4, front, tile_bytes(c, samples));
    if i < n - 1 {
        lemma_tile_reads(b, at, g, list, (n - 1) as nat, i);
    } else {
        let p = tile_start(at, i);
        assert(p == at + 4 + front.len());
        lemma_holds_split(b, p, le32(c.x) + le32(c.y) + le32(c.z), words_bytes(samples));
        lemma_holds_split(b, p, le32(c.x) + le32(c.y), le32(c.z));
        lemma_holds_split(b, p, le32(c.x), le32(c.y));
        lemma_word_of_le32(b, p, c.x);
        lemma_word_of_le32(b, p + 4, c.y);
        lemma_word_of_le32(b, p + 8, c.z);
        assert forall|s: int| 0 <= s < 32768 implies word(b, #[trigger] (tile_start(at, i) + 12 + 4 * s))
            == samples[s] by {
            lemma_word_in_run(b, p + 12, samples, s);
        }
    }
}

/// The last tile of a chunk among the first `n`, for a list that stands in `b`.
proof fn lemma_last_tile(b: Seq<u8>, at: int, list: Seq<ChunkCoord>, n: nat, c: ChunkCoord)
    requires
        n <= list.len(),
        in_scan_order(list),
        forall|i: int| 0 <= i < n ==> #[trigger] tile_coord(b, at, i) == list[i],
    ensures
        forall|i: int| 0 <= i < n && list[i] == c ==> last_tile(b, at, n, c) == Some(i),
        (forall|i: int| 0 <= i < n ==> #[trigger] list[i] != c) ==> last_tile(b, at, n, c) is None,
    decreases n,
{
    if n > 0 {
        lemma_last_tile(b, at, list, (n - 1) as nat, c);
        assert(tile_coord(b, at, n - 1) == list[n - 1]);
        assert forall|i: int| 0 <= i < n && list[i] == c implies last_tile(b, at, n, c) == Some(i) by {
            if i < n - 1 {
                assert(list[i].before(list[n - 1]));
            }
        }
    }
}

/// The voxel of a slot lies in the chunk, at that slot.
proof fn lemma_voxel_of_slot(c: ChunkCoord, s: int)
    requires
        0 <= s < 32768,
        c.x < 0x800_0000,
        c.y < 0x800_0000,
        c.z < 0x800_0000,
    ensures
        ({
            let (x, y, z) = (c.x * 32 + s % 32, c.y * 32 + (s / 32) % 32, c.z * 32 + s / 1024);
            &&& tile_of(x, y, z) == c
            &&& slot_of(x, y, z) == s
            &&& 0 <= x < 0x1_0000_0000
            &&& 0 <= y < 0x1_0000_0000
            &&& 0 <= z < 0x1_0000_0000
        }),
{
    assert(s / 1024 == s / 32 / 32);
}

/// Tiles that stand in `b` read back as the grid they came from.
proof fn lemma_grid_reads(b: Seq<u8>, at: int, g: GridView, voxel_size: u32, origin: BitVec3)
    requires
        0 <= at,
        g.wf(),
        g.tiles.dom().len() <= 1048576,
        holds_at(b, at, grid_bytes(g)),
    ensures
        tiles_error(b, at) is None,
        tile_start(at, word(b, at) as int) == at + grid_bytes(g).len(),
        tiles_grid(b, at, word(b, at) as nat, g.res, voxel_size, origin) == (GridView {
            voxel_size,
            origin,
            ..g
        }),
{
    lemma_tile_list_lists(g);
    let list = tile_list(g);
    let n = list.len();
    lemma_tiles_bytes_len(g, list, n);
    lemma_holds_split(b, at, le32(n as u32), tiles_bytes(g, list, n));
    lemma_word_of_le32(b, at, n as u32);
    assert forall|i: int| 0 <= i < n implies #[trigger] tile_coord(b, at, i) == list[i] by {
        lemma_tile_reads(b, at, g, list, n, i);
    }
    let h = tiles_grid(b, at, n, g.res, voxel_size, origin);
    assert forall|c: ChunkCoord| #[trigger] h.tiles.dom().contains(c) <==> g.tiles.dom().contains(c) by {
        lemma_last_tile(b, at, list, n, c);
        assert(list.contains(c) <==> g.tiles.dom().contains(c));
        if list.contains(c) {
            let i = choose|i: int| 0 <= i < n && list[i] == c;
            assert(last_tile(b, at, n, c) == Some(i));
        }
    }
    assert forall|c: ChunkCoord| #[trigger] g.tiles.dom().contains(c) implies h.tiles[c] == g.tiles[c] by {
        assert(h.tiles.dom().contains(c));
        lemma_last_tile(b, at, list, n, c);
        assert(list.contains(c));
        let i = choose|i: int| 0 <= i < n && list[i] == c;
        assert(last_tile(b, at, n, c) == Some(i));
        lemma_tile_reads(b, at, g, list, n, i);
        assert forall|s: int| 0 <= s < 32768 implies #[trigger] h.tiles[c][s] == g.tiles[c][s] by {
            assert(word(b, tile_start(at, i) + 12 + 4 * s) == g.tiles[c][s]);
            if !slot_in_domain(g.res, c, s) {
                lemma_voxel_of_slot(c, s);
                let (x, y, z) = (c.x * 32 + s % 32, c.y * 32 + (s / 32) % 32, c.z * 32 + s / 1024);
                assert(g.padding(x, y, z));
                assert(g.at(x, y, z) == FAR);
            }
        }
        assert(h.tiles[c] =~= g.tiles[c]);
    }
    assert(h.tiles =~= g.tiles);
}

/// A layer that stands in `b` can be read back.
proof fn lemma_layer_reads(b: Seq<u8>, at: int, l: LayerView, g: GridView)
    requires
        0 <= at,
        l.grid.wf(),
        l.grid.tiles.dom().len() <= 1048576,
        encode_utf8(l.name).len() <= u32::MAX,
        holds_at(b, at, layer_bytes(l)),
        file_res(b) == l.grid.res,
        word(b, 28) == g.voxel_size,
        file_origin(b) == g.origin,
    ensures
        layer_error(b, at) is None,
        layer_end(b, at) == at + layer_bytes(l).len(),
        layer_at(b, at) == in_domain_of(l, g),
{
    let name = encode_utf8(l.name);
    let flag: u32 = if l.visible {
        1
    } else {
        0
    };
    let n = name.len();
    let p1 = le32(l.id);
    let p2 = p1 + le32(n as u32);
    let p3 = p2 + name;
    let p4 = p3 + le32(flag);
    lemma_holds_split(b, at, p4, grid_bytes(l.grid));
    lemma_holds_split(b, at, p3, le32(flag));
    lemma_holds_split(b, at, p2, name);
    lemma_holds_split(b, at, p1, le32(n as u32));
    lemma_word_of_le32(b, at, l.id);
    lemma_word_of_le32(b, at + 4, n as u32);
    lemma_word_of_le32(b, at + 8 + n, flag);
    assert(b.subrange(at + 8, at + 8 + n) =~= name) by {
        assert forall|i: int| 0 <= i < n implies b.subrange(at + 8, at + 8 + n)[i] == name[i] by {
            assert(b[at + 8 + i] == name[i]);
        }
    }
    encode_utf8_valid_utf8(l.name);
    encode_utf8_decode_utf8(l.name);
    lemma_grid_reads(b, at + 12 + n, l.grid, g.voxel_size, g.origin);
}

/// Layer number `i` stands in `b` where the layers before it end.
proof fn lemma_layer_stands(b: Seq<u8>, layers: Seq<LayerView>, n: nat, i: nat)
    requires
        holds_at(b, 52, layers_bytes(layers, n)),
        i < n,
    ensures
        holds_at(b, 52int + layers_bytes(layers, i).len(), layer_bytes(layers[i as int])),
    decreases n,
{
    lemma_holds_split(b, 52, layers_bytes(layers, (n - 1) as nat), layer_bytes(layers[n - 1]));
    if i < n - 1 {
        lemma_layer_stands(b, layers, (n - 1) as nat, i);
    }
}

/// The header of a written scene reads back.
proof fn lemma_header_reads(s: SceneView)
    requires
        is_stack(s),
        scene_error(s) is None,
    ensures
        ({
            let b = scene_bytes(s);
            let g = s.layers[0].grid;
            &&& b.len() >= 52
            &&& b.subrange(0, 8) == magic()
            &&& word(b, 8) == 3
            &&& word(b, 12) == 0
            &&& file_res(b) == g.res
            &&& word(b, 28) == g.voxel_size
            &&& file_origin(b) == g.origin
            &&& word(b, 44) == s.layers.len()
            &&& word(b, 48) == s.active
            &&& holds_at(b, 52, layers_bytes(s.layers, s.layers.len()))
            &&& b.len() == 52 + layers_bytes(s.layers, s.layers.len()).len()
        }),
{
    let b = scene_bytes(s);
    let g = s.layers[0].grid;
    let words = seq![
        3u32,
        0,
        g.res.x,
        g.res.y,
        g.res.z,
        g.voxel_size,
        g.origin.x,
        g.origin.y,
        g.origin.z,
    ];
    let q1 = prefix_bytes(3, g.res, g.voxel_size, g.origin);
    let q2 = q1 + le32(s.layers.len() as u32);
    let q3 = q2 + le32(s.active as u32);
    let body = layers_bytes(s.layers, s.layers.len());
    lemma_words_len(words);
    assert(q1.len() == 44);
    assert(holds_at(b, 0, b));
    lemma_holds_split(b, 0, q3, body);
    lemma_holds_split(b, 0, q2, le32(s.active as u32));
    lemma_holds_split(b, 0, q1, le32(s.layers.len() as u32));
    lemma_holds_split(b, 0, magic(), words_bytes(words));
    lemma_word_of_le32(b, 44, s.layers.len() as u32);
    lemma_word_of_le32(b, 48, s.active as u32);
    lemma_word_in_run(b, 8, words, 0);
    lemma_word_in_run(b, 8, words, 1);
    lemma_word_in_run(b, 8, words, 2);
    lemma_word_in_run(b, 8, words, 3);
    lemma_word_in_run(b, 8, words, 4);
    lemma_word_in_run(b, 8, words, 5);
    lemma_word_in_run(b, 8, words, 6);
    lemma_word_in_run(b, 8, words, 7);
    lemma_word_in_run(b, 8, words, 8);
    assert(b.subrange(0, 8) =~= magic()) by {
        assert forall|i: int| 0 <= i < 8 implies b.subrange(0, 8)[i] == magic()[i] by {
            assert(b[0 + i] == magic()[i]);
        }
    }
}

/// The layers of a scene that stand in `b` read back, up to layer `n`.
#[verifier::spinoff_prover]
proof fn lemma_layers_read(b: Seq<u8>, s: SceneView, n: nat)
    requires
        is_stack(s),
        scene_error(s) is None,
        names_counted(s),
        n <= s.layers.len(),
        file_res(b) == s.layers[0].grid.res,
        word(b, 28) == s.layers[0].grid.voxel_size,
        file_origin(b) == s.layers[0].grid.origin,
        holds_at(b, 52, layers_bytes(s.layers, s.layers.len())),
    ensures
        layers_error(b, n) is None,
        layer_start(b, n) == 52 + layers_bytes(s.layers, n).len(),
        forall|i: int|
            0 <= i < n ==> #[trigger] layer_at(b, layer_start(b, i as nat)) == in_domain_of(
                s.layers[i],
                s.layers[0].grid,
            ),
    decreases n,
{
    if n > 0 {
        let k = (n - 1) as nat;
        lemma_layers_read(b, s, k);
        lemma_layer_stands(b, s.layers, s.layers.len(), k);
        assert(shares_domain(s.layers[k as int].grid, s.layers[0].grid));
        lemma_layer_reads(b, layer_start(b, k), s.layers[k as int], s.layers[0].grid);
        assert forall|i: int| 0 <= i < n implies #[trigger] layer_at(b, layer_start(b, i as nat))
            == in_domain_of(s.layers[i], s.layers[0].grid) by {
            if i == k {
                assert(layer_start(b, i as nat) == layer_start(b, k));
            }
        }
    }
}

/// Saving and loading: what is written can be read, and what is read is what was
/// written, each layer with exactly the domain of the first.
pub proof fn law_project_round_trip(s: SceneView, t: SceneView)
    requires
        is_stack(s),
        scene_error(s) is None,
        names_counted(s),
        describes(scene_bytes(s), t),
    ensures
        file_error(scene_bytes(s)) is None,
        t == with_shared_domain(s),
{
    lemma_header_reads(s);
    lemma_layers_read(scene_bytes(s), s, s.layers.len());
    let b = scene_bytes(s);
    assert(t.layers =~= with_shared_domain(s).layers) by {
        assert forall|i: int| 0 <= i < s.layers.len() implies t.layers[i]
            == with_shared_domain(s).layers[i] by {
            assert(layer_at(b, layer_start(b, i as nat)) == in_domain_of(
                s.layers[i],
                s.layers[0].grid,
            ));
        }
    }
}

/// A written file describes a scene.
pub proof fn law_written_file_is_readable(s: SceneView)
    requires
        is_stack(s),
        scene_error(s) is None,
        names_counted(s),
    ensures
        file_error(scene_bytes(s)) is None,
        describes(scene_bytes(s), with_shared_domain(s)),
{
    lemma_header_reads(s);
    lemma_layers_read(scene_bytes(s), s, s.layers.len());
    let b = scene_bytes(s);
    assert(with_shared_domain(s).layers =~= Seq::new(
        word(b, 44) as nat,
        |i: int| layer_at(b, layer_start(b, i as nat)),
    )) by {
        assert forall|i: int| 0 <= i < s.layers.len() implies layer_at(
            b,
            layer_start(b, i as nat),
        ) == with_shared_domain(s).layers[i] by {
            assert(layer_at(b, layer_start(b, i as nat)) == in_domain_of(
                s.layers[i],
                s.layers[0].grid,
            ));
        }
    }
}

/// Where all layers have exactly one domain, nothing changes on the way.
pub proof fn law_exact_round_trip(s: SceneView, t: SceneView)
    requires
        is_stack(s),
        scene_error(s) is None,
        names_counted(s),
        forall|i: int|
            0 <= i < s.layers.len() ==> (#[trigger] s.layers[i]).grid.same_domain(s.layers[0].grid),
        describes(scene_bytes(s), t),
    ensures
        t == s,
{
    law_project_round_trip(s, t);
    assert forall|i: int| 0 <= i < s.layers.len() implies #[trigger] t.layers[i] == s.layers[i] by {
        assert(s.layers[i].grid.same_domain(s.layers[0].grid));
    }
    assert(t.layers =~= s.layers);
}

/// Where a written file keeps what all layers share: a mark of eight bytes, the version, a word
/// that is zero, the resolution, the voxel size and the origin, and then the number of layers
/// and which of them is active, in words of four bytes each.
pub proof fn law_header_has_its_place(s: SceneView)
    requires
        is_stack(s),
        scene_error(s) is None,
    ensures
        ({
            let b = scene_bytes(s);
            let g = s.layers[0].grid;
            &&& b.subrange(0, 8) == seq![77u8, 85u8, 68u8, 67u8, 76u8, 65u8, 89u8, 0u8]
            &&& word(b, 8) == 3
            &&& word(b, 12) == 0
            &&& word(b, 16) == g.res.x
            &&& word(b, 20) == g.res.y
            &&& word(b, 24) == g.res.z
            &&& word(b, 28) == g.voxel_size
            &&& word(b, 32) == g.origin.x
            &&& word(b, 36) == g.origin.y
            &&& word(b, 40) == g.origin.z
            &&& word(b, 44) == s.layers.len()
            &&& word(b, 48) == s.active
            &&& holds_at(b, 52, layer_bytes(s.layers[0]))
        }),
{
    lemma_header_reads(s);
    lemma_layer_stands(scene_bytes(s), s.layers, s.layers.len(), 0);
    assert(magic() =~= seq![77u8, 85u8, 68u8, 67u8, 76u8, 65u8, 89u8, 0u8]);
}

/// Where a layer keeps its own: its number, the length of its name and the name, whether it is
/// visible, and the number of its tiles; then each tile, its place in chunks and its samples,
/// 32 along x, then along y, then along z.
pub proof fn law_layer_has_its_place(b: Seq<u8>, at: int, l: LayerView, i: int, x: int, y: int, z: int)
    requires
        0 <= at,
        l.grid.wf(),
        l.grid.tiles.dom().len() <= 1048576,
        encode_utf8(l.name).len() <= u32::MAX,
        holds_at(b, at, layer_bytes(l)),
        0 <= x < 32,
        0 <= y < 32,
        0 <= z < 32,
    ensures
        ({
            let n = encode_utf8(l.name).len() as int;
            let count = l.grid.tiles.dom().len();
            let p = at + 16 + n + i * 131084;
            &&& word(b, at) == l.id
            &&& word(b, at + 4) == n
            &&& b.subrange(at + 8, at + 8 + n) == encode_utf8(l.name)
            &&& word(b, at + 8 + n) == (if l.visible { 1u32 } else { 0u32 })
            &&& word(b, at + 12 + n) == count
            &&& 0 <= i < count ==> {
                let c = ChunkCoord { x: word(b, p), y: word(b, p + 4), z: word(b, p + 8) };
                &&& l.grid.tiles.dom().contains(c)
                &&& word(b, p + 12 + 4 * (x + 32 * y + 1024 * z)) == l.grid.at(
                    c.x * 32 + x,
                    c.y * 32 + y,
                    c.z * 32 + z,
                )
            }
        }),
{
    let name = encode_utf8(l.name);
    let flag: u32 = if l.visible {
        1
    } else {
        0
    };
    let n = name.len();
    let p1 = le32(l.id);
    let p2 = p1 + le32(n as u32);
    let p3 = p2 + name;
    let p4 = p3 + le32(flag);
    lemma_holds_split(b, at, p4, grid_bytes(l.grid));
    lemma_holds_split(b, at, p3, le32(flag));
    lemma_holds_split(b, at, p2, name);
    lemma_holds_split(b, at, p1, le32(n as u32));
    lemma_word_of_le32(b, at, l.id);
    lemma_word_of_le32(b, at + 4, n as u32);
    lemma_word_of_le32(b, at + 8 + n, flag);
    assert(b.subrange(at + 8, at + 8 + n) =~= name) by {
        assert forall|k: int| 0 <= k < n implies b.subrange(at + 8, at + 8 + n)[k] == name[k] by {
            assert(b[at + 8 + k] == name[k]);
        }
    }
    let g = l.grid;
    let list = tile_list(g);
    let q = at + 12 + n;
    lemma_tile_list_lists(g);
    lemma_holds_split(b, q, le32(list.len() as u32), tiles_bytes(g, list, list.len()));
    lemma_list_counts(list, g);
    lemma_word_of_le32(b, q, list.len() as u32);
    if 0 <= i < list.len() {
        assert forall|k: int| 0 <= k < list.len() implies g.tiles[#[trigger] list[k]].len() == 32768 by {
            assert(list.contains(list[k]));
        }
        lemma_tile_reads(b, q, g, list, list.len(), i);
        let c = list[i];
        assert(list.contains(c));
        assert(tile_coord(b, q, i) == c);
        let slot = x + 32 * y + 1024 * z;
        assert(word(b, tile_start(q, i) + 12 + 4 * slot) == g.tiles[c][slot]);
        assert(tile_of(c.x * 32 + x, c.y * 32 + y, c.z * 32 + z) == c);
        assert(slot_of(c.x * 32 + x, c.y * 32 + y, c.z * 32 + z) == slot);
    }
}

/// A list of the tiles has as many entries as there are tiles.
proof fn lemma_list_counts(list: Seq<ChunkCoord>, g: GridView)
    requires
        lists_tiles(list, g),
    ensures
        list.len() == g.tiles.dom().len(),
{
    assert(list.no_duplicates()) by {
        assert forall|i: int, j: int| 0 <= i < list.len() && 0 <= j < list.len() && i != j implies list[i]
            != list[j] by {
            if i < j {
                assert(list[i].before(list[j]));
            } else {
                assert(list[j].before(list[i]));
            }
        }
    }
    list.unique_seq_to_set();
    assert(list.to_set() =~= g.tiles.dom());
}

} // verus!
