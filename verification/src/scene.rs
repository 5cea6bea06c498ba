//! Exchanging what the stack of layers holds: loading a scene, clearing the
//! workpiece, and flattening the visible layers for export.

use crate::chunk_table::ChunkTable;
use crate::components::in_domain;
use crate::grid::{tile_of, ChunkCoord, Grid, GridView};
use crate::layers::{all_chunks, entities, every_chunk, free_id, later_id, stored_chunks, Layer, LayerId, LayerModel, LayersModel, LayersState};
use crate::merge::{unite, united, wins, wins_in};
use crate::sample::{clearly_apart, is_clearly_apart, is_nan, law_unmoved_from_itself, less, lt, num_eq, same_number, solid, FAR};
use crate::text::{decimal, push_decimal};
use crate::vec3::{BitVec3, UVec3};
use vstd::prelude::*;
use vstd::string::StringExecFns;

verus! {

/// Why a grid cannot take the place of another.
#[allow(inconsistent_fields)]
#[derive(Copy, Clone, Debug, PartialEq, Eq, Structural)]
pub enum GridSwapError {
    /// The resolutions differ.
    ResolutionMismatch { current: UVec3, incoming: UVec3 },
    /// The voxel sizes differ.
    VoxelSizeMismatch { current: u32, incoming: u32 },
    /// There is no layer, or the active layer is not one of them.
    EmptyScene,
}

/// A resolution as it is shown, such as `64x64x64`.
pub open spec fn res_text(res: UVec3) -> Seq<char> {
    decimal(res.x as nat) + "x"@ + decimal(res.y as nat) + "x"@ + decimal(res.z as nat)
}

fn push_res(text: &mut String, res: UVec3)
    ensures
        final(text)@ == old(text)@ + res_text(res),
{
    push_decimal(text, res.x as u64);
    text.append("x");
    push_decimal(text, res.y as u64);
    text.append("x");
    push_decimal(text, res.z as u64);
    assert(text@ =~= old(text)@ + res_text(res));
}

impl GridSwapError {
    /// The message for the user. `current` and `incoming` are the voxel sizes as they
    /// are shown.
    pub open spec fn text(self, current: Seq<char>, incoming: Seq<char>) -> Seq<char> {
        match self {
            GridSwapError::ResolutionMismatch { current: c, incoming: i } =>
                "grid resolution mismatch: current "@ + res_text(c) + ", incoming "@ + res_text(i),
            GridSwapError::VoxelSizeMismatch { .. } => "voxel size mismatch: current "@ + current
                + " mm, incoming "@ + incoming + " mm"@,
            GridSwapError::EmptyScene => "invalid project scene (no layers or bad active index)"@,
        }
    }

    /// The message for the user. `current` and `incoming` are the voxel sizes as they
    /// are shown.
    pub fn message(&self, current: &str, incoming: &str) -> (r: String)
        ensures
            r@ == self.text(current@, incoming@),
    {
        match *self {
            GridSwapError::ResolutionMismatch { current: c, incoming: i } => {
                let mut r = String::from_str("grid resolution mismatch: current ");
                push_res(&mut r, c);
                r.append(", incoming ");
                push_res(&mut r, i);
                r
            },
            GridSwapError::VoxelSizeMismatch { .. } => {
                let mut r = String::from_str("voxel size mismatch: current ");
                r.append(current);
                r.append(" mm, incoming ");
                r.append(incoming);
                r.append(" mm");
                r
            },
            GridSwapError::EmptyScene => String::from_str(
                "invalid project scene (no layers or bad active index)",
            ),
        }
    }
}

/// Why `incoming` cannot take the place of `current`.
pub open spec fn swap_error(current: GridView, incoming: GridView) -> Option<GridSwapError> {
    if incoming.res != current.res {
        Some(GridSwapError::ResolutionMismatch { current: current.res, incoming: incoming.res })
    } else if clearly_apart(incoming.voxel_size, current.voxel_size) {
        Some(
            GridSwapError::VoxelSizeMismatch {
                current: current.voxel_size,
                incoming: incoming.voxel_size,
            },
        )
    } else {
        None
    }
}

fn same_res(a: UVec3, b: UVec3) -> (r: bool)
    ensures
        r == (a == b),
{
    a.x == b.x && a.y == b.y && a.z == b.z
}

fn why_not_swap(current: &Grid, incoming: &Grid) -> (r: Option<GridSwapError>)
    ensures
        r == swap_error(current@, incoming@),
{
    if !same_res(incoming.res(), current.res()) {
        Some(
            GridSwapError::ResolutionMismatch { current: current.res(), incoming: incoming.res() },
        )
    } else if is_clearly_apart(incoming.voxel_size(), current.voxel_size()) {
        Some(
            GridSwapError::VoxelSizeMismatch {
                current: current.voxel_size(),
                incoming: incoming.voxel_size(),
            },
        )
    } else {
        None
    }
}

/// A layer of a scene that is loaded: number, name, visibility and grid.
pub type SceneLayer = (LayerId, String, bool, Grid);

/// The origins are numerically equal.
pub open spec fn same_origin(a: BitVec3, b: BitVec3) -> bool {
    num_eq(a.x, b.x) && num_eq(a.y, b.y) && num_eq(a.z, b.z)
}

/// A layer fits the first one.
pub open spec fn fits(first: GridView, g: GridView) -> bool {
    g.res == first.res && !clearly_apart(g.voxel_size, first.voxel_size) && same_origin(
        g.origin,
        first.origin,
    )
}

/// The first of the first `n` layers that does not fit the first one.
pub open spec fn misfit(layers: Seq<SceneLayer>, n: nat) -> Option<int>
    decreases n,
{
    if n == 0 {
        None
    } else {
        match misfit(layers, (n - 1) as nat) {
            Some(i) => Some(i),
            None => if fits(layers[0].3@, layers[n - 1].3@) {
                None
            } else {
                Some(n - 1)
            },
        }
    }
}

/// Why a scene cannot be loaded.
pub open spec fn scene_swap_error(current: GridView, layers: Seq<SceneLayer>, active: usize) -> Option<
    GridSwapError,
> {
    if layers.len() == 0 || active >= layers.len() {
        Some(GridSwapError::EmptyScene)
    } else {
        match swap_error(current, layers[0].3@) {
            Some(e) => Some(e),
            None => match misfit(layers, layers.len()) {
                Some(i) => Some(
                    GridSwapError::ResolutionMismatch {
                        current: layers[0].3@.res,
                        incoming: layers[i].3@.res,
                    },
                ),
                None => None,
            },
        }
    }
}

/// The entities of the first `n` layers.
pub open spec fn all_entities(layers: Seq<LayerModel>, n: nat) -> Seq<u64>
    decreases n,
{
    if n == 0 {
        Seq::empty()
    } else {
        all_entities(layers, (n - 1) as nat) + entities(layers[n - 1])
    }
}

/// The next free number after the first `n` layers of a scene.
pub open spec fn next_free(layers: Seq<SceneLayer>, n: nat) -> LayerId
    decreases n,
{
    if n == 0 {
        1
    } else {
        later_id(next_free(layers, (n - 1) as nat), layers[n - 1].0)
    }
}

/// A loaded layer: nothing is on screen, and its stored chunks need a mesh.
pub open spec fn loaded(l: SceneLayer, material: u64) -> LayerModel {
    LayerModel {
        id: l.0,
        name: l.1@,
        visible: l.2,
        grid: l.3@,
        chunks: Seq::empty(),
        dirty: l.3@.tiles.dom(),
        material,
    }
}

fn load_layer(l: SceneLayer, material: u64) -> (r: Layer)
    requires
        l.3.wf(),
    ensures
        r.wf(),
        r@ == loaded(l, material),
{
    let (id, name, visible, grid) = l;
    let dirty = stored_chunks(&grid);
    Layer { id, name, visible, grid, chunks: ChunkTable::new(), dirty, material }
}

fn fits_first(first: &Grid, g: &Grid) -> (r: bool)
    ensures
        r == fits(first@, g@),
{
    let (a, b) = (first.origin(), g.origin());
    same_res(g.res(), first.res()) && !is_clearly_apart(g.voxel_size(), first.voxel_size())
        && same_number(b.x, a.x) && same_number(b.y, a.y) && same_number(b.z, a.z)
}

fn find_misfit(layers: &Vec<SceneLayer>) -> (r: Option<usize>)
    requires
        layers.len() > 0,
    ensures
        r is None <==> misfit(layers@, layers@.len()) is None,
        r matches Some(i) ==> i < layers.len() && misfit(layers@, layers@.len()) == Some(i as int),
{
    let mut i: usize = 0;
    while i < layers.len()
        invariant
            i <= layers.len(),
            layers.len() > 0,
            misfit(layers@, i as nat) is None,
        decreases layers.len() - i,
    {
        if !fits_first(&layers[0].3, &layers[i].3) {
            proof {
                lemma_misfit_stays(layers@, (i + 1) as nat, layers@.len());
            }
            return Some(i);
        }
        i = i + 1;
    }
    None
}

proof fn lemma_misfit_stays(layers: Seq<SceneLayer>, m: nat, n: nat)
    requires
        m <= n,
        misfit(layers, m) is Some,
    ensures
        misfit(layers, n) == misfit(layers, m),
    decreases n,
{
    if m < n {
        lemma_misfit_stays(layers, m, (n - 1) as nat);
    }
}

proof fn lemma_no_misfit(layers: Seq<SceneLayer>, n: nat)
    requires
        misfit(layers, n) is None,
    ensures
        forall|i: int| 0 <= i < n ==> fits(layers[0].3@, (#[trigger] layers[i]).3@),
    decreases n,
{
    if n > 0 {
        lemma_no_misfit(layers, (n - 1) as nat);
    }
}

impl LayersState {
    /// Put a grid in the place of the active layer's, if the domains agree. Every chunk
    /// of the layer then needs a new mesh.
    pub fn swap_active_grid(&mut self, new_grid: Grid) -> (r: Result<(), GridSwapError>)
        requires
            old(self).wf(),
            new_grid.wf(),
        ensures
            final(self).wf(),
            final(self).res() == old(self).res(),
            r is Err <==> swap_error(old(self)@.layers[old(self)@.active].grid, new_grid@) is Some,
            r matches Err(e) ==> swap_error(old(self)@.layers[old(self)@.active].grid, new_grid@)
                == Some(e) && final(self)@ == old(self)@,
            r is Ok ==> final(self)@ == (LayersModel {
                layers: old(self)@.layers.update(
                    old(self)@.active,
                    LayerModel {
                        grid: new_grid@,
                        dirty: all_chunks(new_grid@.res),
                        ..old(self)@.layers[old(self)@.active]
                    },
                ),
                ..old(self)@
            }),
    {
        let ghost was = self@;
        let i: usize = self.active;
        match why_not_swap(&self.layers[i].grid, &new_grid) {
            Some(e) => {
                return Err(e);
            },
            None => {},
        }
        let ghost g = new_grid@;
        let dirty = every_chunk(new_grid.res());
        self.layers[i].grid = new_grid;
        self.layers[i].dirty = dirty;
        assert(self@.layers =~= was.layers.update(
            was.active,
            LayerModel { grid: g, dirty: all_chunks(g.res), ..was.layers[was.active] },
        ));
        Ok(())
    }

    /// Load a scene in place of all layers, if the domains agree.
    pub fn replace_from_scene(&mut self, layers: Vec<SceneLayer>, active: usize) -> (r: Result<
        (),
        GridSwapError,
    >)
        requires
            old(self).wf(),
            forall|i: int| 0 <= i < layers.len() ==> (#[trigger] layers@[i]).3.wf(),
        ensures
            final(self).wf(),
            final(self).res() == old(self).res(),
            ({
                let current = old(self)@.layers[old(self)@.active];
                let e = scene_swap_error(current.grid, layers@, active);
                &&& r is Err <==> e is Some
                &&& r matches Err(x) ==> e == Some(x) && final(self)@ == old(self)@
                &&& r is Ok ==> final(self)@ == (LayersModel {
                    layers: Seq::new(layers@.len(), |i: int| loaded(layers@[i], current.material)),
                    active: active as int,
                    next_id: next_free(layers@, layers@.len()),
                    pending: old(self)@.pending + all_entities(
                        old(self)@.layers,
                        old(self)@.layers.len(),
                    ),
                })
            }),
    {
        let ghost was = self@;
        let ghost all = layers@;
        let material: u64 = self.layers[self.active].material;
        if layers.len() == 0 || active >= layers.len() {
            return Err(GridSwapError::EmptyScene);
        }
        match why_not_swap(&self.layers[self.active].grid, &layers[0].3) {
            Some(e) => {
                return Err(e);
            },
            None => {},
        }
        match find_misfit(&layers) {
            Some(i) => {
                return Err(
                    GridSwapError::ResolutionMismatch {
                        current: layers[0].3.res(),
                        incoming: layers[i].3.res(),
                    },
                );
            },
            None => {},
        }
        proof {
            lemma_no_misfit(all, all.len());
        }
        let mut layers = layers;
        let mut i: usize = 0;
        assert(self.pending_despawn@ =~= was.pending + all_entities(was.layers, 0));
        while i < self.layers.len()
            invariant
                i <= self.layers.len(),
                self.layers@ == old(self).layers@,
                self.active == old(self).active,
                was == old(self)@,
                old(self).wf(),
                self.pending_despawn@ == was.pending + all_entities(was.layers, i as nat),
            decreases self.layers.len() - i,
        {
            let n: usize = self.layers[i].chunks.len();
            let ghost before = self.pending_despawn@;
            let ghost es = entities(was.layers[i as int]);
            let mut k: usize = 0;
            while k < n
                invariant
                    k <= n,
                    i < self.layers.len(),
                    self.layers@ == old(self).layers@,
                    self.active == old(self).active,
                    old(self).wf(),
                    self.layers@[i as int].chunks.wf(),
                    n == self.layers@[i as int].chunks.entries().len(),
                    es == entities(self.layers@[i as int]@),
                    self.pending_despawn@ =~= before + es.subrange(0, k as int),
                decreases n - k,
            {
                let e: u64 = self.layers[i].chunks.entry(k).1;
                self.pending_despawn.push(e);
                k = k + 1;
            }
            assert(self.pending_despawn@ =~= was.pending + all_entities(was.layers, (i + 1) as nat));
            i = i + 1;
        }
        let mut fresh: Vec<Layer> = Vec::new();
        let mut next: u32 = 1;
        let ghost res = all[0].3@.res;
        while layers.len() > 0
            invariant
                fresh.len() + layers.len() == all.len(),
                layers@ == all.subrange(fresh.len() as int, all.len() as int),
                forall|j: int| 0 <= j < all.len() ==> (#[trigger] all[j]).3.wf() && all[j].3@.res == res,
                forall|j: int|
                    0 <= j < fresh.len() ==> (#[trigger] fresh@[j]).wf() && fresh@[j]@ == loaded(
                        all[j],
                        material,
                    ),
                next == next_free(all, fresh@.len()),
            decreases layers.len(),
        {
            let ghost at = fresh.len() as int;
            assert(layers@[0] == all[at]);
            let l = layers.remove(0);
            next = free_id(next, l.0);
            fresh.push(load_layer(l, material));
            assert(layers@ =~= all.subrange(at + 1, all.len() as int));
        }
        self.layers = fresh;
        self.active = active;
        self.next_id = next;
        proof {
            assert(self@.layers =~= Seq::new(all.len(), |i: int| loaded(all[i], material)));
            assert forall|j: int| 0 <= j < self.layers@.len() implies (#[trigger] self.layers@[j]).grid@.res
                == res by {
                assert(self.layers@[j]@ == loaded(all[j], material));
            }
        }
        Ok(())
    }

    /// Back to one empty layer.
    pub fn reset_to_empty_single_layer(&mut self)
        requires
            old(self).wf(),
        ensures
            final(self).wf(),
            final(self).res() == old(self).res(),
            ({
                let first = old(self)@.layers[0];
                &&& final(self)@.layers == seq![
                    LayerModel {
                        name: "Layer 1"@,
                        visible: true,
                        grid: GridView { tiles: Map::empty(), ..first.grid },
                        dirty: all_chunks(first.grid.res),
                        ..first
                    },
                ]
                &&& final(self)@.active == 0
                &&& final(self)@.next_id == old(self)@.next_id
                &&& final(self)@.pending == old(self)@.pending + retired_from(old(self)@.layers, 1)
            }),
    {
        let ghost was = self@;
        assert(self@.layers =~= was.layers.subrange(0, was.layers.len() as int));
        assert(self@.pending =~= was.pending + retired_from(was.layers, was.layers.len()));
        while self.layers.len() > 1
            invariant
                self.wf(),
                1 <= self.layers.len() <= was.layers.len(),
                self@.layers == was.layers.subrange(0, self.layers.len() as int),
                self@.next_id == was.next_id,
                self@.pending == was.pending + retired_from(was.layers, self.layers@.len()),
            decreases self.layers.len(),
        {
            let n: usize = self.layers.len();
            let ghost before = self@;
            self.remove_layer_at(n - 1);
            proof {
                assert(self@.layers =~= was.layers.subrange(0, n - 1));
                assert(before.layers[n - 1] == was.layers[n - 1]);
                assert(self@.pending =~= was.pending + retired_from(was.layers, (n - 1) as nat));
            }
        }
        self.active = 0;
        let res = self.layers[0].grid.res();
        let empty = Grid::empty(res, self.layers[0].grid.voxel_size(), self.layers[0].grid.origin());
        let ghost first = was.layers[0];
        assert(self.layers@[0]@ == self@.layers[0]);
        assert(self@.layers[0] == first);
        let dirty = every_chunk(res);
        self.layers[0].grid = empty;
        self.layers[0].dirty = dirty;
        self.layers[0].name = String::from_str("Layer 1");
        self.layers[0].visible = true;
        proof {
            assert(self@.layers =~= seq![
                LayerModel {
                    name: "Layer 1"@,
                    visible: true,
                    grid: GridView { tiles: Map::empty(), ..first.grid },
                    dirty: all_chunks(first.grid.res),
                    ..first
                },
            ]);
        }
    }
}

/// The entities of all but the lowest `n` layers, from the top down.
pub open spec fn retired_from(layers: Seq<LayerModel>, n: nat) -> Seq<u64>
    decreases layers.len() - n,
{
    if n >= layers.len() {
        Seq::empty()
    } else {
        retired_from(layers, (n + 1) as nat) + entities(layers[n as int])
    }
}

/// A layer wins at a voxel over the sample `s`.
pub open spec fn beats(l: LayerModel, v: UVec3, s: u32) -> bool {
    &&& l.visible
    &&& l.grid.tiles.dom().contains(tile_of(v.x as int, v.y as int, v.z as int))
    &&& lt(l.grid.at(v.x as int, v.y as int, v.z as int), s)
}

/// The sample at a voxel after uniting the first `n` layers, hidden ones left out.
pub open spec fn flat_at(layers: Seq<LayerModel>, n: nat, v: UVec3) -> u32
    decreases n,
{
    if n == 0 {
        FAR
    } else {
        let before = flat_at(layers, (n - 1) as nat, v);
        if beats(layers[n - 1], v, before) {
            layers[n - 1].grid.at(v.x as int, v.y as int, v.z as int)
        } else {
            before
        }
    }
}

/// Layer number `n` wins at a voxel over those below it.
pub open spec fn flat_wins(layers: Seq<LayerModel>, n: nat, v: UVec3) -> bool {
    beats(layers[n as int], v, flat_at(layers, n, v))
}

/// Some of the first `n` layers wins at a voxel of a chunk.
pub open spec fn flat_stores(layers: Seq<LayerModel>, n: nat, res: UVec3, c: ChunkCoord) -> bool {
    exists|v: UVec3, i: nat|
        i < n && #[trigger] flat_wins(layers, i, v) && in_domain(res, v) && tile_of(
            v.x as int,
            v.y as int,
            v.z as int,
        ) == c
}

/// `g` is the union of the first `n` layers.
pub open spec fn is_flat(g: GridView, layers: Seq<LayerModel>, n: nat) -> bool {
    &&& forall|v: UVec3|
        in_domain(g.res, v) ==> #[trigger] g.at(v.x as int, v.y as int, v.z as int) == flat_at(
            layers,
            n,
            v,
        )
    &&& forall|c: ChunkCoord| #[trigger]
        g.tiles.dom().contains(c) <==> flat_stores(layers, n, g.res, c)
}

proof fn lemma_flat_step(before: GridView, after: GridView, layers: Seq<LayerModel>, n: nat)
    requires
        n < layers.len(),
        is_flat(before, layers, n),
        layers[n as int].visible,
        united(before, after, layers[n as int].grid),
    ensures
        is_flat(after, layers, (n + 1) as nat),
{
    let m = (n + 1) as nat;
    let src = layers[n as int].grid;
    assert forall|v: UVec3| in_domain(after.res, v) implies wins(before, src, v) == #[trigger] flat_wins(
        layers,
        n,
        v,
    ) by {
        assert(before.at(v.x as int, v.y as int, v.z as int) == flat_at(layers, n, v));
    }
    assert forall|v: UVec3| in_domain(after.res, v) implies #[trigger] after.at(
        v.x as int,
        v.y as int,
        v.z as int,
    ) == flat_at(layers, m, v) by {
        assert(before.at(v.x as int, v.y as int, v.z as int) == flat_at(layers, n, v));
        assert(wins(before, src, v) == flat_wins(layers, n, v));
    }
    assert forall|c: ChunkCoord| #[trigger]
        after.tiles.dom().contains(c) <==> flat_stores(layers, m, after.res, c) by {
        if before.tiles.dom().contains(c) {
            let (v, i) = choose|v: UVec3, i: nat|
                i < n && #[trigger] flat_wins(layers, i, v) && in_domain(before.res, v) && tile_of(
                    v.x as int,
                    v.y as int,
                    v.z as int,
                ) == c;
            assert(i < m && flat_wins(layers, i, v));
        }
        if wins_in(before, src, c) {
            let v = choose|v: UVec3| #[trigger]
                wins(before, src, v) && tile_of(v.x as int, v.y as int, v.z as int) == c;
            assert(flat_wins(layers, n, v));
        }
        if flat_stores(layers, m, after.res, c) {
            let (v, i) = choose|v: UVec3, i: nat|
                i < m && #[trigger] flat_wins(layers, i, v) && in_domain(after.res, v) && tile_of(
                    v.x as int,
                    v.y as int,
                    v.z as int,
                ) == c;
            if i < n {
                assert(flat_stores(layers, n, before.res, c));
            } else {
                assert(wins(before, src, v));
            }
        }
    }
}

proof fn lemma_flat_skip(g: GridView, layers: Seq<LayerModel>, n: nat)
    requires
        n < layers.len(),
        is_flat(g, layers, n),
        !layers[n as int].visible,
    ensures
        is_flat(g, layers, (n + 1) as nat),
{
    let m = (n + 1) as nat;
    assert forall|v: UVec3| in_domain(g.res, v) implies #[trigger] g.at(
        v.x as int,
        v.y as int,
        v.z as int,
    ) == flat_at(layers, m, v) by {
        assert(g.at(v.x as int, v.y as int, v.z as int) == flat_at(layers, n, v));
    }
    assert forall|c: ChunkCoord| #[trigger]
        g.tiles.dom().contains(c) <==> flat_stores(layers, m, g.res, c) by {
        if g.tiles.dom().contains(c) {
            let (v, i) = choose|v: UVec3, i: nat|
                i < n && #[trigger] flat_wins(layers, i, v) && in_domain(g.res, v) && tile_of(
                    v.x as int,
                    v.y as int,
                    v.z as int,
                ) == c;
            assert(i < m && flat_wins(layers, i, v));
        }
        if flat_stores(layers, m, g.res, c) {
            let (v, i) = choose|v: UVec3, i: nat|
                i < m && #[trigger] flat_wins(layers, i, v) && in_domain(g.res, v) && tile_of(
                    v.x as int,
                    v.y as int,
                    v.z as int,
                ) == c;
            assert(i < n);
        }
    }
}

proof fn lemma_flat_is_number(layers: Seq<LayerModel>, n: nat, v: UVec3)
    ensures
        !is_nan(flat_at(layers, n, v)),
    decreases n,
{
    if n > 0 {
        lemma_flat_is_number(layers, (n - 1) as nat, v);
    }
}

/// What is flattened is solid exactly where a visible layer is solid.
pub proof fn law_flat_is_solid_where_a_layer_is(layers: Seq<LayerModel>, n: nat, v: UVec3)
    requires
        n <= layers.len(),
    ensures
        solid(flat_at(layers, n, v)) <==> exists|i: int|
            0 <= i < n && (#[trigger] layers[i]).visible && solid(
                layers[i].grid.at(v.x as int, v.y as int, v.z as int),
            ),
    decreases n,
{
    if n > 0 {
        let m = (n - 1) as nat;
        law_flat_is_solid_where_a_layer_is(layers, m, v);
        lemma_flat_is_number(layers, m, v);
        let l = layers[n - 1];
        let s = l.grid.at(v.x as int, v.y as int, v.z as int);
        if solid(flat_at(layers, n, v)) {
            if flat_wins(layers, m, v) {
                assert(layers[n - 1].visible);
            } else {
                let i = choose|i: int|
                    0 <= i < m && (#[trigger] layers[i]).visible && solid(
                        layers[i].grid.at(v.x as int, v.y as int, v.z as int),
                    );
                assert(layers[i].visible);
            }
        }
        if exists|i: int|
            0 <= i < n && (#[trigger] layers[i]).visible && solid(
                layers[i].grid.at(v.x as int, v.y as int, v.z as int),
            ) {
            let i = choose|i: int|
                0 <= i < n && (#[trigger] layers[i]).visible && solid(
                    layers[i].grid.at(v.x as int, v.y as int, v.z as int),
                );
            if i < m {
                assert(solid(flat_at(layers, m, v)));
            } else {
                assert(solid(s));
                assert(l.grid.tiles.dom().contains(tile_of(v.x as int, v.y as int, v.z as int)));
            }
        }
    }
}

/// The nearest hit among the first `n` layers, hidden ones left out; of two equally
/// near hits the lower layer's.
pub open spec fn nearest(layers: Seq<LayerModel>, hits: Seq<Option<u32>>, n: nat) -> Option<int>
    decreases n,
{
    if n == 0 {
        None
    } else {
        let before = nearest(layers, hits, (n - 1) as nat);
        if !layers[n - 1].visible {
            before
        } else {
            match (before, hits[n - 1]) {
                (_, None) => before,
                (None, Some(_)) => Some(n - 1),
                (Some(b), Some(d)) => if lt(d, hits[b]->0) {
                    Some(n - 1)
                } else {
                    before
                },
            }
        }
    }
}

/// The hit is of a visible layer, and no visible layer is hit nearer.
pub proof fn law_nearest_is_nearest(layers: Seq<LayerModel>, hits: Seq<Option<u32>>, n: nat)
    requires
        n <= layers.len(),
        n <= hits.len(),
        forall|i: int| 0 <= i < n && (#[trigger] hits[i]) is Some ==> !is_nan(hits[i]->0),
    ensures
        nearest(layers, hits, n) is None <==> forall|i: int|
            0 <= i < n ==> !((#[trigger] layers[i]).visible && hits[i] is Some),
        nearest(layers, hits, n) matches Some(b) ==> {
            &&& 0 <= b < n
            &&& layers[b].visible
            &&& hits[b] is Some
            &&& forall|i: int|
                0 <= i < n && (#[trigger] layers[i]).visible && hits[i] is Some ==> !lt(
                    hits[i]->0,
                    hits[b]->0,
                )
        },
    decreases n,
{
    if n > 0 {
        let m = (n - 1) as nat;
        law_nearest_is_nearest(layers, hits, m);
        assert(hits[n - 1] is Some ==> !is_nan(hits[n - 1]->0));
        if nearest(layers, hits, m) is None {
            assert(forall|i: int| 0 <= i < m ==> !((#[trigger] layers[i]).visible && hits[i] is Some));
        }
        if layers[n - 1].visible && hits[n - 1] is Some {
            assert(!(!(layers[n - 1].visible && hits[n - 1] is Some)));
        }
        if nearest(layers, hits, n) is Some {
            let b = nearest(layers, hits, n)->0;
            assert(layers[b].visible && hits[b] is Some);
        }
    }
}

impl LayersState {
    /// The union of all visible layers, for export.
    pub fn visible_union_grid(&self) -> (r: Grid)
        requires
            self.wf(),
        ensures
            r.wf(),
            r@.same_domain(self@.layers[self@.active].grid),
            is_flat(r@, self@.layers, self@.layers.len()),
    {
        let domain = &self.layers[self.active].grid;
        let mut out = Grid::empty(domain.res(), domain.voxel_size(), domain.origin());
        let ghost layers = self@.layers;
        proof {
            assert forall|c: ChunkCoord| #[trigger]
                out@.tiles.dom().contains(c) <==> flat_stores(layers, 0, out@.res, c) by {}
        }
        let mut i: usize = 0;
        while i < self.layers.len()
            invariant
                self.wf(),
                layers == self@.layers,
                i <= self.layers.len(),
                out.wf(),
                out@.same_domain(layers[self@.active].grid),
                is_flat(out@, layers, i as nat),
            decreases self.layers.len() - i,
        {
            let ghost before = out@;
            assert(layers[i as int] == self.layers@[i as int]@);
            if self.layers[i].visible {
                unite(&mut out, &self.layers[i].grid);
                proof {
                    lemma_flat_step(before, out@, layers, i as nat);
                }
            } else {
                proof {
                    lemma_flat_skip(before, layers, i as nat);
                }
            }
            i = i + 1;
        }
        out
    }

    /// The visible layer that a ray hits first, given the distance at which it hits
    /// each layer.
    pub fn ray_march_visible(&self, hits: &Vec<Option<u32>>) -> (r: Option<usize>)
        requires
            hits.len() == self.layers.len(),
        ensures
            r is None <==> nearest(self@.layers, hits@, self@.layers.len()) is None,
            r matches Some(i) ==> nearest(self@.layers, hits@, self@.layers.len()) == Some(i as int)
                && i < self.layers.len(),
    {
        let ghost layers = self@.layers;
        let mut best: Option<(usize, u32)> = None;
        let mut i: usize = 0;
        while i < self.layers.len()
            invariant
                i <= self.layers.len(),
                layers == self@.layers,
                hits.len() == self.layers.len(),
                best is None <==> nearest(layers, hits@, i as nat) is None,
                best matches Some(b) ==> nearest(layers, hits@, i as nat) == Some(b.0 as int) && b.0 < i
                    && hits@[b.0 as int] == Some(b.1),
            decreases self.layers.len() - i,
        {
            assert(layers[i as int] == self.layers@[i as int]@);
            if self.layers[i].visible {
                match hits[i] {
                    Some(d) => {
                        let closer: bool = match best {
                            Some(b) => less(d, b.1),
                            None => true,
                        };
                        if closer {
                            best = Some((i, d));
                        }
                    },
                    None => {},
                }
            }
            i = i + 1;
        }
        match best {
            Some(b) => Some(b.0),
            None => None,
        }
    }
}

/// A grid can take the place of another if and only if it has as many voxels along each axis,
/// and these are of the same size.
pub proof fn law_swap_needs_the_same_shape(current: GridView, incoming: GridView)
    ensures
        swap_error(current, incoming) is None <==> {
            &&& incoming.res.x == current.res.x
            &&& incoming.res.y == current.res.y
            &&& incoming.res.z == current.res.z
            &&& !clearly_apart(incoming.voxel_size, current.voxel_size)
        },
        swap_error(current, current) is None,
{
    law_unmoved_from_itself(current.voxel_size);
}

/// A layer is reported as one that does not fit exactly if it is the first that does not fit
/// the lowest layer.
pub proof fn law_first_misfit_is_reported(layers: Seq<SceneLayer>, n: nat)
    requires
        n <= layers.len(),
    ensures
        match misfit(layers, n) {
            Some(i) => {
                &&& 0 <= i < n
                &&& !fits(layers[0].3@, layers[i].3@)
                &&& forall|j: int| 0 <= j < i ==> fits(layers[0].3@, (#[trigger] layers[j]).3@)
            },
            None => forall|j: int| 0 <= j < n ==> fits(layers[0].3@, (#[trigger] layers[j]).3@),
        },
    decreases n,
{
    if n > 0 {
        law_first_misfit_is_reported(layers, (n - 1) as nat);
    }
}

/// The number that is given to the next layer is that of no loaded layer, as long as there are
/// numbers left.
pub proof fn law_next_number_is_free(layers: Seq<SceneLayer>, n: nat, i: int)
    requires
        n <= layers.len(),
        0 <= i < n,
        layers[i].0 < u32::MAX,
    ensures
        next_free(layers, n) > layers[i].0,
        next_free(layers, n) >= 1,
    decreases n,
{
    if i < n - 1 {
        law_next_number_is_free(layers, (n - 1) as nat, i);
    }
}

/// Every entity of every layer is taken off the screen.
pub proof fn law_no_entity_is_left(layers: Seq<LayerModel>, n: nat, i: int, k: int)
    requires
        n <= layers.len(),
        0 <= i < n,
        0 <= k < entities(layers[i]).len(),
    ensures
        all_entities(layers, n).contains(entities(layers[i])[k]),
    decreases n,
{
    let before = all_entities(layers, (n - 1) as nat);
    let last = entities(layers[n - 1]);
    let all = all_entities(layers, n);
    if i == n - 1 {
        assert(all[before.len() + k] == last[k]);
    } else {
        law_no_entity_is_left(layers, (n - 1) as nat, i, k);
        let e = entities(layers[i])[k];
        let j = choose|j: int| 0 <= j < before.len() && before[j] == e;
        assert(all[j] == e);
    }
}

} // verus!
