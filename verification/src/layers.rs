//! The layers of a workpiece: a stack of grids that share one domain, one of them
//! active.
//!
//! A layer also keeps which chunks are on screen, by the number of the entity that
//! shows each, and which chunks need a new mesh. Entities of layers that are gone
//! wait in a list until they are taken off the screen.

use crate::chunk_table::{values_of, ChunkSet, ChunkTable};
use crate::dirty::DirtyRegion;
use crate::grid::{chunks_along, ChunkCoord, Grid, GridView};
use crate::text::{trim_text, trimmed};
use crate::vec3::UVec3;
use vstd::prelude::*;
use vstd::string::StringExecFns;

verus! {

/// Stable number of a layer, independent of its place in the stack.
pub type LayerId = u32;

/// One layer.
pub struct Layer {
    pub id: LayerId,
    pub name: String,
    pub visible: bool,
    pub grid: Grid,
    /// The entity that shows each chunk, for the chunks that are on screen.
    pub chunks: ChunkTable<u64>,
    /// The chunks that need a new mesh.
    pub dirty: ChunkSet,
    /// The material that the chunks are shown with.
    pub material: u64,
}

/// A layer without what is on screen, as undo keeps it.
pub struct LayerSnapshot {
    pub id: LayerId,
    pub name: String,
    pub visible: bool,
    pub material: u64,
    pub grid: Grid,
}

/// What a layer snapshot holds.
#[verifier::ext_equal]
pub struct SnapshotModel {
    pub id: LayerId,
    pub name: Seq<char>,
    pub visible: bool,
    pub material: u64,
    pub grid: GridView,
}

/// What a layer holds.
#[verifier::ext_equal]
pub struct LayerModel {
    pub id: LayerId,
    pub name: Seq<char>,
    pub visible: bool,
    pub grid: GridView,
    pub chunks: Seq<(ChunkCoord, u64)>,
    pub dirty: Set<ChunkCoord>,
    pub material: u64,
}

impl LayerModel {
    /// The layer without what is on screen.
    pub open spec fn snapshot(self) -> SnapshotModel {
        SnapshotModel {
            id: self.id,
            name: self.name,
            visible: self.visible,
            material: self.material,
            grid: self.grid,
        }
    }
}

impl SnapshotModel {
    /// The layer of a snapshot: nothing is on screen, and every stored chunk needs
    /// a mesh.
    pub open spec fn layer(self) -> LayerModel {
        LayerModel {
            id: self.id,
            name: self.name,
            visible: self.visible,
            grid: self.grid,
            chunks: Seq::empty(),
            dirty: self.grid.tiles.dom(),
            material: self.material,
        }
    }
}

impl View for LayerSnapshot {
    type V = SnapshotModel;

    open spec fn view(&self) -> SnapshotModel {
        SnapshotModel {
            id: self.id,
            name: self.name@,
            visible: self.visible,
            material: self.material,
            grid: self.grid@,
        }
    }
}

impl View for Layer {
    type V = LayerModel;

    open spec fn view(&self) -> LayerModel {
        LayerModel {
            id: self.id,
            name: self.name@,
            visible: self.visible,
            grid: self.grid@,
            chunks: self.chunks.entries(),
            dirty: self.dirty@,
            material: self.material,
        }
    }
}

/// All chunks of a domain.
pub open spec fn all_chunks(res: UVec3) -> Set<ChunkCoord> {
    Set::new(|c: ChunkCoord| c.within(res))
}

/// All chunks of a domain.
pub(crate) fn every_chunk(res: UVec3) -> (r: ChunkSet)
    ensures
        r.wf(),
        r@ == all_chunks(res),
{
    let mut r = ChunkSet::new();
    if res.x > 0 && res.y > 0 && res.z > 0 {
        let whole = DirtyRegion { min: UVec3 { x: 0, y: 0, z: 0 }, max: res };
        let list = whole.touched_chunks(res);
        r.insert_all(&list);
        proof {
            assert forall|c: ChunkCoord| #[trigger] r@.contains(c) <==> c.within(res) by {
                assert(list@.contains(c) <==> whole.touches(res, c));
                assert(c.x < chunks_along(res.x) <==> c.x * 32 < res.x);
                assert(c.y < chunks_along(res.y) <==> c.y * 32 < res.y);
                assert(c.z < chunks_along(res.z) <==> c.z * 32 < res.z);
            }
            assert(r@ =~= all_chunks(res));
        }
    } else {
        assert(r@ =~= all_chunks(res));
    }
    r
}

/// The stored chunks of a grid.
pub(crate) fn stored_chunks(grid: &Grid) -> (r: ChunkSet)
    requires
        grid.wf(),
    ensures
        r.wf(),
        r@ == grid@.tiles.dom(),
{
    let mut r = ChunkSet::new();
    let list = grid.allocated_chunk_coords();
    r.insert_all(&list);
    assert(r@ =~= grid@.tiles.dom());
    r
}

impl Layer {
    /// The parts of the layer are well formed.
    pub open spec fn wf(&self) -> bool {
        &&& self.grid.wf()
        &&& self.chunks.wf()
        &&& self.dirty.wf()
    }

    /// Mark a chunk of this layer as needing a new mesh.
    pub fn mark_dirty(&mut self, key: ChunkCoord)
        requires
            old(self).wf(),
        ensures
            final(self).wf(),
            final(self)@ == (LayerModel { dirty: old(self)@.dirty.insert(key), ..old(self)@ }),
    {
        self.dirty.insert(key);
    }

    /// A new layer: visible, nothing on screen, every chunk in need of a mesh.
    pub fn new(id: LayerId, name: String, grid: Grid, material: u64) -> (r: Layer)
        requires
            grid.wf(),
        ensures
            r.wf(),
            r@ == (LayerModel {
                id,
                name: name@,
                visible: true,
                grid: grid@,
                chunks: Seq::empty(),
                dirty: all_chunks(grid@.res),
                material,
            }),
    {
        let dirty = every_chunk(grid.res());
        Layer { id, name, visible: true, grid, chunks: ChunkTable::new(), dirty, material }
    }

    /// Mark every stored chunk as needing a new mesh.
    fn redirty(&mut self)
        requires
            old(self).wf(),
        ensures
            final(self).wf(),
            final(self)@ == (LayerModel {
                dirty: old(self)@.dirty.union(old(self)@.grid.tiles.dom()),
                ..old(self)@
            }),
    {
        let list = self.grid.allocated_chunk_coords();
        self.dirty.insert_all(&list);
        assert(list@.to_set() =~= old(self)@.grid.tiles.dom());
        assert(self@.dirty =~= old(self)@.dirty.union(old(self)@.grid.tiles.dom()));
    }
}

impl LayerSnapshot {
    /// Keep a layer without what is on screen.
    pub fn from_layer(layer: &Layer) -> (r: LayerSnapshot)
        requires
            layer.wf(),
        ensures
            r.grid.wf(),
            r@ == layer@.snapshot(),
    {
        LayerSnapshot {
            id: layer.id,
            name: layer.name.clone(),
            visible: layer.visible,
            material: layer.material,
            grid: layer.grid.clone(),
        }
    }

    /// The layer of a snapshot.
    fn into_layer(self) -> (r: Layer)
        requires
            self.grid.wf(),
        ensures
            r.wf(),
            r@ == self@.layer(),
    {
        let dirty = stored_chunks(&self.grid);
        Layer {
            id: self.id,
            name: self.name,
            visible: self.visible,
            grid: self.grid,
            chunks: ChunkTable::new(),
            dirty,
            material: self.material,
        }
    }
}

/// The stack of layers.
pub struct LayersState {
    pub layers: Vec<Layer>,
    pub active: usize,
    pub next_id: LayerId,
    /// Entities of layers that are gone, to be taken off the screen.
    pub pending_despawn: Vec<u64>,
}

/// What the stack of layers holds.
#[verifier::ext_equal]
pub struct LayersModel {
    pub layers: Seq<LayerModel>,
    pub active: int,
    pub next_id: LayerId,
    pub pending: Seq<u64>,
}

impl View for LayersState {
    type V = LayersModel;

    open spec fn view(&self) -> LayersModel {
        LayersModel {
            layers: Seq::new(self.layers@.len(), |i: int| self.layers@[i]@),
            active: self.active as int,
            next_id: self.next_id,
            pending: self.pending_despawn@,
        }
    }
}

/// The entities of a layer.
pub open spec fn entities(l: LayerModel) -> Seq<u64> {
    values_of(l.chunks)
}

/// Which layer is active after layer `idx` is removed: the same one, or its lower
/// neighbour if it is the one removed.
pub open spec fn active_after_remove(active: int, idx: int) -> int {
    if active > idx {
        active - 1
    } else if active == idx {
        if idx > 0 {
            idx - 1
        } else {
            0
        }
    } else {
        active
    }
}

impl LayersModel {
    /// The stack without layer `idx`.
    pub open spec fn without(self, idx: int) -> LayersModel {
        LayersModel {
            layers: self.layers.remove(idx),
            active: active_after_remove(self.active, idx),
            next_id: self.next_id,
            pending: self.pending + entities(self.layers[idx]),
        }
    }

    /// The stack with a layer put back at place `idx`, or on top if there is no such
    /// place. The active layer stays the same one.
    pub open spec fn with(self, idx: int, snap: SnapshotModel) -> LayersModel {
        let at = if idx <= self.layers.len() {
            idx
        } else {
            self.layers.len() as int
        };
        LayersModel {
            layers: self.layers.insert(at, snap.layer()),
            active: if self.active >= at {
                self.active + 1
            } else {
                self.active
            },
            next_id: later_id(self.next_id, snap.id),
            pending: self.pending,
        }
    }
}

/// The next free number, when `id` is taken.
pub open spec fn later_id(next: LayerId, id: LayerId) -> LayerId {
    if id == u32::MAX || id < next {
        if id == u32::MAX {
            u32::MAX
        } else {
            next
        }
    } else {
        (id + 1) as u32
    }
}

pub(crate) fn free_id(next: LayerId, id: LayerId) -> (r: LayerId)
    ensures
        r == later_id(next, id),
{
    let after: u32 = if id == u32::MAX {
        u32::MAX
    } else {
        id + 1
    };
    if after > next {
        after
    } else {
        next
    }
}

impl LayersState {
    /// There is an active layer, and all layers share one resolution.
    pub open spec fn wf(&self) -> bool {
        &&& self.active < self.layers@.len()
        &&& forall|i: int| 0 <= i < self.layers@.len() ==> (#[trigger] self.layers@[i]).wf()
        &&& forall|i: int|
            0 <= i < self.layers@.len() ==> (#[trigger] self.layers@[i]).grid@.res == self.res()
    }

    /// The resolution of the shared domain.
    pub open spec fn res(&self) -> UVec3 {
        self.layers@[self.active as int].grid@.res
    }

    /// A stack of one layer.
    pub fn new(grid: Grid, material: u64) -> (r: LayersState)
        requires
            grid.wf(),
        ensures
            r.wf(),
            r@ == (LayersModel {
                layers: seq![
                    LayerModel {
                        id: 0,
                        name: "Layer 1"@,
                        visible: true,
                        grid: grid@,
                        chunks: Seq::empty(),
                        dirty: all_chunks(grid@.res),
                        material,
                    },
                ],
                active: 0,
                next_id: 1,
                pending: Seq::empty(),
            }),
    {
        let mut layers: Vec<Layer> = Vec::new();
        layers.push(Layer::new(0, String::from_str("Layer 1"), grid, material));
        let r = LayersState { layers, active: 0, next_id: 1, pending_despawn: Vec::new() };
        assert(r@.layers =~= seq![r.layers@[0]@]);
        r
    }

    /// The grid of the active layer.
    pub fn grid(&self) -> (r: &Grid)
        requires
            self.wf(),
        ensures
            r.wf(),
            r@ == self@.layers[self@.active].grid,
    {
        &self.layers[self.active].grid
    }

    /// The grid of the active layer, to be written to.
    pub fn grid_mut(&mut self) -> (r: &mut Grid)
        requires
            old(self).wf(),
        ensures
            r.wf(),
            r@ == old(self)@.layers[old(self)@.active].grid,
            final(self)@ == (LayersModel {
                layers: old(self)@.layers.update(
                    old(self)@.active,
                    LayerModel { grid: final(r)@, ..old(self)@.layers[old(self)@.active] },
                ),
                ..old(self)@
            }),
            final(self).res() == final(r)@.res,
            final(r).wf() && final(r)@.res == old(self).res() ==> final(self).wf(),
    {
        let i: usize = self.active;
        let layer = &mut self.layers[i];
        &mut layer.grid
    }

    /// Mark a chunk of the active layer as needing a new mesh.
    pub fn mark_dirty(&mut self, key: ChunkCoord)
        requires
            old(self).wf(),
        ensures
            final(self).wf(),
            final(self).res() == old(self).res(),
            final(self)@ == (LayersModel {
                layers: old(self)@.layers.update(
                    old(self)@.active,
                    LayerModel {
                        dirty: old(self)@.layers[old(self)@.active].dirty.insert(key),
                        ..old(self)@.layers[old(self)@.active]
                    },
                ),
                ..old(self)@
            }),
    {
        let i: usize = self.active;
        self.layers[i].mark_dirty(key);
        assert(self@.layers =~= old(self)@.layers.update(
            old(self)@.active,
            LayerModel {
                dirty: old(self)@.layers[old(self)@.active].dirty.insert(key),
                ..old(self)@.layers[old(self)@.active]
            },
        ));
    }

    /// Mark several chunks of layer `i` as needing a new mesh.
    pub fn mark_all_dirty(&mut self, i: usize, keys: &Vec<ChunkCoord>)
        requires
            old(self).wf(),
            i < old(self).layers.len(),
        ensures
            final(self).wf(),
            final(self).res() == old(self).res(),
            final(self)@ == (LayersModel {
                layers: old(self)@.layers.update(
                    i as int,
                    LayerModel {
                        dirty: old(self)@.layers[i as int].dirty.union(keys@.to_set()),
                        ..old(self)@.layers[i as int]
                    },
                ),
                ..old(self)@
            }),
    {
        self.layers[i].dirty.insert_all(keys);
        assert(self@.layers =~= old(self)@.layers.update(
            i as int,
            LayerModel {
                dirty: old(self)@.layers[i as int].dirty.union(keys@.to_set()),
                ..old(self)@.layers[i as int]
            },
        ));
    }

    /// The active layer.
    pub fn active_layer(&self) -> (r: &Layer)
        requires
            self.wf(),
        ensures
            r.wf(),
            r@ == self@.layers[self@.active],
    {
        &self.layers[self.active]
    }

    /// All layers, from the bottom up.
    pub fn layers(&self) -> (r: &Vec<Layer>)
        ensures
            r@ == self.layers@,
    {
        &self.layers
    }

    /// The number of the active layer.
    pub fn active_id(&self) -> (r: LayerId)
        requires
            self.wf(),
        ensures
            r == self@.layers[self@.active].id,
    {
        self.layers[self.active].id
    }

    /// The material of the active layer.
    pub fn active_material(&self) -> (r: u64)
        requires
            self.wf(),
        ensures
            r == self@.layers[self@.active].material,
    {
        self.layers[self.active].material
    }

    /// The place of the active layer.
    pub fn active_index(&self) -> (r: usize)
        ensures
            r == self@.active,
    {
        self.active
    }

    /// How many layers there are.
    pub fn layer_count(&self) -> (r: usize)
        ensures
            r == self@.layers.len(),
    {
        self.layers.len()
    }

    /// Make the layer at place `idx` active, if there is one.
    pub fn set_active_index(&mut self, idx: usize)
        requires
            old(self).wf(),
        ensures
            final(self).wf(),
            final(self).res() == old(self).res(),
            final(self)@ == (LayersModel {
                active: if idx < old(self)@.layers.len() {
                    idx as int
                } else {
                    old(self)@.active
                },
                ..old(self)@
            }),
    {
        if idx < self.layers.len() {
            self.active = idx;
        }
        assert(self@.layers =~= old(self)@.layers);
    }

    /// Put a new layer on top and make it active. The result is its number.
    pub fn push_new_layer(&mut self, grid: Grid, material: u64, name: String) -> (r: LayerId)
        requires
            old(self).wf(),
            grid.wf(),
            grid@.res == old(self).res(),
            old(self).next_id < u32::MAX,
        ensures
            final(self).wf(),
            final(self).res() == old(self).res(),
            r == old(self)@.next_id,
            final(self)@ == (LayersModel {
                layers: old(self)@.layers.push(
                    LayerModel {
                        id: r,
                        name: name@,
                        visible: true,
                        grid: grid@,
                        chunks: Seq::empty(),
                        dirty: all_chunks(grid@.res),
                        material,
                    },
                ),
                active: old(self)@.layers.len() as int,
                next_id: (old(self)@.next_id + 1) as u32,
                ..old(self)@
            }),
    {
        let id: u32 = self.next_id;
        self.next_id = self.next_id + 1;
        let ghost m = old(self)@;
        let ghost one = LayerModel {
            id,
            name: name@,
            visible: true,
            grid: grid@,
            chunks: Seq::empty(),
            dirty: all_chunks(grid@.res),
            material,
        };
        self.layers.push(Layer::new(id, name, grid, material));
        self.active = self.layers.len() - 1;
        assert(self@.layers =~= m.layers.push(one));
        id
    }

    /// A layer to change in place, if there is one there.
    pub fn layer_mut(&mut self, idx: usize) -> (r: Option<&mut Layer>)
        ensures
            match r {
                None => idx >= old(self).layers.len() && *final(self) == *old(self),
                Some(l) => {
                    &&& idx < old(self).layers.len()
                    &&& *l == old(self).layers@[idx as int]
                    &&& final(self).layers@ == old(self).layers@.update(idx as int, *final(l))
                    &&& final(self).active == old(self).active
                    &&& final(self).next_id == old(self).next_id
                    &&& final(self).pending_despawn == old(self).pending_despawn
                },
            },
    {
        if idx < self.layers.len() {
            Some(&mut self.layers[idx])
        } else {
            None
        }
    }

    /// The first layer of an id to change in place, if there is one.
    pub fn layer_by_id_mut(&mut self, id: LayerId) -> (r: Option<&mut Layer>)
        ensures
            match r {
                None => {
                    &&& forall|i: int|
                        0 <= i < old(self).layers.len() ==> (#[trigger] old(self).layers@[i]).id != id
                    &&& *final(self) == *old(self)
                },
                Some(l) => exists|k: int|
                    {
                        &&& 0 <= k < old(self).layers.len()
                        &&& (#[trigger] old(self).layers@[k]).id == id
                        &&& forall|i: int| 0 <= i < k ==> (#[trigger] old(self).layers@[i]).id != id
                        &&& *l == old(self).layers@[k]
                        &&& final(self).layers@ == old(self).layers@.update(k, *final(l))
                        &&& final(self).active == old(self).active
                        &&& final(self).next_id == old(self).next_id
                        &&& final(self).pending_despawn == old(self).pending_despawn
                    },
            },
    {
        let found = self.index_of(id);
        assert forall|i: int| 0 <= i < self.layers.len() implies (#[trigger] self.layers@[i]).id
            == self@.layers[i].id by {}
        match found {
            Some(k) => {
                assert(self.layers@[k as int].id == id);
                Some(&mut self.layers[k])
            },
            None => None,
        }
    }

    /// The place of the first layer with the given number.
    pub fn index_of(&self, id: LayerId) -> (r: Option<usize>)
        ensures
            r is None <==> forall|i: int| 0 <= i < self@.layers.len() ==> (#[trigger] self@.layers[i]).id != id,
            r matches Some(k) ==> {
                &&& k < self@.layers.len()
                &&& self@.layers[k as int].id == id
                &&& forall|i: int| 0 <= i < k ==> (#[trigger] self@.layers[i]).id != id
            },
    {
        let mut i: usize = 0;
        while i < self.layers.len()
            invariant
                i <= self.layers.len(),
                forall|k: int| 0 <= k < i ==> (#[trigger] self.layers@[k]).id != id,
            decreases self.layers.len() - i,
        {
            if self.layers[i].id == id {
                assert(self@.layers[i as int].id == id);
                return Some(i);
            }
            i = i + 1;
        }
        None
    }

    /// Mark every stored chunk of every visible layer as needing a new mesh.
    pub fn redirty_all_meshes(&mut self)
        requires
            old(self).wf(),
        ensures
            final(self).wf(),
            final(self).res() == old(self).res(),
            final(self)@ == (LayersModel {
                layers: Seq::new(
                    old(self)@.layers.len(),
                    |i: int| redirtied(old(self)@.layers[i]),
                ),
                ..old(self)@
            }),
    {
        let ghost was = self@;
        let mut i: usize = 0;
        while i < self.layers.len()
            invariant
                self.wf(),
                i <= self.layers.len(),
                self.layers.len() == was.layers.len(),
                self@.active == was.active,
                self@.next_id == was.next_id,
                self@.pending == was.pending,
                self.res() == old(self).res(),
                forall|k: int|
                    0 <= k < self.layers@.len() ==> #[trigger] self.layers@[k]@ == (if k < i {
                        redirtied(was.layers[k])
                    } else {
                        was.layers[k]
                    }),
            decreases self.layers.len() - i,
        {
            let ghost mid = self.layers@;
            assert(self.layers@[i as int]@ == was.layers[i as int]);
            if self.layers[i].visible {
                self.layers[i].redirty();
            }
            assert forall|k: int| 0 <= k < self.layers@.len() implies #[trigger] self.layers@[k]@ == (
            if k < i + 1 {
                redirtied(was.layers[k])
            } else {
                was.layers[k]
            }) by {
                assert(mid[k]@ == (if k < i {
                    redirtied(was.layers[k])
                } else {
                    was.layers[k]
                }));
            }
            i = i + 1;
        }
        assert(self@.layers =~= Seq::new(was.layers.len(), |i: int| redirtied(was.layers[i])));
    }

    /// Show or hide a layer. Showing it again marks its stored chunks as needing a
    /// mesh. The result says whether there is such a layer.
    pub fn set_visible(&mut self, idx: usize, visible: bool) -> (r: bool)
        requires
            old(self).wf(),
        ensures
            final(self).wf(),
            final(self).res() == old(self).res(),
            r == (idx < old(self)@.layers.len()),
            final(self)@ == (if r {
                LayersModel {
                    layers: old(self)@.layers.update(
                        idx as int,
                        shown(old(self)@.layers[idx as int], visible),
                    ),
                    ..old(self)@
                }
            } else {
                old(self)@
            }),
    {
        let ghost was = self@;
        if idx >= self.layers.len() {
            return false;
        }
        if self.layers[idx].visible == visible {
            assert(self@.layers =~= was.layers.update(idx as int, shown(was.layers[idx as int], visible)));
            return true;
        }
        self.layers[idx].visible = visible;
        if visible {
            self.layers[idx].redirty();
        }
        assert(self@.layers =~= was.layers.update(idx as int, shown(was.layers[idx as int], visible)));
        true
    }

    /// Rename a layer. A name of nothing but white space is refused, and white space
    /// around a name is dropped.
    pub fn rename_layer(&mut self, idx: usize, name: &str) -> (r: bool)
        requires
            old(self).wf(),
        ensures
            final(self).wf(),
            final(self).res() == old(self).res(),
            r == (trimmed(name@).len() > 0 && idx < old(self)@.layers.len()),
            final(self)@ == (if r {
                LayersModel {
                    layers: old(self)@.layers.update(
                        idx as int,
                        LayerModel { name: trimmed(name@), ..old(self)@.layers[idx as int] },
                    ),
                    ..old(self)@
                }
            } else {
                old(self)@
            }),
    {
        let ghost was = self@;
        let kept = trim_text(name);
        if kept.as_str().is_empty() || idx >= self.layers.len() {
            return false;
        }
        self.layers[idx].name = kept;
        assert(self@.layers =~= was.layers.update(
            idx as int,
            LayerModel { name: trimmed(name@), ..was.layers[idx as int] },
        ));
        true
    }

    /// Move the entities of a layer that is gone to the list of those to be taken
    /// off the screen.
    fn retire(&mut self, chunks: &ChunkTable<u64>)
        requires
            chunks.wf(),
        ensures
            final(self).layers@ == old(self).layers@,
            final(self).active == old(self).active,
            final(self).next_id == old(self).next_id,
            final(self).pending_despawn@ == old(self).pending_despawn@ + values_of(chunks.entries()),
    {
        let n: usize = chunks.len();
        let ghost was = self.pending_despawn@;
        let mut i: usize = 0;
        while i < n
            invariant
                chunks.wf(),
                n == chunks.entries().len(),
                i <= n,
                self.layers@ == old(self).layers@,
                self.active == old(self).active,
                self.next_id == old(self).next_id,
                self.pending_despawn@ =~= was + values_of(chunks.entries()).subrange(0, i as int),
            decreases n - i,
        {
            self.pending_despawn.push(chunks.entry(i).1);
            i = i + 1;
        }
        assert(self.pending_despawn@ =~= was + values_of(chunks.entries()));
    }

    /// Remove a layer that is not the last one.
    pub(crate) fn remove_layer_at(&mut self, idx: usize)
        requires
            old(self).wf(),
            idx < old(self).layers.len(),
            old(self).layers.len() > 1,
        ensures
            final(self).wf(),
            final(self).res() == old(self).res(),
            final(self)@ == old(self)@.without(idx as int),
    {
        let ghost was = self@;
        let layer = self.layers.remove(idx);
        self.retire(&layer.chunks);
        if self.active > idx {
            self.active = self.active - 1;
        } else if self.active == idx {
            self.active = if idx > 0 {
                idx - 1
            } else {
                0
            };
        }
        assert(self@.layers =~= was.layers.remove(idx as int));
        assert forall|i: int| 0 <= i < self.layers@.len() implies (#[trigger] self.layers@[i]).wf()
            && self.layers@[i].grid@.res == old(self).res() by {
            if i < idx {
                assert(self.layers@[i] == old(self).layers@[i]);
            } else {
                assert(self.layers@[i] == old(self).layers@[i + 1]);
            }
        }
    }

    /// Delete a layer, unless it is the last one. The result is what undo needs: the
    /// layer, and the place of the layer that was active.
    pub fn delete_layer(&mut self, idx: usize) -> (r: Option<(LayerSnapshot, usize)>)
        requires
            old(self).wf(),
        ensures
            final(self).wf(),
            final(self).res() == old(self).res(),
            r is Some <==> old(self)@.layers.len() > 1 && idx < old(self)@.layers.len(),
            r matches Some(p) ==> {
                &&& p.0.grid.wf()
                &&& p.0@ == old(self)@.layers[idx as int].snapshot()
                &&& p.1 == old(self)@.active
                &&& final(self)@ == old(self)@.without(idx as int)
            },
            r is None ==> final(self)@ == old(self)@,
    {
        if self.layers.len() <= 1 || idx >= self.layers.len() {
            return None;
        }
        let previous: usize = self.active;
        let snapshot = LayerSnapshot::from_layer(&self.layers[idx]);
        self.remove_layer_at(idx);
        Some((snapshot, previous))
    }

    /// Drop a layer without keeping it, unless it is the last one.
    pub fn drop_layer_at(&mut self, idx: usize) -> (r: bool)
        requires
            old(self).wf(),
        ensures
            final(self).wf(),
            final(self).res() == old(self).res(),
            r == (old(self)@.layers.len() > 1 && idx < old(self)@.layers.len()),
            final(self)@ == (if r {
                old(self)@.without(idx as int)
            } else {
                old(self)@
            }),
    {
        if self.layers.len() <= 1 || idx >= self.layers.len() {
            return false;
        }
        self.remove_layer_at(idx);
        true
    }

    /// Put a layer back.
    pub fn restore_layer_at(&mut self, idx: usize, snap: LayerSnapshot)
        requires
            old(self).wf(),
            snap.grid.wf(),
            snap.grid@.res == old(self).res(),
            old(self).layers.len() < usize::MAX,
        ensures
            final(self).wf(),
            final(self).res() == old(self).res(),
            final(self)@ == old(self)@.with(idx as int, snap@),
    {
        let ghost was = self@;
        let ghost s = snap@;
        let at: usize = if idx <= self.layers.len() {
            idx
        } else {
            self.layers.len()
        };
        let id: u32 = snap.id;
        let layer = snap.into_layer();
        self.next_id = free_id(self.next_id, id);
        self.layers.insert(at, layer);
        if self.active >= at {
            self.active = self.active + 1;
        }
        assert(self@.layers =~= was.layers.insert(at as int, s.layer()));
        assert forall|i: int| 0 <= i < self.layers@.len() implies (#[trigger] self.layers@[i]).wf()
            && self.layers@[i].grid@.res == old(self).res() by {
            if i < at {
                assert(self.layers@[i] == old(self).layers@[i]);
            } else if i > at {
                assert(self.layers@[i] == old(self).layers@[i - 1]);
            }
        }
    }
}

/// A layer after its stored chunks were marked, if it is visible.
pub open spec fn redirtied(l: LayerModel) -> LayerModel {
    if l.visible {
        LayerModel { dirty: l.dirty.union(l.grid.tiles.dom()), ..l }
    } else {
        l
    }
}

/// A layer after it was shown or hidden.
pub open spec fn shown(l: LayerModel, visible: bool) -> LayerModel {
    if l.visible == visible {
        l
    } else if visible {
        LayerModel { visible, dirty: l.dirty.union(l.grid.tiles.dom()), ..l }
    } else {
        LayerModel { visible, ..l }
    }
}

/// Taking a layer out leaves the others in their order, and the active one active; when it is
/// the active one that goes, the one below it becomes active, or the lowest.
pub proof fn law_removing_keeps_the_active_layer(m: LayersModel, idx: int)
    requires
        0 <= idx < m.layers.len(),
        0 <= m.active < m.layers.len(),
        m.layers.len() > 1,
    ensures
        ({
            let r = m.without(idx);
            &&& r.layers.len() == m.layers.len() - 1
            &&& 0 <= r.active < r.layers.len()
            &&& m.active != idx ==> r.layers[r.active] == m.layers[m.active]
            &&& m.active == idx && idx > 0 ==> r.layers[r.active] == m.layers[idx - 1]
            &&& m.active == idx && idx == 0 ==> r.layers[r.active] == m.layers[1]
            &&& forall|i: int| 0 <= i < idx ==> #[trigger] r.layers[i] == m.layers[i]
            &&& forall|i: int| idx < i < m.layers.len() ==> r.layers[i - 1] == #[trigger] m.layers[i]
            &&& r.next_id == m.next_id
        }),
{
}

/// Putting a layer in leaves the others in their order, and the active one active. What is put
/// in past the top goes on top.
pub proof fn law_inserting_keeps_the_active_layer(m: LayersModel, idx: int, snap: SnapshotModel)
    requires
        0 <= idx,
        0 <= m.active < m.layers.len(),
    ensures
        ({
            let r = m.with(idx, snap);
            let at = if idx <= m.layers.len() { idx } else { m.layers.len() as int };
            &&& r.layers.len() == m.layers.len() + 1
            &&& 0 <= r.active < r.layers.len()
            &&& r.layers[r.active] == m.layers[m.active]
            &&& r.layers[at].id == snap.id
            &&& r.layers[at].name == snap.name
            &&& r.layers[at].visible == snap.visible
            &&& r.layers[at].material == snap.material
            &&& r.layers[at].grid == snap.grid
            &&& r.layers[at].dirty == snap.grid.tiles.dom()
            &&& r.layers[at].chunks.len() == 0
            &&& forall|i: int| 0 <= i < at ==> #[trigger] r.layers[i] == m.layers[i]
            &&& forall|i: int| at <= i < m.layers.len() ==> r.layers[i + 1] == #[trigger] m.layers[i]
            &&& r.next_id >= m.next_id
            &&& snap.id < u32::MAX ==> r.next_id > snap.id
        }),
{
}

/// A layer that is put back from its snapshot is the layer that it was, with all of its
/// stored chunks to be shown anew.
pub proof fn law_snapshot_keeps_the_layer(l: LayerModel)
    ensures
        ({
            let r = l.snapshot().layer();
            &&& r.id == l.id
            &&& r.name == l.name
            &&& r.visible == l.visible
            &&& r.material == l.material
            &&& r.grid == l.grid
            &&& r.dirty == l.grid.tiles.dom()
            &&& r.chunks.len() == 0
        }),
{
}

/// A layer that comes into view has all of its stored chunks to be shown anew, and one that
/// goes out of view, or stays, none more than before. Nothing else of it changes.
pub proof fn law_showing_marks_the_chunks(l: LayerModel, visible: bool, c: ChunkCoord)
    ensures
        ({
            let r = shown(l, visible);
            &&& r.visible == visible
            &&& r.dirty.contains(c) <==> l.dirty.contains(c) || (visible && !l.visible
                && l.grid.tiles.dom().contains(c))
            &&& r.grid == l.grid
            &&& r.id == l.id
            &&& r.name == l.name
            &&& r.material == l.material
            &&& r.chunks == l.chunks
        }),
{
}

/// Showing all meshes anew marks every stored chunk of every layer in view, forgets no mark, and
/// leaves hidden layers alone.
pub proof fn law_redirtied_marks_what_is_shown(l: LayerModel, c: ChunkCoord)
    ensures
        redirtied(l).dirty.contains(c) <==> l.dirty.contains(c) || (l.visible
            && l.grid.tiles.dom().contains(c)),
        redirtied(l).grid == l.grid,
        redirtied(l).visible == l.visible,
        redirtied(l).id == l.id,
        redirtied(l).name == l.name,
        redirtied(l).chunks == l.chunks,
        redirtied(l).material == l.material,
{
}

/// The next number is past every number that was given, as long as there are numbers, and never
/// goes back.
pub proof fn law_numbers_are_not_given_twice(next: LayerId, id: LayerId)
    ensures
        later_id(next, id) >= next,
        id < u32::MAX ==> later_id(next, id) > id,
        id < u32::MAX ==> later_id(next, id) == next || later_id(next, id) == id + 1,
{
}

} // verus!
