//! Keeping what is on screen in step with the layers.
//!
//! Every frame takes some of the changed chunks of each visible layer and makes new
//! meshes of them. A chunk has something on screen only while it has a surface.
//! Hidden layers have nothing on screen.

use crate::chunk_table::{table_map, table_sorted};
use crate::grid::{in_scan_order, ChunkCoord};
use crate::layers::{entities, LayerModel, LayersModel, LayersState};
use vstd::prelude::*;

verus! {

/// Most chunks of one layer that get a new mesh in one frame.
pub const MAX_CHUNKS_PER_FRAME: usize = 32;

/// `batch` is what a frame takes of the changed chunks: the first ones in scan order,
/// up to the limit.
pub open spec fn is_batch(dirty: Set<ChunkCoord>, batch: Seq<ChunkCoord>) -> bool {
    &&& in_scan_order(batch)
    &&& batch.to_set().subset_of(dirty)
    &&& batch.len() == (if dirty.len() <= MAX_CHUNKS_PER_FRAME {
        dirty.len()
    } else {
        MAX_CHUNKS_PER_FRAME as nat
    })
    &&& forall|i: int, c: ChunkCoord|
        0 <= i < batch.len() && dirty.contains(c) && !batch.contains(c) ==> #[trigger] batch[i].before(
            c,
        )
}

/// A layer after a frame.
pub open spec fn after_frame(l: LayerModel, batch: Seq<ChunkCoord>) -> LayerModel {
    if l.visible {
        LayerModel { dirty: l.dirty.difference(batch.to_set()), ..l }
    } else {
        LayerModel { chunks: Seq::empty(), ..l }
    }
}

/// What a frame does with a layer.
pub open spec fn framed(l: LayerModel, after: LayerModel, gone: Seq<u64>, batch: Seq<ChunkCoord>) -> bool {
    &&& after == after_frame(l, batch)
    &&& l.visible ==> gone.len() == 0 && is_batch(l.dirty, batch)
    &&& !l.visible ==> gone == entities(l) && batch.len() == 0
}

/// The stack with another layer at a place.
pub open spec fn with_layer(m: LayersModel, i: int, l: LayerModel) -> LayersModel {
    LayersModel { layers: m.layers.update(i, l), ..m }
}

proof fn lemma_take_first(dirty: Set<ChunkCoord>, list: Seq<ChunkCoord>, batch: Seq<ChunkCoord>)
    requires
        in_scan_order(list),
        list.to_set() == dirty,
        list.len() == dirty.len(),
        batch.len() == (if list.len() <= MAX_CHUNKS_PER_FRAME {
            list.len()
        } else {
            MAX_CHUNKS_PER_FRAME as nat
        }),
        forall|i: int| 0 <= i < batch.len() ==> #[trigger] batch[i] == list[i],
    ensures
        is_batch(dirty, batch),
{
    assert forall|i: int, j: int| 0 <= i < j < batch.len() implies (#[trigger] batch[i]).before(
        #[trigger] batch[j],
    ) by {
        assert(list[i].before(list[j]));
    }
    assert forall|c: ChunkCoord| batch.to_set().contains(c) implies dirty.contains(c) by {
        let k = choose|k: int| 0 <= k < batch.len() && batch[k] == c;
        assert(list[k] == c);
        assert(list.to_set().contains(c));
    }
    assert forall|i: int, c: ChunkCoord|
        0 <= i < batch.len() && dirty.contains(c) && !batch.contains(c) implies #[trigger] batch[i].before(
        c,
    ) by {
        assert(list.contains(c));
        let k = choose|k: int| 0 <= k < list.len() && list[k] == c;
        if k < batch.len() {
            assert(batch[k] == c);
        }
        assert(list[i].before(list[k]));
    }
}

/// What is to happen to what is on screen for a chunk with a new mesh.
#[derive(Copy, Clone, Debug, PartialEq, Eq, Structural)]
pub enum Reconcile {
    /// Nothing was there and nothing is.
    Nothing,
    /// Take it away.
    Despawn(u64),
    /// Give it the new mesh.
    Update(u64),
    /// Put something there, with the material of the layer.
    Spawn(u64),
}

/// What is to happen for a chunk, given whether its new mesh is empty.
pub open spec fn reconciled(l: LayerModel, c: ChunkCoord, empty: bool) -> Reconcile {
    let shown = table_map(l.chunks);
    if shown.dom().contains(c) {
        if empty {
            Reconcile::Despawn(shown[c])
        } else {
            Reconcile::Update(shown[c])
        }
    } else if empty {
        Reconcile::Nothing
    } else {
        Reconcile::Spawn(l.material)
    }
}

impl LayersState {
    /// Take out what is to go from the screen because its layer is gone.
    pub fn take_pending(&mut self) -> (r: Vec<u64>)
        requires
            old(self).wf(),
        ensures
            final(self).wf(),
            final(self).res() == old(self).res(),
            r@ == old(self)@.pending,
            final(self)@ == (LayersModel { pending: Seq::empty(), ..old(self)@ }),
    {
        let ghost was = self@;
        let mut r: Vec<u64> = Vec::new();
        r.append(&mut self.pending_despawn);
        assert(r@ =~= was.pending);
        assert(self@.pending =~= Seq::<u64>::empty());
        assert(self@.layers =~= was.layers);
        r
    }

    /// One frame of one layer: what goes from the screen, and which chunks get a new
    /// mesh.
    pub fn layer_frame(&mut self, i: usize) -> (r: (Vec<u64>, Vec<ChunkCoord>))
        requires
            old(self).wf(),
            i < old(self).layers.len(),
        ensures
            final(self).wf(),
            final(self).res() == old(self).res(),
            final(self)@ == with_layer(
                old(self)@,
                i as int,
                after_frame(old(self)@.layers[i as int], r.1@),
            ),
            framed(
                old(self)@.layers[i as int],
                final(self)@.layers[i as int],
                r.0@,
                r.1@,
            ),
    {
        let ghost was = self@;
        let ghost l = self.layers@[i as int]@;
        assert(l == was.layers[i as int]);
        let mut gone: Vec<u64> = Vec::new();
        let mut batch: Vec<ChunkCoord> = Vec::new();
        if !self.layers[i].visible {
            let n: usize = self.layers[i].chunks.len();
            let mut k: usize = 0;
            while k < n
                invariant
                    k <= n,
                    i < self.layers.len(),
                    self.layers@[i as int].wf(),
                    n == self.layers@[i as int].chunks.entries().len(),
                    gone.len() == k,
                    forall|j: int|
                        0 <= j < k ==> #[trigger] gone@[j]
                            == self.layers@[i as int].chunks.entries()[j].1,
                decreases n - k,
            {
                gone.push(self.layers[i].chunks.entry(k).1);
                k = k + 1;
            }
            assert(gone@ =~= entities(l));
            self.layers[i].chunks.clear();
        } else {
            let list = self.layers[i].dirty.to_list();
            let mut k: usize = 0;
            proof {
                assert(l.dirty.difference(batch@.to_set()) =~= l.dirty);
                assert(self@.layers =~= with_layer(
                    was,
                    i as int,
                    LayerModel { dirty: l.dirty.difference(batch@.to_set()), ..l },
                ).layers);
            }
            while k < list.len() && k < MAX_CHUNKS_PER_FRAME
                invariant
                    k <= list.len(),
                    k <= MAX_CHUNKS_PER_FRAME,
                    i < self.layers.len(),
                    self.wf(),
                    self.res() == old(self).res(),
                    in_scan_order(list@),
                    list@.to_set() == l.dirty,
                    batch.len() == k,
                    forall|j: int| 0 <= j < k ==> #[trigger] batch@[j] == list@[j],
                    i < was.layers.len(),
                    was.layers[i as int] == l,
                    self@ == with_layer(
                        was,
                        i as int,
                        LayerModel { dirty: l.dirty.difference(batch@.to_set()), ..l },
                    ),
                decreases list.len() - k,
            {
                let c = list[k];
                let ghost before = batch@;
                let ghost stack = self@;
                let ghost raw = self.layers@;
                assert(stack.layers.len() == raw.len());
                assert(stack.layers.len() == was.layers.len());
                let ghost now = self.layers@[i as int]@;
                assert(now == stack.layers[i as int]);
                assert(now.dirty == l.dirty.difference(before.to_set()));
                self.layers[i].dirty.remove(c);
                batch.push(c);
                proof {
                    assert(now.dirty.remove(c) =~= l.dirty.difference(batch@.to_set())) by {
                        assert forall|d: ChunkCoord| #[trigger] batch@.to_set().contains(d) <==> before.to_set().contains(
                            d,
                        ) || d == c by {
                            if batch@.contains(d) {
                                let j = choose|j: int| 0 <= j < batch@.len() && batch@[j] == d;
                                if j < before.len() {
                                    assert(before[j] == d);
                                }
                            }
                            if before.contains(d) {
                                let j = choose|j: int| 0 <= j < before.len() && before[j] == d;
                                assert(batch@[j] == d);
                            }
                            assert(batch@[before.len() as int] == c);
                        }
                    }
                    let next = LayerModel { dirty: l.dirty.difference(batch@.to_set()), ..l };
                    assert(self.layers@[i as int]@ == next);
                    assert forall|k: int| 0 <= k < was.layers.len() implies #[trigger] self@.layers[k]
                        == with_layer(was, i as int, next).layers[k] by {
                        if k != i {
                            assert(self.layers@[k] == raw[k]);
                            assert(stack.layers[k] == raw[k]@);
                        }
                    }
                    assert(self@.layers =~= with_layer(was, i as int, next).layers);
                }
                k = k + 1;
            }
            proof {
                self.layers@[i as int].dirty.lemma_finite();
                lemma_take_first(l.dirty, list@, batch@);
            }
        }
        assert(self@.layers =~= with_layer(was, i as int, after_frame(l, batch@)).layers);
        (gone, batch)
    }

    /// Bring what is on screen for a chunk in step with its new mesh, given whether
    /// that is empty. A chunk that is to be spawned is noted by `note_spawned`.
    pub fn reconcile(&mut self, i: usize, c: ChunkCoord, empty: bool) -> (r: Reconcile)
        requires
            old(self).wf(),
            i < old(self).layers.len(),
        ensures
            final(self).wf(),
            final(self).res() == old(self).res(),
            r == reconciled(old(self)@.layers[i as int], c, empty),
            ({
                let l = old(self)@.layers[i as int];
                let after = final(self)@.layers[i as int];
                &&& final(self)@ == with_layer(old(self)@, i as int, after)
                &&& after == (LayerModel { chunks: after.chunks, ..l })
                &&& table_sorted(after.chunks)
                &&& table_map(after.chunks) == (if empty {
                    table_map(l.chunks).remove(c)
                } else {
                    table_map(l.chunks)
                })
            }),
    {
        let ghost was = self@;
        proof {
            self.layers@[i as int].chunks.lemma_entries();
        }
        let r = if empty {
            match self.layers[i].chunks.remove(c) {
                Some(e) => Reconcile::Despawn(e),
                None => Reconcile::Nothing,
            }
        } else {
            match self.layers[i].chunks.get(c) {
                Some(e) => Reconcile::Update(*e),
                None => Reconcile::Spawn(self.layers[i].material),
            }
        };
        proof {
            self.layers@[i as int].chunks.lemma_entries();
            let after = self@.layers[i as int];
            assert(self@.layers =~= with_layer(was, i as int, after).layers);
        }
        r
    }

    /// Note what was put on screen for a chunk.
    pub fn note_spawned(&mut self, i: usize, c: ChunkCoord, entity: u64)
        requires
            old(self).wf(),
            i < old(self).layers.len(),
        ensures
            final(self).wf(),
            final(self).res() == old(self).res(),
            ({
                let l = old(self)@.layers[i as int];
                let after = final(self)@.layers[i as int];
                &&& final(self)@ == with_layer(old(self)@, i as int, after)
                &&& after == (LayerModel { chunks: after.chunks, ..l })
                &&& table_sorted(after.chunks)
                &&& table_map(after.chunks) == table_map(l.chunks).insert(c, entity)
            }),
    {
        let ghost was = self@;
        proof {
            self.layers@[i as int].chunks.lemma_entries();
        }
        self.layers[i].chunks.insert(c, entity);
        proof {
            self.layers@[i as int].chunks.lemma_entries();
            assert(self@.layers =~= with_layer(was, i as int, self@.layers[i as int]).layers);
        }
    }
}

/// No changed chunk is lost: each is in the batch or still marked after the frame.
pub proof fn law_frame_loses_no_chunk(
    l: LayerModel,
    after: LayerModel,
    gone: Seq<u64>,
    batch: Seq<ChunkCoord>,
)
    requires
        framed(l, after, gone, batch),
    ensures
        l.dirty =~= after.dirty.union(batch.to_set()),
        l.visible ==> after.dirty.disjoint(batch.to_set()),
        l.visible && l.dirty.finite() && l.dirty.len() > 0 ==> batch.len() > 0,
{
}

/// What is on the screen follows the surface: a chunk with a surface is on the screen
/// afterwards, by what was there or by something new, and one without is not.
pub proof fn law_screen_follows_the_surface(l: LayerModel, c: ChunkCoord, empty: bool)
    ensures
        ({
            let was = table_map(l.chunks).dom().contains(c);
            match reconciled(l, c, empty) {
                Reconcile::Nothing => !was && empty,
                Reconcile::Despawn(e) => was && empty && e == table_map(l.chunks)[c],
                Reconcile::Update(e) => was && !empty && e == table_map(l.chunks)[c],
                Reconcile::Spawn(m) => !was && !empty && m == l.material,
            }
        }),
{
}

} // verus!
