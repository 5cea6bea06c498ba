//! Undo and redo.
//!
//! Every finished stroke, deleted layer and merge is an entry. Undoing takes the
//! latest entry back and keeps it for redoing; a new entry ends what can be redone.

use crate::components::in_domain;
use crate::grid::GridView;
use crate::journal::VoxelEdit;
use crate::layers::{LayerId, LayerModel, LayerSnapshot, LayersModel, LayersState};
use crate::merge::{is_delta, merged, united, wins, MergeDownRecord};
use crate::stroke::{known, law_redo_restores_end, law_undo_restores_start, pre_samples, replaced, same_samples, tracks, StrokeEntry};
use crate::vec3::UVec3;
use vstd::prelude::*;

verus! {

/// Most entries that are remembered.
pub const MAX_HISTORY: usize = 64;

/// A layer that was deleted.
pub struct DeleteLayerEntry {
    /// The place that it had.
    pub index: usize,
    /// The place of the layer that was active.
    pub previous_active: usize,
    pub layer: LayerSnapshot,
}

/// One unit of undo.
pub enum UndoEntry {
    Stroke(StrokeEntry),
    DeleteLayer(DeleteLayerEntry),
    MergeDown(MergeDownRecord),
}

impl UndoEntry {
    /// The entry fits a domain of resolution `res`.
    pub open spec fn wf(&self, res: UVec3) -> bool {
        match self {
            UndoEntry::Stroke(s) => s.wf(res),
            UndoEntry::DeleteLayer(d) => d.layer.grid.wf() && d.layer.grid@.res == res,
            UndoEntry::MergeDown(m) => m.delta.wf(res) && m.src.grid.wf() && m.src.grid@.res == res,
        }
    }
}

/// `k` is the place of the first layer with the given number.
pub open spec fn is_place(layers: Seq<LayerModel>, id: LayerId, k: int) -> bool {
    &&& 0 <= k < layers.len()
    &&& layers[k].id == id
    &&& forall|i: int| 0 <= i < k ==> (#[trigger] layers[i]).id != id
}

/// `after` is `before` with the voxels of a stroke set to the given samples, on the
/// layer that the stroke was on; if that layer is gone, nothing changed.
pub open spec fn rewritten(
    before: LayersModel,
    after: LayersModel,
    s: StrokeEntry,
    samples: Seq<u32>,
) -> bool {
    &&& after.active == before.active
    &&& after.next_id == before.next_id
    &&& after.pending == before.pending
    &&& after.layers.len() == before.layers.len()
    &&& (forall|k: int| !#[trigger] is_place(before.layers, s.layer, k)) ==> after.layers
        == before.layers
    &&& forall|k: int| #[trigger]
        is_place(before.layers, s.layer, k) ==> {
            &&& replaced(before.layers[k].grid, after.layers[k].grid, s.edits@, samples)
            &&& after.layers == before.layers.update(
                k,
                LayerModel {
                    grid: after.layers[k].grid,
                    dirty: before.layers[k].dirty.union(s.dirty@.to_set()),
                    ..before.layers[k]
                },
            )
        }
}

/// The stack with another active layer, if there is such a place.
pub open spec fn with_active(m: LayersModel, idx: int) -> LayersModel {
    LayersModel {
        active: if idx < m.layers.len() {
            idx
        } else {
            m.active
        },
        ..m
    }
}

/// `after` is what undoing an entry makes of `before`.
pub open spec fn undone(entry: UndoEntry, before: LayersModel, after: LayersModel) -> bool {
    match entry {
        UndoEntry::Stroke(s) => rewritten(before, after, s, pre_samples(s.edits@)),
        UndoEntry::DeleteLayer(d) => after == with_active(
            before.with(d.index as int, d.layer@),
            d.previous_active as int,
        ),
        UndoEntry::MergeDown(m) => exists|mid: LayersModel| #[trigger]
            rewritten(before, mid, m.delta, pre_samples(m.delta.edits@)) && after == with_active(
                mid.with(m.src_index as int, m.src@),
                m.src_index as int,
            ),
    }
}

/// The stack without a layer, unless it is the last one or there is none there.
pub open spec fn dropped(m: LayersModel, idx: int) -> LayersModel {
    if m.layers.len() > 1 && idx < m.layers.len() {
        m.without(idx)
    } else {
        m
    }
}

/// `after` is what redoing an entry makes of `before`.
pub open spec fn redone(entry: UndoEntry, before: LayersModel, after: LayersModel) -> bool {
    match entry {
        UndoEntry::Stroke(s) => rewritten(before, after, s, s.post@),
        UndoEntry::DeleteLayer(d) => after == dropped(before, d.index as int),
        UndoEntry::MergeDown(m) => exists|mid: LayersModel| #[trigger]
            rewritten(before, mid, m.delta, m.delta.post@) && after == with_active(
                dropped(mid, m.src_index as int),
                m.dst_index as int,
            ),
    }
}

impl Clone for LayerSnapshot {
    fn clone(&self) -> (r: LayerSnapshot)
        ensures
            self.grid.wf() ==> r.grid.wf() && r@ == self@,
    {
        LayerSnapshot {
            id: self.id,
            name: self.name.clone(),
            visible: self.visible,
            material: self.material,
            grid: self.grid.clone(),
        }
    }
}

proof fn lemma_place_unique(layers: Seq<LayerModel>, id: LayerId, a: int, b: int)
    requires
        is_place(layers, id, a),
        is_place(layers, id, b),
    ensures
        a == b,
{
    if a < b {
        assert(layers[a].id != id);
    } else if b < a {
        assert(layers[b].id != id);
    }
}

/// Put the samples from before or after a stroke back on its layer.
fn rewrite(state: &mut LayersState, s: &StrokeEntry, forward: bool)
    requires
        old(state).wf(),
        s.wf(old(state).res()),
    ensures
        final(state).wf(),
        final(state).res() == old(state).res(),
        rewritten(
            old(state)@,
            final(state)@,
            *s,
            if forward {
                s.post@
            } else {
                pre_samples(s.edits@)
            },
        ),
{
    let ghost was = state@;
    match state.index_of(s.layer) {
        Some(k) => {
            assert(was.layers[k as int] == state.layers@[k as int]@);
            assert(is_place(was.layers, s.layer, k as int));
            if forward {
                s.apply_post(&mut state.layers[k].grid);
            } else {
                s.apply_pre(&mut state.layers[k].grid);
            }
            state.layers[k].dirty.insert_all(&s.dirty);
            proof {
                assert(state@.layers =~= was.layers.update(
                    k as int,
                    LayerModel {
                        grid: state@.layers[k as int].grid,
                        dirty: was.layers[k as int].dirty.union(s.dirty@.to_set()),
                        ..was.layers[k as int]
                    },
                ));
                assert forall|j: int| #[trigger] is_place(was.layers, s.layer, j) implies j == k by {
                    lemma_place_unique(was.layers, s.layer, j, k as int);
                }
            }
        },
        None => {
            assert forall|j: int| !#[trigger] is_place(was.layers, s.layer, j) by {}
        },
    }
}

/// What can be undone and what can be redone.
pub struct UndoHistory {
    pub undo: Vec<UndoEntry>,
    pub redo: Vec<UndoEntry>,
}

/// The entries, without the oldest if there are too many.
pub open spec fn capped(s: Seq<UndoEntry>) -> Seq<UndoEntry> {
    if s.len() > 64 {
        s.subrange(1, s.len() as int)
    } else {
        s
    }
}

impl UndoHistory {
    /// Every entry fits the domain.
    pub open spec fn wf(&self, res: UVec3) -> bool {
        &&& forall|i: int| 0 <= i < self.undo@.len() ==> (#[trigger] self.undo@[i]).wf(res)
        &&& forall|i: int| 0 <= i < self.redo@.len() ==> (#[trigger] self.redo@[i]).wf(res)
    }

    /// A history without entries.
    pub fn new() -> (r: UndoHistory)
        ensures
            r.undo@.len() == 0,
            r.redo@.len() == 0,
    {
        UndoHistory { undo: Vec::new(), redo: Vec::new() }
    }

    fn trim(&mut self)
        ensures
            final(self).undo@ == capped(old(self).undo@),
            final(self).redo@ == old(self).redo@,
    {
        if self.undo.len() > MAX_HISTORY {
            self.undo.remove(0);
            assert(self.undo@ =~= old(self).undo@.subrange(1, old(self).undo@.len() as int));
        }
    }

    /// Remember an entry. Nothing can be redone any more.
    pub fn push(&mut self, entry: UndoEntry)
        ensures
            final(self).undo@ == capped(old(self).undo@.push(entry)),
            final(self).redo@.len() == 0,
    {
        self.redo.clear();
        self.undo.push(entry);
        self.trim();
    }

    /// Remember a stroke.
    pub fn push_stroke(&mut self, entry: StrokeEntry)
        ensures
            final(self).undo@ == capped(old(self).undo@.push(UndoEntry::Stroke(entry))),
            final(self).redo@.len() == 0,
    {
        self.push(UndoEntry::Stroke(entry));
    }

    /// Remember a deleted layer.
    pub fn push_delete_layer(&mut self, entry: DeleteLayerEntry)
        ensures
            final(self).undo@ == capped(old(self).undo@.push(UndoEntry::DeleteLayer(entry))),
            final(self).redo@.len() == 0,
    {
        self.push(UndoEntry::DeleteLayer(entry));
    }

    /// Remember a merge.
    pub fn push_merge_down(&mut self, record: MergeDownRecord)
        ensures
            final(self).undo@ == capped(old(self).undo@.push(UndoEntry::MergeDown(record))),
            final(self).redo@.len() == 0,
    {
        self.push(UndoEntry::MergeDown(record));
    }

    /// Forget everything, as after loading another grid.
    pub fn clear(&mut self)
        ensures
            final(self).undo@.len() == 0,
            final(self).redo@.len() == 0,
    {
        self.undo.clear();
        self.redo.clear();
    }

    /// Undo the latest entry. The result says whether there was one.
    pub fn undo(&mut self, state: &mut LayersState) -> (r: bool)
        requires
            old(state).wf(),
            old(self).wf(old(state).res()),
            old(state).layers.len() < usize::MAX,
        ensures
            final(state).wf(),
            final(state).res() == old(state).res(),
            final(self).wf(final(state).res()),
            r == (old(self).undo@.len() > 0),
            !r ==> final(state)@ == old(state)@ && final(self).undo@ == old(self).undo@
                && final(self).redo@ == old(self).redo@,
            r ==> {
                &&& undone(old(self).undo@.last(), old(state)@, final(state)@)
                &&& final(self).undo@ == old(self).undo@.drop_last()
                &&& final(self).redo@ == old(self).redo@.push(old(self).undo@.last())
            },
    {
        let ghost was = self.undo@;
        match self.undo.pop() {
            Some(entry) => {
                assert(entry == was.last());
                assert(was[was.len() - 1].wf(state.res()));
                match &entry {
                    UndoEntry::Stroke(s) => {
                        rewrite(state, s, false);
                    },
                    UndoEntry::DeleteLayer(d) => {
                        state.restore_layer_at(d.index, d.layer.clone());
                        state.set_active_index(d.previous_active);
                    },
                    UndoEntry::MergeDown(m) => {
                        rewrite(state, &m.delta, false);
                        state.restore_layer_at(m.src_index, m.src.clone());
                        state.set_active_index(m.src_index);
                    },
                }
                self.redo.push(entry);
                assert(self.undo@ =~= was.drop_last());
                true
            },
            None => {
                assert(self.undo@ =~= was);
                false
            },
        }
    }

    /// Redo the entry that was undone last. The result says whether there was one.
    pub fn redo(&mut self, state: &mut LayersState) -> (r: bool)
        requires
            old(state).wf(),
            old(self).wf(old(state).res()),
        ensures
            final(state).wf(),
            final(state).res() == old(state).res(),
            final(self).wf(final(state).res()),
            r == (old(self).redo@.len() > 0),
            !r ==> final(state)@ == old(state)@ && final(self).undo@ == old(self).undo@
                && final(self).redo@ == old(self).redo@,
            r ==> {
                &&& redone(old(self).redo@.last(), old(state)@, final(state)@)
                &&& final(self).redo@ == old(self).redo@.drop_last()
                &&& final(self).undo@ == capped(old(self).undo@.push(old(self).redo@.last()))
            },
    {
        let ghost was = self.redo@;
        match self.redo.pop() {
            Some(entry) => {
                assert(entry == was.last());
                assert(was[was.len() - 1].wf(state.res()));
                match &entry {
                    UndoEntry::Stroke(s) => {
                        rewrite(state, s, true);
                    },
                    UndoEntry::DeleteLayer(d) => {
                        state.drop_layer_at(d.index);
                    },
                    UndoEntry::MergeDown(m) => {
                        rewrite(state, &m.delta, true);
                        state.drop_layer_at(m.src_index);
                        state.set_active_index(m.dst_index);
                    },
                }
                self.undo.push(entry);
                self.trim();
                assert(self.redo@ =~= was.drop_last());
                true
            },
            None => {
                assert(self.redo@ =~= was);
                false
            },
        }
    }
}

/// Two layers are the same, up to which tiles are stored and what is on screen.
pub open spec fn same_layer(a: LayerModel, b: LayerModel) -> bool {
    &&& a.id == b.id
    &&& a.name == b.name
    &&& a.visible == b.visible
    &&& a.material == b.material
    &&& same_samples(a.grid, b.grid)
}

/// Two stacks are the same, up to which tiles are stored and what is on screen.
pub open spec fn same_stack(a: LayersModel, b: LayersModel) -> bool {
    &&& a.active == b.active
    &&& a.layers.len() == b.layers.len()
    &&& forall|i: int| 0 <= i < a.layers.len() ==> same_layer(#[trigger] a.layers[i], b.layers[i])
}

/// Undoing the deletion of a layer puts it back where it was, and the layer that was
/// active is active again.
pub proof fn law_undo_delete(before: LayersModel, d: DeleteLayerEntry, after: LayersModel)
    requires
        before.layers.len() > 1,
        d.index < before.layers.len(),
        0 <= before.active < before.layers.len(),
        d.layer@ == before.layers[d.index as int].snapshot(),
        d.previous_active == before.active,
        undone(UndoEntry::DeleteLayer(d), before.without(d.index as int), after),
    ensures
        same_stack(after, before),
{
    let i = d.index as int;
    assert(after.layers =~= before.layers.update(i, d.layer@.layer()));
}

/// Redoing the deletion deletes it again.
pub proof fn law_redo_delete(
    before: LayersModel,
    d: DeleteLayerEntry,
    mid: LayersModel,
    after: LayersModel,
)
    requires
        before.layers.len() > 1,
        d.index < before.layers.len(),
        0 <= before.active < before.layers.len(),
        d.layer@ == before.layers[d.index as int].snapshot(),
        d.previous_active == before.active,
        undone(UndoEntry::DeleteLayer(d), before.without(d.index as int), mid),
        redone(UndoEntry::DeleteLayer(d), mid, after),
    ensures
        same_stack(after, before.without(d.index as int)),
{
    let i = d.index as int;
    assert(mid.layers =~= before.layers.update(i, d.layer@.layer()));
    assert(after.layers =~= before.layers.remove(i));
}

/// Undoing a stroke on a layer gives the samples from before the stroke, on that
/// layer and on no other.
pub proof fn law_undo_stroke(
    start: GridView,
    before: LayersModel,
    after: LayersModel,
    s: StrokeEntry,
    k: int,
)
    requires
        is_place(before.layers, s.layer, k),
        tracks(s.edits@, start, before.layers[k].grid),
        undone(UndoEntry::Stroke(s), before, after),
    ensures
        same_samples(after.layers[k].grid, start),
        forall|i: int|
            0 <= i < before.layers.len() && i != k ==> #[trigger] after.layers[i]
                == before.layers[i],
        after.active == before.active,
{
    law_undo_restores_start(s.edits@, start, before.layers[k].grid, after.layers[k].grid);
}

/// Redoing a stroke gives the samples from after the stroke.
pub proof fn law_redo_stroke(
    start: GridView,
    end: GridView,
    before: LayersModel,
    after: LayersModel,
    s: StrokeEntry,
    k: int,
)
    requires
        is_place(before.layers, s.layer, k),
        tracks(s.edits@, start, end),
        s.post@.len() == s.edits@.len(),
        forall|i: int|
            0 <= i < s.post@.len() ==> #[trigger] s.post@[i] == ({
                let v = s.edits@[i].voxel();
                end.at(v.x as int, v.y as int, v.z as int)
            }),
        same_samples(before.layers[k].grid, start),
        redone(UndoEntry::Stroke(s), before, after),
    ensures
        same_samples(after.layers[k].grid, end),
        forall|i: int|
            0 <= i < before.layers.len() && i != k ==> #[trigger] after.layers[i]
                == before.layers[i],
        after.active == before.active,
{
    law_redo_restores_end(
        s.edits@,
        s.post@,
        start,
        end,
        before.layers[k].grid,
        after.layers[k].grid,
    );
}

/// The voxels of a merge lead back from the united grid.
proof fn lemma_merge_tracks(edits: Seq<VoxelEdit>, dst: GridView, src: GridView, all: GridView)
    requires
        is_delta(edits, dst, src),
        united(dst, all, src),
    ensures
        tracks(edits, dst, all),
{
    assert forall|i: int| 0 <= i < edits.len() implies in_domain(dst.res, (#[trigger] edits[i]).voxel()) by {
        assert(known(edits, edits[i].voxel()));
    }
    assert forall|v: UVec3| in_domain(dst.res, v) && !known(edits, v) implies #[trigger] all.at(
        v.x as int,
        v.y as int,
        v.z as int,
    ) == dst.at(v.x as int, v.y as int, v.z as int) by {
        assert(!wins(dst, src, v));
    }
}

/// Undoing a merge gives back the stack from before it, where no layer lower down has
/// the number of the layer that was merged into.
pub proof fn law_undo_merge(
    before: LayersModel,
    mid: LayersModel,
    after: LayersModel,
    rec: MergeDownRecord,
)
    requires
        0 < before.active < before.layers.len(),
        is_place(before.layers, before.layers[before.active - 1].id, before.active - 1),
        merged(before, mid, rec),
        undone(UndoEntry::MergeDown(rec), mid, after),
    ensures
        same_stack(after, before),
{
    let s = before.active;
    let d = s - 1;
    let src = before.layers[s].grid;
    let dst = before.layers[d].grid;
    let inner = choose|m: LayersModel| #[trigger]
        rewritten(mid, m, rec.delta, pre_samples(rec.delta.edits@)) && after == with_active(
            m.with(rec.src_index as int, rec.src@),
            rec.src_index as int,
        );
    assert forall|i: int| 0 <= i < d implies (#[trigger] mid.layers[i]) == before.layers[i] by {}
    assert(is_place(mid.layers, rec.delta.layer, d)) by {
        assert forall|i: int| 0 <= i < d implies (#[trigger] mid.layers[i]).id != rec.delta.layer by {
            assert(before.layers[i].id != before.layers[d].id);
        }
    }
    lemma_merge_tracks(rec.delta.edits@, dst, src, mid.layers[d].grid);
    law_undo_restores_start(rec.delta.edits@, dst, mid.layers[d].grid, inner.layers[d].grid);
    assert(after.layers =~= inner.layers.insert(s, rec.src@.layer()));
    assert forall|i: int| 0 <= i < after.layers.len() implies same_layer(
        #[trigger] after.layers[i],
        before.layers[i],
    ) by {
        if i < d {
            assert(after.layers[i] == inner.layers[i]);
            assert(inner.layers[i] == mid.layers[i]);
        } else if i == d {
            assert(after.layers[i] == inner.layers[i]);
        } else if i == s {
            assert(after.layers[i] == rec.src@.layer());
        } else {
            assert(after.layers[i] == inner.layers[i - 1]);
            assert(inner.layers[i - 1] == mid.layers[i - 1]);
            assert(mid.layers[i - 1] == before.layers[i]);
        }
    }
}

/// Redoing a merge gives the merged stack again.
pub proof fn law_redo_merge(
    before: LayersModel,
    mid: LayersModel,
    back: LayersModel,
    after: LayersModel,
    rec: MergeDownRecord,
)
    requires
        0 < before.active < before.layers.len(),
        is_place(before.layers, before.layers[before.active - 1].id, before.active - 1),
        merged(before, mid, rec),
        undone(UndoEntry::MergeDown(rec), mid, back),
        redone(UndoEntry::MergeDown(rec), back, after),
    ensures
        same_stack(after, mid),
{
    law_undo_merge(before, mid, back, rec);
    let s = before.active;
    let d = s - 1;
    let src = before.layers[s].grid;
    let dst = before.layers[d].grid;
    let all = mid.layers[d].grid;
    let inner = choose|m: LayersModel| #[trigger]
        rewritten(back, m, rec.delta, rec.delta.post@) && after == with_active(
            dropped(m, rec.src_index as int),
            rec.dst_index as int,
        );
    assert(is_place(back.layers, rec.delta.layer, d)) by {
        assert(same_layer(back.layers[d], before.layers[d]));
        assert forall|i: int| 0 <= i < d implies (#[trigger] back.layers[i]).id != rec.delta.layer by {
            assert(same_layer(back.layers[i], before.layers[i]));
            assert(before.layers[i].id != before.layers[d].id);
        }
    }
    lemma_merge_tracks(rec.delta.edits@, dst, src, all);
    assert(same_layer(back.layers[d], before.layers[d]));
    assert forall|i: int| 0 <= i < rec.delta.post@.len() implies #[trigger] rec.delta.post@[i] == ({
        let v = rec.delta.edits@[i].voxel();
        all.at(v.x as int, v.y as int, v.z as int)
    }) by {
        let v = rec.delta.edits@[i].voxel();
        assert(known(rec.delta.edits@, v));
        assert(wins(dst, src, v));
    }
    law_redo_restores_end(
        rec.delta.edits@,
        rec.delta.post@,
        dst,
        all,
        back.layers[d].grid,
        inner.layers[d].grid,
    );
    assert forall|i: int| 0 <= i < after.layers.len() implies same_layer(
        #[trigger] after.layers[i],
        mid.layers[i],
    ) by {
        if i < s {
            assert(after.layers[i] == inner.layers[i]);
            if i < d {
                assert(inner.layers[i] == back.layers[i]);
                assert(same_layer(back.layers[i], before.layers[i]));
                assert(mid.layers[i] == before.layers[i]);
            }
        } else {
            assert(after.layers[i] == inner.layers[i + 1]);
            assert(inner.layers[i + 1] == back.layers[i + 1]);
            assert(same_layer(back.layers[i + 1], before.layers[i + 1]));
            assert(mid.layers[i] == before.layers[i + 1]);
        }
    }
}

/// The history keeps the latest entries, in their order, and no more than sixty-four.
pub proof fn law_history_keeps_the_latest(s: Seq<UndoEntry>, e: UndoEntry)
    requires
        s.len() <= 64,
    ensures
        ({
            let r = capped(s.push(e));
            &&& r.len() <= 64
            &&& r.len() > 0
            &&& r.last() == e
            &&& r.len() == s.len() + 1 || r.len() == 64
            &&& forall|i: int|
                1 <= i < r.len() ==> #[trigger] r[r.len() - 1 - i] == s[s.len() - i]
        }),
{
}

/// A layer is found by its number, at its first place in the stack, and at one place only.
pub proof fn law_layer_has_one_place(layers: Seq<LayerModel>, id: LayerId, i: int, k: int)
    requires
        0 <= i < layers.len(),
        layers[i].id == id,
    ensures
        exists|j: int| #[trigger] is_place(layers, id, j) && j <= i,
        is_place(layers, id, k) && is_place(layers, id, i) ==> i == k,
        is_place(layers, id, k) ==> 0 <= k <= i && layers[k].id == id,
    decreases i,
{
    if exists|j: int| 0 <= j < i && (#[trigger] layers[j]).id == id {
        let j = choose|j: int| 0 <= j < i && (#[trigger] layers[j]).id == id;
        law_layer_has_one_place(layers, id, j, k);
    } else {
        assert(is_place(layers, id, i));
    }
}

} // verus!
