//! Finishing an edit: recording it for undo and marking the chunks that it shows
//! in.

use crate::chunk_table::ChunkSet;
use crate::components::in_domain;
use crate::dirty::DirtyRegion;
use crate::grid::{in_scan_order, ChunkCoord, GridView};
use crate::journal::{records, spans_edits, VoxelEdit};
use crate::layers::{LayerModel, LayersModel, LayersState};
use crate::stroke::{edits_in, known, law_journal_tracks, lists_changes, same_samples, with_journal, StrokeEntry, StrokeRecorder};
use crate::undo::{capped, is_place, law_undo_stroke, undone, UndoEntry, UndoHistory};
use crate::vec3::UVec3;
use vstd::prelude::*;

verus! {

/// The chunks in which a change shows.
pub open spec fn shows_in(dirty: Option<DirtyRegion>, res: UVec3) -> Set<ChunkCoord> {
    match dirty {
        Some(r) => Set::new(|c: ChunkCoord| r.touches(res, c)),
        None => Set::empty(),
    }
}

/// The stack with some chunks of the active layer marked.
pub open spec fn with_dirty(m: LayersModel, chunks: Set<ChunkCoord>) -> LayersModel {
    LayersModel {
        layers: m.layers.update(
            m.active,
            LayerModel { dirty: m.layers[m.active].dirty.union(chunks), ..m.layers[m.active] },
        ),
        ..m
    }
}

/// Mark the chunks of the active layer in which a change shows.
pub fn mark_region(state: &mut LayersState, dirty: Option<DirtyRegion>)
    requires
        old(state).wf(),
        old(state).res().x > 0,
        old(state).res().y > 0,
        old(state).res().z > 0,
    ensures
        final(state).wf(),
        final(state).res() == old(state).res(),
        final(state)@ == with_dirty(old(state)@, shows_in(dirty, old(state).res())),
{
    let ghost was = state@;
    let res = state.grid().res();
    match dirty {
        Some(region) => {
            let chunks = region.touched_chunks(res);
            let i: usize = state.active;
            state.mark_all_dirty(i, &chunks);
            proof {
                assert forall|c: ChunkCoord| chunks@.to_set().contains(c) <==> shows_in(
                    dirty,
                    res,
                ).contains(c) by {
                    assert(chunks@.contains(c) <==> region.touches(res, c));
                }
                assert(chunks@.to_set() =~= shows_in(dirty, res));
            }
        },
        None => {
            assert(was.layers[was.active].dirty.union(shows_in(dirty, res))
                =~= was.layers[was.active].dirty);
            assert(state@.layers =~= with_dirty(was, shows_in(dirty, res)).layers);
        },
    }
}

/// Add the chunks in which a change shows to a set.
pub fn note_region(chunks: &mut ChunkSet, dirty: Option<DirtyRegion>, res: UVec3)
    requires
        old(chunks).wf(),
        res.x > 0,
        res.y > 0,
        res.z > 0,
    ensures
        final(chunks).wf(),
        final(chunks)@ == old(chunks)@.union(shows_in(dirty, res)),
{
    match dirty {
        Some(region) => {
            let touched = region.touched_chunks(res);
            chunks.insert_all(&touched);
            proof {
                assert forall|c: ChunkCoord| touched@.to_set().contains(c) <==> shows_in(
                    dirty,
                    res,
                ).contains(c) by {
                    assert(touched@.contains(c) <==> region.touches(res, c));
                }
                assert(touched@.to_set() =~= shows_in(dirty, res));
            }
        },
        None => {
            assert(chunks@ =~= chunks@.union(shows_in(dirty, res)));
        },
    }
}

/// `e` is the entry of an edit of the active layer of `m`: the journal's voxels, each
/// with the first sample that was replaced and with the sample that is there now.
pub open spec fn is_entry_of(
    e: StrokeEntry,
    m: LayersModel,
    journal: Seq<VoxelEdit>,
    dirty: Option<DirtyRegion>,
) -> bool {
    let l = m.layers[m.active];
    &&& e.wf(l.grid.res)
    &&& e.layer == l.id
    &&& e.edits@ == with_journal(Seq::empty(), journal, journal.len())
    &&& forall|i: int|
        0 <= i < e.post@.len() ==> #[trigger] e.post@[i] == ({
            let v = e.edits@[i].voxel();
            l.grid.at(v.x as int, v.y as int, v.z as int)
        })
    &&& in_scan_order(e.dirty@)
    &&& e.dirty@.to_set() == shows_in(dirty, l.grid.res)
}

/// The history after an edit: nothing new for an empty journal, otherwise one more
/// stroke.
pub open spec fn edit_pushed(
    before: UndoHistory,
    after: UndoHistory,
    m: LayersModel,
    journal: Seq<VoxelEdit>,
    dirty: Option<DirtyRegion>,
) -> bool {
    if journal.len() == 0 {
        after.undo@ == before.undo@ && after.redo@ == before.redo@
    } else {
        &&& after.redo@.len() == 0
        &&& exists|e: StrokeEntry| #[trigger]
            is_entry_of(e, m, journal, dirty) && after.undo@ == capped(
                before.undo@.push(UndoEntry::Stroke(e)),
            )
    }
}

proof fn lemma_journal_edits(journal: Seq<VoxelEdit>, n: nat, res: UVec3)
    requires
        n <= journal.len(),
        edits_in(journal, res),
    ensures
        edits_in(with_journal(Seq::empty(), journal, n), res),
        n > 0 ==> with_journal(Seq::empty(), journal, n).len() > 0,
        n == 0 ==> with_journal(Seq::empty(), journal, n).len() == 0,
    decreases n,
{
    if n > 0 {
        lemma_journal_edits(journal, (n - 1) as nat, res);
        let part = with_journal(Seq::empty(), journal, (n - 1) as nat);
        let e = journal[n - 1];
        assert(in_domain(res, e.voxel()));
        if known(part, e.voxel()) {
            let i = choose|i: int| 0 <= i < part.len() && (#[trigger] part[i]).voxel() == e.voxel();
            assert(part[i].voxel() == e.voxel());
        }
    }
}

/// Record an edit that was made to the active layer as one unit of undo, and mark
/// the chunks that it shows in.
pub fn commit_edit(
    state: &mut LayersState,
    history: &mut UndoHistory,
    journal: &Vec<VoxelEdit>,
    dirty: Option<DirtyRegion>,
)
    requires
        old(state).wf(),
        old(state).res().x > 0,
        old(state).res().y > 0,
        old(state).res().z > 0,
        old(history).wf(old(state).res()),
        edits_in(journal@, old(state).res()),
    ensures
        final(state).wf(),
        final(state).res() == old(state).res(),
        final(history).wf(old(state).res()),
        final(state)@ == with_dirty(old(state)@, shows_in(dirty, old(state).res())),
        edit_pushed(*old(history), *final(history), old(state)@, journal@, dirty),
{
    let ghost m = state@;
    let ghost res = state.res();
    let size = state.grid().res();
    let mut recorder = StrokeRecorder::new();
    recorder.record_journal(journal);
    match dirty {
        Some(region) => {
            recorder.record_dirty_region(region, size);
        },
        None => {},
    }
    proof {
        lemma_journal_edits(journal@, journal@.len(), res);
        assert(recorder.dirty() =~= shows_in(dirty, res));
    }
    let id: u32 = state.active_id();
    match recorder.finish(state.grid(), id) {
        Some(entry) => {
            assert(is_entry_of(entry, m, journal@, dirty));
            history.push_stroke(entry);
        },
        None => {},
    }
    mark_region(state, dirty);
}

/// The stack with another grid in the active layer.
pub open spec fn with_grid(m: LayersModel, g: GridView) -> LayersModel {
    LayersModel {
        layers: m.layers.update(m.active, LayerModel { grid: g, ..m.layers[m.active] }),
        ..m
    }
}

/// The active layer was edited as one unit of undo: `journal` is what the edit
/// recorded and `dirty` the box that it shows in.
pub open spec fn edited(
    before: LayersModel,
    after: LayersModel,
    h: UndoHistory,
    k: UndoHistory,
    journal: Seq<VoxelEdit>,
    dirty: Option<DirtyRegion>,
) -> bool {
    let grid = after.layers[before.active].grid;
    &&& after == with_dirty(with_grid(before, grid), shows_in(dirty, grid.res))
    &&& edit_pushed(h, k, with_grid(before, grid), journal, dirty)
}

/// The active layer was edited as one unit of undo, at the voxels of which `changed`
/// holds.
pub open spec fn edited_at(
    before: LayersModel,
    after: LayersModel,
    h: UndoHistory,
    k: UndoHistory,
    changed: spec_fn(UVec3) -> bool,
) -> bool {
    exists|journal: Seq<VoxelEdit>, dirty: Option<DirtyRegion>|
        records(journal, before.layers[before.active].grid, changed) && spans_edits(
            journal,
            dirty,
        ) && #[trigger] edited(
            before,
            after,
            h,
            k,
            journal,
            dirty,
        )
}

/// The chunks in which an edit of `g` shows were added to those that were marked: of an
/// edit at the voxels of which `changed` holds.
pub open spec fn marked_at(
    g: GridView,
    changed: spec_fn(UVec3) -> bool,
    before: Set<ChunkCoord>,
    after: Set<ChunkCoord>,
) -> bool {
    exists|journal: Seq<VoxelEdit>, dirty: Option<DirtyRegion>|
        records(journal, g, changed) && #[trigger] spans_edits(journal, dirty) && after
            == before.union(shows_in(dirty, g.res))
}

/// Undoing a committed edit gives the samples from before it: when the journal lists
/// every voxel that the edit changed, and no layer lower down has the number of the
/// edited one.
pub proof fn law_edit_is_undone(
    start: GridView,
    journal: Seq<VoxelEdit>,
    m: LayersModel,
    dirty: Option<DirtyRegion>,
    e: StrokeEntry,
    after: LayersModel,
)
    requires
        0 <= m.active < m.layers.len(),
        lists_changes(journal, start, m.layers[m.active].grid),
        is_entry_of(e, m, journal, dirty),
        is_place(m.layers, e.layer, m.active),
        undone(UndoEntry::Stroke(e), with_dirty(m, shows_in(dirty, start.res)), after),
    ensures
        same_samples(after.layers[m.active].grid, start),
        forall|i: int|
            0 <= i < m.layers.len() && i != m.active ==> #[trigger] after.layers[i] == m.layers[i],
        after.active == m.active,
{
    let now = m.layers[m.active].grid;
    let marked = with_dirty(m, shows_in(dirty, start.res));
    law_journal_tracks(journal, start, now);
    assert(is_place(marked.layers, e.layer, m.active)) by {
        assert forall|i: int| 0 <= i < m.active implies (#[trigger] marked.layers[i]).id != e.layer by {
            assert(marked.layers[i] == m.layers[i]);
        }
    }
    law_undo_stroke(start, marked, after, e, m.active);
}

/// Records of the voxels that an edit changed list every change.
pub proof fn law_records_list_changes(
    start: GridView,
    now: GridView,
    journal: Seq<VoxelEdit>,
    changed: spec_fn(UVec3) -> bool,
)
    requires
        now.same_domain(start),
        records(journal, start, changed),
        forall|v: UVec3|
            in_domain(start.res, v) && !changed(v) ==> #[trigger] now.at(
                v.x as int,
                v.y as int,
                v.z as int,
            ) == start.at(v.x as int, v.y as int, v.z as int),
    ensures
        lists_changes(journal, start, now),
{
    assert forall|v: UVec3| in_domain(start.res, v) && !known(journal, v) implies #[trigger] now.at(
        v.x as int,
        v.y as int,
        v.z as int,
    ) == start.at(v.x as int, v.y as int, v.z as int) by {
        if changed(v) {
            let i = choose|i: int| 0 <= i < journal.len() && (#[trigger] journal[i]).voxel() == v;
            assert(journal[i].voxel() == v);
        }
    }
}

/// An edit stays on the active layer: the others keep everything, and so do the numbers and the
/// active place. Of the active layer only the grid changes, and chunks are marked.
pub proof fn law_edit_stays_on_the_active_layer(
    m: LayersModel,
    g: GridView,
    chunks: Set<ChunkCoord>,
    i: int,
)
    requires
        0 <= m.active < m.layers.len(),
        0 <= i < m.layers.len(),
    ensures
        ({
            let r = with_dirty(with_grid(m, g), chunks);
            &&& r.layers.len() == m.layers.len()
            &&& r.active == m.active
            &&& r.next_id == m.next_id
            &&& r.pending == m.pending
            &&& i != m.active ==> r.layers[i] == m.layers[i]
            &&& i == m.active ==> {
                &&& r.layers[i].grid == g
                &&& forall|c: ChunkCoord| #[trigger]
                    r.layers[i].dirty.contains(c) <==> m.layers[i].dirty.contains(c)
                        || chunks.contains(c)
                &&& r.layers[i].id == m.layers[i].id
                &&& r.layers[i].name == m.layers[i].name
                &&& r.layers[i].visible == m.layers[i].visible
                &&& r.layers[i].material == m.layers[i].material
                &&& r.layers[i].chunks == m.layers[i].chunks
            }
        }),
{
}

} // verus!
