//! Moving the selected piece by whole voxels: typed offsets and dragged arrows.
//!
//! While an arrow is dragged the piece is shown where it would come to rest. Every
//! frame puts the grid back to how it was when the drag began and moves the piece by
//! the whole offset, so that frames do not add up. Only the region that the drag has
//! reached so far is kept for that.

use crate::chunk_table::ChunkSet;
use crate::components::{in_domain, label, label_components, ComponentField, ComponentId};
use crate::dual_contour::Axis;
use crate::edit::{commit_edit, edited, edited_at, marked_at, note_region, with_dirty, with_grid};
use crate::gravity::{all_finite, assigned, delta_of, in_reach, law_last_offset_counts, law_no_offset_means_none, law_piece_goes_by_its_offset, rewrites, rewrites_chunk, touched_region_for_translate, translate_component, translated};
use crate::grid::{ChunkCoord, Grid, GridView};
use crate::journal::{lemma_box_fits, records, spans_edits, VoxelEdit};
use crate::layers::{LayersModel, LayersState};
use crate::region::in_box;
use crate::rest::{is_crisp, law_clay_goes_by_its_offset};
use crate::rewind::{is_rewound, rewind_layer, rewinds};
use crate::sample::{is_finite, is_nan, key, law_samples_compare_as_values, less, lt, negated, num_eq, same_number, solid, value};
use crate::sculpt::{Pointer, SculptStroke};
use crate::selection::{law_pick_selects_clay, piece_at, shifted, Selection};
use crate::snapshot::{box_within, restored_at, RegionSnapshot};
use crate::stroke::edits_in;
use crate::tool::ToolKind;
use crate::undo::UndoHistory;
use crate::vec3::{BitVec3, IVec3, UVec3};
use vstd::prelude::*;

verus! {

/// A drag of an arrow.
pub struct ActiveDrag {
    /// The arrow that is dragged.
    pub axis: Axis,
    /// Where along the arrow the drag began.
    pub t_start: u32,
    /// The typed offset when the drag began.
    pub initial_widget_mm: BitVec3,
    /// The samples from before the drag, wherever it has reached.
    pub grid_snapshot: RegionSnapshot,
    /// The pieces when the drag began.
    pub labels: ComponentField,
    /// The piece that is dragged.
    pub component_id: ComponentId,
    /// Every chunk that changed since the drag began.
    pub dirty_chunks: ChunkSet,
}

impl ActiveDrag {
    /// The drag is of a piece of a domain of this resolution.
    pub open spec fn wf(&self, res: UVec3) -> bool {
        &&& self.labels.wf()
        &&& self.labels.domain() == res
        &&& 1 <= self.component_id <= self.labels.count()
        &&& self.grid_snapshot.wf()
        &&& box_within(self.grid_snapshot.lo(), self.grid_snapshot.hi(), res)
        &&& self.dirty_chunks.wf()
    }

    /// The box of the piece before the drag, and the offset by which it is shown.
    pub fn active_drag_bounds_and_delta(&self, delta: IVec3) -> (r: (UVec3, UVec3, IVec3))
        requires
            self.labels.wf(),
            1 <= self.component_id <= self.labels.count(),
        ensures
            r == (
                self.labels.box_of(self.component_id).0,
                self.labels.box_of(self.component_id).1,
                delta,
            ),
    {
        match self.labels.bounds_of(self.component_id) {
            Some((min, max)) => (min, max, delta),
            None => (UVec3 { x: 0, y: 0, z: 0 }, UVec3 { x: 0, y: 0, z: 0 }, delta),
        }
    }
}

/// Everything but the snapshot and the changed chunks is the same.
pub open spec fn same_drag(a: ActiveDrag, b: ActiveDrag) -> bool {
    &&& a.axis == b.axis
    &&& a.t_start == b.t_start
    &&& a.initial_widget_mm == b.initial_widget_mm
    &&& a.labels == b.labels
    &&& a.component_id == b.component_id
}

/// The offset of one piece.
pub open spec fn one_move(id: ComponentId, delta: IVec3) -> Seq<(u32, IVec3)> {
    seq![(id, delta)]
}

/// `end` is `g` with one piece moved.
pub open spec fn piece_moved(
    g: GridView,
    end: GridView,
    f: ComponentField,
    id: ComponentId,
    delta: IVec3,
) -> bool {
    &&& end.same_domain(g)
    &&& forall|v: UVec3|
        in_domain(g.res, v) ==> #[trigger] end.at(v.x as int, v.y as int, v.z as int) == translated(
            g,
            f,
            one_move(id, delta),
            v,
        )
    &&& forall|k: ChunkCoord| #[trigger]
        end.tiles.dom().contains(k) <==> g.tiles.dom().contains(k) || rewrites_chunk(
            g,
            f,
            one_move(id, delta),
            k,
        )
}

/// The snapshot holds every voxel that the move can change.
pub open spec fn holds_reach(s: RegionSnapshot, f: ComponentField, id: ComponentId, delta: IVec3) -> bool {
    forall|v: UVec3|
        in_domain(f.domain(), v) && #[trigger] in_reach(f, one_move(id, delta), v) ==> in_box(
            s.lo(),
            s.hi(),
            v.x as int,
            v.y as int,
            v.z as int,
        )
}

/// Begin a drag of the selected piece on an arrow, if a piece is selected.
pub fn start_drag(
    grid: &Grid,
    selection: &Selection,
    axis: Axis,
    t_start: u32,
    pending_mm: BitVec3,
) -> (r: Option<ActiveDrag>)
    requires
        grid.wf(),
        grid@.res.volume() <= u32::MAX,
    ensures
        exists|f: ComponentField| #[trigger]
            f.labels(grid@) && (match r {
                None => piece_at(selection.picked_voxel, f) is None,
                Some(d) => {
                    &&& piece_at(selection.picked_voxel, f) == Some(d.component_id)
                    &&& d.wf(grid@.res)
                    &&& d.labels == f
                    &&& d.axis == axis
                    &&& d.t_start == t_start
                    &&& d.initial_widget_mm == pending_mm
                    &&& d.dirty_chunks@ == Set::<ChunkCoord>::empty()
                    &&& rewinds(d.grid_snapshot, grid@, grid@)
                    &&& holds_reach(d.grid_snapshot, f, d.component_id, IVec3::zero())
                },
            }),
{
    let labels = label_components(grid);
    let component_id: u32 = match selection.selected_id(&labels) {
        Some(id) => id,
        None => {
            return None;
        },
    };
    proof {
        labels.lemma_wf();
    }
    match touched_region_for_translate(&labels, component_id, IVec3 { x: 0, y: 0, z: 0 }) {
        Some((min, max)) => {
            proof {
                lemma_box_fits(min, max, grid@.res);
            }
            let grid_snapshot = grid.snapshot_region(min, max);
            let r = ActiveDrag {
                axis,
                t_start,
                initial_widget_mm: pending_mm,
                grid_snapshot,
                labels,
                component_id,
                dirty_chunks: ChunkSet::new(),
            };
            assert(r.labels.labels(grid@));
            Some(r)
        },
        None => None,
    }
}

/// Put the grid of the active layer back to how it was before the drag, and make the
/// snapshot cover a move by `delta`.
fn rewind(active: &mut ActiveDrag, state: &mut LayersState, delta: IVec3)
    requires
        old(state).wf(),
        old(state).res().volume() <= u32::MAX,
        old(active).wf(old(state).res()),
    ensures
        final(state).wf(),
        final(state).res() == old(state).res(),
        final(active).wf(old(state).res()),
        same_drag(*final(active), *old(active)),
        final(active).dirty_chunks@ == old(active).dirty_chunks@,
        holds_reach(
            final(active).grid_snapshot,
            old(active).labels,
            old(active).component_id,
            delta,
        ),
        ({
            let now = old(state)@.layers[old(state)@.active].grid;
            let back = final(state)@.layers[old(state)@.active].grid;
            &&& final(state)@ == with_grid(old(state)@, back)
            &&& is_rewound(old(active).grid_snapshot, now, back)
            &&& rewinds(final(active).grid_snapshot, back, back)
        }),
{
    let (need_min, need_max) = match touched_region_for_translate(
        &active.labels,
        active.component_id,
        delta,
    ) {
        Some(b) => b,
        None => (UVec3 { x: 0, y: 0, z: 0 }, UVec3 { x: 0, y: 0, z: 0 }),
    };
    rewind_layer(&mut active.grid_snapshot, state, need_min, need_max);
    assert(holds_reach(
        active.grid_snapshot,
        old(active).labels,
        old(active).component_id,
        delta,
    ));
}

/// Show the dragged piece at an offset from where it was when the drag began.
pub fn apply_preview(active: &mut ActiveDrag, state: &mut LayersState, delta: IVec3)
    requires
        old(state).wf(),
        old(state).res().x > 0,
        old(state).res().y > 0,
        old(state).res().z > 0,
        old(state).res().volume() <= u32::MAX,
        old(active).wf(old(state).res()),
    ensures
        final(state).wf(),
        final(state).res() == old(state).res(),
        final(active).wf(old(state).res()),
        same_drag(*final(active), *old(active)),
        exists|back: GridView|
            {
                let end = final(state)@.layers[old(state)@.active].grid;
                &&& #[trigger] is_rewound(
                    old(active).grid_snapshot,
                    old(state)@.layers[old(state)@.active].grid,
                    back,
                )
                &&& piece_moved(back, end, old(active).labels, old(active).component_id, delta)
                &&& rewinds(final(active).grid_snapshot, end, back)
                &&& final(state)@ == with_dirty(
                    with_grid(old(state)@, end),
                    final(active).dirty_chunks@,
                )
                &&& marked_at(
                    back,
                    |v: UVec3|
                        rewrites(
                            back,
                            old(active).labels,
                            one_move(old(active).component_id, delta),
                            v,
                        ),
                    old(active).dirty_chunks@,
                    final(active).dirty_chunks@,
                )
            },
{
    let ghost m = state@;
    let ghost f = active.labels;
    let ghost id = active.component_id;
    rewind(active, state, delta);
    let ghost back = state@.layers[m.active].grid;
    let mut journal: Vec<VoxelEdit> = Vec::new();
    let res = state.grid().res();
    let dirty = translate_component(
        state.grid_mut(),
        &active.labels,
        active.component_id,
        delta,
        &mut journal,
    );
    let ghost end = state@.layers[m.active].grid;
    note_region(&mut active.dirty_chunks, dirty, res);
    let all = active.dirty_chunks.to_list();
    let i: usize = state.active;
    state.mark_all_dirty(i, &all);
    proof {
        assert(one_move(id, delta) == seq![(id, delta)]);
        assert(piece_moved(back, end, f, id, delta));
        assert(journal@.subrange(0, journal@.len() as int) =~= journal@);
        let changed = |v: UVec3| rewrites(back, f, one_move(id, delta), v);
        assert(records(journal@, back, changed) && spans_edits(journal@, dirty));
        let last = active.grid_snapshot;
        assert forall|x: int, y: int, z: int| back.res.has(x, y, z) implies #[trigger] restored_at(
            end,
            last,
            x,
            y,
            z,
        ) == back.at(x, y, z) by {
            assert(restored_at(back, last, x, y, z) == back.at(x, y, z));
            let v = UVec3 { x: x as u32, y: y as u32, z: z as u32 };
            assert(end.at(v.x as int, v.y as int, v.z as int) == translated(
                back,
                f,
                one_move(id, delta),
                v,
            ));
            if !in_box(last.lo(), last.hi(), x, y, z) {
                assert(!in_reach(f, one_move(id, delta), v));
            }
        }
        assert(state@.layers =~= with_dirty(with_grid(m, end), active.dirty_chunks@).layers);
    }
}

/// End a drag and keep the piece at its offset, as one unit of undo. The picked voxel
/// moves along. The result says whether the piece moved.
pub fn commit_drag(
    active: ActiveDrag,
    delta: IVec3,
    state: &mut LayersState,
    selection: &mut Selection,
    history: &mut UndoHistory,
) -> (r: bool)
    requires
        old(state).wf(),
        old(state).res().x > 0,
        old(state).res().y > 0,
        old(state).res().z > 0,
        old(state).res().volume() <= u32::MAX,
        old(history).wf(old(state).res()),
        active.wf(old(state).res()),
    ensures
        final(state).wf(),
        final(state).res() == old(state).res(),
        final(history).wf(old(state).res()),
        r == (delta != IVec3::zero()),
        final(selection).labels is None,
        final(selection).active_only == old(selection).active_only,
        final(selection).picked_voxel == (if r {
            shifted(old(selection).picked_voxel, delta, old(state).res())
        } else {
            old(selection).picked_voxel
        }),
        exists|back: GridView|
            {
                let marked = with_dirty(with_grid(old(state)@, back), active.dirty_chunks@);
                &&& #[trigger] is_rewound(
                    active.grid_snapshot,
                    old(state)@.layers[old(state)@.active].grid,
                    back,
                )
                &&& !r ==> final(state)@ == marked && *final(history) == *old(history)
                &&& r ==> piece_moved(
                    back,
                    final(state)@.layers[old(state)@.active].grid,
                    active.labels,
                    active.component_id,
                    delta,
                ) && edited_at(
                    marked,
                    final(state)@,
                    *old(history),
                    *final(history),
                    |v: UVec3|
                        rewrites(back, active.labels, one_move(active.component_id, delta), v),
                )
            },
{
    let ghost m = state@;
    let ghost h = *history;
    let ghost first = active;
    let mut active = active;
    rewind(&mut active, state, delta);
    let ghost back = state@.layers[m.active].grid;
    let chunks = active.dirty_chunks.to_list();
    let i: usize = state.active;
    state.mark_all_dirty(i, &chunks);
    let ghost marked = state@;
    assert(marked.layers =~= with_dirty(with_grid(m, back), first.dirty_chunks@).layers);
    selection.invalidate_labels();
    if delta.is_zero() {
        return false;
    }
    let mut journal: Vec<VoxelEdit> = Vec::new();
    let res = state.grid().res();
    let dirty = translate_component(
        state.grid_mut(),
        &active.labels,
        active.component_id,
        delta,
        &mut journal,
    );
    let ghost mid = state@;
    let ghost f = active.labels;
    let ghost id = active.component_id;
    proof {
        assert(one_move(id, delta) == seq![(id, delta)]);
        assert(journal@.subrange(0, journal@.len() as int) =~= journal@);
        assert(edits_in(journal@, back.res));
        assert(piece_moved(back, mid.layers[m.active].grid, f, id, delta));
        assert(mid == with_grid(marked, mid.layers[m.active].grid));
    }
    commit_edit(state, history, &journal, dirty);
    selection.shift_picked(delta, res);
    proof {
        let changed = |v: UVec3| rewrites(back, f, one_move(id, delta), v);
        assert(edited(marked, state@, h, *history, journal@, dirty));
        assert(edited_at(marked, state@, h, *history, changed));
    }
    true
}

/// Give up a drag: the grid is as it was before. The result is the typed offset from
/// before the drag.
pub fn cancel_drag(active: ActiveDrag, state: &mut LayersState) -> (r: BitVec3)
    requires
        old(state).wf(),
        active.wf(old(state).res()),
    ensures
        final(state).wf(),
        final(state).res() == old(state).res(),
        r == active.initial_widget_mm,
        exists|back: GridView| #[trigger]
            is_rewound(
                active.grid_snapshot,
                old(state)@.layers[old(state)@.active].grid,
                back,
            ) && final(state)@ == with_dirty(with_grid(old(state)@, back), active.dirty_chunks@),
{
    let ghost m = state@;
    state.grid_mut().restore_region(&active.grid_snapshot);
    let ghost back = state@.layers[m.active].grid;
    let chunks = active.dirty_chunks.to_list();
    let i: usize = state.active;
    state.mark_all_dirty(i, &chunks);
    proof {
        assert(is_rewound(active.grid_snapshot, m.layers[m.active].grid, back));
        assert(state@.layers =~= with_dirty(with_grid(m, back), active.dirty_chunks@).layers);
    }
    active.initial_widget_mm
}

/// The number 1e-6: offsets whose squared length is less are no move.
pub const NO_MOVE: u32 = 0x3586_37bd;

/// The selected piece was moved, as one unit of undo, and the picked voxel with it.
pub open spec fn selected_moved(
    m: LayersModel,
    end: LayersModel,
    h: UndoHistory,
    k: UndoHistory,
    before: Selection,
    after: Selection,
    f: ComponentField,
    delta: IVec3,
) -> bool {
    let id = piece_at(before.picked_voxel, f)->0;
    let g = m.layers[m.active].grid;
    &&& after.labels is None
    &&& after.picked_voxel == shifted(before.picked_voxel, delta, g.res)
    &&& piece_moved(g, end.layers[m.active].grid, f, id, delta)
    &&& edited_at(m, end, h, k, |v: UVec3| rewrites(g, f, one_move(id, delta), v))
}

/// Move a piece as one unit of undo, and the picked voxel with it.
fn move_selected(
    labels: &ComponentField,
    id: u32,
    delta: IVec3,
    state: &mut LayersState,
    selection: &mut Selection,
    history: &mut UndoHistory,
)
    requires
        old(state).wf(),
        old(state).res().x > 0,
        old(state).res().y > 0,
        old(state).res().z > 0,
        old(state).res().volume() <= u32::MAX,
        old(history).wf(old(state).res()),
        labels.labels(old(state)@.layers[old(state)@.active].grid),
        piece_at(old(selection).picked_voxel, *labels) == Some(id),
        delta != IVec3::zero(),
    ensures
        final(state).wf(),
        final(state).res() == old(state).res(),
        final(history).wf(old(state).res()),
        final(selection).active_only == old(selection).active_only,
        selected_moved(
            old(state)@,
            final(state)@,
            *old(history),
            *final(history),
            *old(selection),
            *final(selection),
            *labels,
            delta,
        ),
{
    let ghost m = state@;
    let ghost h = *history;
    let ghost g = m.layers[m.active].grid;
    let mut journal: Vec<VoxelEdit> = Vec::new();
    let res = state.grid().res();
    let dirty = translate_component(state.grid_mut(), labels, id, delta, &mut journal);
    let ghost mid = state@;
    proof {
        assert(one_move(id, delta) == seq![(id, delta)]);
        assert(journal@.subrange(0, journal@.len() as int) =~= journal@);
        assert(edits_in(journal@, g.res));
        assert(piece_moved(g, mid.layers[m.active].grid, *labels, id, delta));
        assert(mid == with_grid(m, mid.layers[m.active].grid));
    }
    commit_edit(state, history, &journal, dirty);
    selection.invalidate_labels();
    selection.shift_picked(delta, res);
    proof {
        let changed = |v: UVec3| rewrites(g, *labels, one_move(id, delta), v);
        assert(edited(m, state@, h, *history, journal@, dirty));
        assert(edited_at(m, state@, h, *history, changed));
    }
}

/// Move the selected piece by an offset, as one unit of undo. The picked voxel moves
/// along. `length_squared` is that of the offset before it was rounded to voxels. The
/// result says whether a piece moved.
pub fn apply_move(
    length_squared: u32,
    delta: IVec3,
    state: &mut LayersState,
    selection: &mut Selection,
    history: &mut UndoHistory,
    stroke: &mut SculptStroke,
) -> (r: bool)
    requires
        old(state).wf(),
        old(state).res().x > 0,
        old(state).res().y > 0,
        old(state).res().z > 0,
        old(state).res().volume() <= u32::MAX,
        old(history).wf(old(state).res()),
    ensures
        final(state).wf(),
        final(state).res() == old(state).res(),
        final(history).wf(old(state).res()),
        final(selection).active_only == old(selection).active_only,
        !r ==> final(state)@ == old(state)@ && *final(history) == *old(history) && *final(selection)
            == *old(selection),
        old(selection).picked_voxel is None || lt(length_squared, NO_MOVE) ==> !r && *final(stroke)
            == *old(stroke),
        old(selection).picked_voxel is Some && !lt(length_squared, NO_MOVE) ==> {
            &&& final(stroke).is_idle()
            &&& exists|f: ComponentField|
                {
                    &&& #[trigger] f.labels(old(state)@.layers[old(state)@.active].grid)
                    &&& r == (delta != IVec3::zero() && piece_at(old(selection).picked_voxel, f) is Some)
                    &&& r ==> selected_moved(
                        old(state)@,
                        final(state)@,
                        *old(history),
                        *final(history),
                        *old(selection),
                        *final(selection),
                        f,
                        delta,
                    )
                }
        },
{
    let ghost m = state@;
    let ghost h = *history;
    let ghost g = m.layers[m.active].grid;
    if selection.picked_voxel.is_none() {
        return false;
    }
    if less(length_squared, NO_MOVE) {
        return false;
    }
    stroke.discard_live();
    let labels = label_components(state.grid());
    if delta.is_zero() {
        assert(labels.labels(g));
        return false;
    }
    let id: u32 = match selection.selected_id(&labels) {
        Some(id) => id,
        None => {
            assert(labels.labels(g));
            return false;
        },
    };
    move_selected(&labels, id, delta, state, selection, history);
    true
}

/// The drop that takes a piece to the bench.
pub open spec fn drop_of(f: ComponentField, id: ComponentId) -> IVec3 {
    IVec3 { x: 0, y: -(f.box_of(id).0.y as int) as i32, z: 0 }
}

/// Set the base of the selected piece on the bench, as one unit of undo. The picked
/// voxel moves along. The result says whether a piece moved: none does where nothing is
/// selected, or the piece is already down.
pub fn snap_selection_to_workbench(
    state: &mut LayersState,
    selection: &mut Selection,
    history: &mut UndoHistory,
    stroke: &mut SculptStroke,
) -> (r: bool)
    requires
        old(state).wf(),
        old(state).res().x > 0,
        0 < old(state).res().y <= 0x8000_0000,
        old(state).res().z > 0,
        old(state).res().volume() <= u32::MAX,
        old(history).wf(old(state).res()),
    ensures
        final(state).wf(),
        final(state).res() == old(state).res(),
        final(history).wf(old(state).res()),
        final(selection).active_only == old(selection).active_only,
        !r ==> final(state)@ == old(state)@ && *final(history) == *old(history) && *final(selection)
            == *old(selection),
        old(selection).picked_voxel is None ==> !r && *final(stroke) == *old(stroke),
        old(selection).picked_voxel is Some ==> {
            &&& final(stroke).is_idle()
            &&& exists|f: ComponentField|
                {
                    &&& #[trigger] f.labels(old(state)@.layers[old(state)@.active].grid)
                    &&& r == (piece_at(old(selection).picked_voxel, f) matches Some(id) && f.box_of(
                        id,
                    ).0.y > 0)
                    &&& r ==> selected_moved(
                        old(state)@,
                        final(state)@,
                        *old(history),
                        *final(history),
                        *old(selection),
                        *final(selection),
                        f,
                        drop_of(f, piece_at(old(selection).picked_voxel, f)->0),
                    )
                }
        },
{
    let ghost g = state@.layers[state@.active].grid;
    if selection.picked_voxel.is_none() {
        return false;
    }
    stroke.discard_live();
    let labels = label_components(state.grid());
    assert(labels.labels(g));
    let id: u32 = match selection.selected_id(&labels) {
        Some(id) => id,
        None => {
            return false;
        },
    };
    proof {
        labels.lemma_wf();
        assert(1 <= id <= labels.count());
    }
    let low: u32 = match labels.bounds_of(id) {
        Some(b) => b.0.y,
        None => 0,
    };
    if low == 0 {
        return false;
    }
    let delta = IVec3 { x: 0, y: -(low as i32), z: 0 };
    move_selected(&labels, id, delta, state, selection, history);
    true
}

/// A snapped piece stands on the bench: some voxel of it is at height zero, and none of
/// it went through.
pub proof fn law_snapped_piece_stands(f: ComponentField, id: ComponentId)
    requires
        f.wf(),
        1 <= id <= f.count(),
        f.domain().y <= 0x8000_0000,
    ensures
        exists|v: UVec3|
            in_domain(f.domain(), v) && #[trigger] f.id(v) == id && v.y + drop_of(f, id).y == 0,
        forall|v: UVec3|
            in_domain(f.domain(), v) && #[trigger] f.id(v) == id ==> v.y + drop_of(f, id).y >= 0,
{
    f.lemma_wf();
    f.lemma_box_of(id);
    let low = f.box_of(id).0.y;
    let v = choose|v: UVec3|
        in_domain(f.domain(), v) && #[trigger] label(f@, f.domain(), v) == id && v.y == low;
    assert(f.id(v) == id && v.y + drop_of(f, id).y == 0);
    assert forall|v: UVec3| in_domain(f.domain(), v) && #[trigger] f.id(v) == id implies v.y
        + drop_of(f, id).y >= 0 by {
        assert(label(f@, f.domain(), v) == id);
    }
}

/// What the pointer does to the arrows.
#[derive(Copy, Clone, Debug, PartialEq, Eq, Structural)]
pub enum GizmoStep {
    Idle,
    /// Give up the drag.
    Cancel,
    /// End the drag and keep the move.
    Commit,
    /// Go on with the drag.
    Update,
    /// Begin a drag if an arrow is under the pointer.
    TryStart,
}

/// What the pointer does to the arrows in this frame.
pub open spec fn gizmo_step(kind: ToolKind, p: Pointer, dragging: bool, picked: bool) -> GizmoStep {
    if kind != ToolKind::Move {
        if dragging {
            GizmoStep::Cancel
        } else {
            GizmoStep::Idle
        }
    } else if p.released {
        if dragging {
            GizmoStep::Commit
        } else {
            GizmoStep::Idle
        }
    } else if dragging {
        GizmoStep::Update
    } else if !p.over_ui && p.pressed && picked {
        GizmoStep::TryStart
    } else {
        GizmoStep::Idle
    }
}

/// Decide what the pointer does to the arrows in this frame.
pub fn gizmo_frame(kind: ToolKind, p: Pointer, dragging: bool, picked: bool) -> (r: GizmoStep)
    ensures
        r == gizmo_step(kind, p, dragging, picked),
{
    if kind != ToolKind::Move {
        if dragging {
            GizmoStep::Cancel
        } else {
            GizmoStep::Idle
        }
    } else if p.released {
        if dragging {
            GizmoStep::Commit
        } else {
            GizmoStep::Idle
        }
    } else if dragging {
        GizmoStep::Update
    } else if !p.over_ui && p.pressed && picked {
        GizmoStep::TryStart
    } else {
        GizmoStep::Idle
    }
}

/// How the pointer passes an arrow: how near, how far along its own ray, and how far
/// along the arrow.
#[derive(Copy, Clone, Debug, PartialEq, Eq, Structural)]
pub struct ArrowPass {
    pub axis: Axis,
    pub distance: u32,
    pub t_ray: u32,
    pub t_axis: u32,
}

/// The number 60, the length of an arrow.
pub const ARROW_LENGTH: u32 = 0x4270_0000;

/// The number 6: the pointer grabs an arrow within this distance.
pub const PICK_TOLERANCE: u32 = 0x40c0_0000;

/// One number is at most another.
pub open spec fn at_most(a: u32, b: u32) -> bool {
    lt(a, b) || num_eq(a, b)
}

/// The pointer grabs the arrow: in front of the viewer, along its length, and near
/// enough.
pub open spec fn grabs(a: ArrowPass) -> bool {
    &&& !lt(a.t_ray, 0)
    &&& at_most(0, a.t_axis)
    &&& at_most(a.t_axis, ARROW_LENGTH)
    &&& !lt(PICK_TOLERANCE, a.distance)
}

/// The arrow that is grabbed among the first `n`: the nearest, and of equally near
/// ones the first.
pub open spec fn grabbed(passes: Seq<ArrowPass>, n: nat) -> Option<int>
    decreases n,
{
    if n == 0 {
        None
    } else {
        let before = grabbed(passes, (n - 1) as nat);
        let a = passes[n - 1];
        if grabs(a) && (before is None || lt(a.distance, passes[before->0].distance)) {
            Some(n - 1)
        } else {
            before
        }
    }
}

/// The arrow that the pointer grabs, if any.
pub fn pick_arrow(passes: &Vec<ArrowPass>) -> (r: Option<usize>)
    ensures
        match grabbed(passes@, passes@.len()) {
            None => r is None,
            Some(i) => r == Some(i as usize) && 0 <= i < passes@.len(),
        },
{
    let mut best: Option<usize> = None;
    let mut i: usize = 0;
    while i < passes.len()
        invariant
            i <= passes.len(),
            match grabbed(passes@, i as nat) {
                None => best is None,
                Some(k) => best == Some(k as usize) && 0 <= k < i,
            },
        decreases passes.len() - i,
    {
        let a = passes[i];
        let near: bool = !less(a.t_ray, 0) && (less(0, a.t_axis) || same_number(0, a.t_axis)) && (
        less(a.t_axis, ARROW_LENGTH) || same_number(a.t_axis, ARROW_LENGTH)) && !less(
            PICK_TOLERANCE,
            a.distance,
        );
        if near {
            match best {
                None => {
                    best = Some(i);
                },
                Some(k) => {
                    if less(a.distance, passes[k].distance) {
                        best = Some(i);
                    }
                },
            }
        }
        i = i + 1;
    }
    best
}

proof fn lemma_grabbed(passes: Seq<ArrowPass>, n: nat)
    requires
        n <= passes.len(),
        forall|i: int| 0 <= i < passes.len() ==> !is_nan((#[trigger] passes[i]).distance),
    ensures
        grabbed(passes, n) is None ==> forall|i: int| 0 <= i < n ==> !grabs(#[trigger] passes[i]),
        grabbed(passes, n) matches Some(k) ==> {
            &&& 0 <= k < n
            &&& grabs(passes[k])
            &&& forall|i: int|
                0 <= i < n && grabs(#[trigger] passes[i]) ==> !lt(
                    passes[i].distance,
                    passes[k].distance,
                )
        },
    decreases n,
{
    if n > 0 {
        lemma_grabbed(passes, (n - 1) as nat);
    }
}

/// The arrow that is grabbed is one that the pointer is near enough to, and none is
/// nearer.
pub proof fn law_nearest_arrow_is_grabbed(passes: Seq<ArrowPass>)
    requires
        forall|i: int| 0 <= i < passes.len() ==> !is_nan((#[trigger] passes[i]).distance),
    ensures
        grabbed(passes, passes.len()) is None <==> forall|i: int|
            0 <= i < passes.len() ==> !grabs(#[trigger] passes[i]),
        grabbed(passes, passes.len()) matches Some(k) ==> {
            &&& 0 <= k < passes.len()
            &&& grabs(passes[k])
            &&& forall|i: int|
                0 <= i < passes.len() && grabs(#[trigger] passes[i]) ==> !lt(
                    passes[i].distance,
                    passes[k].distance,
                )
        },
{
    lemma_grabbed(passes, passes.len());
}

/// The pick stays on the clay: where the piece of the picked voxel is moved, the voxel that is
/// picked afterwards is assigned a solid sample, no larger than the one that was picked.
pub proof fn law_pick_stays_on_the_piece(
    g: GridView,
    f: ComponentField,
    p: (u32, u32, u32),
    id: ComponentId,
    delta: IVec3,
)
    requires
        f.labels(g),
        all_finite(g),
        piece_at(Some(p), f) == Some(id),
        shifted(Some(p), delta, g.res) is Some,
        delta != (IVec3 { x: 0, y: 0, z: 0 }),
    ensures
        ({
            let q = shifted(Some(p), delta, g.res)->0;
            let w = UVec3 { x: q.0, y: q.1, z: q.2 };
            &&& solid(assigned(g, f, one_move(id, delta), w))
            &&& key(assigned(g, f, one_move(id, delta), w)) <= key(
                g.at(p.0 as int, p.1 as int, p.2 as int),
            )
        }),
{
    let v = UVec3 { x: p.0, y: p.1, z: p.2 };
    law_pick_selects_clay(g, f, p);
    let deltas = one_move(id, delta);
    law_last_offset_counts(deltas, id, 0);
    let q = shifted(Some(p), delta, g.res)->0;
    let w = UVec3 { x: q.0, y: q.1, z: q.2 };
    law_piece_goes_by_its_offset(g, f, deltas, v, w);
}

/// One piece is moved, and no other: the offset counts for it alone.
pub proof fn law_one_piece_is_moved(id: ComponentId, delta: IVec3, c: ComponentId)
    ensures
        delta_of(one_move(id, delta), c) == (if c == id {
            delta
        } else {
            IVec3 { x: 0, y: 0, z: 0 }
        }),
{
    if c == id {
        law_last_offset_counts(one_move(id, delta), id, 0);
    } else {
        law_no_offset_means_none(one_move(id, delta), c);
    }
}

/// A drag lasts from a press on the tool's own ground until the button goes up: it begins only
/// with the tool, off the panels and with a piece picked; once begun it goes on in every frame
/// until it is kept, when the button goes up, or given up, when the tool changes.
pub proof fn law_drag_begins_and_ends(kind: ToolKind, p: Pointer, dragging: bool, picked: bool)
    ensures
        ({
            let step = gizmo_step(kind, p, dragging, picked);
            &&& step == GizmoStep::TryStart <==> kind == ToolKind::Move && !dragging && p.pressed
                && !p.released && !p.over_ui && picked
            &&& step == GizmoStep::Commit <==> kind == ToolKind::Move && dragging && p.released
            &&& step == GizmoStep::Cancel <==> kind != ToolKind::Move && dragging
            &&& step == GizmoStep::Update <==> kind == ToolKind::Move && dragging && !p.released
        }),
{
}

/// An arrow is grabbed in front of the viewer, along its own length and within the tolerance.
pub proof fn law_arrow_is_grabbed_near(a: ArrowPass)
    requires
        is_finite(a.t_ray),
        is_finite(a.t_axis),
        is_finite(a.distance),
    ensures
        grabs(a) <==> {
            &&& value(a.t_ray) >= 0
            &&& 0 <= value(a.t_axis) <= value(ARROW_LENGTH)
            &&& value(a.distance) <= value(PICK_TOLERANCE)
        },
{
    law_samples_compare_as_values(a.t_ray, 0);
    law_samples_compare_as_values(0, a.t_axis);
    law_samples_compare_as_values(a.t_axis, ARROW_LENGTH);
    law_samples_compare_as_values(PICK_TOLERANCE, a.distance);
    assert(value(0) == 0) by {
        assert(negated(0) == 0x8000_0000u32);
        law_samples_compare_as_values(0, 0x8000_0000);
    }
}

/// Only the piece moves: afterwards there is clay at a voxel if and only if there was clay there
/// of another piece, or clay of the piece as far back as the piece went.
pub proof fn law_only_the_piece_moves(
    g: GridView,
    end: GridView,
    f: ComponentField,
    id: ComponentId,
    delta: IVec3,
    v: UVec3,
)
    requires
        f.labels(g),
        is_crisp(g),
        piece_moved(g, end, f, id, delta),
        g.res.has(v.x as int, v.y as int, v.z as int),
    ensures
        solid(end.at(v.x as int, v.y as int, v.z as int)) <==> {
            ||| solid(g.at(v.x as int, v.y as int, v.z as int)) && f.id(v) != id
            ||| exists|w: UVec3|
                {
                    &&& #[trigger] f.id(w) == id
                    &&& g.res.has(w.x as int, w.y as int, w.z as int)
                    &&& solid(g.at(w.x as int, w.y as int, w.z as int))
                    &&& v.x == w.x + delta.x
                    &&& v.y == w.y + delta.y
                    &&& v.z == w.z + delta.z
                }
        },
{
    let deltas = one_move(id, delta);
    law_clay_goes_by_its_offset(g, f, deltas, v);
    assert forall|c: u32| #[trigger] delta_of(deltas, c) == (if c == id {
        delta
    } else {
        IVec3 { x: 0, y: 0, z: 0 }
    }) by {
        law_one_piece_is_moved(id, delta, c);
    }
    assert(end.at(v.x as int, v.y as int, v.z as int) == translated(g, f, deltas, v));
    if solid(translated(g, f, deltas, v)) {
        let w = choose|w: UVec3|
            {
                let d = delta_of(deltas, #[trigger] f.id(w));
                &&& g.res.has(w.x as int, w.y as int, w.z as int)
                &&& solid(g.at(w.x as int, w.y as int, w.z as int))
                &&& v.x == w.x + d.x
                &&& v.y == w.y + d.y
                &&& v.z == w.z + d.z
            };
        assert(f.id(w) == id || w == v);
    } else if solid(g.at(v.x as int, v.y as int, v.z as int)) && f.id(v) != id {
        assert(delta_of(deltas, f.id(v)) == (IVec3 { x: 0, y: 0, z: 0 }));
    }
}

} // verus!
