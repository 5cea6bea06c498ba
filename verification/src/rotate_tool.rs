//! Turning the selected piece by quarter turns: typed angles and dragged rings.
//!
//! As with the arrows that move a piece, every frame of a drag goes out from the
//! samples from before the drag.

use crate::chunk_table::ChunkSet;
use crate::components::{in_domain, label_components, law_box_is_tight, solid_voxel, ComponentField, ComponentId};
use crate::dual_contour::Axis;
use crate::edit::{commit_edit, edited, edited_at, marked_at, note_region, with_dirty, with_grid};
use crate::gravity::{all_finite, in_wide, law_band_is_three_voxels_wide};
use crate::grid::{ChunkCoord, Grid, GridView};
use crate::journal::{lemma_box_fits, records, spans_edits, VoxelEdit};
use crate::layers::LayersState;
use crate::move_tool::GizmoStep;
use crate::region::in_box;
use crate::rest::is_crisp;
use crate::rewind::{is_rewound, rewind_layer, rewinds};
use crate::sample::{is_finite, is_nan, key, lemma_cleared_is_air, lemma_deep_apart, less, lt, moved, solid};
use crate::sculpt::{Pointer, SculptStroke};
use crate::selection::{law_pick_selects_clay, piece_at, Selection};
use crate::snapshot::{box_within, restored_at, RegionSnapshot};
use crate::stroke::edits_in;
use crate::turn::{about, carries, component_pivot, held, held_by, in_turn, in_turn_box, is_identity, is_whole, law_turn_is_undone, law_turned_piece_arrives, law_whole_turns_do_nothing, lemma_turn_box, piece_turned, pivot_of, point, rotate_component, rotate_picked, touched_region_for_rotate, turn_sample, turn_source, turn_writes};
use crate::undo::UndoHistory;
use crate::vec3::{BitVec3, IVec3, UVec3};
use vstd::prelude::*;

verus! {

/// A drag of a ring.
pub struct TurnDrag {
    /// The axis of the ring that is dragged.
    pub axis: Axis,
    /// Where around the ring the drag began.
    pub angle_start: u32,
    /// The typed angles when the drag began.
    pub initial_widget_deg: BitVec3,
    /// The samples from before the drag, wherever it has reached.
    pub grid_snapshot: RegionSnapshot,
    /// The pieces when the drag began.
    pub labels: ComponentField,
    /// The piece that is dragged.
    pub component_id: ComponentId,
    /// Every chunk that changed since the drag began.
    pub dirty_chunks: ChunkSet,
}

impl TurnDrag {
    /// The drag is of a piece of a domain of this resolution.
    pub open spec fn wf(&self, res: UVec3) -> bool {
        &&& self.labels.wf()
        &&& self.labels.domain() == res
        &&& 1 <= self.component_id <= self.labels.count()
        &&& self.grid_snapshot.wf()
        &&& box_within(self.grid_snapshot.lo(), self.grid_snapshot.hi(), res)
        &&& self.dirty_chunks.wf()
    }

    /// The box of the piece before the drag, the quarter turns by which it is shown,
    /// and the voxel about which it turns.
    pub fn active_drag_bounds_and_quarters(&self, q: IVec3) -> (r: Option<(UVec3, UVec3, IVec3, IVec3)>)
        requires
            self.labels.wf(),
            self.labels.domain().x <= 0x1fff_ffff,
            self.labels.domain().y <= 0x1fff_ffff,
            self.labels.domain().z <= 0x1fff_ffff,
        ensures
            r is Some <==> 1 <= self.component_id <= self.labels.count(),
            r matches Some(b) ==> {
                &&& (b.0, b.1) == self.labels.box_of(self.component_id)
                &&& b.2 == q
                &&& (b.3.x as int, b.3.y as int, b.3.z as int) == pivot_of(
                    self.labels,
                    self.component_id,
                )
            },
    {
        match (
            self.labels.bounds_of(self.component_id),
            component_pivot(&self.labels, self.component_id),
        ) {
            (Some((min, max)), Some(pivot)) => Some((min, max, q, pivot)),
            _ => None,
        }
    }
}

/// Everything but the snapshot and the changed chunks is the same.
pub open spec fn same_turn(a: TurnDrag, b: TurnDrag) -> bool {
    &&& a.axis == b.axis
    &&& a.angle_start == b.angle_start
    &&& a.initial_widget_deg == b.initial_widget_deg
    &&& a.labels == b.labels
    &&& a.component_id == b.component_id
}

/// The snapshot holds every voxel that the turn can change.
pub open spec fn holds_turn(s: RegionSnapshot, f: ComponentField, id: ComponentId, q: IVec3) -> bool {
    forall|v: UVec3|
        in_domain(f.domain(), v) && #[trigger] in_turn_box(f, id, q, v) ==> in_box(
            s.lo(),
            s.hi(),
            v.x as int,
            v.y as int,
            v.z as int,
        )
}

/// Begin a drag of the selected piece on a ring, if a piece is selected.
pub fn start_turn(
    grid: &Grid,
    selection: &Selection,
    axis: Axis,
    angle_start: u32,
    pending_deg: BitVec3,
) -> (r: Option<TurnDrag>)
    requires
        grid.wf(),
        grid@.res.volume() <= u32::MAX,
    ensures
        exists|f: ComponentField| #[trigger]
            f.labels(grid@) && (match r {
                None => piece_at(selection.picked_voxel, f) is None,
                Some(d) => {
                    &&& piece_at(selection.picked_voxel, f) == Some(d.component_id)
                    &&& d.wf(grid@.res)
                    &&& d.labels == f
                    &&& d.axis == axis
                    &&& d.angle_start == angle_start
                    &&& d.initial_widget_deg == pending_deg
                    &&& d.dirty_chunks@ == Set::<ChunkCoord>::empty()
                    &&& rewinds(d.grid_snapshot, grid@, grid@)
                    &&& holds_turn(d.grid_snapshot, f, d.component_id, IVec3::zero())
                },
            }),
{
    let labels = label_components(grid);
    let component_id: u32 = match selection.selected_id(&labels) {
        Some(id) => id,
        None => {
            return None;
        },
    };
    proof {
        labels.lemma_wf();
    }
    match touched_region_for_rotate(&labels, component_id, IVec3 { x: 0, y: 0, z: 0 }) {
        Some((min, max)) => {
            proof {
                lemma_box_fits(min, max, grid@.res);
            }
            let grid_snapshot = grid.snapshot_region(min, max);
            let r = TurnDrag {
                axis,
                angle_start,
                initial_widget_deg: pending_deg,
                grid_snapshot,
                labels,
                component_id,
                dirty_chunks: ChunkSet::new(),
            };
            assert(r.labels.labels(grid@));
            Some(r)
        },
        None => None,
    }
}

/// Put the grid of the active layer back to how it was before the drag, and make the
/// snapshot cover a turn.
fn rewind(active: &mut TurnDrag, state: &mut LayersState, q: IVec3)
    requires
        old(state).wf(),
        old(state).res().volume() <= u32::MAX,
        old(active).wf(old(state).res()),
    ensures
        final(state).wf(),
        final(state).res() == old(state).res(),
        final(active).wf(old(state).res()),
        same_turn(*final(active), *old(active)),
        final(active).dirty_chunks@ == old(active).dirty_chunks@,
        holds_turn(final(active).grid_snapshot, old(active).labels, old(active).component_id, q),
        ({
            let now = old(state)@.layers[old(state)@.active].grid;
            let back = final(state)@.layers[old(state)@.active].grid;
            &&& final(state)@ == with_grid(old(state)@, back)
            &&& is_rewound(old(active).grid_snapshot, now, back)
            &&& rewinds(final(active).grid_snapshot, back, back)
        }),
{
    let (need_min, need_max) = match touched_region_for_rotate(
        &active.labels,
        active.component_id,
        q,
    ) {
        Some(b) => b,
        None => (UVec3 { x: 0, y: 0, z: 0 }, UVec3 { x: 0, y: 0, z: 0 }),
    };
    rewind_layer(&mut active.grid_snapshot, state, need_min, need_max);
    assert(holds_turn(active.grid_snapshot, old(active).labels, old(active).component_id, q));
}

/// Show the dragged piece turned from how it was when the drag began.
pub fn preview_turn(active: &mut TurnDrag, state: &mut LayersState, q: IVec3)
    requires
        old(state).wf(),
        old(state).res().x > 0,
        old(state).res().y > 0,
        old(state).res().z > 0,
        old(state).res().volume() <= u32::MAX,
        old(active).wf(old(state).res()),
    ensures
        final(state).wf(),
        final(state).res() == old(state).res(),
        final(active).wf(old(state).res()),
        same_turn(*final(active), *old(active)),
        exists|back: GridView|
            {
                let end = final(state)@.layers[old(state)@.active].grid;
                &&& #[trigger] is_rewound(
                    old(active).grid_snapshot,
                    old(state)@.layers[old(state)@.active].grid,
                    back,
                )
                &&& piece_turned(back, end, old(active).labels, old(active).component_id, q)
                &&& rewinds(final(active).grid_snapshot, end, back)
                &&& final(state)@ == with_dirty(
                    with_grid(old(state)@, end),
                    final(active).dirty_chunks@,
                )
                &&& marked_at(
                    back,
                    |v: UVec3|
                        turn_writes(back, old(active).labels, old(active).component_id, q, v),
                    old(active).dirty_chunks@,
                    final(active).dirty_chunks@,
                )
            },
{
    let ghost m = state@;
    let ghost f = active.labels;
    let ghost id = active.component_id;
    rewind(active, state, q);
    let ghost back = state@.layers[m.active].grid;
    let mut journal: Vec<VoxelEdit> = Vec::new();
    let res = state.grid().res();
    let dirty = rotate_component(
        state.grid_mut(),
        &active.labels,
        active.component_id,
        q,
        &mut journal,
    );
    let ghost end = state@.layers[m.active].grid;
    note_region(&mut active.dirty_chunks, dirty, res);
    let all = active.dirty_chunks.to_list();
    let i: usize = state.active;
    state.mark_all_dirty(i, &all);
    proof {
        assert(piece_turned(back, end, f, id, q));
        assert(journal@.subrange(0, journal@.len() as int) =~= journal@);
        let changed = |v: UVec3| turn_writes(back, f, id, q, v);
        assert(records(journal@, back, changed) && spans_edits(journal@, dirty));
        let last = active.grid_snapshot;
        assert forall|x: int, y: int, z: int| back.res.has(x, y, z) implies #[trigger] restored_at(
            end,
            last,
            x,
            y,
            z,
        ) == back.at(x, y, z) by {
            assert(restored_at(back, last, x, y, z) == back.at(x, y, z));
            let v = UVec3 { x: x as u32, y: y as u32, z: z as u32 };
            assert(in_domain(back.res, v));
            if !in_box(last.lo(), last.hi(), x, y, z) {
                assert(!in_turn_box(f, id, q, v));
                if in_turn(f, id, q, v) {
                    lemma_turn_box(f, id, q, v);
                }
                assert(!turn_writes(back, f, id, q, v));
                assert(end.at(v.x as int, v.y as int, v.z as int) == back.at(
                    v.x as int,
                    v.y as int,
                    v.z as int,
                ));
            }
        }
        assert(state@.layers =~= with_dirty(with_grid(m, end), active.dirty_chunks@).layers);
    }
}

/// Where a turn of a piece takes the picked voxel; none if it leaves the domain.
pub open spec fn is_turned_pick(
    now: Option<(u32, u32, u32)>,
    was: Option<(u32, u32, u32)>,
    f: ComponentField,
    id: ComponentId,
    q: IVec3,
) -> bool {
    match was {
        None => now is None,
        Some((x, y, z)) => {
            let p = about(pivot_of(f, id), q, (x as int, y as int, z as int));
            match now {
                None => !f.domain().has(p.0, p.1, p.2),
                Some((a, b, c)) => (a as int, b as int, c as int) == p && f.domain().has(p.0, p.1, p.2),
            }
        },
    }
}

/// Take the picked voxel along with a turn.
fn turn_picked(selection: &mut Selection, labels: &ComponentField, id: ComponentId, q: IVec3)
    requires
        labels.wf(),
        1 <= id <= labels.count(),
    ensures
        is_turned_pick(final(selection).picked_voxel, old(selection).picked_voxel, *labels, id, q),
        final(selection).active_only == old(selection).active_only,
        final(selection).labels == old(selection).labels,
{
    if let Some((x, y, z)) = selection.picked_voxel {
        let v = UVec3 { x, y, z };
        assert(point(v) == (x as int, y as int, z as int));
        selection.picked_voxel = match rotate_picked(labels, id, q, v) {
            Some(w) => Some((w.x, w.y, w.z)),
            None => None,
        };
    }
}

/// End a drag and keep the piece as it is turned, as one unit of undo. The picked voxel
/// turns along. The result says whether the piece turned.
pub fn commit_turn(
    active: TurnDrag,
    q: IVec3,
    state: &mut LayersState,
    selection: &mut Selection,
    history: &mut UndoHistory,
) -> (r: bool)
    requires
        old(state).wf(),
        old(state).res().x > 0,
        old(state).res().y > 0,
        old(state).res().z > 0,
        old(state).res().volume() <= u32::MAX,
        old(history).wf(old(state).res()),
        active.wf(old(state).res()),
    ensures
        final(state).wf(),
        final(state).res() == old(state).res(),
        final(history).wf(old(state).res()),
        r == !is_whole(q),
        final(selection).labels is None,
        final(selection).active_only == old(selection).active_only,
        !r ==> final(selection).picked_voxel == old(selection).picked_voxel,
        r ==> is_turned_pick(
            final(selection).picked_voxel,
            old(selection).picked_voxel,
            active.labels,
            active.component_id,
            q,
        ),
        exists|back: GridView|
            {
                let marked = with_dirty(with_grid(old(state)@, back), active.dirty_chunks@);
                &&& #[trigger] is_rewound(
                    active.grid_snapshot,
                    old(state)@.layers[old(state)@.active].grid,
                    back,
                )
                &&& !r ==> final(state)@ == marked && *final(history) == *old(history)
                &&& r ==> piece_turned(
                    back,
                    final(state)@.layers[old(state)@.active].grid,
                    active.labels,
                    active.component_id,
                    q,
                ) && edited_at(
                    marked,
                    final(state)@,
                    *old(history),
                    *final(history),
                    |v: UVec3| turn_writes(back, active.labels, active.component_id, q, v),
                )
            },
{
    let ghost m = state@;
    let ghost h = *history;
    let ghost first = active;
    let mut active = active;
    rewind(&mut active, state, q);
    let ghost back = state@.layers[m.active].grid;
    let chunks = active.dirty_chunks.to_list();
    let i: usize = state.active;
    state.mark_all_dirty(i, &chunks);
    let ghost marked = state@;
    assert(marked.layers =~= with_dirty(with_grid(m, back), first.dirty_chunks@).layers);
    selection.invalidate_labels();
    if is_identity(q) {
        return false;
    }
    let mut journal: Vec<VoxelEdit> = Vec::new();
    let dirty = rotate_component(
        state.grid_mut(),
        &active.labels,
        active.component_id,
        q,
        &mut journal,
    );
    let ghost mid = state@;
    let ghost f = active.labels;
    let ghost id = active.component_id;
    proof {
        assert(journal@.subrange(0, journal@.len() as int) =~= journal@);
        assert(edits_in(journal@, back.res));
        assert(piece_turned(back, mid.layers[m.active].grid, f, id, q));
        assert(mid == with_grid(marked, mid.layers[m.active].grid));
    }
    commit_edit(state, history, &journal, dirty);
    turn_picked(selection, &active.labels, active.component_id, q);
    proof {
        let changed = |v: UVec3| turn_writes(back, f, id, q, v);
        assert(edited(marked, state@, h, *history, journal@, dirty));
        assert(edited_at(marked, state@, h, *history, changed));
    }
    true
}

/// Give up a drag: the grid is as it was before. The result holds the typed angles from
/// before the drag.
pub fn cancel_turn(active: TurnDrag, state: &mut LayersState) -> (r: BitVec3)
    requires
        old(state).wf(),
        active.wf(old(state).res()),
    ensures
        final(state).wf(),
        final(state).res() == old(state).res(),
        r == active.initial_widget_deg,
        exists|back: GridView| #[trigger]
            is_rewound(
                active.grid_snapshot,
                old(state)@.layers[old(state)@.active].grid,
                back,
            ) && final(state)@ == with_dirty(with_grid(old(state)@, back), active.dirty_chunks@),
{
    let ghost m = state@;
    state.grid_mut().restore_region(&active.grid_snapshot);
    let ghost back = state@.layers[m.active].grid;
    let chunks = active.dirty_chunks.to_list();
    let i: usize = state.active;
    state.mark_all_dirty(i, &chunks);
    proof {
        assert(is_rewound(active.grid_snapshot, m.layers[m.active].grid, back));
        assert(state@.layers =~= with_dirty(with_grid(m, back), active.dirty_chunks@).layers);
    }
    active.initial_widget_deg
}

/// Turn the selected piece by quarter turns, as one unit of undo. The picked voxel
/// turns along. The result says whether a piece turned.
pub fn apply_rotate(
    q: IVec3,
    state: &mut LayersState,
    selection: &mut Selection,
    history: &mut UndoHistory,
    stroke: &mut SculptStroke,
) -> (r: bool)
    requires
        old(state).wf(),
        old(state).res().x > 0,
        old(state).res().y > 0,
        old(state).res().z > 0,
        old(state).res().volume() <= u32::MAX,
        old(history).wf(old(state).res()),
    ensures
        final(state).wf(),
        final(state).res() == old(state).res(),
        final(history).wf(old(state).res()),
        final(selection).active_only == old(selection).active_only,
        !r ==> final(state)@ == old(state)@ && *final(history) == *old(history) && *final(selection)
            == *old(selection),
        old(selection).picked_voxel is None || is_whole(q) ==> !r && *final(stroke) == *old(stroke),
        old(selection).picked_voxel is Some && !is_whole(q) ==> {
            &&& final(stroke).is_idle()
            &&& exists|f: ComponentField|
                {
                    &&& #[trigger] f.labels(old(state)@.layers[old(state)@.active].grid)
                    &&& r == (piece_at(old(selection).picked_voxel, f) is Some)
                    &&& r ==> {
                        let id = piece_at(old(selection).picked_voxel, f)->0;
                        let g = old(state)@.layers[old(state)@.active].grid;
                        &&& final(selection).labels is None
                        &&& is_turned_pick(
                            final(selection).picked_voxel,
                            old(selection).picked_voxel,
                            f,
                            id,
                            q,
                        )
                        &&& piece_turned(
                            g,
                            final(state)@.layers[old(state)@.active].grid,
                            f,
                            id,
                            q,
                        )
                        &&& edited_at(
                            old(state)@,
                            final(state)@,
                            *old(history),
                            *final(history),
                            |v: UVec3| turn_writes(g, f, id, q, v),
                        )
                    }
                }
        },
{
    let ghost m = state@;
    let ghost h = *history;
    let ghost g = m.layers[m.active].grid;
    if selection.picked_voxel.is_none() {
        return false;
    }
    if is_identity(q) {
        return false;
    }
    stroke.discard_live();
    let labels = label_components(state.grid());
    let id: u32 = match selection.selected_id(&labels) {
        Some(id) => id,
        None => {
            assert(labels.labels(g));
            return false;
        },
    };
    proof {
        labels.lemma_wf();
    }
    let mut journal: Vec<VoxelEdit> = Vec::new();
    let dirty = rotate_component(state.grid_mut(), &labels, id, q, &mut journal);
    let ghost mid = state@;
    proof {
        assert(journal@.subrange(0, journal@.len() as int) =~= journal@);
        assert(edits_in(journal@, g.res));
        assert(piece_turned(g, mid.layers[m.active].grid, labels, id, q));
        assert(mid == with_grid(m, mid.layers[m.active].grid));
    }
    commit_edit(state, history, &journal, dirty);
    selection.invalidate_labels();
    turn_picked(selection, &labels, id, q);
    proof {
        let changed = |v: UVec3| turn_writes(g, labels, id, q, v);
        assert(edited(m, state@, h, *history, journal@, dirty));
        assert(edited_at(m, state@, h, *history, changed));
        assert(labels.labels(g));
    }
    true
}

/// Decide what the pointer does to the rings in this frame, with the tool in hand or
/// not.
pub fn ring_frame(in_hand: bool, p: Pointer, dragging: bool, picked: bool) -> (r: GizmoStep)
    ensures
        r == (if !in_hand {
            if dragging {
                GizmoStep::Cancel
            } else {
                GizmoStep::Idle
            }
        } else if p.released {
            if dragging {
                GizmoStep::Commit
            } else {
                GizmoStep::Idle
            }
        } else if dragging {
            GizmoStep::Update
        } else if !p.over_ui && p.pressed && picked {
            GizmoStep::TryStart
        } else {
            GizmoStep::Idle
        }),
{
    if dragging {
        if !in_hand {
            GizmoStep::Cancel
        } else if p.released {
            GizmoStep::Commit
        } else {
            GizmoStep::Update
        }
    } else if in_hand && !p.released && !p.over_ui && p.pressed && picked {
        GizmoStep::TryStart
    } else {
        GizmoStep::Idle
    }
}

/// How the pointer passes a ring: how near, and at which angle.
#[derive(Copy, Clone, Debug, PartialEq, Eq, Structural)]
pub struct RingPass {
    pub axis: Axis,
    pub distance: u32,
    pub angle: u32,
}

/// The number 8: the pointer grabs a ring within this distance.
pub const RING_TOLERANCE: u32 = 0x4100_0000;

/// The ring that is grabbed among the first `n`: the nearest that is near enough, and
/// of equally near ones the first.
pub open spec fn grabbed_ring(passes: Seq<RingPass>, n: nat) -> Option<int>
    decreases n,
{
    if n == 0 {
        None
    } else {
        let before = grabbed_ring(passes, (n - 1) as nat);
        let a = passes[n - 1];
        if !lt(RING_TOLERANCE, a.distance) && (before is None || lt(
            a.distance,
            passes[before->0].distance,
        )) {
            Some(n - 1)
        } else {
            before
        }
    }
}

/// The ring that the pointer grabs, if any.
pub fn pick_ring(passes: &Vec<RingPass>) -> (r: Option<usize>)
    ensures
        match grabbed_ring(passes@, passes@.len()) {
            None => r is None,
            Some(i) => r == Some(i as usize) && 0 <= i < passes@.len(),
        },
{
    let mut best: Option<usize> = None;
    let mut i: usize = 0;
    while i < passes.len()
        invariant
            i <= passes.len(),
            match grabbed_ring(passes@, i as nat) {
                None => best is None,
                Some(k) => best == Some(k as usize) && 0 <= k < i,
            },
        decreases passes.len() - i,
    {
        let distance: u32 = passes[i].distance;
        if !less(RING_TOLERANCE, distance) {
            match best {
                None => {
                    best = Some(i);
                },
                Some(k) => {
                    if less(distance, passes[k].distance) {
                        best = Some(i);
                    }
                },
            }
        }
        i = i + 1;
    }
    best
}

proof fn lemma_grabbed_ring(passes: Seq<RingPass>, n: nat)
    requires
        n <= passes.len(),
        forall|i: int| 0 <= i < passes.len() ==> !is_nan((#[trigger] passes[i]).distance),
    ensures
        grabbed_ring(passes, n) is None ==> forall|i: int|
            0 <= i < n ==> lt(RING_TOLERANCE, (#[trigger] passes[i]).distance),
        grabbed_ring(passes, n) matches Some(k) ==> {
            &&& 0 <= k < n
            &&& !lt(RING_TOLERANCE, passes[k].distance)
            &&& forall|i: int|
                0 <= i < n ==> !lt((#[trigger] passes[i]).distance, passes[k].distance)
        },
    decreases n,
{
    if n > 0 {
        lemma_grabbed_ring(passes, (n - 1) as nat);
    }
}

/// The ring that is grabbed is one that the pointer is near enough to, and none is
/// nearer.
pub proof fn law_nearest_ring_is_grabbed(passes: Seq<RingPass>)
    requires
        forall|i: int| 0 <= i < passes.len() ==> !is_nan((#[trigger] passes[i]).distance),
    ensures
        grabbed_ring(passes, passes.len()) is None <==> forall|i: int|
            0 <= i < passes.len() ==> lt(RING_TOLERANCE, (#[trigger] passes[i]).distance),
        grabbed_ring(passes, passes.len()) matches Some(k) ==> {
            &&& 0 <= k < passes.len()
            &&& !lt(RING_TOLERANCE, passes[k].distance)
            &&& forall|i: int|
                0 <= i < passes.len() ==> !lt((#[trigger] passes[i]).distance, passes[k].distance)
        },
{
    lemma_grabbed_ring(passes, passes.len());
}

/// The pick stays on the clay: where the piece of the picked voxel is turned, the voxel that is
/// picked afterwards is assigned a solid sample, no larger than the one that was picked.
pub proof fn law_pick_stays_on_the_turned_piece(
    g: GridView,
    f: ComponentField,
    was: (u32, u32, u32),
    now: (u32, u32, u32),
    id: ComponentId,
    q: IVec3,
)
    requires
        f.labels(g),
        all_finite(g),
        piece_at(Some(was), f) == Some(id),
        is_turned_pick(Some(now), Some(was), f, id, q),
    ensures
        ({
            let w = UVec3 { x: now.0, y: now.1, z: now.2 };
            &&& solid(turn_sample(g, f, id, q, w))
            &&& key(turn_sample(g, f, id, q, w)) <= key(
                g.at(was.0 as int, was.1 as int, was.2 as int),
            )
        }),
{
    let v = UVec3 { x: was.0, y: was.1, z: was.2 };
    let w = UVec3 { x: now.0, y: now.1, z: now.2 };
    law_pick_selects_clay(g, f, was);
    assert(solid_voxel(g, v));
    law_turned_piece_arrives(g, f, id, q, v, w);
}

/// Only the piece turns: afterwards there is clay at a voxel if and only if there was clay there
/// of another piece, or clay of the piece at a voxel that turns to it.
pub proof fn law_only_the_piece_turns(
    g: GridView,
    end: GridView,
    f: ComponentField,
    id: ComponentId,
    q: IVec3,
    v: UVec3,
)
    requires
        f.labels(g),
        is_crisp(g),
        1 <= id <= f.count(),
        piece_turned(g, end, f, id, q),
        g.res.has(v.x as int, v.y as int, v.z as int),
    ensures
        solid(end.at(v.x as int, v.y as int, v.z as int)) <==> {
            ||| solid(g.at(v.x as int, v.y as int, v.z as int)) && f.id(v) != id
            ||| exists|w: UVec3|
                {
                    &&& #[trigger] f.id(w) == id
                    &&& g.res.has(w.x as int, w.y as int, w.z as int)
                    &&& solid(g.at(w.x as int, w.y as int, w.z as int))
                    &&& about(pivot_of(f, id), q, point(w)) == point(v)
                }
        },
{
    let here = g.at(v.x as int, v.y as int, v.z as int);
    let next = turn_sample(g, f, id, q, v);
    let s = turn_source(f, id, q, v);
    let pivot = pivot_of(f, id);
    f.lemma_wf();
    assert(is_finite(here));
    assert(f.id(v) == 0 <==> !solid_voxel(g, v));
    lemma_cleared_is_air(g.voxel_size);
    law_turn_is_undone(pivot, q, point(v));
    let other = solid(here) && f.id(v) != id;
    if other {
        lemma_in_its_band(f, v);
        assert(held_by(f, id, f.id(v), v));
    } else if solid(here) {
        assert(!held(f, id, f.count(), v));
        lemma_in_its_band(f, v);
    }
    let arrives = exists|w: UVec3|
        {
            &&& #[trigger] f.id(w) == id
            &&& g.res.has(w.x as int, w.y as int, w.z as int)
            &&& solid(g.at(w.x as int, w.y as int, w.z as int))
            &&& about(pivot, q, point(w)) == point(v)
        };
    if arrives {
        let w = choose|w: UVec3|
            {
                &&& #[trigger] f.id(w) == id
                &&& g.res.has(w.x as int, w.y as int, w.z as int)
                &&& solid(g.at(w.x as int, w.y as int, w.z as int))
                &&& about(pivot, q, point(w)) == point(v)
            };
        law_turn_is_undone(pivot, q, point(w));
        assert(s == point(w));
        lemma_in_its_band(f, w);
        assert(UVec3 { x: s.0 as u32, y: s.1 as u32, z: s.2 as u32 } == w);
        assert(carries(f, id, q, v));
        assert(is_finite(g.at(s.0, s.1, s.2)));
    } else if carries(f, id, q, v) {
        let w = UVec3 { x: s.0 as u32, y: s.1 as u32, z: s.2 as u32 };
        assert(point(w) == s);
        assert(f.id(w) == 0 <==> !solid_voxel(g, w));
        assert(is_finite(g.at(s.0, s.1, s.2)));
        assert(!solid(g.at(s.0, s.1, s.2)));
    }
    assert(solid(next) <==> other || arrives);
    assert(solid(next) ==> moved(next, 0)) by {
        if solid(next) && carries(f, id, q, v) {
            let w = UVec3 { x: s.0 as u32, y: s.1 as u32, z: s.2 as u32 };
            if solid(g.at(s.0, s.1, s.2)) {
                assert(solid_voxel(g, w));
            }
        }
    }
    assert(!is_nan(next));
    assert(end.at(v.x as int, v.y as int, v.z as int) == (if turn_writes(g, f, id, q, v) {
        next
    } else {
        here
    }));
    if !turn_writes(g, f, id, q, v) {
        if is_whole(q) {
            law_whole_turns_do_nothing(pivot, q, point(v));
            if arrives {
                let w = choose|w: UVec3|
                    {
                        &&& #[trigger] f.id(w) == id
                        &&& g.res.has(w.x as int, w.y as int, w.z as int)
                        &&& solid(g.at(w.x as int, w.y as int, w.z as int))
                        &&& about(pivot, q, point(w)) == point(v)
                    };
                law_whole_turns_do_nothing(pivot, q, point(w));
                assert(w == v);
            } else if solid(here) && f.id(v) == id {
                assert(about(pivot, q, point(v)) == point(v));
            }
        } else if in_turn(f, id, q, v) {
            if solid(here) && !solid(next) {
                lemma_deep_apart(here, next);
            }
            if !solid(here) && solid(next) && is_finite(next) {
                lemma_deep_apart(next, here);
            }
        }
    }
}

/// A voxel of a piece goes along with its piece.
proof fn lemma_in_its_band(f: ComponentField, v: UVec3)
    requires
        f.wf(),
        in_domain(f.domain(), v),
        f.id(v) > 0,
    ensures
        in_wide(f, f.id(v), v.x as int, v.y as int, v.z as int),
{
    f.lemma_wf();
    law_box_is_tight(f, f.id(v));
    law_band_is_three_voxels_wide(f, f.id(v), v.x as int, v.y as int, v.z as int);
}

} // verus!
