//! The stroke in progress: what starts and ends it, where its stamps go and how they
//! are spaced, and how a stamp is written and recorded.
//!
//! Points, directions and lengths are binary32 bit patterns.

use crate::brush::{apply_cookie_cutter_with_callback, apply_displacing_brush, apply_smooth_brush_with_callback, apply_sphere_brush_with_callback, apply_wire_cutter_with_callback, footprint_of, BrushMode};
use crate::components::in_domain;
use crate::dirty::DirtyRegion;
use crate::edit::{mark_region, shows_in, with_dirty, with_grid};
use crate::grid::{in_scan_order, ChunkCoord, GridView};
use crate::journal::{spans_edits, VoxelEdit};
use crate::layers::{LayersModel, LayersState};
use crate::sample::{is_finite, is_nan, law_samples_compare_as_values, less, lt, moved, negate, negated, num_eq, same_number, solid, unsigned, unsigned_sample, value};
use crate::selection::Selection;
use crate::snapshot::box_within;
use crate::stamp::{built_up, cut_out, laid_over, law_replace_lays_over, law_subtract_cuts_out, law_unite_builds_up, stamp_journalled, stamp_writes, stamped, Change, Combine, Field};
use crate::stroke::{edits_in, law_recording_keeps_track, law_redo_restores_end, law_undo_restores_start, pre_samples, replaced, same_samples, tracks, with_journal, StrokeEntry, StrokeRecorder};
use crate::tool::ToolKind;
use crate::undo::{capped, UndoEntry, UndoHistory};
use crate::vec3::{BitVec3, UVec3};
use vstd::prelude::*;

verus! {

/// The stroke in progress.
pub struct SculptStroke {
    /// What the stroke changed so far, or nothing while no stroke is in progress.
    pub recorder: Option<StrokeRecorder>,
    /// Where the last stamp of this stroke hit, to space stamps by.
    pub last_clay_hit: Option<BitVec3>,
    /// A point and the normal of the plane on which stamps are kept while painting
    /// face on.
    pub paint_plane: Option<(BitVec3, BitVec3)>,
    /// This stroke lays clay on the bare bench.
    pub bench_paint: bool,
}

impl SculptStroke {
    /// What was recorded so far is of voxels of the domain.
    pub open spec fn wf(&self, res: UVec3) -> bool {
        self.recorder matches Some(r) ==> r.wf() && edits_in(r.edits(), res)
    }

    /// No stroke is in progress.
    pub open spec fn is_idle(&self) -> bool {
        self.recorder is None && self.is_fresh()
    }

    /// Nothing was stamped yet.
    pub open spec fn is_fresh(&self) -> bool {
        &&& self.last_clay_hit is None
        &&& self.paint_plane is None
        &&& !self.bench_paint
    }

    /// A stroke just began.
    pub open spec fn has_begun(&self) -> bool {
        &&& self.is_fresh()
        &&& self.recorder matches Some(r) && r.wf() && r.edits().len() == 0 && r.dirty()
            == Set::<ChunkCoord>::empty()
    }

    /// No stroke.
    pub fn new() -> (r: SculptStroke)
        ensures
            r.is_idle(),
    {
        SculptStroke { recorder: None, last_clay_hit: None, paint_plane: None, bench_paint: false }
    }

    /// Drop the stroke in progress.
    pub fn discard_live(&mut self)
        ensures
            final(self).is_idle(),
    {
        self.recorder = None;
        self.last_clay_hit = None;
        self.paint_plane = None;
        self.bench_paint = false;
    }

    /// Begin a stroke.
    pub fn begin(&mut self)
        ensures
            final(self).has_begun(),
    {
        self.recorder = Some(StrokeRecorder::new());
        self.last_clay_hit = None;
        self.paint_plane = None;
        self.bench_paint = false;
    }
}

/// `e` is the entry of a finished stroke on a layer whose grid is now `g`.
pub open spec fn is_stroke_entry(e: StrokeEntry, rec: StrokeRecorder, g: GridView, layer: u32) -> bool {
    &&& e.wf(g.res)
    &&& e.layer == layer
    &&& e.edits@ == rec.edits()
    &&& forall|i: int|
        0 <= i < e.post@.len() ==> #[trigger] e.post@[i] == ({
            let v = e.edits@[i].voxel();
            g.at(v.x as int, v.y as int, v.z as int)
        })
    &&& in_scan_order(e.dirty@)
    &&& e.dirty@.to_set() == rec.dirty()
}

/// The stroke wrote to some voxel.
pub open spec fn wrote(stroke: SculptStroke) -> bool {
    stroke.recorder matches Some(r) && r.edits().len() > 0
}

/// The history after a stroke ended: one more entry, unless the stroke wrote
/// nothing.
pub open spec fn stroke_pushed(
    stroke: SculptStroke,
    m: LayersModel,
    before: UndoHistory,
    after: UndoHistory,
) -> bool {
    if wrote(stroke) {
        &&& after.redo@.len() == 0
        &&& exists|e: StrokeEntry| #[trigger]
            is_stroke_entry(
                e,
                stroke.recorder->0,
                m.layers[m.active].grid,
                m.layers[m.active].id,
            ) && after.undo@ == capped(before.undo@.push(UndoEntry::Stroke(e)))
    } else {
        after.undo@ == before.undo@ && after.redo@ == before.redo@
    }
}

/// End the stroke in progress and remember it for undo. Labels are stale once a
/// stroke wrote something.
pub fn finish_stroke(
    stroke: &mut SculptStroke,
    state: &LayersState,
    history: &mut UndoHistory,
    selection: &mut Selection,
)
    requires
        state.wf(),
        old(stroke).wf(state.res()),
        old(history).wf(state.res()),
    ensures
        final(stroke).is_idle(),
        final(history).wf(state.res()),
        stroke_pushed(*old(stroke), state@, *old(history), *final(history)),
        final(selection).picked_voxel == old(selection).picked_voxel,
        final(selection).active_only == old(selection).active_only,
        final(selection).labels == (if wrote(*old(stroke)) {
            None
        } else {
            old(selection).labels
        }),
{
    match stroke.recorder.take() {
        Some(rec) => {
            let ghost r = rec;
            match rec.finish(state.grid(), state.active_id()) {
                Some(entry) => {
                    assert(is_stroke_entry(
                        entry,
                        r,
                        state@.layers[state@.active].grid,
                        state@.layers[state@.active].id,
                    ));
                    history.push_stroke(entry);
                    selection.invalidate_labels();
                },
                None => {},
            }
        },
        None => {},
    }
    stroke.discard_live();
}

/// The pointer in this frame.
#[derive(Copy, Clone, Debug, PartialEq, Eq, Structural)]
pub struct Pointer {
    /// The button is down.
    pub held: bool,
    /// The button went down.
    pub pressed: bool,
    /// The button went up.
    pub released: bool,
    /// A menu or panel has the pointer.
    pub over_ui: bool,
}

/// The tool stamps from the general stroke; the others have handling of their own.
pub open spec fn stamps(kind: ToolKind) -> bool {
    match kind {
        ToolKind::WireCutter | ToolKind::Select | ToolKind::Move => false,
        _ => true,
    }
}

/// The tool is to stamp in this frame: a cutter once as the button goes down, the
/// others as long as it is held.
pub open spec fn engages(kind: ToolKind, p: Pointer) -> bool {
    match kind {
        ToolKind::Cutter(_) => p.pressed,
        ToolKind::WireCutter | ToolKind::Select | ToolKind::Move => false,
        _ => p.held,
    }
}

/// Take the pointer of this frame. A stroke ends when the button goes up, also over a
/// panel; nothing else happens over a panel; a stroke begins when the button goes
/// down. The result says whether the tool is to stamp.
pub fn pointer_frame(
    kind: ToolKind,
    p: Pointer,
    stroke: &mut SculptStroke,
    state: &LayersState,
    history: &mut UndoHistory,
    selection: &mut Selection,
) -> (r: bool)
    requires
        state.wf(),
        old(stroke).wf(state.res()),
        old(history).wf(state.res()),
    ensures
        final(stroke).wf(state.res()),
        final(history).wf(state.res()),
        r == (engages(kind, p) && !p.over_ui),
        final(selection).picked_voxel == old(selection).picked_voxel,
        final(selection).active_only == old(selection).active_only,
        stamps(kind) && p.released ==> stroke_pushed(
            *old(stroke),
            state@,
            *old(history),
            *final(history),
        ) && final(selection).labels == (if wrote(*old(stroke)) {
            None
        } else {
            old(selection).labels
        }),
        !(stamps(kind) && p.released) ==> *final(history) == *old(history) && final(selection).labels
            == old(selection).labels,
        stamps(kind) && p.pressed && !p.over_ui ==> final(stroke).has_begun(),
        stamps(kind) && p.released && (!p.pressed || p.over_ui) ==> final(stroke).is_idle(),
        !stamps(kind) || !p.released && (!p.pressed || p.over_ui) ==> *final(stroke) == *old(stroke),
{
    match kind {
        ToolKind::WireCutter | ToolKind::Select | ToolKind::Move => {
            return false;
        },
        _ => {},
    }
    if p.released {
        finish_stroke(stroke, state, history, selection);
    }
    if p.over_ui {
        return false;
    }
    if p.pressed {
        stroke.begin();
    }
    match kind {
        ToolKind::Cutter(_) => p.pressed,
        _ => p.held,
    }
}

/// Where a stamp goes.
#[derive(Copy, Clone, Debug, PartialEq, Eq, Structural)]
pub enum Route {
    /// On the bare bench.
    Bench,
    /// On the surface that was hit.
    Surface,
    /// Nowhere.
    Nothing,
}

/// Where a stamp goes: once a stroke lays clay on the bench it stays there, so that a
/// coil does not climb its own beads; without a surface clay is laid on the bench, and
/// every other tool does nothing.
pub open spec fn route_of(adding: bool, bench_paint: bool, hit: bool) -> Route {
    if adding && (bench_paint || !hit) {
        Route::Bench
    } else if hit {
        Route::Surface
    } else {
        Route::Nothing
    }
}

/// Decide where a stamp goes.
pub fn route_stamp(adding: bool, stroke: &SculptStroke, hit: bool) -> (r: Route)
    ensures
        r == route_of(adding, stroke.bench_paint, hit),
{
    if adding && (stroke.bench_paint || !hit) {
        Route::Bench
    } else if hit {
        Route::Surface
    } else {
        Route::Nothing
    }
}

/// The number 0.35: from this column weight on clay may grow sideways.
pub const CLAY_COLUMN_UNLOCK: u32 = 0x3eb3_3333;

/// Painting face on: clay is added and does not grow sideways.
pub open spec fn is_face_on(adding: bool, column: u32) -> bool {
    adding && lt(column, CLAY_COLUMN_UNLOCK)
}

/// Keep the stamps of a face-on stroke on the plane of its first contact. The result
/// is the plane to put the stamp on, if there is one.
pub fn lock_plane(
    stroke: &mut SculptStroke,
    adding: bool,
    column: u32,
    hit: BitVec3,
    into_surface: BitVec3,
) -> (r: Option<(BitVec3, BitVec3)>)
    ensures
        r == (if is_face_on(adding, column) {
            old(stroke).paint_plane
        } else {
            None
        }),
        final(stroke).paint_plane == (if !is_face_on(adding, column) {
            None
        } else if old(stroke).paint_plane is None {
            Some((hit, into_surface))
        } else {
            old(stroke).paint_plane
        }),
        final(stroke).recorder == old(stroke).recorder,
        final(stroke).last_clay_hit == old(stroke).last_clay_hit,
        final(stroke).bench_paint == old(stroke).bench_paint,
{
    if adding && less(column, CLAY_COLUMN_UNLOCK) {
        match stroke.paint_plane {
            Some(plane) => Some(plane),
            None => {
                stroke.paint_plane = Some((hit, into_surface));
                None
            },
        }
    } else {
        stroke.paint_plane = None;
        None
    }
}

/// The tool spaces its stamps.
pub open spec fn spaces(kind: ToolKind) -> bool {
    kind == ToolKind::Clay || kind == ToolKind::Press || kind == ToolKind::Pull
}

/// Stamps may be dense: clay is added while the piece turns or sideways.
pub open spec fn is_dense(kind: ToolKind, adding: bool, turning: bool, column: u32) -> bool {
    kind == ToolKind::Clay && adding && (turning || lt(CLAY_COLUMN_UNLOCK, column) || num_eq(
        CLAY_COLUMN_UNLOCK,
        column,
    ))
}

/// The limits of spacing, as squared distances.
#[derive(Copy, Clone, Debug, PartialEq, Eq, Structural)]
pub struct Spacing {
    /// While stamps may be dense.
    pub dense: u32,
    /// Otherwise.
    pub coarse: u32,
}

/// Whether a stamp is far enough from the last one of its stroke. `gap` is the squared
/// distance from it, and means nothing for the first stamp.
pub fn is_spaced(
    stroke: &SculptStroke,
    kind: ToolKind,
    adding: bool,
    turning: bool,
    column: u32,
    gap: u32,
    spacing: Spacing,
) -> (r: bool)
    ensures
        r == !(spaces(kind) && stroke.last_clay_hit is Some && lt(
            gap,
            if is_dense(kind, adding, turning, column) {
                spacing.dense
            } else {
                spacing.coarse
            },
        )),
{
    if kind != ToolKind::Clay && kind != ToolKind::Press && kind != ToolKind::Pull {
        return true;
    }
    if stroke.last_clay_hit.is_none() {
        return true;
    }
    let limit: u32 = if kind == ToolKind::Clay && adding && (turning || less(
        CLAY_COLUMN_UNLOCK,
        column,
    ) || same_number(CLAY_COLUMN_UNLOCK, column)) {
        spacing.dense
    } else {
        spacing.coarse
    };
    !less(gap, limit)
}

/// Remember where a stamp hit.
pub fn note_stamp(stroke: &mut SculptStroke, kind: ToolKind, hit: BitVec3)
    ensures
        final(stroke).last_clay_hit == (if spaces(kind) {
            Some(hit)
        } else {
            old(stroke).last_clay_hit
        }),
        final(stroke).recorder == old(stroke).recorder,
        final(stroke).paint_plane == old(stroke).paint_plane,
        final(stroke).bench_paint == old(stroke).bench_paint,
{
    if kind == ToolKind::Clay || kind == ToolKind::Press || kind == ToolKind::Pull {
        stroke.last_clay_hit = Some(hit);
    }
}

/// A point or direction mirrored across the plane through the middle of the piece.
pub open spec fn mirrored(p: BitVec3) -> BitVec3 {
    BitVec3 { x: negated(p.x), ..p }
}

/// Mirror a point or direction across the plane through the middle of the piece.
pub fn mirror(p: BitVec3) -> (r: BitVec3)
    ensures
        r == mirrored(p),
{
    BitVec3 { x: negate(p.x), y: p.y, z: p.z }
}

/// The recorder of a stroke took in a journal and a dirty region.
pub open spec fn recorded(
    before: SculptStroke,
    after: SculptStroke,
    journal: Seq<VoxelEdit>,
    dirty: Option<DirtyRegion>,
    res: UVec3,
) -> bool {
    &&& after.last_clay_hit == before.last_clay_hit
    &&& after.paint_plane == before.paint_plane
    &&& after.bench_paint == before.bench_paint
    &&& match (before.recorder, after.recorder) {
        (Some(a), Some(b)) => {
            &&& b.edits() == with_journal(a.edits(), journal, journal.len())
            &&& b.dirty() == a.dirty().union(shows_in(dirty, res))
        },
        (None, None) => true,
        _ => false,
    }
}

proof fn lemma_with_journal_in(edits: Seq<VoxelEdit>, journal: Seq<VoxelEdit>, n: nat, res: UVec3)
    requires
        n <= journal.len(),
        edits_in(edits, res),
        edits_in(journal, res),
    ensures
        edits_in(with_journal(edits, journal, n), res),
    decreases n,
{
    if n > 0 {
        lemma_with_journal_in(edits, journal, (n - 1) as nat, res);
    }
}

/// Record what a stamp wrote to the active layer, if a stroke is in progress, and mark
/// the chunks that it shows in.
pub fn record_stamp(
    state: &mut LayersState,
    stroke: &mut SculptStroke,
    journal: &Vec<VoxelEdit>,
    dirty: Option<DirtyRegion>,
)
    requires
        old(state).wf(),
        old(state).res().x > 0,
        old(state).res().y > 0,
        old(state).res().z > 0,
        old(stroke).wf(old(state).res()),
        edits_in(journal@, old(state).res()),
    ensures
        final(state).wf(),
        final(state).res() == old(state).res(),
        final(stroke).wf(old(state).res()),
        final(state)@ == with_dirty(old(state)@, shows_in(dirty, old(state).res())),
        recorded(*old(stroke), *final(stroke), journal@, dirty, old(state).res()),
{
    let ghost res = state.res();
    let size = state.grid().res();
    match stroke.recorder.take() {
        Some(rec) => {
            let ghost was = rec;
            let mut rec = rec;
            rec.record_journal(journal);
            match dirty {
                Some(region) => {
                    rec.record_dirty_region(region, size);
                },
                None => {},
            }
            proof {
                lemma_with_journal_in(was.edits(), journal@, journal@.len(), res);
                assert(rec.dirty() =~= was.dirty().union(shows_in(dirty, res)));
            }
            stroke.recorder = Some(rec);
        },
        None => {},
    }
    mark_region(state, dirty);
}

/// How a tool with one step writes its stamp.
pub open spec fn rule_of(kind: ToolKind, adding: bool, displace: bool) -> Option<(Combine, Change)> {
    match kind {
        ToolKind::Clay => Some(
            (
                if adding {
                    Combine::Unite
                } else if displace {
                    Combine::Replace
                } else {
                    Combine::Subtract
                },
                Change::Number,
            ),
        ),
        ToolKind::Cutter(_) | ToolKind::Knife => Some((Combine::Subtract, Change::Number)),
        ToolKind::Smooth => Some((Combine::Replace, Change::Moved)),
        _ => None,
    }
}

/// The stack and the stroke after a stamp.
pub open spec fn stamp_done(
    before: LayersModel,
    after: LayersModel,
    stroke: SculptStroke,
    now: SculptStroke,
    f: Field,
    op: Combine,
    change: Change,
    journal: Seq<VoxelEdit>,
    dirty: Option<DirtyRegion>,
) -> bool {
    let old_grid = before.layers[before.active].grid;
    let new_grid = after.layers[before.active].grid;
    &&& stamped(old_grid, new_grid, f, op, change)
    &&& stamp_journalled(old_grid, f, op, change, Seq::empty(), journal)
    &&& after == with_dirty(with_grid(before, new_grid), shows_in(dirty, old_grid.res))
    &&& recorded(stroke, now, journal, dirty, old_grid.res)
}

/// What a stamp of a tool with one step leaves of the workpiece: clay is added where it
/// is to be added; a cutter, the knife, and clay that is to be removed without being
/// pushed aside cut; clay that is pushed aside and the smoothing brush bring their own
/// samples. Every other tool leaves the workpiece alone.
pub open spec fn does_its_work(
    before: GridView,
    after: GridView,
    kind: ToolKind,
    adding: bool,
    displace: bool,
    f: Field,
) -> bool {
    match kind {
        ToolKind::Cutter(_) | ToolKind::Knife => cut_out(before, after, f),
        ToolKind::Clay => {
            &&& adding ==> built_up(before, after, f)
            &&& !adding && !displace ==> cut_out(before, after, f)
            &&& !adding && displace ==> laid_over(before, after, f)
        },
        ToolKind::Smooth => forall|v: UVec3|
            in_domain(before.res, v) ==> {
                let was = before.at(v.x as int, v.y as int, v.z as int);
                let now = #[trigger] after.at(v.x as int, v.y as int, v.z as int);
                if f.has(v) && f.offer(v) is Some {
                    let d = f.offer(v)->0;
                    let bench = match f.floors {
                        Some(w) => w@[v.y - f.lo.y],
                        None => d,
                    };
                    let next = if lt(d, bench) {
                        bench
                    } else {
                        d
                    };
                    now == (if moved(next, was) {
                        next
                    } else {
                        was
                    })
                } else {
                    now == was
                }
            },
        _ => after == before,
    }
}

/// The stack and the stroke after a stamp of a tool with one step.
pub open spec fn applied(
    before: LayersModel,
    after: LayersModel,
    stroke: SculptStroke,
    now: SculptStroke,
    kind: ToolKind,
    adding: bool,
    displace: bool,
    f: Field,
) -> bool {
    match rule_of(kind, adding, displace) {
        None => after == before && now == stroke,
        Some((op, change)) => exists|journal: Seq<VoxelEdit>| #[trigger]
            stamp_done(before, after, stroke, now, f, op, change, journal, footprint_of(f)),
    }
}

/// Each tool does its own work: in particular, after a stamp of a cutter or of the knife
/// no voxel is solid that was not solid before, and none is solid for which a distance
/// of zero or less was offered.
pub proof fn law_tool_does_its_work(
    before: LayersModel,
    after: LayersModel,
    stroke: SculptStroke,
    now: SculptStroke,
    kind: ToolKind,
    adding: bool,
    displace: bool,
    f: Field,
)
    requires
        applied(before, after, stroke, now, kind, adding, displace, f),
    ensures
        does_its_work(
            before.layers[before.active].grid,
            after.layers[before.active].grid,
            kind,
            adding,
            displace,
            f,
        ),
{
    let a = before.layers[before.active].grid;
    let b = after.layers[before.active].grid;
    match rule_of(kind, adding, displace) {
        None => {},
        Some((op, change)) => {
            let journal = choose|journal: Seq<VoxelEdit>| #[trigger]
                stamp_done(before, after, stroke, now, f, op, change, journal, footprint_of(f));
            assert(stamped(a, b, f, op, change));
            if op == Combine::Subtract {
                law_subtract_cuts_out(a, b, f);
            } else if op == Combine::Unite {
                law_unite_builds_up(a, b, f);
            } else if change == Change::Number {
                law_replace_lays_over(a, b, f);
            }
        },
    }
}

proof fn lemma_journal_in(g: GridView, f: Field, op: Combine, change: Change, journal: Seq<VoxelEdit>)
    requires
        stamp_journalled(g, f, op, change, Seq::empty(), journal),
    ensures
        edits_in(journal, g.res),
{
    assert(journal.subrange(0, journal.len() as int) =~= journal);
}

/// One stamp of a tool with one step, on the active layer. The field offers what the
/// tool does there: distances to its surface, or whole samples for the smoothing
/// brush and for clay that is pushed aside.
pub fn apply_at(
    state: &mut LayersState,
    stroke: &mut SculptStroke,
    kind: ToolKind,
    adding: bool,
    displace: bool,
    field: &Field,
)
    requires
        old(state).wf(),
        old(state).res().x > 0,
        old(state).res().y > 0,
        old(state).res().z > 0,
        old(stroke).wf(old(state).res()),
        field.wf(),
        box_within(field.lo, field.hi, old(state).res()),
    ensures
        final(state).wf(),
        final(state).res() == old(state).res(),
        final(stroke).wf(old(state).res()),
        match rule_of(kind, adding, displace) {
            None => final(state)@ == old(state)@ && *final(stroke) == *old(stroke),
            Some((op, change)) => exists|journal: Seq<VoxelEdit>| #[trigger]
                stamp_done(
                    old(state)@,
                    final(state)@,
                    *old(stroke),
                    *final(stroke),
                    *field,
                    op,
                    change,
                    journal,
                    footprint_of(*field),
                ),
        },
        does_its_work(
            old(state)@.layers[old(state)@.active].grid,
            final(state)@.layers[old(state)@.active].grid,
            kind,
            adding,
            displace,
            *field,
        ),
{
    let ghost m = state@;
    let ghost g = m.layers[m.active].grid;
    let ghost was = *stroke;
    let mut journal: Vec<VoxelEdit> = Vec::new();
    let ghost none = journal@;
    let dirty = match kind {
        ToolKind::Clay => if adding {
            apply_sphere_brush_with_callback(
                state.grid_mut(),
                BrushMode::Pull,
                field,
                &mut journal,
            )
        } else if displace {
            apply_displacing_brush(state.grid_mut(), field, &mut journal)
        } else {
            apply_sphere_brush_with_callback(
                state.grid_mut(),
                BrushMode::Press,
                field,
                &mut journal,
            )
        },
        ToolKind::Cutter(_) | ToolKind::Knife => apply_cookie_cutter_with_callback(
            state.grid_mut(),
            field,
            &mut journal,
        ),
        ToolKind::Smooth => apply_smooth_brush_with_callback(state.grid_mut(), field, &mut journal),
        _ => {
            return;
        },
    };
    let ghost mid = state@;
    proof {
        assert(none =~= Seq::empty());
        let (op, change) = rule_of(kind, adding, displace)->0;
        lemma_journal_in(g, *field, op, change, journal@);
        assert(mid == with_grid(m, mid.layers[m.active].grid));
    }
    record_stamp(state, stroke, &journal, dirty);
    proof {
        let (op, change) = rule_of(kind, adding, displace)->0;
        assert(stamp_done(m, state@, was, *stroke, *field, op, change, journal@, dirty));
        law_tool_does_its_work(m, state@, was, *stroke, kind, adding, displace, *field);
    }
}

/// One cut of the wire, on the active layer. The field offers the distance to the
/// slab.
pub fn stamp_wire(state: &mut LayersState, stroke: &mut SculptStroke, slab: &Field)
    requires
        old(state).wf(),
        old(state).res().x > 0,
        old(state).res().y > 0,
        old(state).res().z > 0,
        old(stroke).wf(old(state).res()),
        slab.wf(),
        box_within(slab.lo, slab.hi, old(state).res()),
    ensures
        final(state).wf(),
        final(state).res() == old(state).res(),
        final(stroke).wf(old(state).res()),
        exists|journal: Seq<VoxelEdit>, dirty: Option<DirtyRegion>|
            spans_edits(journal, dirty) && #[trigger] stamp_done(
                old(state)@,
                final(state)@,
                *old(stroke),
                *final(stroke),
                *slab,
                Combine::Subtract,
                Change::Number,
                journal,
                dirty,
            ),
        cut_out(
            old(state)@.layers[old(state)@.active].grid,
            final(state)@.layers[old(state)@.active].grid,
            *slab,
        ),
{
    let ghost m = state@;
    let ghost g = m.layers[m.active].grid;
    let ghost was = *stroke;
    let mut journal: Vec<VoxelEdit> = Vec::new();
    let ghost none = journal@;
    let dirty = apply_wire_cutter_with_callback(state.grid_mut(), slab, &mut journal);
    let ghost mid = state@;
    proof {
        assert(none =~= Seq::empty());
        assert(journal@.subrange(0, journal@.len() as int) =~= journal@);
        lemma_journal_in(g, *slab, Combine::Subtract, Change::Number, journal@);
        assert(mid == with_grid(m, mid.layers[m.active].grid));
    }
    record_stamp(state, stroke, &journal, dirty);
    assert(stamp_done(
        m,
        state@,
        was,
        *stroke,
        *slab,
        Combine::Subtract,
        Change::Number,
        journal@,
        dirty,
    ));
}

/// Lay one blob of clay on the bare bench, and a mirrored one if there is one. The
/// stroke stays on the bench from then on.
pub fn empty_bench_add(
    state: &mut LayersState,
    stroke: &mut SculptStroke,
    bench: BitVec3,
    blob: &Field,
    other: Option<&Field>,
)
    requires
        old(state).wf(),
        old(state).res().x > 0,
        old(state).res().y > 0,
        old(state).res().z > 0,
        old(stroke).wf(old(state).res()),
        blob.wf(),
        box_within(blob.lo, blob.hi, old(state).res()),
        other matches Some(f) ==> f.wf() && box_within(f.lo, f.hi, old(state).res()),
    ensures
        final(state).wf(),
        final(state).res() == old(state).res(),
        final(stroke).wf(old(state).res()),
        final(stroke).bench_paint,
        final(stroke).paint_plane is None,
        final(stroke).last_clay_hit == Some(bench),
        blobs_laid(
            old(state)@,
            final(state)@,
            SculptStroke { paint_plane: None, bench_paint: true, ..*old(stroke) },
            SculptStroke { last_clay_hit: old(stroke).last_clay_hit, ..*final(stroke) },
            *blob,
            other,
        ),
        other is None ==> built_up(
            old(state)@.layers[old(state)@.active].grid,
            final(state)@.layers[old(state)@.active].grid,
            *blob,
        ),
{
    let ghost m = state@;
    stroke.paint_plane = None;
    stroke.bench_paint = true;
    let ghost begun = *stroke;
    apply_at(state, stroke, ToolKind::Clay, true, false, blob);
    let ghost mid = state@;
    let ghost half = *stroke;
    assert(blob_laid(m, mid, begun, half, *blob));
    match other {
        Some(f) => {
            apply_at(state, stroke, ToolKind::Clay, true, false, f);
            assert(blob_laid(mid, state@, half, *stroke, *f));
        },
        None => {},
    }
    let ghost end = *stroke;
    stroke.last_clay_hit = Some(bench);
    assert(end == (SculptStroke { last_clay_hit: begun.last_clay_hit, ..*stroke }));
}

/// A blob of clay was added.
pub open spec fn blob_laid(
    before: LayersModel,
    after: LayersModel,
    stroke: SculptStroke,
    now: SculptStroke,
    f: Field,
) -> bool {
    exists|journal: Seq<VoxelEdit>| #[trigger]
        stamp_done(
            before,
            after,
            stroke,
            now,
            f,
            Combine::Unite,
            Change::Number,
            journal,
            footprint_of(f),
        )
}

/// A blob of clay was added, and then the other one if there is one.
pub open spec fn blobs_laid(
    before: LayersModel,
    after: LayersModel,
    stroke: SculptStroke,
    now: SculptStroke,
    blob: Field,
    other: Option<&Field>,
) -> bool {
    match other {
        None => blob_laid(before, after, stroke, now, blob),
        Some(f) => exists|mid: LayersModel, half: SculptStroke| #[trigger]
            blob_laid(before, mid, stroke, half, blob) && blob_laid(mid, after, half, now, *f),
    }
}

/// A stamp keeps the stroke undoable: if what was recorded leads back to the start of
/// the stroke, then it still does after the stamp.
pub proof fn law_stamp_keeps_track(
    start: GridView,
    before: LayersModel,
    after: LayersModel,
    stroke: SculptStroke,
    now: SculptStroke,
    f: Field,
    op: Combine,
    change: Change,
    journal: Seq<VoxelEdit>,
    dirty: Option<DirtyRegion>,
)
    requires
        stamp_done(before, after, stroke, now, f, op, change, journal, dirty),
        stroke.recorder matches Some(r) && tracks(
            r.edits(),
            start,
            before.layers[before.active].grid,
        ),
    ensures
        now.recorder matches Some(r) && tracks(r.edits(), start, after.layers[before.active].grid),
{
    let g = before.layers[before.active].grid;
    assert(journal.subrange(0, journal.len() as int) =~= journal);
    law_recording_keeps_track(
        stroke.recorder->0.edits(),
        start,
        g,
        after.layers[before.active].grid,
        journal,
        |v: UVec3| stamp_writes(g, f, op, change, v),
    );
}

/// The wire while it is drawn.
#[derive(Copy, Clone, Debug, PartialEq, Eq, Structural)]
pub struct WireCutState {
    /// Where the wire starts.
    pub anchor_a: Option<BitVec3>,
    /// The direction of view at that moment.
    pub view_dir_local: Option<BitVec3>,
}

/// What is to happen to the wire in this frame.
#[derive(Copy, Clone, Debug, PartialEq, Eq, Structural)]
pub enum WireStep {
    /// Nothing.
    Idle,
    /// Take a sample under the pointer and start the wire there.
    Arm,
    /// Take a sample under the pointer and cut, from the start and the view that were
    /// kept.
    Cut(BitVec3, BitVec3),
    /// End the stroke without a cut.
    Drop,
}

/// Decide what happens to the wire. Another tool forgets the wire; a wire that was
/// started always ends when the button goes up, also over a panel.
pub fn wire_frame(
    kind: ToolKind,
    p: Pointer,
    wire: &mut WireCutState,
    recording: bool,
) -> (r: WireStep)
    ensures
        kind != ToolKind::WireCutter ==> r == WireStep::Idle && final(wire).anchor_a is None
            && final(wire).view_dir_local is None,
        kind == ToolKind::WireCutter && p.released ==> {
            &&& final(wire).anchor_a is None
            &&& final(wire).view_dir_local is None
            &&& r == (match (old(wire).anchor_a, old(wire).view_dir_local) {
                (Some(a), Some(v)) if recording => WireStep::Cut(a, v),
                _ => WireStep::Drop,
            })
        },
        kind == ToolKind::WireCutter && !p.released ==> {
            &&& *final(wire) == *old(wire)
            &&& r == (if !p.over_ui && p.pressed {
                WireStep::Arm
            } else {
                WireStep::Idle
            })
        },
{
    if kind != ToolKind::WireCutter {
        wire.anchor_a = None;
        wire.view_dir_local = None;
        return WireStep::Idle;
    }
    if p.released {
        let a = wire.anchor_a;
        let v = wire.view_dir_local;
        wire.anchor_a = None;
        wire.view_dir_local = None;
        if recording {
            match (a, v) {
                (Some(a), Some(v)) => {
                    return WireStep::Cut(a, v);
                },
                _ => {},
            }
        }
        return WireStep::Drop;
    }
    if !p.over_ui && p.pressed {
        WireStep::Arm
    } else {
        WireStep::Idle
    }
}

/// Start a wire where the pointer hit the surface.
pub fn arm_wire(wire: &mut WireCutState, stroke: &mut SculptStroke, hit: BitVec3, view: BitVec3)
    ensures
        final(wire).anchor_a == Some(hit),
        final(wire).view_dir_local == Some(view),
        final(stroke).recorder matches Some(r) && r.wf() && r.edits().len() == 0 && r.dirty()
            == Set::<ChunkCoord>::empty(),
        final(stroke).last_clay_hit == old(stroke).last_clay_hit,
        final(stroke).paint_plane == old(stroke).paint_plane,
        final(stroke).bench_paint == old(stroke).bench_paint,
{
    wire.anchor_a = Some(hit);
    wire.view_dir_local = Some(view);
    stroke.recorder = Some(StrokeRecorder::new());
}

/// The number 4: the shortest wire that cuts, squared.
pub const WIRE_SHORTEST: u32 = 0x4080_0000;

/// The number 1e-4: the shortest normal that gives a plane, squared.
pub const NORMAL_SHORTEST: u32 = 0x38d1_b717;

/// The number 1e-3, up to which a cut lies on the mirror plane.
pub const ON_MIRROR: u32 = 0x3a83_126f;

/// What a wire cuts.
#[derive(Copy, Clone, Debug, PartialEq, Eq, Structural)]
pub enum WireCut {
    Nothing,
    Once,
    /// Also mirrored.
    Twice,
}

/// Decide what a wire cuts: nothing if it is too short or runs along the view, and
/// not twice the same. `wire` and `normal` are squared lengths; `anchor_x` and
/// `normal_x` say how far the cut is from the mirror plane, to either side, and how it
/// is tilted against it, either way.
pub fn wire_cut(wire: u32, normal: u32, symmetric: bool, anchor_x: u32, normal_x: u32) -> (r: WireCut)
    ensures
        r == (if lt(wire, WIRE_SHORTEST) || lt(normal, NORMAL_SHORTEST) {
            WireCut::Nothing
        } else if symmetric && !(lt(unsigned_sample(anchor_x), ON_MIRROR) && lt(
            unsigned_sample(normal_x),
            ON_MIRROR,
        )) {
            WireCut::Twice
        } else {
            WireCut::Once
        }),
{
    if less(wire, WIRE_SHORTEST) || less(normal, NORMAL_SHORTEST) {
        return WireCut::Nothing;
    }
    if symmetric && !(less(unsigned(anchor_x), ON_MIRROR) && less(unsigned(normal_x), ON_MIRROR)) {
        WireCut::Twice
    } else {
        WireCut::Once
    }
}

/// A mirrored point is as far to the other side of the middle, and as high and as deep as
/// before; mirrored again it is where it was.
pub proof fn law_mirroring_swaps_sides(p: BitVec3)
    ensures
        mirrored(mirrored(p)) == p,
        mirrored(p).y == p.y,
        mirrored(p).z == p.z,
        is_finite(p.x) ==> value(mirrored(p).x) == -value(p.x),
{
    if is_finite(p.x) {
        law_samples_compare_as_values(p.x, p.x);
    }
}

/// A tool that stamps works while the button is down; a cutter only in the frame in which it
/// goes down, so that a click punches once. The wire, selecting and moving never stamp.
pub proof fn law_stamps_follow_the_button(kind: ToolKind, p: Pointer)
    ensures
        engages(kind, p) ==> stamps(kind) && (p.held || p.pressed),
        stamps(kind) && kind is Cutter ==> (engages(kind, p) <==> p.pressed),
        stamps(kind) && kind !is Cutter ==> (engages(kind, p) <==> p.held),
        !stamps(kind) <==> kind == ToolKind::WireCutter || kind == ToolKind::Select || kind
            == ToolKind::Move,
{
}

/// Clay is laid on the bench where nothing was hit, and once a stroke is there it stays there;
/// what removes works on the surface that was hit, or not at all.
pub proof fn law_stamp_goes_where_it_can(adding: bool, bench_paint: bool, hit: bool)
    ensures
        route_of(adding, bench_paint, hit) == Route::Nothing <==> !adding && !hit,
        route_of(adding, bench_paint, hit) == Route::Surface ==> hit,
        route_of(adding, bench_paint, hit) == Route::Bench ==> adding,
        adding && bench_paint ==> route_of(adding, bench_paint, hit) == Route::Bench,
        adding && !bench_paint && hit ==> route_of(adding, bench_paint, hit) == Route::Surface,
{
}

/// Painting face on and growing sideways exclude each other: clay that is added while nothing
/// turns does one or the other.
pub proof fn law_face_on_or_dense(column: u32)
    requires
        !is_nan(column),
    ensures
        is_face_on(true, column) <==> !is_dense(ToolKind::Clay, true, false, column),
        !is_face_on(false, column),
        is_dense(ToolKind::Clay, true, true, column),
        forall|kind: ToolKind, adding: bool, turning: bool| #[trigger]
            is_dense(kind, adding, turning, column) ==> kind == ToolKind::Clay && adding && spaces(kind),
{
}

/// A finished stroke can be undone and done again: if what was recorded leads back to the start
/// of the stroke, then undoing its entry gives the samples from before the stroke, and redoing
/// it those from after.
pub proof fn law_finished_stroke_goes_both_ways(
    e: StrokeEntry,
    rec: StrokeRecorder,
    start: GridView,
    end: GridView,
    layer: u32,
    back: GridView,
    again: GridView,
)
    requires
        is_stroke_entry(e, rec, end, layer),
        tracks(rec.edits(), start, end),
        replaced(end, back, e.edits@, pre_samples(e.edits@)),
        replaced(back, again, e.edits@, e.post@),
    ensures
        same_samples(back, start),
        same_samples(again, end),
        e.layer == layer,
{
    law_undo_restores_start(e.edits@, start, end, back);
    law_redo_restores_end(e.edits@, e.post@, start, end, back, again);
}

/// Laying blobs adds clay and takes none: off the bench, what was solid stays so, all inside the
/// blobs is solid, and nothing else became so.
pub proof fn law_blobs_add_clay(
    before: LayersModel,
    after: LayersModel,
    stroke: SculptStroke,
    now: SculptStroke,
    blob: Field,
    other: Option<&Field>,
    v: UVec3,
)
    requires
        blobs_laid(before, after, stroke, now, blob, other),
        0 <= before.active < before.layers.len(),
        before.layers[before.active].grid.res.has(v.x as int, v.y as int, v.z as int),
        blob.floors is None,
        other matches Some(f) ==> f.floors is None,
    ensures
        ({
            let was = before.layers[before.active].grid.at(v.x as int, v.y as int, v.z as int);
            let left = after.layers[before.active].grid.at(v.x as int, v.y as int, v.z as int);
            let inside = |f: Field| f.has(v) && f.offer(v) is Some && lt(f.offer(v)->0, 0);
            solid(left) <==> solid(was) || inside(blob) || (other is Some && inside(*other->0))
        }),
{
    match other {
        None => {
            lemma_blob_adds(before, after, stroke, now, blob, v);
        },
        Some(f) => {
            let (mid, half) = choose|mid: LayersModel, half: SculptStroke| #[trigger]
                blob_laid(before, mid, stroke, half, blob) && blob_laid(mid, after, half, now, *f);
            lemma_blob_adds(before, mid, stroke, half, blob, v);
            lemma_blob_adds(mid, after, half, now, *f, v);
        },
    }
}

proof fn lemma_blob_adds(
    before: LayersModel,
    after: LayersModel,
    stroke: SculptStroke,
    now: SculptStroke,
    f: Field,
    v: UVec3,
)
    requires
        blob_laid(before, after, stroke, now, f),
        0 <= before.active < before.layers.len(),
        before.layers[before.active].grid.res.has(v.x as int, v.y as int, v.z as int),
        f.floors is None,
    ensures
        solid(after.layers[before.active].grid.at(v.x as int, v.y as int, v.z as int)) <==> solid(
            before.layers[before.active].grid.at(v.x as int, v.y as int, v.z as int),
        ) || (f.has(v) && f.offer(v) is Some && lt(f.offer(v)->0, 0)),
        after.active == before.active,
        after.layers.len() == before.layers.len(),
        after.layers[before.active].grid.res == before.layers[before.active].grid.res,
{
    let a = before.layers[before.active].grid;
    let b = after.layers[before.active].grid;
    let journal = choose|journal: Seq<VoxelEdit>| #[trigger]
        stamp_done(
            before,
            after,
            stroke,
            now,
            f,
            Combine::Unite,
            Change::Number,
            journal,
            footprint_of(f),
        );
    law_unite_builds_up(a, b, f);
    assert(in_domain(a.res, v));
}

} // verus!
