//! Edits of the whole active layer: dropping its pieces onto the bench, letting them
//! settle, and inserting a primitive.

use crate::brush::{apply_primitive_with_callback, footprint_of};
use crate::components::{label_components, ComponentField};
use crate::edit::{commit_edit, edited, with_grid};
use crate::gravity::{drops, rest_components_on_bench, rewrites, RestSummary};
use crate::grid::{Grid, GridView};
use crate::journal::{records, spans_edits, VoxelEdit};
use crate::layers::LayersState;
use crate::plastic::{rests, settle_components_plastic, settled, PlasticSettleParams, PlasticSettleSummary, BAND_END};
use crate::region::{box_count, box_number, cell_of, lemma_box_number, number_of};
use crate::sample::{is_solid, solid};
use crate::sculpt::SculptStroke;
use crate::selection::Selection;
use crate::snapshot::box_within;
use crate::stamp::{stamp_journalled, stamped, Change, Combine, Field};
use crate::stroke::edits_in;
use crate::tool::{SculptTool, ToolKind};
use crate::undo::UndoHistory;
use crate::vec3::{IVec3, UVec3};
use vstd::math::abs;
use vstd::prelude::*;

verus! {

/// Nothing is picked and no labels are kept.
pub open spec fn deselected(before: Selection, after: Selection) -> bool {
    &&& after.picked_voxel is None
    &&& after.labels is None
    &&& after.active_only == before.active_only
}

/// Drop every piece of the active layer onto the bench, as one unit of undo. Without
/// material nothing happens but that a stroke in progress is dropped.
pub fn rest_on_bench_now(
    state: &mut LayersState,
    history: &mut UndoHistory,
    stroke: &mut SculptStroke,
    selection: &mut Selection,
) -> (r: Option<RestSummary>)
    requires
        old(state).wf(),
        old(state).res().x > 0,
        old(state).res().y > 0,
        old(state).res().z > 0,
        old(state).res().y <= 0x8000_0000,
        old(state).res().volume() <= u32::MAX,
        old(history).wf(old(state).res()),
    ensures
        final(state).wf(),
        final(state).res() == old(state).res(),
        final(history).wf(old(state).res()),
        final(stroke).is_idle(),
        exists|f: ComponentField| #[trigger]
            f.labels(old(state)@.layers[old(state)@.active].grid) && (if f.count() == 0 {
                &&& r is None
                &&& final(state)@ == old(state)@
                &&& *final(history) == *old(history)
                &&& *final(selection) == *old(selection)
            } else {
                &&& r matches Some(s) && s.components == f.count() && s.moved == drops(
                    f,
                    f.count() as nat,
                ).len()
                &&& deselected(*old(selection), *final(selection))
                &&& rests(
                    old(state)@.layers[old(state)@.active].grid,
                    f,
                    final(state)@.layers[old(state)@.active].grid,
                )
                &&& exists|journal: Seq<VoxelEdit>|
                    {
                        &&& records(
                            journal,
                            old(state)@.layers[old(state)@.active].grid,
                            |v: UVec3|
                                rewrites(
                                    old(state)@.layers[old(state)@.active].grid,
                                    f,
                                    drops(f, f.count() as nat),
                                    v,
                                ),
                        )
                        &&& spans_edits(journal, r->0.dirty)
                        &&& #[trigger] edited(
                            old(state)@,
                            final(state)@,
                            *old(history),
                            *final(history),
                            journal,
                            r->0.dirty,
                        )
                    }
            }),
{
    let ghost m = state@;
    let ghost h = *history;
    let ghost g = m.layers[m.active].grid;
    stroke.discard_live();
    let labels = label_components(state.grid());
    if labels.component_count() == 0 {
        return None;
    }
    let mut journal: Vec<VoxelEdit> = Vec::new();
    let summary = rest_components_on_bench(state.grid_mut(), &labels, &mut journal);
    let ghost mid = state@;
    proof {
        assert(journal@.subrange(0, journal@.len() as int) =~= journal@);
        state.layers@[state.active as int].grid.lemma_wf_view();
        assert(mid.layers[m.active].grid == state.layers@[state.active as int].grid@);
        assert(rests(g, labels, mid.layers[m.active].grid));
        assert(edits_in(journal@, g.res));
        assert(mid == with_grid(m, mid.layers[m.active].grid));
    }
    commit_edit(state, history, &journal, summary.dirty);
    selection.reset();
    proof {
        let changed = |v: UVec3| rewrites(g, labels, drops(labels, labels.count() as nat), v);
        assert(edited(m, state@, h, *history, journal@, summary.dirty));
        assert(records(journal@, g, changed));
    }
    Some(summary)
}

/// Let the active layer settle under gravity, as one unit of undo. Without material
/// nothing happens but that a stroke in progress is dropped. `limit` is how much
/// higher than its neighbours a column may be, and `band` the table of distances for
/// the softness.
pub fn settle_plastic_now(
    state: &mut LayersState,
    history: &mut UndoHistory,
    stroke: &mut SculptStroke,
    selection: &mut Selection,
    params: &PlasticSettleParams,
    limit: u32,
    band: &Vec<u32>,
) -> (r: Option<PlasticSettleSummary>)
    requires
        old(state).wf(),
        old(state).res().x > 0,
        old(state).res().y > 0,
        old(state).res().z > 0,
        old(state).res().y <= 0x8000_0000,
        old(state).res().volume() <= u32::MAX,
        old(history).wf(old(state).res()),
        band.len() == BAND_END + 1,
    ensures
        final(state).wf(),
        final(state).res() == old(state).res(),
        final(history).wf(old(state).res()),
        final(stroke).is_idle(),
        exists|f: ComponentField| #[trigger]
            f.labels(old(state)@.layers[old(state)@.active].grid) && (if f.count() == 0 {
                &&& r is None
                &&& final(state)@ == old(state)@
                &&& *final(history) == *old(history)
                &&& *final(selection) == *old(selection)
            } else {
                &&& r is Some
                &&& deselected(*old(selection), *final(selection))
                &&& exists|journal: Seq<VoxelEdit>|
                    settled(
                        old(state)@.layers[old(state)@.active].grid,
                        f,
                        *params,
                        limit,
                        band@,
                        final(state)@.layers[old(state)@.active].grid,
                        journal,
                        r->0,
                    ) && #[trigger] edited(
                        old(state)@,
                        final(state)@,
                        *old(history),
                        *final(history),
                        journal,
                        r->0.dirty,
                    )
            }),
{
    let ghost m = state@;
    let ghost h = *history;
    let ghost g = m.layers[m.active].grid;
    stroke.discard_live();
    let labels = label_components(state.grid());
    if labels.component_count() == 0 {
        return None;
    }
    let mut journal: Vec<VoxelEdit> = Vec::new();
    let summary = settle_components_plastic(
        state.grid_mut(),
        &labels,
        params,
        limit,
        band,
        &mut journal,
    );
    let ghost mid = state@;
    proof {
        assert(journal@.subrange(0, journal@.len() as int) =~= journal@);
        assert(edits_in(journal@, g.res));
        assert(mid == with_grid(m, mid.layers[m.active].grid));
    }
    commit_edit(state, history, &journal, summary.dirty);
    selection.reset();
    assert(edited(m, state@, h, *history, journal@, summary.dirty));
    Some(summary)
}

/// A coordinate held to the domain.
pub open spec fn held(c: i32, n: u32) -> u32 {
    if c < 0 {
        0
    } else if c >= n {
        (n - 1) as u32
    } else {
        c as u32
    }
}

fn hold(c: i32, n: u32) -> (r: u32)
    requires
        n > 0,
    ensures
        r == held(c, n),
{
    if c < 0 {
        0
    } else if c as u32 >= n {
        n - 1
    } else {
        c as u32
    }
}

/// The voxel of the middle of a primitive, held to the domain.
pub open spec fn held_voxel(centre: IVec3, res: UVec3) -> UVec3 {
    UVec3 { x: held(centre.x, res.x), y: held(centre.y, res.y), z: held(centre.z, res.z) }
}

/// Voxel `v` of the box of a primitive is solid; if `own`, the primitive itself is
/// solid there, and not just what it was added to.
pub open spec fn is_clay(g: GridView, f: Field, own: bool, v: UVec3) -> bool {
    &&& f.has(v)
    &&& solid(g.at(v.x as int, v.y as int, v.z as int))
    &&& own ==> (f.offer(v) matches Some(d) && solid(d))
}

/// The middle if it is clay, and else the first voxel of the box that is.
pub open spec fn is_nearest_clay(g: GridView, f: Field, own: bool, middle: UVec3, p: UVec3) -> bool {
    &&& is_clay(g, f, own, p)
    &&& is_clay(g, f, own, middle) ==> p == middle
    &&& !is_clay(g, f, own, middle) ==> forall|v: UVec3| #[trigger]
        is_clay(g, f, own, v) ==> box_number(f.lo, f.hi, p.x as int, p.y as int, p.z as int)
            <= box_number(f.lo, f.hi, v.x as int, v.y as int, v.z as int)
}

/// A voxel by which an inserted primitive is found again: one inside it if there is
/// one, else one that is solid, else its middle.
pub open spec fn is_seed(g: GridView, f: Field, middle: UVec3, p: UVec3) -> bool {
    if exists|v: UVec3| is_clay(g, f, true, v) {
        is_nearest_clay(g, f, true, middle, p)
    } else if exists|v: UVec3| is_clay(g, f, false, v) {
        is_nearest_clay(g, f, false, middle, p)
    } else {
        p == middle
    }
}

/// Whether a voxel of the box is clay.
fn at_clay(grid: &Grid, field: &Field, own: bool, v: UVec3) -> (r: bool)
    requires
        grid.wf(),
        field.wf(),
        box_within(field.lo, field.hi, grid@.res),
        field.has(v),
    ensures
        r == is_clay(grid@, *field, own, v),
{
    proof {
        lemma_box_number(field.lo, field.hi, v.x as int, v.y as int, v.z as int);
    }
    if !is_solid(grid.get(v.x, v.y, v.z)) {
        return false;
    }
    if !own {
        return true;
    }
    assert(field.values.len() == box_count(field.lo, field.hi));
    match field.values[number_of(field.lo, field.hi, v.x, v.y, v.z)] {
        Some(d) => is_solid(d),
        None => false,
    }
}

/// The middle if it is clay, and else the first voxel of the box that is.
fn nearest_clay(grid: &Grid, field: &Field, own: bool, middle: UVec3) -> (r: Option<UVec3>)
    requires
        grid.wf(),
        field.wf(),
        box_within(field.lo, field.hi, grid@.res),
    ensures
        match r {
            Some(p) => is_nearest_clay(grid@, *field, own, middle, p),
            None => forall|v: UVec3| !#[trigger] is_clay(grid@, *field, own, v),
        },
{
    let (lo, hi) = (field.lo, field.hi);
    let inside: bool = lo.x <= middle.x && middle.x < hi.x && lo.y <= middle.y && middle.y < hi.y
        && lo.z <= middle.z && middle.z < hi.z;
    if inside && at_clay(grid, field, own, middle) {
        return Some(middle);
    }
    let mut k: usize = 0;
    while k < field.values.len()
        invariant
            grid.wf(),
            field.wf(),
            lo == field.lo,
            hi == field.hi,
            box_within(lo, hi, grid@.res),
            !is_clay(grid@, *field, own, middle),
            k <= field.values.len(),
            forall|v: UVec3|
                field.has(v) && box_number(lo, hi, v.x as int, v.y as int, v.z as int) < k
                    ==> !#[trigger] is_clay(grid@, *field, own, v),
        decreases field.values.len() - k,
    {
        let p = cell_of(lo, hi, k);
        if at_clay(grid, field, own, p) {
            return Some(p);
        }
        proof {
            assert forall|v: UVec3|
                field.has(v) && box_number(lo, hi, v.x as int, v.y as int, v.z as int) < k
                    + 1 implies !#[trigger] is_clay(grid@, *field, own, v) by {
                if box_number(lo, hi, v.x as int, v.y as int, v.z as int) == k {
                    lemma_box_number(lo, hi, v.x as int, v.y as int, v.z as int);
                    assert(v == p);
                }
            }
        }
        k = k + 1;
    }
    proof {
        assert forall|v: UVec3| !#[trigger] is_clay(grid@, *field, own, v) by {
            if field.has(v) {
                lemma_box_number(lo, hi, v.x as int, v.y as int, v.z as int);
            }
        }
    }
    None
}

/// A voxel by which an inserted primitive is found again.
fn seed_of(grid: &Grid, field: &Field, middle: UVec3) -> (r: UVec3)
    requires
        grid.wf(),
        field.wf(),
        box_within(field.lo, field.hi, grid@.res),
    ensures
        is_seed(grid@, *field, middle, r),
{
    match nearest_clay(grid, field, true, middle) {
        Some(p) => p,
        None => match nearest_clay(grid, field, false, middle) {
            Some(p) => p,
            None => middle,
        },
    }
}

/// Add a primitive to the active layer, as one unit of undo. The field offers the
/// distance to its surface and `centre` is the voxel of its middle, which may lie
/// outside. If anything changed, the result is a voxel inside the primitive: its middle,
/// or else the first one in scan order, as in a ring, whose middle is a hole.
pub fn insert_primitive_centered_on_bench(
    state: &mut LayersState,
    history: &mut UndoHistory,
    stroke: &mut SculptStroke,
    field: &Field,
    centre: IVec3,
) -> (r: Option<(u32, u32, u32)>)
    requires
        old(state).wf(),
        old(state).res().x > 0,
        old(state).res().y > 0,
        old(state).res().z > 0,
        old(history).wf(old(state).res()),
        field.wf(),
        box_within(field.lo, field.hi, old(state).res()),
    ensures
        final(state).wf(),
        final(state).res() == old(state).res(),
        final(history).wf(old(state).res()),
        final(stroke).is_idle(),
        exists|journal: Seq<VoxelEdit>|
            {
                &&& stamped(
                    old(state)@.layers[old(state)@.active].grid,
                    final(state)@.layers[old(state)@.active].grid,
                    *field,
                    Combine::Unite,
                    Change::Number,
                )
                &&& stamp_journalled(
                    old(state)@.layers[old(state)@.active].grid,
                    *field,
                    Combine::Unite,
                    Change::Number,
                    Seq::empty(),
                    journal,
                )
                &&& #[trigger] edited(
                    old(state)@,
                    final(state)@,
                    *old(history),
                    *final(history),
                    journal,
                    footprint_of(*field),
                )
                &&& r is None <==> journal.len() == 0
            },
        r matches Some(p) ==> is_seed(
            final(state)@.layers[old(state)@.active].grid,
            *field,
            held_voxel(centre, old(state).res()),
            UVec3 { x: p.0, y: p.1, z: p.2 },
        ),
        r matches Some(p) ==> ({
            let g = final(state)@.layers[old(state)@.active].grid;
            (exists|v: UVec3|
                field.has(v) && solid(#[trigger] g.at(v.x as int, v.y as int, v.z as int)))
                ==> solid(g.at(p.0 as int, p.1 as int, p.2 as int))
        }),
{
    let ghost m = state@;
    let ghost h = *history;
    let ghost g = m.layers[m.active].grid;
    stroke.discard_live();
    let res = state.grid().res();
    let mut journal: Vec<VoxelEdit> = Vec::new();
    let ghost none = journal@;
    let dirty = apply_primitive_with_callback(state.grid_mut(), field, &mut journal);
    let ghost mid = state@;
    proof {
        assert(none =~= Seq::empty());
        assert(journal@.subrange(0, journal@.len() as int) =~= journal@);
        assert(edits_in(journal@, g.res));
        assert(mid == with_grid(m, mid.layers[m.active].grid));
    }
    commit_edit(state, history, &journal, dirty);
    assert(edited(m, state@, h, *history, journal@, footprint_of(*field)));
    if journal.len() == 0 {
        None
    } else {
        let middle = UVec3 {
            x: hold(centre.x, res.x),
            y: hold(centre.y, res.y),
            z: hold(centre.z, res.z),
        };
        let p = seed_of(state.grid(), field, middle);
        proof {
            let g = state@.layers[m.active].grid;
            if exists|v: UVec3|
                field.has(v) && solid(#[trigger] g.at(v.x as int, v.y as int, v.z as int)) {
                let v = choose|v: UVec3|
                    field.has(v) && solid(#[trigger] g.at(v.x as int, v.y as int, v.z as int));
                assert(is_clay(g, *field, false, v));
            }
        }
        Some((p.x, p.y, p.z))
    }
}

/// Select the piece that was inserted and take the moving tool in hand. If the insert
/// changed nothing, only the labels are dropped.
pub fn select_inserted(
    seed: Option<(u32, u32, u32)>,
    selection: &mut Selection,
    tool: &mut SculptTool,
    stroke: &mut SculptStroke,
)
    ensures
        final(selection).labels is None,
        final(selection).active_only == old(selection).active_only,
        final(selection).picked_voxel == (if seed is Some {
            seed
        } else {
            old(selection).picked_voxel
        }),
        *final(tool) == (SculptTool {
            kind: if seed is Some {
                ToolKind::Move
            } else {
                old(tool).kind
            },
            ..*old(tool)
        }),
        seed is Some && old(tool).kind != ToolKind::Move ==> final(stroke).is_idle(),
        !(seed is Some && old(tool).kind != ToolKind::Move) ==> *final(stroke) == *old(stroke),
{
    selection.invalidate_labels();
    match seed {
        Some(voxel) => {
            selection.picked_voxel = Some(voxel);
            if tool.kind != ToolKind::Move {
                tool.kind = ToolKind::Move;
                stroke.discard_live();
            }
        },
        None => {},
    }
}

/// A voxel that is held inside the domain is the nearest one along each axis.
pub proof fn law_held_voxel_is_nearest(centre: IVec3, res: UVec3, v: UVec3)
    requires
        res.has(v.x as int, v.y as int, v.z as int),
    ensures
        ({
            let h = held_voxel(centre, res);
            &&& res.has(h.x as int, h.y as int, h.z as int)
            &&& abs(h.x - centre.x) <= abs(v.x - centre.x)
            &&& abs(h.y - centre.y) <= abs(v.y - centre.y)
            &&& abs(h.z - centre.z) <= abs(v.z - centre.z)
        }),
{
}

/// What is picked after inserting a primitive is clay if the primitive brought or met any: first
/// of all clay inside the primitive, else clay in its box, and the middle of the primitive
/// wherever that will do.
pub proof fn law_seed_is_clay(g: GridView, f: Field, middle: UVec3, p: UVec3, v: UVec3)
    requires
        is_seed(g, f, middle, p),
        f.has(v),
        solid(g.at(v.x as int, v.y as int, v.z as int)),
    ensures
        f.has(p),
        solid(g.at(p.x as int, p.y as int, p.z as int)),
        f.offer(v) is Some && solid(f.offer(v)->0) ==> f.offer(p) is Some && solid(f.offer(p)->0),
        f.has(middle) && solid(g.at(middle.x as int, middle.y as int, middle.z as int)) && f.offer(
            middle,
        ) is Some && solid(f.offer(middle)->0) ==> p == middle,
{
    assert(is_clay(g, f, false, v));
    if f.offer(v) is Some && solid(f.offer(v)->0) {
        assert(is_clay(g, f, true, v));
    }
    if f.has(middle) && solid(g.at(middle.x as int, middle.y as int, middle.z as int)) && f.offer(
        middle,
    ) is Some && solid(f.offer(middle)->0) {
        assert(is_clay(g, f, true, middle));
    }
    if exists|w: UVec3| is_clay(g, f, true, w) {
        assert(is_clay(g, f, true, p));
    }
}

} // verus!
