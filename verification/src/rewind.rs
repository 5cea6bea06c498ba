//! Putting a region of a grid back to how it was when a drag began.
//!
//! A drag shows its result frame by frame. Every frame puts back the samples from
//! before the drag and goes out from there. Only the region that the drag has reached
//! so far is kept for that, and it grows as needed.

use crate::components::in_domain;
use crate::edit::with_grid;
use crate::grid::{tile_of, ChunkCoord, Grid, GridView};
use crate::journal::lemma_box_fits;
use crate::layers::LayersState;
use crate::region::in_box;
use crate::snapshot::{box_within, restore_writes, restored_at, RegionSnapshot};
use crate::stroke::same_samples;
use crate::vec3::UVec3;
use vstd::prelude::*;

verus! {

/// Putting the snapshot back into `now` gives the samples of `start`.
pub open spec fn rewinds(s: RegionSnapshot, now: GridView, start: GridView) -> bool {
    &&& now.same_domain(start)
    &&& forall|x: int, y: int, z: int|
        start.res.has(x, y, z) ==> #[trigger] restored_at(now, s, x, y, z) == start.at(x, y, z)
}

/// `g` is `now` with the snapshot put back.
pub open spec fn is_rewound(s: RegionSnapshot, now: GridView, g: GridView) -> bool {
    &&& g.same_domain(now)
    &&& forall|x: int, y: int, z: int|
        now.res.has(x, y, z) ==> #[trigger] g.at(x, y, z) == restored_at(now, s, x, y, z)
    &&& forall|c: ChunkCoord| #[trigger]
        g.tiles.dom().contains(c) <==> now.tiles.dom().contains(c) || restore_writes(now, s, c)
}

/// The snapshot holds every voxel of the box.
pub open spec fn covers(s: RegionSnapshot, min: UVec3, max: UVec3) -> bool {
    forall|x: int, y: int, z: int|
        in_box(min, max, x, y, z) ==> #[trigger] in_box(s.lo(), s.hi(), x, y, z)
}

/// Make a snapshot cover a box. If it does not yet, the grid is put back first, and a
/// larger snapshot is taken.
pub fn cover_region(snapshot: &mut RegionSnapshot, grid: &mut Grid, need_min: UVec3, need_max: UVec3)
    requires
        old(grid).wf(),
        old(grid)@.res.volume() <= u32::MAX,
        old(snapshot).wf(),
        box_within(old(snapshot).lo(), old(snapshot).hi(), old(grid)@.res),
        box_within(need_min, need_max, old(grid)@.res),
    ensures
        final(grid).wf(),
        final(grid)@.same_domain(old(grid)@),
        final(snapshot).wf(),
        box_within(final(snapshot).lo(), final(snapshot).hi(), old(grid)@.res),
        covers(*final(snapshot), need_min, need_max),
        covers(*final(snapshot), old(snapshot).lo(), old(snapshot).hi()),
        final(grid)@ == old(grid)@ && *final(snapshot) == *old(snapshot) || is_rewound(
            *old(snapshot),
            old(grid)@,
            final(grid)@,
        ) && rewinds(*final(snapshot), final(grid)@, final(grid)@),
{
    let (cur_min, cur_max) = snapshot.bounds();
    let covered: bool = need_min.x >= cur_min.x && need_min.y >= cur_min.y && need_min.z >= cur_min.z
        && need_max.x <= cur_max.x && need_max.y <= cur_max.y && need_max.z <= cur_max.z;
    if covered {
        return;
    }
    grid.restore_region(snapshot);
    let new_min = cur_min.min(need_min);
    let new_max = cur_max.max(need_max);
    proof {
        lemma_box_fits(new_min, new_max, grid@.res);
    }
    *snapshot = grid.snapshot_region(new_min, new_max);
}

/// Put the grid of the active layer back to how it was before a drag, and make the
/// snapshot cover a box.
pub fn rewind_layer(
    snapshot: &mut RegionSnapshot,
    state: &mut LayersState,
    need_min: UVec3,
    need_max: UVec3,
)
    requires
        old(state).wf(),
        old(state).res().volume() <= u32::MAX,
        old(snapshot).wf(),
        box_within(old(snapshot).lo(), old(snapshot).hi(), old(state).res()),
        box_within(need_min, need_max, old(state).res()),
    ensures
        final(state).wf(),
        final(state).res() == old(state).res(),
        final(snapshot).wf(),
        box_within(final(snapshot).lo(), final(snapshot).hi(), old(state).res()),
        covers(*final(snapshot), need_min, need_max),
        ({
            let now = old(state)@.layers[old(state)@.active].grid;
            let back = final(state)@.layers[old(state)@.active].grid;
            &&& final(state)@ == with_grid(old(state)@, back)
            &&& is_rewound(*old(snapshot), now, back)
            &&& rewinds(*final(snapshot), back, back)
        }),
{
    let ghost m = state@;
    let ghost now = m.layers[m.active].grid;
    let ghost snap = *snapshot;
    cover_region(snapshot, state.grid_mut(), need_min, need_max);
    let ghost mid = state@.layers[m.active].grid;
    state.grid_mut().restore_region(snapshot);
    proof {
        let back = state@.layers[m.active].grid;
        let last = *snapshot;
        assert(state@.layers =~= with_grid(m, back).layers);
        if mid == now && last == snap {
            assert(is_rewound(snap, now, back));
            assert forall|x: int, y: int, z: int| back.res.has(x, y, z) implies #[trigger] restored_at(
                back,
                last,
                x,
                y,
                z,
            ) == back.at(x, y, z) by {
                assert(back.at(x, y, z) == restored_at(now, snap, x, y, z));
            }
        } else {
            assert forall|x: int, y: int, z: int| mid.res.has(x, y, z) implies #[trigger] back.at(
                x,
                y,
                z,
            ) == mid.at(x, y, z) by {
                assert(back.at(x, y, z) == restored_at(mid, last, x, y, z));
            }
            assert forall|c: ChunkCoord| !#[trigger] restore_writes(mid, last, c) by {
                if restore_writes(mid, last, c) {
                    let (x, y, z) = choose|x: int, y: int, z: int|
                        in_box(last.lo(), last.hi(), x, y, z) && #[trigger] mid.at(x, y, z) != last.at(
                            x,
                            y,
                            z,
                        ) && tile_of(x, y, z) == c;
                    assert(restored_at(mid, last, x, y, z) == mid.at(x, y, z));
                }
            }
            assert forall|x: int, y: int, z: int| now.res.has(x, y, z) implies #[trigger] back.at(
                x,
                y,
                z,
            ) == restored_at(now, snap, x, y, z) by {
                assert(mid.at(x, y, z) == restored_at(now, snap, x, y, z));
            }
            assert forall|x: int, y: int, z: int| back.res.has(x, y, z) implies #[trigger] restored_at(
                back,
                last,
                x,
                y,
                z,
            ) == back.at(x, y, z) by {
                assert(restored_at(mid, last, x, y, z) == mid.at(x, y, z));
                assert(back.at(x, y, z) == mid.at(x, y, z));
            }
        }
    }
}

/// Frames of a drag do not add up: while the snapshot rewinds to the start of the
/// drag, every frame, the end of the drag and giving it up all go out from the samples
/// of that start.
pub proof fn law_drag_goes_out_from_start(
    s: RegionSnapshot,
    now: GridView,
    start: GridView,
    back: GridView,
)
    requires
        rewinds(s, now, start),
        is_rewound(s, now, back),
    ensures
        same_samples(back, start),
{
    assert forall|v: UVec3| in_domain(back.res, v) implies #[trigger] back.at(
        v.x as int,
        v.y as int,
        v.z as int,
    ) == start.at(v.x as int, v.y as int, v.z as int) by {
        let (x, y, z) = (v.x as int, v.y as int, v.z as int);
        assert(restored_at(now, s, x, y, z) == start.at(x, y, z));
    }
}

/// A frame keeps the start of the drag: if the snapshot rewinds to it before, the
/// snapshot after the frame does too.
pub proof fn law_preview_keeps_start(
    before: RegionSnapshot,
    after: RegionSnapshot,
    now: GridView,
    end: GridView,
    start: GridView,
    back: GridView,
)
    requires
        rewinds(before, now, start),
        is_rewound(before, now, back),
        rewinds(after, end, back),
    ensures
        rewinds(after, end, start),
{
    law_drag_goes_out_from_start(before, now, start, back);
    assert forall|x: int, y: int, z: int| start.res.has(x, y, z) implies #[trigger] restored_at(
        end,
        after,
        x,
        y,
        z,
    ) == start.at(x, y, z) by {
        let v = UVec3 { x: x as u32, y: y as u32, z: z as u32 };
        assert(back.at(v.x as int, v.y as int, v.z as int) == start.at(
            v.x as int,
            v.y as int,
            v.z as int,
        ));
        assert(restored_at(end, after, x, y, z) == back.at(x, y, z));
    }
}

} // verus!
