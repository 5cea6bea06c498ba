//! Selecting a connected piece of the active layer.
//!
//! A selection remembers the voxel that was clicked, not the number of a piece: the
//! numbers change with every edit, the voxel stays on the same lump of clay until
//! that is carved away.

use crate::components::{in_domain, label_components, solid_voxel, ComponentField, ComponentId, EMPTY};
use crate::dirty::DirtyRegion;
use crate::edit::{commit_edit, edited, edited_at, with_grid};
use crate::grid::{tile_of, ChunkCoord, Grid, GridView};
use crate::journal::{expand, lemma_box_fits, lemma_records_step, records, records_part, spans_edits, VoxelEdit};
use crate::layers::LayersState;
use crate::region::{box_count, box_number, cell_of, count_of, in_box, lemma_box_number};
use crate::sample::{cleared, cleared_value, lemma_cleared_is_air, lt, solid};
use crate::sculpt::SculptStroke;
use crate::undo::UndoHistory;
use crate::vec3::{IVec3, UVec3};
use vstd::prelude::*;

verus! {

/// What is selected.
pub struct Selection {
    /// The voxel that was clicked last.
    pub picked_voxel: Option<(u32, u32, u32)>,
    /// Tools change the selected piece only.
    pub active_only: bool,
    /// The pieces of the active layer, unless an edit made them stale.
    pub labels: Option<ComponentField>,
}

/// The piece that a picked voxel is on.
pub open spec fn piece_at(picked: Option<(u32, u32, u32)>, f: ComponentField) -> Option<ComponentId> {
    match picked {
        None => None,
        Some(p) => {
            let v = UVec3 { x: p.0, y: p.1, z: p.2 };
            if in_domain(f.domain(), v) && f.id(v) != EMPTY {
                Some(f.id(v))
            } else {
                None
            }
        },
    }
}

impl Selection {
    /// The labels that are kept are of a domain of this resolution.
    pub open spec fn ready(&self, res: UVec3) -> bool {
        self.labels matches Some(f) ==> f.wf() && f.domain() == res
    }

    /// `f` are the labels to go by: those that are kept, or else those of the grid.
    pub open spec fn goes_by(&self, g: GridView, f: ComponentField) -> bool {
        match self.labels {
            Some(k) => f == k,
            None => f.labels(g),
        }
    }

    /// Nothing is selected.
    pub fn new() -> (r: Selection)
        ensures
            r.picked_voxel is None,
            !r.active_only,
            r.labels is None,
    {
        Selection { picked_voxel: None, active_only: false, labels: None }
    }

    /// Forget the labels, as after an edit.
    pub fn invalidate_labels(&mut self)
        ensures
            final(self).labels is None,
            final(self).picked_voxel == old(self).picked_voxel,
            final(self).active_only == old(self).active_only,
    {
        self.labels = None;
    }

    /// Forget the labels and what was picked.
    pub fn reset(&mut self)
        ensures
            final(self).labels is None,
            final(self).picked_voxel is None,
            final(self).active_only == old(self).active_only,
    {
        self.labels = None;
        self.picked_voxel = None;
    }

    /// Flip whether tools change the selected piece only.
    pub fn toggle_active_only(&mut self)
        ensures
            final(self).active_only == !old(self).active_only,
            final(self).labels == old(self).labels,
            final(self).picked_voxel == old(self).picked_voxel,
    {
        self.active_only = !self.active_only;
    }

    /// The selected piece: there is none if nothing was picked, if the voxel is out of
    /// range, or if the piece was carved away there.
    pub fn selected_id(&self, labels: &ComponentField) -> (r: Option<ComponentId>)
        requires
            labels.wf(),
        ensures
            r == piece_at(self.picked_voxel, *labels),
    {
        match self.picked_voxel {
            None => None,
            Some((x, y, z)) => {
                let res = labels.res();
                if x >= res.x || y >= res.y || z >= res.z {
                    return None;
                }
                let id: u32 = labels.id_at(x, y, z);
                if id == EMPTY {
                    None
                } else {
                    Some(id)
                }
            },
        }
    }

    /// The labels that are kept.
    pub fn labels(&self) -> (r: Option<&ComponentField>)
        ensures
            r is Some <==> self.labels is Some,
            r matches Some(f) ==> self.labels == Some(*f),
    {
        match &self.labels {
            Some(f) => Some(f),
            None => None,
        }
    }

    /// Keep labels that were just made.
    pub fn set_labels(&mut self, labels: ComponentField)
        ensures
            final(self).labels == Some(labels),
            final(self).picked_voxel == old(self).picked_voxel,
            final(self).active_only == old(self).active_only,
    {
        self.labels = Some(labels);
    }

    /// Take the labels out.
    pub fn take_labels(&mut self) -> (r: Option<ComponentField>)
        ensures
            r == old(self).labels,
            final(self).labels is None,
            final(self).picked_voxel == old(self).picked_voxel,
            final(self).active_only == old(self).active_only,
    {
        self.labels.take()
    }

    /// Label the grid unless labels are kept, and take them out.
    pub fn fresh_labels(&mut self, grid: &Grid) -> (r: ComponentField)
        requires
            grid.wf(),
            grid@.res.volume() <= u32::MAX,
            old(self).ready(grid@.res),
        ensures
            r.wf(),
            r.domain() == grid@.res,
            old(self).goes_by(grid@, r),
            final(self).labels is None,
            final(self).picked_voxel == old(self).picked_voxel,
            final(self).active_only == old(self).active_only,
    {
        match self.labels.take() {
            Some(f) => f,
            None => label_components(grid),
        }
    }

    /// Make sure that labels are kept.
    pub fn ensure_labels_fresh(&mut self, grid: &Grid)
        requires
            grid.wf(),
            grid@.res.volume() <= u32::MAX,
            old(self).ready(grid@.res),
        ensures
            final(self).labels matches Some(f) && old(self).goes_by(grid@, f),
            final(self).ready(grid@.res),
            final(self).picked_voxel == old(self).picked_voxel,
            final(self).active_only == old(self).active_only,
    {
        let f = self.fresh_labels(grid);
        self.labels = Some(f);
    }

    /// Pick the piece at a voxel, if there is one. The result says whether there is.
    pub fn pick(&mut self, grid: &Grid, x: u32, y: u32, z: u32) -> (r: bool)
        requires
            grid.wf(),
            grid@.res.volume() <= u32::MAX,
            old(self).ready(grid@.res),
            grid@.res.has(x as int, y as int, z as int),
        ensures
            final(self).ready(grid@.res),
            final(self).active_only == old(self).active_only,
            final(self).labels matches Some(f) && old(self).goes_by(grid@, f) && r == (f.id(
                UVec3 { x, y, z },
            ) != EMPTY),
            final(self).picked_voxel == (if r {
                Some((x, y, z))
            } else {
                old(self).picked_voxel
            }),
    {
        let f = self.fresh_labels(grid);
        let r: bool = f.id_at(x, y, z) != EMPTY;
        if r {
            self.picked_voxel = Some((x, y, z));
        }
        self.labels = Some(f);
        r
    }

    /// The box of the selected piece, if one is selected.
    pub fn selected_bounds(&mut self, grid: &Grid) -> (r: Option<(UVec3, UVec3)>)
        requires
            grid.wf(),
            grid@.res.volume() <= u32::MAX,
            old(self).ready(grid@.res),
        ensures
            final(self).ready(grid@.res),
            final(self).picked_voxel == old(self).picked_voxel,
            final(self).active_only == old(self).active_only,
            old(self).picked_voxel is None ==> r is None && final(self).labels == old(self).labels,
            old(self).picked_voxel is Some ==> {
                &&& final(self).labels matches Some(f) && old(self).goes_by(grid@, f) && r == (
                match piece_at(old(self).picked_voxel, f) {
                    Some(id) => Some(f.box_of(id)),
                    None => None,
                })
            },
    {
        if self.picked_voxel.is_none() {
            return None;
        }
        let f = self.fresh_labels(grid);
        let r = match self.selected_id(&f) {
            Some(id) => {
                proof {
                    f.lemma_wf();
                }
                f.bounds_of(id)
            },
            None => None,
        };
        self.labels = Some(f);
        r
    }

    /// Whether a stamp may go ahead: unless tools change the selected piece only, it
    /// may; otherwise the voxel under it must be on the selected piece. `probe` is the
    /// voxel just under the surface, if the domain has one there.
    pub fn stamp_allowed(&mut self, grid: &Grid, probe: Option<(u32, u32, u32)>) -> (r: bool)
        requires
            grid.wf(),
            grid@.res.volume() <= u32::MAX,
            old(self).ready(grid@.res),
        ensures
            final(self).ready(grid@.res),
            final(self).picked_voxel == old(self).picked_voxel,
            final(self).active_only == old(self).active_only,
            !old(self).active_only || old(self).picked_voxel is None ==> r && final(self).labels
                == old(self).labels,
            old(self).active_only && old(self).picked_voxel is Some ==> {
                &&& final(self).labels matches Some(f) && old(self).goes_by(grid@, f) && r == ({
                    let target = piece_at(old(self).picked_voxel, f);
                    target is Some && piece_at(probe, f) == target
                })
            },
    {
        if !self.active_only || self.picked_voxel.is_none() {
            return true;
        }
        let f = self.fresh_labels(grid);
        let target = self.selected_id(&f);
        let there = Selection { picked_voxel: probe, active_only: false, labels: None }.selected_id(
            &f,
        );
        self.labels = Some(f);
        match (target, there) {
            (Some(a), Some(b)) => a == b,
            _ => false,
        }
    }

    /// Move the picked voxel along with its piece; past the domain nothing is picked.
    pub fn shift_picked(&mut self, delta: IVec3, res: UVec3)
        ensures
            final(self).labels == old(self).labels,
            final(self).active_only == old(self).active_only,
            final(self).picked_voxel == shifted(old(self).picked_voxel, delta, res),
    {
        match self.picked_voxel {
            Some((x, y, z)) => {
                self.picked_voxel = match (
                    shift_axis(x, delta.x, res.x),
                    shift_axis(y, delta.y, res.y),
                    shift_axis(z, delta.z, res.z),
                ) {
                    (Some(a), Some(b), Some(c)) => Some((a, b, c)),
                    _ => None,
                };
            },
            None => {},
        }
    }
}

fn shift_axis(v: u32, d: i32, n: u32) -> (r: Option<u32>)
    ensures
        r == (if 0 <= v + d < n {
            Some((v + d) as u32)
        } else {
            None
        }),
{
    let s: i64 = v as i64 + d as i64;
    if s >= 0 && s < n as i64 {
        Some(s as u32)
    } else {
        None
    }
}

/// A picked voxel after its piece moved.
pub open spec fn shifted(picked: Option<(u32, u32, u32)>, d: IVec3, res: UVec3) -> Option<(u32, u32, u32)> {
    match picked {
        None => None,
        Some(p) => if res.has(p.0 + d.x, p.1 + d.y, p.2 + d.z) {
            Some(((p.0 + d.x) as u32, (p.1 + d.y) as u32, (p.2 + d.z) as u32))
        } else {
            None
        },
    }
}

/// A voxel is of the piece.
pub open spec fn of_piece(f: ComponentField, id: ComponentId, v: UVec3) -> bool {
    in_domain(f.domain(), v) && f.id(v) == id
}

/// `after` is `before` with a piece cleared to open air.
pub open spec fn piece_cleared(before: GridView, after: GridView, f: ComponentField, id: ComponentId) -> bool {
    &&& after.same_domain(before)
    &&& forall|v: UVec3|
        in_domain(before.res, v) ==> #[trigger] after.at(v.x as int, v.y as int, v.z as int) == (
        if f.id(v) == id {
            cleared(before.voxel_size)
        } else {
            before.at(v.x as int, v.y as int, v.z as int)
        })
    &&& forall|c: ChunkCoord| #[trigger]
        after.tiles.dom().contains(c) <==> before.tiles.dom().contains(c) || piece_in(f, id, c)
}

/// The piece has a voxel in the chunk.
pub open spec fn piece_in(f: ComponentField, id: ComponentId, c: ChunkCoord) -> bool {
    exists|v: UVec3| #[trigger]
        of_piece(f, id, v) && tile_of(v.x as int, v.y as int, v.z as int) == c
}

/// Clear a piece to open air.
#[verifier::rlimit(30)]
#[verifier::spinoff_prover]
pub fn clear_piece(grid: &mut Grid, labels: &ComponentField, id: ComponentId, journal: &mut Vec<VoxelEdit>) -> (r:
    Option<DirtyRegion>)
    requires
        old(grid).wf(),
        labels.wf(),
        labels.domain() == old(grid)@.res,
        old(grid)@.res.volume() <= u32::MAX,
        old(journal).len() == 0,
    ensures
        final(grid).wf(),
        piece_cleared(old(grid)@, final(grid)@, *labels, id),
        records(final(journal)@, old(grid)@, |v: UVec3| of_piece(*labels, id, v)),
        spans_edits(final(journal)@, r),
{
    let ghost g = grid@;
    let ghost f = *labels;
    let ghost changed = |v: UVec3| of_piece(f, id, v);
    let lo = UVec3 { x: 0, y: 0, z: 0 };
    let hi = grid.res();
    proof {
        lemma_box_fits(lo, hi, hi);
    }
    let n: usize = count_of(lo, hi);
    let empty: u32 = cleared_value(grid.voxel_size());
    let mut dirty: Option<DirtyRegion> = None;
    let mut k: usize = 0;
    while k < n
        invariant
            k <= n,
            n == box_count(lo, hi),
            lo == UVec3::zero(),
            hi == g.res,
            f == *labels,
            labels.wf(),
            labels.domain() == g.res,
            changed == (|v: UVec3| of_piece(f, id, v)),
            empty == cleared(g.voxel_size),
            grid.wf(),
            grid@.same_domain(g),
            forall|x: int, y: int, z: int|
                g.res.has(x, y, z) ==> #[trigger] grid@.at(x, y, z) == (if box_number(lo, hi, x, y, z)
                    < k && f.id(UVec3 { x: x as u32, y: y as u32, z: z as u32 }) == id {
                    cleared(g.voxel_size)
                } else {
                    g.at(x, y, z)
                }),
            forall|q: ChunkCoord| #[trigger]
                grid@.tiles.dom().contains(q) ==> g.tiles.dom().contains(q) || piece_in(f, id, q),
            forall|q: ChunkCoord|
                g.tiles.dom().contains(q) ==> #[trigger] grid@.tiles.dom().contains(q),
            forall|i: int|
                0 <= i < journal@.len() ==> grid@.tiles.dom().contains(
                    tile_of(
                        (#[trigger] journal@[i]).x as int,
                        journal@[i].y as int,
                        journal@[i].z as int,
                    ),
                ),
            records_part(journal@, g, changed, lo, hi, k as int),
            spans_edits(journal@, dirty),
        decreases n - k,
    {
        let v = cell_of(lo, hi, k);
        let ghost (vx, vy, vz) = (v.x as int, v.y as int, v.z as int);
        let ghost mid = grid@;
        let pre: u32 = grid.get(v.x, v.y, v.z);
        let ghost e = VoxelEdit { x: v.x, y: v.y, z: v.z, pre };
        let ghost edits = journal@;
        proof {
            assert(pre == g.at(vx, vy, vz));
            lemma_records_step(edits, g, changed, lo, hi, k as int, e);
        }
        if labels.id_at(v.x, v.y, v.z) == id {
            assert(changed(v));
            journal.push(VoxelEdit { x: v.x, y: v.y, z: v.z, pre });
            grid.set(v.x, v.y, v.z, empty);
            dirty = expand(dirty, v.x, v.y, v.z, Ghost(edits), Ghost(e));
            proof {
                assert(piece_in(f, id, tile_of(vx, vy, vz)));
                assert(journal@ =~= edits.push(e));
                assert forall|i: int| 0 <= i < journal@.len() implies grid@.tiles.dom().contains(
                    tile_of(
                        (#[trigger] journal@[i]).x as int,
                        journal@[i].y as int,
                        journal@[i].z as int,
                    ),
                ) by {
                    if i < edits.len() {
                        assert(journal@[i] == edits[i]);
                    }
                }
            }
        } else {
            assert(!changed(v));
        }
        proof {
            assert forall|x: int, y: int, z: int| g.res.has(x, y, z) implies #[trigger] grid@.at(
                x,
                y,
                z,
            ) == (if box_number(lo, hi, x, y, z) < k + 1 && f.id(
                UVec3 { x: x as u32, y: y as u32, z: z as u32 },
            ) == id {
                cleared(g.voxel_size)
            } else {
                g.at(x, y, z)
            }) by {
                assert(mid.at(x, y, z) == mid.at(x, y, z));
                if box_number(lo, hi, x, y, z) == k {
                    lemma_box_number(lo, hi, x, y, z);
                    assert(x == vx && y == vy && z == vz);
                }
            }
        }
        k = k + 1;
    }
    proof {
        assert forall|v: UVec3| in_domain(g.res, v) implies #[trigger] grid@.at(
            v.x as int,
            v.y as int,
            v.z as int,
        ) == (if f.id(v) == id {
            cleared(g.voxel_size)
        } else {
            g.at(v.x as int, v.y as int, v.z as int)
        }) by {
            lemma_box_number(lo, hi, v.x as int, v.y as int, v.z as int);
        }
        assert forall|v: UVec3| in_domain(g.res, v) && #[trigger] changed(v) implies exists|i: int|
            0 <= i < journal@.len() && (#[trigger] journal@[i]).voxel() == v by {
            assert(in_box(lo, hi, v.x as int, v.y as int, v.z as int));
            lemma_box_number(lo, hi, v.x as int, v.y as int, v.z as int);
        }
        assert(records(journal@, g, changed));
        assert forall|q: ChunkCoord| #[trigger]
            grid@.tiles.dom().contains(q) <==> g.tiles.dom().contains(q) || piece_in(f, id, q) by {
            if piece_in(f, id, q) {
                let v = choose|v: UVec3| #[trigger]
                    of_piece(f, id, v) && tile_of(v.x as int, v.y as int, v.z as int) == q;
                assert(changed(v));
                let i = choose|i: int|
                    0 <= i < journal@.len() && (#[trigger] journal@[i]).voxel() == v;
                assert(journal@[i].voxel() == v);
            }
        }
    }
    dirty
}

/// Remove the selected piece, as one unit of undo. Nothing is selected afterwards.
/// The result says whether a piece was selected; a stroke in progress is dropped
/// either way.
pub fn delete_selected_component(
    state: &mut LayersState,
    selection: &mut Selection,
    history: &mut UndoHistory,
    stroke: &mut SculptStroke,
) -> (r: bool)
    requires
        old(state).wf(),
        old(state).res().x > 0,
        old(state).res().y > 0,
        old(state).res().z > 0,
        old(state).res().volume() <= u32::MAX,
        old(selection).ready(old(state).res()),
        old(history).wf(old(state).res()),
    ensures
        final(state).wf(),
        final(state).res() == old(state).res(),
        final(history).wf(old(state).res()),
        final(stroke).is_idle(),
        final(selection).active_only == old(selection).active_only,
        final(selection).ready(old(state).res()),
        exists|f: ComponentField| #[trigger]
            old(selection).goes_by(old(state)@.layers[old(state)@.active].grid, f) && (match piece_at(
                old(selection).picked_voxel,
                f,
            ) {
                None => {
                    &&& !r
                    &&& final(state)@ == old(state)@
                    &&& *final(history) == *old(history)
                    &&& final(selection).labels == Some(f)
                    &&& final(selection).picked_voxel == old(selection).picked_voxel
                },
                Some(id) => {
                    &&& r
                    &&& final(selection).labels is None
                    &&& final(selection).picked_voxel is None
                    &&& piece_cleared(
                        old(state)@.layers[old(state)@.active].grid,
                        final(state)@.layers[old(state)@.active].grid,
                        f,
                        id,
                    )
                    &&& edited_at(
                        old(state)@,
                        final(state)@,
                        *old(history),
                        *final(history),
                        |v: UVec3| of_piece(f, id, v),
                    )
                },
            }),
{
    let ghost m = state@;
    let ghost h = *history;
    stroke.discard_live();
    let labels = selection.fresh_labels(state.grid());
    match selection.selected_id(&labels) {
        None => {
            selection.labels = Some(labels);
            false
        },
        Some(id) => {
            let mut journal: Vec<VoxelEdit> = Vec::new();
            let dirty = clear_piece(state.grid_mut(), &labels, id, &mut journal);
            let ghost mid = state@;
            commit_edit(state, history, &journal, dirty);
            selection.reset();
            proof {
                let changed = |v: UVec3| of_piece(labels, id, v);
                assert(mid == with_grid(m, mid.layers[m.active].grid));
                assert(edited(m, state@, h, *history, journal@, dirty));
                assert(edited_at(m, state@, h, *history, changed));
            }
            true
        },
    }
}

/// Deleting a piece takes it away as a whole, and nothing else: afterwards a voxel is solid if
/// and only if it was and belonged to another piece.
pub proof fn law_deleted_piece_is_gone(
    before: GridView,
    after: GridView,
    f: ComponentField,
    id: ComponentId,
    v: UVec3,
)
    requires
        f.labels(before),
        piece_cleared(before, after, f, id),
        id > 0,
        lt(0, before.voxel_size),
        before.res.has(v.x as int, v.y as int, v.z as int),
    ensures
        solid(after.at(v.x as int, v.y as int, v.z as int)) <==> solid(
            before.at(v.x as int, v.y as int, v.z as int),
        ) && f.id(v) != id,
        f.id(v) != id ==> after.at(v.x as int, v.y as int, v.z as int) == before.at(
            v.x as int,
            v.y as int,
            v.z as int,
        ),
{
    lemma_cleared_is_air(before.voxel_size);
    assert(after.at(v.x as int, v.y as int, v.z as int) == (if f.id(v) == id {
        cleared(before.voxel_size)
    } else {
        before.at(v.x as int, v.y as int, v.z as int)
    }));
}

/// The picked voxel goes as far as the piece, along every axis, as long as that is inside the
/// domain; going as far back returns it.
pub proof fn law_pick_goes_along(p: (u32, u32, u32), d: IVec3, back: IVec3, res: UVec3)
    requires
        res.has(p.0 as int, p.1 as int, p.2 as int),
        back.x == -d.x,
        back.y == -d.y,
        back.z == -d.z,
    ensures
        shifted(Some(p), d, res) matches Some(q) ==> {
            &&& q.0 - p.0 == d.x
            &&& q.1 - p.1 == d.y
            &&& q.2 - p.2 == d.z
            &&& res.has(q.0 as int, q.1 as int, q.2 as int)
        },
        shifted(Some(p), d, res) is None <==> !res.has(p.0 + d.x, p.1 + d.y, p.2 + d.z),
        shifted(Some(p), d, res) is Some ==> shifted(shifted(Some(p), d, res), back, res) == Some(p),
        shifted(None, d, res) is None,
{
}

/// A pick selects a piece if and only if there is clay at the picked voxel; it is the piece
/// that the voxel belongs to.
pub proof fn law_pick_selects_clay(g: GridView, f: ComponentField, p: (u32, u32, u32))
    requires
        f.labels(g),
    ensures
        ({
            let v = UVec3 { x: p.0, y: p.1, z: p.2 };
            &&& piece_at(Some(p), f) is Some <==> g.res.has(p.0 as int, p.1 as int, p.2 as int)
                && solid(g.at(p.0 as int, p.1 as int, p.2 as int))
            &&& piece_at(Some(p), f) matches Some(id) ==> id == f.id(v) && 1 <= id <= f.count()
            &&& piece_at(None, f) is None
        }),
{
    let v = UVec3 { x: p.0, y: p.1, z: p.2 };
    f.lemma_wf();
    if in_domain(g.res, v) {
        assert(f.id(v) == 0 <==> !solid_voxel(g, v));
    }
}

} // verus!
