//! Merging a layer into the one below it.

use crate::components::in_domain;
use crate::grid::{in_scan_order, lemma_chunk_box, tile_of, ChunkCoord, Grid, GridView};
use crate::journal::VoxelEdit;
use crate::layers::{entities, LayerModel, LayerSnapshot, LayersModel, LayersState};
use crate::region::{box_count, box_number, cell_of, count_of, in_box, lemma_box_number};
use crate::sample::{is_nan, less, lt, solid};
use crate::snapshot::{lemma_listed_step, listed_before, union_writes};
use crate::stroke::{distinct_voxels, edits_in, known, StrokeEntry};
use crate::vec3::UVec3;
use vstd::prelude::*;

verus! {

/// The sample of `src` wins at a voxel.
pub open spec fn wins(dst: GridView, src: GridView, v: UVec3) -> bool {
    &&& in_domain(dst.res, v)
    &&& src.tiles.dom().contains(tile_of(v.x as int, v.y as int, v.z as int))
    &&& lt(
        src.at(v.x as int, v.y as int, v.z as int),
        dst.at(v.x as int, v.y as int, v.z as int),
    )
}

/// `edits` has each voxel where `src` wins, once, with the sample of `dst`.
pub open spec fn is_delta(edits: Seq<VoxelEdit>, dst: GridView, src: GridView) -> bool {
    &&& distinct_voxels(edits)
    &&& forall|v: UVec3| #[trigger] known(edits, v) <==> wins(dst, src, v)
    &&& forall|i: int|
        0 <= i < edits.len() ==> (#[trigger] edits[i]).pre == dst.at(
            edits[i].x as int,
            edits[i].y as int,
            edits[i].z as int,
        )
}

/// The edits of one chunk.
spec fn is_chunk_delta(edits: Seq<VoxelEdit>, dst: GridView, src: GridView, c: ChunkCoord) -> bool {
    &&& distinct_voxels(edits)
    &&& forall|v: UVec3| #[trigger]
        known(edits, v) <==> wins(dst, src, v) && tile_of(v.x as int, v.y as int, v.z as int) == c
    &&& forall|i: int|
        0 <= i < edits.len() ==> (#[trigger] edits[i]).pre == dst.at(
            edits[i].x as int,
            edits[i].y as int,
            edits[i].z as int,
        )
}

fn chunk_delta(dst: &Grid, src: &Grid, c: ChunkCoord) -> (r: Vec<VoxelEdit>)
    requires
        dst.wf(),
        src.wf(),
        dst@.res == src@.res,
        src@.tiles.dom().contains(c),
    ensures
        is_chunk_delta(r@, dst@, src@, c),
{
    let res = src.res();
    proof {
        src.lemma_wf_view();
        lemma_chunk_box(c, res);
    }
    let lo = c.voxel_min();
    let hi = c.voxel_max(res);
    let n: usize = count_of(lo, hi);
    let mut r: Vec<VoxelEdit> = Vec::new();
    let mut k: usize = 0;
    while k < n
        invariant
            k <= n,
            dst.wf(),
            src.wf(),
            dst@.res == res,
            src@.res == res,
            src@.tiles.dom().contains(c),
            n == box_count(lo, hi),
            forall|x: int, y: int, z: int|
                #![trigger in_box(lo, hi, x, y, z)]
                in_box(lo, hi, x, y, z) <==> res.has(x, y, z) && tile_of(x, y, z) == c,
            distinct_voxels(r@),
            forall|i: int|
                0 <= i < r.len() ==> {
                    let e = #[trigger] r@[i];
                    &&& in_box(lo, hi, e.x as int, e.y as int, e.z as int)
                    &&& box_number(lo, hi, e.x as int, e.y as int, e.z as int) < k
                    &&& wins(dst@, src@, e.voxel())
                    &&& e.pre == dst@.at(e.x as int, e.y as int, e.z as int)
                },
            forall|v: UVec3|
                in_box(lo, hi, v.x as int, v.y as int, v.z as int) && box_number(
                    lo,
                    hi,
                    v.x as int,
                    v.y as int,
                    v.z as int,
                ) < k && #[trigger] wins(dst@, src@, v) ==> known(r@, v),
        decreases n - k,
    {
        let v = cell_of(lo, hi, k);
        let ghost was = r@;
        let s: u32 = src.get(v.x, v.y, v.z);
        let d: u32 = dst.get(v.x, v.y, v.z);
        let ghost e = VoxelEdit { x: v.x, y: v.y, z: v.z, pre: d };
        if less(s, d) {
            r.push(VoxelEdit { x: v.x, y: v.y, z: v.z, pre: d });
            proof {
                let now = r@;
                assert(now[was.len() as int] == e);
                assert(known(now, v));
                assert forall|i: int, j: int| 0 <= i < j < now.len() implies (#[trigger] now[i]).voxel()
                    != (#[trigger] now[j]).voxel() by {
                    if j == was.len() {
                        assert(now[i] == was[i]);
                    } else {
                        assert(now[i] == was[i] && now[j] == was[j]);
                    }
                }
                assert forall|u: UVec3| known(was, u) implies #[trigger] known(now, u) by {
                    let i = choose|i: int| 0 <= i < was.len() && (#[trigger] was[i]).voxel() == u;
                    assert(now[i].voxel() == u);
                }
            }
        }
        proof {
            assert forall|u: UVec3|
                in_box(lo, hi, u.x as int, u.y as int, u.z as int) && box_number(
                    lo,
                    hi,
                    u.x as int,
                    u.y as int,
                    u.z as int,
                ) < k + 1 && #[trigger] wins(dst@, src@, u) implies known(r@, u) by {
                if box_number(lo, hi, u.x as int, u.y as int, u.z as int) == k {
                    lemma_box_number(lo, hi, u.x as int, u.y as int, u.z as int);
                    assert(u == v);
                } else {
                    assert(known(was, u));
                }
            }
        }
        k = k + 1;
    }
    proof {
        assert forall|v: UVec3| #[trigger]
            known(r@, v) <==> wins(dst@, src@, v) && tile_of(v.x as int, v.y as int, v.z as int) == c by {
            if known(r@, v) {
                let i = choose|i: int| 0 <= i < r.len() && (#[trigger] r@[i]).voxel() == v;
                assert(wins(dst@, src@, r@[i].voxel()));
            }
            if wins(dst@, src@, v) && tile_of(v.x as int, v.y as int, v.z as int) == c {
                assert(in_box(lo, hi, v.x as int, v.y as int, v.z as int));
                lemma_box_number(lo, hi, v.x as int, v.y as int, v.z as int);
            }
        }
    }
    r
}

proof fn lemma_append_delta(
    all: Seq<VoxelEdit>,
    part: Seq<VoxelEdit>,
    dst: GridView,
    src: GridView,
    coords: Seq<ChunkCoord>,
    t: int,
)
    requires
        0 <= t < coords.len(),
        in_scan_order(coords),
        distinct_voxels(all),
        forall|v: UVec3| #[trigger]
            known(all, v) <==> wins(dst, src, v) && listed_before(
                coords,
                t,
                tile_of(v.x as int, v.y as int, v.z as int),
            ),
        is_chunk_delta(part, dst, src, coords[t]),
    ensures
        distinct_voxels(all + part),
        forall|v: UVec3| #[trigger]
            known(all + part, v) <==> wins(dst, src, v) && listed_before(
                coords,
                t + 1,
                tile_of(v.x as int, v.y as int, v.z as int),
            ),
{
    lemma_listed_step(coords, t);
    let both = all + part;
    assert forall|i: int, j: int| 0 <= i < j < both.len() implies (#[trigger] both[i]).voxel() != (
    #[trigger] both[j]).voxel() by {
        if j < all.len() {
            assert(both[i] == all[i] && both[j] == all[j]);
        } else if i >= all.len() {
            assert(both[i] == part[i - all.len()] && both[j] == part[j - all.len()]);
        } else {
            assert(both[i] == all[i] && both[j] == part[j - all.len()]);
            assert(known(all, all[i].voxel()));
            assert(known(part, part[j - all.len()].voxel()));
        }
    }
    assert forall|v: UVec3| #[trigger]
        known(both, v) <==> wins(dst, src, v) && listed_before(
            coords,
            t + 1,
            tile_of(v.x as int, v.y as int, v.z as int),
        ) by {
        if known(both, v) {
            let i = choose|i: int| 0 <= i < both.len() && (#[trigger] both[i]).voxel() == v;
            if i < all.len() {
                assert(all[i].voxel() == v);
                assert(known(all, v));
            } else {
                assert(part[i - all.len()].voxel() == v);
                assert(known(part, v));
            }
        }
        if known(all, v) {
            let i = choose|i: int| 0 <= i < all.len() && (#[trigger] all[i]).voxel() == v;
            assert(both[i].voxel() == v);
        }
        if known(part, v) {
            let i = choose|i: int| 0 <= i < part.len() && (#[trigger] part[i]).voxel() == v;
            assert(both[all.len() + i].voxel() == v);
        }
    }
}

/// The voxels that a union with `src` changes in `dst`.
pub fn union_delta(dst: &Grid, src: &Grid) -> (r: Vec<VoxelEdit>)
    requires
        dst.wf(),
        src.wf(),
        dst@.res == src@.res,
    ensures
        is_delta(r@, dst@, src@),
{
    let coords: Vec<ChunkCoord> = src.allocated_chunk_coords();
    let mut r: Vec<VoxelEdit> = Vec::new();
    let mut t: usize = 0;
    while t < coords.len()
        invariant
            t <= coords.len(),
            dst.wf(),
            src.wf(),
            dst@.res == src@.res,
            in_scan_order(coords@),
            forall|i: int| 0 <= i < coords.len() ==> src@.tiles.dom().contains(#[trigger] coords@[i]),
            distinct_voxels(r@),
            forall|v: UVec3| #[trigger]
                known(r@, v) <==> wins(dst@, src@, v) && listed_before(
                    coords@,
                    t as int,
                    tile_of(v.x as int, v.y as int, v.z as int),
                ),
            forall|i: int|
                0 <= i < r.len() ==> (#[trigger] r@[i]).pre == dst@.at(
                    r@[i].x as int,
                    r@[i].y as int,
                    r@[i].z as int,
                ),
        decreases coords.len() - t,
    {
        let mut part = chunk_delta(dst, src, coords[t]);
        let ghost was = r@;
        let ghost more = part@;
        r.append(&mut part);
        proof {
            assert(r@ =~= was + more);
            lemma_append_delta(was, more, dst@, src@, coords@, t as int);
            assert forall|i: int| 0 <= i < r.len() implies (#[trigger] r@[i]).pre == dst@.at(
                r@[i].x as int,
                r@[i].y as int,
                r@[i].z as int,
            ) by {
                if i < was.len() {
                    assert(r@[i] == was[i]);
                } else {
                    assert(r@[i] == more[i - was.len()]);
                }
            }
        }
        t = t + 1;
    }
    proof {
        assert forall|v: UVec3| #[trigger] known(r@, v) <==> wins(dst@, src@, v) by {
            let c = tile_of(v.x as int, v.y as int, v.z as int);
            if wins(dst@, src@, v) {
                assert(coords@.contains(c));
                let i = choose|i: int| 0 <= i < coords.len() && coords@[i] == c;
                assert(coords@[i] == c);
                assert(listed_before(coords@, coords.len() as int, c));
            }
        }
    }
    r
}

/// `after` is `before` united with `src`.
pub open spec fn united(before: GridView, after: GridView, src: GridView) -> bool {
    &&& after.same_domain(before)
    &&& forall|v: UVec3|
        in_domain(before.res, v) ==> #[trigger] after.at(v.x as int, v.y as int, v.z as int) == (
        if wins(before, src, v) {
            src.at(v.x as int, v.y as int, v.z as int)
        } else {
            before.at(v.x as int, v.y as int, v.z as int)
        })
    &&& forall|c: ChunkCoord| #[trigger]
        after.tiles.dom().contains(c) <==> before.tiles.dom().contains(c) || wins_in(before, src, c)
}

/// The sample of `src` wins at a voxel of a chunk.
pub open spec fn wins_in(dst: GridView, src: GridView, c: ChunkCoord) -> bool {
    exists|v: UVec3| #[trigger]
        wins(dst, src, v) && tile_of(v.x as int, v.y as int, v.z as int) == c
}

pub(crate) fn unite(dst: &mut Grid, src: &Grid)
    requires
        old(dst).wf(),
        src.wf(),
        old(dst)@.res == src@.res,
    ensures
        final(dst).wf(),
        united(old(dst)@, final(dst)@, src@),
{
    let ghost was = dst@;
    dst.union_from(src);
    proof {
        assert forall|c: ChunkCoord| #[trigger]
            dst@.tiles.dom().contains(c) <==> was.tiles.dom().contains(c) || wins_in(was, src@, c) by {
            if union_writes(was, src@, c) {
                let (x, y, z) = choose|x: int, y: int, z: int|
                    was.res.has(x, y, z) && lt(src@.at(x, y, z), was.at(x, y, z))
                        && #[trigger] tile_of(x, y, z) == c && src@.tiles.dom().contains(c);
                let v = UVec3 { x: x as u32, y: y as u32, z: z as u32 };
                assert(wins(was, src@, v));
            }
            if wins_in(was, src@, c) {
                let v = choose|v: UVec3| #[trigger]
                    wins(was, src@, v) && tile_of(v.x as int, v.y as int, v.z as int) == c;
                assert(tile_of(v.x as int, v.y as int, v.z as int) == c);
                assert(union_writes(was, src@, c));
            }
        }
    }
}

/// What undoing and redoing a merge needs.
pub struct MergeDownRecord {
    /// The place of the layer that was merged.
    pub src_index: usize,
    /// The place of the layer that it was merged into.
    pub dst_index: usize,
    /// The layer that was merged.
    pub src: LayerSnapshot,
    /// What changed in the other layer.
    pub delta: StrokeEntry,
}

/// `rec` is the record of merging the active layer of `before` down, and `after` is
/// what comes of it.
pub open spec fn merged(before: LayersModel, after: LayersModel, rec: MergeDownRecord) -> bool {
    let s = before.active;
    let d = before.active - 1;
    let src = before.layers[s];
    let dst = before.layers[d];
    &&& rec.src_index == s
    &&& rec.dst_index == d
    &&& rec.src@ == src.snapshot()
    &&& rec.delta.layer == dst.id
    &&& is_delta(rec.delta.edits@, dst.grid, src.grid)
    &&& rec.delta.post@.len() == rec.delta.edits@.len()
    &&& forall|i: int|
        0 <= i < rec.delta.post@.len() ==> #[trigger] rec.delta.post@[i] == ({
            let v = rec.delta.edits@[i].voxel();
            src.grid.at(v.x as int, v.y as int, v.z as int)
        })
    &&& in_scan_order(rec.delta.dirty@)
    &&& rec.delta.dirty@.to_set() == src.grid.tiles.dom()
    &&& after.active == d
    &&& after.next_id == before.next_id
    &&& after.pending == before.pending + entities(src)
    &&& after.layers.len() == before.layers.len() - 1
    &&& united(dst.grid, after.layers[d].grid, src.grid)
    &&& after.layers == before.layers.update(
        d,
        LayerModel {
            grid: after.layers[d].grid,
            dirty: dst.dirty.union(src.grid.tiles.dom()),
            ..dst
        },
    ).remove(s)
}

/// Edits that are where `src` wins are in the domain.
proof fn lemma_delta_in(edits: Seq<VoxelEdit>, dst: GridView, src: GridView)
    requires
        is_delta(edits, dst, src),
    ensures
        edits_in(edits, dst.res),
{
    assert forall|i: int| 0 <= i < edits.len() implies in_domain(dst.res, (#[trigger] edits[i]).voxel()) by {
        assert(known(edits, edits[i].voxel()));
    }
}

impl LayersState {
    /// Merge the active layer into the one below it, which becomes active. The bottom
    /// layer has none below it.
    pub fn merge_down_active(&mut self) -> (r: Option<MergeDownRecord>)
        requires
            old(self).wf(),
        ensures
            final(self).wf(),
            final(self).res() == old(self).res(),
            r is None <==> old(self)@.active == 0,
            r is None ==> final(self)@ == old(self)@,
            r matches Some(rec) ==> {
                &&& merged(old(self)@, final(self)@, rec)
                &&& rec.src.grid.wf()
                &&& rec.delta.wf(old(self).res())
            },
    {
        let ghost was = self@;
        let s: usize = self.active;
        if s == 0 {
            return None;
        }
        let d: usize = s - 1;
        let src = LayerSnapshot::from_layer(&self.layers[s]);
        let id: u32 = self.layers[d].id;
        let ghost dst = self.layers@[d as int]@;
        let edits = union_delta(&self.layers[d].grid, &src.grid);
        let dirty = src.grid.allocated_chunk_coords();
        proof {
            assert(dst == was.layers[d as int]);
            assert(was.layers[s as int] == self.layers@[s as int]@);
            lemma_delta_in(edits@, dst.grid, src@.grid);
            assert(dirty@.to_set() =~= src@.grid.tiles.dom());
        }
        unite(&mut self.layers[d].grid, &src.grid);
        let ghost mid = self.layers@[d as int].grid@;
        let mut post: Vec<u32> = Vec::new();
        let mut i: usize = 0;
        while i < edits.len()
            invariant
                i <= edits.len(),
                d < self.layers.len(),
                self.layers@[d as int].grid.wf(),
                self.layers@[d as int].grid@ == mid,
                edits_in(edits@, mid.res),
                is_delta(edits@, dst.grid, src@.grid),
                united(dst.grid, mid, src@.grid),
                post.len() == i,
                forall|k: int|
                    0 <= k < i ==> #[trigger] post@[k] == ({
                        let v = edits@[k].voxel();
                        src@.grid.at(v.x as int, v.y as int, v.z as int)
                    }),
            decreases edits.len() - i,
        {
            let e = edits[i];
            proof {
                let v = edits@[i as int].voxel();
                assert(in_domain(mid.res, v));
                assert(known(edits@, v));
                assert(wins(dst.grid, src@.grid, v));
                assert(mid.at(v.x as int, v.y as int, v.z as int) == src@.grid.at(
                    v.x as int,
                    v.y as int,
                    v.z as int,
                ));
            }
            post.push(self.layers[d].grid.get(e.x, e.y, e.z));
            i = i + 1;
        }
        self.layers[d].dirty.insert_all(&dirty);
        let ghost inner = self@;
        proof {
            assert(inner.layers =~= was.layers.update(
                d as int,
                LayerModel {
                    grid: mid,
                    dirty: dst.dirty.union(src@.grid.tiles.dom()),
                    ..dst
                },
            ));
        }
        self.remove_layer_at(s);
        self.active = d;
        let rec = MergeDownRecord {
            src_index: s,
            dst_index: d,
            src,
            delta: StrokeEntry { layer: id, edits, post, dirty },
        };
        proof {
            assert(self@.layers =~= inner.layers.remove(s as int));
            assert(self@.layers[d as int] == inner.layers[d as int]);
        }
        Some(rec)
    }
}

/// Merged layers are solid where one of the two was, and nowhere else; the sample is that of
/// the upper layer where that is smaller and its chunk is stored, and else that of the lower.
pub proof fn law_merged_is_solid_where_either_was(
    before: GridView,
    after: GridView,
    src: GridView,
    v: UVec3,
)
    requires
        united(before, after, src),
        before.res.has(v.x as int, v.y as int, v.z as int),
    ensures
        ({
            let low = before.at(v.x as int, v.y as int, v.z as int);
            let up = src.at(v.x as int, v.y as int, v.z as int);
            let now = after.at(v.x as int, v.y as int, v.z as int);
            &&& !is_nan(low) ==> (solid(now) <==> solid(low) || solid(up))
            &&& now == low || now == up
            &&& !lt(low, now)
            &&& src.tiles.dom().contains(tile_of(v.x as int, v.y as int, v.z as int)) ==> !lt(up, now)
        }),
{
    assert(after.at(v.x as int, v.y as int, v.z as int) == (if wins(before, src, v) {
        src.at(v.x as int, v.y as int, v.z as int)
    } else {
        before.at(v.x as int, v.y as int, v.z as int)
    }));
}

} // verus!
