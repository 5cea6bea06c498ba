//! Strokes: what an edit changed, so that it can be undone and redone.
//!
//! One stroke is one unit of undo. While it lasts, the recorder keeps for each
//! voxel the first sample that was replaced, which is the sample from before the
//! stroke. When it ends, the samples from after the stroke are read back.

use crate::chunk_table::ChunkSet;
use crate::components::in_domain;
use crate::dirty::DirtyRegion;
use crate::grid::{in_scan_order, tile_of, ChunkCoord, Grid, GridView, CHUNK_SIZE};
use crate::journal::{records, VoxelEdit};
use crate::vec3::UVec3;
use std::collections::HashSet;
use vstd::prelude::*;

verus! {

/// The key of a voxel: different for different voxels.
pub open spec fn voxel_key(v: UVec3) -> u128 {
    (v.x + v.y * 0x1_0000_0000 + v.z * 0x1_0000_0000_0000_0000) as u128
}

/// The key of a voxel.
pub fn pack_key(x: u32, y: u32, z: u32) -> (r: u128)
    ensures
        r == voxel_key(UVec3 { x, y, z }),
{
    x as u128 + y as u128 * 0x1_0000_0000 + z as u128 * 0x1_0000_0000_0000_0000
}

proof fn lemma_voxel_key(a: UVec3, b: UVec3)
    requires
        voxel_key(a) == voxel_key(b),
    ensures
        a == b,
{
}

/// The chunk that a voxel belongs to.
pub fn chunk_of_voxel(x: u32, y: u32, z: u32) -> (r: ChunkCoord)
    ensures
        r == tile_of(x as int, y as int, z as int),
{
    ChunkCoord::new(x / CHUNK_SIZE, y / CHUNK_SIZE, z / CHUNK_SIZE)
}

/// The edits have an entry for a voxel.
pub open spec fn known(edits: Seq<VoxelEdit>, v: UVec3) -> bool {
    exists|i: int| 0 <= i < edits.len() && (#[trigger] edits[i]).voxel() == v
}

/// A stroke records each voxel once, however often it is written to.
pub open spec fn distinct_voxels(edits: Seq<VoxelEdit>) -> bool {
    forall|i: int, j: int|
        0 <= i < j < edits.len() ==> (#[trigger] edits[i]).voxel() != (#[trigger] edits[j]).voxel()
}

/// The edits with one more, unless its voxel is known.
pub open spec fn with_edit(edits: Seq<VoxelEdit>, e: VoxelEdit) -> Seq<VoxelEdit> {
    if known(edits, e.voxel()) {
        edits
    } else {
        edits.push(e)
    }
}

/// The edits with the first `n` of a journal.
pub open spec fn with_journal(edits: Seq<VoxelEdit>, journal: Seq<VoxelEdit>, n: nat) -> Seq<VoxelEdit>
    decreases n,
{
    if n == 0 {
        edits
    } else {
        with_edit(with_journal(edits, journal, (n - 1) as nat), journal[n - 1])
    }
}

/// Records a stroke while it lasts.
pub struct StrokeRecorder {
    seen: HashSet<u128>,
    edits: Vec<VoxelEdit>,
    dirty: ChunkSet,
}

/// The keys of the edits.
spec fn keys_match(seen: Set<u128>, edits: Seq<VoxelEdit>) -> bool {
    forall|v: UVec3| #[trigger] seen.contains(voxel_key(v)) <==> known(edits, v)
}

impl StrokeRecorder {
    /// The first sample that was replaced at each voxel, in the order in which
    /// the voxels were first written to.
    pub closed spec fn edits(&self) -> Seq<VoxelEdit> {
        self.edits@
    }

    /// The chunks that need a new mesh.
    pub closed spec fn dirty(&self) -> Set<ChunkCoord> {
        self.dirty@
    }

    /// The recorder is well formed.
    pub closed spec fn wf(&self) -> bool {
        &&& keys_match(self.seen@, self.edits@)
        &&& distinct_voxels(self.edits@)
        &&& self.dirty.wf()
    }

    /// A stroke records each voxel once, however often it is written to.
    pub proof fn law_recorded_once(&self)
        requires
            self.wf(),
        ensures
            distinct_voxels(self.edits()),
    {
    }

    /// A recorder that has recorded nothing.
    pub fn new() -> (r: StrokeRecorder)
        ensures
            r.wf(),
            r.edits() == Seq::<VoxelEdit>::empty(),
            r.dirty() == Set::<ChunkCoord>::empty(),
    {
        broadcast use vstd::std_specs::hash::group_hash_axioms;

        let r = StrokeRecorder { seen: HashSet::new(), edits: Vec::new(), dirty: ChunkSet::new() };
        assert(r.edits() =~= Seq::<VoxelEdit>::empty());
        r
    }

    /// Record the sample that is about to be replaced, unless one was recorded at
    /// that voxel before.
    pub fn record_pre_value(&mut self, x: u32, y: u32, z: u32, pre_value: u32)
        requires
            old(self).wf(),
        ensures
            final(self).wf(),
            final(self).edits() == with_edit(
                old(self).edits(),
                VoxelEdit { x, y, z, pre: pre_value },
            ),
            final(self).dirty() == old(self).dirty(),
    {
        broadcast use vstd::std_specs::hash::group_hash_axioms;

        let ghost was = self.edits@;
        let ghost e = VoxelEdit { x, y, z, pre: pre_value };
        let key: u128 = pack_key(x, y, z);
        assert(self.seen@.contains(voxel_key(e.voxel())) <==> known(was, e.voxel()));
        if self.seen.insert(key) {
            self.edits.push(VoxelEdit { x, y, z, pre: pre_value });
            proof {
                let now = self.edits@;
                assert forall|v: UVec3| #[trigger]
                    self.seen@.contains(voxel_key(v)) <==> known(now, v) by {
                    if voxel_key(v) == key {
                        lemma_voxel_key(v, e.voxel());
                        assert(now[was.len() as int].voxel() == v);
                    } else {
                        assert(old(self).seen@.contains(voxel_key(v)) <==> known(was, v));
                        if known(was, v) {
                            let i = choose|i: int| 0 <= i < was.len() && (#[trigger] was[i]).voxel() == v;
                            assert(now[i].voxel() == v);
                        }
                        if known(now, v) {
                            let i = choose|i: int| 0 <= i < now.len() && (#[trigger] now[i]).voxel() == v;
                            assert(was[i].voxel() == v);
                        }
                    }
                }
                assert forall|i: int, j: int| 0 <= i < j < now.len() implies (#[trigger] now[i]).voxel()
                    != (#[trigger] now[j]).voxel() by {
                    if j == was.len() {
                        assert(now[i] == was[i]);
                    } else {
                        assert(now[i] == was[i] && now[j] == was[j]);
                    }
                }
            }
        } else {
            assert(self.seen@ =~= old(self).seen@);
        }
    }

    /// What was recorded.
    pub fn into_edits(self) -> (r: Vec<VoxelEdit>)
        ensures
            r@ == self.edits(),
    {
        self.edits
    }

    /// Record a whole journal.
    pub fn record_journal(&mut self, journal: &Vec<VoxelEdit>)
        requires
            old(self).wf(),
        ensures
            final(self).wf(),
            final(self).edits() == with_journal(old(self).edits(), journal@, journal@.len()),
            final(self).dirty() == old(self).dirty(),
    {
        let ghost was = self.edits();
        let mut i: usize = 0;
        while i < journal.len()
            invariant
                i <= journal.len(),
                self.wf(),
                self.edits() == with_journal(was, journal@, i as nat),
                self.dirty() == old(self).dirty(),
            decreases journal.len() - i,
        {
            let e = journal[i];
            self.record_pre_value(e.x, e.y, e.z, e.pre);
            i = i + 1;
        }
    }

    /// Record that a region changed.
    pub fn record_dirty_region(&mut self, region: DirtyRegion, grid_res: UVec3)
        requires
            old(self).wf(),
            grid_res.x > 0,
            grid_res.y > 0,
            grid_res.z > 0,
        ensures
            final(self).wf(),
            final(self).edits() == old(self).edits(),
            forall|c: ChunkCoord| #[trigger]
                final(self).dirty().contains(c) <==> old(self).dirty().contains(c) || region.touches(
                    grid_res,
                    c,
                ),
    {
        let chunks = region.touched_chunks(grid_res);
        self.dirty.insert_all(&chunks);
        proof {
            assert forall|c: ChunkCoord| #[trigger]
                self.dirty().contains(c) <==> old(self).dirty().contains(c) || region.touches(
                    grid_res,
                    c,
                ) by {
                assert(chunks@.contains(c) <==> region.touches(grid_res, c));
            }
        }
    }

    /// End the stroke and read back the samples from after it. A stroke that
    /// wrote nothing leaves no entry.
    pub fn finish(self, grid: &Grid, layer: u32) -> (r: Option<StrokeEntry>)
        requires
            self.wf(),
            grid.wf(),
            edits_in(self.edits(), grid@.res),
        ensures
            r is None <==> self.edits().len() == 0,
            r matches Some(e) ==> {
                &&& e.wf(grid@.res)
                &&& e.layer == layer
                &&& e.edits@ == self.edits()
                &&& forall|i: int|
                    0 <= i < e.post@.len() ==> #[trigger] e.post@[i] == ({
                        let v = e.edits@[i].voxel();
                        grid@.at(v.x as int, v.y as int, v.z as int)
                    })
                &&& in_scan_order(e.dirty@)
                &&& e.dirty@.to_set() == self.dirty()
            },
    {
        if self.edits.len() == 0 {
            return None;
        }
        let mut post: Vec<u32> = Vec::new();
        let mut i: usize = 0;
        while i < self.edits.len()
            invariant
                i <= self.edits.len(),
                grid.wf(),
                edits_in(self.edits@, grid@.res),
                post.len() == i,
                forall|k: int|
                    0 <= k < i ==> #[trigger] post@[k] == ({
                        let v = self.edits@[k].voxel();
                        grid@.at(v.x as int, v.y as int, v.z as int)
                    }),
            decreases self.edits.len() - i,
        {
            let e = self.edits[i];
            assert(in_domain(grid@.res, self.edits@[i as int].voxel()));
            post.push(grid.get(e.x, e.y, e.z));
            i = i + 1;
        }
        let dirty = self.dirty.to_list();
        Some(StrokeEntry { layer, edits: self.edits, post, dirty })
    }
}

/// Every edit is of a voxel of the domain.
pub open spec fn edits_in(edits: Seq<VoxelEdit>, res: UVec3) -> bool {
    forall|i: int| 0 <= i < edits.len() ==> in_domain(res, (#[trigger] edits[i]).voxel())
}

/// A stroke that has ended: the samples from before and after it, the layer that
/// it was on, and the chunks that it shows in.
pub struct StrokeEntry {
    pub layer: u32,
    pub edits: Vec<VoxelEdit>,
    pub post: Vec<u32>,
    pub dirty: Vec<ChunkCoord>,
}

/// `after` is `before` with the voxels of the edits set to the given samples.
pub open spec fn replaced(
    before: GridView,
    after: GridView,
    edits: Seq<VoxelEdit>,
    samples: Seq<u32>,
) -> bool {
    &&& after.same_domain(before)
    &&& forall|i: int|
        0 <= i < edits.len() ==> after.at(
            (#[trigger] edits[i]).x as int,
            edits[i].y as int,
            edits[i].z as int,
        ) == samples[i]
    &&& forall|v: UVec3|
        in_domain(before.res, v) && !known(edits, v) ==> #[trigger] after.at(
            v.x as int,
            v.y as int,
            v.z as int,
        ) == before.at(v.x as int, v.y as int, v.z as int)
    &&& forall|c: ChunkCoord| #[trigger]
        after.tiles.dom().contains(c) <==> before.tiles.dom().contains(c) || edits_touch(edits, c)
}

/// Some edit is of a voxel of the chunk.
pub open spec fn edits_touch(edits: Seq<VoxelEdit>, c: ChunkCoord) -> bool {
    exists|i: int|
        0 <= i < edits.len() && tile_of(
            (#[trigger] edits[i]).x as int,
            edits[i].y as int,
            edits[i].z as int,
        ) == c
}

/// The samples from before a stroke.
pub open spec fn pre_samples(edits: Seq<VoxelEdit>) -> Seq<u32> {
    Seq::new(edits.len(), |i: int| edits[i].pre)
}

fn write_samples(grid: &mut Grid, edits: &Vec<VoxelEdit>, samples: &Vec<u32>)
    requires
        old(grid).wf(),
        edits_in(edits@, old(grid)@.res),
        distinct_voxels(edits@),
        samples.len() == edits.len(),
    ensures
        final(grid).wf(),
        replaced(old(grid)@, final(grid)@, edits@, samples@),
{
    let ghost g = grid@;
    let mut i: usize = 0;
    while i < edits.len()
        invariant
            i <= edits.len(),
            samples.len() == edits.len(),
            grid.wf(),
            grid@.same_domain(g),
            edits_in(edits@, g.res),
            distinct_voxels(edits@),
            forall|k: int|
                0 <= k < i ==> grid@.at(
                    (#[trigger] edits@[k]).x as int,
                    edits@[k].y as int,
                    edits@[k].z as int,
                ) == samples@[k],
            forall|v: UVec3|
                in_domain(g.res, v) && !known(edits@, v) ==> #[trigger] grid@.at(
                    v.x as int,
                    v.y as int,
                    v.z as int,
                ) == g.at(v.x as int, v.y as int, v.z as int),
            forall|c: ChunkCoord| #[trigger]
                grid@.tiles.dom().contains(c) ==> g.tiles.dom().contains(c) || edits_touch(edits@, c),
            forall|c: ChunkCoord| g.tiles.dom().contains(c) ==> #[trigger] grid@.tiles.dom().contains(c),
            forall|k: int|
                0 <= k < i ==> grid@.tiles.dom().contains(
                    tile_of((#[trigger] edits@[k]).x as int, edits@[k].y as int, edits@[k].z as int),
                ),
        decreases edits.len() - i,
    {
        let e = edits[i];
        let ghost mid = grid@;
        assert(in_domain(g.res, edits@[i as int].voxel()));
        grid.set(e.x, e.y, e.z, samples[i]);
        proof {
            assert forall|k: int| 0 <= k < i + 1 implies grid@.at(
                (#[trigger] edits@[k]).x as int,
                edits@[k].y as int,
                edits@[k].z as int,
            ) == samples@[k] by {
                if k < i {
                    assert(edits@[k].voxel() != edits@[i as int].voxel());
                    assert(mid.at(edits@[k].x as int, edits@[k].y as int, edits@[k].z as int)
                        == samples@[k]);
                }
            }
            assert forall|v: UVec3| in_domain(g.res, v) && !known(edits@, v) implies #[trigger] grid@.at(
                v.x as int,
                v.y as int,
                v.z as int,
            ) == g.at(v.x as int, v.y as int, v.z as int) by {
                assert(edits@[i as int].voxel() != v);
                assert(mid.at(v.x as int, v.y as int, v.z as int) == g.at(
                    v.x as int,
                    v.y as int,
                    v.z as int,
                ));
            }
        }
        i = i + 1;
    }
    proof {
        assert forall|c: ChunkCoord| #[trigger]
            grid@.tiles.dom().contains(c) <==> g.tiles.dom().contains(c) || edits_touch(edits@, c) by {
            if edits_touch(edits@, c) {
                let k = choose|k: int|
                    0 <= k < edits.len() && tile_of(
                        (#[trigger] edits@[k]).x as int,
                        edits@[k].y as int,
                        edits@[k].z as int,
                    ) == c;
                assert(grid@.tiles.dom().contains(
                    tile_of(edits@[k].x as int, edits@[k].y as int, edits@[k].z as int),
                ));
            }
        }
    }
}

impl StrokeEntry {
    /// The entry fits a domain of resolution `res`.
    pub open spec fn wf(&self, res: UVec3) -> bool {
        &&& edits_in(self.edits@, res)
        &&& distinct_voxels(self.edits@)
        &&& self.post@.len() == self.edits@.len()
    }

    /// Put the samples from before the stroke back.
    pub fn apply_pre(&self, grid: &mut Grid)
        requires
            old(grid).wf(),
            self.wf(old(grid)@.res),
        ensures
            final(grid).wf(),
            replaced(old(grid)@, final(grid)@, self.edits@, pre_samples(self.edits@)),
    {
        let mut samples: Vec<u32> = Vec::new();
        let mut i: usize = 0;
        while i < self.edits.len()
            invariant
                i <= self.edits.len(),
                samples.len() == i,
                forall|k: int| 0 <= k < i ==> #[trigger] samples@[k] == self.edits@[k].pre,
            decreases self.edits.len() - i,
        {
            samples.push(self.edits[i].pre);
            i = i + 1;
        }
        assert(samples@ =~= pre_samples(self.edits@));
        write_samples(grid, &self.edits, &samples);
    }

    /// Put the samples from after the stroke back.
    pub fn apply_post(&self, grid: &mut Grid)
        requires
            old(grid).wf(),
            self.wf(old(grid)@.res),
        ensures
            final(grid).wf(),
            replaced(old(grid)@, final(grid)@, self.edits@, self.post@),
    {
        write_samples(grid, &self.edits, &self.post);
    }
}

/// The two grids have the same samples.
pub open spec fn same_samples(a: GridView, b: GridView) -> bool {
    &&& a.same_domain(b)
    &&& forall|v: UVec3|
        in_domain(a.res, v) ==> #[trigger] a.at(v.x as int, v.y as int, v.z as int) == b.at(
            v.x as int,
            v.y as int,
            v.z as int,
        )
}

/// The edits lead back from `now` to `start`: each has the sample that `start`
/// has, and where there is none the two agree.
pub open spec fn tracks(edits: Seq<VoxelEdit>, start: GridView, now: GridView) -> bool {
    &&& now.same_domain(start)
    &&& edits_in(edits, start.res)
    &&& forall|i: int|
        0 <= i < edits.len() ==> (#[trigger] edits[i]).pre == start.at(
            edits[i].x as int,
            edits[i].y as int,
            edits[i].z as int,
        )
    &&& forall|v: UVec3|
        in_domain(start.res, v) && !known(edits, v) ==> #[trigger] now.at(
            v.x as int,
            v.y as int,
            v.z as int,
        ) == start.at(v.x as int, v.y as int, v.z as int)
}

/// The journal lists every voxel that differs between `start` and `now`, with the
/// sample that `start` has.
pub open spec fn lists_changes(journal: Seq<VoxelEdit>, start: GridView, now: GridView) -> bool {
    &&& now.same_domain(start)
    &&& edits_in(journal, start.res)
    &&& forall|i: int|
        0 <= i < journal.len() ==> (#[trigger] journal[i]).pre == start.at(
            journal[i].x as int,
            journal[i].y as int,
            journal[i].z as int,
        )
    &&& forall|v: UVec3|
        in_domain(start.res, v) && !known(journal, v) ==> #[trigger] now.at(
            v.x as int,
            v.y as int,
            v.z as int,
        ) == start.at(v.x as int, v.y as int, v.z as int)
}

/// A recorder that has recorded nothing leads back from a grid to itself.
pub proof fn law_fresh_stroke_tracks(g: GridView)
    ensures
        tracks(Seq::empty(), g, g),
{
}

proof fn lemma_with_journal(edits: Seq<VoxelEdit>, journal: Seq<VoxelEdit>, n: nat)
    requires
        n <= journal.len(),
    ensures
        ({
            let all = with_journal(edits, journal, n);
            &&& edits.len() <= all.len()
            &&& all.subrange(0, edits.len() as int) == edits
            &&& forall|i: int|
                edits.len() <= i < all.len() ==> exists|j: int|
                    0 <= j < n && #[trigger] journal[j] == #[trigger] all[i] && !known(
                        edits,
                        all[i].voxel(),
                    )
            &&& forall|j: int| 0 <= j < n ==> known(all, (#[trigger] journal[j]).voxel())
        }),
    decreases n,
{
    if n == 0 {
        assert(edits.subrange(0, edits.len() as int) =~= edits);
    } else {
        let m = (n - 1) as nat;
        lemma_with_journal(edits, journal, m);
        let part = with_journal(edits, journal, m);
        let all = with_journal(edits, journal, n);
        let e = journal[n - 1];
        assert(all.subrange(0, edits.len() as int) =~= part.subrange(0, edits.len() as int));
        if !known(part, e.voxel()) {
            assert(all[part.len() as int] == e);
            assert(!known(edits, e.voxel())) by {
                if known(edits, e.voxel()) {
                    let i = choose|i: int|
                        0 <= i < edits.len() && (#[trigger] edits[i]).voxel() == e.voxel();
                    assert(part.subrange(0, edits.len() as int)[i] == edits[i]);
                    assert(part[i].voxel() == e.voxel());
                }
            }
        }
        assert forall|i: int| edits.len() <= i < all.len() implies exists|j: int|
            0 <= j < n && #[trigger] journal[j] == #[trigger] all[i] && !known(edits, all[i].voxel()) by {
            if i < part.len() {
                let j = choose|j: int|
                    0 <= j < m && #[trigger] journal[j] == part[i] && !known(edits, part[i].voxel());
                assert(journal[j] == all[i]);
            } else {
                assert(journal[n - 1] == all[i]);
            }
        }
        assert forall|j: int| 0 <= j < n implies known(all, (#[trigger] journal[j]).voxel()) by {
            if j < m {
                let i = choose|i: int|
                    0 <= i < part.len() && (#[trigger] part[i]).voxel() == journal[j].voxel();
                assert(all[i].voxel() == journal[j].voxel());
            } else if known(part, e.voxel()) {
            } else {
                assert(all[part.len() as int].voxel() == e.voxel());
            }
        }
    }
}

/// A journal that lists every change leads back to the start.
pub proof fn law_journal_tracks(journal: Seq<VoxelEdit>, start: GridView, now: GridView)
    requires
        lists_changes(journal, start, now),
    ensures
        tracks(with_journal(Seq::empty(), journal, journal.len()), start, now),
{
    let none = Seq::<VoxelEdit>::empty();
    let all = with_journal(none, journal, journal.len());
    lemma_with_journal(none, journal, journal.len());
    assert forall|i: int| 0 <= i < all.len() implies exists|j: int|
        0 <= j < journal.len() && #[trigger] journal[j] == #[trigger] all[i] by {
        let j = choose|j: int|
            0 <= j < journal.len() && #[trigger] journal[j] == all[i] && !known(none, all[i].voxel());
        assert(journal[j] == all[i]);
    }
    assert forall|v: UVec3| in_domain(start.res, v) && !known(all, v) implies #[trigger] now.at(
        v.x as int,
        v.y as int,
        v.z as int,
    ) == start.at(v.x as int, v.y as int, v.z as int) by {
        if known(journal, v) {
            let j = choose|j: int| 0 <= j < journal.len() && (#[trigger] journal[j]).voxel() == v;
            assert(known(all, journal[j].voxel()));
        }
    }
}

/// A stroke goes on: when a tool takes the grid from `before` to `after` and its
/// journal has every voxel that it changed, then recording the journal keeps the
/// edits leading back to the start of the stroke.
pub proof fn law_recording_keeps_track(
    edits: Seq<VoxelEdit>,
    start: GridView,
    before: GridView,
    after: GridView,
    journal: Seq<VoxelEdit>,
    changed: spec_fn(UVec3) -> bool,
)
    requires
        tracks(edits, start, before),
        after.same_domain(before),
        records(journal, before, changed),
        forall|v: UVec3|
            in_domain(before.res, v) && !changed(v) ==> #[trigger] after.at(
                v.x as int,
                v.y as int,
                v.z as int,
            ) == before.at(v.x as int, v.y as int, v.z as int),
    ensures
        tracks(with_journal(edits, journal, journal.len()), start, after),
{
    let n = journal.len();
    lemma_with_journal(edits, journal, n);
    let all = with_journal(edits, journal, n);
    assert forall|i: int| 0 <= i < all.len() implies in_domain(start.res, (#[trigger] all[i]).voxel())
        && all[i].pre == start.at(all[i].x as int, all[i].y as int, all[i].z as int) by {
        if i < edits.len() {
            assert(all.subrange(0, edits.len() as int)[i] == edits[i]);
            assert(all[i] == edits[i]);
        } else {
            let j = choose|j: int|
                0 <= j < n && #[trigger] journal[j] == all[i] && !known(edits, all[i].voxel());
            assert(in_domain(before.res, journal[j].voxel()));
            let v = all[i].voxel();
            assert(before.at(v.x as int, v.y as int, v.z as int) == start.at(
                v.x as int,
                v.y as int,
                v.z as int,
            ));
        }
    }
    assert forall|v: UVec3| in_domain(start.res, v) && !known(all, v) implies #[trigger] after.at(
        v.x as int,
        v.y as int,
        v.z as int,
    ) == start.at(v.x as int, v.y as int, v.z as int) by {
        if known(edits, v) {
            let i = choose|i: int| 0 <= i < edits.len() && (#[trigger] edits[i]).voxel() == v;
            assert(all.subrange(0, edits.len() as int)[i] == edits[i]);
            assert(all[i].voxel() == v);
        }
        if changed(v) {
            let j = choose|j: int| 0 <= j < journal.len() && (#[trigger] journal[j]).voxel() == v;
            assert(known(all, journal[j].voxel()));
        }
        assert(before.at(v.x as int, v.y as int, v.z as int) == start.at(
            v.x as int,
            v.y as int,
            v.z as int,
        ));
    }
}

/// A stroke goes on with a stamp whose edits lead from the clay after it back to the
/// clay before it: recording them keeps the stroke leading back to its start.
pub proof fn law_stamp_joins_stroke(
    edits: Seq<VoxelEdit>,
    start: GridView,
    before: GridView,
    after: GridView,
    stamp: Seq<VoxelEdit>,
)
    requires
        tracks(edits, start, before),
        tracks(stamp, before, after),
    ensures
        tracks(with_journal(edits, stamp, stamp.len()), start, after),
{
    let n = stamp.len();
    lemma_with_journal(edits, stamp, n);
    let all = with_journal(edits, stamp, n);
    assert forall|i: int| 0 <= i < all.len() implies in_domain(start.res, (#[trigger] all[i]).voxel())
        && all[i].pre == start.at(all[i].x as int, all[i].y as int, all[i].z as int) by {
        if i < edits.len() {
            assert(all.subrange(0, edits.len() as int)[i] == edits[i]);
            assert(all[i] == edits[i]);
        } else {
            let j = choose|j: int|
                0 <= j < n && #[trigger] stamp[j] == all[i] && !known(edits, all[i].voxel());
            assert(in_domain(before.res, stamp[j].voxel()));
            let v = all[i].voxel();
            assert(before.at(v.x as int, v.y as int, v.z as int) == start.at(
                v.x as int,
                v.y as int,
                v.z as int,
            ));
        }
    }
    assert forall|v: UVec3| in_domain(start.res, v) && !known(all, v) implies #[trigger] after.at(
        v.x as int,
        v.y as int,
        v.z as int,
    ) == start.at(v.x as int, v.y as int, v.z as int) by {
        if known(edits, v) {
            let i = choose|i: int| 0 <= i < edits.len() && (#[trigger] edits[i]).voxel() == v;
            assert(all.subrange(0, edits.len() as int)[i] == edits[i]);
            assert(all[i].voxel() == v);
        }
        if known(stamp, v) {
            let j = choose|j: int| 0 <= j < n && (#[trigger] stamp[j]).voxel() == v;
            assert(known(all, stamp[j].voxel()));
        }
        assert(before.at(v.x as int, v.y as int, v.z as int) == start.at(
            v.x as int,
            v.y as int,
            v.z as int,
        ));
    }
}

/// Recording a journal makes its voxels known, and no others.
pub proof fn lemma_journal_known(edits: Seq<VoxelEdit>, journal: Seq<VoxelEdit>, v: UVec3)
    ensures
        known(with_journal(edits, journal, journal.len()), v) <==> known(edits, v) || known(
            journal,
            v,
        ),
{
    let n = journal.len();
    lemma_with_journal(edits, journal, n);
    let all = with_journal(edits, journal, n);
    if known(edits, v) {
        let i = choose|i: int| 0 <= i < edits.len() && (#[trigger] edits[i]).voxel() == v;
        assert(all.subrange(0, edits.len() as int)[i] == edits[i]);
        assert(all[i].voxel() == v);
    }
    if known(journal, v) {
        let j = choose|j: int| 0 <= j < n && (#[trigger] journal[j]).voxel() == v;
        assert(known(all, journal[j].voxel()));
    }
    if known(all, v) {
        let i = choose|i: int| 0 <= i < all.len() && (#[trigger] all[i]).voxel() == v;
        if i < edits.len() {
            assert(all.subrange(0, edits.len() as int)[i] == edits[i]);
            assert(edits[i].voxel() == v);
        } else {
            let j = choose|j: int|
                0 <= j < n && #[trigger] journal[j] == all[i] && !known(edits, all[i].voxel());
            assert(journal[j].voxel() == v);
        }
    }
}

/// Undo: putting the recorded samples back gives the samples from before the
/// stroke.
pub proof fn law_undo_restores_start(
    edits: Seq<VoxelEdit>,
    start: GridView,
    end: GridView,
    undone: GridView,
)
    requires
        tracks(edits, start, end),
        replaced(end, undone, edits, pre_samples(edits)),
    ensures
        same_samples(undone, start),
{
    assert forall|v: UVec3| in_domain(undone.res, v) implies #[trigger] undone.at(
        v.x as int,
        v.y as int,
        v.z as int,
    ) == start.at(v.x as int, v.y as int, v.z as int) by {
        if known(edits, v) {
            let i = choose|i: int| 0 <= i < edits.len() && (#[trigger] edits[i]).voxel() == v;
            assert(undone.at(edits[i].x as int, edits[i].y as int, edits[i].z as int) == pre_samples(
                edits,
            )[i]);
        } else {
            assert(end.at(v.x as int, v.y as int, v.z as int) == start.at(
                v.x as int,
                v.y as int,
                v.z as int,
            ));
        }
    }
}

/// Redo: putting the samples from after the stroke into a grid with the samples
/// from before it gives the samples from after it.
pub proof fn law_redo_restores_end(
    edits: Seq<VoxelEdit>,
    post: Seq<u32>,
    start: GridView,
    end: GridView,
    undone: GridView,
    redone: GridView,
)
    requires
        tracks(edits, start, end),
        post.len() == edits.len(),
        forall|i: int|
            0 <= i < post.len() ==> #[trigger] post[i] == ({
                let v = edits[i].voxel();
                end.at(v.x as int, v.y as int, v.z as int)
            }),
        same_samples(undone, start),
        replaced(undone, redone, edits, post),
    ensures
        same_samples(redone, end),
{
    assert forall|v: UVec3| in_domain(redone.res, v) implies #[trigger] redone.at(
        v.x as int,
        v.y as int,
        v.z as int,
    ) == end.at(v.x as int, v.y as int, v.z as int) by {
        if known(edits, v) {
            let i = choose|i: int| 0 <= i < edits.len() && (#[trigger] edits[i]).voxel() == v;
            assert(redone.at(edits[i].x as int, edits[i].y as int, edits[i].z as int) == post[i]);
        } else {
            assert(undone.at(v.x as int, v.y as int, v.z as int) == start.at(
                v.x as int,
                v.y as int,
                v.z as int,
            ));
            assert(end.at(v.x as int, v.y as int, v.z as int) == start.at(
                v.x as int,
                v.y as int,
                v.z as int,
            ));
        }
    }
}

/// Every voxel has a key of its own.
pub proof fn law_each_voxel_has_its_key(a: UVec3, b: UVec3)
    ensures
        voxel_key(a) == voxel_key(b) <==> a == b,
{
    if voxel_key(a) == voxel_key(b) {
        lemma_voxel_key(a, b);
    }
}

/// Recording takes in every voxel of a journal and forgets none; of a voxel that is written to
/// more than once, the first record is kept.
pub proof fn law_first_record_is_kept(edits: Seq<VoxelEdit>, e: VoxelEdit, v: UVec3)
    ensures
        known(with_edit(edits, e), v) <==> known(edits, v) || v == e.voxel(),
        forall|i: int| 0 <= i < edits.len() ==> #[trigger] with_edit(edits, e)[i] == edits[i],
        with_edit(edits, e).len() == edits.len() + (if known(edits, e.voxel()) {
            0nat
        } else {
            1nat
        }),
{
    let now = with_edit(edits, e);
    if known(edits, v) {
        let i = choose|i: int| 0 <= i < edits.len() && (#[trigger] edits[i]).voxel() == v;
        assert(now[i].voxel() == v);
    }
    if !known(edits, e.voxel()) {
        assert(now[edits.len() as int] == e);
        if known(now, v) {
            let i = choose|i: int| 0 <= i < now.len() && (#[trigger] now[i]).voxel() == v;
            if i < edits.len() {
                assert(edits[i].voxel() == v);
            }
        }
    }
}

} // verus!
