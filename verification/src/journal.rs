//! Journals of voxel edits.

use crate::components::in_domain;
use crate::dirty::DirtyRegion;
use crate::grid::GridView;
use crate::region::{box_cell, box_count, box_number, in_box, lemma_box_cell, lemma_box_number, lemma_number_order, scans_before, span};
use crate::snapshot::box_within;
use crate::vec3::{greatest, least, UVec3};
use vstd::prelude::*;

verus! {

/// A voxel that was written to, with the sample it held before.
#[derive(Copy, Clone, Debug, PartialEq, Eq, Structural)]
pub struct VoxelEdit {
    pub x: u32,
    pub y: u32,
    pub z: u32,
    pub pre: u32,
}

impl VoxelEdit {
    /// The voxel of this edit.
    pub open spec fn voxel(self) -> UVec3 {
        UVec3 { x: self.x, y: self.y, z: self.z }
    }
}

/// Position of a voxel in the scan order of the domain.
pub open spec fn scan_number(res: UVec3, v: UVec3) -> int {
    box_number(UVec3::zero(), res, v.x as int, v.y as int, v.z as int)
}

/// `edits` lists each voxel of `g` that `changed` holds of, once, in scan
/// order, with the sample that `g` has there.
pub open spec fn records(edits: Seq<VoxelEdit>, g: GridView, changed: spec_fn(UVec3) -> bool) -> bool {
    &&& forall|i: int|
        0 <= i < edits.len() ==> {
            &&& in_domain(g.res, (#[trigger] edits[i]).voxel())
            &&& changed(edits[i].voxel())
            &&& edits[i].pre == g.at(edits[i].x as int, edits[i].y as int, edits[i].z as int)
        }
    &&& forall|i: int, j: int|
        0 <= i < j < edits.len() ==> scan_number(g.res, (#[trigger] edits[i]).voxel()) < scan_number(
            g.res,
            (#[trigger] edits[j]).voxel(),
        )
    &&& forall|v: UVec3|
        in_domain(g.res, v) && #[trigger] changed(v) ==> exists|i: int|
            0 <= i < edits.len() && (#[trigger] edits[i]).voxel() == v
}

/// `r` is the smallest box that holds every voxel of the edits; there is none
/// for no edits.
pub open spec fn spans_edits(edits: Seq<VoxelEdit>, r: Option<DirtyRegion>) -> bool {
    match r {
        None => edits.len() == 0,
        Some(b) => {
            &&& forall|i: int|
                0 <= i < edits.len() ==> b.has(
                    (#[trigger] edits[i]).x as int,
                    edits[i].y as int,
                    edits[i].z as int,
                )
            &&& exists|i: int| 0 <= i < edits.len() && (#[trigger] edits[i]).x == b.min.x
            &&& exists|i: int| 0 <= i < edits.len() && (#[trigger] edits[i]).y == b.min.y
            &&& exists|i: int| 0 <= i < edits.len() && (#[trigger] edits[i]).z == b.min.z
            &&& exists|i: int| 0 <= i < edits.len() && (#[trigger] edits[i]).x + 1 == b.max.x
            &&& exists|i: int| 0 <= i < edits.len() && (#[trigger] edits[i]).y + 1 == b.max.y
            &&& exists|i: int| 0 <= i < edits.len() && (#[trigger] edits[i]).z + 1 == b.max.z
        },
    }
}

/// Grow the box of the edits by one more voxel.
pub(crate) fn expand(r: Option<DirtyRegion>, x: u32, y: u32, z: u32, Ghost(edits): Ghost<Seq<VoxelEdit>>, Ghost(
    e,
): Ghost<VoxelEdit>) -> (out: Option<DirtyRegion>)
    requires
        x < u32::MAX,
        y < u32::MAX,
        z < u32::MAX,
        spans_edits(edits, r),
        e.voxel() == (UVec3 { x, y, z }),
    ensures
        spans_edits(edits.push(e), out),
{
    let ghost new = edits.push(e);
    match r {
        None => {
            assert(new[0] == e);
            Some(
                DirtyRegion {
                    min: UVec3 { x, y, z },
                    max: UVec3 { x: x + 1, y: y + 1, z: z + 1 },
                },
            )
        },
        Some(b) => {
            let min = UVec3 { x: least(b.min.x, x), y: least(b.min.y, y), z: least(b.min.z, z) };
            let max = UVec3 {
                x: greatest(b.max.x, x + 1),
                y: greatest(b.max.y, y + 1),
                z: greatest(b.max.z, z + 1),
            };
            proof {
                let n = edits.len() as int;
                assert(new[n] == e);
                let i1 = choose|i: int| 0 <= i < edits.len() && (#[trigger] edits[i]).x == b.min.x;
                let i2 = choose|i: int| 0 <= i < edits.len() && (#[trigger] edits[i]).y == b.min.y;
                let i3 = choose|i: int| 0 <= i < edits.len() && (#[trigger] edits[i]).z == b.min.z;
                let i4 = choose|i: int| 0 <= i < edits.len() && (#[trigger] edits[i]).x + 1 == b.max.x;
                let i5 = choose|i: int| 0 <= i < edits.len() && (#[trigger] edits[i]).y + 1 == b.max.y;
                let i6 = choose|i: int| 0 <= i < edits.len() && (#[trigger] edits[i]).z + 1 == b.max.z;
                assert(new[i1] == edits[i1]);
                assert(new[i2] == edits[i2]);
                assert(new[i3] == edits[i3]);
                assert(new[i4] == edits[i4]);
                assert(new[i5] == edits[i5]);
                assert(new[i6] == edits[i6]);
                assert forall|i: int| 0 <= i < new.len() implies in_box(
                    min,
                    max,
                    (#[trigger] new[i]).x as int,
                    new[i].y as int,
                    new[i].z as int,
                ) by {
                    if i < n {
                        assert(new[i] == edits[i]);
                        assert(b.has(edits[i].x as int, edits[i].y as int, edits[i].z as int));
                    }
                }
            }
            Some(DirtyRegion { min, max })
        },
    }
}

/// The edits so far: the voxels among the first `k` cells of the box that `changed`
/// holds of.
pub open spec fn records_part(
    edits: Seq<VoxelEdit>,
    g: GridView,
    changed: spec_fn(UVec3) -> bool,
    lo: UVec3,
    hi: UVec3,
    k: int,
) -> bool {
    &&& forall|i: int|
        0 <= i < edits.len() ==> {
            let e = #[trigger] edits[i];
            &&& in_domain(g.res, e.voxel())
            &&& in_box(lo, hi, e.x as int, e.y as int, e.z as int)
            &&& box_number(lo, hi, e.x as int, e.y as int, e.z as int) < k
            &&& changed(e.voxel())
            &&& e.pre == g.at(e.x as int, e.y as int, e.z as int)
        }
    &&& forall|i: int, j: int|
        0 <= i < j < edits.len() ==> scan_number(g.res, (#[trigger] edits[i]).voxel()) < scan_number(
            g.res,
            (#[trigger] edits[j]).voxel(),
        )
    &&& forall|v: UVec3|
        in_box(lo, hi, v.x as int, v.y as int, v.z as int) && box_number(
            lo,
            hi,
            v.x as int,
            v.y as int,
            v.z as int,
        ) < k && #[trigger] changed(v) ==> exists|i: int|
            0 <= i < edits.len() && (#[trigger] edits[i]).voxel() == v
}

/// Going past cell number `k` of the box, with `e` as its edit if it changed.
pub proof fn lemma_records_step(
    edits: Seq<VoxelEdit>,
    g: GridView,
    changed: spec_fn(UVec3) -> bool,
    lo: UVec3,
    hi: UVec3,
    k: int,
    e: VoxelEdit,
)
    requires
        records_part(edits, g, changed, lo, hi, k),
        box_within(lo, hi, g.res),
        0 <= k < box_count(lo, hi),
        e.voxel() == box_cell(lo, hi, k),
        e.pre == g.at(e.x as int, e.y as int, e.z as int),
    ensures
        changed(e.voxel()) ==> records_part(edits.push(e), g, changed, lo, hi, k + 1),
        !changed(e.voxel()) ==> records_part(edits, g, changed, lo, hi, k + 1),
{
    lemma_box_cell(lo, hi, k);
    let u = e.voxel();
    let all = if changed(u) { edits.push(e) } else { edits };
    assert forall|v: UVec3|
        in_box(lo, hi, v.x as int, v.y as int, v.z as int) && box_number(
            lo,
            hi,
            v.x as int,
            v.y as int,
            v.z as int,
        ) < k + 1 && #[trigger] changed(v) implies exists|i: int|
        0 <= i < all.len() && (#[trigger] all[i]).voxel() == v by {
        if box_number(lo, hi, v.x as int, v.y as int, v.z as int) == k {
            lemma_box_number(lo, hi, v.x as int, v.y as int, v.z as int);
            assert(v == u);
            assert(all[edits.len() as int].voxel() == v);
        } else {
            let i = choose|i: int| 0 <= i < edits.len() && (#[trigger] edits[i]).voxel() == v;
            assert(all[i].voxel() == v);
        }
    }
    if changed(u) {
        assert forall|i: int, j: int| 0 <= i < j < all.len() implies scan_number(
            g.res,
            (#[trigger] all[i]).voxel(),
        ) < scan_number(g.res, (#[trigger] all[j]).voxel()) by {
            if j == edits.len() {
                let w = edits[i];
                assert(all[i] == w && all[j] == e);
                lemma_number_order(
                    lo,
                    hi,
                    w.x as int,
                    w.y as int,
                    w.z as int,
                    e.x as int,
                    e.y as int,
                    e.z as int,
                );
                lemma_number_order(
                    UVec3::zero(),
                    g.res,
                    w.x as int,
                    w.y as int,
                    w.z as int,
                    e.x as int,
                    e.y as int,
                    e.z as int,
                );
            } else {
                assert(all[i] == edits[i] && all[j] == edits[j]);
            }
        }
    }
}

/// The box has no more cells than the domain.
pub proof fn lemma_box_fits(lo: UVec3, hi: UVec3, res: UVec3)
    requires
        box_within(lo, hi, res),
    ensures
        0 <= box_count(lo, hi) <= res.volume(),
{
    let (a, b, c) = (span(lo.x, hi.x), span(lo.y, hi.y), span(lo.z, hi.z));
    let (p, q, r) = (res.x as int, res.y as int, res.z as int);
    assert(0 <= a * b <= p * q) by (nonlinear_arith)
        requires
            0 <= a <= p,
            0 <= b <= q,
    ;
    assert(0 <= (a * b) * c <= (p * q) * r) by (nonlinear_arith)
        requires
            0 <= a * b <= p * q,
            0 <= c <= r,
    ;
}

/// The region of the edits is the smallest one: it has every edit, and any box that has every
/// edit has the whole region.
pub proof fn law_region_is_the_smallest(edits: Seq<VoxelEdit>, b: DirtyRegion, lo: UVec3, hi: UVec3)
    requires
        spans_edits(edits, Some(b)),
        forall|i: int|
            0 <= i < edits.len() ==> lo.x <= (#[trigger] edits[i]).x < hi.x && lo.y <= edits[i].y < hi.y
                && lo.z <= edits[i].z < hi.z,
    ensures
        lo.x <= b.min.x && b.max.x <= hi.x,
        lo.y <= b.min.y && b.max.y <= hi.y,
        lo.z <= b.min.z && b.max.z <= hi.z,
        forall|i: int|
            0 <= i < edits.len() ==> b.min.x <= (#[trigger] edits[i]).x < b.max.x && b.min.y <= edits[i].y
                < b.max.y && b.min.z <= edits[i].z < b.max.z,
        edits.len() > 0,
        spans_edits(edits, None) <==> edits.len() == 0,
{
}

/// A journal lists the changed voxels in scan order: each of them once, with the sample that was
/// there, and no other.
pub proof fn law_journal_lists_each_change_once(
    edits: Seq<VoxelEdit>,
    g: GridView,
    changed: spec_fn(UVec3) -> bool,
    v: UVec3,
)
    requires
        records(edits, g, changed),
        g.res.has(v.x as int, v.y as int, v.z as int),
    ensures
        changed(v) <==> exists|i: int|
            0 <= i < edits.len() && (#[trigger] edits[i]).x == v.x && edits[i].y == v.y && edits[i].z
                == v.z,
        forall|i: int, j: int|
            0 <= i < j < edits.len() ==> scans_before(
                (#[trigger] edits[i]).x as int,
                edits[i].y as int,
                edits[i].z as int,
                (#[trigger] edits[j]).x as int,
                edits[j].y as int,
                edits[j].z as int,
            ),
        forall|i: int|
            0 <= i < edits.len() ==> (#[trigger] edits[i]).pre == g.at(
                edits[i].x as int,
                edits[i].y as int,
                edits[i].z as int,
            ),
{
    if changed(v) {
        let i = choose|i: int| 0 <= i < edits.len() && (#[trigger] edits[i]).voxel() == v;
        assert(edits[i].x == v.x);
    }
    if exists|i: int|
        0 <= i < edits.len() && (#[trigger] edits[i]).x == v.x && edits[i].y == v.y && edits[i].z == v.z {
        let i = choose|i: int|
            0 <= i < edits.len() && (#[trigger] edits[i]).x == v.x && edits[i].y == v.y && edits[i].z
                == v.z;
        assert(edits[i].voxel() == v);
    }
    assert forall|i: int, j: int| 0 <= i < j < edits.len() implies scans_before(
        (#[trigger] edits[i]).x as int,
        edits[i].y as int,
        edits[i].z as int,
        (#[trigger] edits[j]).x as int,
        edits[j].y as int,
        edits[j].z as int,
    ) by {
        let (a, b) = (edits[i].voxel(), edits[j].voxel());
        assert(scan_number(g.res, a) < scan_number(g.res, b));
        lemma_number_order(
            UVec3::zero(),
            g.res,
            a.x as int,
            a.y as int,
            a.z as int,
            b.x as int,
            b.y as int,
            b.z as int,
        );
    }
}

} // verus!
