//! The sculpting tools, as stamps on a grid.
//!
//! Each tool hands over, voxel by voxel, how far its surface is; here that
//! becomes a change of the workpiece.

use crate::dirty::DirtyRegion;
use crate::grid::{Grid, GridView};
use crate::journal::{spans_edits, VoxelEdit};
use crate::region::{in_box, lemma_box_number};
use crate::sample::{less, lt};
use crate::snapshot::box_within;
use crate::stamp::{apply_field, built_up, cut_out, laid_over, law_replace_lays_over, law_subtract_cuts_out, law_unite_builds_up, stamp_journalled, stamped, Change, Combine, Field};
use crate::vec3::{least, min_u32, IVec3, UVec3};
use vstd::math::abs;
use vstd::prelude::*;

verus! {

/// Which way a brush works.
#[derive(Copy, Clone, Debug, PartialEq, Eq, Structural)]
pub enum BrushMode {
    /// Carve material away.
    Press,
    /// Add material.
    Pull,
}

impl BrushMode {
    /// How a brush of this mode combines its shape with the workpiece.
    pub open spec fn combines(self) -> Combine {
        match self {
            BrushMode::Press => Combine::Subtract,
            BrushMode::Pull => Combine::Unite,
        }
    }

    /// How a brush of this mode combines its shape with the workpiece.
    pub fn combination(self) -> (r: Combine)
        ensures
            r == self.combines(),
    {
        match self {
            BrushMode::Press => Combine::Subtract,
            BrushMode::Pull => Combine::Unite,
        }
    }
}

/// The box has a voxel.
pub open spec fn has_voxels(lo: UVec3, hi: UVec3) -> bool {
    lo.x < hi.x && lo.y < hi.y && lo.z < hi.z
}

/// First voxel of a footprint along an axis of `n` voxels.
pub open spec fn footprint_start(floor: u32, n: u32) -> u32 {
    min_u32(floor, (n - 1) as u32)
}

/// End of a footprint along an axis of `n` voxels.
pub open spec fn footprint_end(ceil: i32, n: u32) -> u32 {
    min_u32(
        if ceil < 0 {
            0
        } else {
            ceil as u32
        },
        n,
    )
}

fn axis_end(ceil: i32, n: u32) -> (r: u32)
    ensures
        r == footprint_end(ceil, n),
{
    let c: u32 = if ceil < 0 {
        0
    } else {
        ceil as u32
    };
    least(c, n)
}

/// The voxels of the domain that a tool may reach, given where its bounding box
/// starts and ends in voxels.
pub fn clamp_aabb(floors: UVec3, ceils: IVec3, res: UVec3) -> (r: Option<(UVec3, UVec3)>)
    requires
        res.x > 0,
        res.y > 0,
        res.z > 0,
    ensures
        ({
            let lo = UVec3 {
                x: footprint_start(floors.x, res.x),
                y: footprint_start(floors.y, res.y),
                z: footprint_start(floors.z, res.z),
            };
            let hi = UVec3 {
                x: footprint_end(ceils.x, res.x),
                y: footprint_end(ceils.y, res.y),
                z: footprint_end(ceils.z, res.z),
            };
            r == if has_voxels(lo, hi) {
                Some((lo, hi))
            } else {
                None
            }
        }),
        r matches Some(b) ==> box_within(b.0, b.1, res),
{
    let lo = UVec3 {
        x: least(floors.x, res.x - 1),
        y: least(floors.y, res.y - 1),
        z: least(floors.z, res.z - 1),
    };
    let hi = UVec3 {
        x: axis_end(ceils.x, res.x),
        y: axis_end(ceils.y, res.y),
        z: axis_end(ceils.z, res.z),
    };
    if lo.x < hi.x && lo.y < hi.y && lo.z < hi.z {
        Some((lo, hi))
    } else {
        None
    }
}

/// A coordinate `pad` earlier, but not below zero.
pub open spec fn padded_start(v: u32, pad: u32) -> u32 {
    if v >= pad {
        (v - pad) as u32
    } else {
        0
    }
}

/// A coordinate `pad` later, but not past `n`.
pub open spec fn padded_end(v: u32, pad: u32, n: u32) -> u32 {
    if v + pad <= n {
        (v + pad) as u32
    } else {
        n
    }
}

fn earlier(v: u32, pad: u32) -> (r: u32)
    ensures
        r == padded_start(v, pad),
{
    if v >= pad {
        v - pad
    } else {
        0
    }
}

fn later(v: u32, pad: u32, n: u32) -> (r: u32)
    ensures
        r == padded_end(v, pad, n),
{
    if v as u64 + pad as u64 <= n as u64 {
        v + pad
    } else {
        n
    }
}

/// First voxel of a box that grew by `pad`.
pub open spec fn grown_lo(lo: UVec3, pad: u32) -> UVec3 {
    UVec3 { x: padded_start(lo.x, pad), y: padded_start(lo.y, pad), z: padded_start(lo.z, pad) }
}

/// End of a box that grew by `pad`, clipped to the domain.
pub open spec fn grown_hi(hi: UVec3, pad: u32, res: UVec3) -> UVec3 {
    UVec3 {
        x: padded_end(hi.x, pad, res.x),
        y: padded_end(hi.y, pad, res.y),
        z: padded_end(hi.z, pad, res.z),
    }
}

/// Grow a box by `pad` voxels on every side, clipped to the domain.
pub fn expand_region(res: UVec3, min: UVec3, max: UVec3, pad: u32) -> (r: (UVec3, UVec3))
    ensures
        r.0 == grown_lo(min, pad),
        r.1 == grown_hi(max, pad, res),
        box_within(r.0, r.1, res),
{
    (
        UVec3 { x: earlier(min.x, pad), y: earlier(min.y, pad), z: earlier(min.z, pad) },
        UVec3 {
            x: later(max.x, pad, res.x),
            y: later(max.y, pad, res.y),
            z: later(max.z, pad, res.z),
        },
    )
}

/// The dirty box of a tool that reports its whole footprint.
pub open spec fn footprint_of(f: Field) -> Option<DirtyRegion> {
    if has_voxels(f.lo, f.hi) {
        Some(DirtyRegion { min: f.lo, max: f.hi })
    } else {
        None
    }
}

fn footprint(field: &Field) -> (r: Option<DirtyRegion>)
    ensures
        r == footprint_of(*field),
{
    if field.lo.x < field.hi.x && field.lo.y < field.hi.y && field.lo.z < field.hi.z {
        Some(DirtyRegion { min: field.lo, max: field.hi })
    } else {
        None
    }
}

/// One stamp of a spherical brush without displacement. The field offers the
/// distance to the sphere.
pub fn apply_sphere_brush_with_callback(
    grid: &mut Grid,
    mode: BrushMode,
    field: &Field,
    journal: &mut Vec<VoxelEdit>,
) -> (r: Option<DirtyRegion>)
    requires
        old(grid).wf(),
        field.wf(),
        box_within(field.lo, field.hi, old(grid)@.res),
    ensures
        final(grid).wf(),
        stamped(old(grid)@, final(grid)@, *field, mode.combines(), Change::Number),
        stamp_journalled(
            old(grid)@,
            *field,
            mode.combines(),
            Change::Number,
            old(journal)@,
            final(journal)@,
        ),
        r == footprint_of(*field),
        match mode {
            BrushMode::Press => cut_out(old(grid)@, final(grid)@, *field),
            BrushMode::Pull => built_up(old(grid)@, final(grid)@, *field),
        },
{
    let ghost g = grid@;
    apply_field(grid, field, mode.combination(), Change::Number, journal);
    proof {
        match mode {
            BrushMode::Press => law_subtract_cuts_out(g, grid@, *field),
            BrushMode::Pull => law_unite_builds_up(g, grid@, *field),
        }
    }
    footprint(field)
}

/// One stamp of a spherical brush, without a journal.
pub fn apply_sphere_brush(grid: &mut Grid, mode: BrushMode, field: &Field) -> (r: Option<DirtyRegion>)
    requires
        old(grid).wf(),
        field.wf(),
        box_within(field.lo, field.hi, old(grid)@.res),
    ensures
        final(grid).wf(),
        stamped(old(grid)@, final(grid)@, *field, mode.combines(), Change::Number),
        r == footprint_of(*field),
        match mode {
            BrushMode::Press => cut_out(old(grid)@, final(grid)@, *field),
            BrushMode::Pull => built_up(old(grid)@, final(grid)@, *field),
        },
{
    let mut journal: Vec<VoxelEdit> = Vec::new();
    apply_sphere_brush_with_callback(grid, mode, field, &mut journal)
}

/// One stamp of a brush that displaces what it presses away. The field offers
/// whole samples: the sphere taken out, and around it the bulge.
pub fn apply_displacing_brush(
    grid: &mut Grid,
    field: &Field,
    journal: &mut Vec<VoxelEdit>,
) -> (r: Option<DirtyRegion>)
    requires
        old(grid).wf(),
        field.wf(),
        box_within(field.lo, field.hi, old(grid)@.res),
    ensures
        final(grid).wf(),
        stamped(old(grid)@, final(grid)@, *field, Combine::Replace, Change::Number),
        stamp_journalled(
            old(grid)@,
            *field,
            Combine::Replace,
            Change::Number,
            old(journal)@,
            final(journal)@,
        ),
        r == footprint_of(*field),
        laid_over(old(grid)@, final(grid)@, *field),
{
    let ghost g = grid@;
    apply_field(grid, field, Combine::Replace, Change::Number, journal);
    proof {
        law_replace_lays_over(g, grid@, *field);
    }
    footprint(field)
}

/// One stamp of a cookie cutter. The field offers the distance to the extruded
/// profile.
pub fn apply_cookie_cutter_with_callback(
    grid: &mut Grid,
    field: &Field,
    journal: &mut Vec<VoxelEdit>,
) -> (r: Option<DirtyRegion>)
    requires
        old(grid).wf(),
        field.wf(),
        box_within(field.lo, field.hi, old(grid)@.res),
    ensures
        final(grid).wf(),
        stamped(old(grid)@, final(grid)@, *field, Combine::Subtract, Change::Number),
        stamp_journalled(
            old(grid)@,
            *field,
            Combine::Subtract,
            Change::Number,
            old(journal)@,
            final(journal)@,
        ),
        r == footprint_of(*field),
        cut_out(old(grid)@, final(grid)@, *field),
{
    let ghost g = grid@;
    apply_field(grid, field, Combine::Subtract, Change::Number, journal);
    proof {
        law_subtract_cuts_out(g, grid@, *field);
    }
    footprint(field)
}

/// One stamp of a cookie cutter, without a journal.
pub fn apply_cookie_cutter(grid: &mut Grid, field: &Field) -> (r: Option<DirtyRegion>)
    requires
        old(grid).wf(),
        field.wf(),
        box_within(field.lo, field.hi, old(grid)@.res),
    ensures
        final(grid).wf(),
        stamped(old(grid)@, final(grid)@, *field, Combine::Subtract, Change::Number),
        r == footprint_of(*field),
        cut_out(old(grid)@, final(grid)@, *field),
{
    let mut journal: Vec<VoxelEdit> = Vec::new();
    apply_cookie_cutter_with_callback(grid, field, &mut journal)
}

/// Insert a primitive. The field offers the distance to its surface.
pub fn apply_primitive_with_callback(
    grid: &mut Grid,
    field: &Field,
    journal: &mut Vec<VoxelEdit>,
) -> (r: Option<DirtyRegion>)
    requires
        old(grid).wf(),
        field.wf(),
        box_within(field.lo, field.hi, old(grid)@.res),
    ensures
        final(grid).wf(),
        stamped(old(grid)@, final(grid)@, *field, Combine::Unite, Change::Number),
        stamp_journalled(
            old(grid)@,
            *field,
            Combine::Unite,
            Change::Number,
            old(journal)@,
            final(journal)@,
        ),
        r == footprint_of(*field),
        built_up(old(grid)@, final(grid)@, *field),
{
    let ghost g = grid@;
    apply_field(grid, field, Combine::Unite, Change::Number, journal);
    proof {
        law_unite_builds_up(g, grid@, *field);
    }
    footprint(field)
}

/// Insert a primitive, without a journal.
pub fn apply_primitive(grid: &mut Grid, field: &Field) -> (r: Option<DirtyRegion>)
    requires
        old(grid).wf(),
        field.wf(),
        box_within(field.lo, field.hi, old(grid)@.res),
    ensures
        final(grid).wf(),
        stamped(old(grid)@, final(grid)@, *field, Combine::Unite, Change::Number),
        r == footprint_of(*field),
        built_up(old(grid)@, final(grid)@, *field),
{
    let mut journal: Vec<VoxelEdit> = Vec::new();
    apply_primitive_with_callback(grid, field, &mut journal)
}

/// The slab of a wire: its distance at each voxel of the domain, except where
/// that is more than the margin.
pub open spec fn is_slab(f: Field, res: UVec3, distances: Seq<u32>, floors: Option<Vec<u32>>, margin: u32) -> bool {
    &&& f.lo == UVec3::zero()
    &&& f.hi == res
    &&& f.floors == floors
    &&& f.values@ == Seq::new(
        distances.len(),
        |k: int|
            if lt(margin, distances[k]) {
                None
            } else {
                Some(distances[k])
            },
    )
}

/// Build the slab of a wire.
pub fn wire_slab(res: UVec3, distances: &Vec<u32>, floors: Option<Vec<u32>>, margin: u32) -> (r: Field)
    ensures
        is_slab(r, res, distances@, floors, margin),
{
    let mut values: Vec<Option<u32>> = Vec::new();
    let mut k: usize = 0;
    while k < distances.len()
        invariant
            k <= distances.len(),
            values.len() == k,
            forall|j: int|
                0 <= j < k ==> #[trigger] values@[j] == (if lt(margin, distances@[j]) {
                    None
                } else {
                    Some(distances@[j])
                }),
        decreases distances.len() - k,
    {
        if less(margin, distances[k]) {
            values.push(None);
        } else {
            values.push(Some(distances[k]));
        }
        k = k + 1;
    }
    let r = Field { lo: UVec3 { x: 0, y: 0, z: 0 }, hi: res, values, floors };
    assert(r.values@ =~= Seq::new(
        distances.len() as nat,
        |k: int|
            if lt(margin, distances@[k]) {
                None
            } else {
                Some(distances@[k])
            },
    ));
    r
}

/// One stroke of a wire cutter. The result is the smallest box of the voxels
/// that were written to.
pub fn apply_wire_cutter_with_callback(
    grid: &mut Grid,
    slab: &Field,
    journal: &mut Vec<VoxelEdit>,
) -> (r: Option<DirtyRegion>)
    requires
        old(grid).wf(),
        slab.wf(),
        box_within(slab.lo, slab.hi, old(grid)@.res),
    ensures
        final(grid).wf(),
        stamped(old(grid)@, final(grid)@, *slab, Combine::Subtract, Change::Number),
        stamp_journalled(
            old(grid)@,
            *slab,
            Combine::Subtract,
            Change::Number,
            old(journal)@,
            final(journal)@,
        ),
        spans_edits(
            final(journal)@.subrange(old(journal).len() as int, final(journal).len() as int),
            r,
        ),
        cut_out(old(grid)@, final(grid)@, *slab),
{
    let ghost g = grid@;
    let r = apply_field(grid, slab, Combine::Subtract, Change::Number, journal);
    proof {
        law_subtract_cuts_out(g, grid@, *slab);
    }
    r
}

/// One stroke of a wire cutter, without a journal.
pub fn apply_wire_cutter(grid: &mut Grid, slab: &Field) -> (r: Option<DirtyRegion>)
    requires
        old(grid).wf(),
        slab.wf(),
        box_within(slab.lo, slab.hi, old(grid)@.res),
    ensures
        final(grid).wf(),
        stamped(old(grid)@, final(grid)@, *slab, Combine::Subtract, Change::Number),
        exists|edits: Seq<VoxelEdit>| #[trigger]
            spans_edits(edits, r) && stamp_journalled(
                old(grid)@,
                *slab,
                Combine::Subtract,
                Change::Number,
                Seq::empty(),
                edits,
            ),
        cut_out(old(grid)@, final(grid)@, *slab),
{
    let mut journal: Vec<VoxelEdit> = Vec::new();
    let ghost none = journal@;
    let r = apply_wire_cutter_with_callback(grid, slab, &mut journal);
    proof {
        assert(none =~= Seq::empty());
        assert(journal@.subrange(0, journal.len() as int) =~= journal@);
        assert(spans_edits(journal@, r));
    }
    r
}

/// Number `i` of the six face neighbours of a voxel.
pub open spec fn neighbour(x: int, y: int, z: int, i: int) -> (int, int, int) {
    if i == 0 {
        (x + 1, y, z)
    } else if i == 1 {
        (x - 1, y, z)
    } else if i == 2 {
        (x, y + 1, z)
    } else if i == 3 {
        (x, y - 1, z)
    } else if i == 4 {
        (x, y, z + 1)
    } else {
        (x, y, z - 1)
    }
}

/// The samples of the first `n` neighbours of a voxel that the domain has.
pub open spec fn neighbours_at(g: GridView, x: int, y: int, z: int, n: nat) -> Seq<u32>
    decreases n,
{
    if n == 0 {
        Seq::empty()
    } else {
        let (a, b, c) = neighbour(x, y, z, n - 1);
        let before = neighbours_at(g, x, y, z, (n - 1) as nat);
        if g.res.has(a, b, c) {
            before.push(g.at(a, b, c))
        } else {
            before
        }
    }
}

/// Of the voxels whose samples are listed, each is in the domain and differs from
/// `(x, y, z)` by one along one axis, none is listed twice, and none is left out.
pub open spec fn lists_neighbours(
    g: GridView,
    x: int,
    y: int,
    z: int,
    voxels: Seq<(int, int, int)>,
    samples: Seq<u32>,
) -> bool {
    &&& voxels.len() == samples.len()
    &&& voxels.no_duplicates()
    &&& forall|i: int|
        0 <= i < voxels.len() ==> samples[i] == g.at(
            (#[trigger] voxels[i]).0,
            voxels[i].1,
            voxels[i].2,
        )
    &&& forall|a: int, b: int, c: int| #[trigger]
        voxels.contains((a, b, c)) <==> {
            &&& g.res.has(a, b, c)
            &&& abs(a - x) + abs(b - y) + abs(c - z) == 1
        }
}

/// The first `n` neighbours of a voxel that the domain has.
spec fn voxels_beside(g: GridView, x: int, y: int, z: int, n: nat) -> Seq<(int, int, int)>
    decreases n,
{
    if n == 0 {
        Seq::empty()
    } else {
        let (a, b, c) = neighbour(x, y, z, n - 1);
        let before = voxels_beside(g, x, y, z, (n - 1) as nat);
        if g.res.has(a, b, c) {
            before.push((a, b, c))
        } else {
            before
        }
    }
}

proof fn lemma_voxels_beside(g: GridView, x: int, y: int, z: int, n: nat)
    requires
        n <= 6,
    ensures
        voxels_beside(g, x, y, z, n).len() == neighbours_at(g, x, y, z, n).len(),
        voxels_beside(g, x, y, z, n).no_duplicates(),
        forall|i: int|
            0 <= i < voxels_beside(g, x, y, z, n).len() ==> neighbours_at(g, x, y, z, n)[i] == ({
                let v = #[trigger] voxels_beside(g, x, y, z, n)[i];
                g.at(v.0, v.1, v.2)
            }),
        forall|p: (int, int, int)| #[trigger]
            voxels_beside(g, x, y, z, n).contains(p) <==> g.res.has(p.0, p.1, p.2) && exists|i: int|
                0 <= i < n && #[trigger] neighbour(x, y, z, i) == p,
    decreases n,
{
    if n > 0 {
        lemma_voxels_beside(g, x, y, z, (n - 1) as nat);
        let before = voxels_beside(g, x, y, z, (n - 1) as nat);
        let now = voxels_beside(g, x, y, z, n);
        let q = neighbour(x, y, z, n - 1);
        assert forall|p: (int, int, int)| #[trigger] now.contains(p) <==> g.res.has(p.0, p.1, p.2)
            && exists|i: int| 0 <= i < n && #[trigger] neighbour(x, y, z, i) == p by {
            if before.contains(p) {
                let i = choose|i: int| 0 <= i < before.len() && before[i] == p;
                assert(now[i] == p);
            }
            if p == q {
                assert(neighbour(x, y, z, n - 1) == p);
                if g.res.has(p.0, p.1, p.2) {
                    assert(now[before.len() as int] == p);
                }
            }
        }
        assert(!before.contains(q)) by {
            if before.contains(q) {
                let i = choose|i: int| 0 <= i < n - 1 && #[trigger] neighbour(x, y, z, i) == q;
                assert(neighbour(x, y, z, i) != neighbour(x, y, z, n - 1));
            }
        }
    }
}

/// The neighbours of a voxel are the voxels of the domain that differ from it by
/// exactly one along exactly one axis: the sample of each of them is taken once, and
/// no other.
pub proof fn law_neighbours_share_a_face(g: GridView, x: int, y: int, z: int)
    ensures
        exists|voxels: Seq<(int, int, int)>| #[trigger]
            lists_neighbours(g, x, y, z, voxels, neighbours_at(g, x, y, z, 6)),
{
    lemma_voxels_beside(g, x, y, z, 6);
    let voxels = voxels_beside(g, x, y, z, 6);
    assert forall|a: int, b: int, c: int| #[trigger] voxels.contains((a, b, c)) <==> {
        &&& g.res.has(a, b, c)
        &&& abs(a - x) + abs(b - y) + abs(c - z) == 1
    } by {
        assert(neighbour(x, y, z, 0) == (x + 1, y, z));
        assert(neighbour(x, y, z, 1) == (x - 1, y, z));
        assert(neighbour(x, y, z, 2) == (x, y + 1, z));
        assert(neighbour(x, y, z, 3) == (x, y - 1, z));
        assert(neighbour(x, y, z, 4) == (x, y, z + 1));
        assert(neighbour(x, y, z, 5) == (x, y, z - 1));
    }
    assert(lists_neighbours(g, x, y, z, voxels, neighbours_at(g, x, y, z, 6)));
}

/// The samples of the face neighbours of a voxel, leaving out those that the
/// domain does not have, so that smoothing at the border does not drift.
pub fn neighbour_samples(grid: &Grid, x: u32, y: u32, z: u32) -> (r: Vec<u32>)
    requires
        grid.wf(),
        grid@.res.has(x as int, y as int, z as int),
    ensures
        r@ == neighbours_at(grid@, x as int, y as int, z as int, 6),
        exists|voxels: Seq<(int, int, int)>| #[trigger]
            lists_neighbours(grid@, x as int, y as int, z as int, voxels, r@),
{
    let res = grid.res();
    let ghost (a, b, c) = (x as int, y as int, z as int);
    let mut r: Vec<u32> = Vec::new();
    proof {
        reveal_with_fuel(neighbours_at, 7);
    }
    if x + 1 < res.x {
        r.push(grid.get(x + 1, y, z));
    }
    assert(r@ =~= neighbours_at(grid@, a, b, c, 1));
    if x > 0 {
        r.push(grid.get(x - 1, y, z));
    }
    assert(r@ =~= neighbours_at(grid@, a, b, c, 2));
    if y + 1 < res.y {
        r.push(grid.get(x, y + 1, z));
    }
    assert(r@ =~= neighbours_at(grid@, a, b, c, 3));
    if y > 0 {
        r.push(grid.get(x, y - 1, z));
    }
    assert(r@ =~= neighbours_at(grid@, a, b, c, 4));
    if z + 1 < res.z {
        r.push(grid.get(x, y, z + 1));
    }
    assert(r@ =~= neighbours_at(grid@, a, b, c, 5));
    if z > 0 {
        r.push(grid.get(x, y, z - 1));
    }
    assert(r@ =~= neighbours_at(grid@, a, b, c, 6));
    proof {
        law_neighbours_share_a_face(grid@, a, b, c);
    }
    r
}

/// One stamp of the smoothing brush. The field offers blurred samples.
pub fn apply_smooth_brush_with_callback(
    grid: &mut Grid,
    field: &Field,
    journal: &mut Vec<VoxelEdit>,
) -> (r: Option<DirtyRegion>)
    requires
        old(grid).wf(),
        field.wf(),
        box_within(field.lo, field.hi, old(grid)@.res),
    ensures
        final(grid).wf(),
        stamped(old(grid)@, final(grid)@, *field, Combine::Replace, Change::Moved),
        stamp_journalled(
            old(grid)@,
            *field,
            Combine::Replace,
            Change::Moved,
            old(journal)@,
            final(journal)@,
        ),
        r == footprint_of(*field),
{
    apply_field(grid, field, Combine::Replace, Change::Moved, journal);
    footprint(field)
}

/// One stamp of the smoothing brush, without a journal.
pub fn apply_smooth_brush(grid: &mut Grid, field: &Field) -> (r: Option<DirtyRegion>)
    requires
        old(grid).wf(),
        field.wf(),
        box_within(field.lo, field.hi, old(grid)@.res),
    ensures
        final(grid).wf(),
        stamped(old(grid)@, final(grid)@, *field, Combine::Replace, Change::Moved),
        r == footprint_of(*field),
{
    let mut journal: Vec<VoxelEdit> = Vec::new();
    apply_smooth_brush_with_callback(grid, field, &mut journal)
}

/// A box that grew by `pad` has the voxels of the domain that are at most `pad` away from one of
/// its own along each axis, and no others.
pub proof fn law_grown_box_reaches_as_far(
    lo: UVec3,
    hi: UVec3,
    pad: u32,
    res: UVec3,
    x: int,
    y: int,
    z: int,
)
    ensures
        in_box(grown_lo(lo, pad), grown_hi(hi, pad, res), x, y, z) <==> {
            &&& res.has(x, y, z)
            &&& lo.x - pad <= x < hi.x + pad
            &&& lo.y - pad <= y < hi.y + pad
            &&& lo.z - pad <= z < hi.z + pad
        },
{
}

/// The footprint of a tool has the voxels of the domain from where its box starts to where it
/// ends; a box that starts past the domain is held against its last voxel.
pub proof fn law_footprint_is_the_box(floor: u32, ceil: i32, n: u32, x: int)
    requires
        n > 0,
    ensures
        floor < n ==> (footprint_start(floor, n) <= x < footprint_end(ceil, n) <==> 0 <= x < n && floor <= x
            < ceil),
        floor >= n ==> (footprint_start(floor, n) <= x < footprint_end(ceil, n) <==> x == n - 1 && x
            < ceil),
{
}

/// The slab of a wire cuts where its distance is offered: it is left out exactly where it is
/// farther away than the margin, and otherwise offered as it is.
pub proof fn law_slab_offers_what_is_near(
    f: Field,
    res: UVec3,
    distances: Seq<u32>,
    floors: Option<Vec<u32>>,
    margin: u32,
    v: UVec3,
)
    requires
        is_slab(f, res, distances, floors, margin),
        distances.len() == res.volume(),
        res.has(v.x as int, v.y as int, v.z as int),
    ensures
        ({
            let d = distances[v.x + (v.y + v.z * res.y) * res.x];
            &&& f.has(v)
            &&& f.offer(v) == (if lt(margin, d) {
                None
            } else {
                Some(d)
            })
        }),
{
    lemma_box_number(UVec3::zero(), res, v.x as int, v.y as int, v.z as int);
}

/// A tool that reports its footprint reports the box of the voxels that it offers something for,
/// and nothing if there is no such voxel.
pub proof fn law_footprint_has_the_field(f: Field, v: UVec3)
    ensures
        footprint_of(f) matches Some(b) ==> (b.has(v.x as int, v.y as int, v.z as int) <==> f.has(v)),
        footprint_of(f) is None ==> !f.has(v),
        f.has(v) ==> footprint_of(f) is Some,
{
}

} // verus!
