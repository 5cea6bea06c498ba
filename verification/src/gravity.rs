//! Rigid translation of labelled pieces, and resting them on the bench.
//!
//! A piece moves together with the narrow band of samples around it: every
//! voxel of its widened box is read at the old place and written at the new
//! one. Where pieces meet, the smaller sample wins. The bench is the floor of
//! the domain; what would land outside the domain is cut off.

use crate::components::{in_domain, label, solid_voxel, ComponentField};
use crate::dirty::DirtyRegion;
use crate::grid::{tile_of, ChunkCoord, Grid, GridView};
use crate::journal::{expand, lemma_box_fits, lemma_records_step, records, records_part, spans_edits, VoxelEdit};
use crate::region::{box_count, box_number, cell_of, count_of, in_box, lemma_box_number};
use crate::sample::{cleared, cleared_value, finite, has_moved, is_finite, key, law_unmoved_from_itself, min_sample, moved, smaller, solid, INFINITY};
use crate::snapshot::{box_within, RegionSnapshot};
use crate::vec3::{IVec3, UVec3};
use vstd::prelude::*;

verus! {

/// Width, in voxels, of the band of samples that moves with a piece.
pub const BAND: u32 = 3;

/// Component of a vector along axis 0, 1 or 2.
pub open spec fn axis(v: UVec3, a: int) -> int {
    if a == 0 {
        v.x as int
    } else if a == 1 {
        v.y as int
    } else {
        v.z as int
    }
}

/// Component of an offset along axis 0, 1 or 2.
pub open spec fn offset(d: IVec3, a: int) -> int {
    if a == 0 {
        d.x as int
    } else if a == 1 {
        d.y as int
    } else {
        d.z as int
    }
}

/// The offset by which component `c` is to move: that of its last entry.
pub open spec fn delta_of(deltas: Seq<(u32, IVec3)>, c: u32) -> IVec3
    decreases deltas.len(),
{
    if deltas.len() == 0 {
        IVec3::zero()
    } else if deltas.last().0 == c {
        deltas.last().1
    } else {
        delta_of(deltas.drop_last(), c)
    }
}

/// Some entry gives a piece an offset other than zero. Label zero is no piece.
pub open spec fn any_move(deltas: Seq<(u32, IVec3)>, count: int) -> bool {
    exists|i: int|
        0 <= i < deltas.len() && 1 <= (#[trigger] deltas[i]).0 <= count && deltas[i].1
            != IVec3::zero()
}

/// First voxel of the widened box of component `c`, along axis `a`.
pub open spec fn wide_lo(f: ComponentField, c: u32, a: int) -> int {
    if axis(f.box_of(c).0, a) < BAND {
        0
    } else {
        axis(f.box_of(c).0, a) - BAND
    }
}

/// First voxel past the widened box of component `c`, along axis `a`.
pub open spec fn wide_hi(f: ComponentField, c: u32, a: int) -> int {
    if axis(f.box_of(c).1, a) + BAND < axis(f.domain(), a) {
        axis(f.box_of(c).1, a) + BAND
    } else {
        axis(f.domain(), a)
    }
}

/// `(x, y, z)` is in the widened box of component `c`.
pub open spec fn in_wide(f: ComponentField, c: u32, x: int, y: int, z: int) -> bool {
    &&& wide_lo(f, c, 0) <= x < wide_hi(f, c, 0)
    &&& wide_lo(f, c, 1) <= y < wide_hi(f, c, 1)
    &&& wide_lo(f, c, 2) <= z < wide_hi(f, c, 2)
}

/// Along axis `a`, some widened box of the first `n` components starts at or
/// before `x`, before or after the move.
pub open spec fn starts_by(f: ComponentField, deltas: Seq<(u32, IVec3)>, n: int, a: int, x: int) -> bool {
    exists|c: u32|
        1 <= c <= n && (#[trigger] wide_lo(f, c, a) <= x || wide_lo(f, c, a) + offset(
            delta_of(deltas, c),
            a,
        ) <= x)
}

/// Along axis `a`, some widened box of the first `n` components ends after
/// `x`, before or after the move.
pub open spec fn ends_after(f: ComponentField, deltas: Seq<(u32, IVec3)>, n: int, a: int, x: int) -> bool {
    exists|c: u32|
        1 <= c <= n && (x < #[trigger] wide_hi(f, c, a) || x < wide_hi(f, c, a) + offset(
            delta_of(deltas, c),
            a,
        ))
}

/// Along axis `a`, `x` lies between the widened boxes of all components.
pub open spec fn reached(f: ComponentField, deltas: Seq<(u32, IVec3)>, a: int, x: int) -> bool {
    starts_by(f, deltas, f.count(), a, x) && ends_after(f, deltas, f.count(), a, x)
}

/// Voxel `v` lies in the box around every piece, before and after the move.
pub open spec fn in_reach(f: ComponentField, deltas: Seq<(u32, IVec3)>, v: UVec3) -> bool {
    &&& reached(f, deltas, 0, v.x as int)
    &&& reached(f, deltas, 1, v.y as int)
    &&& reached(f, deltas, 2, v.z as int)
}

/// Component `c` stays, and voxel `v` is its own or its band's.
pub open spec fn stays(f: ComponentField, deltas: Seq<(u32, IVec3)>, c: u32, v: UVec3) -> bool {
    &&& delta_of(deltas, c) == IVec3::zero()
    &&& in_wide(f, c, v.x as int, v.y as int, v.z as int)
    &&& f.id(v) == c || f.id(v) == 0
}

/// Voxel `v` belongs to a piece that stays.
pub open spec fn kept(f: ComponentField, deltas: Seq<(u32, IVec3)>, n: int, v: UVec3) -> bool {
    exists|c: u32| 1 <= c <= n && #[trigger] stays(f, deltas, c, v)
}

/// The voxel from which component `c` brings a sample to voxel `v`.
pub open spec fn source(deltas: Seq<(u32, IVec3)>, c: u32, v: UVec3) -> (int, int, int) {
    let d = delta_of(deltas, c);
    (v.x - d.x, v.y - d.y, v.z - d.z)
}

/// Component `c` moves, and brings a sample to voxel `v`.
pub open spec fn brings(f: ComponentField, deltas: Seq<(u32, IVec3)>, c: u32, v: UVec3) -> bool {
    let s = source(deltas, c, v);
    &&& delta_of(deltas, c) != IVec3::zero()
    &&& f.domain().has(s.0, s.1, s.2)
    &&& in_wide(f, c, s.0, s.1, s.2)
    &&& ({
        let w = UVec3 { x: s.0 as u32, y: s.1 as u32, z: s.2 as u32 };
        f.id(w) == c || f.id(w) == 0
    })
}

/// The smallest sample that reaches voxel `v`, from the pieces that stay and
/// from the first `n` components; infinite if none does.
pub open spec fn gathered(
    g: GridView,
    f: ComponentField,
    deltas: Seq<(u32, IVec3)>,
    n: nat,
    v: UVec3,
) -> u32
    decreases n,
{
    if n == 0 {
        if kept(f, deltas, f.count(), v) {
            min_sample(INFINITY, g.at(v.x as int, v.y as int, v.z as int))
        } else {
            INFINITY
        }
    } else {
        let before = gathered(g, f, deltas, (n - 1) as nat, v);
        let c = n as u32;
        let s = source(deltas, c, v);
        if brings(f, deltas, c, v) {
            min_sample(before, g.at(s.0, s.1, s.2))
        } else {
            before
        }
    }
}

/// The sample that the move assigns to voxel `v`.
pub open spec fn assigned(g: GridView, f: ComponentField, deltas: Seq<(u32, IVec3)>, v: UVec3) -> u32 {
    let all = gathered(g, f, deltas, f.count() as nat, v);
    if is_finite(all) {
        all
    } else if kept(f, deltas, f.count(), v) {
        g.at(v.x as int, v.y as int, v.z as int)
    } else {
        cleared(g.voxel_size)
    }
}

/// The move writes to voxel `v`: its sample changes by more than rounding.
pub open spec fn rewrites(g: GridView, f: ComponentField, deltas: Seq<(u32, IVec3)>, v: UVec3) -> bool {
    &&& any_move(deltas, f.count())
    &&& in_reach(f, deltas, v)
    &&& moved(assigned(g, f, deltas, v), g.at(v.x as int, v.y as int, v.z as int))
}

/// The sample of voxel `v` after the move.
pub open spec fn translated(g: GridView, f: ComponentField, deltas: Seq<(u32, IVec3)>, v: UVec3) -> u32 {
    if rewrites(g, f, deltas, v) {
        assigned(g, f, deltas, v)
    } else {
        g.at(v.x as int, v.y as int, v.z as int)
    }
}

/// The move writes to some voxel of chunk `k`.
pub open spec fn rewrites_chunk(
    g: GridView,
    f: ComponentField,
    deltas: Seq<(u32, IVec3)>,
    k: ChunkCoord,
) -> bool {
    exists|v: UVec3|
        in_domain(g.res, v) && #[trigger] rewrites(g, f, deltas, v) && tile_of(
            v.x as int,
            v.y as int,
            v.z as int,
        ) == k
}

/// The widened box of a component, with the offset by which it moves.
struct Plan {
    lo: UVec3,
    hi: UVec3,
    delta: IVec3,
}

spec fn plan_ok(f: ComponentField, deltas: Seq<(u32, IVec3)>, plan: Seq<Plan>) -> bool {
    &&& plan.len() == f.count() + 1
    &&& forall|c: u32|
        1 <= c <= f.count() ==> {
            let p = #[trigger] plan[c as int];
            &&& p.delta == delta_of(deltas, c)
            &&& p.lo.x == wide_lo(f, c, 0)
            &&& p.lo.y == wide_lo(f, c, 1)
            &&& p.lo.z == wide_lo(f, c, 2)
            &&& p.hi.x == wide_hi(f, c, 0)
            &&& p.hi.y == wide_hi(f, c, 1)
            &&& p.hi.z == wide_hi(f, c, 2)
        }
}

fn below_band(v: u32) -> (r: u32)
    ensures
        v < BAND ==> r == 0,
        v >= BAND ==> r == v - BAND,
{
    if v < BAND {
        0
    } else {
        v - BAND
    }
}

fn above_band(v: u32, n: u32) -> (r: u32)
    requires
        v <= n,
    ensures
        v + BAND < n ==> r == v + BAND,
        v + BAND >= n ==> r == n,
{
    if n - v > BAND {
        v + BAND
    } else {
        n
    }
}

/// The widened box of a component.
pub(crate) fn wide_box(labels: &ComponentField, c: u32) -> (r: (UVec3, UVec3))
    requires
        labels.wf(),
        1 <= c <= labels.count(),
    ensures
        r.0.x == wide_lo(*labels, c, 0),
        r.0.y == wide_lo(*labels, c, 1),
        r.0.z == wide_lo(*labels, c, 2),
        r.1.x == wide_hi(*labels, c, 0),
        r.1.y == wide_hi(*labels, c, 1),
        r.1.z == wide_hi(*labels, c, 2),
{
    let res = labels.res();
    match labels.bounds_of(c) {
        Some((mn, mx)) => {
            let lo = UVec3 { x: below_band(mn.x), y: below_band(mn.y), z: below_band(mn.z) };
            let hi = UVec3 {
                x: above_band(mx.x, res.x),
                y: above_band(mx.y, res.y),
                z: above_band(mx.z, res.z),
            };
            (lo, hi)
        },
        None => (UVec3::splat(0), UVec3::splat(0)),
    }
}

fn make_plan(labels: &ComponentField, deltas: &Vec<(u32, IVec3)>) -> (r: (Vec<Plan>, bool))
    requires
        labels.wf(),
    ensures
        plan_ok(*labels, deltas@, r.0@),
        r.1 == any_move(deltas@, labels.count()),
{
    let count: usize = labels.component_count();
    let mut offsets: Vec<IVec3> = Vec::new();
    let mut i: usize = 0;
    while i <= count
        invariant
            i <= count + 1,
            count == labels.count(),
            labels.wf(),
            count < usize::MAX,
            offsets.len() == i,
            forall|c: int| 0 <= c < i ==> #[trigger] offsets@[c] == IVec3::zero(),
        decreases count + 1 - i,
    {
        offsets.push(IVec3 { x: 0, y: 0, z: 0 });
        i = i + 1;
    }
    let mut any: bool = false;
    let mut k: usize = 0;
    assert(deltas@.subrange(0, 0) =~= Seq::empty());
    while k < deltas.len()
        invariant
            k <= deltas.len(),
            count == labels.count(),
            offsets.len() == count + 1,
            count <= u32::MAX,
            forall|c: u32|
                1 <= c <= count ==> #[trigger] offsets@[c as int] == delta_of(
                    deltas@.subrange(0, k as int),
                    c,
                ),
            any == any_move(deltas@.subrange(0, k as int), count as int),
        decreases deltas.len() - k,
    {
        let (id, delta) = deltas[k];
        let ghost was = deltas@.subrange(0, k as int);
        let ghost now = deltas@.subrange(0, k + 1);
        proof {
            assert(now.drop_last() =~= was);
            assert(now.last() == deltas@[k as int]);
            assert(any_move(now, count as int) == (any_move(was, count as int) || (1 <= id <= count
                && delta != IVec3::zero()))) by {
                if any_move(was, count as int) {
                    let j = choose|j: int|
                        0 <= j < was.len() && 1 <= (#[trigger] was[j]).0 <= count && was[j].1
                            != IVec3::zero();
                    assert(now[j] == was[j]);
                }
                if 1 <= id <= count && delta != IVec3::zero() {
                    assert(now[k as int] == deltas@[k as int]);
                }
                if any_move(now, count as int) {
                    let j = choose|j: int|
                        0 <= j < now.len() && 1 <= (#[trigger] now[j]).0 <= count && now[j].1
                            != IVec3::zero();
                    if j < k {
                        assert(was[j] == now[j]);
                    }
                }
            }
        }
        if id >= 1 && id as usize <= count {
            offsets[id as usize] = delta;
            if !delta.is_zero() {
                any = true;
            }
        }
        k = k + 1;
    }
    assert(deltas@.subrange(0, deltas.len() as int) =~= deltas@);
    let mut plan: Vec<Plan> = Vec::new();
    plan.push(Plan { lo: UVec3::splat(0), hi: UVec3::splat(0), delta: offsets[0] });
    let mut c: usize = 1;
    while c <= count
        invariant
            1 <= c <= count + 1,
            count == labels.count(),
            count <= u32::MAX,
            count < usize::MAX,
            labels.wf(),
            offsets.len() == count + 1,
            forall|j: u32|
                1 <= j <= count ==> #[trigger] offsets@[j as int] == delta_of(deltas@, j),
            plan.len() == c,
            forall|j: u32|
                1 <= j < c ==> {
                    let p = #[trigger] plan@[j as int];
                    &&& p.delta == delta_of(deltas@, j)
                    &&& p.lo.x == wide_lo(*labels, j, 0)
                    &&& p.lo.y == wide_lo(*labels, j, 1)
                    &&& p.lo.z == wide_lo(*labels, j, 2)
                    &&& p.hi.x == wide_hi(*labels, j, 0)
                    &&& p.hi.y == wide_hi(*labels, j, 1)
                    &&& p.hi.z == wide_hi(*labels, j, 2)
                },
        decreases count + 1 - c,
    {
        let (lo, hi) = wide_box(labels, c as u32);
        assert(offsets@[c as u32 as int] == delta_of(deltas@, c as u32));
        plan.push(Plan { lo, hi, delta: offsets[c] });
        c = c + 1;
    }
    (plan, any)
}

fn along(v: UVec3, a: usize) -> (r: u32)
    requires
        a < 3,
    ensures
        r == axis(v, a as int),
{
    if a == 0 {
        v.x
    } else if a == 1 {
        v.y
    } else {
        v.z
    }
}

fn along_i(v: IVec3, a: usize) -> (r: i32)
    requires
        a < 3,
    ensures
        r == offset(v, a as int),
{
    if a == 0 {
        v.x
    } else if a == 1 {
        v.y
    } else {
        v.z
    }
}

proof fn lemma_extent_step(f: ComponentField, deltas: Seq<(u32, IVec3)>, n: int, a: int, x: int)
    requires
        0 <= n < u32::MAX,
    ensures
        ({
            let c = (n + 1) as u32;
            let d = offset(delta_of(deltas, c), a);
            &&& starts_by(f, deltas, n + 1, a, x) == (starts_by(f, deltas, n, a, x) || wide_lo(f, c, a)
                <= x || wide_lo(f, c, a) + d <= x)
            &&& ends_after(f, deltas, n + 1, a, x) == (ends_after(f, deltas, n, a, x) || x < wide_hi(
                f,
                c,
                a,
            ) || x < wide_hi(f, c, a) + d)
        }),
{
    let c = (n + 1) as u32;
    let d = offset(delta_of(deltas, c), a);
    if starts_by(f, deltas, n, a, x) {
        let k = choose|k: u32|
            1 <= k <= n && (#[trigger] wide_lo(f, k, a) <= x || wide_lo(f, k, a) + offset(
                delta_of(deltas, k),
                a,
            ) <= x);
        assert(1 <= k <= n + 1 && wide_lo(f, k, a) == wide_lo(f, k, a));
    }
    if ends_after(f, deltas, n, a, x) {
        let k = choose|k: u32|
            1 <= k <= n && (x < #[trigger] wide_hi(f, k, a) || x < wide_hi(f, k, a) + offset(
                delta_of(deltas, k),
                a,
            ));
        assert(1 <= k <= n + 1 && wide_hi(f, k, a) == wide_hi(f, k, a));
    }
}

/// The range, along axis `a`, that the move can reach, clipped to the domain.
fn extent(plan: &Vec<Plan>, a: usize, n: u32, Ghost(f): Ghost<ComponentField>, Ghost(deltas): Ghost<
    Seq<(u32, IVec3)>,
>) -> (r: (u32, u32))
    requires
        a < 3,
        plan_ok(f, deltas, plan@),
        0 <= f.count() <= u32::MAX,
        n == axis(f.domain(), a as int),
    ensures
        r.1 <= n,
        forall|x: int|
            0 <= x < n ==> (r.0 <= x < r.1 <==> #[trigger] reached(f, deltas, a as int, x)),
{
    let mut lo: i64 = 0x4000_0000_0000;
    let mut hi: i64 = -0x4000_0000_0000;
    let mut c: usize = 1;
    while c < plan.len()
        invariant
            1 <= c <= plan.len(),
            a < 3,
            plan_ok(f, deltas, plan@),
            0 <= f.count() <= u32::MAX,
            -0x4000_0000_0000 <= lo <= 0x4000_0000_0000,
            -0x4000_0000_0000 <= hi <= 0x4000_0000_0000,
            forall|x: int|
                0 <= x < 0x1_0000_0000 ==> (lo <= x <==> #[trigger] starts_by(
                    f,
                    deltas,
                    c - 1,
                    a as int,
                    x,
                )),
            forall|x: int|
                0 <= x < 0x1_0000_0000 ==> (x < hi <==> #[trigger] ends_after(
                    f,
                    deltas,
                    c - 1,
                    a as int,
                    x,
                )),
        decreases plan.len() - c,
    {
        assert(plan@[c as u32 as int] == plan@[c as int]);
        let first: i64 = along(plan[c].lo, a) as i64;
        let last: i64 = along(plan[c].hi, a) as i64;
        let d: i64 = along_i(plan[c].delta, a) as i64;
        if first < lo {
            lo = first;
        }
        if first + d < lo {
            lo = first + d;
        }
        if last > hi {
            hi = last;
        }
        if last + d > hi {
            hi = last + d;
        }
        proof {
            assert forall|x: int| 0 <= x < 0x1_0000_0000 implies (lo <= x <==> #[trigger] starts_by(
                f,
                deltas,
                c as int,
                a as int,
                x,
            )) by {
                lemma_extent_step(f, deltas, c - 1, a as int, x);
                assert(starts_by(f, deltas, c - 1, a as int, x) == starts_by(f, deltas, c - 1, a as int, x));
            }
            assert forall|x: int| 0 <= x < 0x1_0000_0000 implies (x < hi <==> #[trigger] ends_after(
                f,
                deltas,
                c as int,
                a as int,
                x,
            )) by {
                lemma_extent_step(f, deltas, c - 1, a as int, x);
                assert(ends_after(f, deltas, c - 1, a as int, x) == ends_after(f, deltas, c - 1, a as int, x));
            }
        }
        c = c + 1;
    }
    let from: u32 = if lo < 0 {
        0
    } else if lo >= n as i64 {
        n
    } else {
        lo as u32
    };
    let to: u32 = if hi < 0 {
        0
    } else if hi >= n as i64 {
        n
    } else {
        hi as u32
    };
    proof {
        assert(c - 1 == f.count());
        assert forall|x: int| 0 <= x < n implies (from <= x < to <==> #[trigger] reached(
            f,
            deltas,
            a as int,
            x,
        )) by {
            assert(lo <= x <==> starts_by(f, deltas, c - 1, a as int, x));
            assert(x < hi <==> ends_after(f, deltas, c - 1, a as int, x));
        }
    }
    (from, to)
}

/// Whether a voxel belongs to a piece that stays.
fn is_kept(plan: &Vec<Plan>, labels: &ComponentField, v: UVec3, Ghost(deltas): Ghost<Seq<(u32, IVec3)>>) -> (r:
    bool)
    requires
        labels.wf(),
        plan_ok(*labels, deltas, plan@),
        in_domain(labels.domain(), v),
    ensures
        r == kept(*labels, deltas, labels.count(), v),
{
    proof {
        labels.lemma_wf();
    }
    let here: u32 = labels.id_at(v.x, v.y, v.z);
    let mut c: usize = 1;
    while c < plan.len()
        invariant
            1 <= c <= plan.len(),
            labels.wf(),
            0 <= labels.count() <= u32::MAX,
            plan_ok(*labels, deltas, plan@),
            here == labels.id(v),
            !kept(*labels, deltas, c - 1, v),
        decreases plan.len() - c,
    {
        assert(plan@[c as u32 as int] == plan@[c as int]);
        let p = &plan[c];
        if p.delta.is_zero() && p.lo.x <= v.x && v.x < p.hi.x && p.lo.y <= v.y && v.y < p.hi.y
            && p.lo.z <= v.z && v.z < p.hi.z && (here == c as u32 || here == 0) {
            assert(stays(*labels, deltas, c as u32, v));
            return true;
        }
        proof {
            assert forall|k: u32| 1 <= k <= c implies !#[trigger] stays(*labels, deltas, k, v) by {}
        }
        c = c + 1;
    }
    false
}

/// The sample that the move assigns to a voxel.
fn assign(
    plan: &Vec<Plan>,
    labels: &ComponentField,
    region: &RegionSnapshot,
    v: UVec3,
    empty: u32,
    Ghost(g): Ghost<GridView>,
    Ghost(deltas): Ghost<Seq<(u32, IVec3)>>,
) -> (r: u32)
    requires
        labels.wf(),
        labels.domain() == g.res,
        plan_ok(*labels, deltas, plan@),
        in_domain(g.res, v),
        empty == cleared(g.voxel_size),
        region.wf(),
        in_box(region.lo(), region.hi(), v.x as int, v.y as int, v.z as int),
        forall|x: int, y: int, z: int|
            in_box(region.lo(), region.hi(), x, y, z) ==> #[trigger] region.at(x, y, z) == g.at(x, y, z),
        forall|c: u32, x: int, y: int, z: int|
            1 <= c <= labels.count() && g.res.has(x, y, z) && #[trigger] in_wide(*labels, c, x, y, z)
                ==> in_box(region.lo(), region.hi(), x, y, z),
    ensures
        r == assigned(g, *labels, deltas, v),
{
    proof {
        labels.lemma_wf();
    }
    let base: bool = is_kept(plan, labels, v, Ghost(deltas));
    let here: u32 = region.get(v.x, v.y, v.z);
    let res = labels.res();
    let mut best: u32 = if base { smaller(INFINITY, here) } else { INFINITY };
    let mut c: usize = 1;
    while c < plan.len()
        invariant
            1 <= c <= plan.len(),
            labels.wf(),
            labels.domain() == g.res,
            res == g.res,
            0 <= labels.count() <= u32::MAX,
            plan_ok(*labels, deltas, plan@),
            region.wf(),
            forall|x: int, y: int, z: int|
                in_box(region.lo(), region.hi(), x, y, z) ==> #[trigger] region.at(x, y, z) == g.at(
                    x,
                    y,
                    z,
                ),
            forall|k: u32, x: int, y: int, z: int|
                1 <= k <= labels.count() && g.res.has(x, y, z) && #[trigger] in_wide(*labels, k, x, y, z)
                    ==> in_box(region.lo(), region.hi(), x, y, z),
            best == gathered(g, *labels, deltas, (c - 1) as nat, v),
        decreases plan.len() - c,
    {
        assert(plan@[c as u32 as int] == plan@[c as int]);
        let p = &plan[c];
        let sx: i64 = v.x as i64 - p.delta.x as i64;
        let sy: i64 = v.y as i64 - p.delta.y as i64;
        let sz: i64 = v.z as i64 - p.delta.z as i64;
        let ghost s = source(deltas, c as u32, v);
        assert(s == (sx as int, sy as int, sz as int));
        if !p.delta.is_zero() && sx >= 0 && sy >= 0 && sz >= 0 && sx < res.x as i64 && sy < res.y as i64
            && sz < res.z as i64 {
            let (x, y, z): (u32, u32, u32) = (sx as u32, sy as u32, sz as u32);
            if p.lo.x <= x && x < p.hi.x && p.lo.y <= y && y < p.hi.y && p.lo.z <= z && z < p.hi.z {
                let there: u32 = labels.id_at(x, y, z);
                if there == c as u32 || there == 0 {
                    assert(in_wide(*labels, c as u32, sx as int, sy as int, sz as int));
                    assert(brings(*labels, deltas, c as u32, v));
                    best = smaller(best, region.get(x, y, z));
                }
            }
        }
        c = c + 1;
    }
    if finite(best) {
        best
    } else if base {
        here
    } else {
        empty
    }
}

/// Every widened box lies in the reach of the move.
pub proof fn lemma_wide_reached(f: ComponentField, deltas: Seq<(u32, IVec3)>, c: u32, x: int, y: int, z: int)
    requires
        1 <= c <= f.count(),
        in_wide(f, c, x, y, z),
    ensures
        reached(f, deltas, 0, x),
        reached(f, deltas, 1, y),
        reached(f, deltas, 2, z),
{
    assert(wide_lo(f, c, 0) <= x && x < wide_hi(f, c, 0));
    assert(wide_lo(f, c, 1) <= y && y < wide_hi(f, c, 1));
    assert(wide_lo(f, c, 2) <= z && z < wide_hi(f, c, 2));
}

/// Move every listed component by its offset, in one pass over the old
/// samples. The edits are added to the journal in scan order; the result is the
/// box of the voxels that were written.
#[verifier::rlimit(40)]
#[verifier::spinoff_prover]
pub fn translate_components(
    grid: &mut Grid,
    labels: &ComponentField,
    deltas: &Vec<(u32, IVec3)>,
    journal: &mut Vec<VoxelEdit>,
) -> (r: Option<DirtyRegion>)
    requires
        old(grid).wf(),
        labels.wf(),
        labels.domain() == old(grid)@.res,
    ensures
        final(grid).wf(),
        final(grid)@.same_domain(old(grid)@),
        forall|v: UVec3|
            in_domain(old(grid)@.res, v) ==> #[trigger] final(grid)@.at(
                v.x as int,
                v.y as int,
                v.z as int,
            ) == translated(old(grid)@, *labels, deltas@, v),
        forall|k: ChunkCoord| #[trigger]
            final(grid)@.tiles.dom().contains(k) <==> old(grid)@.tiles.dom().contains(k)
                || rewrites_chunk(old(grid)@, *labels, deltas@, k),
        old(journal).len() <= final(journal).len(),
        final(journal)@.subrange(0, old(journal).len() as int) == old(journal)@,
        ({
            let edits = final(journal)@.subrange(
                old(journal).len() as int,
                final(journal).len() as int,
            );
            &&& records(edits, old(grid)@, |v: UVec3| rewrites(old(grid)@, *labels, deltas@, v))
            &&& spans_edits(edits, r)
        }),
{
    let ghost g = grid@;
    let ghost d = deltas@;
    let ghost prior = journal@;
    let ghost changed = |v: UVec3| rewrites(g, *labels, d, v);
    let ghost mut edits: Seq<VoxelEdit> = Seq::empty();
    let res = grid.res();
    let (plan, any) = make_plan(labels, deltas);
    proof {
        labels.lemma_wf();
    }
    if !any {
        proof {
            assert(journal@.subrange(0, prior.len() as int) =~= prior);
            assert(journal@.subrange(prior.len() as int, journal.len() as int) =~= Seq::empty());
        }
        return None;
    }
    let (x0, x1) = extent(&plan, 0, res.x, Ghost(*labels), Ghost(d));
    let (y0, y1) = extent(&plan, 1, res.y, Ghost(*labels), Ghost(d));
    let (z0, z1) = extent(&plan, 2, res.z, Ghost(*labels), Ghost(d));
    let lo = UVec3 { x: x0, y: y0, z: z0 };
    let hi = UVec3 { x: x1, y: y1, z: z1 };
    proof {
        lemma_box_fits(lo, hi, res);
        assert forall|x: int, y: int, z: int| res.has(x, y, z) implies (#[trigger] in_box(
            lo,
            hi,
            x,
            y,
            z,
        ) <==> reached(*labels, d, 0, x) && reached(*labels, d, 1, y) && reached(*labels, d, 2, z)) by {}
        assert forall|c: u32, x: int, y: int, z: int|
            1 <= c <= labels.count() && g.res.has(x, y, z) && #[trigger] in_wide(
                *labels,
                c,
                x,
                y,
                z,
            ) implies in_box(lo, hi, x, y, z) by {
            lemma_wide_reached(*labels, d, c, x, y, z);
        }
    }
    let n: usize = count_of(lo, hi);
    let region: RegionSnapshot = grid.snapshot_region(lo, hi);
    let empty: u32 = cleared_value(grid.voxel_size());
    let mut dirty: Option<DirtyRegion> = None;
    let mut k: usize = 0;
    while k < n
        invariant
            k <= n,
            n == box_count(lo, hi),
            box_within(lo, hi, res),
            res == g.res,
            grid.wf(),
            grid@.same_domain(g),
            labels.wf(),
            labels.domain() == g.res,
            d == deltas@,
            changed == (|v: UVec3| rewrites(g, *labels, d, v)),
            any_move(d, labels.count()),
            plan_ok(*labels, d, plan@),
            empty == cleared(g.voxel_size),
            region.wf(),
            region.lo() == lo,
            region.hi() == hi,
            forall|x: int, y: int, z: int|
                in_box(lo, hi, x, y, z) ==> #[trigger] region.at(x, y, z) == g.at(x, y, z),
            forall|x: int, y: int, z: int|
                res.has(x, y, z) ==> (#[trigger] in_box(lo, hi, x, y, z) <==> reached(*labels, d, 0, x)
                    && reached(*labels, d, 1, y) && reached(*labels, d, 2, z)),
            forall|c: u32, x: int, y: int, z: int|
                1 <= c <= labels.count() && g.res.has(x, y, z) && #[trigger] in_wide(*labels, c, x, y, z)
                    ==> in_box(lo, hi, x, y, z),
            forall|x: int, y: int, z: int|
                res.has(x, y, z) ==> #[trigger] grid@.at(x, y, z) == (if in_box(lo, hi, x, y, z)
                    && box_number(lo, hi, x, y, z) < k {
                    translated(g, *labels, d, UVec3 { x: x as u32, y: y as u32, z: z as u32 })
                } else {
                    g.at(x, y, z)
                }),
            forall|q: ChunkCoord| #[trigger]
                grid@.tiles.dom().contains(q) ==> g.tiles.dom().contains(q) || rewrites_chunk(
                    g,
                    *labels,
                    d,
                    q,
                ),
            forall|q: ChunkCoord|
                g.tiles.dom().contains(q) ==> #[trigger] grid@.tiles.dom().contains(q),
            forall|i: int|
                0 <= i < edits.len() ==> grid@.tiles.dom().contains(
                    tile_of(
                        (#[trigger] edits[i]).x as int,
                        edits[i].y as int,
                        edits[i].z as int,
                    ),
                ),
            journal@ == prior + edits,
            records_part(edits, g, changed, lo, hi, k as int),
            spans_edits(edits, dirty),
        decreases n - k,
    {
        let v = cell_of(lo, hi, k);
        let ghost (vx, vy, vz) = (v.x as int, v.y as int, v.z as int);
        let ghost mid = grid@;
        let here: u32 = region.get(v.x, v.y, v.z);
        let next: u32 = assign(&plan, labels, &region, v, empty, Ghost(g), Ghost(d));
        let ghost e = VoxelEdit { x: v.x, y: v.y, z: v.z, pre: here };
        proof {
            assert(in_box(lo, hi, vx, vy, vz));
            assert(in_reach(*labels, d, v));
            lemma_records_step(edits, g, changed, lo, hi, k as int, e);
            assert(changed(v) == moved(next, here));
        }
        if has_moved(next, here) {
            journal.push(VoxelEdit { x: v.x, y: v.y, z: v.z, pre: here });
            grid.set(v.x, v.y, v.z, next);
            dirty = expand(dirty, v.x, v.y, v.z, Ghost(edits), Ghost(e));
            proof {
                assert(rewrites(g, *labels, d, v));
                assert(rewrites_chunk(g, *labels, d, tile_of(vx, vy, vz)));
                assert(prior + edits.push(e) =~= (prior + edits).push(e));
                let was = edits;
                edits = edits.push(e);
                assert forall|i: int| 0 <= i < edits.len() implies grid@.tiles.dom().contains(
                    tile_of(
                        (#[trigger] edits[i]).x as int,
                        edits[i].y as int,
                        edits[i].z as int,
                    ),
                ) by {
                    if i < was.len() {
                        assert(edits[i] == was[i]);
                    }
                }
            }
        }
        proof {
            assert forall|x: int, y: int, z: int| res.has(x, y, z) implies #[trigger] grid@.at(x, y, z)
                == (if in_box(lo, hi, x, y, z) && box_number(lo, hi, x, y, z) < k + 1 {
                translated(g, *labels, d, UVec3 { x: x as u32, y: y as u32, z: z as u32 })
            } else {
                g.at(x, y, z)
            }) by {
                assert(mid.at(x, y, z) == mid.at(x, y, z));
                if in_box(lo, hi, x, y, z) && box_number(lo, hi, x, y, z) == k {
                    lemma_box_number(lo, hi, x, y, z);
                    assert(x == vx && y == vy && z == vz);
                }
            }
        }
        k = k + 1;
    }
    proof {
        assert(journal@.subrange(0, prior.len() as int) =~= prior);
        assert(journal@.subrange(prior.len() as int, journal.len() as int) =~= edits);
        assert forall|v: UVec3| in_domain(g.res, v) implies #[trigger] grid@.at(
            v.x as int,
            v.y as int,
            v.z as int,
        ) == translated(g, *labels, d, v) by {
            if in_box(lo, hi, v.x as int, v.y as int, v.z as int) {
                lemma_box_number(lo, hi, v.x as int, v.y as int, v.z as int);
            }
        }
        assert forall|v: UVec3| in_domain(g.res, v) && #[trigger] changed(v) implies exists|i: int|
            0 <= i < edits.len() && (#[trigger] edits[i]).voxel() == v by {
            assert(in_box(lo, hi, v.x as int, v.y as int, v.z as int));
            lemma_box_number(lo, hi, v.x as int, v.y as int, v.z as int);
        }
        assert(records(edits, g, changed));
        assert forall|q: ChunkCoord| #[trigger]
            grid@.tiles.dom().contains(q) <==> g.tiles.dom().contains(q) || rewrites_chunk(
                g,
                *labels,
                d,
                q,
            ) by {
            if rewrites_chunk(g, *labels, d, q) {
                let v = choose|v: UVec3|
                    in_domain(g.res, v) && #[trigger] rewrites(g, *labels, d, v) && tile_of(
                        v.x as int,
                        v.y as int,
                        v.z as int,
                    ) == q;
                assert(changed(v));
                let i = choose|i: int| 0 <= i < edits.len() && (#[trigger] edits[i]).voxel() == v;
                assert(edits[i].voxel() == v);
            }
        }
    }
    dirty
}

/// Move one component by `delta` voxels. The zero offset changes nothing, and neither
/// does a label that no piece has.
pub fn translate_component(
    grid: &mut Grid,
    labels: &ComponentField,
    id: u32,
    delta: IVec3,
    journal: &mut Vec<VoxelEdit>,
) -> (r: Option<DirtyRegion>)
    requires
        old(grid).wf(),
        labels.wf(),
        labels.domain() == old(grid)@.res,
    ensures
        final(grid).wf(),
        final(grid)@.same_domain(old(grid)@),
        forall|v: UVec3|
            in_domain(old(grid)@.res, v) ==> #[trigger] final(grid)@.at(
                v.x as int,
                v.y as int,
                v.z as int,
            ) == translated(old(grid)@, *labels, seq![(id, delta)], v),
        forall|k: ChunkCoord| #[trigger]
            final(grid)@.tiles.dom().contains(k) <==> old(grid)@.tiles.dom().contains(k)
                || rewrites_chunk(old(grid)@, *labels, seq![(id, delta)], k),
        old(journal).len() <= final(journal).len(),
        final(journal)@.subrange(0, old(journal).len() as int) == old(journal)@,
        ({
            let edits = final(journal)@.subrange(
                old(journal).len() as int,
                final(journal).len() as int,
            );
            &&& records(edits, old(grid)@, |v: UVec3| rewrites(old(grid)@, *labels, seq![(id, delta)], v))
            &&& spans_edits(edits, r)
        }),
        delta == IVec3::zero() || !(1 <= id <= labels.count()) ==> r is None && final(grid)@ == old(
            grid,
        )@ && final(journal)@ == old(journal)@,
{
    let mut deltas: Vec<(u32, IVec3)> = Vec::new();
    deltas.push((id, delta));
    assert(deltas@ =~= seq![(id, delta)]);
    if delta.is_zero() || id == 0 || id as usize > labels.component_count() {
        proof {
            let one = seq![(id, delta)];
            assert(!any_move(one, labels.count())) by {
                assert(one[0] == (id, delta));
            }
            assert(journal@.subrange(0, journal.len() as int) =~= journal@);
            assert(journal@.subrange(journal.len() as int, journal.len() as int) =~= Seq::empty());
        }
        return None;
    }
    translate_components(grid, labels, &deltas, journal)
}

/// Result of a rest-on-bench pass.
#[derive(Copy, Clone, Debug)]
pub struct RestSummary {
    /// Number of pieces that were looked at.
    pub components: u32,
    /// Number of pieces that were not on the bench yet.
    pub moved: u32,
    /// Box of the voxels that were written.
    pub dirty: Option<DirtyRegion>,
}

/// The drops of the first `n` components: each that does not touch the bench
/// goes straight down by the height of its lowest voxel.
pub open spec fn drops(f: ComponentField, n: nat) -> Seq<(u32, IVec3)>
    decreases n,
{
    if n == 0 {
        Seq::empty()
    } else {
        let c = n as u32;
        let low = f.box_of(c).0.y;
        let before = drops(f, (n - 1) as nat);
        if low == 0 {
            before
        } else {
            before.push((c, IVec3 { x: 0, y: -(low as int) as i32, z: 0 }))
        }
    }
}

/// Drop every piece onto the bench.
pub fn rest_components_on_bench(
    grid: &mut Grid,
    labels: &ComponentField,
    journal: &mut Vec<VoxelEdit>,
) -> (r: RestSummary)
    requires
        old(grid).wf(),
        labels.wf(),
        labels.domain() == old(grid)@.res,
        labels.domain().y <= 0x8000_0000,
    ensures
        final(grid).wf(),
        final(grid)@.same_domain(old(grid)@),
        r.components == labels.count(),
        r.moved == drops(*labels, labels.count() as nat).len(),
        forall|v: UVec3|
            in_domain(old(grid)@.res, v) ==> #[trigger] final(grid)@.at(
                v.x as int,
                v.y as int,
                v.z as int,
            ) == translated(old(grid)@, *labels, drops(*labels, labels.count() as nat), v),
        forall|k: ChunkCoord| #[trigger]
            final(grid)@.tiles.dom().contains(k) <==> old(grid)@.tiles.dom().contains(k)
                || rewrites_chunk(old(grid)@, *labels, drops(*labels, labels.count() as nat), k),
        old(journal).len() <= final(journal).len(),
        final(journal)@.subrange(0, old(journal).len() as int) == old(journal)@,
        ({
            let edits = final(journal)@.subrange(
                old(journal).len() as int,
                final(journal).len() as int,
            );
            &&& records(
                edits,
                old(grid)@,
                |v: UVec3|
                    rewrites(old(grid)@, *labels, drops(*labels, labels.count() as nat), v),
            )
            &&& spans_edits(edits, r.dirty)
        }),
{
    let count: usize = labels.component_count();
    let mut deltas: Vec<(u32, IVec3)> = Vec::new();
    let mut c: usize = 1;
    while c <= count
        invariant
            1 <= c <= count + 1,
            count == labels.count(),
            count <= u32::MAX,
            count < usize::MAX,
            labels.wf(),
            labels.domain().y <= 0x8000_0000,
            deltas.len() < c,
            deltas@ == drops(*labels, (c - 1) as nat),
        decreases count + 1 - c,
    {
        let found: Option<(UVec3, UVec3)> = labels.bounds_of(c as u32);
        if let Some((mn, _)) = found {
            if mn.y != 0 {
                let down: i32 = 0 - mn.y as i32;
                deltas.push((c as u32, IVec3 { x: 0, y: down, z: 0 }));
            }
        }
        c = c + 1;
    }
    let moved: u32 = deltas.len() as u32;
    let dirty: Option<DirtyRegion> = translate_components(grid, labels, &deltas, journal);
    RestSummary { components: count as u32, moved, dirty }
}

/// The box that a move of component `id` by `delta` can read from or write to.
pub fn touched_region_for_translate(labels: &ComponentField, id: u32, delta: IVec3) -> (r: Option<
    (UVec3, UVec3),
>)
    requires
        labels.wf(),
    ensures
        r is Some <==> 1 <= id <= labels.count(),
        r matches Some(b) ==> {
            &&& box_within(b.0, b.1, labels.domain())
            &&& forall|v: UVec3|
                in_domain(labels.domain(), v) ==> (in_box(b.0, b.1, v.x as int, v.y as int, v.z as int)
                    <==> #[trigger] in_reach(*labels, seq![(id, delta)], v))
        },
{
    if id == 0 || id as usize > labels.component_count() {
        return None;
    }
    let res = labels.res();
    let mut deltas: Vec<(u32, IVec3)> = Vec::new();
    deltas.push((id, delta));
    let ghost d = deltas@;
    assert(d =~= seq![(id, delta)]);
    let (plan, _) = make_plan(labels, &deltas);
    proof {
        labels.lemma_wf();
    }
    let (x0, x1) = extent(&plan, 0, res.x, Ghost(*labels), Ghost(d));
    let (y0, y1) = extent(&plan, 1, res.y, Ghost(*labels), Ghost(d));
    let (z0, z1) = extent(&plan, 2, res.z, Ghost(*labels), Ghost(d));
    proof {
        assert forall|v: UVec3| in_domain(labels.domain(), v) implies (in_box(
            UVec3 { x: x0, y: y0, z: z0 },
            UVec3 { x: x1, y: y1, z: z1 },
            v.x as int,
            v.y as int,
            v.z as int,
        ) <==> #[trigger] in_reach(*labels, seq![(id, delta)], v)) by {
            assert(x0 <= v.x < x1 <==> reached(*labels, d, 0, v.x as int));
            assert(y0 <= v.y < y1 <==> reached(*labels, d, 1, v.y as int));
            assert(z0 <= v.z < z1 <==> reached(*labels, d, 2, v.z as int));
        }
    }
    Some((UVec3 { x: x0, y: y0, z: z0 }, UVec3 { x: x1, y: y1, z: z1 }))
}

/// Every sample of the domain is a finite number.
pub open spec fn all_finite(g: GridView) -> bool {
    forall|x: int, y: int, z: int| g.res.has(x, y, z) ==> is_finite(#[trigger] g.at(x, y, z))
}

/// No gathered sample exceeds a sample that was brought.
pub proof fn lemma_gathered_least(
    g: GridView,
    f: ComponentField,
    deltas: Seq<(u32, IVec3)>,
    n: nat,
    v: UVec3,
    c: u32,
)
    requires
        n <= u32::MAX,
        c >= 1,
        all_finite(g),
        f.domain() == g.res,
        in_domain(g.res, v),
    ensures
        is_finite(gathered(g, f, deltas, n, v)) || gathered(g, f, deltas, n, v) == INFINITY,
        ({
            let s = source(deltas, c, v);
            c <= n && brings(f, deltas, c, v) ==> key(gathered(g, f, deltas, n, v)) <= key(
                g.at(s.0, s.1, s.2),
            )
        }),
        kept(f, deltas, f.count(), v) ==> key(gathered(g, f, deltas, n, v)) <= key(
            g.at(v.x as int, v.y as int, v.z as int),
        ),
    decreases n,
{
    if n > 0 {
        lemma_gathered_least(g, f, deltas, (n - 1) as nat, v, c);
    }
}

/// A piece arrives: each solid voxel of a piece that moves is assigned, at its
/// new place, a sample no larger than its own, which is therefore solid.
pub proof fn law_moved_piece_arrives(
    g: GridView,
    f: ComponentField,
    deltas: Seq<(u32, IVec3)>,
    v: UVec3,
    w: UVec3,
)
    requires
        f.labels(g),
        all_finite(g),
        solid_voxel(g, v),
        in_domain(g.res, w),
        delta_of(deltas, f.id(v)) != IVec3::zero(),
        source(deltas, f.id(v), w) == (v.x as int, v.y as int, v.z as int),
    ensures
        in_reach(f, deltas, w),
        key(assigned(g, f, deltas, w)) <= key(g.at(v.x as int, v.y as int, v.z as int)),
        solid(assigned(g, f, deltas, w)),
{
    let c = f.id(v);
    let (x, y, z) = (v.x as int, v.y as int, v.z as int);
    f.lemma_wf();
    f.lemma_box_of(c);
    assert(label(f@, f.domain(), v) == c);
    assert(in_wide(f, c, x, y, z));
    let d = delta_of(deltas, c);
    assert(wide_lo(f, c, 0) + offset(d, 0) <= w.x && w.x < wide_hi(f, c, 0) + offset(d, 0));
    assert(wide_lo(f, c, 1) + offset(d, 1) <= w.y && w.y < wide_hi(f, c, 1) + offset(d, 1));
    assert(wide_lo(f, c, 2) + offset(d, 2) <= w.z && w.z < wide_hi(f, c, 2) + offset(d, 2));
    assert(brings(f, deltas, c, w)) by {
        assert(UVec3 { x: x as u32, y: y as u32, z: z as u32 } == v);
    }
    lemma_gathered_least(g, f, deltas, f.count() as nat, w, c);
    assert(g.at(x, y, z) == g.at(x, y, z));
}

/// The only piece moves without a change of shape: at its new place every sample of
/// the piece and of its band is the one from before.
pub proof fn law_lone_piece_keeps_its_samples(
    g: GridView,
    f: ComponentField,
    deltas: Seq<(u32, IVec3)>,
    v: UVec3,
    w: UVec3,
)
    requires
        f.wf(),
        f.domain() == g.res,
        f.count() == 1,
        all_finite(g),
        in_domain(g.res, v),
        in_domain(g.res, w),
        in_wide(f, 1, v.x as int, v.y as int, v.z as int),
        delta_of(deltas, 1) != IVec3::zero(),
        source(deltas, 1, w) == (v.x as int, v.y as int, v.z as int),
    ensures
        assigned(g, f, deltas, w) == g.at(v.x as int, v.y as int, v.z as int),
{
    let (x, y, z) = (v.x as int, v.y as int, v.z as int);
    f.lemma_wf();
    assert(f.id(v) <= f.count());
    assert(UVec3 { x: x as u32, y: y as u32, z: z as u32 } == v);
    assert(brings(f, deltas, 1, w));
    assert forall|c: u32| 1 <= c <= 1 implies !#[trigger] stays(f, deltas, c, w) by {}
    assert(!kept(f, deltas, f.count(), w));
    assert(is_finite(g.at(x, y, z)));
    reveal_with_fuel(gathered, 2);
}

/// A voxel that belongs to a piece that stays, and to which no piece brings a
/// sample, keeps its sample.
pub proof fn law_kept_voxel_unchanged(
    g: GridView,
    f: ComponentField,
    deltas: Seq<(u32, IVec3)>,
    v: UVec3,
)
    requires
        in_domain(g.res, v),
        0 <= f.count() <= u32::MAX,
        is_finite(g.at(v.x as int, v.y as int, v.z as int)),
        kept(f, deltas, f.count(), v),
        forall|c: u32| 1 <= c <= f.count() ==> !#[trigger] brings(f, deltas, c, v),
    ensures
        translated(g, f, deltas, v) == g.at(v.x as int, v.y as int, v.z as int),
{
    let here = g.at(v.x as int, v.y as int, v.z as int);
    lemma_gathered_nothing(g, f, deltas, f.count() as nat, v);
    law_unmoved_from_itself(here);
}

proof fn lemma_gathered_nothing(
    g: GridView,
    f: ComponentField,
    deltas: Seq<(u32, IVec3)>,
    n: nat,
    v: UVec3,
)
    requires
        n <= f.count() <= u32::MAX,
        forall|c: u32| 1 <= c <= f.count() ==> !#[trigger] brings(f, deltas, c, v),
    ensures
        gathered(g, f, deltas, n, v) == gathered(g, f, deltas, 0, v),
    decreases n,
{
    if n > 0 {
        lemma_gathered_nothing(g, f, deltas, (n - 1) as nat, v);
        assert(!brings(f, deltas, n as u32, v));
    }
}

/// Outside the reach of a move nothing changes.
pub proof fn law_out_of_reach_unchanged(
    g: GridView,
    f: ComponentField,
    deltas: Seq<(u32, IVec3)>,
    v: UVec3,
)
    requires
        !in_reach(f, deltas, v),
    ensures
        translated(g, f, deltas, v) == g.at(v.x as int, v.y as int, v.z as int),
{
}

/// A piece that has come to rest touches the bench: the drop of a component
/// takes its lowest voxel to height zero.
pub proof fn law_drop_reaches_bench(f: ComponentField, c: u32)
    requires
        f.wf(),
        1 <= c <= f.count(),
        f.domain().y <= 0x8000_0000,
    ensures
        delta_of(drops(f, f.count() as nat), c) == (IVec3 {
            x: 0,
            y: -(f.box_of(c).0.y as int) as i32,
            z: 0,
        }),
        f.box_of(c).0.y + delta_of(drops(f, f.count() as nat), c).y == 0,
{
    f.lemma_wf();
    lemma_drop_of(f, f.count() as nat, c);
    f.lemma_box_of(c);
}

proof fn lemma_drop_of(f: ComponentField, n: nat, c: u32)
    requires
        n <= f.count() <= u32::MAX,
        c >= 1,
    ensures
        c > n ==> delta_of(drops(f, n), c) == IVec3::zero(),
        c <= n ==> delta_of(drops(f, n), c) == (IVec3 {
            x: 0,
            y: -(f.box_of(c).0.y as int) as i32,
            z: 0,
        }),
    decreases n,
{
    if n > 0 {
        lemma_drop_of(f, (n - 1) as nat, c);
        let before = drops(f, (n - 1) as nat);
        let k = n as u32;
        let low = f.box_of(k).0.y;
        if low != 0 {
            let e = (k, IVec3 { x: 0, y: -(low as int) as i32, z: 0 });
            assert(before.push(e).drop_last() =~= before);
            assert(before.push(e).last() == e);
        }
    }
}

/// The offset of a component is the last one that is given for it; without one it stays.
pub proof fn law_last_offset_counts(deltas: Seq<(u32, IVec3)>, c: u32, i: int)
    requires
        0 <= i < deltas.len(),
        deltas[i].0 == c,
        forall|j: int| i < j < deltas.len() ==> (#[trigger] deltas[j]).0 != c,
    ensures
        delta_of(deltas, c) == deltas[i].1,
    decreases deltas.len(),
{
    if i < deltas.len() - 1 {
        let before = deltas.drop_last();
        assert(before[i] == deltas[i]);
        assert forall|j: int| i < j < before.len() implies (#[trigger] before[j]).0 != c by {
            assert(deltas[j].0 != c);
        }
        assert(deltas[deltas.len() - 1].0 != c);
        law_last_offset_counts(before, c, i);
    }
}

/// A component for which no offset is given stays.
pub proof fn law_no_offset_means_none(deltas: Seq<(u32, IVec3)>, c: u32)
    requires
        forall|j: int| 0 <= j < deltas.len() ==> (#[trigger] deltas[j]).0 != c,
    ensures
        delta_of(deltas, c) == (IVec3 { x: 0, y: 0, z: 0 }),
    decreases deltas.len(),
{
    if deltas.len() > 0 {
        let before = deltas.drop_last();
        assert forall|j: int| 0 <= j < before.len() implies (#[trigger] before[j]).0 != c by {
            assert(deltas[j].0 != c);
        }
        assert(deltas[deltas.len() - 1].0 != c);
        law_no_offset_means_none(before, c);
    }
}

/// What goes along with a component is its box and three voxels of the domain around it.
pub proof fn law_band_is_three_voxels_wide(f: ComponentField, c: u32, x: int, y: int, z: int)
    ensures
        in_wide(f, c, x, y, z) <==> {
            let (lo, hi) = f.box_of(c);
            &&& f.domain().has(x, y, z)
            &&& lo.x - 3 <= x < hi.x + 3
            &&& lo.y - 3 <= y < hi.y + 3
            &&& lo.z - 3 <= z < hi.z + 3
        },
{
}

/// A component goes by its offset: a solid voxel of it is found again at the place that is
/// farther by the offset along each axis, with a sample that is no larger.
pub proof fn law_piece_goes_by_its_offset(
    g: GridView,
    f: ComponentField,
    deltas: Seq<(u32, IVec3)>,
    v: UVec3,
    w: UVec3,
)
    requires
        f.labels(g),
        all_finite(g),
        g.res.has(v.x as int, v.y as int, v.z as int),
        solid(g.at(v.x as int, v.y as int, v.z as int)),
        g.res.has(w.x as int, w.y as int, w.z as int),
        w.x == v.x + delta_of(deltas, f.id(v)).x,
        w.y == v.y + delta_of(deltas, f.id(v)).y,
        w.z == v.z + delta_of(deltas, f.id(v)).z,
        v != w,
    ensures
        solid(assigned(g, f, deltas, w)),
        key(assigned(g, f, deltas, w)) <= key(g.at(v.x as int, v.y as int, v.z as int)),
        in_reach(f, deltas, w),
        any_move(deltas, f.count()),
        translated(g, f, deltas, w) == assigned(g, f, deltas, w) || (translated(g, f, deltas, w)
            == g.at(w.x as int, w.y as int, w.z as int) && !moved(
            assigned(g, f, deltas, w),
            g.at(w.x as int, w.y as int, w.z as int),
        )),
{
    let c = f.id(v);
    f.lemma_wf();
    assert(c != 0) by {
        assert(solid_voxel(g, v));
    }
    assert(delta_of(deltas, c) != IVec3::zero());
    law_moved_piece_arrives(g, f, deltas, v, w);
    lemma_offset_is_given(deltas, c);
}

/// An offset that is not zero was given.
proof fn lemma_offset_is_given(deltas: Seq<(u32, IVec3)>, c: u32)
    requires
        delta_of(deltas, c) != IVec3::zero(),
    ensures
        exists|i: int|
            0 <= i < deltas.len() && (#[trigger] deltas[i]).0 == c && deltas[i].1 == delta_of(deltas, c),
    decreases deltas.len(),
{
    let last = deltas.len() - 1;
    if deltas[last].0 == c {
    } else {
        lemma_offset_is_given(deltas.drop_last(), c);
        let before = deltas.drop_last();
        let i = choose|i: int|
            0 <= i < before.len() && (#[trigger] before[i]).0 == c && before[i].1 == delta_of(before, c);
        assert(deltas[i] == before[i]);
    }
}

/// The only component moves as a whole and leaves nothing behind: at a voxel of its box, or
/// of the three around, moved by the offset, stands the sample of that voxel; where the box
/// was and nothing arrives, stands that of cleared space.
pub proof fn law_lone_piece_goes_as_a_whole(
    g: GridView,
    f: ComponentField,
    deltas: Seq<(u32, IVec3)>,
    w: UVec3,
)
    requires
        f.wf(),
        f.domain() == g.res,
        f.count() == 1,
        all_finite(g),
        g.res.has(w.x as int, w.y as int, w.z as int),
        delta_of(deltas, 1) != (IVec3 { x: 0, y: 0, z: 0 }),
    ensures
        ({
            let (lo, hi) = f.box_of(1);
            let d = delta_of(deltas, 1);
            let (x, y, z) = (w.x - d.x, w.y - d.y, w.z - d.z);
            let arrives = g.res.has(x, y, z) && lo.x - 3 <= x < hi.x + 3 && lo.y - 3 <= y < hi.y + 3
                && lo.z - 3 <= z < hi.z + 3;
            let was = lo.x - 3 <= w.x < hi.x + 3 && lo.y - 3 <= w.y < hi.y + 3 && lo.z - 3 <= w.z < hi.z
                + 3;
            let here = g.at(w.x as int, w.y as int, w.z as int);
            let next = if arrives {
                g.at(x, y, z)
            } else {
                cleared(g.voxel_size)
            };
            &&& arrives || was ==> translated(g, f, deltas, w) == (if moved(next, here) {
                next
            } else {
                here
            })
        }),
{
    f.lemma_wf();
    f.lemma_box_of(1);
    lemma_offset_is_given(deltas, 1);
    let d = delta_of(deltas, 1);
    let (x, y, z) = (w.x - d.x, w.y - d.y, w.z - d.z);
    assert(!kept(f, deltas, f.count(), w)) by {
        assert forall|c: u32| 1 <= c <= 1 implies !#[trigger] stays(f, deltas, c, w) by {}
    }
    assert(any_move(deltas, f.count()));
    reveal_with_fuel(gathered, 2);
    if in_wide(f, 1, w.x as int, w.y as int, w.z as int) || (g.res.has(x, y, z) && in_wide(f, 1, x, y, z)) {
        assert(wide_lo(f, 1, 0) <= w.x || wide_lo(f, 1, 0) + offset(d, 0) <= w.x);
        assert(wide_lo(f, 1, 1) <= w.y || wide_lo(f, 1, 1) + offset(d, 1) <= w.y);
        assert(wide_lo(f, 1, 2) <= w.z || wide_lo(f, 1, 2) + offset(d, 2) <= w.z);
        assert(w.x < wide_hi(f, 1, 0) || w.x < wide_hi(f, 1, 0) + offset(d, 0));
        assert(w.y < wide_hi(f, 1, 1) || w.y < wide_hi(f, 1, 1) + offset(d, 1));
        assert(w.z < wide_hi(f, 1, 2) || w.z < wide_hi(f, 1, 2) + offset(d, 2));
        assert(in_reach(f, deltas, w));
    }
    if g.res.has(x, y, z) {
        let v = UVec3 { x: x as u32, y: y as u32, z: z as u32 };
        assert(f.id(v) <= 1);
        assert(brings(f, deltas, 1, w) == in_wide(f, 1, x, y, z));
        assert(is_finite(g.at(x, y, z)));
    }
}

/// Each component that does not touch the bench drops, once, straight down by its height over
/// the bench; the others are not listed.
pub proof fn law_each_raised_piece_drops_once(f: ComponentField, n: nat)
    requires
        n <= u32::MAX,
    ensures
        forall|i: int|
            0 <= i < drops(f, n).len() ==> {
                let (c, d) = #[trigger] drops(f, n)[i];
                &&& 1 <= c <= n
                &&& f.box_of(c).0.y > 0
                &&& d.x == 0 && d.z == 0
                &&& f.box_of(c).0.y <= 0x8000_0000 ==> d.y == -(f.box_of(c).0.y as int)
            },
        forall|i: int, j: int|
            0 <= i < j < drops(f, n).len() ==> (#[trigger] drops(f, n)[i]).0 < (#[trigger] drops(f, n)[j]).0,
        forall|c: u32|
            1 <= c <= n && (#[trigger] f.box_of(c)).0.y > 0 ==> exists|i: int|
                0 <= i < drops(f, n).len() && (#[trigger] drops(f, n)[i]).0 == c,
    decreases n,
{
    if n > 0 {
        law_each_raised_piece_drops_once(f, (n - 1) as nat);
        let before = drops(f, (n - 1) as nat);
        let now = drops(f, n);
        let k = n as u32;
        assert forall|i: int| 0 <= i < before.len() implies #[trigger] now[i] == before[i] by {}
        assert forall|c: u32|
            1 <= c <= n && (#[trigger] f.box_of(c)).0.y > 0 implies exists|i: int|
            0 <= i < now.len() && (#[trigger] now[i]).0 == c by {
            if c == k {
                assert(now[before.len() as int].0 == k);
            } else {
                let i = choose|i: int| 0 <= i < before.len() && (#[trigger] before[i]).0 == c;
                assert(now[i] == before[i]);
            }
        }
    }
}

} // verus!
