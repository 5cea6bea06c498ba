//! Rigid rotation of one labelled piece by quarter turns.
//!
//! Quarter turns about a voxel map the lattice onto itself, so that no sample has to
//! be interpolated: as with a translation, the piece takes the narrow band around it
//! along, and every sample arrives as it was.

use crate::components::{in_domain, label, law_box_is_tight, solid_voxel, ComponentField, ComponentId};
use crate::dirty::DirtyRegion;
use crate::dual_contour::Axis;
use crate::gravity::{all_finite, in_wide, wide_box, wide_hi, wide_lo};
use crate::grid::{tile_of, ChunkCoord, Grid, GridView};
use crate::journal::{lemma_box_fits, records, spans_edits, VoxelEdit};
use crate::region::{box_cell, box_count, box_number, cell_of, count_of, in_box, lemma_box_number};
use crate::sample::{cleared, cleared_value, finite, is_finite, key, min_sample, moved, smaller, solid, INFINITY};
use crate::snapshot::box_within;
use crate::stamp::{apply_field, stamp_value, stamp_writes, stamp_writes_chunk, Change, Combine, Field};
use crate::vec3::{IVec3, UVec3};
use vstd::prelude::*;

verus! {

/// A point of the lattice.
pub type Point = (int, int, int);

/// A quarter turn about an axis, counter-clockwise when seen from its tip.
pub open spec fn quarter(a: Axis, p: Point) -> Point {
    match a {
        Axis::X => (p.0, -p.2, p.1),
        Axis::Y => (p.2, p.1, -p.0),
        Axis::Z => (-p.1, p.0, p.2),
    }
}

/// A number of quarter turns about an axis.
#[verifier::opaque]
pub open spec fn turned(a: Axis, n: int, p: Point) -> Point {
    if n % 4 == 0 {
        p
    } else if n % 4 == 1 {
        quarter(a, p)
    } else if n % 4 == 2 {
        quarter(a, quarter(a, p))
    } else {
        quarter(a, quarter(a, quarter(a, p)))
    }
}

/// Quarter turns about x, then about y, then about z.
pub open spec fn turn(q: IVec3, p: Point) -> Point {
    turned(Axis::Z, q.z as int, turned(Axis::Y, q.y as int, turned(Axis::X, q.x as int, p)))
}

/// The way back.
pub open spec fn turn_back(q: IVec3, p: Point) -> Point {
    turned(Axis::X, -q.x, turned(Axis::Y, -q.y, turned(Axis::Z, -q.z, p)))
}

/// The quarter turns about each axis add up to whole turns.
pub open spec fn is_whole(q: IVec3) -> bool {
    q.x as int % 4 == 0 && q.y as int % 4 == 0 && q.z as int % 4 == 0
}

/// A point turned about a pivot.
pub open spec fn about(pivot: Point, q: IVec3, p: Point) -> Point {
    let t = turn(q, (p.0 - pivot.0, p.1 - pivot.1, p.2 - pivot.2));
    (pivot.0 + t.0, pivot.1 + t.1, pivot.2 + t.2)
}

/// A point turned back about a pivot.
pub open spec fn back_about(pivot: Point, q: IVec3, p: Point) -> Point {
    let t = turn_back(q, (p.0 - pivot.0, p.1 - pivot.1, p.2 - pivot.2));
    (pivot.0 + t.0, pivot.1 + t.1, pivot.2 + t.2)
}

/// The voxel in the middle of the box of a component.
pub open spec fn pivot_of(f: ComponentField, id: ComponentId) -> Point {
    let b = f.box_of(id);
    ((b.0.x + b.1.x) / 2, (b.0.y + b.1.y) / 2, (b.0.z + b.1.z) / 2)
}

/// A voxel as a point.
pub open spec fn point(v: UVec3) -> Point {
    (v.x as int, v.y as int, v.z as int)
}

proof fn lemma_turned_back(a: Axis, n: int, p: Point)
    ensures
        turned(a, -n, turned(a, n, p)) == p,
        turned(a, n, turned(a, -n, p)) == p,
{
    reveal(turned);
    assert((-n) % 4 == (4 - n % 4) % 4);
}

/// Turning back undoes turning, and the other way round: nothing is lost.
pub proof fn law_turn_is_undone(pivot: Point, q: IVec3, p: Point)
    ensures
        back_about(pivot, q, about(pivot, q, p)) == p,
        about(pivot, q, back_about(pivot, q, p)) == p,
{
    let o = (p.0 - pivot.0, p.1 - pivot.1, p.2 - pivot.2);
    let x = turned(Axis::X, q.x as int, o);
    let y = turned(Axis::Y, q.y as int, x);
    lemma_turned_back(Axis::X, q.x as int, o);
    lemma_turned_back(Axis::Y, q.y as int, x);
    lemma_turned_back(Axis::Z, q.z as int, y);
    let z = turned(Axis::Z, -q.z, o);
    let w = turned(Axis::Y, -q.y, z);
    lemma_turned_back(Axis::Z, q.z as int, o);
    lemma_turned_back(Axis::Y, q.y as int, z);
    lemma_turned_back(Axis::X, q.x as int, w);
}

/// Four quarter turns about one axis are none.
pub proof fn law_four_quarters_are_none(a: Axis, n: int, p: Point)
    ensures
        turned(a, n + 4, p) == turned(a, n, p),
        turned(a, 4, p) == p,
{
    reveal(turned);
}

/// The square of a distance.
pub open spec fn squared(a: Point, b: Point) -> int {
    (a.0 - b.0) * (a.0 - b.0) + (a.1 - b.1) * (a.1 - b.1) + (a.2 - b.2) * (a.2 - b.2)
}

proof fn lemma_quarter_is_rigid(a: Axis, p: Point, r: Point)
    ensures
        squared(quarter(a, p), quarter(a, r)) == squared(p, r),
{
    let (x, y, z) = (p.0 - r.0, p.1 - r.1, p.2 - r.2);
    assert((-x) * (-x) == x * x) by (nonlinear_arith);
    assert((-y) * (-y) == y * y) by (nonlinear_arith);
    assert((-z) * (-z) == z * z) by (nonlinear_arith);
    let (s, t) = (quarter(a, p), quarter(a, r));
    assert(s.0 - t.0 == x || s.0 - t.0 == z || s.0 - t.0 == -y);
}

proof fn lemma_turned_is_rigid(a: Axis, n: int, p: Point, r: Point)
    ensures
        squared(turned(a, n, p), turned(a, n, r)) == squared(p, r),
{
    reveal(turned);
    lemma_quarter_is_rigid(a, p, r);
    lemma_quarter_is_rigid(a, quarter(a, p), quarter(a, r));
    lemma_quarter_is_rigid(a, quarter(a, quarter(a, p)), quarter(a, quarter(a, r)));
}

/// Turning keeps every distance: the piece stays as rigid as it is.
pub proof fn law_turn_is_rigid(pivot: Point, q: IVec3, p: Point, r: Point)
    ensures
        squared(about(pivot, q, p), about(pivot, q, r)) == squared(p, r),
{
    let o = (p.0 - pivot.0, p.1 - pivot.1, p.2 - pivot.2);
    let u = (r.0 - pivot.0, r.1 - pivot.1, r.2 - pivot.2);
    lemma_turned_is_rigid(Axis::X, q.x as int, o, u);
    let (o1, u1) = (turned(Axis::X, q.x as int, o), turned(Axis::X, q.x as int, u));
    lemma_turned_is_rigid(Axis::Y, q.y as int, o1, u1);
    let (o2, u2) = (turned(Axis::Y, q.y as int, o1), turned(Axis::Y, q.y as int, u1));
    lemma_turned_is_rigid(Axis::Z, q.z as int, o2, u2);
    assert(squared(o, u) == squared(p, r));
    let (o3, u3) = (turn(q, o), turn(q, u));
    assert(squared(about(pivot, q, p), about(pivot, q, r)) == squared(o3, u3));
}

/// Quarter turns about one axis add up: so many turns and then so many more are as many
/// as both together. A half turn is a quarter turn and another one.
pub proof fn law_turns_add_up(a: Axis, m: int, n: int, p: Point)
    ensures
        turned(a, m + n, p) == turned(a, m, turned(a, n, p)),
        turned(a, 2, p) == turned(a, 1, turned(a, 1, p)),
{
    reveal(turned);
    assert((m + n) % 4 == (m % 4 + n % 4) % 4);
}

/// The volume that three offsets span, below zero where they are left-handed.
pub open spec fn determinant(p: Point, r: Point, s: Point) -> int {
    p.0 * (r.1 * s.2 - r.2 * s.1) - p.1 * (r.0 * s.2 - r.2 * s.0) + p.2 * (r.0 * s.1 - r.1 * s.0)
}

proof fn lemma_quarter_keeps_handedness(a: Axis, p: Point, r: Point, s: Point)
    ensures
        determinant(quarter(a, p), quarter(a, r), quarter(a, s)) == determinant(p, r, s),
{
    let (p0, p1, p2) = p;
    let (r0, r1, r2) = r;
    let (s0, s1, s2) = s;
    match a {
        Axis::X => {
            assert(p0 * ((-r2) * s1 - r1 * (-s2)) - (-p2) * (r0 * s1 - r1 * s0) + p1 * (r0 * (-s2) - (
            -r2) * s0) == p0 * (r1 * s2 - r2 * s1) - p1 * (r0 * s2 - r2 * s0) + p2 * (r0 * s1 - r1
                * s0)) by (nonlinear_arith);
        },
        Axis::Y => {
            assert(p2 * (r1 * (-s0) - (-r0) * s1) - p1 * (r2 * (-s0) - (-r0) * s2) + (-p0) * (r2 * s1
                - r1 * s2) == p0 * (r1 * s2 - r2 * s1) - p1 * (r0 * s2 - r2 * s0) + p2 * (r0 * s1 - r1
                * s0)) by (nonlinear_arith);
        },
        Axis::Z => {
            assert((-p1) * (r0 * s2 - r2 * s0) - p0 * ((-r1) * s2 - r2 * (-s1)) + p2 * ((-r1) * s0
                - r0 * (-s1)) == p0 * (r1 * s2 - r2 * s1) - p1 * (r0 * s2 - r2 * s0) + p2 * (r0 * s1
                - r1 * s0)) by (nonlinear_arith);
        },
    }
}

proof fn lemma_turned_keeps_handedness(a: Axis, n: int, p: Point, r: Point, s: Point)
    ensures
        determinant(turned(a, n, p), turned(a, n, r), turned(a, n, s)) == determinant(p, r, s),
{
    reveal(turned);
    lemma_quarter_keeps_handedness(a, p, r, s);
    let (p1, r1, s1) = (quarter(a, p), quarter(a, r), quarter(a, s));
    lemma_quarter_keeps_handedness(a, p1, r1, s1);
    let (p2, r2, s2) = (quarter(a, p1), quarter(a, r1), quarter(a, s1));
    lemma_quarter_keeps_handedness(a, p2, r2, s2);
}

/// Turning keeps handedness: it makes no mirror images.
pub proof fn law_turn_keeps_handedness(q: IVec3, p: Point, r: Point, s: Point)
    ensures
        determinant(turn(q, p), turn(q, r), turn(q, s)) == determinant(p, r, s),
{
    lemma_turned_keeps_handedness(Axis::X, q.x as int, p, r, s);
    let (p1, r1, s1) = (
        turned(Axis::X, q.x as int, p),
        turned(Axis::X, q.x as int, r),
        turned(Axis::X, q.x as int, s),
    );
    lemma_turned_keeps_handedness(Axis::Y, q.y as int, p1, r1, s1);
    let (p2, r2, s2) = (
        turned(Axis::Y, q.y as int, p1),
        turned(Axis::Y, q.y as int, r1),
        turned(Axis::Y, q.y as int, s1),
    );
    lemma_turned_keeps_handedness(Axis::Z, q.z as int, p2, r2, s2);
}

/// A quarter turn keeps the coordinate along its axis. In the plane across the axis it
/// keeps the distance from the axis, arrives at a right angle to where it started, and
/// goes counter-clockwise when seen from the tip of the axis.
pub proof fn law_quarter_is_a_right_angle(a: Axis, p: Point)
    ensures
        ({
            let t = turned(a, 1, p);
            match a {
                Axis::X => {
                    &&& t.0 == p.0
                    &&& p.1 * t.1 + p.2 * t.2 == 0
                    &&& p.1 * t.2 - p.2 * t.1 == p.1 * p.1 + p.2 * p.2
                    &&& t.1 * t.1 + t.2 * t.2 == p.1 * p.1 + p.2 * p.2
                },
                Axis::Y => {
                    &&& t.1 == p.1
                    &&& p.2 * t.2 + p.0 * t.0 == 0
                    &&& p.2 * t.0 - p.0 * t.2 == p.2 * p.2 + p.0 * p.0
                    &&& t.2 * t.2 + t.0 * t.0 == p.2 * p.2 + p.0 * p.0
                },
                Axis::Z => {
                    &&& t.2 == p.2
                    &&& p.0 * t.0 + p.1 * t.1 == 0
                    &&& p.0 * t.1 - p.1 * t.0 == p.0 * p.0 + p.1 * p.1
                    &&& t.0 * t.0 + t.1 * t.1 == p.0 * p.0 + p.1 * p.1
                },
            }
        }),
{
    reveal(turned);
    let (x, y, z) = p;
    assert(y * (-z) + z * y == 0) by (nonlinear_arith);
    assert(y * y - z * (-z) == y * y + z * z) by (nonlinear_arith);
    assert((-z) * (-z) == z * z) by (nonlinear_arith);
    assert(z * (-x) + x * z == 0) by (nonlinear_arith);
    assert(z * z - x * (-x) == z * z + x * x) by (nonlinear_arith);
    assert((-x) * (-x) == x * x) by (nonlinear_arith);
    assert(x * (-y) + y * x == 0) by (nonlinear_arith);
    assert(x * x - y * (-y) == x * x + y * y) by (nonlinear_arith);
    assert((-y) * (-y) == y * y) by (nonlinear_arith);
}

/// The turns about the three axes are made one after the other: about x first, then
/// about y, then about z.
pub proof fn law_turn_goes_x_then_y_then_z(q: IVec3, p: Point)
    ensures
        turn(q, p) == turn(
            IVec3 { x: 0, y: 0, z: q.z },
            turn(IVec3 { x: 0, y: q.y, z: 0 }, turn(IVec3 { x: q.x, y: 0, z: 0 }, p)),
        ),
        turn(IVec3 { x: q.x, y: 0, z: 0 }, p) == turned(Axis::X, q.x as int, p),
        turn(IVec3 { x: 0, y: q.y, z: 0 }, p) == turned(Axis::Y, q.y as int, p),
        turn(IVec3 { x: 0, y: 0, z: q.z }, p) == turned(Axis::Z, q.z as int, p),
        turn(IVec3 { x: 0, y: 0, z: 0 }, p) == p,
{
    reveal(turned);
    assert(0int % 4 == 0);
}

/// The pivot stays where it is, and what is turned about it turns as an offset from it:
/// moving the pivot and the point together moves the result with them.
pub proof fn law_pivot_stays(pivot: Point, q: IVec3, p: Point, d: Point)
    ensures
        about(pivot, q, pivot) == pivot,
        about((0, 0, 0), q, p) == turn(q, p),
        ({
            let here = about(pivot, q, p);
            about(
                (pivot.0 + d.0, pivot.1 + d.1, pivot.2 + d.2),
                q,
                (p.0 + d.0, p.1 + d.1, p.2 + d.2),
            ) == (here.0 + d.0, here.1 + d.1, here.2 + d.2)
        }),
{
    reveal(turned);
    let o = (p.0 - pivot.0, p.1 - pivot.1, p.2 - pivot.2);
    assert(((p.0 + d.0) - (pivot.0 + d.0), (p.1 + d.1) - (pivot.1 + d.1), (p.2 + d.2) - (pivot.2 + d.2))
        == o);
    assert((p.0 - 0, p.1 - 0, p.2 - 0) == p);
}

/// A number of quarter turns, between none and three.
fn quarters(n: i32) -> (r: u32)
    ensures
        r == n as int % 4,
{
    ((n as i64 + 0x8000_0000) as u64 % 4) as u32
}

/// As many quarter turns the other way.
fn quarters_back(n: i32) -> (r: u32)
    ensures
        r == (-n) % 4,
{
    ((0x8000_0000 - n as i64) as u64 % 4) as u32
}

/// An offset in the lattice.
#[derive(Copy, Clone, Debug, PartialEq, Eq, Structural)]
struct Offset {
    x: i64,
    y: i64,
    z: i64,
}

/// How far an offset may reach.
const FARTHEST: i64 = 0x10_0000_0000;

impl Offset {
    spec fn at(self) -> Point {
        (self.x as int, self.y as int, self.z as int)
    }

    spec fn fits(self) -> bool {
        &&& -FARTHEST <= self.x <= FARTHEST
        &&& -FARTHEST <= self.y <= FARTHEST
        &&& -FARTHEST <= self.z <= FARTHEST
    }

    fn quarter(self, a: Axis) -> (r: Offset)
        requires
            self.fits(),
        ensures
            r.fits(),
            r.at() == quarter(a, self.at()),
    {
        match a {
            Axis::X => Offset { x: self.x, y: -self.z, z: self.y },
            Axis::Y => Offset { x: self.z, y: self.y, z: -self.x },
            Axis::Z => Offset { x: -self.y, y: self.x, z: self.z },
        }
    }

    fn turned(self, a: Axis, n: u32) -> (r: Offset)
        requires
            self.fits(),
            n < 4,
        ensures
            r.fits(),
            r.at() == turned(a, n as int, self.at()),
    {
        proof {
            reveal(turned);
        }
        if n == 0 {
            self
        } else if n == 1 {
            self.quarter(a)
        } else if n == 2 {
            self.quarter(a).quarter(a)
        } else {
            self.quarter(a).quarter(a).quarter(a)
        }
    }

    fn turn(self, q: IVec3) -> (r: Offset)
        requires
            self.fits(),
        ensures
            r.fits(),
            r.at() == turn(q, self.at()),
    {
        proof {
            lemma_turned_by_rest(q);
        }
        self.turned(Axis::X, quarters(q.x)).turned(Axis::Y, quarters(q.y)).turned(
            Axis::Z,
            quarters(q.z),
        )
    }

    fn turn_back(self, q: IVec3) -> (r: Offset)
        requires
            self.fits(),
        ensures
            r.fits(),
            r.at() == turn_back(q, self.at()),
    {
        proof {
            lemma_turned_by_rest(q);
        }
        self.turned(Axis::Z, quarters_back(q.z)).turned(Axis::Y, quarters_back(q.y)).turned(
            Axis::X,
            quarters_back(q.x),
        )
    }
}

/// Only the rest after whole turns counts.
proof fn lemma_turned_by_rest(q: IVec3)
    ensures
        forall|a: Axis, n: int, p: Point| #[trigger] turned(a, n % 4, p) == turned(a, n, p),
{
    reveal(turned);
}

/// A voxel turned about a pivot by quarter turns.
pub fn rotate_voxel(v: IVec3, pivot: IVec3, q: IVec3) -> (r: IVec3)
    requires
        -0x1fff_ffff <= v.x <= 0x1fff_ffff,
        -0x1fff_ffff <= v.y <= 0x1fff_ffff,
        -0x1fff_ffff <= v.z <= 0x1fff_ffff,
        -0x1fff_ffff <= pivot.x <= 0x1fff_ffff,
        -0x1fff_ffff <= pivot.y <= 0x1fff_ffff,
        -0x1fff_ffff <= pivot.z <= 0x1fff_ffff,
    ensures
        (r.x as int, r.y as int, r.z as int) == about(
            (pivot.x as int, pivot.y as int, pivot.z as int),
            q,
            (v.x as int, v.y as int, v.z as int),
        ),
{
    let o = Offset {
        x: v.x as i64 - pivot.x as i64,
        y: v.y as i64 - pivot.y as i64,
        z: v.z as i64 - pivot.z as i64,
    };
    let t = o.turn(q);
    proof {
        lemma_turn_stays_near(q, o.at(), 0x3fff_fffe);
    }
    IVec3 {
        x: (pivot.x as i64 + t.x) as i32,
        y: (pivot.y as i64 + t.y) as i32,
        z: (pivot.z as i64 + t.z) as i32,
    }
}

/// No coordinate of a point is farther from zero than `m`.
spec fn near(p: Point, m: int) -> bool {
    -m <= p.0 <= m && -m <= p.1 <= m && -m <= p.2 <= m
}

proof fn lemma_turned_stays_near(axis: Axis, q: int, p: Point, m: int)
    requires
        near(p, m),
    ensures
        near(turned(axis, q, p), m),
{
    reveal(turned);
}

proof fn lemma_turn_stays_near(q: IVec3, p: Point, m: int)
    requires
        near(p, m),
    ensures
        near(turn(q, p), m),
        near(turn_back(q, p), m),
{
    let x = turned(Axis::X, q.x as int, p);
    lemma_turned_stays_near(Axis::X, q.x as int, p, m);
    let y = turned(Axis::Y, q.y as int, x);
    lemma_turned_stays_near(Axis::Y, q.y as int, x, m);
    lemma_turned_stays_near(Axis::Z, q.z as int, y, m);
    let z = turned(Axis::Z, -q.z, p);
    lemma_turned_stays_near(Axis::Z, -q.z, p, m);
    let w = turned(Axis::Y, -q.y, z);
    lemma_turned_stays_near(Axis::Y, -q.y, z, m);
    lemma_turned_stays_near(Axis::X, -q.x, w, m);
}

/// The voxel about which a component turns: the middle of its box.
pub fn component_pivot(labels: &ComponentField, id: ComponentId) -> (r: Option<IVec3>)
    requires
        labels.wf(),
        labels.domain().x <= 0x1fff_ffff,
        labels.domain().y <= 0x1fff_ffff,
        labels.domain().z <= 0x1fff_ffff,
    ensures
        r is Some <==> 1 <= id <= labels.count(),
        r matches Some(p) ==> (p.x as int, p.y as int, p.z as int) == pivot_of(*labels, id),
{
    match labels.bounds_of(id) {
        Some((min, max)) => Some(
            IVec3 {
                x: ((min.x + max.x) / 2) as i32,
                y: ((min.y + max.y) / 2) as i32,
                z: ((min.z + max.z) / 2) as i32,
            },
        ),
        None => None,
    }
}

/// The coordinate of a point along axis 0, 1 or 2.
pub open spec fn coordinate(p: Point, a: int) -> int {
    if a == 0 {
        p.0
    } else if a == 1 {
        p.1
    } else {
        p.2
    }
}

/// The first voxel of the widened box of a component.
pub open spec fn wide_first(f: ComponentField, id: ComponentId) -> Point {
    (wide_lo(f, id, 0), wide_lo(f, id, 1), wide_lo(f, id, 2))
}

/// The last voxel of the widened box of a component.
pub open spec fn wide_last(f: ComponentField, id: ComponentId) -> Point {
    (wide_hi(f, id, 0) - 1, wide_hi(f, id, 1) - 1, wide_hi(f, id, 2) - 1)
}

/// Along axis `a`, `x` lies between the ends of the widened box before and after the
/// turn.
pub open spec fn turn_spans(f: ComponentField, id: ComponentId, q: IVec3, a: int, x: int) -> bool {
    let first = wide_first(f, id);
    let last = wide_last(f, id);
    let s = coordinate(about(pivot_of(f, id), q, first), a);
    let t = coordinate(about(pivot_of(f, id), q, last), a);
    &&& coordinate(first, a) <= x || s <= x || t <= x
    &&& x <= coordinate(last, a) || x <= s || x <= t
}

/// A voxel lies in the smallest box around the widened box before and after the turn.
pub open spec fn in_turn_box(f: ComponentField, id: ComponentId, q: IVec3, v: UVec3) -> bool {
    &&& turn_spans(f, id, q, 0, v.x as int)
    &&& turn_spans(f, id, q, 1, v.y as int)
    &&& turn_spans(f, id, q, 2, v.z as int)
}

/// Along every axis, `p` lies between `a` and `b`.
spec fn between(a: Point, p: Point, b: Point) -> bool {
    &&& a.0 <= p.0 <= b.0 || b.0 <= p.0 <= a.0
    &&& a.1 <= p.1 <= b.1 || b.1 <= p.1 <= a.1
    &&& a.2 <= p.2 <= b.2 || b.2 <= p.2 <= a.2
}

proof fn lemma_turned_between(axis: Axis, n: int, a: Point, p: Point, b: Point)
    requires
        between(a, p, b),
    ensures
        between(turned(axis, n, a), turned(axis, n, p), turned(axis, n, b)),
{
    reveal(turned);
}

proof fn lemma_about_between(pivot: Point, q: IVec3, a: Point, p: Point, b: Point)
    requires
        between(a, p, b),
    ensures
        between(about(pivot, q, a), about(pivot, q, p), about(pivot, q, b)),
{
    let a0 = (a.0 - pivot.0, a.1 - pivot.1, a.2 - pivot.2);
    let p0 = (p.0 - pivot.0, p.1 - pivot.1, p.2 - pivot.2);
    let b0 = (b.0 - pivot.0, b.1 - pivot.1, b.2 - pivot.2);
    lemma_turned_between(Axis::X, q.x as int, a0, p0, b0);
    let a1 = turned(Axis::X, q.x as int, a0);
    let p1 = turned(Axis::X, q.x as int, p0);
    let b1 = turned(Axis::X, q.x as int, b0);
    lemma_turned_between(Axis::Y, q.y as int, a1, p1, b1);
    let a2 = turned(Axis::Y, q.y as int, a1);
    let p2 = turned(Axis::Y, q.y as int, p1);
    let b2 = turned(Axis::Y, q.y as int, b1);
    lemma_turned_between(Axis::Z, q.z as int, a2, p2, b2);
}

/// The widened box and what it turns into lie in the box of the turn.
pub(crate) proof fn lemma_turn_box(f: ComponentField, id: ComponentId, q: IVec3, v: UVec3)
    requires
        ({
            let s = back_about(pivot_of(f, id), q, point(v));
            in_wide(f, id, v.x as int, v.y as int, v.z as int) || in_wide(f, id, s.0, s.1, s.2)
        }),
    ensures
        in_turn_box(f, id, q, v),
{
    let pivot = pivot_of(f, id);
    let s = back_about(pivot, q, point(v));
    if in_wide(f, id, s.0, s.1, s.2) {
        lemma_about_between(pivot, q, wide_first(f, id), s, wide_last(f, id));
        law_turn_is_undone(pivot, q, point(v));
    }
}

/// The range, along one axis, between the ends of the boxes, clipped to `n` voxels.
fn clipped(first: i64, last: i64, s: i64, t: i64, n: u32) -> (r: (u32, u32))
    requires
        -0x100_0000_0000 <= first <= 0x100_0000_0000,
        -0x100_0000_0000 <= last <= 0x100_0000_0000,
        -0x100_0000_0000 <= s <= 0x100_0000_0000,
        -0x100_0000_0000 <= t <= 0x100_0000_0000,
    ensures
        r.1 <= n,
        forall|x: int|
            0 <= x < n ==> (#[trigger] in_range(r, x) <==> (first <= x || s <= x || t <= x) && (x <= last
                || x <= s || x <= t)),
{
    let low: i64 = if first <= s && first <= t {
        first
    } else if s <= t {
        s
    } else {
        t
    };
    let high: i64 = if last >= s && last >= t {
        last
    } else if s >= t {
        s
    } else {
        t
    };
    let from: u32 = if low < 0 {
        0
    } else if low >= n as i64 {
        n
    } else {
        low as u32
    };
    let to: u32 = if high < 0 {
        0
    } else if high >= n as i64 {
        n
    } else {
        (high + 1) as u32
    };
    (from, to)
}

spec fn in_range(r: (u32, u32), x: int) -> bool {
    r.0 <= x < r.1
}

/// A pivot as an offset from the first voxel.
fn pivot_offset(labels: &ComponentField, id: ComponentId) -> (r: Offset)
    requires
        labels.wf(),
        1 <= id <= labels.count(),
    ensures
        r.at() == pivot_of(*labels, id),
        0 <= r.x <= u32::MAX,
        0 <= r.y <= u32::MAX,
        0 <= r.z <= u32::MAX,
{
    match labels.bounds_of(id) {
        Some((min, max)) => Offset {
            x: (min.x as i64 + max.x as i64) / 2,
            y: (min.y as i64 + max.y as i64) / 2,
            z: (min.z as i64 + max.z as i64) / 2,
        },
        None => Offset { x: 0, y: 0, z: 0 },
    }
}

fn turned_about(pivot: Offset, q: IVec3, p: Offset) -> (r: Offset)
    requires
        0 <= pivot.x <= u32::MAX,
        0 <= pivot.y <= u32::MAX,
        0 <= pivot.z <= u32::MAX,
        -1 <= p.x <= u32::MAX,
        -1 <= p.y <= u32::MAX,
        -1 <= p.z <= u32::MAX,
    ensures
        r.at() == about(pivot.at(), q, p.at()),
        near(r.at(), 0x100_0000_0000),
{
    let t = (Offset { x: p.x - pivot.x, y: p.y - pivot.y, z: p.z - pivot.z }).turn(q);
    Offset { x: pivot.x + t.x, y: pivot.y + t.y, z: pivot.z + t.z }
}

fn turned_back_about(pivot: Offset, q: IVec3, v: UVec3) -> (r: Offset)
    requires
        0 <= pivot.x <= u32::MAX,
        0 <= pivot.y <= u32::MAX,
        0 <= pivot.z <= u32::MAX,
    ensures
        r.at() == back_about(pivot.at(), q, point(v)),
{
    let t = (Offset {
        x: v.x as i64 - pivot.x,
        y: v.y as i64 - pivot.y,
        z: v.z as i64 - pivot.z,
    }).turn_back(q);
    Offset { x: pivot.x + t.x, y: pivot.y + t.y, z: pivot.z + t.z }
}

/// Where a turn of component `id` takes a voxel, if that is in the domain.
pub fn rotate_picked(labels: &ComponentField, id: ComponentId, q: IVec3, v: UVec3) -> (r: Option<UVec3>)
    requires
        labels.wf(),
        1 <= id <= labels.count(),
    ensures
        ({
            let p = about(pivot_of(*labels, id), q, point(v));
            match r {
                Some(w) => point(w) == p && in_domain(labels.domain(), w),
                None => !labels.domain().has(p.0, p.1, p.2),
            }
        }),
{
    let res = labels.res();
    let pivot = pivot_offset(labels, id);
    let p = turned_about(pivot, q, Offset { x: v.x as i64, y: v.y as i64, z: v.z as i64 });
    if 0 <= p.x && p.x < res.x as i64 && 0 <= p.y && p.y < res.y as i64 && 0 <= p.z && p.z
        < res.z as i64 {
        Some(UVec3 { x: p.x as u32, y: p.y as u32, z: p.z as u32 })
    } else {
        None
    }
}

/// The box that a turn of component `id` can read from or write to.
pub fn touched_region_for_rotate(labels: &ComponentField, id: ComponentId, q: IVec3) -> (r: Option<
    (UVec3, UVec3),
>)
    requires
        labels.wf(),
    ensures
        r is Some <==> 1 <= id <= labels.count(),
        r matches Some(b) ==> {
            &&& box_within(b.0, b.1, labels.domain())
            &&& forall|v: UVec3|
                in_domain(labels.domain(), v) ==> (in_box(b.0, b.1, v.x as int, v.y as int, v.z as int)
                    <==> #[trigger] in_turn_box(*labels, id, q, v))
        },
{
    if id == 0 || id as usize > labels.component_count() {
        return None;
    }
    let res = labels.res();
    let pivot = pivot_offset(labels, id);
    let (lo, hi) = wide_box(labels, id);
    let first = Offset { x: lo.x as i64, y: lo.y as i64, z: lo.z as i64 };
    let last = Offset { x: hi.x as i64 - 1, y: hi.y as i64 - 1, z: hi.z as i64 - 1 };
    let s = turned_about(pivot, q, first);
    let t = turned_about(pivot, q, last);
    let x = clipped(first.x, last.x, s.x, t.x, res.x);
    let y = clipped(first.y, last.y, s.y, t.y, res.y);
    let z = clipped(first.z, last.z, s.z, t.z, res.z);
    proof {
        assert(first.at() == wide_first(*labels, id));
        assert(last.at() == wide_last(*labels, id));
        assert forall|v: UVec3| in_domain(labels.domain(), v) implies (in_box(
            UVec3 { x: x.0, y: y.0, z: z.0 },
            UVec3 { x: x.1, y: y.1, z: z.1 },
            v.x as int,
            v.y as int,
            v.z as int,
        ) <==> #[trigger] in_turn_box(*labels, id, q, v)) by {
            assert(in_range(x, v.x as int) <==> turn_spans(*labels, id, q, 0, v.x as int));
            assert(in_range(y, v.y as int) <==> turn_spans(*labels, id, q, 1, v.y as int));
            assert(in_range(z, v.z as int) <==> turn_spans(*labels, id, q, 2, v.z as int));
        }
    }
    Some((UVec3 { x: x.0, y: y.0, z: z.0 }, UVec3 { x: x.1, y: y.1, z: z.1 }))
}

/// A piece other than `id` has voxel `v` in its band, or owns it.
pub open spec fn held_by(f: ComponentField, id: ComponentId, c: u32, v: UVec3) -> bool {
    &&& c != id
    &&& in_wide(f, c, v.x as int, v.y as int, v.z as int)
    &&& f.id(v) == c || f.id(v) == 0
}

/// Voxel `v` belongs to one of the first `n` pieces, and that is not `id`.
pub open spec fn held(f: ComponentField, id: ComponentId, n: int, v: UVec3) -> bool {
    exists|c: u32| 1 <= c <= n && #[trigger] held_by(f, id, c, v)
}

/// The voxel whose sample a turn of component `id` brings to voxel `v`.
pub open spec fn turn_source(f: ComponentField, id: ComponentId, q: IVec3, v: UVec3) -> Point {
    back_about(pivot_of(f, id), q, point(v))
}

/// The turn of component `id` brings a sample to voxel `v`.
pub open spec fn carries(f: ComponentField, id: ComponentId, q: IVec3, v: UVec3) -> bool {
    let s = turn_source(f, id, q, v);
    &&& f.domain().has(s.0, s.1, s.2)
    &&& in_wide(f, id, s.0, s.1, s.2)
    &&& ({
        let w = UVec3 { x: s.0 as u32, y: s.1 as u32, z: s.2 as u32 };
        f.id(w) == id || f.id(w) == 0
    })
}

/// The smallest sample that reaches voxel `v`, from the pieces that stay and from the
/// one that turns; infinite if none does.
pub open spec fn met(g: GridView, f: ComponentField, id: ComponentId, q: IVec3, v: UVec3) -> u32 {
    let s = turn_source(f, id, q, v);
    let base = if held(f, id, f.count(), v) {
        min_sample(INFINITY, g.at(v.x as int, v.y as int, v.z as int))
    } else {
        INFINITY
    };
    if carries(f, id, q, v) {
        min_sample(base, g.at(s.0, s.1, s.2))
    } else {
        base
    }
}

/// The sample that the turn assigns to voxel `v`.
pub open spec fn turn_sample(g: GridView, f: ComponentField, id: ComponentId, q: IVec3, v: UVec3) -> u32 {
    if is_finite(met(g, f, id, q, v)) {
        met(g, f, id, q, v)
    } else if held(f, id, f.count(), v) {
        g.at(v.x as int, v.y as int, v.z as int)
    } else {
        cleared(g.voxel_size)
    }
}

/// The turn assigns a sample to voxel `v`: the piece leaves it or arrives there.
pub open spec fn in_turn(f: ComponentField, id: ComponentId, q: IVec3, v: UVec3) -> bool {
    in_wide(f, id, v.x as int, v.y as int, v.z as int) || carries(f, id, q, v)
}

/// The turn writes to voxel `v`: its sample changes by more than rounding.
pub open spec fn turn_writes(g: GridView, f: ComponentField, id: ComponentId, q: IVec3, v: UVec3) -> bool {
    &&& 1 <= id <= f.count()
    &&& !is_whole(q)
    &&& in_turn(f, id, q, v)
    &&& moved(turn_sample(g, f, id, q, v), g.at(v.x as int, v.y as int, v.z as int))
}

/// The turn writes to some voxel of chunk `k`.
pub open spec fn turn_writes_chunk(
    g: GridView,
    f: ComponentField,
    id: ComponentId,
    q: IVec3,
    k: ChunkCoord,
) -> bool {
    exists|v: UVec3|
        in_domain(g.res, v) && #[trigger] turn_writes(g, f, id, q, v) && tile_of(
            v.x as int,
            v.y as int,
            v.z as int,
        ) == k
}

/// `end` is `g` with one piece turned.
pub open spec fn piece_turned(
    g: GridView,
    end: GridView,
    f: ComponentField,
    id: ComponentId,
    q: IVec3,
) -> bool {
    &&& end.same_domain(g)
    &&& forall|v: UVec3|
        in_domain(g.res, v) ==> #[trigger] end.at(v.x as int, v.y as int, v.z as int) == (
        if turn_writes(g, f, id, q, v) {
            turn_sample(g, f, id, q, v)
        } else {
            g.at(v.x as int, v.y as int, v.z as int)
        })
    &&& forall|k: ChunkCoord| #[trigger]
        end.tiles.dom().contains(k) <==> g.tiles.dom().contains(k) || turn_writes_chunk(
            g,
            f,
            id,
            q,
            k,
        )
}

/// Whether quarter turns add up to whole turns about each axis.
pub fn is_identity(q: IVec3) -> (r: bool)
    ensures
        r == is_whole(q),
{
    quarters(q.x) == 0 && quarters(q.y) == 0 && quarters(q.z) == 0
}

spec fn boxes_ok(f: ComponentField, boxes: Seq<(UVec3, UVec3)>) -> bool {
    &&& boxes.len() == f.count() + 1
    &&& forall|c: u32, x: int, y: int, z: int|
        #![trigger in_wide(f, c, x, y, z)]
        1 <= c <= f.count() ==> (in_wide(f, c, x, y, z) <==> in_box(
            boxes[c as int].0,
            boxes[c as int].1,
            x,
            y,
            z,
        ))
}

fn wide_boxes(labels: &ComponentField) -> (r: Vec<(UVec3, UVec3)>)
    requires
        labels.wf(),
    ensures
        boxes_ok(*labels, r@),
{
    let count: usize = labels.component_count();
    let mut boxes: Vec<(UVec3, UVec3)> = Vec::new();
    boxes.push((UVec3::splat(0), UVec3::splat(0)));
    let mut c: usize = 1;
    while c <= count
        invariant
            1 <= c <= count + 1,
            count == labels.count(),
            count <= u32::MAX,
            count < usize::MAX,
            labels.wf(),
            boxes.len() == c,
            forall|k: u32, x: int, y: int, z: int|
                #![trigger in_wide(*labels, k, x, y, z)]
                1 <= k < c ==> (in_wide(*labels, k, x, y, z) <==> in_box(
                    boxes@[k as int].0,
                    boxes@[k as int].1,
                    x,
                    y,
                    z,
                )),
        decreases count + 1 - c,
    {
        boxes.push(wide_box(labels, c as u32));
        c = c + 1;
    }
    boxes
}

fn is_in(b: (UVec3, UVec3), v: UVec3) -> (r: bool)
    ensures
        r == in_box(b.0, b.1, v.x as int, v.y as int, v.z as int),
{
    b.0.x <= v.x && v.x < b.1.x && b.0.y <= v.y && v.y < b.1.y && b.0.z <= v.z && v.z < b.1.z
}

/// Whether a voxel belongs to a piece that does not turn.
fn is_held(labels: &ComponentField, boxes: &Vec<(UVec3, UVec3)>, id: ComponentId, v: UVec3) -> (r: bool)
    requires
        labels.wf(),
        boxes_ok(*labels, boxes@),
        in_domain(labels.domain(), v),
    ensures
        r == held(*labels, id, labels.count(), v),
{
    proof {
        labels.lemma_wf();
    }
    let here: u32 = labels.id_at(v.x, v.y, v.z);
    let mut c: usize = 1;
    while c < boxes.len()
        invariant
            1 <= c <= boxes.len(),
            0 <= labels.count() <= u32::MAX,
            boxes_ok(*labels, boxes@),
            here == labels.id(v),
            !held(*labels, id, c - 1, v),
        decreases boxes.len() - c,
    {
        let inside: bool = is_in(boxes[c], v);
        proof {
            assert(inside == in_wide(*labels, c as u32, v.x as int, v.y as int, v.z as int));
        }
        if c as u32 != id && inside && (here == c as u32 || here == 0) {
            assert(held_by(*labels, id, c as u32, v));
            return true;
        }
        proof {
            assert forall|k: u32| 1 <= k <= c implies !#[trigger] held_by(*labels, id, k, v) by {}
        }
        c = c + 1;
    }
    false
}

/// What a turn offers for a voxel.
fn turn_offer(
    grid: &Grid,
    labels: &ComponentField,
    boxes: &Vec<(UVec3, UVec3)>,
    id: ComponentId,
    pivot: Offset,
    q: IVec3,
    v: UVec3,
) -> (r: Option<u32>)
    requires
        grid.wf(),
        labels.wf(),
        labels.domain() == grid@.res,
        boxes_ok(*labels, boxes@),
        1 <= id <= labels.count(),
        pivot.at() == pivot_of(*labels, id),
        0 <= pivot.x <= u32::MAX,
        0 <= pivot.y <= u32::MAX,
        0 <= pivot.z <= u32::MAX,
        in_domain(grid@.res, v),
    ensures
        r == (if in_turn(*labels, id, q, v) {
            Some(turn_sample(grid@, *labels, id, q, v))
        } else {
            None
        }),
{
    let res = labels.res();
    let s = turned_back_about(pivot, q, v);
    assert(s.at() == turn_source(*labels, id, q, v));
    let leaves: bool = is_in(boxes[id as usize], v);
    assert(leaves == in_wide(*labels, id, v.x as int, v.y as int, v.z as int));
    let mut brought: Option<u32> = None;
    if 0 <= s.x && s.x < res.x as i64 && 0 <= s.y && s.y < res.y as i64 && 0 <= s.z && s.z
        < res.z as i64 {
        let w = UVec3 { x: s.x as u32, y: s.y as u32, z: s.z as u32 };
        let inside: bool = is_in(boxes[id as usize], w);
        assert(inside == in_wide(*labels, id, s.x as int, s.y as int, s.z as int));
        if inside {
            let there: u32 = labels.id_at(w.x, w.y, w.z);
            if there == id || there == 0 {
                assert(carries(*labels, id, q, v));
                brought = Some(grid.get(w.x, w.y, w.z));
            }
        }
    }
    assert(brought.is_some() == carries(*labels, id, q, v));
    if !leaves && brought.is_none() {
        return None;
    }
    let stays: bool = is_held(labels, boxes, id, v);
    let here: u32 = grid.get(v.x, v.y, v.z);
    let base: u32 = if stays { smaller(INFINITY, here) } else { INFINITY };
    let best: u32 = match brought {
        Some(b) => smaller(base, b),
        None => base,
    };
    assert(best == met(grid@, *labels, id, q, v));
    if finite(best) {
        Some(best)
    } else if stays {
        Some(here)
    } else {
        Some(cleared_value(grid.voxel_size()))
    }
}

/// Turn one component about the middle of its box by quarter turns about x, then y,
/// then z. Whole turns change nothing. The edits are added to the journal in scan
/// order; the result is the box of the voxels that were written.
#[verifier::spinoff_prover]
pub fn rotate_component(
    grid: &mut Grid,
    labels: &ComponentField,
    id: ComponentId,
    q: IVec3,
    journal: &mut Vec<VoxelEdit>,
) -> (r: Option<DirtyRegion>)
    requires
        old(grid).wf(),
        labels.wf(),
        labels.domain() == old(grid)@.res,
    ensures
        final(grid).wf(),
        piece_turned(old(grid)@, final(grid)@, *labels, id, q),
        old(journal).len() <= final(journal).len(),
        final(journal)@.subrange(0, old(journal).len() as int) == old(journal)@,
        ({
            let edits = final(journal)@.subrange(
                old(journal).len() as int,
                final(journal).len() as int,
            );
            &&& records(edits, old(grid)@, |v: UVec3| turn_writes(old(grid)@, *labels, id, q, v))
            &&& spans_edits(edits, r)
        }),
{
    let ghost g = grid@;
    let ghost prior = journal@;
    let ghost changed = |v: UVec3| turn_writes(g, *labels, id, q, v);
    proof {
        labels.lemma_wf();
        assert(prior.subrange(0, prior.len() as int) =~= prior);
        assert(prior.subrange(prior.len() as int, prior.len() as int) =~= Seq::empty());
    }
    if is_identity(q) {
        return None;
    }
    let (lo, hi) = match touched_region_for_rotate(labels, id, q) {
        Some(b) => b,
        None => {
            return None;
        },
    };
    proof {
        lemma_box_fits(lo, hi, g.res);
    }
    let pivot = pivot_offset(labels, id);
    let boxes = wide_boxes(labels);
    let n: usize = count_of(lo, hi);
    let mut values: Vec<Option<u32>> = Vec::new();
    let mut k: usize = 0;
    while k < n
        invariant
            k <= n,
            n == box_count(lo, hi),
            box_within(lo, hi, g.res),
            g == grid@,
            grid.wf(),
            labels.wf(),
            labels.domain() == g.res,
            boxes_ok(*labels, boxes@),
            1 <= id <= labels.count(),
            pivot.at() == pivot_of(*labels, id),
            0 <= pivot.x <= u32::MAX,
            0 <= pivot.y <= u32::MAX,
            0 <= pivot.z <= u32::MAX,
            values.len() == k,
            forall|j: int|
                0 <= j < k ==> #[trigger] values@[j] == ({
                    let v = box_cell(lo, hi, j);
                    if in_turn(*labels, id, q, v) {
                        Some(turn_sample(g, *labels, id, q, v))
                    } else {
                        None
                    }
                }),
        decreases n - k,
    {
        let v = cell_of(lo, hi, k);
        values.push(turn_offer(grid, labels, &boxes, id, pivot, q, v));
        k = k + 1;
    }
    let field = Field { lo, hi, values, floors: None };
    let dirty = apply_field(grid, &field, Combine::Replace, Change::Moved, journal);
    proof {
        let stamped_at = |v: UVec3| stamp_writes(g, field, Combine::Replace, Change::Moved, v);
        assert forall|v: UVec3| in_domain(g.res, v) implies #[trigger] turn_writes(
            g,
            *labels,
            id,
            q,
            v,
        ) == stamp_writes(g, field, Combine::Replace, Change::Moved, v) && (turn_writes(
            g,
            *labels,
            id,
            q,
            v,
        ) ==> turn_sample(g, *labels, id, q, v) == stamp_value(g, field, Combine::Replace, v)) by {
            if in_turn(*labels, id, q, v) {
                lemma_turn_box(*labels, id, q, v);
            }
            assert(in_turn_box(*labels, id, q, v) <==> field.has(v));
            if field.has(v) {
                lemma_box_number(lo, hi, v.x as int, v.y as int, v.z as int);
                let j = box_number(lo, hi, v.x as int, v.y as int, v.z as int);
                assert(field.values@[j] == (if in_turn(*labels, id, q, v) {
                    Some(turn_sample(g, *labels, id, q, v))
                } else {
                    None
                }));
            }
        }
        let edits = journal@.subrange(prior.len() as int, journal@.len() as int);
        assert(records(edits, g, stamped_at));
        assert(records(edits, g, changed)) by {
            assert forall|i: int| 0 <= i < edits.len() implies changed((#[trigger] edits[i]).voxel()) by {
                assert(stamped_at(edits[i].voxel()));
                assert(turn_writes(g, *labels, id, q, edits[i].voxel()));
            }
            assert forall|v: UVec3| in_domain(g.res, v) && #[trigger] changed(v) implies exists|i: int|
                0 <= i < edits.len() && (#[trigger] edits[i]).voxel() == v by {
                assert(stamped_at(v));
            }
        }
        assert forall|c: ChunkCoord| #[trigger] turn_writes_chunk(g, *labels, id, q, c)
            == stamp_writes_chunk(g, field, Combine::Replace, Change::Moved, c) by {
            if turn_writes_chunk(g, *labels, id, q, c) {
                let v = choose|v: UVec3|
                    in_domain(g.res, v) && #[trigger] turn_writes(g, *labels, id, q, v) && tile_of(
                        v.x as int,
                        v.y as int,
                        v.z as int,
                    ) == c;
                assert(stamp_writes(g, field, Combine::Replace, Change::Moved, v));
            }
            if stamp_writes_chunk(g, field, Combine::Replace, Change::Moved, c) {
                let v = choose|v: UVec3|
                    in_domain(g.res, v) && #[trigger] stamp_writes(
                        g,
                        field,
                        Combine::Replace,
                        Change::Moved,
                        v,
                    ) && tile_of(v.x as int, v.y as int, v.z as int) == c;
                assert(turn_writes(g, *labels, id, q, v));
            }
        }
    }
    dirty
}

/// A piece arrives: each of its solid voxels is assigned, at the place that it turns
/// to, a sample no larger than its own, which is therefore solid.
pub proof fn law_turned_piece_arrives(
    g: GridView,
    f: ComponentField,
    id: ComponentId,
    q: IVec3,
    v: UVec3,
    w: UVec3,
)
    requires
        f.labels(g),
        all_finite(g),
        solid_voxel(g, v),
        f.id(v) == id,
        in_domain(g.res, w),
        about(pivot_of(f, id), q, point(v)) == point(w),
    ensures
        in_turn(f, id, q, w),
        key(turn_sample(g, f, id, q, w)) <= key(g.at(v.x as int, v.y as int, v.z as int)),
        solid(turn_sample(g, f, id, q, w)),
{
    let (x, y, z) = (v.x as int, v.y as int, v.z as int);
    f.lemma_wf();
    f.lemma_box_of(id);
    assert(label(f@, f.domain(), v) == id);
    assert(in_wide(f, id, x, y, z));
    law_turn_is_undone(pivot_of(f, id), q, point(v));
    assert(turn_source(f, id, q, w) == point(v));
    assert(UVec3 { x: x as u32, y: y as u32, z: z as u32 } == v);
    assert(carries(f, id, q, w));
    assert(is_finite(g.at(x, y, z)));
    assert(is_finite(g.at(w.x as int, w.y as int, w.z as int)));
}

/// The only piece turns without a change of shape: where it turns to, every sample of
/// the piece and of its band is the one from before.
pub proof fn law_lone_piece_turns_without_loss(
    g: GridView,
    f: ComponentField,
    q: IVec3,
    v: UVec3,
    w: UVec3,
)
    requires
        f.wf(),
        f.domain() == g.res,
        f.count() == 1,
        all_finite(g),
        in_domain(g.res, v),
        in_domain(g.res, w),
        in_wide(f, 1, v.x as int, v.y as int, v.z as int),
        about(pivot_of(f, 1), q, point(v)) == point(w),
    ensures
        turn_sample(g, f, 1, q, w) == g.at(v.x as int, v.y as int, v.z as int),
{
    let (x, y, z) = (v.x as int, v.y as int, v.z as int);
    f.lemma_wf();
    law_turn_is_undone(pivot_of(f, 1), q, point(v));
    assert(turn_source(f, 1, q, w) == point(v));
    assert(f.id(v) <= f.count());
    assert(UVec3 { x: x as u32, y: y as u32, z: z as u32 } == v);
    assert(carries(f, 1, q, w));
    assert forall|c: u32| 1 <= c <= 1 implies !#[trigger] held_by(f, 1, c, w) by {}
    assert(!held(f, 1, f.count(), w));
    assert(is_finite(g.at(x, y, z)));
}

/// A voxel that the piece neither leaves nor arrives at stays as it is.
pub proof fn law_out_of_turn_unchanged(
    g: GridView,
    end: GridView,
    f: ComponentField,
    id: ComponentId,
    q: IVec3,
    v: UVec3,
)
    requires
        piece_turned(g, end, f, id, q),
        in_domain(g.res, v),
        !in_turn(f, id, q, v),
    ensures
        end.at(v.x as int, v.y as int, v.z as int) == g.at(v.x as int, v.y as int, v.z as int),
{
}

/// Other pieces stay: a solid voxel of another piece is still solid after the turn.
pub proof fn law_other_pieces_stay(
    g: GridView,
    end: GridView,
    f: ComponentField,
    id: ComponentId,
    q: IVec3,
    v: UVec3,
)
    requires
        piece_turned(g, end, f, id, q),
        f.labels(g),
        all_finite(g),
        solid_voxel(g, v),
        f.id(v) != id,
    ensures
        solid(end.at(v.x as int, v.y as int, v.z as int)),
{
    let c = f.id(v);
    let (x, y, z) = (v.x as int, v.y as int, v.z as int);
    f.lemma_wf();
    f.lemma_box_of(c);
    assert(label(f@, f.domain(), v) == c);
    assert(in_wide(f, c, x, y, z));
    assert(held_by(f, id, c, v));
    assert(is_finite(g.at(x, y, z)));
    let s = turn_source(f, id, q, v);
    if carries(f, id, q, v) {
        assert(is_finite(g.at(s.0, s.1, s.2)));
    }
    assert(end.at(x, y, z) == (if turn_writes(g, f, id, q, v) {
        turn_sample(g, f, id, q, v)
    } else {
        g.at(x, y, z)
    }));
}

/// The pivot is the middle of the box of the piece, or the voxel just past the middle.
pub proof fn law_pivot_is_the_middle(f: ComponentField, id: ComponentId)
    requires
        f.wf(),
        1 <= id <= f.count(),
    ensures
        ({
            let (lo, hi) = f.box_of(id);
            let p = pivot_of(f, id);
            &&& lo.x <= p.0 < hi.x && lo.x + hi.x - 1 <= 2 * p.0 <= lo.x + hi.x
            &&& lo.y <= p.1 < hi.y && lo.y + hi.y - 1 <= 2 * p.1 <= lo.y + hi.y
            &&& lo.z <= p.2 < hi.z && lo.z + hi.z - 1 <= 2 * p.2 <= lo.z + hi.z
        }),
{
    law_box_is_tight(f, id);
    let (lo, hi) = f.box_of(id);
    let a = choose|v: UVec3|
        f.domain().has(v.x as int, v.y as int, v.z as int) && #[trigger] f.id(v) == id && v.x == lo.x;
    assert(f.id(a) == id);
}

/// Whole turns about every axis leave every point where it is.
pub proof fn law_whole_turns_do_nothing(pivot: Point, q: IVec3, p: Point)
    requires
        q.x as int % 4 == 0,
        q.y as int % 4 == 0,
        q.z as int % 4 == 0,
    ensures
        about(pivot, q, p) == p,
        is_whole(q),
{
    reveal(turned);
}

/// The only piece leaves nothing behind: a voxel of its box, or of the three around, to which
/// nothing of the piece turns stands in cleared space.
pub proof fn law_lone_piece_leaves_nothing_behind(g: GridView, f: ComponentField, q: IVec3, w: UVec3)
    requires
        f.wf(),
        f.domain() == g.res,
        f.count() == 1,
        in_domain(g.res, w),
        forall|v: UVec3|
            in_domain(g.res, v) && in_wide(f, 1, v.x as int, v.y as int, v.z as int) ==> #[trigger] about(
                pivot_of(f, 1),
                q,
                point(v),
            ) != point(w),
    ensures
        turn_sample(g, f, 1, q, w) == cleared(g.voxel_size),
        in_wide(f, 1, w.x as int, w.y as int, w.z as int) ==> in_turn(f, 1, q, w),
{
    let s = turn_source(f, 1, q, w);
    law_turn_is_undone(pivot_of(f, 1), q, point(w));
    if carries(f, 1, q, w) {
        let v = UVec3 { x: s.0 as u32, y: s.1 as u32, z: s.2 as u32 };
        assert(point(v) == s);
        assert(about(pivot_of(f, 1), q, point(v)) == point(w));
    }
    assert forall|c: u32| 1 <= c <= 1 implies !#[trigger] held_by(f, 1, c, w) by {}
    assert(!held(f, 1, f.count(), w));
}

/// All that a turn changes lies in its box: where the piece was, where it arrives, and what
/// lies between.
pub proof fn law_turn_stays_in_its_box(
    g: GridView,
    f: ComponentField,
    id: ComponentId,
    q: IVec3,
    v: UVec3,
)
    requires
        turn_writes(g, f, id, q, v),
    ensures
        in_turn_box(f, id, q, v),
{
    lemma_turn_box(f, id, q, v);
}

} // verus!
