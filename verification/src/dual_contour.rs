//! Connectivity of dual contouring.
//!
//! Every cell of a sample lattice that the surface crosses gets one vertex, and
//! every crossed edge that four cells share gets one quad. Where in its cell a
//! vertex lies is decided elsewhere.

use crate::mesh::{lattice_at, on_border};
use crate::region::{box_cell, box_count, box_number, cell_of, count_of, in_box, lemma_box_cell, lemma_box_number, lemma_number_order, number_of, scans_before};
use crate::sample::{is_nan, is_solid, same_number, solid};
use crate::vec3::UVec3;
use vstd::prelude::*;

verus! {

/// Stands for the vertex of a cell that has none.
pub const NO_VERTEX: u32 = u32::MAX;

/// The direction of a lattice edge.
#[derive(Copy, Clone, Debug, PartialEq, Eq, Structural)]
pub enum Axis {
    X,
    Y,
    Z,
}

/// The cells of a lattice: one fewer along each axis than samples.
pub open spec fn cell_counts(size: UVec3) -> UVec3 {
    UVec3 {
        x: if size.x > 0 { (size.x - 1) as u32 } else { 0 },
        y: if size.y > 0 { (size.y - 1) as u32 } else { 0 },
        z: if size.z > 0 { (size.z - 1) as u32 } else { 0 },
    }
}

/// Corner number `i` of a cell: x counts once, y twice, z four times.
pub open spec fn corner(s: Seq<u32>, size: UVec3, x: int, y: int, z: int, i: int) -> u32 {
    lattice_at(s, size, x + i % 2, y + (i / 2) % 2, z + i / 4)
}

/// The number of a corner says where it is: one step along x counts one, along y two, and along
/// z four.
pub proof fn law_corner_numbers(
    s: Seq<u32>,
    size: UVec3,
    x: int,
    y: int,
    z: int,
    a: int,
    b: int,
    c: int,
)
    requires
        0 <= a <= 1,
        0 <= b <= 1,
        0 <= c <= 1,
    ensures
        corner(s, size, x, y, z, a + 2 * b + 4 * c) == lattice_at(s, size, x + a, y + b, z + c),
{
    let i = a + 2 * b + 4 * c;
    assert(i % 2 == a && (i / 2) % 2 == b && i / 4 == c);
}

/// The surface crosses the cell: some corner is solid and some is not.
pub open spec fn mixed(s: Seq<u32>, size: UVec3, x: int, y: int, z: int) -> bool {
    &&& exists|i: int| 0 <= i < 8 && solid(#[trigger] corner(s, size, x, y, z, i))
    &&& exists|i: int| 0 <= i < 8 && !solid(#[trigger] corner(s, size, x, y, z, i))
}

/// The crossed cells among the first `n`, in scan order.
pub open spec fn mixed_cells(s: Seq<u32>, size: UVec3, n: nat) -> Seq<UVec3>
    decreases n,
{
    if n == 0 {
        Seq::empty()
    } else {
        let c = box_cell(UVec3::zero(), cell_counts(size), n - 1);
        let before = mixed_cells(s, size, (n - 1) as nat);
        if mixed(s, size, c.x as int, c.y as int, c.z as int) {
            before.push(c)
        } else {
            before
        }
    }
}

/// All crossed cells, in scan order.
pub open spec fn vertex_cells(s: Seq<u32>, size: UVec3) -> Seq<UVec3> {
    mixed_cells(s, size, box_count(UVec3::zero(), cell_counts(size)) as nat)
}

/// The vertex of a crossed cell: how many crossed cells come before it.
pub open spec fn vertex(s: Seq<u32>, size: UVec3, x: int, y: int, z: int) -> u32 {
    mixed_cells(s, size, box_number(UVec3::zero(), cell_counts(size), x, y, z) as nat).len() as u32
}

/// What stands for cell number `k`: its vertex, or [`NO_VERTEX`].
pub open spec fn cell_entry(s: Seq<u32>, size: UVec3, k: int) -> u32 {
    let c = box_cell(UVec3::zero(), cell_counts(size), k);
    if mixed(s, size, c.x as int, c.y as int, c.z as int) {
        mixed_cells(s, size, k as nat).len() as u32
    } else {
        NO_VERTEX
    }
}

/// First edge start along an axis with four cells around it.
pub open spec fn edge_lo(axis: Axis) -> UVec3 {
    match axis {
        Axis::X => UVec3 { x: 0, y: 1, z: 1 },
        Axis::Y => UVec3 { x: 1, y: 0, z: 1 },
        Axis::Z => UVec3 { x: 1, y: 1, z: 0 },
    }
}

/// The sample at the far end of an edge.
pub open spec fn edge_end(s: Seq<u32>, size: UVec3, axis: Axis, x: int, y: int, z: int) -> u32 {
    match axis {
        Axis::X => lattice_at(s, size, x + 1, y, z),
        Axis::Y => lattice_at(s, size, x, y + 1, z),
        Axis::Z => lattice_at(s, size, x, y, z + 1),
    }
}

/// The surface crosses the edge.
pub open spec fn crossed(s: Seq<u32>, size: UVec3, axis: Axis, x: int, y: int, z: int) -> bool {
    solid(lattice_at(s, size, x, y, z)) != solid(edge_end(s, size, axis, x, y, z))
}

/// Cell number `i` of the four around an edge.
pub open spec fn around(axis: Axis, x: int, y: int, z: int, i: int) -> (int, int, int) {
    let a: int = if i == 0 || i == 3 { 1 } else { 0 };
    let b: int = if i == 0 || i == 1 { 1 } else { 0 };
    match axis {
        Axis::X => (x, y - a, z - b),
        Axis::Y => (x - a, y, z - b),
        Axis::Z => (x - a, y - b, z),
    }
}

/// Two triangles of a quad; `flip` chooses which way they wind.
pub open spec fn quad_of(a: u32, b: u32, c: u32, d: u32, flip: bool) -> Seq<u32> {
    if flip {
        seq![a, b, c, a, c, d]
    } else {
        seq![a, c, b, a, d, c]
    }
}

/// The triangles of an edge.
pub open spec fn edge_quad(s: Seq<u32>, size: UVec3, axis: Axis, x: int, y: int, z: int) -> Seq<u32> {
    if crossed(s, size, axis, x, y, z) {
        let v = |i: int|
            {
                let c = around(axis, x, y, z, i);
                vertex(s, size, c.0, c.1, c.2)
            };
        let start = lattice_at(s, size, x, y, z);
        quad_of(v(0), v(1), v(2), v(3), !solid(start) && !is_nan(start))
    } else {
        Seq::empty()
    }
}

/// The triangles of the first `n` edges along an axis, in scan order.
pub open spec fn axis_quads(s: Seq<u32>, size: UVec3, axis: Axis, n: nat) -> Seq<u32>
    decreases n,
{
    if n == 0 {
        Seq::empty()
    } else {
        let e = box_cell(edge_lo(axis), cell_counts(size), n - 1);
        axis_quads(s, size, axis, (n - 1) as nat) + edge_quad(
            s,
            size,
            axis,
            e.x as int,
            e.y as int,
            e.z as int,
        )
    }
}

pub open spec fn whole_axis(s: Seq<u32>, size: UVec3, axis: Axis) -> Seq<u32> {
    axis_quads(s, size, axis, box_count(edge_lo(axis), cell_counts(size)) as nat)
}

/// All triangles: those of the edges along x, then y, then z.
pub open spec fn dual_triangles(s: Seq<u32>, size: UVec3) -> Seq<u32> {
    whole_axis(s, size, Axis::X) + whole_axis(s, size, Axis::Y) + whole_axis(s, size, Axis::Z)
}

/// Position of a sample in a lattice.
pub fn sample_idx(lx: u32, ly: u32, lz: u32, sx: u32, sy: u32) -> (r: usize)
    requires
        lx < sx,
        ly < sy,
        (lz + 1) * sx * sy <= u32::MAX,
    ensures
        r == lx + ly * sx + lz * sx * sy,
{
    proof {
        let (x, y, z, a, b) = (lx as int, ly as int, lz as int, sx as int, sy as int);
        assert(y * a + a <= a * b) by (nonlinear_arith)
            requires
                0 <= y < b,
                a >= 0,
        ;
        assert((z + 1) * a * b == z * a * b + a * b) by (nonlinear_arith);
        assert(0 <= y * a) by (nonlinear_arith)
            requires
                y >= 0,
                a >= 0,
        ;
        assert(0 <= z * a) by (nonlinear_arith)
            requires
                z >= 0,
                a >= 0,
        ;
        assert(z * a <= z * a * b) by (nonlinear_arith)
            requires
                0 <= z * a,
                b >= 1,
        ;
    }
    (lx + ly * sx + lz * sx * sy) as usize
}

/// Position of a cell among the cells.
pub fn cell_index(ix: u32, iy: u32, iz: u32, cx: u32, cy: u32) -> (r: usize)
    requires
        ix < cx,
        iy < cy,
        (iz + 1) * cx * cy <= u32::MAX,
    ensures
        r == ix + iy * cx + iz * cx * cy,
{
    sample_idx(ix, iy, iz, cx, cy)
}

/// The triangles of a quad, or none if a cell has no vertex.
pub open spec fn quad_unless_missing(a: u32, b: u32, c: u32, d: u32, flip: bool) -> Seq<u32> {
    if a == NO_VERTEX || b == NO_VERTEX || c == NO_VERTEX || d == NO_VERTEX {
        Seq::empty()
    } else {
        quad_of(a, b, c, d, flip)
    }
}

/// Add the two triangles of a quad, unless one of its cells has no vertex.
pub fn emit_quad(cell_vert: &Vec<u32>, indices: &mut Vec<u32>, cells: [usize; 4], flip: bool)
    requires
        forall|i: int| 0 <= i < 4 ==> #[trigger] cells@[i] < cell_vert.len(),
    ensures
        final(indices)@ == old(indices)@ + quad_unless_missing(
            cell_vert@[cells@[0] as int],
            cell_vert@[cells@[1] as int],
            cell_vert@[cells@[2] as int],
            cell_vert@[cells@[3] as int],
            flip,
        ),
{
    let a: u32 = cell_vert[cells[0]];
    let b: u32 = cell_vert[cells[1]];
    let c: u32 = cell_vert[cells[2]];
    let d: u32 = cell_vert[cells[3]];
    if a == NO_VERTEX || b == NO_VERTEX || c == NO_VERTEX || d == NO_VERTEX {
        assert(indices@ =~= indices@ + Seq::<u32>::empty());
        return;
    }
    let ghost was = indices@;
    indices.push(a);
    if flip {
        indices.push(b);
        indices.push(c);
    } else {
        indices.push(c);
        indices.push(b);
    }
    indices.push(a);
    if flip {
        indices.push(c);
        indices.push(d);
    } else {
        indices.push(d);
        indices.push(c);
    }
    assert(indices@ =~= was + quad_of(a, b, c, d, flip));
}

/// The cells of a lattice, and what that bounds.
proof fn lemma_cell_bounds(size: UVec3)
    requires
        size.x > 0,
        size.y > 0,
        size.z > 0,
        size.volume() <= u32::MAX,
    ensures
        box_count(UVec3::zero(), cell_counts(size)) == cell_counts(size).volume(),
        0 <= cell_counts(size).volume() < u32::MAX,
{
    let c = cell_counts(size);
    let (x, y, z) = (c.x as int, c.y as int, c.z as int);
    assert(0 <= x * y * z < (x + 1) * (y + 1) * (z + 1)) by (nonlinear_arith)
        requires
            x >= 0,
            y >= 0,
            z >= 0,
    ;
}

/// Reads a lattice sample.
fn sample_at(samples: &Vec<u32>, size: UVec3, x: u32, y: u32, z: u32) -> (r: u32)
    requires
        samples.len() == size.volume(),
        size.volume() <= u32::MAX,
        size.has(x as int, y as int, z as int),
    ensures
        r == lattice_at(samples@, size, x as int, y as int, z as int),
{
    let lo = UVec3 { x: 0, y: 0, z: 0 };
    let i: usize = number_of(lo, size, x, y, z);
    samples[i]
}

/// The corners of a cell, in corner order.
pub fn cell_corners(samples: &Vec<u32>, size: UVec3, x: u32, y: u32, z: u32) -> (r: [u32; 8])
    requires
        samples.len() == size.volume(),
        size.volume() <= u32::MAX,
        cell_counts(size).has(x as int, y as int, z as int),
    ensures
        forall|i: int|
            0 <= i < 8 ==> #[trigger] r@[i] == corner(
                samples@,
                size,
                x as int,
                y as int,
                z as int,
                i,
            ),
        forall|i: int, a: int, b: int, c: int|
            0 <= a <= 1 && 0 <= b <= 1 && 0 <= c <= 1 && i == a + 2 * b + 4 * c ==> #[trigger] r@[i]
                == #[trigger] lattice_at(samples@, size, x + a, y + b, z + c),
{
    let r = [
        sample_at(samples, size, x, y, z),
        sample_at(samples, size, x + 1, y, z),
        sample_at(samples, size, x, y + 1, z),
        sample_at(samples, size, x + 1, y + 1, z),
        sample_at(samples, size, x, y, z + 1),
        sample_at(samples, size, x + 1, y, z + 1),
        sample_at(samples, size, x, y + 1, z + 1),
        sample_at(samples, size, x + 1, y + 1, z + 1),
    ];
    proof {
        assert forall|i: int| 0 <= i < 8 implies #[trigger] r@[i] == corner(
            samples@,
            size,
            x as int,
            y as int,
            z as int,
            i,
        ) by {
            if i == 0 {
            } else if i == 1 {
            } else if i == 2 {
            } else if i == 3 {
            } else if i == 4 {
            } else if i == 5 {
            } else if i == 6 {
            } else {
                assert(i == 7);
            }
        }
        assert forall|i: int, a: int, b: int, c: int|
            0 <= a <= 1 && 0 <= b <= 1 && 0 <= c <= 1 && i == a + 2 * b + 4 * c implies #[trigger] r@[i]
            == #[trigger] lattice_at(samples@, size, x + a, y + b, z + c) by {
            law_corner_numbers(samples@, size, x as int, y as int, z as int, a, b, c);
        }
    }
    r
}

/// Whether the surface crosses a cell with these corners.
pub fn is_mixed(corners: &[u32; 8]) -> (r: bool)
    ensures
        r == ((exists|i: int| 0 <= i < 8 && solid(#[trigger] corners@[i])) && (exists|i: int|
            0 <= i < 8 && !solid(#[trigger] corners@[i]))),
{
    let mut any_solid: bool = false;
    let mut any_air: bool = false;
    let mut i: usize = 0;
    while i < 8
        invariant
            i <= 8,
            any_solid == (exists|k: int| 0 <= k < i && solid(#[trigger] corners@[k])),
            any_air == (exists|k: int| 0 <= k < i && !solid(#[trigger] corners@[k])),
        decreases 8 - i,
    {
        assert(corners@[i as int] == corners[i as int]);
        if is_solid(corners[i]) {
            any_solid = true;
        } else {
            any_air = true;
        }
        i = i + 1;
    }
    any_solid && any_air
}

/// Corner numbers of the two ends of edge number `e` of a cell.
pub open spec fn cell_edge(e: int) -> (int, int) {
    if e == 0 {
        (0, 1)
    } else if e == 1 {
        (0, 2)
    } else if e == 2 {
        (0, 4)
    } else if e == 3 {
        (1, 3)
    } else if e == 4 {
        (1, 5)
    } else if e == 5 {
        (2, 3)
    } else if e == 6 {
        (2, 6)
    } else if e == 7 {
        (3, 7)
    } else if e == 8 {
        (4, 5)
    } else if e == 9 {
        (4, 6)
    } else if e == 10 {
        (5, 7)
    } else {
        (6, 7)
    }
}

/// The corner numbers of the ends of the crossed edges among the first `n` of a
/// cell.
pub open spec fn crossings(corners: Seq<u32>, n: nat) -> Seq<(int, int)>
    decreases n,
{
    if n == 0 {
        Seq::empty()
    } else {
        let (a, b) = cell_edge(n - 1);
        let before = crossings(corners, (n - 1) as nat);
        if solid(corners[a]) != solid(corners[b]) {
            before.push((a, b))
        } else {
            before
        }
    }
}

fn edge_corners(e: usize) -> (r: (usize, usize))
    requires
        e < 12,
    ensures
        (r.0 as int, r.1 as int) == cell_edge(e as int),
        r.0 < 8,
        r.1 < 8,
{
    if e == 0 {
        (0, 1)
    } else if e == 1 {
        (0, 2)
    } else if e == 2 {
        (0, 4)
    } else if e == 3 {
        (1, 3)
    } else if e == 4 {
        (1, 5)
    } else if e == 5 {
        (2, 3)
    } else if e == 6 {
        (2, 6)
    } else if e == 7 {
        (3, 7)
    } else if e == 8 {
        (4, 5)
    } else if e == 9 {
        (4, 6)
    } else if e == 10 {
        (5, 7)
    } else {
        (6, 7)
    }
}

/// The crossed edges of a cell, as corner numbers of their ends.
pub fn crossed_edges(corners: &[u32; 8]) -> (r: Vec<(usize, usize)>)
    ensures
        r.len() == crossings(corners@, 12).len(),
        forall|i: int|
            0 <= i < r.len() ==> {
                &&& (#[trigger] r@[i]).0 == crossings(corners@, 12)[i].0
                &&& r@[i].1 == crossings(corners@, 12)[i].1
                &&& r@[i].0 < 8
                &&& r@[i].1 < 8
            },
        r@.no_duplicates(),
        forall|a: usize, b: usize| #[trigger]
            r@.contains((a, b)) <==> {
                &&& a < b < 8
                &&& (b - a == 1 && a % 2 == 0) || (b - a == 2 && (a / 2) % 2 == 0) || (b - a == 4 && a
                    < 4)
                &&& solid(corners@[a as int]) != solid(corners@[b as int])
            },
{
    let mut r: Vec<(usize, usize)> = Vec::new();
    let mut e: usize = 0;
    while e < 12
        invariant
            e <= 12,
            r.len() == crossings(corners@, e as nat).len(),
            forall|i: int|
                0 <= i < r.len() ==> {
                    &&& (#[trigger] r@[i]).0 == crossings(corners@, e as nat)[i].0
                    &&& r@[i].1 == crossings(corners@, e as nat)[i].1
                    &&& r@[i].0 < 8
                    &&& r@[i].1 < 8
                },
        decreases 12 - e,
    {
        let (a, b) = edge_corners(e);
        if is_solid(corners[a]) != is_solid(corners[b]) {
            r.push((a, b));
        }
        e = e + 1;
    }
    proof {
        let all = crossings(corners@, 12);
        law_crossings_join_neighbouring_corners(corners@, 0, 1);
        assert forall|i: int, j: int| 0 <= i < r@.len() && 0 <= j < r@.len() && i != j implies r@[i]
            != r@[j] by {
            assert(all[i] != all[j]);
        }
        assert forall|a: usize, b: usize| #[trigger] r@.contains((a, b)) <==> {
            &&& a < b < 8
            &&& (b - a == 1 && a % 2 == 0) || (b - a == 2 && (a / 2) % 2 == 0) || (b - a == 4 && a < 4)
            &&& solid(corners@[a as int]) != solid(corners@[b as int])
        } by {
            law_crossings_join_neighbouring_corners(corners@, a as int, b as int);
            if r@.contains((a, b)) {
                let i = choose|i: int| 0 <= i < r@.len() && r@[i] == (a, b);
                assert(all[i] == (a as int, b as int));
            }
            if all.contains((a as int, b as int)) {
                let i = choose|i: int| 0 <= i < all.len() && all[i] == (a as int, b as int);
                assert(r@[i] == (a, b));
            }
        }
    }
    r
}

proof fn lemma_crossings(corners: Seq<u32>, n: nat)
    requires
        n <= 12,
    ensures
        forall|p: (int, int)| #[trigger]
            crossings(corners, n).contains(p) <==> exists|e: int|
                0 <= e < n && #[trigger] cell_edge(e) == p && solid(corners[p.0]) != solid(
                    corners[p.1],
                ),
        crossings(corners, n).no_duplicates(),
    decreases n,
{
    if n > 0 {
        lemma_crossings(corners, (n - 1) as nat);
        let before = crossings(corners, (n - 1) as nat);
        let now = crossings(corners, n);
        let (a, b) = cell_edge(n - 1);
        assert forall|p: (int, int)| #[trigger] now.contains(p) <==> exists|e: int|
            0 <= e < n && #[trigger] cell_edge(e) == p && solid(corners[p.0]) != solid(corners[p.1]) by {
            if solid(corners[a]) != solid(corners[b]) {
                if before.contains(p) {
                    let i = choose|i: int| 0 <= i < before.len() && before[i] == p;
                    assert(now[i] == p);
                }
                if p == (a, b) {
                    assert(now[before.len() as int] == p);
                    assert(cell_edge(n - 1) == p);
                }
            }
        }
        assert(!before.contains((a, b))) by {
            if before.contains((a, b)) {
                let e = choose|e: int|
                    0 <= e < n - 1 && #[trigger] cell_edge(e) == (a, b) && solid(corners[a]) != solid(
                        corners[b],
                    );
                assert(cell_edge(e) != cell_edge(n - 1));
            }
        }
    }
}

/// The crossed edges of a cell join the corners whose numbers differ in one bit, that
/// is, along one axis, and of which one is solid and the other is not. Each such pair
/// is listed once, the smaller number first, and nothing else is listed.
pub proof fn law_crossings_join_neighbouring_corners(corners: Seq<u32>, a: int, b: int)
    requires
        corners.len() == 8,
    ensures
        crossings(corners, 12).contains((a, b)) <==> {
            &&& 0 <= a < b < 8
            &&& (b - a == 1 && a % 2 == 0) || (b - a == 2 && (a / 2) % 2 == 0) || (b - a == 4 && a / 4
                == 0)
            &&& solid(corners[a]) != solid(corners[b])
        },
        crossings(corners, 12).no_duplicates(),
{
    lemma_crossings(corners, 12);
    assert(cell_edge(0) == (0int, 1int));
    assert(cell_edge(1) == (0int, 2int));
    assert(cell_edge(2) == (0int, 4int));
    assert(cell_edge(3) == (1int, 3int));
    assert(cell_edge(4) == (1int, 5int));
    assert(cell_edge(5) == (2int, 3int));
    assert(cell_edge(6) == (2int, 6int));
    assert(cell_edge(7) == (3int, 7int));
    assert(cell_edge(8) == (4int, 5int));
    assert(cell_edge(9) == (4int, 6int));
    assert(cell_edge(10) == (5int, 7int));
    assert(cell_edge(11) == (6int, 7int));
}

/// A crossed cell has a crossed edge.
pub proof fn law_mixed_cell_has_crossing(corners: Seq<u32>)
    requires
        corners.len() == 8,
        exists|i: int| 0 <= i < 8 && solid(#[trigger] corners[i]),
        exists|i: int| 0 <= i < 8 && !solid(#[trigger] corners[i]),
    ensures
        crossings(corners, 12).len() > 0,
{
    reveal_with_fuel(crossings, 13);
    let i = choose|i: int| 0 <= i < 8 && solid(#[trigger] corners[i]);
    let j = choose|j: int| 0 <= j < 8 && !solid(#[trigger] corners[j]);
    if crossings(corners, 12).len() == 0 {
        assert(solid(corners[0]) == solid(corners[1]));
        assert(solid(corners[0]) == solid(corners[2]));
        assert(solid(corners[0]) == solid(corners[4]));
        assert(solid(corners[1]) == solid(corners[3]));
        assert(solid(corners[1]) == solid(corners[5]));
        assert(solid(corners[2]) == solid(corners[6]));
        assert(solid(corners[3]) == solid(corners[7]));
    }
}

/// The vertices of a lattice: what stands for each cell, and the cell of each
/// vertex.
pub struct CellVertices {
    pub entries: Vec<u32>,
    pub cells: Vec<UVec3>,
}

impl CellVertices {
    /// These are the vertices of the lattice `s`.
    pub open spec fn of(&self, s: Seq<u32>, size: UVec3) -> bool {
        &&& self.cells@ == vertex_cells(s, size)
        &&& self.entries@.len() == box_count(UVec3::zero(), cell_counts(size))
        &&& forall|k: int|
            0 <= k < self.entries@.len() ==> #[trigger] self.entries@[k] == cell_entry(s, size, k)
    }
}

fn cells_of(size: UVec3) -> (r: UVec3)
    requires
        size.x > 0,
        size.y > 0,
        size.z > 0,
    ensures
        r == cell_counts(size),
{
    UVec3 { x: size.x - 1, y: size.y - 1, z: size.z - 1 }
}

proof fn lemma_mixed_cells_len(s: Seq<u32>, size: UVec3, n: nat)
    ensures
        mixed_cells(s, size, n).len() <= n,
    decreases n,
{
    if n > 0 {
        lemma_mixed_cells_len(s, size, (n - 1) as nat);
    }
}

/// Number the crossed cells.
pub fn number_vertices(samples: &Vec<u32>, size: UVec3) -> (r: CellVertices)
    requires
        size.x > 0,
        size.y > 0,
        size.z > 0,
        samples.len() == size.volume(),
        size.volume() <= u32::MAX,
    ensures
        r.of(samples@, size),
{
    proof {
        lemma_cell_bounds(size);
    }
    let lo = UVec3 { x: 0, y: 0, z: 0 };
    let hi = cells_of(size);
    let count: usize = count_of(lo, hi);
    let mut entries: Vec<u32> = Vec::new();
    let mut cells: Vec<UVec3> = Vec::new();
    let mut k: usize = 0;
    while k < count
        invariant
            size.x > 0,
            size.y > 0,
            size.z > 0,
            samples.len() == size.volume(),
            size.volume() <= u32::MAX,
            lo == UVec3::zero(),
            hi == cell_counts(size),
            count == box_count(lo, hi),
            count < u32::MAX,
            k <= count,
            entries.len() == k,
            cells@ == mixed_cells(samples@, size, k as nat),
            forall|j: int|
                0 <= j < k ==> #[trigger] entries@[j] == cell_entry(samples@, size, j),
        decreases count - k,
    {
        let c = cell_of(lo, hi, k);
        let corners = cell_corners(samples, size, c.x, c.y, c.z);
        let crosses: bool = is_mixed(&corners);
        proof {
            lemma_mixed_cells_len(samples@, size, k as nat);
            let (x, y, z) = (c.x as int, c.y as int, c.z as int);
            assert forall|i: int| 0 <= i < 8 implies #[trigger] corners@[i] == corner(
                samples@,
                size,
                x,
                y,
                z,
                i,
            ) by {}
            if crosses {
                let i = choose|i: int| 0 <= i < 8 && solid(#[trigger] corners@[i]);
                let j = choose|j: int| 0 <= j < 8 && !solid(#[trigger] corners@[j]);
                assert(solid(corner(samples@, size, x, y, z, i)));
                assert(!solid(corner(samples@, size, x, y, z, j)));
            }
            if mixed(samples@, size, x, y, z) {
                let i = choose|i: int| 0 <= i < 8 && solid(#[trigger] corner(samples@, size, x, y, z, i));
                let j = choose|j: int|
                    0 <= j < 8 && !solid(#[trigger] corner(samples@, size, x, y, z, j));
                assert(solid(corners@[i]));
                assert(!solid(corners@[j]));
            }
        }
        if crosses {
            entries.push(cells.len() as u32);
            cells.push(c);
        } else {
            entries.push(NO_VERTEX);
        }
        k = k + 1;
    }
    CellVertices { entries, cells }
}

/// A cell with a solid and an empty corner is crossed; the corners are given as
/// lattice points.
proof fn lemma_mixed_by(
    s: Seq<u32>,
    size: UVec3,
    cell: (int, int, int),
    p: (int, int, int),
    q: (int, int, int),
)
    requires
        cell.0 <= p.0 <= cell.0 + 1,
        cell.1 <= p.1 <= cell.1 + 1,
        cell.2 <= p.2 <= cell.2 + 1,
        cell.0 <= q.0 <= cell.0 + 1,
        cell.1 <= q.1 <= cell.1 + 1,
        cell.2 <= q.2 <= cell.2 + 1,
        solid(lattice_at(s, size, p.0, p.1, p.2)) != solid(lattice_at(s, size, q.0, q.1, q.2)),
    ensures
        mixed(s, size, cell.0, cell.1, cell.2),
{
    let i = (p.0 - cell.0) + 2 * (p.1 - cell.1) + 4 * (p.2 - cell.2);
    let j = (q.0 - cell.0) + 2 * (q.1 - cell.1) + 4 * (q.2 - cell.2);
    assert(i % 2 == p.0 - cell.0 && (i / 2) % 2 == p.1 - cell.1 && i / 4 == p.2 - cell.2);
    assert(j % 2 == q.0 - cell.0 && (j / 2) % 2 == q.1 - cell.1 && j / 4 == q.2 - cell.2);
    let a = corner(s, size, cell.0, cell.1, cell.2, i);
    let b = corner(s, size, cell.0, cell.1, cell.2, j);
    assert(a == lattice_at(s, size, p.0, p.1, p.2));
    assert(b == lattice_at(s, size, q.0, q.1, q.2));
    assert(solid(a) != solid(b));
}

/// All four cells around a crossed edge are crossed: no quad is ever left out.
pub proof fn law_crossed_edge_has_four_vertices(
    s: Seq<u32>,
    size: UVec3,
    axis: Axis,
    x: int,
    y: int,
    z: int,
    i: int,
)
    requires
        crossed(s, size, axis, x, y, z),
        0 <= i < 4,
    ensures
        ({
            let c = around(axis, x, y, z, i);
            mixed(s, size, c.0, c.1, c.2)
        }),
{
    let c = around(axis, x, y, z, i);
    let end = match axis {
        Axis::X => (x + 1, y, z),
        Axis::Y => (x, y + 1, z),
        Axis::Z => (x, y, z + 1),
    };
    lemma_mixed_by(s, size, c, (x, y, z), end);
}

/// The entry of a cell around a crossed edge is its vertex.
proof fn lemma_entry_is_vertex(s: Seq<u32>, size: UVec3, x: int, y: int, z: int)
    requires
        size.x > 0,
        size.y > 0,
        size.z > 0,
        size.volume() <= u32::MAX,
        cell_counts(size).has(x, y, z),
        mixed(s, size, x, y, z),
    ensures
        ({
            let k = box_number(UVec3::zero(), cell_counts(size), x, y, z);
            &&& 0 <= k < box_count(UVec3::zero(), cell_counts(size))
            &&& cell_entry(s, size, k) == vertex(s, size, x, y, z)
            &&& cell_entry(s, size, k) != NO_VERTEX
            &&& vertex(s, size, x, y, z) < vertex_cells(s, size).len()
        }),
{
    let lo = UVec3::zero();
    let hi = cell_counts(size);
    let k = box_number(lo, hi, x, y, z);
    lemma_cell_bounds(size);
    lemma_box_number(lo, hi, x, y, z);
    lemma_mixed_cells_len(s, size, k as nat);
    let count = box_count(lo, hi) as nat;
    lemma_mixed_cells_grow(s, size, (k + 1) as nat, count);
}

proof fn lemma_mixed_cells_grow(s: Seq<u32>, size: UVec3, m: nat, n: nat)
    requires
        m <= n,
    ensures
        mixed_cells(s, size, m).len() <= mixed_cells(s, size, n).len(),
    decreases n,
{
    if m < n {
        lemma_mixed_cells_grow(s, size, m, (n - 1) as nat);
    }
}

/// The entry of a cell, by its coordinates.
fn entry_index(size: UVec3, x: u32, y: u32, z: u32) -> (r: usize)
    requires
        size.x > 0,
        size.y > 0,
        size.z > 0,
        size.volume() <= u32::MAX,
        cell_counts(size).has(x as int, y as int, z as int),
    ensures
        r == box_number(UVec3::zero(), cell_counts(size), x as int, y as int, z as int),
        r < box_count(UVec3::zero(), cell_counts(size)),
{
    proof {
        lemma_cell_bounds(size);
    }
    let lo = UVec3 { x: 0, y: 0, z: 0 };
    number_of(lo, cells_of(size), x, y, z)
}

/// The entry of cell number `i` around an edge.
fn entry_around(size: UVec3, axis: Axis, e: UVec3, i: usize) -> (r: usize)
    requires
        size.x > 0,
        size.y > 0,
        size.z > 0,
        size.volume() <= u32::MAX,
        in_box(edge_lo(axis), cell_counts(size), e.x as int, e.y as int, e.z as int),
        i < 4,
    ensures
        ({
            let c = around(axis, e.x as int, e.y as int, e.z as int, i as int);
            &&& cell_counts(size).has(c.0, c.1, c.2)
            &&& r == box_number(UVec3::zero(), cell_counts(size), c.0, c.1, c.2)
            &&& r < box_count(UVec3::zero(), cell_counts(size))
        }),
{
    let a: u32 = if i == 0 || i == 3 {
        1
    } else {
        0
    };
    let b: u32 = if i == 0 || i == 1 {
        1
    } else {
        0
    };
    match axis {
        Axis::X => entry_index(size, e.x, e.y - a, e.z - b),
        Axis::Y => entry_index(size, e.x - a, e.y, e.z - b),
        Axis::Z => entry_index(size, e.x - a, e.y - b, e.z),
    }
}

/// What the entry around a crossed edge holds.
proof fn lemma_entry_around(s: Seq<u32>, size: UVec3, axis: Axis, x: int, y: int, z: int, i: int)
    requires
        size.x > 0,
        size.y > 0,
        size.z > 0,
        size.volume() <= u32::MAX,
        in_box(edge_lo(axis), cell_counts(size), x, y, z),
        crossed(s, size, axis, x, y, z),
        0 <= i < 4,
    ensures
        ({
            let c = around(axis, x, y, z, i);
            let k = box_number(UVec3::zero(), cell_counts(size), c.0, c.1, c.2);
            &&& cell_entry(s, size, k) == vertex(s, size, c.0, c.1, c.2)
            &&& cell_entry(s, size, k) != NO_VERTEX
            &&& vertex(s, size, c.0, c.1, c.2) < vertex_cells(s, size).len()
        }),
{
    law_crossed_edge_has_four_vertices(s, size, axis, x, y, z, i);
    let c = around(axis, x, y, z, i);
    lemma_entry_is_vertex(s, size, c.0, c.1, c.2);
}

/// The entry of a vertex around a crossed edge.
fn vertex_around(
    samples: &Vec<u32>,
    size: UVec3,
    vertices: &CellVertices,
    axis: Axis,
    e: UVec3,
    i: usize,
) -> (r: usize)
    requires
        size.x > 0,
        size.y > 0,
        size.z > 0,
        size.volume() <= u32::MAX,
        vertices.of(samples@, size),
        in_box(edge_lo(axis), cell_counts(size), e.x as int, e.y as int, e.z as int),
        crossed(samples@, size, axis, e.x as int, e.y as int, e.z as int),
        i < 4,
    ensures
        r < vertices.entries.len(),
        vertices.entries@[r as int] != NO_VERTEX,
        vertices.entries@[r as int] == ({
            let c = around(axis, e.x as int, e.y as int, e.z as int, i as int);
            vertex(samples@, size, c.0, c.1, c.2)
        }),
{
    let r: usize = entry_around(size, axis, e, i);
    proof {
        lemma_entry_around(
            samples@,
            size,
            axis,
            e.x as int,
            e.y as int,
            e.z as int,
            i as int,
        );
        assert(vertices.entries@[r as int] == cell_entry(samples@, size, r as int));
    }
    r
}

/// Add the triangles of an edge.
fn emit_edge(
    samples: &Vec<u32>,
    size: UVec3,
    vertices: &CellVertices,
    axis: Axis,
    e: UVec3,
    indices: &mut Vec<u32>,
)
    requires
        size.x > 0,
        size.y > 0,
        size.z > 0,
        samples.len() == size.volume(),
        size.volume() <= u32::MAX,
        vertices.of(samples@, size),
        in_box(edge_lo(axis), cell_counts(size), e.x as int, e.y as int, e.z as int),
    ensures
        final(indices)@ == old(indices)@ + edge_quad(
            samples@,
            size,
            axis,
            e.x as int,
            e.y as int,
            e.z as int,
        ),
{
    let ghost was = indices@;
    let ghost (x, y, z) = (e.x as int, e.y as int, e.z as int);
    let start: u32 = sample_at(samples, size, e.x, e.y, e.z);
    let end: u32 = match axis {
        Axis::X => sample_at(samples, size, e.x + 1, e.y, e.z),
        Axis::Y => sample_at(samples, size, e.x, e.y + 1, e.z),
        Axis::Z => sample_at(samples, size, e.x, e.y, e.z + 1),
    };
    if is_solid(start) == is_solid(end) {
        assert(indices@ =~= was + edge_quad(samples@, size, axis, x, y, z));
        return;
    }
    assert(crossed(samples@, size, axis, x, y, z));
    let c0: usize = vertex_around(samples, size, vertices, axis, e, 0);
    let c1: usize = vertex_around(samples, size, vertices, axis, e, 1);
    let c2: usize = vertex_around(samples, size, vertices, axis, e, 2);
    let c3: usize = vertex_around(samples, size, vertices, axis, e, 3);
    let flip: bool = !is_solid(start) && same_number(start, start);
    emit_quad(&vertices.entries, indices, [c0, c1, c2, c3], flip);
}

/// Add the triangles of all edges along an axis.
fn emit_axis(
    samples: &Vec<u32>,
    size: UVec3,
    vertices: &CellVertices,
    axis: Axis,
    indices: &mut Vec<u32>,
)
    requires
        size.x > 0,
        size.y > 0,
        size.z > 0,
        samples.len() == size.volume(),
        size.volume() <= u32::MAX,
        vertices.of(samples@, size),
    ensures
        final(indices)@ == old(indices)@ + whole_axis(samples@, size, axis),
{
    let ghost was = indices@;
    let lo = match axis {
        Axis::X => UVec3 { x: 0, y: 1, z: 1 },
        Axis::Y => UVec3 { x: 1, y: 0, z: 1 },
        Axis::Z => UVec3 { x: 1, y: 1, z: 0 },
    };
    let hi = cells_of(size);
    proof {
        lemma_cell_bounds(size);
        lemma_box_shrinks(lo, hi);
    }
    let count: usize = count_of(lo, hi);
    assert(indices@ =~= was + axis_quads(samples@, size, axis, 0));
    let mut k: usize = 0;
    while k < count
        invariant
            size.x > 0,
            size.y > 0,
            size.z > 0,
            samples.len() == size.volume(),
            size.volume() <= u32::MAX,
            vertices.of(samples@, size),
            lo == edge_lo(axis),
            hi == cell_counts(size),
            count == box_count(lo, hi),
            k <= count,
            indices@ == was + axis_quads(samples@, size, axis, k as nat),
        decreases count - k,
    {
        let e = cell_of(lo, hi, k);
        emit_edge(samples, size, vertices, axis, e, indices);
        assert(indices@ =~= was + axis_quads(samples@, size, axis, (k + 1) as nat));
        k = k + 1;
    }
}

/// A box that starts later has no more cells.
proof fn lemma_box_shrinks(lo: UVec3, hi: UVec3)
    ensures
        0 <= box_count(lo, hi) <= box_count(UVec3::zero(), hi),
{
    let (a, b, c) = (hi.x as int, hi.y as int, hi.z as int);
    let x: int = if lo.x < hi.x { hi.x - lo.x } else { 0 };
    let y: int = if lo.y < hi.y { hi.y - lo.y } else { 0 };
    let z: int = if lo.z < hi.z { hi.z - lo.z } else { 0 };
    assert(0 <= x * y <= a * b) by (nonlinear_arith)
        requires
            0 <= x <= a,
            0 <= y <= b,
    ;
    assert(0 <= (x * y) * z <= (a * b) * c) by (nonlinear_arith)
        requires
            0 <= x * y <= a * b,
            0 <= z <= c,
    ;
}

/// The triangles of a lattice.
pub fn dual_indices(samples: &Vec<u32>, size: UVec3, vertices: &CellVertices) -> (r: Vec<u32>)
    requires
        size.x > 0,
        size.y > 0,
        size.z > 0,
        samples.len() == size.volume(),
        size.volume() <= u32::MAX,
        vertices.of(samples@, size),
    ensures
        r@ == dual_triangles(samples@, size),
{
    let mut indices: Vec<u32> = Vec::new();
    emit_axis(samples, size, vertices, Axis::X, &mut indices);
    emit_axis(samples, size, vertices, Axis::Y, &mut indices);
    emit_axis(samples, size, vertices, Axis::Z, &mut indices);
    assert(indices@ =~= dual_triangles(samples@, size));
    indices
}

/// Triangles that come in quads, over the vertices of the lattice.
spec fn good_triangles(t: Seq<u32>, vertices: int) -> bool {
    &&& t.len() % 6 == 0
    &&& forall|i: int| 0 <= i < t.len() ==> #[trigger] t[i] < vertices
}

proof fn lemma_good_axis(s: Seq<u32>, size: UVec3, axis: Axis, n: nat)
    requires
        size.x > 0,
        size.y > 0,
        size.z > 0,
        size.volume() <= u32::MAX,
        n <= box_count(edge_lo(axis), cell_counts(size)),
    ensures
        good_triangles(axis_quads(s, size, axis, n), vertex_cells(s, size).len() as int),
    decreases n,
{
    if n > 0 {
        lemma_good_axis(s, size, axis, (n - 1) as nat);
        lemma_box_cell(edge_lo(axis), cell_counts(size), n - 1);
        let e = box_cell(edge_lo(axis), cell_counts(size), n - 1);
        let (x, y, z) = (e.x as int, e.y as int, e.z as int);
        lemma_good_edge(s, size, axis, x, y, z);
    }
}

proof fn lemma_good_edge(s: Seq<u32>, size: UVec3, axis: Axis, x: int, y: int, z: int)
    requires
        size.x > 0,
        size.y > 0,
        size.z > 0,
        size.volume() <= u32::MAX,
        in_box(edge_lo(axis), cell_counts(size), x, y, z),
    ensures
        good_triangles(edge_quad(s, size, axis, x, y, z), vertex_cells(s, size).len() as int),
{
    if crossed(s, size, axis, x, y, z) {
        lemma_entry_around(s, size, axis, x, y, z, 0);
        lemma_entry_around(s, size, axis, x, y, z, 1);
        lemma_entry_around(s, size, axis, x, y, z, 2);
        lemma_entry_around(s, size, axis, x, y, z, 3);
    }
}

/// Every index of the mesh names one of its vertices, and the triangles come in
/// pairs.
pub proof fn law_indices_in_range(s: Seq<u32>, size: UVec3)
    requires
        size.x > 0,
        size.y > 0,
        size.z > 0,
        size.volume() <= u32::MAX,
    ensures
        dual_triangles(s, size).len() % 6 == 0,
        forall|i: int|
            0 <= i < dual_triangles(s, size).len() ==> #[trigger] dual_triangles(s, size)[i]
                < vertex_cells(s, size).len(),
{
    lemma_box_shrinks(edge_lo(Axis::X), cell_counts(size));
    lemma_box_shrinks(edge_lo(Axis::Y), cell_counts(size));
    lemma_box_shrinks(edge_lo(Axis::Z), cell_counts(size));
    lemma_good_axis(s, size, Axis::X, box_count(edge_lo(Axis::X), cell_counts(size)) as nat);
    lemma_good_axis(s, size, Axis::Y, box_count(edge_lo(Axis::Y), cell_counts(size)) as nat);
    lemma_good_axis(s, size, Axis::Z, box_count(edge_lo(Axis::Z), cell_counts(size)) as nat);
}

/// With nothing solid on the border of the lattice, every crossed edge has four
/// cells around it, so the surface has no hole at the border.
pub proof fn law_border_loses_no_quad(s: Seq<u32>, size: UVec3, axis: Axis, x: int, y: int, z: int)
    requires
        size.x > 0,
        size.y > 0,
        size.z > 0,
        forall|a: int, b: int, c: int|
            size.has(a, b, c) && on_border(size, a, b, c) ==> !solid(
                #[trigger] lattice_at(s, size, a, b, c),
            ),
        size.has(x, y, z),
        axis == Axis::X ==> x + 1 < size.x,
        axis == Axis::Y ==> y + 1 < size.y,
        axis == Axis::Z ==> z + 1 < size.z,
        crossed(s, size, axis, x, y, z),
    ensures
        in_box(edge_lo(axis), cell_counts(size), x, y, z),
{
}

/// How many edges of the face of a cell the surface crosses; the face is the one with
/// corner `(x, y, z)` that lies across `axis`.
pub open spec fn face_crossings(s: Seq<u32>, size: UVec3, axis: Axis, x: int, y: int, z: int) -> int {
    let one = |a: Axis, x: int, y: int, z: int|
        if crossed(s, size, a, x, y, z) {
            1int
        } else {
            0int
        };
    match axis {
        Axis::X => one(Axis::Y, x, y, z) + one(Axis::Y, x, y, z + 1) + one(Axis::Z, x, y, z) + one(
            Axis::Z,
            x,
            y + 1,
            z,
        ),
        Axis::Y => one(Axis::X, x, y, z) + one(Axis::X, x, y, z + 1) + one(Axis::Z, x, y, z) + one(
            Axis::Z,
            x + 1,
            y,
            z,
        ),
        Axis::Z => one(Axis::X, x, y, z) + one(Axis::X, x, y + 1, z) + one(Axis::Y, x, y, z) + one(
            Axis::Y,
            x + 1,
            y,
            z,
        ),
    }
}

/// The surface closes up: two cells that share a face are joined by an even number of
/// quads, so no quad ends in the open between them.
pub proof fn law_shared_face_joins_evenly(
    s: Seq<u32>,
    size: UVec3,
    axis: Axis,
    x: int,
    y: int,
    z: int,
)
    ensures
        face_crossings(s, size, axis, x, y, z) % 2 == 0,
{
}

/// The surface crosses a cell if and only if the eight lattice points at its corners, those
/// at most one farther than the cell along each axis, are neither all solid nor all not.
pub proof fn law_mixed_cell_has_both(s: Seq<u32>, size: UVec3, x: int, y: int, z: int)
    ensures
        mixed(s, size, x, y, z) <==> {
            &&& exists|a: int, b: int, c: int|
                x <= a <= x + 1 && y <= b <= y + 1 && z <= c <= z + 1 && solid(
                    #[trigger] lattice_at(s, size, a, b, c),
                )
            &&& exists|a: int, b: int, c: int|
                x <= a <= x + 1 && y <= b <= y + 1 && z <= c <= z + 1 && !solid(
                    #[trigger] lattice_at(s, size, a, b, c),
                )
        },
{
    if mixed(s, size, x, y, z) {
        let i = choose|i: int| 0 <= i < 8 && solid(#[trigger] corner(s, size, x, y, z, i));
        let j = choose|j: int| 0 <= j < 8 && !solid(#[trigger] corner(s, size, x, y, z, j));
        assert(solid(lattice_at(s, size, x + i % 2, y + (i / 2) % 2, z + i / 4)));
        assert(!solid(lattice_at(s, size, x + j % 2, y + (j / 2) % 2, z + j / 4)));
    } else if exists|a: int, b: int, c: int|
        x <= a <= x + 1 && y <= b <= y + 1 && z <= c <= z + 1 && solid(
            #[trigger] lattice_at(s, size, a, b, c),
        ) {
        let (a, b, c) = choose|a: int, b: int, c: int|
            x <= a <= x + 1 && y <= b <= y + 1 && z <= c <= z + 1 && solid(
                #[trigger] lattice_at(s, size, a, b, c),
            );
        assert forall|d: int, e: int, f: int|
            x <= d <= x + 1 && y <= e <= y + 1 && z <= f <= z + 1 implies solid(
            #[trigger] lattice_at(s, size, d, e, f),
        ) by {
            if !solid(lattice_at(s, size, d, e, f)) {
                lemma_mixed_by(s, size, (x, y, z), (a, b, c), (d, e, f));
            }
        }
    }
}

/// The crossed cells among the first `n` are cells of the lattice, in scan order.
proof fn lemma_mixed_cells_listed(s: Seq<u32>, size: UVec3, n: nat)
    requires
        n <= box_count(UVec3::zero(), cell_counts(size)),
    ensures
        forall|i: int|
            0 <= i < mixed_cells(s, size, n).len() ==> {
                let c = #[trigger] mixed_cells(s, size, n)[i];
                let k = box_number(
                    UVec3::zero(),
                    cell_counts(size),
                    c.x as int,
                    c.y as int,
                    c.z as int,
                );
                &&& cell_counts(size).has(c.x as int, c.y as int, c.z as int)
                &&& mixed(s, size, c.x as int, c.y as int, c.z as int)
                &&& 0 <= k < n
                &&& mixed_cells(s, size, k as nat).len() == i
            },
    decreases n,
{
    if n > 0 {
        lemma_mixed_cells_listed(s, size, (n - 1) as nat);
        lemma_box_cell(UVec3::zero(), cell_counts(size), n - 1);
        let before = mixed_cells(s, size, (n - 1) as nat);
        let now = mixed_cells(s, size, n);
        assert forall|i: int| 0 <= i < now.len() implies {
            let c = #[trigger] now[i];
            let k = box_number(UVec3::zero(), cell_counts(size), c.x as int, c.y as int, c.z as int);
            &&& cell_counts(size).has(c.x as int, c.y as int, c.z as int)
            &&& mixed(s, size, c.x as int, c.y as int, c.z as int)
            &&& 0 <= k < n
            &&& mixed_cells(s, size, k as nat).len() == i
        } by {
            if i < before.len() {
                assert(now[i] == before[i]);
            }
        }
    }
}

/// The crossed cells among the first `m` come first among those of the first `n`.
proof fn lemma_mixed_cells_prefix(s: Seq<u32>, size: UVec3, m: nat, n: nat)
    requires
        m <= n,
    ensures
        mixed_cells(s, size, m).len() <= mixed_cells(s, size, n).len(),
        forall|i: int|
            0 <= i < mixed_cells(s, size, m).len() ==> #[trigger] mixed_cells(s, size, n)[i]
                == mixed_cells(s, size, m)[i],
    decreases n,
{
    if m < n {
        lemma_mixed_cells_prefix(s, size, m, (n - 1) as nat);
        let before = mixed_cells(s, size, (n - 1) as nat);
        let now = mixed_cells(s, size, n);
        assert(forall|i: int| 0 <= i < before.len() ==> now[i] == before[i]);
    }
}

/// There is one vertex for each crossed cell and for nothing else, and vertices are
/// numbered in scan order: the vertex of a crossed cell names that cell.
pub proof fn law_one_vertex_per_crossed_cell(s: Seq<u32>, size: UVec3)
    requires
        size.x > 0,
        size.y > 0,
        size.z > 0,
        size.volume() <= u32::MAX,
    ensures
        forall|x: int, y: int, z: int|
            0 <= x < size.x - 1 && 0 <= y < size.y - 1 && 0 <= z < size.z - 1 && #[trigger] mixed(
                s,
                size,
                x,
                y,
                z,
            ) ==> {
                &&& vertex(s, size, x, y, z) < vertex_cells(s, size).len()
                &&& vertex_cells(s, size)[vertex(s, size, x, y, z) as int] == (UVec3 {
                    x: x as u32,
                    y: y as u32,
                    z: z as u32,
                })
            },
        forall|i: int|
            0 <= i < vertex_cells(s, size).len() ==> {
                let c = #[trigger] vertex_cells(s, size)[i];
                &&& c.x < size.x - 1
                &&& c.y < size.y - 1
                &&& c.z < size.z - 1
                &&& mixed(s, size, c.x as int, c.y as int, c.z as int)
            },
        forall|i: int, j: int|
            0 <= i < j < vertex_cells(s, size).len() ==> {
                let a = #[trigger] vertex_cells(s, size)[i];
                let b = #[trigger] vertex_cells(s, size)[j];
                scans_before(
                    a.x as int,
                    a.y as int,
                    a.z as int,
                    b.x as int,
                    b.y as int,
                    b.z as int,
                )
            },
{
    let lo = UVec3::zero();
    let hi = cell_counts(size);
    let count = box_count(lo, hi) as nat;
    lemma_cell_bounds(size);
    lemma_mixed_cells_listed(s, size, count);
    let all = vertex_cells(s, size);
    assert forall|x: int, y: int, z: int|
        0 <= x < size.x - 1 && 0 <= y < size.y - 1 && 0 <= z < size.z - 1 && #[trigger] mixed(
            s,
            size,
            x,
            y,
            z,
        ) implies {
        &&& vertex(s, size, x, y, z) < all.len()
        &&& all[vertex(s, size, x, y, z) as int] == (UVec3 { x: x as u32, y: y as u32, z: z as u32 })
    } by {
        lemma_entry_is_vertex(s, size, x, y, z);
        lemma_box_number(lo, hi, x, y, z);
        let k = box_number(lo, hi, x, y, z);
        lemma_mixed_cells_len(s, size, k as nat);
        lemma_mixed_cells_prefix(s, size, (k + 1) as nat, count);
        let part = mixed_cells(s, size, (k + 1) as nat);
        assert(part.last() == box_cell(lo, hi, k));
        assert(all[part.len() - 1] == part[part.len() - 1]);
    }
    assert forall|i: int, j: int| 0 <= i < j < all.len() implies {
        let a = #[trigger] all[i];
        let b = #[trigger] all[j];
        scans_before(a.x as int, a.y as int, a.z as int, b.x as int, b.y as int, b.z as int)
    } by {
        let (a, b) = (all[i], all[j]);
        let k = box_number(lo, hi, a.x as int, a.y as int, a.z as int);
        let l = box_number(lo, hi, b.x as int, b.y as int, b.z as int);
        if l <= k {
            lemma_mixed_cells_grow(s, size, l as nat, k as nat);
        }
        lemma_number_order(
            lo,
            hi,
            a.x as int,
            a.y as int,
            a.z as int,
            b.x as int,
            b.y as int,
            b.z as int,
        );
    }
}

/// The component along an axis of the cross product of the sides `ab` and `ac`: twice the
/// area of the triangle seen from the tip of the axis, above zero where its corners go
/// round counter-clockwise.
pub open spec fn seen_area(axis: Axis, a: UVec3, b: UVec3, c: UVec3) -> int {
    match axis {
        Axis::X => (b.y - a.y) * (c.z - a.z) - (b.z - a.z) * (c.y - a.y),
        Axis::Y => (b.z - a.z) * (c.x - a.x) - (b.x - a.x) * (c.z - a.z),
        Axis::Z => (b.x - a.x) * (c.y - a.y) - (b.y - a.y) * (c.x - a.x),
    }
}

/// The cell has the edge that starts at `(x, y, z)` and goes up `axis`.
pub open spec fn has_edge(c: UVec3, axis: Axis, x: int, y: int, z: int) -> bool {
    &&& if axis == Axis::X { c.x == x } else { x - 1 <= c.x <= x }
    &&& if axis == Axis::Y { c.y == y } else { y - 1 <= c.y <= y }
    &&& if axis == Axis::Z { c.z == z } else { z - 1 <= c.z <= z }
}

/// Four cells go round an edge: seen from its tip, counter-clockwise in the plane that the
/// other two axes span, taken in their order.
proof fn lemma_area_round(axis: Axis, a: UVec3, b: UVec3, c: UVec3, d: UVec3)
    requires
        axis == Axis::X ==> a.x == b.x == c.x == d.x && b.y == a.y + 1 && b.z == a.z && c.y == a.y + 1
            && c.z == a.z + 1 && d.y == a.y && d.z == a.z + 1,
        axis == Axis::Y ==> a.y == b.y == c.y == d.y && b.x == a.x + 1 && b.z == a.z && c.x == a.x + 1
            && c.z == a.z + 1 && d.x == a.x && d.z == a.z + 1,
        axis == Axis::Z ==> a.z == b.z == c.z == d.z && b.x == a.x + 1 && b.y == a.y && c.x == a.x + 1
            && c.y == a.y + 1 && d.x == a.x && d.y == a.y + 1,
    ensures
        ({
            let way: int = if axis == Axis::Y { -1 } else { 1 };
            &&& seen_area(axis, a, b, c) == way
            &&& seen_area(axis, a, c, d) == way
            &&& seen_area(axis, a, c, b) == -way
            &&& seen_area(axis, a, d, c) == -way
        }),
{
    assert forall|p: int, q: int| p == 0 implies #[trigger] (p * q) == 0 by {
        assert(p * q == 0) by (nonlinear_arith)
            requires
                p == 0,
        ;
    }
    assert forall|p: int, q: int| q == 0 implies #[trigger] (p * q) == 0 by {
        assert(p * q == 0) by (nonlinear_arith)
            requires
                q == 0,
        ;
    }
    assert forall|p: int, q: int| p == 1 implies #[trigger] (p * q) == q by {
        assert(p * q == q) by (nonlinear_arith)
            requires
                p == 1,
        ;
    }
}

/// An edge that the surface does not cross has no triangles. One that it crosses and that
/// has four cells round it has two: their corners are the vertices of those four cells,
/// the triangles lie side by side, and both go the same way round the edge. Which way
/// depends on which end is solid, and along y it is the other way than along x and z.
pub proof fn law_quad_goes_round_its_edge(
    s: Seq<u32>,
    size: UVec3,
    axis: Axis,
    x: int,
    y: int,
    z: int,
)
    requires
        size.x > 0,
        size.y > 0,
        size.z > 0,
        size.volume() <= u32::MAX,
        0 <= x < size.x - 1,
        0 <= y < size.y - 1,
        0 <= z < size.z - 1,
        axis == Axis::X || x > 0,
        axis == Axis::Y || y > 0,
        axis == Axis::Z || z > 0,
    ensures
        ({
            let quad = edge_quad(s, size, axis, x, y, z);
            let cells = vertex_cells(s, size);
            let start = lattice_at(s, size, x, y, z);
            let end = match axis {
                Axis::X => lattice_at(s, size, x + 1, y, z),
                Axis::Y => lattice_at(s, size, x, y + 1, z),
                Axis::Z => lattice_at(s, size, x, y, z + 1),
            };
            if solid(start) == solid(end) {
                quad.len() == 0
            } else {
                let way: int = if (axis == Axis::Y) == (solid(start) || is_nan(start)) { 1 } else { -1 };
                &&& quad.len() == 6
                &&& forall|i: int|
                    0 <= i < 6 ==> #[trigger] quad[i] < cells.len() && has_edge(
                        cells[quad[i] as int],
                        axis,
                        x,
                        y,
                        z,
                    )
                &&& forall|c: UVec3| #[trigger]
                    has_edge(c, axis, x, y, z) ==> exists|i: int|
                        0 <= i < 6 && cells[#[trigger] quad[i] as int] == c
                &&& seen_area(
                    axis,
                    cells[quad[0] as int],
                    cells[quad[1] as int],
                    cells[quad[2] as int],
                ) == way
                &&& seen_area(
                    axis,
                    cells[quad[3] as int],
                    cells[quad[4] as int],
                    cells[quad[5] as int],
                ) == way
            }
        }),
{
    if crossed(s, size, axis, x, y, z) {
        let quad = edge_quad(s, size, axis, x, y, z);
        let cells = vertex_cells(s, size);
        let start = lattice_at(s, size, x, y, z);
        let (a, b, c, d) = (
            cell_around(axis, x, y, z, 0),
            cell_around(axis, x, y, z, 1),
            cell_around(axis, x, y, z, 2),
            cell_around(axis, x, y, z, 3),
        );
        lemma_vertex_around(s, size, axis, x, y, z, 0);
        lemma_vertex_around(s, size, axis, x, y, z, 1);
        lemma_vertex_around(s, size, axis, x, y, z, 2);
        lemma_vertex_around(s, size, axis, x, y, z, 3);
        lemma_area_round(axis, a, b, c, d);
        let v = |i: int|
            {
                let c = around(axis, x, y, z, i);
                vertex(s, size, c.0, c.1, c.2)
            };
        let flip = !solid(start) && !is_nan(start);
        assert(quad == quad_of(v(0), v(1), v(2), v(3), flip));
        assert(cells[quad[0] as int] == a && cells[quad[3] as int] == a);
        if flip {
            assert(cells[quad[1] as int] == b && cells[quad[2] as int] == c);
            assert(cells[quad[4] as int] == c && cells[quad[5] as int] == d);
        } else {
            assert(cells[quad[1] as int] == c && cells[quad[2] as int] == b);
            assert(cells[quad[4] as int] == d && cells[quad[5] as int] == c);
        }
        assert forall|e: UVec3| #[trigger] has_edge(e, axis, x, y, z) implies exists|i: int|
            0 <= i < 6 && cells[#[trigger] quad[i] as int] == e by {
            assert(e == a || e == b || e == c || e == d);
        }
    }
}

/// Cell number `i` of the four around an edge, as a cell of the lattice.
spec fn cell_around(axis: Axis, x: int, y: int, z: int, i: int) -> UVec3 {
    let c = around(axis, x, y, z, i);
    UVec3 { x: c.0 as u32, y: c.1 as u32, z: c.2 as u32 }
}

/// The vertex of a cell around a crossed edge names that cell.
proof fn lemma_vertex_around(s: Seq<u32>, size: UVec3, axis: Axis, x: int, y: int, z: int, i: int)
    requires
        size.x > 0,
        size.y > 0,
        size.z > 0,
        size.volume() <= u32::MAX,
        in_box(edge_lo(axis), cell_counts(size), x, y, z),
        crossed(s, size, axis, x, y, z),
        0 <= i < 4,
    ensures
        ({
            let c = around(axis, x, y, z, i);
            let v = vertex(s, size, c.0, c.1, c.2);
            &&& v < vertex_cells(s, size).len()
            &&& vertex_cells(s, size)[v as int] == cell_around(axis, x, y, z, i)
            &&& has_edge(cell_around(axis, x, y, z, i), axis, x, y, z)
        }),
{
    law_one_vertex_per_crossed_cell(s, size);
    law_crossed_edge_has_four_vertices(s, size, axis, x, y, z, i);
    let c = around(axis, x, y, z, i);
    assert(mixed(s, size, c.0, c.1, c.2));
}

/// An edge of the lattice with four cells round it that the surface crosses.
pub open spec fn is_crossed_edge(s: Seq<u32>, size: UVec3, e: (Axis, int, int, int)) -> bool {
    let (axis, x, y, z) = e;
    &&& 0 <= x < size.x - 1
    &&& 0 <= y < size.y - 1
    &&& 0 <= z < size.z - 1
    &&& axis == Axis::X || x > 0
    &&& axis == Axis::Y || y > 0
    &&& axis == Axis::Z || z > 0
    &&& crossed(s, size, axis, x, y, z)
}

/// The triangles are those of the listed edges, edge by edge.
pub open spec fn is_quads_of(
    t: Seq<u32>,
    s: Seq<u32>,
    size: UVec3,
    edges: Seq<(Axis, int, int, int)>,
) -> bool {
    &&& t.len() == 6 * edges.len()
    &&& forall|i: int|
        0 <= i < edges.len() ==> t.subrange(6 * i, 6 * i + 6) == edge_quad(
            s,
            size,
            (#[trigger] edges[i]).0,
            edges[i].1,
            edges[i].2,
            edges[i].3,
        )
}

/// The crossed edges along an axis among the first `n`.
spec fn edges_along(s: Seq<u32>, size: UVec3, axis: Axis, n: nat) -> Seq<(Axis, int, int, int)>
    decreases n,
{
    if n == 0 {
        Seq::empty()
    } else {
        let e = box_cell(edge_lo(axis), cell_counts(size), n - 1);
        let before = edges_along(s, size, axis, (n - 1) as nat);
        if crossed(s, size, axis, e.x as int, e.y as int, e.z as int) {
            before.push((axis, e.x as int, e.y as int, e.z as int))
        } else {
            before
        }
    }
}

proof fn lemma_quads_join(
    t: Seq<u32>,
    u: Seq<u32>,
    s: Seq<u32>,
    size: UVec3,
    a: Seq<(Axis, int, int, int)>,
    b: Seq<(Axis, int, int, int)>,
)
    requires
        is_quads_of(t, s, size, a),
        is_quads_of(u, s, size, b),
    ensures
        is_quads_of(t + u, s, size, a + b),
{
    let (all, edges) = (t + u, a + b);
    assert forall|i: int| 0 <= i < edges.len() implies all.subrange(6 * i, 6 * i + 6) == edge_quad(
        s,
        size,
        (#[trigger] edges[i]).0,
        edges[i].1,
        edges[i].2,
        edges[i].3,
    ) by {
        if i < a.len() {
            assert(edges[i] == a[i]);
            assert(all.subrange(6 * i, 6 * i + 6) =~= t.subrange(6 * i, 6 * i + 6));
        } else {
            let j = i - a.len();
            assert(edges[i] == b[j]);
            assert(all.subrange(6 * i, 6 * i + 6) =~= u.subrange(6 * j, 6 * j + 6));
        }
    }
}

proof fn lemma_edges_along(s: Seq<u32>, size: UVec3, axis: Axis, n: nat)
    requires
        size.x > 0,
        size.y > 0,
        size.z > 0,
        size.volume() <= u32::MAX,
        n <= box_count(edge_lo(axis), cell_counts(size)),
    ensures
        is_quads_of(axis_quads(s, size, axis, n), s, size, edges_along(s, size, axis, n)),
        edges_along(s, size, axis, n).no_duplicates(),
        forall|e: (Axis, int, int, int)| #[trigger]
            edges_along(s, size, axis, n).contains(e) <==> {
                &&& e.0 == axis
                &&& in_box(edge_lo(axis), cell_counts(size), e.1, e.2, e.3)
                &&& box_number(edge_lo(axis), cell_counts(size), e.1, e.2, e.3) < n
                &&& crossed(s, size, axis, e.1, e.2, e.3)
            },
    decreases n,
{
    let (lo, hi) = (edge_lo(axis), cell_counts(size));
    let now = edges_along(s, size, axis, n);
    if n == 0 {
        assert forall|e: (Axis, int, int, int)| in_box(lo, hi, e.1, e.2, e.3) implies #[trigger] box_number(
            lo,
            hi,
            e.1,
            e.2,
            e.3,
        ) >= 0 by {
            lemma_box_number(lo, hi, e.1, e.2, e.3);
        }
    } else {
        lemma_edges_along(s, size, axis, (n - 1) as nat);
        lemma_box_cell(lo, hi, n - 1);
        let before = edges_along(s, size, axis, (n - 1) as nat);
        let c = box_cell(lo, hi, n - 1);
        let here = (axis, c.x as int, c.y as int, c.z as int);
        let quad = edge_quad(s, size, here.0, here.1, here.2, here.3);
        law_quad_goes_round_its_edge(s, size, here.0, here.1, here.2, here.3);
        assert forall|e: (Axis, int, int, int)| #[trigger] now.contains(e) <==> {
            &&& e.0 == axis
            &&& in_box(lo, hi, e.1, e.2, e.3)
            &&& box_number(lo, hi, e.1, e.2, e.3) < n
            &&& crossed(s, size, axis, e.1, e.2, e.3)
        } by {
            if before.contains(e) {
                let i = choose|i: int| 0 <= i < before.len() && before[i] == e;
                assert(now[i] == e);
            }
            if e == here && crossed(s, size, axis, e.1, e.2, e.3) {
                assert(now[before.len() as int] == e);
            }
            if in_box(lo, hi, e.1, e.2, e.3) && box_number(lo, hi, e.1, e.2, e.3) == n - 1 {
                lemma_box_number(lo, hi, e.1, e.2, e.3);
            }
        }
        if crossed(s, size, here.0, here.1, here.2, here.3) {
            assert(!before.contains(here));
            let one = seq![here];
            assert(quad.subrange(0, 6) =~= quad);
            assert(is_quads_of(quad, s, size, one));
            lemma_quads_join(axis_quads(s, size, axis, (n - 1) as nat), quad, s, size, before, one);
            assert(before + one =~= now);
        } else {
            assert(axis_quads(s, size, axis, n) =~= axis_quads(s, size, axis, (n - 1) as nat));
        }
    }
}

/// The mesh is made of the quads of the crossed edges with four cells round them: each such
/// edge gives its quad once, and there is nothing else.
pub proof fn law_mesh_is_one_quad_per_crossed_edge(s: Seq<u32>, size: UVec3)
    requires
        size.x > 0,
        size.y > 0,
        size.z > 0,
        size.volume() <= u32::MAX,
    ensures
        exists|edges: Seq<(Axis, int, int, int)>|
            {
                &&& #[trigger] is_quads_of(dual_triangles(s, size), s, size, edges)
                &&& edges.no_duplicates()
                &&& forall|e: (Axis, int, int, int)| #[trigger]
                    edges.contains(e) <==> is_crossed_edge(s, size, e)
            },
{
    let hi = cell_counts(size);
    lemma_box_shrinks(edge_lo(Axis::X), hi);
    lemma_box_shrinks(edge_lo(Axis::Y), hi);
    lemma_box_shrinks(edge_lo(Axis::Z), hi);
    let a = edges_along(s, size, Axis::X, box_count(edge_lo(Axis::X), hi) as nat);
    let b = edges_along(s, size, Axis::Y, box_count(edge_lo(Axis::Y), hi) as nat);
    let c = edges_along(s, size, Axis::Z, box_count(edge_lo(Axis::Z), hi) as nat);
    lemma_edges_along(s, size, Axis::X, box_count(edge_lo(Axis::X), hi) as nat);
    lemma_edges_along(s, size, Axis::Y, box_count(edge_lo(Axis::Y), hi) as nat);
    lemma_edges_along(s, size, Axis::Z, box_count(edge_lo(Axis::Z), hi) as nat);
    lemma_quads_join(whole_axis(s, size, Axis::X), whole_axis(s, size, Axis::Y), s, size, a, b);
    lemma_quads_join(
        whole_axis(s, size, Axis::X) + whole_axis(s, size, Axis::Y),
        whole_axis(s, size, Axis::Z),
        s,
        size,
        a + b,
        c,
    );
    let edges = a + b + c;
    assert(is_quads_of(dual_triangles(s, size), s, size, edges));
    assert forall|e: (Axis, int, int, int)| #[trigger] edges.contains(e) <==> is_crossed_edge(
        s,
        size,
        e,
    ) by {
        lemma_listed_in(a, b, c, e);
        if is_crossed_edge(s, size, e) {
            lemma_box_number(edge_lo(e.0), hi, e.1, e.2, e.3);
        }
    }
    assert(edges.no_duplicates()) by {
        assert forall|i: int, j: int| 0 <= i < edges.len() && 0 <= j < edges.len() && i != j implies edges[i]
            != edges[j] by {
            lemma_axis_at(a, b, c, i);
            lemma_axis_at(a, b, c, j);
        }
    }
}

proof fn lemma_listed_in(
    a: Seq<(Axis, int, int, int)>,
    b: Seq<(Axis, int, int, int)>,
    c: Seq<(Axis, int, int, int)>,
    e: (Axis, int, int, int),
)
    ensures
        (a + b + c).contains(e) <==> a.contains(e) || b.contains(e) || c.contains(e),
{
    let all = a + b + c;
    if a.contains(e) {
        let i = choose|i: int| 0 <= i < a.len() && a[i] == e;
        assert(all[i] == e);
    }
    if b.contains(e) {
        let i = choose|i: int| 0 <= i < b.len() && b[i] == e;
        assert(all[a.len() + i] == e);
    }
    if c.contains(e) {
        let i = choose|i: int| 0 <= i < c.len() && c[i] == e;
        assert(all[a.len() + b.len() + i] == e);
    }
}

/// Which of three lists an item of all of them comes from.
proof fn lemma_axis_at(
    a: Seq<(Axis, int, int, int)>,
    b: Seq<(Axis, int, int, int)>,
    c: Seq<(Axis, int, int, int)>,
    i: int,
)
    requires
        0 <= i < (a + b + c).len(),
        forall|e: (Axis, int, int, int)| #[trigger] a.contains(e) ==> e.0 == Axis::X,
        forall|e: (Axis, int, int, int)| #[trigger] b.contains(e) ==> e.0 == Axis::Y,
        forall|e: (Axis, int, int, int)| #[trigger] c.contains(e) ==> e.0 == Axis::Z,
    ensures
        i < a.len() ==> (a + b + c)[i] == a[i] && a[i].0 == Axis::X,
        a.len() <= i < a.len() + b.len() ==> (a + b + c)[i] == b[i - a.len()] && b[i - a.len()].0
            == Axis::Y,
        a.len() + b.len() <= i ==> (a + b + c)[i] == c[i - a.len() - b.len()] && c[i - a.len()
            - b.len()].0 == Axis::Z,
{
    if i < a.len() {
        assert(a.contains(a[i]));
    } else if i < a.len() + b.len() {
        assert(b.contains(b[i - a.len()]));
    } else {
        assert(c.contains(c[i - a.len() - b.len()]));
    }
}

} // verus!
