//! Boxes of cells, walked with x fastest, then y, then z.

use crate::vec3::UVec3;
use vstd::arithmetic::div_mod::{lemma_fundamental_div_mod, lemma_fundamental_div_mod_converse};
use vstd::prelude::*;

verus! {

/// Length of the half-open range from `lo` to `hi`.
pub open spec fn span(lo: u32, hi: u32) -> int {
    if lo < hi {
        hi - lo
    } else {
        0
    }
}

/// Number of cells in the half-open box from `min` to `max`.
pub open spec fn box_count(min: UVec3, max: UVec3) -> int {
    span(min.x, max.x) * span(min.y, max.y) * span(min.z, max.z)
}

/// `(x, y, z)` lies in the half-open box from `min` to `max`.
pub open spec fn in_box(min: UVec3, max: UVec3, x: int, y: int, z: int) -> bool {
    &&& min.x <= x < max.x
    &&& min.y <= y < max.y
    &&& min.z <= z < max.z
}

/// Cell number `k` of the box, in scan order.
pub open spec fn box_cell(min: UVec3, max: UVec3, k: int) -> UVec3 {
    let sx = span(min.x, max.x);
    let sy = span(min.y, max.y);
    UVec3 {
        x: (min.x + k % sx) as u32,
        y: (min.y + (k / sx) % sy) as u32,
        z: (min.z + (k / sx) / sy) as u32,
    }
}

/// Position of a cell of the box in scan order.
pub open spec fn box_number(min: UVec3, max: UVec3, x: int, y: int, z: int) -> int {
    let sx = span(min.x, max.x);
    let sy = span(min.y, max.y);
    (x - min.x) + ((y - min.y) + (z - min.z) * sy) * sx
}

/// Cell number `k` is in the box, and is the cell with that number.
pub proof fn lemma_box_cell(min: UVec3, max: UVec3, k: int)
    requires
        0 <= k < box_count(min, max),
    ensures
        ({
            let c = box_cell(min, max, k);
            &&& in_box(min, max, c.x as int, c.y as int, c.z as int)
            &&& box_number(min, max, c.x as int, c.y as int, c.z as int) == k
            &&& c.x == min.x + k % span(min.x, max.x)
            &&& c.y == min.y + (k / span(min.x, max.x)) % span(min.y, max.y)
            &&& c.z == min.z + (k / span(min.x, max.x)) / span(min.y, max.y)
        }),
{
    let sx = span(min.x, max.x);
    let sy = span(min.y, max.y);
    let sz = span(min.z, max.z);
    assert(sx > 0 && sy > 0 && sz > 0) by (nonlinear_arith)
        requires
            sx >= 0,
            sy >= 0,
            sz >= 0,
            sx * sy * sz > 0,
    ;
    let row = k / sx;
    let z = row / sy;
    lemma_fundamental_div_mod(k, sx);
    lemma_fundamental_div_mod(row, sy);
    assert(row >= 0) by (nonlinear_arith)
        requires
            row == k / sx,
            k >= 0,
            sx > 0,
    ;
    assert(z >= 0) by (nonlinear_arith)
        requires
            z == row / sy,
            row >= 0,
            sy > 0,
    ;
    assert(0 <= k % sx < sx && 0 <= row % sy < sy) by (nonlinear_arith)
        requires
            sx > 0,
            sy > 0,
    ;
    assert(z < sz) by (nonlinear_arith)
        requires
            k == sx * row + k % sx,
            row == sy * z + row % sy,
            0 <= k % sx,
            0 <= row % sy,
            k < sx * sy * sz,
            sx > 0,
            sy > 0,
    ;
    assert((row % sy + z * sy) * sx == sx * row) by (nonlinear_arith)
        requires
            row == sy * z + row % sy,
    ;
}

/// A cell of the box has a number, and is the cell of that number.
pub proof fn lemma_box_number(min: UVec3, max: UVec3, x: int, y: int, z: int)
    requires
        in_box(min, max, x, y, z),
    ensures
        0 <= box_number(min, max, x, y, z) < box_count(min, max),
        box_cell(min, max, box_number(min, max, x, y, z)) == (UVec3 {
            x: x as u32,
            y: y as u32,
            z: z as u32,
        }),
{
    let sx = span(min.x, max.x);
    let sy = span(min.y, max.y);
    let sz = span(min.z, max.z);
    let a = x - min.x;
    let b = y - min.y;
    let c = z - min.z;
    let row = b + c * sy;
    let k = a + row * sx;
    assert(0 <= row < sy * sz) by (nonlinear_arith)
        requires
            0 <= b < sy,
            0 <= c < sz,
            row == b + c * sy,
    ;
    assert(0 <= k < sx * sy * sz) by (nonlinear_arith)
        requires
            0 <= a < sx,
            0 <= row < sy * sz,
            k == a + row * sx,
    ;
    assert(k == row * sx + a);
    lemma_fundamental_div_mod_converse(k, sx, row, a);
    lemma_fundamental_div_mod_converse(row, sy, c, b);
}

/// Different cells of the box have different numbers.
pub proof fn lemma_box_number_injective(
    min: UVec3,
    max: UVec3,
    x: int,
    y: int,
    z: int,
    a: int,
    b: int,
    c: int,
)
    requires
        in_box(min, max, x, y, z),
        in_box(min, max, a, b, c),
        box_number(min, max, x, y, z) == box_number(min, max, a, b, c),
    ensures
        x == a,
        y == b,
        z == c,
{
    lemma_box_number(min, max, x, y, z);
    lemma_box_number(min, max, a, b, c);
}

/// `(x, y, z)` comes before `(a, b, c)` in scan order: by z, then y, then x.
pub open spec fn scans_before(x: int, y: int, z: int, a: int, b: int, c: int) -> bool {
    ||| z < c
    ||| z == c && y < b
    ||| z == c && y == b && x < a
}

/// Cells are numbered in scan order.
pub proof fn lemma_number_order(
    min: UVec3,
    max: UVec3,
    x: int,
    y: int,
    z: int,
    a: int,
    b: int,
    c: int,
)
    requires
        in_box(min, max, x, y, z),
        in_box(min, max, a, b, c),
    ensures
        box_number(min, max, x, y, z) < box_number(min, max, a, b, c) <==> scans_before(
            x,
            y,
            z,
            a,
            b,
            c,
        ),
{
    if scans_before(x, y, z, a, b, c) {
        lemma_number_increases(min, max, x, y, z, a, b, c);
    } else if scans_before(a, b, c, x, y, z) {
        lemma_number_increases(min, max, a, b, c, x, y, z);
    }
}

proof fn lemma_number_increases(
    min: UVec3,
    max: UVec3,
    x: int,
    y: int,
    z: int,
    a: int,
    b: int,
    c: int,
)
    requires
        in_box(min, max, x, y, z),
        in_box(min, max, a, b, c),
        scans_before(x, y, z, a, b, c),
    ensures
        box_number(min, max, x, y, z) < box_number(min, max, a, b, c),
{
    let sx = span(min.x, max.x);
    let sy = span(min.y, max.y);
    let r1 = (y - min.y) + (z - min.z) * sy;
    let r2 = (b - min.y) + (c - min.z) * sy;
    if z < c {
        let (p, q) = (z - min.z, c - min.z);
        assert(p * sy + sy <= q * sy) by (nonlinear_arith)
            requires
                p + 1 <= q,
                sy > 0,
        ;
    }
    if r1 < r2 {
        assert(r1 * sx + sx <= r2 * sx) by (nonlinear_arith)
            requires
                r1 + 1 <= r2,
                sx > 0,
        ;
    }
}

/// Cell number `k` of the box.
pub fn cell_of(min: UVec3, max: UVec3, k: usize) -> (r: UVec3)
    requires
        k < box_count(min, max),
    ensures
        r == box_cell(min, max, k as int),
        in_box(min, max, r.x as int, r.y as int, r.z as int),
        box_number(min, max, r.x as int, r.y as int, r.z as int) == k,
{
    proof {
        lemma_box_cell(min, max, k as int);
        let sx = span(min.x, max.x);
        let sy = span(min.y, max.y);
        let sz = span(min.z, max.z);
        assert(sx > 0 && sy > 0 && sz > 0) by (nonlinear_arith)
            requires
                sx >= 0,
                sy >= 0,
                sz >= 0,
                sx * sy * sz > 0,
        ;
    }
    let sx: u64 = (max.x - min.x) as u64;
    let sy: u64 = (max.y - min.y) as u64;
    let k: u64 = k as u64;
    let row: u64 = k / sx;
    UVec3 {
        x: min.x + (k % sx) as u32,
        y: min.y + (row % sy) as u32,
        z: min.z + (row / sy) as u32,
    }
}

/// Number of cells in the box.
pub fn count_of(min: UVec3, max: UVec3) -> (r: usize)
    requires
        box_count(min, max) <= usize::MAX,
    ensures
        r == box_count(min, max),
{
    let sx: u64 = if min.x < max.x { (max.x - min.x) as u64 } else { 0 };
    let sy: u64 = if min.y < max.y { (max.y - min.y) as u64 } else { 0 };
    let sz: u64 = if min.z < max.z { (max.z - min.z) as u64 } else { 0 };
    if sz == 0 {
        assert(sx * sy * sz == 0) by (nonlinear_arith)
            requires
                sz == 0,
        ;
        return 0;
    }
    proof {
        assert(0 <= sx * sy <= sx * sy * sz) by (nonlinear_arith)
            requires
                sx >= 0,
                sy >= 0,
                sz >= 1,
        ;
    }
    (sx * sy * sz) as usize
}

/// Number of a cell of the box.
pub fn number_of(min: UVec3, max: UVec3, x: u32, y: u32, z: u32) -> (r: usize)
    requires
        in_box(min, max, x as int, y as int, z as int),
        box_count(min, max) <= usize::MAX,
    ensures
        r == box_number(min, max, x as int, y as int, z as int),
        r < box_count(min, max),
{
    proof {
        lemma_box_number(min, max, x as int, y as int, z as int);
        let sx = span(min.x, max.x);
        let sy = span(min.y, max.y);
        let sz = span(min.z, max.z);
        let b = y - min.y;
        let c = z - min.z;
        let row = b + c * sy;
        assert(0 <= row <= row * sx && 0 <= c * sy) by (nonlinear_arith)
            requires
                b >= 0,
                c >= 0,
                sy >= 1,
                sx >= 1,
                row == b + c * sy,
        ;
    }
    let sx: u64 = (max.x - min.x) as u64;
    let sy: u64 = (max.y - min.y) as u64;
    let row: u64 = (y - min.y) as u64 + (z - min.z) as u64 * sy;
    ((x - min.x) as u64 + row * sx) as usize
}

} // verus!
