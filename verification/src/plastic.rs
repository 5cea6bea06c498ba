//! Gravity settle: drop what floats, then let soft clay slump.
//!
//! The drop is rigid. The slump packs the solid voxels of each column down to
//! the bench, lets the columns run as a sandpile, and rebuilds the samples
//! around the packed columns.

use crate::components::{in_domain, label_components, law_box_is_tight, ComponentField};
use crate::dirty::DirtyRegion;
use crate::gravity::{axis, drops, rest_components_on_bench, rewrites, rewrites_chunk, translated, RestSummary, BAND};
use crate::grid::{lemma_domain_count, tile_of, ChunkCoord, Grid, GridView};
use crate::journal::{expand, lemma_box_fits, lemma_records_step, records, records_part, scan_number, spans_edits, VoxelEdit};
use crate::region::{box_cell, box_count, box_number, cell_of, count_of, in_box, lemma_box_number, lemma_box_number_injective, number_of, span};
use crate::sample::{is_nan, is_nearly_equal, is_solid, less, lt, nearly_equal, negate, negated, solid};
use crate::sandpile::{law_pile_conserves_total, passes, piled, slump, total};
use crate::snapshot::box_within;
use crate::stroke::{distinct_voxels, known, lists_changes};
use crate::vec3::UVec3;
use vstd::prelude::*;

verus! {

/// Columns of room around the pieces into which the slump can spread.
pub const PAD: u32 = 16;

/// Default number of sandpile passes.
pub const DEFAULT_ITERATIONS: u32 = 64;

/// Squared distance, in voxels, from which on the band is flat.
pub const BAND_END: u32 = 16;

/// Smallest coordinate along axis `a` of the first `n` component boxes, or
/// `start` if that is smaller.
pub open spec fn least_of(f: ComponentField, a: int, n: nat, start: int) -> int
    decreases n,
{
    if n == 0 {
        start
    } else {
        let before = least_of(f, a, (n - 1) as nat, start);
        let here = axis(f.box_of(n as u32).0, a);
        if here < before {
            here
        } else {
            before
        }
    }
}

/// Largest coordinate past the first `n` component boxes along axis `a`.
pub open spec fn greatest_of(f: ComponentField, a: int, n: nat) -> int
    decreases n,
{
    if n == 0 {
        0
    } else {
        let before = greatest_of(f, a, (n - 1) as nat);
        let here = axis(f.box_of(n as u32).1, a);
        if here > before {
            here
        } else {
            before
        }
    }
}

/// First voxel of the region that the slump works on.
pub open spec fn slump_lo(f: ComponentField) -> UVec3 {
    let n = f.count() as nat;
    let x = least_of(f, 0, n, f.domain().x as int);
    let z = least_of(f, 2, n, f.domain().z as int);
    UVec3 {
        x: (if x < PAD {
            0
        } else {
            x - PAD
        }) as u32,
        y: 0,
        z: (if z < PAD {
            0
        } else {
            z - PAD
        }) as u32,
    }
}

/// `v`, or `n` if that is smaller.
pub open spec fn capped(v: int, n: u32) -> int {
    if v < n {
        v
    } else {
        n as int
    }
}

/// First voxel past the region that the slump works on.
pub open spec fn slump_hi(f: ComponentField) -> UVec3 {
    let n = f.count() as nat;
    UVec3 {
        x: capped(greatest_of(f, 0, n) + PAD, f.domain().x) as u32,
        y: capped(greatest_of(f, 1, n) + BAND + 2, f.domain().y) as u32,
        z: capped(greatest_of(f, 2, n) + PAD, f.domain().z) as u32,
    }
}

fn add_capped(v: u32, k: u32, n: u32) -> (r: u32)
    requires
        v <= n,
    ensures
        r == capped(v + k, n),
{
    if n - v > k {
        v + k
    } else {
        n
    }
}

/// The region that the slump works on: the box of all pieces, down to the
/// bench, with room to spread. `None` if there is no piece.
pub fn union_component_bounds(labels: &ComponentField) -> (r: Option<(UVec3, UVec3)>)
    requires
        labels.wf(),
    ensures
        r is Some <==> labels.count() > 0,
        r matches Some(b) ==> {
            &&& b == (slump_lo(*labels), slump_hi(*labels))
            &&& b.0.x < b.1.x <= labels.domain().x
            &&& b.0.y < b.1.y <= labels.domain().y
            &&& b.0.z < b.1.z <= labels.domain().z
        },
{
    let count: usize = labels.component_count();
    if count == 0 {
        return None;
    }
    let res = labels.res();
    let mut mn: UVec3 = res;
    let mut mx: UVec3 = UVec3::splat(0);
    let mut c: usize = 1;
    while c <= count
        invariant
            1 <= c <= count + 1,
            count == labels.count(),
            count <= u32::MAX,
            count < usize::MAX,
            labels.wf(),
            res == labels.domain(),
            mn.x == least_of(*labels, 0, (c - 1) as nat, res.x as int),
            mn.z == least_of(*labels, 2, (c - 1) as nat, res.z as int),
            mx.x == greatest_of(*labels, 0, (c - 1) as nat),
            mx.y == greatest_of(*labels, 1, (c - 1) as nat),
            mx.z == greatest_of(*labels, 2, (c - 1) as nat),
            mx.x <= res.x,
            mx.y <= res.y,
            mx.z <= res.z,
            c > 1 ==> mn.x < mx.x && mn.z < mx.z && mx.y > 0,
        decreases count + 1 - c,
    {
        let found: Option<(UVec3, UVec3)> = labels.bounds_of(c as u32);
        if let Some((a, b)) = found {
            mn = mn.min(a);
            mx = mx.max(b);
        }
        c = c + 1;
    }
    let lo = UVec3 {
        x: if mn.x < PAD {
            0
        } else {
            mn.x - PAD
        },
        y: 0,
        z: if mn.z < PAD {
            0
        } else {
            mn.z - PAD
        },
    };
    let hi = UVec3 {
        x: add_capped(mx.x, PAD, res.x),
        y: add_capped(mx.y, BAND + 2, res.y),
        z: add_capped(mx.z, PAD, res.z),
    };
    Some((lo, hi))
}

/// Number of solid voxels at `(x, y, z)` with `y` below `n`.
pub open spec fn column_solids(g: GridView, x: int, z: int, n: nat) -> nat
    decreases n,
{
    if n == 0 {
        0
    } else {
        column_solids(g, x, z, (n - 1) as nat) + (if solid(g.at(x, n - 1, z)) {
            1nat
        } else {
            0nat
        })
    }
}

/// The rectangle of columns of a region.
pub open spec fn flat_lo(lo: UVec3) -> UVec3 {
    UVec3 { x: lo.x, y: 0, z: lo.z }
}

pub open spec fn flat_hi(hi: UVec3) -> UVec3 {
    UVec3 { x: hi.x, y: 1, z: hi.z }
}

/// The height of each column of the region when its solid voxels are packed.
pub open spec fn packed(g: GridView, lo: UVec3, hi: UVec3) -> Seq<u32> {
    Seq::new(
        box_count(flat_lo(lo), flat_hi(hi)) as nat,
        |i: int|
            {
                let c = box_cell(flat_lo(lo), flat_hi(hi), i);
                column_solids(g, c.x as int, c.z as int, hi.y as nat) as u32
            },
    )
}

/// A column holds no more solid voxels than it has voxels.
pub proof fn lemma_column_bound(g: GridView, x: int, z: int, n: nat)
    ensures
        column_solids(g, x, z, n) <= n,
    decreases n,
{
    if n > 0 {
        lemma_column_bound(g, x, z, (n - 1) as nat);
    }
}

/// Columns of at most `m` add up to at most `m` each.
pub proof fn lemma_total_bound(counts: Seq<u32>, m: nat)
    requires
        forall|i: int| 0 <= i < counts.len() ==> #[trigger] counts[i] <= m,
    ensures
        total(counts) <= counts.len() * m,
    decreases counts.len(),
{
    if counts.len() > 0 {
        lemma_total_bound(counts.drop_last(), m);
        let n = counts.len() as int;
        assert((n - 1) * m + m == n * m) by (nonlinear_arith);
        assert(counts[n - 1] <= m);
    } else {
        assert(0 * m == 0) by (nonlinear_arith);
    }
}

/// Count the solid voxels of each column of a region.
fn pack(grid: &Grid, lo: UVec3, hi: UVec3) -> (r: Vec<u32>)
    requires
        grid.wf(),
        grid@.res.volume() <= u32::MAX,
        box_within(lo, hi, grid@.res),
        lo.x < hi.x,
        lo.z < hi.z,
        lo.y == 0,
        lo.y < hi.y,
    ensures
        r@ == packed(grid@, lo, hi),
        total(r@) <= u32::MAX,
{
    let a = UVec3 { x: lo.x, y: 0, z: lo.z };
    let b = UVec3 { x: hi.x, y: 1, z: hi.z };
    proof {
        let (sx, sz) = (span(a.x, b.x), span(a.z, b.z));
        let res = grid@.res;
        let (p, q, s) = (res.x as int, res.y as int, res.z as int);
        assert(sx * 1 * sz == sx * sz) by (nonlinear_arith);
        assert(0 <= sx * sz <= (sx * sz) * hi.y) by (nonlinear_arith)
            requires
                sx >= 0,
                sz >= 0,
                hi.y >= 1,
        ;
        assert((sx * sz) * hi.y <= p * q * s) by (nonlinear_arith)
            requires
                0 <= sx <= p,
                0 <= sz <= s,
                0 <= hi.y <= q,
        ;
    }
    let n: usize = count_of(a, b);
    let mut r: Vec<u32> = Vec::new();
    let mut i: usize = 0;
    while i < n
        invariant
            i <= n,
            a == flat_lo(lo),
            b == flat_hi(hi),
            n == box_count(a, b),
            grid.wf(),
            box_within(lo, hi, grid@.res),
            r.len() == i,
            forall|k: int| 0 <= k < i ==> #[trigger] r@[k] == packed(grid@, lo, hi)[k],
            forall|k: int| 0 <= k < i ==> #[trigger] r@[k] <= hi.y,
        decreases n - i,
    {
        let c = cell_of(a, b, i);
        let mut solids: u32 = 0;
        let mut y: u32 = 0;
        while y < hi.y
            invariant
                y <= hi.y,
                grid.wf(),
                box_within(lo, hi, grid@.res),
                a == flat_lo(lo),
                b == flat_hi(hi),
                in_box(a, b, c.x as int, c.y as int, c.z as int),
                solids == column_solids(grid@, c.x as int, c.z as int, y as nat),
                solids <= y,
            decreases hi.y - y,
        {
            if is_solid(grid.get(c.x, y, c.z)) {
                solids = solids + 1;
            }
            y = y + 1;
        }
        r.push(solids);
        i = i + 1;
    }
    proof {
        assert(r@ =~= packed(grid@, lo, hi));
        lemma_total_bound(r@, hi.y as nat);
    }
    r
}

/// The packed columns of the region fill voxel `(x, y, z)`.
pub open spec fn filled(lo: UVec3, hi: UVec3, heights: Seq<u32>, x: int, y: int, z: int) -> bool {
    &&& in_box(lo, hi, x, y, z)
    &&& y < heights[box_number(flat_lo(lo), flat_hi(hi), x, 0, z)]
}

/// Squared distance of two voxels.
pub open spec fn dist2(x: int, y: int, z: int, a: int, b: int, c: int) -> int {
    (a - x) * (a - x) + (b - y) * (b - y) + (c - z) * (c - z)
}

/// `r` is the squared distance from voxel `(x, y, z)` to the nearest other
/// filled voxel, cut off at [`BAND_END`].
pub open spec fn is_nearest(
    lo: UVec3,
    hi: UVec3,
    heights: Seq<u32>,
    x: int,
    y: int,
    z: int,
    r: int,
) -> bool {
    &&& 1 <= r <= BAND_END
    &&& forall|a: int, b: int, c: int| #[trigger]
        filled(lo, hi, heights, a, b, c) && !(a == x && b == y && c == z) ==> r <= dist2(
            x,
            y,
            z,
            a,
            b,
            c,
        )
    &&& r < BAND_END ==> exists|a: int, b: int, c: int| #[trigger]
        filled(lo, hi, heights, a, b, c) && !(a == x && b == y && c == z) && dist2(x, y, z, a, b, c) == r
}

/// The squared distance from voxel `(x, y, z)` to the nearest other filled
/// voxel, cut off at [`BAND_END`].
pub open spec fn nearest(lo: UVec3, hi: UVec3, heights: Seq<u32>, x: int, y: int, z: int) -> int {
    choose|r: int| #[trigger] is_nearest(lo, hi, heights, x, y, z, r)
}

/// There is only one nearest distance.
proof fn lemma_nearest_unique(
    lo: UVec3,
    hi: UVec3,
    heights: Seq<u32>,
    x: int,
    y: int,
    z: int,
    r: int,
)
    requires
        is_nearest(lo, hi, heights, x, y, z, r),
    ensures
        nearest(lo, hi, heights, x, y, z) == r,
{
    let q = nearest(lo, hi, heights, x, y, z);
    assert(is_nearest(lo, hi, heights, x, y, z, q));
    if q < r {
        let (a, b, c) = choose|a: int, b: int, c: int| #[trigger]
            filled(lo, hi, heights, a, b, c) && !(a == x && b == y && c == z) && dist2(x, y, z, a, b, c)
                == q;
        assert(filled(lo, hi, heights, a, b, c));
    } else if r < q {
        let (a, b, c) = choose|a: int, b: int, c: int| #[trigger]
            filled(lo, hi, heights, a, b, c) && !(a == x && b == y && c == z) && dist2(x, y, z, a, b, c)
                == r;
        assert(filled(lo, hi, heights, a, b, c));
    }
}

/// Offset number `k` of the cube of offsets from -3 to 3.
spec fn cube_offset(k: int) -> (int, int, int) {
    (k % 7 - 3, (k / 7) % 7 - 3, k / 49 - 3)
}

fn shifted(v: u32, d: i64, lo: u32, hi: u32) -> (r: Option<u32>)
    requires
        -3 <= d <= 3,
    ensures
        r matches Some(w) ==> w == v + d && lo <= w < hi,
        r is None ==> !(lo <= v + d < hi),
{
    let w: i64 = v as i64 + d;
    if lo as i64 <= w && w < hi as i64 {
        Some(w as u32)
    } else {
        None
    }
}

proof fn lemma_far_offset(d: int)
    requires
        d >= 4 || d <= -4,
    ensures
        d * d >= 16,
{
    assert(d * d >= 16) by (nonlinear_arith)
        requires
            d >= 4 || d <= -4,
    ;
}

proof fn lemma_square(d: int)
    requires
        -3 <= d <= 3,
    ensures
        d * d == (if d == 0 {
            0int
        } else if d == 1 || d == -1 {
            1
        } else if d == 2 || d == -2 {
            4
        } else {
            9
        }),
{
    assert(d * d == (if d == 0 {
        0int
    } else if d == 1 || d == -1 {
        1
    } else if d == 2 || d == -2 {
        4
    } else {
        9
    })) by (nonlinear_arith)
        requires
            -3 <= d <= 3,
    ;
}

/// The squared distance from a voxel to the nearest other filled voxel.
fn min_solid_dist(lo: UVec3, hi: UVec3, heights: &Vec<u32>, v: UVec3) -> (r: u32)
    requires
        in_box(lo, hi, v.x as int, v.y as int, v.z as int),
        heights.len() == box_count(flat_lo(lo), flat_hi(hi)),
    ensures
        r == nearest(lo, hi, heights@, v.x as int, v.y as int, v.z as int),
        1 <= r <= BAND_END,
{
    let flat0 = UVec3 { x: lo.x, y: 0, z: lo.z };
    let flat1 = UVec3 { x: hi.x, y: 1, z: hi.z };
    let ghost h = heights@;
    let ghost (x, y, z) = (v.x as int, v.y as int, v.z as int);
    let mut best: u32 = BAND_END;
    let mut k: u32 = 0;
    while k < 343
        invariant
            k <= 343,
            in_box(lo, hi, x, y, z),
            x == v.x && y == v.y && z == v.z,
            flat0 == flat_lo(lo),
            flat1 == flat_hi(hi),
            heights.len() == box_count(flat0, flat1),
            h == heights@,
            1 <= best <= BAND_END,
            best < BAND_END ==> exists|a: int, b: int, c: int| #[trigger]
                filled(lo, hi, h, a, b, c) && !(a == x && b == y && c == z) && dist2(x, y, z, a, b, c)
                    == best,
            forall|j: int|
                0 <= j < k && j != 171 ==> ({
                    let o = #[trigger] cube_offset(j);
                    filled(lo, hi, h, x + o.0, y + o.1, z + o.2) ==> best <= o.0 * o.0 + o.1 * o.1
                        + o.2 * o.2
                }),
        decreases 343 - k,
    {
        let dx: i64 = (k % 7) as i64 - 3;
        let dy: i64 = ((k / 7) % 7) as i64 - 3;
        let dz: i64 = (k / 49) as i64 - 3;
        let ghost o = cube_offset(k as int);
        let ghost was = best;
        proof {
            lemma_square(dx as int);
            lemma_square(dy as int);
            lemma_square(dz as int);
        }
        if k != 171 {
            let d2: i64 = dx * dx + dy * dy + dz * dz;
            let tx: Option<u32> = shifted(v.x, dx, lo.x, hi.x);
            let ty: Option<u32> = shifted(v.y, dy, lo.y, hi.y);
            let tz: Option<u32> = shifted(v.z, dz, lo.z, hi.z);
            if let (Some(a), Some(b), Some(c)) = (tx, ty, tz) {
                let col: usize = number_of(flat0, flat1, a, 0, c);
                if b < heights[col] {
                    proof {
                        assert(filled(lo, hi, h, a as int, b as int, c as int));
                        assert(dist2(x, y, z, a as int, b as int, c as int) == d2);
                        assert(!(a == x && b == y && c == z)) by {
                            if dx == 0 && dy == 0 && dz == 0 {
                                assert(k == 171);
                            }
                        }
                    }
                    if d2 < best as i64 {
                        best = d2 as u32;
                    }
                }
            }
        }
        proof {
            assert forall|j: int| 0 <= j < k + 1 && j != 171 implies ({
                let p = #[trigger] cube_offset(j);
                filled(lo, hi, h, x + p.0, y + p.1, z + p.2) ==> best <= p.0 * p.0 + p.1 * p.1 + p.2
                    * p.2
            }) by {
                if j == k {
                    assert(cube_offset(j) == (dx as int, dy as int, dz as int));
                }
            }
        }
        k = k + 1;
    }
    proof {
        assert forall|a: int, b: int, c: int| #[trigger]
            filled(lo, hi, h, a, b, c) && !(a == x && b == y && c == z) implies best <= dist2(
            x,
            y,
            z,
            a,
            b,
            c,
        ) by {
            let (p, q, r) = (a - x, b - y, c - z);
            lemma_nonneg_square(p);
            lemma_nonneg_square(q);
            lemma_nonneg_square(r);
            if p >= 4 || p <= -4 {
                lemma_far_offset(p);
            } else if q >= 4 || q <= -4 {
                lemma_far_offset(q);
            } else if r >= 4 || r <= -4 {
                lemma_far_offset(r);
            } else {
                let j = (p + 3) + (q + 3) * 7 + (r + 3) * 49;
                assert(cube_offset(j) == (p, q, r));
                assert(j != 171);
                assert(filled(lo, hi, h, x + p, y + q, z + r));
            }
        }
        assert(is_nearest(lo, hi, h, x, y, z, best as int));
        lemma_nearest_unique(lo, hi, h, x, y, z, best as int);
    }
    best
}

proof fn lemma_nonneg_square(d: int)
    ensures
        d * d >= 0,
{
    assert(d * d >= 0) by (nonlinear_arith);
}

/// Height of the tallest column.
pub open spec fn tallest(counts: Seq<u32>) -> u32
    decreases counts.len(),
{
    if counts.len() == 0 {
        0
    } else {
        let before = tallest(counts.drop_last());
        if counts.last() > before {
            counts.last()
        } else {
            before
        }
    }
}

/// The columns of the slumped clay.
pub open spec fn heap(g: GridView, f: ComponentField, limit: u32, iterations: u32) -> Seq<u32> {
    piled(
        packed(g, slump_lo(f), slump_hi(f)),
        flat_lo(slump_lo(f)),
        flat_hi(slump_hi(f)),
        limit,
        iterations as nat,
    )
}

/// First voxel past the region that is rewritten: it takes in the old pieces
/// and the new columns with their band.
pub open spec fn heap_hi(f: ComponentField, heights: Seq<u32>) -> UVec3 {
    let hi = slump_hi(f);
    let top = capped(tallest(heights) + BAND + 1, f.domain().y);
    UVec3 {
        x: hi.x,
        y: (if hi.y >= top {
            hi.y as int
        } else {
            top
        }) as u32,
        z: hi.z,
    }
}

/// The sample of a voxel around packed columns: one voxel deep inside them, and
/// the distance to them outside, read off the table `band`.
pub open spec fn slumped(
    voxel_size: u32,
    band: Seq<u32>,
    lo: UVec3,
    hi: UVec3,
    heights: Seq<u32>,
    v: UVec3,
) -> u32 {
    let (x, y, z) = (v.x as int, v.y as int, v.z as int);
    if filled(lo, hi, heights, x, y, z) {
        negated(voxel_size)
    } else {
        band[nearest(lo, hi, heights, x, y, z)]
    }
}

/// What the slump assigns to voxel `v`.
pub open spec fn slump_value(
    g: GridView,
    f: ComponentField,
    limit: u32,
    iterations: u32,
    band: Seq<u32>,
    v: UVec3,
) -> u32 {
    let heights = heap(g, f, limit, iterations);
    slumped(g.voxel_size, band, slump_lo(f), heap_hi(f, heights), heights, v)
}

/// The slump writes to voxel `v`: it lies in the rewritten region, and its
/// sample changes by more than rounding.
pub open spec fn slump_writes(
    g: GridView,
    f: ComponentField,
    limit: u32,
    iterations: u32,
    band: Seq<u32>,
    v: UVec3,
) -> bool {
    let heights = heap(g, f, limit, iterations);
    &&& f.count() > 0
    &&& in_box(slump_lo(f), heap_hi(f, heights), v.x as int, v.y as int, v.z as int)
    &&& !nearly_equal(
        g.at(v.x as int, v.y as int, v.z as int),
        slump_value(g, f, limit, iterations, band, v),
    )
}

/// The slump writes to some voxel of chunk `k`.
pub open spec fn slump_writes_chunk(
    g: GridView,
    f: ComponentField,
    limit: u32,
    iterations: u32,
    band: Seq<u32>,
    k: ChunkCoord,
) -> bool {
    exists|v: UVec3|
        in_domain(g.res, v) && #[trigger] slump_writes(g, f, limit, iterations, band, v) && tile_of(
            v.x as int,
            v.y as int,
            v.z as int,
        ) == k
}

fn tallest_of(counts: &Vec<u32>) -> (r: u32)
    ensures
        r == tallest(counts@),
{
    let mut r: u32 = 0;
    let mut i: usize = 0;
    assert(counts@.subrange(0, 0) =~= Seq::empty());
    while i < counts.len()
        invariant
            i <= counts.len(),
            r == tallest(counts@.subrange(0, i as int)),
        decreases counts.len() - i,
    {
        let ghost now = counts@.subrange(0, i + 1);
        assert(now.drop_last() =~= counts@.subrange(0, i as int));
        assert(now.last() == counts@[i as int]);
        if counts[i] > r {
            r = counts[i];
        }
        i = i + 1;
    }
    assert(counts@.subrange(0, counts.len() as int) =~= counts@);
    r
}

/// Pack the clay of a labelled grid onto the bench and let it slump. `limit` is
/// the height that a column holds; `band` gives the sample for each squared
/// distance up to [`BAND_END`]. The edits are added to the journal in scan
/// order; the result is the number of passes and the box that was written.
#[verifier::rlimit(90)]
#[verifier::spinoff_prover]
pub fn squash(
    grid: &mut Grid,
    labels: &ComponentField,
    limit: u32,
    iterations: u32,
    band: &Vec<u32>,
    journal: &mut Vec<VoxelEdit>,
) -> (r: (u32, Option<DirtyRegion>))
    requires
        old(grid).wf(),
        labels.wf(),
        labels.domain() == old(grid)@.res,
        band.len() == BAND_END + 1,
    ensures
        final(grid).wf(),
        final(grid)@.same_domain(old(grid)@),
        r.0 == (if labels.count() == 0 {
            0
        } else {
            passes(
                packed(old(grid)@, slump_lo(*labels), slump_hi(*labels)),
                flat_lo(slump_lo(*labels)),
                flat_hi(slump_hi(*labels)),
                limit,
                iterations as nat,
            )
        }),
        forall|v: UVec3|
            in_domain(old(grid)@.res, v) ==> #[trigger] final(grid)@.at(
                v.x as int,
                v.y as int,
                v.z as int,
            ) == (if slump_writes(old(grid)@, *labels, limit, iterations, band@, v) {
                slump_value(old(grid)@, *labels, limit, iterations, band@, v)
            } else {
                old(grid)@.at(v.x as int, v.y as int, v.z as int)
            }),
        forall|k: ChunkCoord| #[trigger]
            final(grid)@.tiles.dom().contains(k) <==> old(grid)@.tiles.dom().contains(k)
                || slump_writes_chunk(old(grid)@, *labels, limit, iterations, band@, k),
        old(journal).len() <= final(journal).len(),
        final(journal)@.subrange(0, old(journal).len() as int) == old(journal)@,
        ({
            let edits = final(journal)@.subrange(
                old(journal).len() as int,
                final(journal).len() as int,
            );
            &&& records(
                edits,
                old(grid)@,
                |v: UVec3| slump_writes(old(grid)@, *labels, limit, iterations, band@, v),
            )
            &&& spans_edits(edits, r.1)
        }),
{
    let ghost g = grid@;
    let ghost prior = journal@;
    let ghost table = band@;
    let ghost changed = |v: UVec3| slump_writes(g, *labels, limit, iterations, table, v);
    let ghost mut edits: Seq<VoxelEdit> = Seq::empty();
    proof {
        labels.lemma_wf();
    }
    let found: Option<(UVec3, UVec3)> = union_component_bounds(labels);
    if found.is_none() {
        proof {
            assert(journal@.subrange(0, prior.len() as int) =~= prior);
            assert(journal@.subrange(prior.len() as int, journal.len() as int) =~= Seq::empty());
        }
        return (0, None);
    }
    let (lo, side): (UVec3, UVec3) = found.unwrap();
    let res = grid.res();
    let flat0 = UVec3 { x: lo.x, y: 0, z: lo.z };
    let flat1 = UVec3 { x: side.x, y: 1, z: side.z };
    let mut heights: Vec<u32> = pack(grid, lo, side);
    let ghost start = heights@;
    let run: u32 = slump(&mut heights, flat0, flat1, limit, iterations);
    proof {
        law_pile_conserves_total(start, flat0, flat1, limit, iterations as nat);
    }
    let peak: u32 = tallest_of(&heights);
    let top: u32 = if peak >= res.y { res.y } else { add_capped(peak, BAND + 1, res.y) };
    let hi = UVec3 { x: side.x, y: if side.y >= top { side.y } else { top }, z: side.z };
    let ghost h = heights@;
    proof {
        assert(h == heap(g, *labels, limit, iterations));
        assert(hi == heap_hi(*labels, h));
        lemma_box_fits(lo, hi, res);
    }
    let n: usize = count_of(lo, hi);
    let deep: u32 = negate(grid.voxel_size());
    let mut dirty: Option<DirtyRegion> = None;
    let mut k: usize = 0;
    while k < n
        invariant
            k <= n,
            n == box_count(lo, hi),
            box_within(lo, hi, res),
            res == g.res,
            grid.wf(),
            grid@.same_domain(g),
            table == band@,
            band.len() == BAND_END + 1,
            labels.count() > 0,
            changed == (|v: UVec3| slump_writes(g, *labels, limit, iterations, table, v)),
            h == heights@,
            h == heap(g, *labels, limit, iterations),
            lo == slump_lo(*labels),
            hi == heap_hi(*labels, h),
            heights.len() == box_count(flat_lo(lo), flat_hi(hi)),
            deep == negated(g.voxel_size),
            forall|x: int, y: int, z: int|
                res.has(x, y, z) ==> #[trigger] grid@.at(x, y, z) == (if in_box(lo, hi, x, y, z)
                    && box_number(lo, hi, x, y, z) < k && slump_writes(
                    g,
                    *labels,
                    limit,
                    iterations,
                    table,
                    UVec3 { x: x as u32, y: y as u32, z: z as u32 },
                ) {
                    slump_value(
                        g,
                        *labels,
                        limit,
                        iterations,
                        table,
                        UVec3 { x: x as u32, y: y as u32, z: z as u32 },
                    )
                } else {
                    g.at(x, y, z)
                }),
            forall|q: ChunkCoord| #[trigger]
                grid@.tiles.dom().contains(q) ==> g.tiles.dom().contains(q) || slump_writes_chunk(
                    g,
                    *labels,
                    limit,
                    iterations,
                    table,
                    q,
                ),
            forall|q: ChunkCoord|
                g.tiles.dom().contains(q) ==> #[trigger] grid@.tiles.dom().contains(q),
            forall|i: int|
                0 <= i < edits.len() ==> grid@.tiles.dom().contains(
                    tile_of(
                        (#[trigger] edits[i]).x as int,
                        edits[i].y as int,
                        edits[i].z as int,
                    ),
                ),
            journal@ == prior + edits,
            records_part(edits, g, changed, lo, hi, k as int),
            spans_edits(edits, dirty),
        decreases n - k,
    {
        let v = cell_of(lo, hi, k);
        let ghost (vx, vy, vz) = (v.x as int, v.y as int, v.z as int);
        let ghost mid = grid@;
        let pre: u32 = grid.get(v.x, v.y, v.z);
        let col: usize = number_of(
            UVec3 { x: lo.x, y: 0, z: lo.z },
            UVec3 { x: hi.x, y: 1, z: hi.z },
            v.x,
            0,
            v.z,
        );
        let next: u32 = if v.y < heights[col] {
            deep
        } else {
            band[min_solid_dist(lo, hi, &heights, v) as usize]
        };
        let ghost e = VoxelEdit { x: v.x, y: v.y, z: v.z, pre };
        proof {
            assert(in_box(lo, hi, vx, vy, vz));
            assert(pre == g.at(vx, vy, vz));
            assert(next == slump_value(g, *labels, limit, iterations, table, v));
            lemma_records_step(edits, g, changed, lo, hi, k as int, e);
            assert(changed(v) == !nearly_equal(pre, next));
        }
        if !is_nearly_equal(pre, next) {
            journal.push(VoxelEdit { x: v.x, y: v.y, z: v.z, pre });
            grid.set(v.x, v.y, v.z, next);
            dirty = expand(dirty, v.x, v.y, v.z, Ghost(edits), Ghost(e));
            proof {
                assert(slump_writes(g, *labels, limit, iterations, table, v));
                assert(slump_writes_chunk(
                    g,
                    *labels,
                    limit,
                    iterations,
                    table,
                    tile_of(vx, vy, vz),
                ));
                assert(prior + edits.push(e) =~= (prior + edits).push(e));
                let was = edits;
                edits = edits.push(e);
                assert forall|i: int| 0 <= i < edits.len() implies grid@.tiles.dom().contains(
                    tile_of(
                        (#[trigger] edits[i]).x as int,
                        edits[i].y as int,
                        edits[i].z as int,
                    ),
                ) by {
                    if i < was.len() {
                        assert(edits[i] == was[i]);
                    }
                }
            }
        }
        proof {
            assert forall|x: int, y: int, z: int| res.has(x, y, z) implies #[trigger] grid@.at(x, y, z)
                == (if in_box(lo, hi, x, y, z) && box_number(lo, hi, x, y, z) < k + 1
                && slump_writes(
                g,
                *labels,
                limit,
                iterations,
                table,
                UVec3 { x: x as u32, y: y as u32, z: z as u32 },
            ) {
                slump_value(
                    g,
                    *labels,
                    limit,
                    iterations,
                    table,
                    UVec3 { x: x as u32, y: y as u32, z: z as u32 },
                )
            } else {
                g.at(x, y, z)
            }) by {
                assert(mid.at(x, y, z) == mid.at(x, y, z));
                if in_box(lo, hi, x, y, z) && box_number(lo, hi, x, y, z) == k {
                    lemma_box_number(lo, hi, x, y, z);
                    assert(x == vx && y == vy && z == vz);
                }
            }
        }
        k = k + 1;
    }
    proof {
        assert(journal@.subrange(0, prior.len() as int) =~= prior);
        assert(journal@.subrange(prior.len() as int, journal.len() as int) =~= edits);
        assert forall|v: UVec3| in_domain(g.res, v) implies #[trigger] grid@.at(
            v.x as int,
            v.y as int,
            v.z as int,
        ) == (if slump_writes(g, *labels, limit, iterations, table, v) {
            slump_value(g, *labels, limit, iterations, table, v)
        } else {
            g.at(v.x as int, v.y as int, v.z as int)
        }) by {
            if in_box(lo, hi, v.x as int, v.y as int, v.z as int) {
                lemma_box_number(lo, hi, v.x as int, v.y as int, v.z as int);
            }
        }
        assert forall|v: UVec3| in_domain(g.res, v) && #[trigger] changed(v) implies exists|i: int|
            0 <= i < edits.len() && (#[trigger] edits[i]).voxel() == v by {
            assert(in_box(lo, hi, v.x as int, v.y as int, v.z as int));
            lemma_box_number(lo, hi, v.x as int, v.y as int, v.z as int);
        }
        assert(records(edits, g, changed));
        assert forall|q: ChunkCoord| #[trigger]
            grid@.tiles.dom().contains(q) <==> g.tiles.dom().contains(q) || slump_writes_chunk(
                g,
                *labels,
                limit,
                iterations,
                table,
                q,
            ) by {
            if slump_writes_chunk(g, *labels, limit, iterations, table, q) {
                let v = choose|v: UVec3|
                    in_domain(g.res, v) && #[trigger] slump_writes(
                        g,
                        *labels,
                        limit,
                        iterations,
                        table,
                        v,
                    ) && tile_of(v.x as int, v.y as int, v.z as int) == q;
                assert(changed(v));
                let i = choose|i: int| 0 <= i < edits.len() && (#[trigger] edits[i]).voxel() == v;
                assert(edits[i].voxel() == v);
            }
        }
    }
    (run, dirty)
}

/// Parameters of a gravity settle.
#[derive(Copy, Clone, Debug)]
pub struct PlasticSettleParams {
    /// Softness, as a binary32 bit pattern: zero drops what floats and no more,
    /// one lets the clay run flat.
    pub plasticity: u32,
    /// Most sandpile passes to run.
    pub iterations: u32,
}

impl Default for PlasticSettleParams {
    fn default() -> (r: PlasticSettleParams)
        ensures
            r.plasticity == 0x3f33_3333,
            r.iterations == DEFAULT_ITERATIONS,
    {
        PlasticSettleParams { plasticity: 0x3f33_3333, iterations: DEFAULT_ITERATIONS }
    }
}

/// Summary of a gravity settle.
#[derive(Copy, Clone, Debug)]
pub struct PlasticSettleSummary {
    /// Sandpile passes that were run.
    pub iterations_run: u32,
    /// Voxels that were written.
    pub voxels_touched: u32,
    /// Box of the voxels that were written.
    pub dirty: Option<DirtyRegion>,
}

/// The softness 1e-4, up to which clay is stiff.
pub const STIFF: u32 = 0x38d1_b717;

/// The clay is soft enough to slump.
pub open spec fn is_soft(params: PlasticSettleParams) -> bool {
    (is_nan(params.plasticity) || lt(STIFF, params.plasticity)) && params.iterations != 0
}

/// `mid` is `g` with every piece dropped onto the bench.
pub open spec fn rests(g: GridView, f: ComponentField, mid: GridView) -> bool {
    &&& mid.wf()
    &&& mid.same_domain(g)
    &&& forall|v: UVec3|
        in_domain(g.res, v) ==> #[trigger] mid.at(v.x as int, v.y as int, v.z as int) == translated(
            g,
            f,
            drops(f, f.count() as nat),
            v,
        )
    &&& forall|k: ChunkCoord| #[trigger]
        mid.tiles.dom().contains(k) <==> g.tiles.dom().contains(k) || rewrites_chunk(
            g,
            f,
            drops(f, f.count() as nat),
            k,
        )
}

/// `end` is `mid` with its clay slumped, `f` being the pieces of `mid`.
pub open spec fn slumps(
    mid: GridView,
    f: ComponentField,
    limit: u32,
    iterations: u32,
    band: Seq<u32>,
    end: GridView,
) -> bool {
    &&& f.labels(mid)
    &&& end.same_domain(mid)
    &&& forall|v: UVec3|
        in_domain(mid.res, v) ==> #[trigger] end.at(v.x as int, v.y as int, v.z as int) == (
        if slump_writes(mid, f, limit, iterations, band, v) {
            slump_value(mid, f, limit, iterations, band, v)
        } else {
            mid.at(v.x as int, v.y as int, v.z as int)
        })
    &&& forall|k: ChunkCoord| #[trigger]
        end.tiles.dom().contains(k) <==> mid.tiles.dom().contains(k) || slump_writes_chunk(
            mid,
            f,
            limit,
            iterations,
            band,
            k,
        )
}

/// Different voxels are no more than the domain has.
proof fn lemma_distinct_bound(edits: Seq<VoxelEdit>, res: UVec3)
    requires
        distinct_voxels(edits),
        forall|i: int| 0 <= i < edits.len() ==> in_domain(res, (#[trigger] edits[i]).voxel()),
    ensures
        edits.len() <= res.volume(),
{
    let s = Seq::new(edits.len(), |i: int| scan_number(res, edits[i].voxel()));
    let n = res.volume();
    assert forall|i: int| 0 <= i < s.len() implies 0 <= #[trigger] s[i] < n by {
        let e = edits[i];
        lemma_box_number(UVec3::zero(), res, e.x as int, e.y as int, e.z as int);
        lemma_domain_count(res);
    }
    assert(s.no_duplicates()) by {
        assert forall|i: int, j: int| 0 <= i < s.len() && 0 <= j < s.len() && i != j implies s[i]
            != s[j] by {
            let (e, d) = (edits[i], edits[j]);
            if s[i] == s[j] {
                lemma_box_number_injective(
                    UVec3::zero(),
                    res,
                    e.x as int,
                    e.y as int,
                    e.z as int,
                    d.x as int,
                    d.y as int,
                    d.z as int,
                );
                assert(e.voxel() == d.voxel());
                if i < j {
                    assert(edits[i].voxel() != edits[j].voxel());
                } else {
                    assert(edits[j].voxel() != edits[i].voxel());
                }
            }
        }
    }
    s.unique_seq_to_set();
    if edits.len() > 0 {
        let r = vstd::set_lib::set_int_range(0, n);
        assert(0 <= s[0] < n);
        vstd::set_lib::lemma_int_range(0, n);
        assert forall|k: int| s.to_set().contains(k) implies r.contains(k) by {
            let i = choose|i: int| 0 <= i < s.len() && s[i] == k;
            assert(0 <= s[i] < n);
        }
        vstd::set_lib::lemma_len_subset(s.to_set(), r);
    } else {
        lemma_box_fits(UVec3::zero(), res, res);
        lemma_domain_count(res);
    }
}

/// The edits of `second` that are not of a voxel of `first`; both are in scan
/// order.
fn new_edits(first: &Vec<VoxelEdit>, from: usize, second: &Vec<VoxelEdit>, res: UVec3) -> (r: Vec<VoxelEdit>)
    requires
        from <= first.len(),
        res.volume() <= usize::MAX,
        forall|i: int|
            from <= i < first.len() ==> in_domain(res, (#[trigger] first@[i]).voxel()),
        forall|i: int| 0 <= i < second.len() ==> in_domain(res, (#[trigger] second@[i]).voxel()),
        forall|i: int, j: int|
            from <= i < j < first.len() ==> scan_number(res, (#[trigger] first@[i]).voxel())
                < scan_number(res, (#[trigger] first@[j]).voxel()),
        forall|i: int, j: int|
            0 <= i < j < second.len() ==> scan_number(res, (#[trigger] second@[i]).voxel())
                < scan_number(res, (#[trigger] second@[j]).voxel()),
    ensures
        distinct_voxels(r@),
        forall|i: int| 0 <= i < r.len() ==> second@.contains(#[trigger] r@[i]),
        forall|v: UVec3| #[trigger]
            known(r@, v) <==> known(second@, v) && !known(
                first@.subrange(from as int, first.len() as int),
                v,
            ),
{
    let lo = UVec3 { x: 0, y: 0, z: 0 };
    let ghost old_part = first@.subrange(from as int, first.len() as int);
    let mut r: Vec<VoxelEdit> = Vec::new();
    let mut p: usize = from;
    let mut i: usize = 0;
    proof {
        lemma_domain_count(res);
    }
    while i < second.len()
        invariant
            i <= second.len(),
            from <= p <= first.len(),
            lo == UVec3::zero(),
            box_count(lo, res) <= usize::MAX,
            old_part == first@.subrange(from as int, first.len() as int),
            forall|k: int|
                from <= k < first.len() ==> in_domain(res, (#[trigger] first@[k]).voxel()),
            forall|k: int|
                0 <= k < second.len() ==> in_domain(res, (#[trigger] second@[k]).voxel()),
            forall|k: int, j: int|
                from <= k < j < first.len() ==> scan_number(res, (#[trigger] first@[k]).voxel())
                    < scan_number(res, (#[trigger] first@[j]).voxel()),
            forall|k: int, j: int|
                0 <= k < j < second.len() ==> scan_number(res, (#[trigger] second@[k]).voxel())
                    < scan_number(res, (#[trigger] second@[j]).voxel()),
            forall|k: int, j: int|
                from <= k < p && i <= j < second.len() ==> scan_number(
                    res,
                    (#[trigger] first@[k]).voxel(),
                ) < scan_number(res, (#[trigger] second@[j]).voxel()),
            forall|k: int|
                0 <= k < r.len() ==> second@.subrange(0, i as int).contains(#[trigger] r@[k])
                    && !known(old_part, r@[k].voxel()),
            forall|j: int|
                0 <= j < i && !known(old_part, (#[trigger] second@[j]).voxel()) ==> known(
                    r@,
                    second@[j].voxel(),
                ),
            distinct_voxels(r@),
        decreases second.len() - i,
    {
        let e = second[i];
        let at: usize = number_of(lo, res, e.x, e.y, e.z);
        let ghost p0 = p;
        while p < first.len() && number_of(lo, res, first[p].x, first[p].y, first[p].z) < at
            invariant
                from <= p <= first.len(),
                i < second.len(),
                e == second@[i as int],
                at == scan_number(res, e.voxel()),
                lo == UVec3::zero(),
                box_count(lo, res) <= usize::MAX,
                forall|k: int|
                    from <= k < first.len() ==> in_domain(res, (#[trigger] first@[k]).voxel()),
                forall|k: int, j: int|
                    0 <= k < j < second.len() ==> scan_number(res, (#[trigger] second@[k]).voxel())
                        < scan_number(res, (#[trigger] second@[j]).voxel()),
                forall|k: int, j: int|
                    from <= k < p && i <= j < second.len() ==> scan_number(
                        res,
                        (#[trigger] first@[k]).voxel(),
                    ) < scan_number(res, (#[trigger] second@[j]).voxel()),
            decreases first.len() - p,
        {
            p = p + 1;
        }
        let ghost was = r@;
        let seen: bool = p < first.len() && first[p].x == e.x && first[p].y == e.y && first[p].z == e.z;
        proof {
            assert(seen == known(old_part, e.voxel())) by {
                if seen {
                    assert(old_part[p - from] == first@[p as int]);
                }
                if known(old_part, e.voxel()) {
                    let k = choose|k: int|
                        0 <= k < old_part.len() && (#[trigger] old_part[k]).voxel() == e.voxel();
                    let q = k + from;
                    assert(first@[q] == old_part[k]);
                    if q < p {
                        assert(scan_number(res, first@[q].voxel()) < scan_number(
                            res,
                            second@[i as int].voxel(),
                        ));
                    } else if q > p {
                        assert(scan_number(res, first@[p as int].voxel()) < scan_number(
                            res,
                            first@[q].voxel(),
                        ));
                    }
                }
            }
        }
        if !seen {
            r.push(e);
        }
        proof {
            let part = second@.subrange(0, i as int);
            let next = second@.subrange(0, i + 1);
            assert(next[i as int] == e);
            assert forall|k: int| 0 <= k < r.len() implies next.contains(#[trigger] r@[k]) && !known(
                old_part,
                r@[k].voxel(),
            ) by {
                if k < was.len() {
                    assert(r@[k] == was[k]);
                    assert(part.contains(was[k]));
                    let q = choose|q: int| 0 <= q < part.len() && part[q] == was[k];
                    assert(next[q] == was[k]);
                }
            }
            assert forall|j: int|
                0 <= j < i + 1 && !known(old_part, (#[trigger] second@[j]).voxel()) implies known(
                r@,
                second@[j].voxel(),
            ) by {
                if j == i {
                    assert(r@[was.len() as int].voxel() == second@[j].voxel());
                } else {
                    assert(known(was, second@[j].voxel()));
                    let q = choose|q: int|
                        0 <= q < was.len() && (#[trigger] was[q]).voxel() == second@[j].voxel();
                    assert(r@[q] == was[q]);
                }
            }
            assert forall|a: int, b: int| 0 <= a < b < r.len() implies (#[trigger] r@[a]).voxel() != (
            #[trigger] r@[b]).voxel() by {
                if b < was.len() {
                    assert(was[a].voxel() != was[b].voxel());
                } else {
                    assert(r@[a] == was[a]);
                    assert(part.contains(was[a]));
                    let q = choose|q: int| 0 <= q < part.len() && part[q] == was[a];
                    assert(second@[q] == was[a]);
                    assert(scan_number(res, second@[q].voxel()) < scan_number(
                        res,
                        second@[i as int].voxel(),
                    ));
                }
            }
        }
        i = i + 1;
    }
    proof {
        assert(second@.subrange(0, second.len() as int) =~= second@);
        assert forall|v: UVec3| #[trigger]
            known(r@, v) <==> known(second@, v) && !known(old_part, v) by {
            if known(r@, v) {
                let k = choose|k: int| 0 <= k < r.len() && (#[trigger] r@[k]).voxel() == v;
                assert(second@.contains(r@[k]));
                let q = choose|q: int| 0 <= q < second.len() && second@[q] == r@[k];
                assert(second@[q].voxel() == v);
            }
            if known(second@, v) && !known(old_part, v) {
                let q = choose|q: int| 0 <= q < second.len() && (#[trigger] second@[q]).voxel() == v;
                assert(known(r@, second@[q].voxel()));
            }
        }
    }
    r
}

/// The smallest box that holds both boxes.
fn merge(
    a: Option<DirtyRegion>,
    b: Option<DirtyRegion>,
    Ghost(first): Ghost<Seq<VoxelEdit>>,
    Ghost(second): Ghost<Seq<VoxelEdit>>,
    Ghost(all): Ghost<Seq<VoxelEdit>>,
) -> (r: Option<DirtyRegion>)
    requires
        spans_edits(first, a),
        spans_edits(second, b),
        forall|v: UVec3| #[trigger] known(all, v) <==> known(first, v) || known(second, v),
    ensures
        spans_edits(all, r),
{
    let r = match (a, b) {
        (None, _) => b,
        (_, None) => a,
        (Some(p), Some(q)) => Some(DirtyRegion { min: p.min.min(q.min), max: p.max.max(q.max) }),
    };
    proof {
        lemma_spans_union(a, b, r, first, second, all);
    }
    r
}

proof fn lemma_listed(edits: Seq<VoxelEdit>, i: int)
    requires
        0 <= i < edits.len(),
    ensures
        known(edits, edits[i].voxel()),
{
    assert(edits[i].voxel() == edits[i].voxel());
}

proof fn lemma_spans_union(
    a: Option<DirtyRegion>,
    b: Option<DirtyRegion>,
    r: Option<DirtyRegion>,
    first: Seq<VoxelEdit>,
    second: Seq<VoxelEdit>,
    all: Seq<VoxelEdit>,
)
    requires
        spans_edits(first, a),
        spans_edits(second, b),
        forall|v: UVec3| #[trigger] known(all, v) <==> known(first, v) || known(second, v),
        a is None ==> r == b,
        b is None ==> r == a,
        a is Some && b is Some ==> r == Some(
            DirtyRegion {
                min: a->0.min.spec_min(b->0.min),
                max: a->0.max.spec_max(b->0.max),
            },
        ),
    ensures
        spans_edits(all, r),
{
    if r is None {
        if all.len() > 0 {
            lemma_listed(all, 0);
        }
    } else {
        let box_r = r->0;
        assert forall|i: int| 0 <= i < all.len() implies box_r.has(
            (#[trigger] all[i]).x as int,
            all[i].y as int,
            all[i].z as int,
        ) by {
            lemma_listed(all, i);
            let v = all[i].voxel();
            if known(first, v) {
                let k = choose|k: int| 0 <= k < first.len() && (#[trigger] first[k]).voxel() == v;
                assert(first[k].voxel() == v);
            } else {
                let k = choose|k: int| 0 <= k < second.len() && (#[trigger] second[k]).voxel() == v;
                assert(second[k].voxel() == v);
            }
        }
        if a is Some {
            let p = a->0;
            let i1 = choose|i: int| 0 <= i < first.len() && (#[trigger] first[i]).x == p.min.x;
            let i2 = choose|i: int| 0 <= i < first.len() && (#[trigger] first[i]).y == p.min.y;
            let i3 = choose|i: int| 0 <= i < first.len() && (#[trigger] first[i]).z == p.min.z;
            let i4 = choose|i: int| 0 <= i < first.len() && (#[trigger] first[i]).x + 1 == p.max.x;
            let i5 = choose|i: int| 0 <= i < first.len() && (#[trigger] first[i]).y + 1 == p.max.y;
            let i6 = choose|i: int| 0 <= i < first.len() && (#[trigger] first[i]).z + 1 == p.max.z;
            lemma_carried(first, all, i1);
            lemma_carried(first, all, i2);
            lemma_carried(first, all, i3);
            lemma_carried(first, all, i4);
            lemma_carried(first, all, i5);
            lemma_carried(first, all, i6);
        }
        if b is Some {
            let p = b->0;
            let i1 = choose|i: int| 0 <= i < second.len() && (#[trigger] second[i]).x == p.min.x;
            let i2 = choose|i: int| 0 <= i < second.len() && (#[trigger] second[i]).y == p.min.y;
            let i3 = choose|i: int| 0 <= i < second.len() && (#[trigger] second[i]).z == p.min.z;
            let i4 = choose|i: int| 0 <= i < second.len() && (#[trigger] second[i]).x + 1 == p.max.x;
            let i5 = choose|i: int| 0 <= i < second.len() && (#[trigger] second[i]).y + 1 == p.max.y;
            let i6 = choose|i: int| 0 <= i < second.len() && (#[trigger] second[i]).z + 1 == p.max.z;
            lemma_carried(second, all, i1);
            lemma_carried(second, all, i2);
            lemma_carried(second, all, i3);
            lemma_carried(second, all, i4);
            lemma_carried(second, all, i5);
            lemma_carried(second, all, i6);
        }
    }
}

/// The voxel of an edit appears again in the longer list.
proof fn lemma_carried(part: Seq<VoxelEdit>, all: Seq<VoxelEdit>, i: int)
    requires
        0 <= i < part.len(),
        forall|v: UVec3| #[trigger] known(part, v) ==> known(all, v),
    ensures
        exists|k: int|
            0 <= k < all.len() && (#[trigger] all[k]).x == part[i].x && all[k].y == part[i].y && all[k].z
                == part[i].z,
{
    lemma_listed(part, i);
    let v = part[i].voxel();
    assert(known(all, v));
    let k = choose|k: int| 0 <= k < all.len() && (#[trigger] all[k]).voxel() == v;
    assert(all[k].voxel() == v);
}

/// `end` is `g` after a settle, `f` being the pieces of `g`: they were dropped, and if
/// the clay is soft it slumped from there. The edits list every voxel that was written
/// to, once, with the sample it had before.
pub open spec fn settled(
    g: GridView,
    f: ComponentField,
    params: PlasticSettleParams,
    limit: u32,
    band: Seq<u32>,
    end: GridView,
    edits: Seq<VoxelEdit>,
    r: PlasticSettleSummary,
) -> bool {
    &&& end.same_domain(g)
    &&& r.voxels_touched == edits.len()
    &&& spans_edits(edits, r.dirty)
    &&& distinct_voxels(edits)
    &&& forall|i: int|
        0 <= i < edits.len() ==> in_domain(g.res, (#[trigger] edits[i]).voxel()) && edits[i].pre
            == g.at(edits[i].x as int, edits[i].y as int, edits[i].z as int)
    &&& !is_soft(params) ==> {
        &&& rests(g, f, end)
        &&& r.iterations_run == 0
        &&& forall|v: UVec3| #[trigger]
            known(edits, v) <==> in_domain(g.res, v) && rewrites(
                g,
                f,
                drops(f, f.count() as nat),
                v,
            )
    }
    &&& is_soft(params) ==> exists|mid: GridView, after: ComponentField|
        {
            &&& rests(g, f, mid)
            &&& #[trigger] slumps(mid, after, limit, params.iterations, band, end)
            &&& r.iterations_run == slump_passes(mid, after, limit, params.iterations)
            &&& forall|v: UVec3| #[trigger]
                known(edits, v) <==> in_domain(mid.res, v) && (rewrites(
                    g,
                    f,
                    drops(f, f.count() as nat),
                    v,
                ) || slump_writes(mid, after, limit, params.iterations, band, v))
        }
}

/// A settle changes no voxel that its edits do not list.
pub proof fn law_settle_lists_changes(
    g: GridView,
    f: ComponentField,
    params: PlasticSettleParams,
    limit: u32,
    band: Seq<u32>,
    end: GridView,
    edits: Seq<VoxelEdit>,
    r: PlasticSettleSummary,
)
    requires
        settled(g, f, params, limit, band, end, edits, r),
    ensures
        lists_changes(edits, g, end),
{
    if is_soft(params) {
        let (mid, after) = choose|mid: GridView, after: ComponentField|
            {
                &&& rests(g, f, mid)
                &&& #[trigger] slumps(mid, after, limit, params.iterations, band, end)
                &&& r.iterations_run == slump_passes(mid, after, limit, params.iterations)
                &&& forall|v: UVec3| #[trigger]
                    known(edits, v) <==> in_domain(mid.res, v) && (rewrites(
                        g,
                        f,
                        drops(f, f.count() as nat),
                        v,
                    ) || slump_writes(mid, after, limit, params.iterations, band, v))
            };
        assert forall|v: UVec3| in_domain(g.res, v) && !known(edits, v) implies #[trigger] end.at(
            v.x as int,
            v.y as int,
            v.z as int,
        ) == g.at(v.x as int, v.y as int, v.z as int) by {
            assert(mid.at(v.x as int, v.y as int, v.z as int) == translated(
                g,
                f,
                drops(f, f.count() as nat),
                v,
            ));
        }
    }
}

/// Settle the clay of a grid under gravity: drop what floats, then, if the clay
/// is soft, let it slump. Each voxel that is written is added to the journal
/// once, with the sample it had before the settle.
#[verifier::rlimit(40)]
#[verifier::spinoff_prover]
pub fn settle_components_plastic(
    grid: &mut Grid,
    labels: &ComponentField,
    params: &PlasticSettleParams,
    limit: u32,
    band: &Vec<u32>,
    journal: &mut Vec<VoxelEdit>,
) -> (r: PlasticSettleSummary)
    requires
        old(grid).wf(),
        labels.wf(),
        labels.domain() == old(grid)@.res,
        labels.domain().y <= 0x8000_0000,
        band.len() == BAND_END + 1,
    ensures
        final(grid).wf(),
        final(grid)@.same_domain(old(grid)@),
        old(journal).len() <= final(journal).len(),
        final(journal)@.subrange(0, old(journal).len() as int) == old(journal)@,
        settled(
            old(grid)@,
            *labels,
            *params,
            limit,
            band@,
            final(grid)@,
            final(journal)@.subrange(old(journal).len() as int, final(journal).len() as int),
            r,
        ),
{
    let ghost g = grid@;
    let ghost d = drops(*labels, labels.count() as nat);
    let ghost prior = journal@;
    let from: usize = journal.len();
    let rest: RestSummary = rest_components_on_bench(grid, labels, journal);
    let ghost mid = grid@;
    let ghost first = journal@.subrange(prior.len() as int, journal.len() as int);
    let ghost moves = |v: UVec3| rewrites(g, *labels, d, v);
    proof {
        grid.lemma_wf_view();
        labels.lemma_wf();
        assert(rests(g, *labels, mid));
        assert forall|v: UVec3| #[trigger] known(first, v) <==> in_domain(g.res, v) && moves(v) by {
            if known(first, v) {
                let i = choose|i: int| 0 <= i < first.len() && (#[trigger] first[i]).voxel() == v;
                assert(in_domain(g.res, first[i].voxel()));
            }
        }
        lemma_records_distinct(first, g, moves);
        lemma_distinct_bound(first, g.res);
    }
    if params.iterations == 0 || is_stiff(params.plasticity) {
        let touched: u32 = (journal.len() - from) as u32;
        return PlasticSettleSummary { iterations_run: 0, voxels_touched: touched, dirty: rest.dirty };
    }
    let after: ComponentField = label_components(grid);
    let mut second: Vec<VoxelEdit> = Vec::new();
    let (run, dirty) = squash(grid, &after, limit, params.iterations, band, &mut second);
    let ghost writes = |v: UVec3| slump_writes(mid, after, limit, params.iterations, band@, v);
    proof {
        assert(second@.subrange(0, second.len() as int) =~= second@);
        assert(records(second@, mid, writes));
        assert(spans_edits(second@, dirty));
        assert forall|v: UVec3| #[trigger] known(second@, v) <==> in_domain(mid.res, v) && writes(v) by {
            if known(second@, v) {
                let i = choose|i: int| 0 <= i < second.len() && (#[trigger] second@[i]).voxel() == v;
                assert(in_domain(mid.res, second@[i].voxel()));
            }
        }
        assert forall|i: int| from <= i < journal.len() implies in_domain(
            g.res,
            (#[trigger] journal@[i]).voxel(),
        ) by {
            assert(first[i - from] == journal@[i]);
        }
        assert forall|i: int, j: int| from <= i < j < journal.len() implies scan_number(
            g.res,
            (#[trigger] journal@[i]).voxel(),
        ) < scan_number(g.res, (#[trigger] journal@[j]).voxel()) by {
            assert(first[i - from] == journal@[i] && first[j - from] == journal@[j]);
        }
    }
    let mut fresh: Vec<VoxelEdit> = new_edits(journal, from, &second, grid.res());
    let ghost extra = fresh@;
    let ghost so_far = journal@;
    journal.append(&mut fresh);
    let ghost all = first + extra;
    proof {
        assert(journal@ =~= so_far + extra);
        assert(journal@.subrange(0, prior.len() as int) =~= prior);
        assert(journal@.subrange(prior.len() as int, journal.len() as int) =~= all);
        assert forall|v: UVec3| #[trigger] known(all, v) <==> known(first, v) || known(second@, v) by {
            if known(first, v) {
                let i = choose|i: int| 0 <= i < first.len() && (#[trigger] first[i]).voxel() == v;
                assert(all[i] == first[i]);
            }
            if known(second@, v) && !known(first, v) {
                assert(known(extra, v));
                let i = choose|i: int| 0 <= i < extra.len() && (#[trigger] extra[i]).voxel() == v;
                assert(all[i + first.len()] == extra[i]);
            }
            if known(all, v) {
                let i = choose|i: int| 0 <= i < all.len() && (#[trigger] all[i]).voxel() == v;
                if i < first.len() {
                    assert(first[i] == all[i]);
                } else {
                    assert(extra[i - first.len()] == all[i]);
                    assert(known(extra, v));
                }
            }
        }
        assert forall|i: int, j: int| 0 <= i < j < all.len() implies (#[trigger] all[i]).voxel() != (
        #[trigger] all[j]).voxel() by {
            let n = first.len() as int;
            if j < n {
                assert(first[i].voxel() != first[j].voxel());
            } else if i >= n {
                assert(extra[i - n].voxel() != extra[j - n].voxel());
            } else {
                assert(all[i] == first[i] && all[j] == extra[j - n]);
                lemma_listed(first, i);
                lemma_listed(extra, j - n);
            }
        }
        assert forall|i: int| 0 <= i < all.len() implies in_domain(g.res, (#[trigger] all[i]).voxel())
            && all[i].pre == g.at(all[i].x as int, all[i].y as int, all[i].z as int) by {
            let n = first.len() as int;
            if i < n {
                assert(all[i] == first[i]);
            } else {
                let e = extra[i - n];
                assert(all[i] == e);
                lemma_listed(extra, i - n);
                assert(second@.contains(e));
                let k = choose|k: int| 0 <= k < second.len() && second@[k] == e;
                assert(second@[k] == e);
                assert(!known(first, e.voxel()));
                assert(!moves(e.voxel()));
                assert(mid.at(e.x as int, e.y as int, e.z as int) == translated(
                    g,
                    *labels,
                    d,
                    e.voxel(),
                ));
            }
        }
        lemma_distinct_bound(all, g.res);
        assert(slumps(mid, after, limit, params.iterations, band@, grid@));
    }
    let touched: u32 = (journal.len() - from) as u32;
    let region: Option<DirtyRegion> = merge(
        rest.dirty,
        dirty,
        Ghost(first),
        Ghost(second@),
        Ghost(all),
    );
    PlasticSettleSummary { iterations_run: run, voxels_touched: touched, dirty: region }
}

/// Number of sandpile passes that the slump runs.
pub open spec fn slump_passes(mid: GridView, f: ComponentField, limit: u32, iterations: u32) -> nat {
    if f.count() == 0 {
        0
    } else {
        passes(
            packed(mid, slump_lo(f), slump_hi(f)),
            flat_lo(slump_lo(f)),
            flat_hi(slump_hi(f)),
            limit,
            iterations as nat,
        )
    }
}

/// Whether a softness is a number of at most 1e-4.
fn is_stiff(plasticity: u32) -> (r: bool)
    ensures
        r == !(is_nan(plasticity) || lt(STIFF, plasticity)),
{
    let m: u32 = if plasticity < 0x8000_0000 { plasticity } else { plasticity - 0x8000_0000 };
    m <= 0x7f80_0000 && !less(STIFF, plasticity)
}

/// Recorded edits are of different voxels.
proof fn lemma_records_distinct(
    edits: Seq<VoxelEdit>,
    g: GridView,
    changed: spec_fn(UVec3) -> bool,
)
    requires
        records(edits, g, changed),
    ensures
        distinct_voxels(edits),
{
    assert forall|i: int, j: int| 0 <= i < j < edits.len() implies (#[trigger] edits[i]).voxel() != (
    #[trigger] edits[j]).voxel() by {
        assert(scan_number(g.res, edits[i].voxel()) < scan_number(g.res, edits[j].voxel()));
    }
}

/// The box of a slump leaves room around every piece: sixteen columns to every side, and the
/// band and two more voxels above, as far as the domain reaches; below it reaches the bench.
pub proof fn law_slump_has_room(f: ComponentField, v: UVec3, x: int, y: int, z: int)
    requires
        f.wf(),
        f.domain().has(v.x as int, v.y as int, v.z as int),
        f.id(v) > 0,
        f.domain().has(x, y, z),
        v.x - 16 <= x <= v.x + 16,
        v.z - 16 <= z <= v.z + 16,
        y <= v.y + 5,
    ensures
        in_box(slump_lo(f), slump_hi(f), x, y, z),
{
    f.lemma_wf();
    let n = f.count() as nat;
    let c = f.id(v);
    law_box_is_tight(f, c);
    lemma_least_of(f, 0, n, f.domain().x as int, c);
    lemma_least_of(f, 2, n, f.domain().z as int, c);
    lemma_greatest_of(f, 0, n, c);
    lemma_greatest_of(f, 1, n, c);
    lemma_greatest_of(f, 2, n, c);
    lemma_greatest_bound(f, 0, n);
    lemma_greatest_bound(f, 1, n);
    lemma_greatest_bound(f, 2, n);
}

proof fn lemma_least_of(f: ComponentField, a: int, n: nat, start: int, c: u32)
    requires
        n <= u32::MAX,
    ensures
        1 <= c <= n ==> least_of(f, a, n, start) <= axis(f.box_of(c).0, a),
        0 <= start ==> 0 <= least_of(f, a, n, start),
    decreases n,
{
    if n > 0 {
        lemma_least_of(f, a, (n - 1) as nat, start, c);
    }
}

proof fn lemma_greatest_of(f: ComponentField, a: int, n: nat, c: u32)
    requires
        n <= u32::MAX,
    ensures
        1 <= c <= n ==> greatest_of(f, a, n) >= axis(f.box_of(c).1, a),
    decreases n,
{
    if n > 0 {
        lemma_greatest_of(f, a, (n - 1) as nat, c);
    }
}

proof fn lemma_greatest_bound(f: ComponentField, a: int, n: nat)
    ensures
        0 <= greatest_of(f, a, n) <= u32::MAX,
    decreases n,
{
    if n > 0 {
        lemma_greatest_bound(f, a, (n - 1) as nat);
    }
}

/// Packed columns stand on the bench without a hollow: below a solid voxel of a slumped column
/// every voxel is solid, and as many voxels are solid as the column is high.
pub proof fn law_packed_column_has_no_hollow(
    voxel_size: u32,
    band: Seq<u32>,
    lo: UVec3,
    hi: UVec3,
    heights: Seq<u32>,
    v: UVec3,
)
    requires
        lt(0, voxel_size),
        forall|i: int| 1 <= i <= 16 ==> !solid(#[trigger] band[i]),
        in_box(lo, hi, v.x as int, v.y as int, v.z as int),
        exists|r: int| #[trigger]
            is_nearest(lo, hi, heights, v.x as int, v.y as int, v.z as int, r),
    ensures
        solid(slumped(voxel_size, band, lo, hi, heights, v)) <==> v.y < heights[(v.x - lo.x) + (v.z
            - lo.z) * (hi.x - lo.x)],
{
    let r = nearest(lo, hi, heights, v.x as int, v.y as int, v.z as int);
    assert(is_nearest(lo, hi, heights, v.x as int, v.y as int, v.z as int, r));
    assert(!solid(band[r]));
    let (sx, dz) = (hi.x - lo.x, v.z - lo.z);
    assert((0 + dz * 1) * sx == dz * sx) by (nonlinear_arith);
}

/// Distances are squared along each axis and added up, and every axis counts alike.
pub proof fn law_axes_count_alike(x: int, y: int, z: int, a: int, b: int, c: int, k: int)
    ensures
        dist2(x, y, z, a, b, c) == dist2(y, z, x, b, c, a),
        dist2(x, y, z, a, b, c) == dist2(y, x, z, b, a, c),
        dist2(x, y, z, a, b, c) == dist2(a, b, c, x, y, z),
        dist2(x, y, z, x + k, y, z) == k * k,
        dist2(x, y, z, a, b, c) == dist2(x, y, z, a, y, z) + dist2(x, y, z, x, b, z) + dist2(
            x,
            y,
            z,
            x,
            y,
            c,
        ),
{
    assert((a - x) * (a - x) == (x - a) * (x - a)) by (nonlinear_arith);
    assert((b - y) * (b - y) == (y - b) * (y - b)) by (nonlinear_arith);
    assert((c - z) * (c - z) == (z - c) * (z - c)) by (nonlinear_arith);
    assert((x + k - x) * (x + k - x) == k * k) by (nonlinear_arith);
    assert(0int * 0int == 0) by (nonlinear_arith);
}

/// The tallest column is a column, and none is taller.
pub proof fn law_tallest_is_a_column(counts: Seq<u32>)
    ensures
        forall|i: int| 0 <= i < counts.len() ==> #[trigger] counts[i] <= tallest(counts),
        counts.len() > 0 ==> exists|i: int| 0 <= i < counts.len() && #[trigger] counts[i] == tallest(counts),
        counts.len() == 0 ==> tallest(counts) == 0,
    decreases counts.len(),
{
    if counts.len() > 0 {
        let before = counts.drop_last();
        law_tallest_is_a_column(before);
        assert forall|i: int| 0 <= i < counts.len() implies #[trigger] counts[i] <= tallest(counts) by {
            if i < before.len() {
                assert(before[i] == counts[i]);
            }
        }
        assert(counts[counts.len() - 1] == counts.last());
        if counts.last() > tallest(before) {
        } else if before.len() == 0 {
            assert(counts.last() == 0);
        } else {
            let i = choose|i: int| 0 <= i < before.len() && #[trigger] before[i] == tallest(before);
            assert(counts[i] == tallest(counts));
        }
    }
}

/// The heights of a heap are counted column by column: along x, then along z.
pub proof fn law_columns_are_packed_in_order(g: GridView, lo: UVec3, hi: UVec3, x: int, z: int)
    requires
        lo.x <= x < hi.x,
        lo.z <= z < hi.z,
        hi.y <= g.res.y,
    ensures
        packed(g, lo, hi)[(x - lo.x) + (z - lo.z) * (hi.x - lo.x)] == column_solids(
            g,
            x,
            z,
            hi.y as nat,
        ),
        packed(g, lo, hi).len() == (hi.x - lo.x) * (hi.z - lo.z),
{
    lemma_box_number(flat_lo(lo), flat_hi(hi), x, 0, z);
    let (sx, sz, dz) = (hi.x - lo.x, hi.z - lo.z, z - lo.z);
    assert((0 + dz * 1) * sx == dz * sx) by (nonlinear_arith);
    assert(sx * 1 * sz == sx * sz) by (nonlinear_arith);
    lemma_column_bound(g, x, z, hi.y as nat);
}

/// A column counts its solid voxels, each height once.
pub proof fn law_column_counts_its_solids(g: GridView, x: int, z: int, n: nat)
    ensures
        column_solids(g, x, z, 0) == 0,
        column_solids(g, x, z, n + 1) == column_solids(g, x, z, n) + (if solid(g.at(x, n as int, z)) {
            1nat
        } else {
            0nat
        }),
        column_solids(g, x, z, n) <= n,
{
    lemma_column_bound(g, x, z, n);
}

/// The heap has room: its box reaches from the bench to three voxels above the tallest column, as
/// far as the domain does, and is never lower than before.
pub proof fn law_heap_has_room(f: ComponentField, heights: Seq<u32>, x: int, y: int, z: int)
    requires
        f.domain().has(x, y, z),
        slump_lo(f).x <= x < slump_hi(f).x,
        slump_lo(f).z <= z < slump_hi(f).z,
        y <= tallest(heights) + 3,
    ensures
        in_box(slump_lo(f), heap_hi(f, heights), x, y, z),
        heap_hi(f, heights).y >= slump_hi(f).y,
        heap_hi(f, heights).x == slump_hi(f).x,
        heap_hi(f, heights).z == slump_hi(f).z,
{
}

/// The samples of a heap: one voxel deep wherever it is filled, and elsewhere as far as the
/// nearest filled voxel, out to the end of the band.
pub proof fn law_heap_samples_tell_the_distance(
    voxel_size: u32,
    band: Seq<u32>,
    lo: UVec3,
    hi: UVec3,
    heights: Seq<u32>,
    v: UVec3,
    a: int,
    b: int,
    c: int,
    r: int,
)
    requires
        is_nearest(lo, hi, heights, v.x as int, v.y as int, v.z as int, r),
        in_box(lo, hi, v.x as int, v.y as int, v.z as int),
        in_box(lo, hi, a, b, c),
        b < heights[(a - lo.x) + (c - lo.z) * (hi.x - lo.x)],
        (a, b, c) != (v.x as int, v.y as int, v.z as int),
    ensures
        v.y < heights[(v.x - lo.x) + (v.z - lo.z) * (hi.x - lo.x)] ==> slumped(
            voxel_size,
            band,
            lo,
            hi,
            heights,
            v,
        ) == negated(voxel_size),
        v.y >= heights[(v.x - lo.x) + (v.z - lo.z) * (hi.x - lo.x)] ==> slumped(
            voxel_size,
            band,
            lo,
            hi,
            heights,
            v,
        ) == band[r],
        r <= (a - v.x) * (a - v.x) + (b - v.y) * (b - v.y) + (c - v.z) * (c - v.z),
        1 <= r <= 16,
{
    let (x, y, z) = (v.x as int, v.y as int, v.z as int);
    let (sx, dz, ez) = (hi.x - lo.x, v.z - lo.z, c - lo.z);
    assert((0 + dz * 1) * sx == dz * sx) by (nonlinear_arith);
    assert((0 + ez * 1) * sx == ez * sx) by (nonlinear_arith);
    assert(filled(lo, hi, heights, a, b, c));
    lemma_nearest_unique(lo, hi, heights, x, y, z, r);
}

} // verus!
