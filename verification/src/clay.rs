//! How much clay there is, and that a settle keeps it.

use crate::components::{in_domain, label, solid_voxel, worn, ComponentField};
use crate::gravity::{axis, drops};
use crate::grid::GridView;
use crate::journal::lemma_box_fits;
use crate::plastic::{column_solids, dist2, filled, flat_hi, flat_lo, greatest_of, heap, heap_hi, is_nearest, least_of, lemma_column_bound, lemma_total_bound, nearest, packed, rests, slump_hi, slump_lo, slump_value, slump_writes, slumps, tallest, BAND_END};
use crate::region::{box_cell, box_count, box_number, in_box, lemma_box_cell, lemma_box_number, span};
use crate::rest::{is_crisp, land_apart, law_clay_is_where_it_lands, law_rest_keeps_clay};
use crate::sample::{lemma_moved_not_nearly_zero, lemma_negated_size, lemma_not_nearly_equal, lt, nearly_equal, solid};
use crate::sandpile::{law_pile_conserves_total, total};
use crate::vec3::UVec3;
use vstd::prelude::*;

verus! {

/// The solid voxels of a grid.
pub open spec fn clay(g: GridView) -> Set<UVec3> {
    Set::new(|v: UVec3| solid_voxel(g, v))
}

/// The solid voxels of a column with `y` below `n`.
spec fn column(g: GridView, x: u32, z: u32, n: int) -> Set<UVec3> {
    Set::new(|v: UVec3| solid_voxel(g, v) && v.x == x && v.z == z && v.y < n)
}

/// A column holds as many solid voxels as are counted in it.
proof fn lemma_column(g: GridView, x: u32, z: u32, n: nat)
    requires
        x < g.res.x,
        z < g.res.z,
        n <= g.res.y,
    ensures
        column(g, x, z, n as int).finite(),
        column(g, x, z, n as int).len() == column_solids(g, x as int, z as int, n),
    decreases n,
{
    if n == 0 {
        assert(column(g, x, z, 0) =~= Set::empty());
    } else {
        let m = (n - 1) as nat;
        lemma_column(g, x, z, m);
        let v = UVec3 { x, y: m as u32, z };
        if solid(g.at(x as int, n - 1, z as int)) {
            assert(column(g, x, z, n as int) =~= column(g, x, z, m as int).insert(v));
        } else {
            assert(column(g, x, z, n as int) =~= column(g, x, z, m as int));
        }
    }
}

/// The solid voxels with `y` below `top` of the first `n` columns of a region.
spec fn columns(g: GridView, lo: UVec3, hi: UVec3, top: int, n: int) -> Set<UVec3> {
    Set::new(
        |v: UVec3|
            solid_voxel(g, v) && in_box(flat_lo(lo), flat_hi(hi), v.x as int, 0, v.z as int) && v.y
                < top && box_number(flat_lo(lo), flat_hi(hi), v.x as int, 0, v.z as int) < n,
    )
}

/// `heights` are the numbers of solid voxels with `y` below `top` in the columns of a
/// region.
spec fn counts_columns(g: GridView, lo: UVec3, hi: UVec3, top: nat, heights: Seq<u32>) -> bool {
    &&& heights.len() == box_count(flat_lo(lo), flat_hi(hi))
    &&& forall|i: int|
        0 <= i < heights.len() ==> #[trigger] heights[i] == column_solids(
            g,
            box_cell(flat_lo(lo), flat_hi(hi), i).x as int,
            box_cell(flat_lo(lo), flat_hi(hi), i).z as int,
            top,
        )
}

proof fn lemma_columns(g: GridView, lo: UVec3, hi: UVec3, top: nat, heights: Seq<u32>, n: nat)
    requires
        hi.x <= g.res.x,
        hi.z <= g.res.z,
        top <= g.res.y,
        counts_columns(g, lo, hi, top, heights),
        n <= heights.len(),
    ensures
        columns(g, lo, hi, top as int, n as int).finite(),
        columns(g, lo, hi, top as int, n as int).len() == total(heights.take(n as int)),
    decreases n,
{
    let (a, b) = (flat_lo(lo), flat_hi(hi));
    if n == 0 {
        assert forall|v: UVec3| !columns(g, lo, hi, top as int, 0).contains(v) by {
            if in_box(a, b, v.x as int, 0, v.z as int) {
                lemma_box_number(a, b, v.x as int, 0, v.z as int);
            }
        }
        assert(columns(g, lo, hi, top as int, 0) =~= Set::empty());
    } else {
        let m = (n - 1) as nat;
        lemma_columns(g, lo, hi, top, heights, m);
        lemma_box_cell(a, b, m as int);
        let c = box_cell(a, b, m as int);
        lemma_column(g, c.x, c.z, top);
        let (s, t) = (columns(g, lo, hi, top as int, m as int), column(g, c.x, c.z, top as int));
        assert forall|v: UVec3| #[trigger]
            columns(g, lo, hi, top as int, n as int).contains(v) <==> (s + t).contains(v) by {
            if in_box(a, b, v.x as int, 0, v.z as int) && box_number(a, b, v.x as int, 0, v.z as int)
                == m {
                lemma_box_number(a, b, v.x as int, 0, v.z as int);
            }
        }
        assert(columns(g, lo, hi, top as int, n as int) =~= s + t);
        assert(s.disjoint(t));
        vstd::set_lib::lemma_set_disjoint_lens(s, t);
        assert(heights.take(n as int).drop_last() =~= heights.take(m as int));
        assert(heights[m as int] == t.len());
    }
}

/// Where all the clay stands in the counted columns, the counts add up to it.
proof fn lemma_clay_total(g: GridView, lo: UVec3, hi: UVec3, top: nat, heights: Seq<u32>)
    requires
        hi.x <= g.res.x,
        hi.z <= g.res.z,
        top <= g.res.y,
        counts_columns(g, lo, hi, top, heights),
        forall|v: UVec3| #[trigger]
            solid_voxel(g, v) ==> in_box(flat_lo(lo), flat_hi(hi), v.x as int, 0, v.z as int) && v.y
                < top,
    ensures
        clay(g).finite(),
        clay(g).len() == total(heights),
{
    let n = heights.len();
    lemma_columns(g, lo, hi, top, heights, n);
    assert(heights.take(n as int) =~= heights);
    assert forall|v: UVec3| #[trigger]
        clay(g).contains(v) implies columns(g, lo, hi, top as int, n as int).contains(v) by {
        lemma_box_number(flat_lo(lo), flat_hi(hi), v.x as int, 0, v.z as int);
    }
    assert(clay(g) =~= columns(g, lo, hi, top as int, n as int));
}

/// Packed columns are counted columns.
proof fn lemma_packed(g: GridView, lo: UVec3, hi: UVec3)
    requires
        hi.x <= g.res.x,
        hi.z <= g.res.z,
    ensures
        counts_columns(g, lo, hi, hi.y as nat, packed(g, lo, hi)),
{
    let (a, b) = (flat_lo(lo), flat_hi(hi));
    assert(box_count(a, b) >= 0) by (nonlinear_arith)
        requires
            box_count(a, b) == span(a.x, b.x) * span(a.y, b.y) * span(a.z, b.z),
            span(a.x, b.x) >= 0,
            span(a.y, b.y) >= 0,
            span(a.z, b.z) >= 0,
    ;
    assert forall|i: int| 0 <= i < packed(g, lo, hi).len() implies #[trigger] packed(g, lo, hi)[i]
        == column_solids(
        g,
        box_cell(a, b, i).x as int,
        box_cell(a, b, i).z as int,
        hi.y as nat,
    ) by {
        lemma_column_bound(
            g,
            box_cell(a, b, i).x as int,
            box_cell(a, b, i).z as int,
            hi.y as nat,
        );
    }
}

/// There are finitely many solid voxels.
pub proof fn lemma_clay_finite(g: GridView)
    ensures
        clay(g).finite(),
{
    lemma_packed(g, UVec3::zero(), g.res);
    lemma_clay_total(
        g,
        UVec3::zero(),
        g.res,
        g.res.y as nat,
        packed(g, UVec3::zero(), g.res),
    );
}

/// A column that is solid exactly below `h` holds `h` solid voxels.
proof fn lemma_packed_column(g: GridView, x: int, z: int, h: int, n: nat)
    requires
        0 <= h,
        forall|y: int| 0 <= y < n ==> (solid(#[trigger] g.at(x, y, z)) <==> y < h),
    ensures
        column_solids(g, x, z, n) == (if h < n {
            h
        } else {
            n as int
        }),
    decreases n,
{
    if n > 0 {
        lemma_packed_column(g, x, z, h, (n - 1) as nat);
        assert(solid(g.at(x, n - 1, z)) <==> n - 1 < h);
    }
}

proof fn lemma_tallest(counts: Seq<u32>, i: int)
    requires
        0 <= i < counts.len(),
    ensures
        counts[i] <= tallest(counts),
    decreases counts.len(),
{
    if i < counts.len() - 1 {
        lemma_tallest(counts.drop_last(), i);
    }
}

/// Every place has a nearest distance to the other filled voxels.
proof fn lemma_nearest_exists(
    lo: UVec3,
    hi: UVec3,
    heights: Seq<u32>,
    x: int,
    y: int,
    z: int,
    k: int,
)
    requires
        1 <= k <= BAND_END,
        forall|a: int, b: int, c: int| #[trigger]
            filled(lo, hi, heights, a, b, c) && !(a == x && b == y && c == z) ==> k <= dist2(
                x,
                y,
                z,
                a,
                b,
                c,
            ),
    ensures
        exists|r: int| #[trigger] is_nearest(lo, hi, heights, x, y, z, r),
    decreases BAND_END - k,
{
    if k < BAND_END && !exists|a: int, b: int, c: int| #[trigger]
        filled(lo, hi, heights, a, b, c) && !(a == x && b == y && c == z) && dist2(x, y, z, a, b, c)
            == k {
        lemma_nearest_exists(lo, hi, heights, x, y, z, k + 1);
    } else {
        assert(is_nearest(lo, hi, heights, x, y, z, k));
    }
}

/// Two different voxels are at least one apart.
proof fn lemma_apart(x: int, y: int, z: int, a: int, b: int, c: int)
    requires
        !(a == x && b == y && c == z),
    ensures
        1 <= dist2(x, y, z, a, b, c),
{
    let (p, q, r) = (a - x, b - y, c - z);
    assert(p * p >= 0 && (p != 0 ==> p * p >= 1)) by (nonlinear_arith);
    assert(q * q >= 0 && (q != 0 ==> q * q >= 1)) by (nonlinear_arith);
    assert(r * r >= 0 && (r != 0 ==> r * r >= 1)) by (nonlinear_arith);
}

/// The boxes of the pieces lie between the least and the greatest coordinate.
proof fn lemma_boxes_between(f: ComponentField, a: int, n: nat, start: int, c: u32)
    requires
        1 <= c <= n <= u32::MAX,
    ensures
        least_of(f, a, n, start) <= axis(f.box_of(c).0, a),
        axis(f.box_of(c).1, a) <= greatest_of(f, a, n),
    decreases n,
{
    if c < n {
        lemma_boxes_between(f, a, (n - 1) as nat, start, c);
    } else {
        assert(n as u32 == c);
    }
}

/// All the clay lies in the region that the slump works on.
proof fn lemma_clay_in_region(g: GridView, f: ComponentField, v: UVec3)
    requires
        f.labels(g),
        solid_voxel(g, v),
    ensures
        f.count() > 0,
        in_box(slump_lo(f), slump_hi(f), v.x as int, v.y as int, v.z as int),
{
    f.lemma_wf();
    let c = f.id(v);
    assert(c != 0);
    assert(label(f@, f.domain(), v) == c);
    assert(1 <= c <= f.count());
    f.lemma_box_of(c);
    let n = f.count() as nat;
    lemma_boxes_between(f, 0, n, f.domain().x as int, c);
    lemma_boxes_between(f, 1, n, f.domain().y as int, c);
    lemma_boxes_between(f, 2, n, f.domain().z as int, c);
}

/// The samples of a table of distances are those of air.
pub open spec fn is_air(band: Seq<u32>) -> bool {
    forall|i: int| 1 <= i <= BAND_END ==> !solid(#[trigger] band[i])
}

/// The heap does not reach through the top of the domain.
pub open spec fn fits_under(g: GridView, f: ComponentField, limit: u32, iterations: u32) -> bool {
    tallest(heap(g, f, limit, iterations)) <= g.res.y
}

/// No solid sample, and not the voxel size, is within rounding of zero.
pub open spec fn is_distinct(g: GridView) -> bool {
    &&& lt(0, g.voxel_size)
    &&& !nearly_equal(g.voxel_size, 0)
    &&& forall|v: UVec3| #[trigger]
        solid_voxel(g, v) ==> !nearly_equal(g.at(v.x as int, v.y as int, v.z as int), 0)
}

/// After a slump a voxel of the rewritten region is solid exactly where the heap fills it.
proof fn lemma_slumped_solid(
    mid: GridView,
    f: ComponentField,
    limit: u32,
    iterations: u32,
    band: Seq<u32>,
    end: GridView,
    v: UVec3,
)
    requires
        slumps(mid, f, limit, iterations, band, end),
        is_distinct(mid),
        is_air(band),
        in_domain(mid.res, v),
        f.count() > 0,
        in_box(
            slump_lo(f),
            heap_hi(f, heap(mid, f, limit, iterations)),
            v.x as int,
            v.y as int,
            v.z as int,
        ),
    ensures
        solid_voxel(end, v) <==> filled(
            slump_lo(f),
            heap_hi(f, heap(mid, f, limit, iterations)),
            heap(mid, f, limit, iterations),
            v.x as int,
            v.y as int,
            v.z as int,
        ),
{
    let heights = heap(mid, f, limit, iterations);
    let (lo, hi) = (slump_lo(f), heap_hi(f, heights));
    let (x, y, z) = (v.x as int, v.y as int, v.z as int);
    let here = mid.at(x, y, z);
    let next = slump_value(mid, f, limit, iterations, band, v);
    lemma_negated_size(mid.voxel_size);
    if !filled(lo, hi, heights, x, y, z) {
        assert forall|a: int, b: int, c: int| #[trigger]
            filled(lo, hi, heights, a, b, c) && !(a == x && b == y && c == z) implies 1 <= dist2(
            x,
            y,
            z,
            a,
            b,
            c,
        ) by {
            lemma_apart(x, y, z, a, b, c);
        }
        lemma_nearest_exists(lo, hi, heights, x, y, z, 1);
        assert(is_nearest(lo, hi, heights, x, y, z, nearest(lo, hi, heights, x, y, z)));
        assert(!solid(next));
        if solid(here) {
            assert(solid_voxel(mid, v));
            lemma_not_nearly_equal(here, next);
        }
    } else {
        if !solid(here) {
            lemma_not_nearly_equal(next, here);
        }
    }
    assert(end.at(x, y, z) == (if slump_writes(mid, f, limit, iterations, band, v) {
        next
    } else {
        here
    }));
}

/// The heap counts the clay of the slumped grid.
proof fn lemma_heap_counts(
    mid: GridView,
    f: ComponentField,
    limit: u32,
    iterations: u32,
    band: Seq<u32>,
    end: GridView,
)
    requires
        slumps(mid, f, limit, iterations, band, end),
        is_distinct(mid),
        is_air(band),
        f.count() > 0,
        fits_under(mid, f, limit, iterations),
        slump_hi(f).x <= mid.res.x,
        slump_hi(f).z <= mid.res.z,
        heap_hi(f, heap(mid, f, limit, iterations)).y <= mid.res.y,
        heap(mid, f, limit, iterations).len() == box_count(
            flat_lo(slump_lo(f)),
            flat_hi(slump_hi(f)),
        ),
    ensures
        counts_columns(
            end,
            slump_lo(f),
            slump_hi(f),
            heap_hi(f, heap(mid, f, limit, iterations)).y as nat,
            heap(mid, f, limit, iterations),
        ),
{
    let heights = heap(mid, f, limit, iterations);
    let (lo, hi) = (slump_lo(f), heap_hi(f, heights));
    let (a, b) = (flat_lo(lo), flat_hi(slump_hi(f)));
    f.lemma_wf();
    assert(flat_hi(hi) == b);
    assert forall|i: int| 0 <= i < heights.len() implies #[trigger] heights[i] == column_solids(
        end,
        box_cell(a, b, i).x as int,
        box_cell(a, b, i).z as int,
        hi.y as nat,
    ) by {
        lemma_box_cell(a, b, i);
        let c = box_cell(a, b, i);
        lemma_tallest(heights, i);
        assert(heights[i] <= hi.y);
        assert forall|y: int| 0 <= y < hi.y implies (solid(
            #[trigger] end.at(c.x as int, y, c.z as int),
        ) <==> y < heights[i]) by {
            let v = UVec3 { x: c.x, y: y as u32, z: c.z };
            lemma_slumped_solid(mid, f, limit, iterations, band, end, v);
        }
        lemma_packed_column(end, c.x as int, c.z as int, heights[i] as int, hi.y as nat);
    }
}

/// Slumping keeps the clay: where the heap does not reach through the top of the domain,
/// as many voxels are solid after a slump as before.
pub proof fn law_slump_keeps_clay(
    mid: GridView,
    f: ComponentField,
    limit: u32,
    iterations: u32,
    band: Seq<u32>,
    end: GridView,
)
    requires
        mid.res.volume() <= u32::MAX,
        slumps(mid, f, limit, iterations, band, end),
        is_distinct(mid),
        is_air(band),
        fits_under(mid, f, limit, iterations),
    ensures
        clay(end).finite(),
        clay(end).len() == clay(mid).len(),
{
    f.lemma_wf();
    if f.count() == 0 {
        assert forall|v: UVec3| #[trigger] clay(mid).contains(v) <==> clay(end).contains(v) by {
            if in_domain(mid.res, v) {
                assert(end.at(v.x as int, v.y as int, v.z as int) == mid.at(
                    v.x as int,
                    v.y as int,
                    v.z as int,
                ));
            }
        }
        assert(clay(mid) =~= clay(end));
        lemma_clay_finite(mid);
    } else {
        let (lo, hi) = (slump_lo(f), slump_hi(f));
        let (a, b) = (flat_lo(lo), flat_hi(hi));
        let before = packed(mid, lo, hi);
        let heights = heap(mid, f, limit, iterations);
        let top = heap_hi(f, heights);
        let w = lemma_some_clay(mid, f);
        lemma_clay_in_region(mid, f, w);
        lemma_packed(mid, lo, hi);
        assert forall|v: UVec3| #[trigger] solid_voxel(mid, v) implies in_box(
            a,
            b,
            v.x as int,
            0,
            v.z as int,
        ) && v.y < hi.y by {
            lemma_clay_in_region(mid, f, v);
        }
        lemma_clay_total(mid, lo, hi, hi.y as nat, before);
        lemma_few(mid, lo, hi, before);
        law_pile_conserves_total(before, a, b, limit, iterations as nat);
        lemma_heap_counts(mid, f, limit, iterations, band, end);
        assert forall|v: UVec3| #[trigger] solid_voxel(end, v) implies in_box(
            a,
            b,
            v.x as int,
            0,
            v.z as int,
        ) && v.y < top.y by {
            assert(in_domain(mid.res, v));
            if !in_box(lo, top, v.x as int, v.y as int, v.z as int) {
                assert(end.at(v.x as int, v.y as int, v.z as int) == mid.at(
                    v.x as int,
                    v.y as int,
                    v.z as int,
                ));
                assert(solid_voxel(mid, v));
                lemma_clay_in_region(mid, f, v);
            }
        }
        lemma_clay_total(end, lo, hi, top.y as nat, heights);
    }
}

/// Where there is a piece, there is clay.
proof fn lemma_some_clay(g: GridView, f: ComponentField) -> (v: UVec3)
    requires
        f.labels(g),
        f.count() > 0,
    ensures
        solid_voxel(g, v),
{
    f.lemma_wf();
    assert(worn(f@, f.domain(), 1));
    let v = choose|v: UVec3| in_domain(f.domain(), v) && #[trigger] label(f@, f.domain(), v) == 1;
    assert(f.id(v) == 1);
    v
}

/// The packed columns add up to no more than the domain has voxels.
proof fn lemma_few(g: GridView, lo: UVec3, hi: UVec3, before: Seq<u32>)
    requires
        lo.y == 0,
        lo.x <= hi.x <= g.res.x,
        hi.y <= g.res.y,
        lo.z <= hi.z <= g.res.z,
        g.res.volume() <= u32::MAX,
        counts_columns(g, lo, hi, hi.y as nat, before),
    ensures
        total(before) <= u32::MAX,
{
    let (a, b) = (flat_lo(lo), flat_hi(hi));
    assert forall|i: int| 0 <= i < before.len() implies #[trigger] before[i] <= hi.y by {
        lemma_column_bound(
            g,
            box_cell(a, b, i).x as int,
            box_cell(a, b, i).z as int,
            hi.y as nat,
        );
    }
    lemma_total_bound(before, hi.y as nat);
    lemma_box_fits(lo, hi, g.res);
    let (x, y, z) = (span(lo.x, hi.x), hi.y as int, span(lo.z, hi.z));
    assert((x * 1 * z) * y == x * y * z) by (nonlinear_arith);
}

/// A settle keeps the clay: where no two voxels fall on one place and the heap does not
/// reach through the top of the domain, as many voxels are solid after it as before.
pub proof fn law_settle_keeps_clay(
    g: GridView,
    f: ComponentField,
    mid: GridView,
    after: ComponentField,
    limit: u32,
    iterations: u32,
    band: Seq<u32>,
    end: GridView,
)
    requires
        f.labels(g),
        is_crisp(g),
        g.res.y <= 0x8000_0000,
        g.res.volume() <= u32::MAX,
        lt(0, g.voxel_size),
        !nearly_equal(g.voxel_size, 0),
        rests(g, f, mid),
        land_apart(f, drops(f, f.count() as nat)),
        slumps(mid, after, limit, iterations, band, end),
        is_air(band),
        fits_under(mid, after, limit, iterations),
    ensures
        clay(end).len() == clay(g).len(),
{
    law_rest_keeps_clay(g, f, mid);
    assert forall|v: UVec3| #[trigger] solid_voxel(mid, v) implies !nearly_equal(
        mid.at(v.x as int, v.y as int, v.z as int),
        0,
    ) by {
        law_clay_is_where_it_lands(g, f, drops(f, f.count() as nat), v);
        lemma_moved_not_nearly_zero(mid.at(v.x as int, v.y as int, v.z as int));
    }
    law_slump_keeps_clay(mid, after, limit, iterations, band, end);
}

} // verus!
