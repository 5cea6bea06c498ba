//! Sandpile over a rectangle of columns.
//!
//! A column taller than the limit gives one unit to its lowest neighbour in
//! each pass; of equally low neighbours the first in a fixed order of
//! directions is taken.

use crate::region::{box_cell, box_count, box_number, cell_of, in_box, lemma_box_cell, lemma_box_number, lemma_box_number_injective, number_of};
use crate::vec3::UVec3;
use vstd::prelude::*;

verus! {

/// A rectangle of columns: the cells of a box of height one.
pub open spec fn is_flat(lo: UVec3, hi: UVec3) -> bool {
    &&& lo.x < hi.x
    &&& lo.z < hi.z
    &&& lo.y == 0
    &&& hi.y == 1
}

/// Step of direction `d` along x.
pub open spec fn step_x(d: int) -> int {
    if d == 0 || d == 4 || d == 6 {
        1
    } else if d == 1 || d == 5 || d == 7 {
        -1
    } else {
        0
    }
}

/// Step of direction `d` along z.
pub open spec fn step_z(d: int) -> int {
    if d == 2 || d == 4 || d == 5 {
        1
    } else if d == 3 || d == 6 || d == 7 {
        -1
    } else {
        0
    }
}

/// The column beside column `i` in direction `d`, if there is one.
pub open spec fn column_beside(lo: UVec3, hi: UVec3, i: int, d: int) -> Option<int> {
    let c = box_cell(lo, hi, i);
    let (x, z) = (c.x + step_x(d), c.z + step_z(d));
    if in_box(lo, hi, x, 0, z) {
        Some(box_number(lo, hi, x, 0, z))
    } else {
        None
    }
}

/// The lowest of the columns beside column `i` in the first `n` directions.
pub open spec fn lowest(counts: Seq<u32>, lo: UVec3, hi: UVec3, i: int, n: nat) -> Option<int>
    decreases n,
{
    if n == 0 {
        None
    } else {
        let before = lowest(counts, lo, hi, i, (n - 1) as nat);
        match column_beside(lo, hi, i, n - 1) {
            None => before,
            Some(j) => match before {
                None => Some(j),
                Some(b) => if counts[j] < counts[b] {
                    Some(j)
                } else {
                    before
                },
            },
        }
    }
}

/// Column `i` gives one unit to its lowest neighbour.
pub open spec fn topple(counts: Seq<u32>, lo: UVec3, hi: UVec3, i: int) -> Seq<u32> {
    match lowest(counts, lo, hi, i, 8) {
        None => counts,
        Some(j) => counts.update(i, (counts[i] - 1) as u32).update(j, (counts[j] + 1) as u32),
    }
}

/// The columns after the first `n` of them had their turn in a pass. Whether a
/// column gives is decided by its height before the pass.
pub open spec fn after_turns(prev: Seq<u32>, lo: UVec3, hi: UVec3, limit: u32, n: nat) -> Seq<u32>
    decreases n,
{
    if n == 0 {
        prev
    } else {
        let c = after_turns(prev, lo, hi, limit, (n - 1) as nat);
        if prev[n - 1] > limit {
            topple(c, lo, hi, n - 1)
        } else {
            c
        }
    }
}

/// Some column among the first `n` is too tall and has a neighbour.
pub open spec fn any_gives(prev: Seq<u32>, lo: UVec3, hi: UVec3, limit: u32, n: int) -> bool {
    exists|i: int|
        0 <= i < n && #[trigger] prev[i] > limit && lowest(prev, lo, hi, i, 8) is Some
}

/// No column is taller than the limit.
pub open spec fn all_stable(counts: Seq<u32>, limit: u32) -> bool {
    forall|i: int| 0 <= i < counts.len() ==> #[trigger] counts[i] <= limit
}

/// The columns after at most `k` passes: it ends early when nothing moves, or
/// when every column is stable.
pub open spec fn piled(counts: Seq<u32>, lo: UVec3, hi: UVec3, limit: u32, k: nat) -> Seq<u32>
    decreases k,
{
    if k == 0 {
        counts
    } else {
        let next = after_turns(counts, lo, hi, limit, counts.len());
        if !any_gives(counts, lo, hi, limit, counts.len() as int) || all_stable(next, limit) {
            next
        } else {
            piled(next, lo, hi, limit, (k - 1) as nat)
        }
    }
}

/// Number of passes that are run, out of at most `k`.
pub open spec fn passes(counts: Seq<u32>, lo: UVec3, hi: UVec3, limit: u32, k: nat) -> nat
    decreases k,
{
    if k == 0 {
        0
    } else {
        let next = after_turns(counts, lo, hi, limit, counts.len());
        if !any_gives(counts, lo, hi, limit, counts.len() as int) || all_stable(next, limit) {
            1
        } else {
            1 + passes(next, lo, hi, limit, (k - 1) as nat)
        }
    }
}

/// Units in all columns together.
pub open spec fn total(counts: Seq<u32>) -> nat
    decreases counts.len(),
{
    if counts.len() == 0 {
        0
    } else {
        total(counts.drop_last()) + counts.last() as nat
    }
}

proof fn lemma_total_update(counts: Seq<u32>, i: int, v: u32)
    requires
        0 <= i < counts.len(),
    ensures
        total(counts.update(i, v)) == total(counts) - counts[i] + v,
    decreases counts.len(),
{
    let new = counts.update(i, v);
    if i == counts.len() - 1 {
        assert(new.drop_last() =~= counts.drop_last());
    } else {
        assert(new.drop_last() =~= counts.drop_last().update(i, v));
        lemma_total_update(counts.drop_last(), i, v);
    }
}

proof fn lemma_total_at_least(counts: Seq<u32>, i: int, j: int)
    requires
        0 <= i < counts.len(),
        0 <= j < counts.len(),
    ensures
        counts[i] <= total(counts),
        i != j ==> counts[i] + counts[j] <= total(counts),
    decreases counts.len(),
{
    let last = counts.len() - 1;
    if i < last && j < last {
        lemma_total_at_least(counts.drop_last(), i, j);
    } else if i < last {
        lemma_total_at_least(counts.drop_last(), i, i);
    } else if j < last {
        lemma_total_at_least(counts.drop_last(), j, j);
    }
}

/// A neighbour is another column of the rectangle.
proof fn lemma_lowest(counts: Seq<u32>, lo: UVec3, hi: UVec3, i: int, n: nat)
    requires
        is_flat(lo, hi),
        0 <= i < box_count(lo, hi),
        n <= 8,
    ensures
        lowest(counts, lo, hi, i, n) matches Some(j) ==> 0 <= j < box_count(lo, hi) && j != i,
    decreases n,
{
    if n > 0 {
        lemma_lowest(counts, lo, hi, i, (n - 1) as nat);
        lemma_box_cell(lo, hi, i);
        let c = box_cell(lo, hi, i);
        let (x, z) = (c.x + step_x(n - 1), c.z + step_z(n - 1));
        if in_box(lo, hi, x, 0, z) {
            lemma_box_number(lo, hi, x, 0, z);
        }
    }
}

/// Whether a column has a neighbour does not depend on the heights.
proof fn lemma_lowest_some(a: Seq<u32>, b: Seq<u32>, lo: UVec3, hi: UVec3, i: int, n: nat)
    ensures
        lowest(a, lo, hi, i, n) is Some == lowest(b, lo, hi, i, n) is Some,
    decreases n,
{
    if n > 0 {
        lemma_lowest_some(a, b, lo, hi, i, (n - 1) as nat);
    }
}

/// Toppling moves one unit: the total stays, column `i` alone loses.
proof fn lemma_topple(counts: Seq<u32>, lo: UVec3, hi: UVec3, i: int)
    requires
        is_flat(lo, hi),
        0 <= i < box_count(lo, hi),
        counts.len() == box_count(lo, hi),
        counts[i] >= 1,
        total(counts) <= u32::MAX,
    ensures
        topple(counts, lo, hi, i).len() == counts.len(),
        total(topple(counts, lo, hi, i)) == total(counts),
        forall|k: int|
            0 <= k < counts.len() && k != i ==> #[trigger] topple(counts, lo, hi, i)[k] >= counts[k],
{
    lemma_lowest(counts, lo, hi, i, 8);
    if let Some(j) = lowest(counts, lo, hi, i, 8) {
        lemma_total_at_least(counts, i, j);
        let one = counts.update(i, (counts[i] - 1) as u32);
        lemma_total_update(counts, i, (counts[i] - 1) as u32);
        lemma_total_update(one, j, (counts[j] + 1) as u32);
    }
}

/// A pass keeps the total, and before its turn no column has lost anything.
proof fn lemma_turns(prev: Seq<u32>, lo: UVec3, hi: UVec3, limit: u32, n: nat)
    requires
        is_flat(lo, hi),
        prev.len() == box_count(lo, hi),
        n <= prev.len(),
        total(prev) <= u32::MAX,
    ensures
        after_turns(prev, lo, hi, limit, n).len() == prev.len(),
        total(after_turns(prev, lo, hi, limit, n)) == total(prev),
        forall|k: int|
            n <= k < prev.len() ==> #[trigger] after_turns(prev, lo, hi, limit, n)[k] >= prev[k],
    decreases n,
{
    if n > 0 {
        lemma_turns(prev, lo, hi, limit, (n - 1) as nat);
        let c = after_turns(prev, lo, hi, limit, (n - 1) as nat);
        if prev[n - 1] > limit {
            assert(c[n - 1] >= prev[n - 1]);
            lemma_topple(c, lo, hi, n - 1);
        }
    }
}

/// Clay is neither lost nor made: the sandpile keeps the total.
pub proof fn law_pile_conserves_total(counts: Seq<u32>, lo: UVec3, hi: UVec3, limit: u32, k: nat)
    requires
        is_flat(lo, hi),
        counts.len() == box_count(lo, hi),
        total(counts) <= u32::MAX,
    ensures
        piled(counts, lo, hi, limit, k).len() == counts.len(),
        total(piled(counts, lo, hi, limit, k)) == total(counts),
    decreases k,
{
    if k > 0 {
        lemma_turns(counts, lo, hi, limit, counts.len());
        let next = after_turns(counts, lo, hi, limit, counts.len());
        if any_gives(counts, lo, hi, limit, counts.len() as int) && !all_stable(next, limit) {
            law_pile_conserves_total(next, lo, hi, limit, (k - 1) as nat);
        }
    }
}

/// A heap whose columns are all stable stays as it is.
pub proof fn law_stable_pile_stays(counts: Seq<u32>, lo: UVec3, hi: UVec3, limit: u32, k: nat)
    requires
        all_stable(counts, limit),
    ensures
        piled(counts, lo, hi, limit, k) == counts,
{
    if k > 0 {
        lemma_stable_turns(counts, lo, hi, limit, counts.len());
    }
}

proof fn lemma_stable_turns(counts: Seq<u32>, lo: UVec3, hi: UVec3, limit: u32, n: nat)
    requires
        all_stable(counts, limit),
        n <= counts.len(),
    ensures
        after_turns(counts, lo, hi, limit, n) == counts,
    decreases n,
{
    if n > 0 {
        lemma_stable_turns(counts, lo, hi, limit, (n - 1) as nat);
        assert(counts[n - 1] <= limit);
    }
}

/// Of two steps to a neighbouring column, the first is preferred over the second:
/// straight ones over diagonal ones; of the straight ones, those along x over those
/// along z, and a step up the axis over one down; of the diagonal ones, those up z over
/// those down, and then those up x over those down.
pub open spec fn preferred(dx: int, dz: int, ex: int, ez: int) -> bool {
    let straight = dx == 0 || dz == 0;
    let other = ex == 0 || ez == 0;
    if straight != other {
        straight
    } else if straight {
        if (dx != 0) != (ex != 0) {
            dx != 0
        } else {
            dx + dz > ex + ez
        }
    } else if dz != ez {
        dz > ez
    } else {
        dx > ex
    }
}

/// What the search for the lowest neighbour has found after `n` directions.
proof fn lemma_lowest_so_far(counts: Seq<u32>, lo: UVec3, hi: UVec3, i: int, n: nat)
    requires
        is_flat(lo, hi),
        0 <= i < box_count(lo, hi),
        n <= 8,
    ensures
        match lowest(counts, lo, hi, i, n) {
            Some(j) => {
                &&& exists|e: int| 0 <= e < n && #[trigger] column_beside(lo, hi, i, e) == Some(j)
                &&& forall|d: int, k: int|
                    0 <= d < n && #[trigger] column_beside(lo, hi, i, d) == Some(k) ==> {
                        &&& counts[j] <= #[trigger] counts[k]
                        &&& counts[j] == counts[k] ==> exists|e: int|
                            0 <= e <= d && #[trigger] column_beside(lo, hi, i, e) == Some(j)
                    }
            },
            None => forall|d: int| 0 <= d < n ==> #[trigger] column_beside(lo, hi, i, d) is None,
        },
    decreases n,
{
    if n > 0 {
        lemma_lowest_so_far(counts, lo, hi, i, (n - 1) as nat);
        if let Some(j) = lowest(counts, lo, hi, i, n) {
            if column_beside(lo, hi, i, n - 1) is Some {
                let here = column_beside(lo, hi, i, n - 1)->0;
                assert(column_beside(lo, hi, i, n - 1) == Some(here));
            }
            let before = lowest(counts, lo, hi, i, (n - 1) as nat);
            if before is Some {
                let b = before->0;
                let e = choose|e: int|
                    0 <= e < n - 1 && #[trigger] column_beside(lo, hi, i, e) == Some(b);
                assert(counts[b] <= counts[b]);
                assert(column_beside(lo, hi, i, e) == Some(b));
            }
            assert forall|d: int, k: int|
                0 <= d < n && #[trigger] column_beside(lo, hi, i, d) == Some(k) implies {
                &&& counts[j] <= #[trigger] counts[k]
                &&& counts[j] == counts[k] ==> exists|e: int|
                    0 <= e <= d && #[trigger] column_beside(lo, hi, i, e) == Some(j)
            } by {
                if d == n - 1 {
                    assert(column_beside(lo, hi, i, n - 1) == Some(k));
                } else {
                    let b = before->0;
                    assert(counts[b] <= counts[k]);
                }
            }
        }
    }
}

/// The lowest neighbour of a column is another column of the rectangle, at most one
/// away along x and along z, and no other such column is lower; among equally low ones
/// it is the preferred one. There is one whenever the rectangle has another column that
/// near.
pub proof fn law_lowest_neighbour(counts: Seq<u32>, lo: UVec3, hi: UVec3, x: int, z: int)
    requires
        is_flat(lo, hi),
        in_box(lo, hi, x, 0, z),
    ensures
        match lowest(counts, lo, hi, box_number(lo, hi, x, 0, z), 8) {
            Some(j) => exists|a: int, b: int|
                {
                    &&& j == #[trigger] box_number(lo, hi, a, 0, b)
                    &&& in_box(lo, hi, a, 0, b)
                    &&& (a, b) != (x, z)
                    &&& -1 <= a - x <= 1
                    &&& -1 <= b - z <= 1
                    &&& forall|p: int, q: int|
                        in_box(lo, hi, p, 0, q) && (p, q) != (x, z) && (p, q) != (a, b) && -1 <= p - x
                            <= 1 && -1 <= q - z <= 1 ==> {
                            &&& counts[j] <= counts[#[trigger] box_number(lo, hi, p, 0, q)]
                            &&& counts[j] == counts[box_number(lo, hi, p, 0, q)] ==> preferred(
                                a - x,
                                b - z,
                                p - x,
                                q - z,
                            )
                        }
                },
            None => forall|p: int, q: int|
                #![trigger in_box(lo, hi, p, 0, q)]
                (p, q) != (x, z) && -1 <= p - x <= 1 && -1 <= q - z <= 1 ==> !in_box(lo, hi, p, 0, q),
        },
{
    match lowest(counts, lo, hi, box_number(lo, hi, x, 0, z), 8) {
        Some(j) => {
            let (a, b) = lemma_lowest_place(counts, lo, hi, x, z, j);
            assert(j == box_number(lo, hi, a, 0, b));
            assert forall|p: int, q: int|
                in_box(lo, hi, p, 0, q) && (p, q) != (x, z) && (p, q) != (a, b) && -1 <= p - x <= 1
                    && -1 <= q - z <= 1 implies {
                &&& counts[j] <= counts[#[trigger] box_number(lo, hi, p, 0, q)]
                &&& counts[j] == counts[box_number(lo, hi, p, 0, q)] ==> preferred(
                    a - x,
                    b - z,
                    p - x,
                    q - z,
                )
            } by {
                lemma_lowest_against(counts, lo, hi, x, z, j, a, b, p, q);
            }
        },
        None => {
            assert forall|p: int, q: int|
                #![trigger in_box(lo, hi, p, 0, q)]
                (p, q) != (x, z) && -1 <= p - x <= 1 && -1 <= q - z <= 1 implies !in_box(
                lo,
                hi,
                p,
                0,
                q,
            ) by {
                lemma_lowest_none(counts, lo, hi, x, z, p, q);
            }
        },
    }
}

/// Where the lowest neighbour stands.
proof fn lemma_lowest_place(counts: Seq<u32>, lo: UVec3, hi: UVec3, x: int, z: int, j: int) -> (r: (
    int,
    int,
))
    requires
        is_flat(lo, hi),
        in_box(lo, hi, x, 0, z),
        lowest(counts, lo, hi, box_number(lo, hi, x, 0, z), 8) == Some(j),
    ensures
        j == box_number(lo, hi, r.0, 0, r.1),
        in_box(lo, hi, r.0, 0, r.1),
        r != (x, z),
        -1 <= r.0 - x <= 1,
        -1 <= r.1 - z <= 1,
{
    let i = box_number(lo, hi, x, 0, z);
    lemma_box_number(lo, hi, x, 0, z);
    lemma_lowest_so_far(counts, lo, hi, i, 8);
    let d = choose|d: int| 0 <= d < 8 && #[trigger] column_beside(lo, hi, i, d) == Some(j);
    lemma_beside(lo, hi, x, z, d);
    (x + step_x(d), z + step_z(d))
}

/// A column without a neighbour has none in any direction.
proof fn lemma_lowest_none(counts: Seq<u32>, lo: UVec3, hi: UVec3, x: int, z: int, p: int, q: int)
    requires
        is_flat(lo, hi),
        in_box(lo, hi, x, 0, z),
        lowest(counts, lo, hi, box_number(lo, hi, x, 0, z), 8) is None,
        (p, q) != (x, z),
        -1 <= p - x <= 1,
        -1 <= q - z <= 1,
    ensures
        !in_box(lo, hi, p, 0, q),
{
    let i = box_number(lo, hi, x, 0, z);
    lemma_box_number(lo, hi, x, 0, z);
    lemma_lowest_so_far(counts, lo, hi, i, 8);
    lemma_step_there(p - x, q - z);
    let e = choose|e: int| 0 <= e < 8 && #[trigger] step_x(e) == p - x && step_z(e) == q - z;
    lemma_beside(lo, hi, x, z, e);
    assert(column_beside(lo, hi, i, e) is None);
}

/// The column beside one that is given by its coordinates.
proof fn lemma_beside(lo: UVec3, hi: UVec3, x: int, z: int, d: int)
    requires
        in_box(lo, hi, x, 0, z),
    ensures
        column_beside(lo, hi, box_number(lo, hi, x, 0, z), d) == (if in_box(
            lo,
            hi,
            x + step_x(d),
            0,
            z + step_z(d),
        ) {
            Some(box_number(lo, hi, x + step_x(d), 0, z + step_z(d)))
        } else {
            None::<int>
        }),
{
    lemma_box_number(lo, hi, x, 0, z);
}

/// The lowest neighbour, at `(a, b)`, held against another one, at `(p, q)`.
proof fn lemma_lowest_against(
    counts: Seq<u32>,
    lo: UVec3,
    hi: UVec3,
    x: int,
    z: int,
    j: int,
    a: int,
    b: int,
    p: int,
    q: int,
)
    requires
        is_flat(lo, hi),
        in_box(lo, hi, x, 0, z),
        lowest(counts, lo, hi, box_number(lo, hi, x, 0, z), 8) == Some(j),
        in_box(lo, hi, a, 0, b),
        j == box_number(lo, hi, a, 0, b),
        in_box(lo, hi, p, 0, q),
        (p, q) != (x, z),
        (p, q) != (a, b),
        -1 <= p - x <= 1,
        -1 <= q - z <= 1,
    ensures
        counts[j] <= counts[box_number(lo, hi, p, 0, q)],
        counts[j] == counts[box_number(lo, hi, p, 0, q)] ==> preferred(a - x, b - z, p - x, q - z),
{
    let i = box_number(lo, hi, x, 0, z);
    lemma_box_number(lo, hi, x, 0, z);
    lemma_lowest_so_far(counts, lo, hi, i, 8);
    lemma_step_there(p - x, q - z);
    let e = choose|e: int| 0 <= e < 8 && #[trigger] step_x(e) == p - x && step_z(e) == q - z;
    lemma_beside(lo, hi, x, z, e);
    let k = box_number(lo, hi, p, 0, q);
    assert(x + step_x(e) == p && z + step_z(e) == q);
    assert(column_beside(lo, hi, i, e) == Some(k));
    assert(counts[j] <= counts[k]);
    if counts[j] == counts[k] {
        let f = choose|f: int| 0 <= f <= e && #[trigger] column_beside(lo, hi, i, f) == Some(j);
        lemma_beside(lo, hi, x, z, f);
        let (s, t) = (x + step_x(f), z + step_z(f));
        assert(in_box(lo, hi, s, 0, t));
        assert(box_number(lo, hi, s, 0, t) == j);
        lemma_box_number_injective(lo, hi, s, 0, t, a, 0, b);
        lemma_step_order(f, e);
    }
}

/// Every neighbouring column lies in one of the directions.
proof fn lemma_step_there(dx: int, dz: int)
    requires
        -1 <= dx <= 1,
        -1 <= dz <= 1,
        (dx, dz) != (0int, 0int),
    ensures
        exists|d: int| 0 <= d < 8 && #[trigger] step_x(d) == dx && step_z(d) == dz,
{
    assert(step_x(0) == 1 && step_z(0) == 0);
    assert(step_x(1) == -1 && step_z(1) == 0);
    assert(step_x(2) == 0 && step_z(2) == 1);
    assert(step_x(3) == 0 && step_z(3) == -1);
    assert(step_x(4) == 1 && step_z(4) == 1);
    assert(step_x(5) == -1 && step_z(5) == 1);
    assert(step_x(6) == 1 && step_z(6) == -1);
    assert(step_x(7) == -1 && step_z(7) == -1);
}

/// The directions are tried in the order of preference.
proof fn lemma_step_order(d: int, e: int)
    requires
        0 <= d <= e < 8,
    ensures
        d == e || preferred(step_x(d), step_z(d), step_x(e), step_z(e)),
{
}

/// A turn in a pass touches nothing unless the column was too tall before the pass and
/// has a neighbour. Then one unit goes from the column to its lowest neighbour, and every
/// other column keeps its height.
pub proof fn law_turn_moves_one_unit(prev: Seq<u32>, lo: UVec3, hi: UVec3, limit: u32, n: nat)
    requires
        is_flat(lo, hi),
        prev.len() == box_count(lo, hi),
        n < prev.len(),
        total(prev) <= u32::MAX,
    ensures
        ({
            let before = after_turns(prev, lo, hi, limit, n);
            let after = after_turns(prev, lo, hi, limit, n + 1);
            &&& after_turns(prev, lo, hi, limit, 0) == prev
            &&& before.len() == prev.len()
            &&& after.len() == prev.len()
            &&& match lowest(before, lo, hi, n as int, 8) {
                Some(j) if prev[n as int] > limit => {
                    &&& 0 <= j < prev.len()
                    &&& j != n
                    &&& after[n as int] == before[n as int] - 1
                    &&& after[j] == before[j] + 1
                    &&& forall|k: int|
                        0 <= k < prev.len() && k != n && k != j ==> #[trigger] after[k] == before[k]
                },
                _ => after == before,
            }
        }),
{
    lemma_turns(prev, lo, hi, limit, n);
    lemma_turns(prev, lo, hi, limit, n + 1);
    let before = after_turns(prev, lo, hi, limit, n);
    lemma_lowest(before, lo, hi, n as int, 8);
    if let Some(j) = lowest(before, lo, hi, n as int, 8) {
        assert(before[n as int] >= prev[n as int]);
        lemma_total_at_least(before, n as int, j);
    }
}

/// A heap that stops slumping before its passes are used up has come to rest: no column
/// is too tall, or the rectangle is a single column, which has nowhere to slump to. One
/// pass gives every column one turn, and passes follow one another.
pub proof fn law_pile_comes_to_rest(counts: Seq<u32>, lo: UVec3, hi: UVec3, limit: u32, k: nat)
    requires
        is_flat(lo, hi),
        counts.len() == box_count(lo, hi),
        total(counts) <= u32::MAX,
    ensures
        passes(counts, lo, hi, limit, k) <= k,
        k > 0 ==> passes(counts, lo, hi, limit, k) > 0,
        passes(counts, lo, hi, limit, k) < k ==> all_stable(
            piled(counts, lo, hi, limit, k),
            limit,
        ) || (hi.x - lo.x == 1 && hi.z - lo.z == 1),
        piled(counts, lo, hi, limit, 0) == counts,
        piled(counts, lo, hi, limit, 1) == after_turns(counts, lo, hi, limit, counts.len()),
        piled(counts, lo, hi, limit, k + 1) == piled(
            piled(counts, lo, hi, limit, 1),
            lo,
            hi,
            limit,
            k,
        ) || all_stable(piled(counts, lo, hi, limit, 1), limit) || (hi.x - lo.x == 1 && hi.z - lo.z
            == 1),
    decreases k,
{
    let next = after_turns(counts, lo, hi, limit, counts.len());
    lemma_turns(counts, lo, hi, limit, counts.len());
    reveal_with_fuel(piled, 2);
    if !any_gives(counts, lo, hi, limit, counts.len() as int) {
        lemma_none_gives(counts, lo, hi, limit, counts.len());
        if hi.x - lo.x != 1 || hi.z - lo.z != 1 {
            assert forall|i: int| 0 <= i < counts.len() implies #[trigger] counts[i] <= limit by {
                lemma_box_cell(lo, hi, i);
                let c = box_cell(lo, hi, i);
                let (x, z) = (c.x as int, c.z as int);
                law_lowest_neighbour(counts, lo, hi, x, z);
                assert(in_box(lo, hi, x + 1, 0, z) || in_box(lo, hi, x - 1, 0, z) || in_box(
                    lo,
                    hi,
                    x,
                    0,
                    z + 1,
                ) || in_box(lo, hi, x, 0, z - 1));
            }
        }
    } else if !all_stable(next, limit) && k > 0 {
        law_pile_comes_to_rest(next, lo, hi, limit, (k - 1) as nat);
    }
}

proof fn lemma_none_gives(counts: Seq<u32>, lo: UVec3, hi: UVec3, limit: u32, n: nat)
    requires
        !any_gives(counts, lo, hi, limit, counts.len() as int),
        n <= counts.len(),
    ensures
        after_turns(counts, lo, hi, limit, n) == counts,
    decreases n,
{
    if n > 0 {
        lemma_none_gives(counts, lo, hi, limit, (n - 1) as nat);
        if counts[n - 1] > limit {
            assert(lowest(counts, lo, hi, n - 1, 8) is None);
        }
    }
}

fn shift(v: u32, d: i32, lo: u32, hi: u32) -> (r: Option<u32>)
    requires
        -1 <= d <= 1,
        lo <= v < hi,
    ensures
        r matches Some(w) ==> w == v + d && lo <= w < hi,
        r is None ==> !(lo <= v + d < hi),
{
    if d == 0 {
        Some(v)
    } else if d == 1 {
        if v + 1 < hi {
            Some(v + 1)
        } else {
            None
        }
    } else {
        if v > lo {
            Some(v - 1)
        } else {
            None
        }
    }
}

fn beside_x(d: usize) -> (r: i32)
    requires
        d < 8,
    ensures
        r == step_x(d as int),
        -1 <= r <= 1,
{
    if d == 0 || d == 4 || d == 6 {
        1
    } else if d == 1 || d == 5 || d == 7 {
        -1
    } else {
        0
    }
}

fn beside_z(d: usize) -> (r: i32)
    requires
        d < 8,
    ensures
        r == step_z(d as int),
        -1 <= r <= 1,
{
    if d == 2 || d == 4 || d == 5 {
        1
    } else if d == 3 || d == 6 || d == 7 {
        -1
    } else {
        0
    }
}

fn find_lowest(counts: &Vec<u32>, lo: UVec3, hi: UVec3, i: usize) -> (r: Option<usize>)
    requires
        is_flat(lo, hi),
        counts.len() == box_count(lo, hi),
        i < counts.len(),
    ensures
        r is Some == lowest(counts@, lo, hi, i as int, 8) is Some,
        r matches Some(j) ==> lowest(counts@, lo, hi, i as int, 8) == Some(j as int),
{
    let c = cell_of(lo, hi, i);
    let mut best: Option<usize> = None;
    let mut d: usize = 0;
    while d < 8
        invariant
            d <= 8,
            is_flat(lo, hi),
            counts.len() == box_count(lo, hi),
            i < counts.len(),
            c == box_cell(lo, hi, i as int),
            in_box(lo, hi, c.x as int, c.y as int, c.z as int),
            best is Some == lowest(counts@, lo, hi, i as int, d as nat) is Some,
            best matches Some(j) ==> lowest(counts@, lo, hi, i as int, d as nat) == Some(j as int) && j
                < counts.len(),
        decreases 8 - d,
    {
        let x: Option<u32> = shift(c.x, beside_x(d), lo.x, hi.x);
        let z: Option<u32> = shift(c.z, beside_z(d), lo.z, hi.z);
        if let Some(tx) = x {
            if let Some(tz) = z {
                let j: usize = number_of(lo, hi, tx, 0, tz);
                match best {
                    None => {
                        best = Some(j);
                    },
                    Some(b) => {
                        if counts[j] < counts[b] {
                            best = Some(j);
                        }
                    },
                }
            }
        }
        d = d + 1;
    }
    best
}

/// Let the columns slump for at most `iterations` passes; the result is the
/// number of passes that were run.
pub fn slump(counts: &mut Vec<u32>, lo: UVec3, hi: UVec3, limit: u32, iterations: u32) -> (r: u32)
    requires
        is_flat(lo, hi),
        old(counts).len() == box_count(lo, hi),
        total(old(counts)@) <= u32::MAX,
    ensures
        final(counts)@ == piled(old(counts)@, lo, hi, limit, iterations as nat),
        r == passes(old(counts)@, lo, hi, limit, iterations as nat),
        total(final(counts)@) == total(old(counts)@),
{
    let ghost start = counts@;
    proof {
        law_pile_conserves_total(start, lo, hi, limit, iterations as nat);
    }
    let n: usize = counts.len();
    let mut run: u32 = 0;
    while run < iterations
        invariant
            run <= iterations,
            start == old(counts)@,
            total(piled(start, lo, hi, limit, iterations as nat)) == total(start),
            is_flat(lo, hi),
            n == box_count(lo, hi),
            counts.len() == n,
            total(counts@) <= u32::MAX,
            piled(start, lo, hi, limit, iterations as nat) == piled(
                counts@,
                lo,
                hi,
                limit,
                (iterations - run) as nat,
            ),
            passes(start, lo, hi, limit, iterations as nat) == run + passes(
                counts@,
                lo,
                hi,
                limit,
                (iterations - run) as nat,
            ),
        decreases iterations - run,
    {
        run = run + 1;
        let prev: Vec<u32> = counts.clone();
        assert(prev@ =~= counts@);
        let mut moved: bool = false;
        let mut i: usize = 0;
        while i < n
            invariant
                i <= n,
                is_flat(lo, hi),
                n == box_count(lo, hi),
                prev.len() == n,
                total(prev@) <= u32::MAX,
                counts@ == after_turns(prev@, lo, hi, limit, i as nat),
                counts.len() == n,
                moved == any_gives(prev@, lo, hi, limit, i as int),
            decreases n - i,
        {
            proof {
                lemma_turns(prev@, lo, hi, limit, i as nat);
                lemma_lowest_some(prev@, counts@, lo, hi, i as int, 8);
                lemma_lowest(counts@, lo, hi, i as int, 8);
                assert(any_gives(prev@, lo, hi, limit, i + 1) == (any_gives(
                    prev@,
                    lo,
                    hi,
                    limit,
                    i as int,
                ) || (prev@[i as int] > limit && lowest(prev@, lo, hi, i as int, 8) is Some))) by {
                    if any_gives(prev@, lo, hi, limit, i as int) {
                        let k = choose|k: int|
                            0 <= k < i && #[trigger] prev@[k] > limit && lowest(prev@, lo, hi, k, 8) is Some;
                        assert(0 <= k < i + 1 && prev@[k] > limit);
                    }
                }
            }
            if prev[i] > limit {
                let low: Option<usize> = find_lowest(counts, lo, hi, i);
                if let Some(j) = low {
                    proof {
                        lemma_total_at_least(counts@, i as int, j as int);
                    }
                    let gives: u32 = counts[i];
                    let takes: u32 = counts[j];
                    counts[i] = gives - 1;
                    counts[j] = takes + 1;
                    moved = true;
                }
            }
            i = i + 1;
        }
        proof {
            lemma_turns(prev@, lo, hi, limit, n as nat);
        }
        if !moved {
            return run;
        }
        let mut stable: bool = true;
        let mut k: usize = 0;
        while k < n
            invariant
                k <= n,
                counts.len() == n,
                stable == (forall|q: int| 0 <= q < k ==> #[trigger] counts@[q] <= limit),
            decreases n - k,
        {
            if counts[k] > limit {
                stable = false;
            }
            k = k + 1;
        }
        if stable {
            return run;
        }
    }
    run
}

} // verus!
