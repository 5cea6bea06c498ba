//! Stamps: how a tool changes the samples in a box of voxels.
//!
//! A tool offers a value for each voxel that it reaches: a distance to its
//! surface, or a whole new sample. The value is combined with the sample that is
//! there, held above the workbench, and written if it makes a difference. Every
//! write is journalled with the sample it replaces.

use crate::components::in_domain;
use crate::dirty::DirtyRegion;
use crate::grid::{tile_of, ChunkCoord, Grid, GridView};
use crate::journal::{expand, lemma_records_step, records, records_part, spans_edits, VoxelEdit};
use crate::region::{box_count, box_number, cell_of, in_box, lemma_box_number, span};
use crate::sample::{has_moved, has_stirred, is_nan, larger, less, lt, max_sample, min_sample, moved, negate, negated, num_eq, same_number, smaller, solid, stirred};
use crate::snapshot::box_within;
use crate::vec3::UVec3;
use vstd::prelude::*;

verus! {

/// How an offered value is combined with the sample that is there.
#[derive(Copy, Clone, Debug, PartialEq, Eq, Structural)]
pub enum Combine {
    /// Take the shape whose distance is offered out of the workpiece.
    Subtract,
    /// Add the shape whose distance is offered to the workpiece.
    Unite,
    /// Keep the larger of the two samples.
    Raise,
    /// Take the offered sample.
    Replace,
}

/// Which differences are worth a write.
#[derive(Copy, Clone, Debug, PartialEq, Eq, Structural)]
pub enum Change {
    /// Any other bit pattern.
    Bits,
    /// Any other number.
    Number,
    /// More than 1e-7.
    Stirred,
    /// More than 1e-6.
    Moved,
}

/// What a tool offers: for each voxel of a box in scan order a value, or nothing
/// where the tool does not reach; and for each height of the box how far it lies
/// below the workbench, if there is one.
pub struct Field {
    pub lo: UVec3,
    pub hi: UVec3,
    pub values: Vec<Option<u32>>,
    pub floors: Option<Vec<u32>>,
}

impl Field {
    /// There is an entry for every voxel and for every height.
    pub open spec fn wf(&self) -> bool {
        &&& self.values@.len() == box_count(self.lo, self.hi)
        &&& self.floors matches Some(f) ==> f@.len() == span(self.lo.y, self.hi.y)
    }

    /// The voxel is in the box.
    pub open spec fn has(&self, v: UVec3) -> bool {
        in_box(self.lo, self.hi, v.x as int, v.y as int, v.z as int)
    }

    /// What is offered for a voxel of the box.
    pub open spec fn offer(&self, v: UVec3) -> Option<u32> {
        self.values@[box_number(self.lo, self.hi, v.x as int, v.y as int, v.z as int)]
    }

    /// A sample, held above the workbench.
    pub open spec fn above_bench(&self, v: UVec3, s: u32) -> u32 {
        match self.floors {
            Some(f) => {
                let below = f@[v.y - self.lo.y];
                if lt(s, below) {
                    below
                } else {
                    s
                }
            },
            None => s,
        }
    }
}

/// An offered value combined with the sample that is there.
pub open spec fn combined(op: Combine, old: u32, d: u32) -> u32 {
    match op {
        Combine::Subtract => max_sample(old, negated(d)),
        Combine::Unite => min_sample(old, d),
        Combine::Raise => max_sample(old, d),
        Combine::Replace => d,
    }
}

/// The difference is worth a write.
pub open spec fn differs(change: Change, old: u32, new: u32) -> bool {
    match change {
        Change::Bits => old != new,
        Change::Number => !num_eq(new, old),
        Change::Stirred => stirred(new, old),
        Change::Moved => moved(new, old),
    }
}

/// What a stamp would leave at a voxel of its box that it reaches.
pub open spec fn stamp_value(g: GridView, f: Field, op: Combine, v: UVec3) -> u32 {
    f.above_bench(v, combined(op, g.at(v.x as int, v.y as int, v.z as int), f.offer(v)->0))
}

/// A stamp writes to a voxel.
pub open spec fn stamp_writes(g: GridView, f: Field, op: Combine, change: Change, v: UVec3) -> bool {
    &&& f.has(v)
    &&& f.offer(v) is Some
    &&& differs(change, g.at(v.x as int, v.y as int, v.z as int), stamp_value(g, f, op, v))
}

/// A stamp writes to a voxel of a chunk.
pub open spec fn stamp_writes_chunk(
    g: GridView,
    f: Field,
    op: Combine,
    change: Change,
    c: ChunkCoord,
) -> bool {
    exists|v: UVec3|
        in_domain(g.res, v) && #[trigger] stamp_writes(g, f, op, change, v) && tile_of(
            v.x as int,
            v.y as int,
            v.z as int,
        ) == c
}

/// `after` is what a stamp makes of `before`.
pub open spec fn stamped(before: GridView, after: GridView, f: Field, op: Combine, change: Change) -> bool {
    &&& after.same_domain(before)
    &&& forall|v: UVec3|
        in_domain(before.res, v) ==> #[trigger] after.at(v.x as int, v.y as int, v.z as int) == (
        if stamp_writes(before, f, op, change, v) {
            stamp_value(before, f, op, v)
        } else {
            before.at(v.x as int, v.y as int, v.z as int)
        })
    &&& forall|c: ChunkCoord| #[trigger]
        after.tiles.dom().contains(c) <==> before.tiles.dom().contains(c) || stamp_writes_chunk(
            before,
            f,
            op,
            change,
            c,
        )
}

/// The journal grew by the writes of a stamp.
pub open spec fn stamp_journalled(
    before: GridView,
    f: Field,
    op: Combine,
    change: Change,
    was: Seq<VoxelEdit>,
    now: Seq<VoxelEdit>,
) -> bool {
    &&& was.len() <= now.len()
    &&& now.subrange(0, was.len() as int) == was
    &&& records(
        now.subrange(was.len() as int, now.len() as int),
        before,
        |v: UVec3| stamp_writes(before, f, op, change, v),
    )
}

/// An offered value combined with the sample that is there.
pub fn combine(op: Combine, old: u32, d: u32) -> (r: u32)
    ensures
        r == combined(op, old, d),
{
    match op {
        Combine::Subtract => larger(old, negate(d)),
        Combine::Unite => smaller(old, d),
        Combine::Raise => larger(old, d),
        Combine::Replace => d,
    }
}

/// Whether a difference is worth a write.
pub fn is_change(change: Change, old: u32, new: u32) -> (r: bool)
    ensures
        r == differs(change, old, new),
{
    match change {
        Change::Bits => old != new,
        Change::Number => !same_number(new, old),
        Change::Stirred => has_stirred(new, old),
        Change::Moved => has_moved(new, old),
    }
}

fn hold_above(field: &Field, v: UVec3, s: u32) -> (r: u32)
    requires
        field.wf(),
        field.has(v),
    ensures
        r == field.above_bench(v, s),
{
    match &field.floors {
        Some(f) => {
            let below: u32 = f[(v.y - field.lo.y) as usize];
            if less(s, below) {
                below
            } else {
                s
            }
        },
        None => s,
    }
}

/// Apply a stamp. The result is the smallest box of the voxels that were
/// written to.
#[verifier::rlimit(40)]
#[verifier::spinoff_prover]
pub fn apply_field(
    grid: &mut Grid,
    field: &Field,
    op: Combine,
    change: Change,
    journal: &mut Vec<VoxelEdit>,
) -> (r: Option<DirtyRegion>)
    requires
        old(grid).wf(),
        field.wf(),
        box_within(field.lo, field.hi, old(grid)@.res),
    ensures
        final(grid).wf(),
        stamped(old(grid)@, final(grid)@, *field, op, change),
        stamp_journalled(old(grid)@, *field, op, change, old(journal)@, final(journal)@),
        spans_edits(
            final(journal)@.subrange(old(journal).len() as int, final(journal).len() as int),
            r,
        ),
{
    let ghost g = grid@;
    let ghost prior = journal@;
    let ghost f = *field;
    let ghost changed = |v: UVec3| stamp_writes(g, f, op, change, v);
    let ghost mut edits: Seq<VoxelEdit> = Seq::empty();
    let lo = field.lo;
    let hi = field.hi;
    let n: usize = field.values.len();
    let mut dirty: Option<DirtyRegion> = None;
    let mut k: usize = 0;
    while k < n
        invariant
            k <= n,
            f == *field,
            f.wf(),
            lo == f.lo,
            hi == f.hi,
            n == f.values@.len(),
            n == box_count(lo, hi),
            box_within(lo, hi, g.res),
            grid.wf(),
            grid@.same_domain(g),
            changed == (|v: UVec3| stamp_writes(g, f, op, change, v)),
            forall|x: int, y: int, z: int|
                g.res.has(x, y, z) ==> #[trigger] grid@.at(x, y, z) == (if in_box(lo, hi, x, y, z)
                    && box_number(lo, hi, x, y, z) < k && stamp_writes(
                    g,
                    f,
                    op,
                    change,
                    UVec3 { x: x as u32, y: y as u32, z: z as u32 },
                ) {
                    stamp_value(g, f, op, UVec3 { x: x as u32, y: y as u32, z: z as u32 })
                } else {
                    g.at(x, y, z)
                }),
            forall|q: ChunkCoord| #[trigger]
                grid@.tiles.dom().contains(q) ==> g.tiles.dom().contains(q) || stamp_writes_chunk(
                    g,
                    f,
                    op,
                    change,
                    q,
                ),
            forall|q: ChunkCoord|
                g.tiles.dom().contains(q) ==> #[trigger] grid@.tiles.dom().contains(q),
            forall|i: int|
                0 <= i < edits.len() ==> grid@.tiles.dom().contains(
                    tile_of(
                        (#[trigger] edits[i]).x as int,
                        edits[i].y as int,
                        edits[i].z as int,
                    ),
                ),
            journal@ == prior + edits,
            records_part(edits, g, changed, lo, hi, k as int),
            spans_edits(edits, dirty),
        decreases n - k,
    {
        let v = cell_of(lo, hi, k);
        let ghost (vx, vy, vz) = (v.x as int, v.y as int, v.z as int);
        let ghost mid = grid@;
        let pre: u32 = grid.get(v.x, v.y, v.z);
        let ghost e = VoxelEdit { x: v.x, y: v.y, z: v.z, pre };
        proof {
            assert(pre == g.at(vx, vy, vz));
            lemma_records_step(edits, g, changed, lo, hi, k as int, e);
        }
        let next: Option<u32> = match field.values[k] {
            Some(d) => {
                let s: u32 = hold_above(field, v, combine(op, pre, d));
                if is_change(change, pre, s) {
                    Some(s)
                } else {
                    None
                }
            },
            None => None,
        };
        assert(changed(v) == next.is_some());
        match next {
            Some(s) => {
                assert(s == stamp_value(g, f, op, v));
                journal.push(VoxelEdit { x: v.x, y: v.y, z: v.z, pre });
                grid.set(v.x, v.y, v.z, s);
                dirty = expand(dirty, v.x, v.y, v.z, Ghost(edits), Ghost(e));
                proof {
                    assert(stamp_writes(g, f, op, change, v));
                    assert(stamp_writes_chunk(g, f, op, change, tile_of(vx, vy, vz)));
                    assert(prior + edits.push(e) =~= (prior + edits).push(e));
                    let was = edits;
                    edits = edits.push(e);
                    assert forall|i: int| 0 <= i < edits.len() implies grid@.tiles.dom().contains(
                        tile_of(
                            (#[trigger] edits[i]).x as int,
                            edits[i].y as int,
                            edits[i].z as int,
                        ),
                    ) by {
                        if i < was.len() {
                            assert(edits[i] == was[i]);
                        }
                    }
                }
            },
            None => {},
        }
        proof {
            assert forall|x: int, y: int, z: int| g.res.has(x, y, z) implies #[trigger] grid@.at(
                x,
                y,
                z,
            ) == (if in_box(lo, hi, x, y, z) && box_number(lo, hi, x, y, z) < k + 1
                && stamp_writes(g, f, op, change, UVec3 { x: x as u32, y: y as u32, z: z as u32 }) {
                stamp_value(g, f, op, UVec3 { x: x as u32, y: y as u32, z: z as u32 })
            } else {
                g.at(x, y, z)
            }) by {
                assert(mid.at(x, y, z) == mid.at(x, y, z));
                if in_box(lo, hi, x, y, z) && box_number(lo, hi, x, y, z) == k {
                    lemma_box_number(lo, hi, x, y, z);
                    assert(x == vx && y == vy && z == vz);
                }
            }
        }
        k = k + 1;
    }
    proof {
        assert(journal@.subrange(0, prior.len() as int) =~= prior);
        assert(journal@.subrange(prior.len() as int, journal.len() as int) =~= edits);
        assert forall|v: UVec3| in_domain(g.res, v) implies #[trigger] grid@.at(
            v.x as int,
            v.y as int,
            v.z as int,
        ) == (if stamp_writes(g, f, op, change, v) {
            stamp_value(g, f, op, v)
        } else {
            g.at(v.x as int, v.y as int, v.z as int)
        }) by {
            if in_box(lo, hi, v.x as int, v.y as int, v.z as int) {
                lemma_box_number(lo, hi, v.x as int, v.y as int, v.z as int);
            }
        }
        assert forall|v: UVec3| in_domain(g.res, v) && #[trigger] changed(v) implies exists|i: int|
            0 <= i < edits.len() && (#[trigger] edits[i]).voxel() == v by {
            assert(in_box(lo, hi, v.x as int, v.y as int, v.z as int));
            lemma_box_number(lo, hi, v.x as int, v.y as int, v.z as int);
        }
        assert(records(edits, g, changed));
        assert forall|q: ChunkCoord| #[trigger]
            grid@.tiles.dom().contains(q) <==> g.tiles.dom().contains(q) || stamp_writes_chunk(
                g,
                f,
                op,
                change,
                q,
            ) by {
            if stamp_writes_chunk(g, f, op, change, q) {
                let v = choose|v: UVec3|
                    in_domain(g.res, v) && #[trigger] stamp_writes(g, f, op, change, v) && tile_of(
                        v.x as int,
                        v.y as int,
                        v.z as int,
                    ) == q;
                assert(changed(v));
                let i = choose|i: int| 0 <= i < edits.len() && (#[trigger] edits[i]).voxel() == v;
                assert(edits[i].voxel() == v);
            }
        }
    }
    dirty
}

/// The voxel lies below the workbench, where nothing may be solid.
pub open spec fn held_down(f: Field, v: UVec3) -> bool {
    f.floors matches Some(w) && !is_nan(w@[v.y - f.lo.y]) && !solid(w@[v.y - f.lo.y])
}

/// A sample is not below the workbench, and it is written only where that gives another
/// number.
pub open spec fn is_held_and_new(f: Field, v: UVec3, was: u32, now: u32) -> bool {
    &&& f.floors matches Some(w) ==> !lt(now, w@[v.y - f.lo.y])
    &&& num_eq(now, was) ==> now == was
}

/// A shape was cut out of the workpiece. Where its distance is zero or less nothing is
/// solid any more, elsewhere what was solid stays so, and nothing became solid; only
/// the workbench may take more away. The new sample is the larger one of what was there
/// and of the distance with its sign turned round. Where no distance is offered nothing
/// changed.
pub open spec fn cut_out(before: GridView, after: GridView, f: Field) -> bool {
    forall|v: UVec3|
        in_domain(before.res, v) ==> {
            let was = before.at(v.x as int, v.y as int, v.z as int);
            let now = #[trigger] after.at(v.x as int, v.y as int, v.z as int);
            if f.has(v) && f.offer(v) is Some {
                let d = f.offer(v)->0;
                &&& !is_nan(d) && !lt(0, d) ==> !solid(now)
                &&& !is_nan(was) && solid(now) ==> solid(was)
                &&& solid(was) && (is_nan(d) || lt(0, d)) && !held_down(f, v) ==> solid(now)
                &&& is_held_and_new(f, v, was, now)
                &&& !is_nan(was) && !is_nan(d) && f.floors is None ==> !lt(now, was) && !lt(
                    now,
                    negated(d),
                ) && (num_eq(now, was) || num_eq(now, negated(d)))
            } else {
                now == was
            }
        }
}

/// A shape was added to the workpiece. Where its distance is below zero all is solid,
/// elsewhere what was solid stays so and nothing became solid; but below the workbench
/// nothing is solid. The new sample is the smaller one of what was there and of the
/// distance. Where no distance is offered nothing changed.
pub open spec fn built_up(before: GridView, after: GridView, f: Field) -> bool {
    forall|v: UVec3|
        in_domain(before.res, v) ==> {
            let was = before.at(v.x as int, v.y as int, v.z as int);
            let now = #[trigger] after.at(v.x as int, v.y as int, v.z as int);
            if f.has(v) && f.offer(v) is Some {
                let d = f.offer(v)->0;
                &&& solid(now) <==> (solid(was) || lt(d, 0)) && !held_down(f, v)
                &&& is_held_and_new(f, v, was, now)
                &&& !is_nan(was) && !is_nan(d) && f.floors is None ==> !lt(was, now) && !lt(d, now) && (
                num_eq(now, was) || num_eq(now, d))
            } else {
                now == was
            }
        }
}

/// The samples that are offered took the place of those that were there: what was there
/// does not matter any more. Where no sample is offered nothing changed.
pub open spec fn laid_over(before: GridView, after: GridView, f: Field) -> bool {
    forall|v: UVec3|
        in_domain(before.res, v) ==> {
            let was = before.at(v.x as int, v.y as int, v.z as int);
            let now = #[trigger] after.at(v.x as int, v.y as int, v.z as int);
            if f.has(v) && f.offer(v) is Some {
                &&& solid(now) <==> lt(f.offer(v)->0, 0) && !held_down(f, v)
                &&& f.floors is None && !is_nan(f.offer(v)->0) ==> num_eq(now, f.offer(v)->0)
                &&& is_held_and_new(f, v, was, now)
            } else {
                now == was
            }
        }
}

/// Subtracting cuts the shape out, no more and no less.
pub proof fn law_subtract_cuts_out(before: GridView, after: GridView, f: Field)
    requires
        stamped(before, after, f, Combine::Subtract, Change::Number),
    ensures
        cut_out(before, after, f),
{
}

/// Uniting adds the shape, no more and no less.
pub proof fn law_unite_builds_up(before: GridView, after: GridView, f: Field)
    requires
        stamped(before, after, f, Combine::Unite, Change::Number),
    ensures
        built_up(before, after, f),
{
}

/// Replacing forgets what was there.
pub proof fn law_replace_lays_over(before: GridView, after: GridView, f: Field)
    requires
        stamped(before, after, f, Combine::Replace, Change::Number),
    ensures
        laid_over(before, after, f),
{
}

/// Raising makes nothing solid, and leaves solid only what was and is offered as solid.
/// The new sample is one of the two, and neither is above it.
pub proof fn law_raise_keeps_the_larger(was: u32, d: u32)
    requires
        !is_nan(was),
        !is_nan(d),
    ensures
        ({
            let now = combined(Combine::Raise, was, d);
            &&& now == was || now == d
            &&& !lt(now, was)
            &&& !lt(now, d)
            &&& solid(now) <==> solid(was) && solid(d)
        }),
{
}

/// Taking a shape out of the workpiece never makes a voxel solid.
pub proof fn law_subtract_never_adds(g: GridView, f: Field, v: UVec3)
    requires
        solid(stamp_value(g, f, Combine::Subtract, v)),
        !is_nan(g.at(v.x as int, v.y as int, v.z as int)),
    ensures
        solid(g.at(v.x as int, v.y as int, v.z as int)),
{
}

/// Adding a shape to the workpiece leaves every solid voxel solid, unless the
/// workbench is in the way.
pub proof fn law_unite_never_removes(g: GridView, f: Field, v: UVec3)
    requires
        solid(g.at(v.x as int, v.y as int, v.z as int)),
        f.floors is None,
    ensures
        solid(stamp_value(g, f, Combine::Unite, v)),
{
}

/// Below the workbench no stamp makes a voxel solid, and one that writes every
/// change leaves none solid that it reaches.
pub proof fn law_workbench_is_a_floor(
    before: GridView,
    after: GridView,
    f: Field,
    op: Combine,
    change: Change,
    v: UVec3,
)
    requires
        stamped(before, after, f, op, change),
        in_domain(before.res, v),
        f.has(v),
        f.offer(v) is Some,
        f.floors is Some,
        !solid(f.floors->0@[v.y - f.lo.y]),
        !is_nan(f.floors->0@[v.y - f.lo.y]),
    ensures
        !solid(before.at(v.x as int, v.y as int, v.z as int)) ==> !solid(
            after.at(v.x as int, v.y as int, v.z as int),
        ),
        change == Change::Number || change == Change::Bits ==> !solid(
            after.at(v.x as int, v.y as int, v.z as int),
        ),
{
    assert(!solid(stamp_value(before, f, op, v)));
    assert(after.at(v.x as int, v.y as int, v.z as int) == (if stamp_writes(
        before,
        f,
        op,
        change,
        v,
    ) {
        stamp_value(before, f, op, v)
    } else {
        before.at(v.x as int, v.y as int, v.z as int)
    }));
}

/// What a stamp does not reach stays as it is.
pub proof fn law_out_of_reach_unchanged(
    before: GridView,
    after: GridView,
    f: Field,
    op: Combine,
    change: Change,
    v: UVec3,
)
    requires
        stamped(before, after, f, op, change),
        in_domain(before.res, v),
        !f.has(v) || f.offer(v) is None,
    ensures
        after.at(v.x as int, v.y as int, v.z as int) == before.at(v.x as int, v.y as int, v.z as int),
{
}

} // verus!
