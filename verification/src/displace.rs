//! Tools that displace clay instead of deleting it: finger press, finger pull
//! and paddle.
//!
//! A displacing stamp has three steps. The tool first changes the workpiece under
//! it. Then the volume that was lost or gained is made up for in a rim around the
//! tool, unless it is too little to matter. Last the distances in the whole
//! region are relaxed, so that the next stamp and the mesher find a usable band.

use crate::brush::{expand_region, grown_hi, grown_lo};
use crate::components::in_domain;
use crate::dirty::DirtyRegion;
use crate::grid::{Grid, GridView};
use crate::journal::{spans_edits, VoxelEdit};
use crate::region::{box_cell, box_count, box_number, cell_of, in_box, lemma_box_number};
use crate::sample::{is_nan, is_solid, solid, stirred};
use crate::snapshot::box_within;
use crate::stamp::{apply_field, stamp_journalled, stamp_value, stamp_writes, stamped, Change, Combine, Field};
use crate::stroke::{distinct_voxels, known, law_fresh_stroke_tracks, law_recording_keeps_track, law_stamp_joins_stroke, law_undo_restores_start, lemma_journal_known, pre_samples, replaced, same_samples, tracks, with_journal, StrokeRecorder};
use crate::vec3::UVec3;
use vstd::prelude::*;

verus! {

/// A tool that displaces.
#[derive(Copy, Clone, Debug, PartialEq, Eq, Structural)]
pub enum DisplaceTool {
    /// A finger pressed in: clay piles up around it.
    Press,
    /// A finger pulled out: clay is drawn from around it.
    Pull,
    /// A flat plate: clay squeezes out beside it.
    Paddle,
}

/// What follows the first step of a displacing stamp.
#[derive(Copy, Clone, Debug, PartialEq, Eq, Structural)]
pub struct DisplacePlan {
    /// Make up for the volume in the rim.
    pub recruit: bool,
    /// The region to relax, which is also the dirty region of the stamp.
    pub region: DirtyRegion,
    /// How often to relax it.
    pub passes: u32,
}

/// Voxel `v` is in the box.
pub open spec fn in_region(b: DirtyRegion, v: UVec3) -> bool {
    in_box(b.min, b.max, v.x as int, v.y as int, v.z as int)
}

/// A box grown by `pad` voxels within the domain.
pub open spec fn grown(b: DirtyRegion, pad: u32, res: UVec3) -> DirtyRegion {
    DirtyRegion { min: grown_lo(b.min, pad), max: grown_hi(b.max, pad, res) }
}

/// What follows the first step: a paddle that wrote nothing is done; a finger
/// that moved too little volume relaxes just around the tool.
pub open spec fn plan_of(
    tool: DisplaceTool,
    stamp: DirtyRegion,
    edit: DirtyRegion,
    res: UVec3,
    wrote: bool,
    tiny: bool,
) -> Option<DisplacePlan> {
    if tool == DisplaceTool::Paddle && !wrote {
        None
    } else if tool != DisplaceTool::Paddle && tiny {
        Some(DisplacePlan { recruit: false, region: grown(stamp, 1, res), passes: 2 })
    } else {
        Some(DisplacePlan { recruit: !tiny, region: grown(edit, 2, res), passes: 4 })
    }
}

fn grow(b: DirtyRegion, pad: u32, res: UVec3) -> (r: DirtyRegion)
    ensures
        r == grown(b, pad, res),
{
    let (min, max) = expand_region(res, b.min, b.max, pad);
    DirtyRegion { min, max }
}

/// Decide what follows the first step of a stamp. `stamp` is the box of the tool,
/// `edit` the box with the rim, `wrote` whether the first step wrote anything, and
/// `tiny` whether the volume it moved is too little to matter.
pub fn displace_plan(
    tool: DisplaceTool,
    stamp: DirtyRegion,
    edit: DirtyRegion,
    res: UVec3,
    wrote: bool,
    tiny: bool,
) -> (r: Option<DisplacePlan>)
    ensures
        r == plan_of(tool, stamp, edit, res, wrote, tiny),
        r matches Some(p) ==> box_within(p.region.min, p.region.max, res),
{
    match tool {
        DisplaceTool::Paddle => {
            if !wrote {
                None
            } else {
                Some(DisplacePlan { recruit: !tiny, region: grow(edit, 2, res), passes: 4 })
            }
        },
        _ => {
            if tiny {
                Some(DisplacePlan { recruit: false, region: grow(stamp, 1, res), passes: 2 })
            } else {
                Some(DisplacePlan { recruit: true, region: grow(edit, 2, res), passes: 4 })
            }
        },
    }
}

/// First step of the paddle: within the disk, nothing stands above the plate. The
/// field offers how far each voxel of the disk lies inside the plate. The result
/// is the smallest box of the voxels that were written to.
pub fn apply_paddle_with_callback(
    grid: &mut Grid,
    field: &Field,
    journal: &mut Vec<VoxelEdit>,
) -> (r: Option<DirtyRegion>)
    requires
        old(grid).wf(),
        field.wf(),
        box_within(field.lo, field.hi, old(grid)@.res),
    ensures
        final(grid).wf(),
        stamped(old(grid)@, final(grid)@, *field, Combine::Raise, Change::Stirred),
        stamp_journalled(
            old(grid)@,
            *field,
            Combine::Raise,
            Change::Stirred,
            old(journal)@,
            final(journal)@,
        ),
        spans_edits(
            final(journal)@.subrange(old(journal).len() as int, final(journal).len() as int),
            r,
        ),
{
    apply_field(grid, field, Combine::Raise, Change::Stirred, journal)
}

/// First step of a finger press or pull, or the second step of any displacing
/// stamp. The field offers whole samples. The result is the smallest box of the
/// voxels that were written to.
pub fn apply_samples(
    grid: &mut Grid,
    field: &Field,
    journal: &mut Vec<VoxelEdit>,
) -> (r: Option<DirtyRegion>)
    requires
        old(grid).wf(),
        field.wf(),
        box_within(field.lo, field.hi, old(grid)@.res),
    ensures
        final(grid).wf(),
        stamped(old(grid)@, final(grid)@, *field, Combine::Replace, Change::Stirred),
        stamp_journalled(
            old(grid)@,
            *field,
            Combine::Replace,
            Change::Stirred,
            old(journal)@,
            final(journal)@,
        ),
        spans_edits(
            final(journal)@.subrange(old(journal).len() as int, final(journal).len() as int),
            r,
        ),
{
    apply_field(grid, field, Combine::Replace, Change::Stirred, journal)
}

/// The voxel is in the box, but not on its border.
pub open spec fn interior(lo: UVec3, hi: UVec3, v: UVec3) -> bool {
    &&& lo.x < v.x && v.x + 1 < hi.x
    &&& lo.y < v.y && v.y + 1 < hi.y
    &&& lo.z < v.z && v.z + 1 < hi.z
}

/// A relaxed sample may be written: its voxel is not on the border of the box, and
/// the sample does not turn clay into air or air into clay.
pub open spec fn may_relax(g: GridView, lo: UVec3, hi: UVec3, v: UVec3, sample: u32) -> bool {
    interior(lo, hi, v) && solid(sample) == solid(g.at(v.x as int, v.y as int, v.z as int))
}

/// Offers the samples of a box that may be written, and nothing elsewhere.
pub open spec fn is_relaxed_field(
    g: GridView,
    f: Field,
    lo: UVec3,
    hi: UVec3,
    samples: Seq<u32>,
) -> bool {
    &&& f.wf()
    &&& f.lo == lo
    &&& f.hi == hi
    &&& f.floors is None
    &&& forall|v: UVec3|
        f.has(v) ==> #[trigger] f.offer(v) == ({
            let s = samples[box_number(lo, hi, v.x as int, v.y as int, v.z as int)];
            if may_relax(g, lo, hi, v, s) {
                Some(s)
            } else {
                None
            }
        })
}

/// Offer relaxed samples for a box.
fn relaxed_field(grid: &Grid, lo: UVec3, hi: UVec3, samples: &Vec<u32>) -> (r: Field)
    requires
        grid.wf(),
        box_within(lo, hi, grid@.res),
        samples.len() == box_count(lo, hi),
    ensures
        is_relaxed_field(grid@, r, lo, hi, samples@),
{
    let mut values: Vec<Option<u32>> = Vec::new();
    let mut k: usize = 0;
    while k < samples.len()
        invariant
            grid.wf(),
            box_within(lo, hi, grid@.res),
            k <= samples.len(),
            samples.len() == box_count(lo, hi),
            values.len() == k,
            forall|j: int|
                0 <= j < k ==> #[trigger] values@[j] == (if may_relax(
                    grid@,
                    lo,
                    hi,
                    box_cell(lo, hi, j),
                    samples@[j],
                ) {
                    Some(samples@[j])
                } else {
                    None
                }),
        decreases samples.len() - k,
    {
        let v = cell_of(lo, hi, k);
        if lo.x < v.x && v.x + 1 < hi.x && lo.y < v.y && v.y + 1 < hi.y && lo.z < v.z && v.z + 1
            < hi.z && is_solid(samples[k]) == is_solid(grid.get(v.x, v.y, v.z)) {
            values.push(Some(samples[k]));
        } else {
            values.push(None);
        }
        k = k + 1;
    }
    let r = Field { lo, hi, values, floors: None };
    proof {
        assert forall|v: UVec3| r.has(v) implies #[trigger] r.offer(v) == ({
            let s = samples@[box_number(lo, hi, v.x as int, v.y as int, v.z as int)];
            if may_relax(grid@, lo, hi, v, s) {
                Some(s)
            } else {
                None
            }
        }) by {
            lemma_box_number(lo, hi, v.x as int, v.y as int, v.z as int);
        }
    }
    r
}

/// Last step of a displacing stamp: write the relaxed samples of a region, except on
/// its border and where one would turn clay into air or air into clay.
pub fn apply_relaxed(
    grid: &mut Grid,
    lo: UVec3,
    hi: UVec3,
    samples: &Vec<u32>,
    journal: &mut Vec<VoxelEdit>,
)
    requires
        old(grid).wf(),
        box_within(lo, hi, old(grid)@.res),
        samples.len() == box_count(lo, hi),
    ensures
        final(grid).wf(),
        exists|f: Field|
            is_relaxed_field(old(grid)@, f, lo, hi, samples@) && #[trigger] stamped(
                old(grid)@,
                final(grid)@,
                f,
                Combine::Replace,
                Change::Bits,
            ) && stamp_journalled(
                old(grid)@,
                f,
                Combine::Replace,
                Change::Bits,
                old(journal)@,
                final(journal)@,
            ),
        forall|v: UVec3|
            in_domain(old(grid)@.res, v) ==> solid(
                #[trigger] final(grid)@.at(v.x as int, v.y as int, v.z as int),
            ) == solid(old(grid)@.at(v.x as int, v.y as int, v.z as int)),
{
    let ghost g = grid@;
    let field = relaxed_field(grid, lo, hi, samples);
    apply_field(grid, &field, Combine::Replace, Change::Bits, journal);
    proof {
        assert forall|v: UVec3| in_domain(g.res, v) implies solid(
            #[trigger] grid@.at(v.x as int, v.y as int, v.z as int),
        ) == solid(g.at(v.x as int, v.y as int, v.z as int)) by {
            law_relaxing_keeps_the_surface(g, grid@, field, lo, hi, samples@, v);
        }
    }
}

/// Relaxing sets the interior of the region to the relaxed samples, where they keep
/// their sign, and leaves everything else as it is: clay stays clay and air stays air.
pub proof fn law_relaxing_keeps_the_surface(
    before: GridView,
    after: GridView,
    f: Field,
    lo: UVec3,
    hi: UVec3,
    samples: Seq<u32>,
    v: UVec3,
)
    requires
        is_relaxed_field(before, f, lo, hi, samples),
        stamped(before, after, f, Combine::Replace, Change::Bits),
        before.res.has(v.x as int, v.y as int, v.z as int),
    ensures
        after.at(v.x as int, v.y as int, v.z as int) == ({
            let s = samples[box_number(lo, hi, v.x as int, v.y as int, v.z as int)];
            if may_relax(before, lo, hi, v, s) {
                s
            } else {
                before.at(v.x as int, v.y as int, v.z as int)
            }
        }),
        solid(after.at(v.x as int, v.y as int, v.z as int)) == solid(
            before.at(v.x as int, v.y as int, v.z as int),
        ),
{
    if f.has(v) {
        let s = samples[box_number(lo, hi, v.x as int, v.y as int, v.z as int)];
        assert(f.offer(v) == (if may_relax(before, lo, hi, v, s) {
            Some(s)
        } else {
            None
        }));
    }
}

/// A displacing stamp in progress, with the samples that it has replaced so far: each
/// voxel once, with what it held before the stamp.
pub struct DisplaceStamp {
    pub tool: DisplaceTool,
    /// The box of the tool.
    pub stamp: DirtyRegion,
    /// The box with the rim.
    pub edit: DirtyRegion,
    pub recorder: StrokeRecorder,
}

/// How the first step of a tool combines what it offers with the clay.
pub open spec fn first_step(tool: DisplaceTool) -> Combine {
    if tool == DisplaceTool::Paddle {
        Combine::Raise
    } else {
        Combine::Replace
    }
}

/// A step of a stamp was reported: the edits lead back over it as they led back before,
/// and know the voxels that it wrote to besides those they knew.
pub open spec fn reported(
    was: Seq<VoxelEdit>,
    now: Seq<VoxelEdit>,
    before: GridView,
    after: GridView,
    f: Field,
    op: Combine,
    change: Change,
) -> bool {
    &&& forall|start: GridView| #[trigger]
        tracks(was, start, before) ==> tracks(now, start, after)
    &&& forall|v: UVec3|
        in_domain(before.res, v) ==> (#[trigger] known(now, v) <==> known(was, v) || stamp_writes(
            before,
            f,
            op,
            change,
            v,
        ))
}

proof fn lemma_reported(
    was: Seq<VoxelEdit>,
    before: GridView,
    after: GridView,
    f: Field,
    op: Combine,
    change: Change,
    journal: Seq<VoxelEdit>,
)
    requires
        stamped(before, after, f, op, change),
        stamp_journalled(before, f, op, change, Seq::empty(), journal),
    ensures
        reported(was, with_journal(was, journal, journal.len()), before, after, f, op, change),
{
    let now = with_journal(was, journal, journal.len());
    let changed = |v: UVec3| stamp_writes(before, f, op, change, v);
    assert(journal.subrange(0, journal.len() as int) =~= journal);
    assert forall|start: GridView| #[trigger] tracks(was, start, before) implies tracks(
        now,
        start,
        after,
    ) by {
        law_recording_keeps_track(was, start, before, after, journal, changed);
    }
    assert forall|v: UVec3| in_domain(before.res, v) implies (#[trigger] known(now, v) <==> known(
        was,
        v,
    ) || stamp_writes(before, f, op, change, v)) by {
        lemma_journal_known(was, journal, v);
        if known(journal, v) {
            let i = choose|i: int| 0 <= i < journal.len() && (#[trigger] journal[i]).voxel() == v;
            assert(changed(journal[i].voxel()));
        }
        if stamp_writes(before, f, op, change, v) {
            assert(changed(v));
            let i = choose|i: int| 0 <= i < journal.len() && (#[trigger] journal[i]).voxel() == v;
            assert(journal[i].voxel() == v);
        }
    }
}

impl DisplaceStamp {
    /// The first step. The field offers how far each voxel of the disk lies inside the
    /// plate of a paddle, and whole samples for a finger. The second result says
    /// whether anything was written.
    pub fn begin(
        grid: &mut Grid,
        tool: DisplaceTool,
        stamp: DirtyRegion,
        edit: DirtyRegion,
        first: &Field,
    ) -> (r: (DisplaceStamp, bool))
        requires
            old(grid).wf(),
            first.wf(),
            box_within(first.lo, first.hi, old(grid)@.res),
        ensures
            final(grid).wf(),
            stamped(old(grid)@, final(grid)@, *first, first_step(tool), Change::Stirred),
            r.0.tool == tool,
            r.0.stamp == stamp,
            r.0.edit == edit,
            r.0.recorder.wf(),
            reported(
                Seq::empty(),
                r.0.recorder.edits(),
                old(grid)@,
                final(grid)@,
                *first,
                first_step(tool),
                Change::Stirred,
            ),
            tracks(r.0.recorder.edits(), old(grid)@, final(grid)@),
            r.1 <==> exists|v: UVec3|
                in_domain(old(grid)@.res, v) && #[trigger] stamp_writes(
                    old(grid)@,
                    *first,
                    first_step(tool),
                    Change::Stirred,
                    v,
                ),
    {
        let ghost g = grid@;
        let mut journal: Vec<VoxelEdit> = Vec::new();
        match tool {
            DisplaceTool::Paddle => {
                apply_paddle_with_callback(grid, first, &mut journal);
            },
            _ => {
                apply_samples(grid, first, &mut journal);
            },
        }
        let mut recorder = StrokeRecorder::new();
        recorder.record_journal(&journal);
        let wrote: bool = journal.len() > 0;
        proof {
            let op = first_step(tool);
            let none = Seq::<VoxelEdit>::empty();
            lemma_reported(none, g, grid@, *first, op, Change::Stirred, journal@);
            law_fresh_stroke_tracks(g);
            assert(tracks(none, g, g));
            assert(journal@.subrange(0, journal@.len() as int) =~= journal@);
            let changed = |v: UVec3| stamp_writes(g, *first, op, Change::Stirred, v);
            if wrote {
                assert(changed(journal@[0].voxel()));
                assert(stamp_writes(g, *first, op, Change::Stirred, journal@[0].voxel()));
            }
            if exists|v: UVec3|
                in_domain(g.res, v) && #[trigger] stamp_writes(
                    g,
                    *first,
                    op,
                    Change::Stirred,
                    v,
                ) {
                let v = choose|v: UVec3|
                    in_domain(g.res, v) && #[trigger] stamp_writes(
                        g,
                        *first,
                        op,
                        Change::Stirred,
                        v,
                    );
                assert(changed(v));
            }
        }
        (DisplaceStamp { tool, stamp, edit, recorder }, wrote)
    }

    /// The second step: make up for the volume in the rim, for which the field offers
    /// whole samples.
    pub fn make_up(&mut self, grid: &mut Grid, rim: &Field)
        requires
            old(self).recorder.wf(),
            old(grid).wf(),
            rim.wf(),
            box_within(rim.lo, rim.hi, old(grid)@.res),
        ensures
            final(grid).wf(),
            stamped(old(grid)@, final(grid)@, *rim, Combine::Replace, Change::Stirred),
            final(self).tool == old(self).tool,
            final(self).stamp == old(self).stamp,
            final(self).edit == old(self).edit,
            final(self).recorder.wf(),
            reported(
                old(self).recorder.edits(),
                final(self).recorder.edits(),
                old(grid)@,
                final(grid)@,
                *rim,
                Combine::Replace,
                Change::Stirred,
            ),
    {
        let ghost g = grid@;
        let ghost was = self.recorder.edits();
        let mut journal: Vec<VoxelEdit> = Vec::new();
        apply_samples(grid, rim, &mut journal);
        self.recorder.record_journal(&journal);
        proof {
            lemma_reported(was, g, grid@, *rim, Combine::Replace, Change::Stirred, journal@);
        }
    }

    /// The last step: relax the samples of the region of the plan. The result is the
    /// edits of the whole stamp.
    pub fn finish(self, grid: &mut Grid, plan: &DisplacePlan, samples: &Vec<u32>) -> (r: Vec<VoxelEdit>)
        requires
            self.recorder.wf(),
            old(grid).wf(),
            box_within(plan.region.min, plan.region.max, old(grid)@.res),
            samples.len() == box_count(plan.region.min, plan.region.max),
        ensures
            final(grid).wf(),
            distinct_voxels(r@),
            exists|f: Field|
                is_relaxed_field(
                    old(grid)@,
                    f,
                    plan.region.min,
                    plan.region.max,
                    samples@,
                ) && #[trigger] stamped(
                    old(grid)@,
                    final(grid)@,
                    f,
                    Combine::Replace,
                    Change::Bits,
                ) && reported(
                    self.recorder.edits(),
                    r@,
                    old(grid)@,
                    final(grid)@,
                    f,
                    Combine::Replace,
                    Change::Bits,
                ),
    {
        let ghost g = grid@;
        let mut recorder = self.recorder;
        let ghost was = recorder.edits();
        let mut journal: Vec<VoxelEdit> = Vec::new();
        apply_relaxed(grid, plan.region.min, plan.region.max, samples, &mut journal);
        recorder.record_journal(&journal);
        proof {
            let f = choose|f: Field|
                is_relaxed_field(g, f, plan.region.min, plan.region.max, samples@)
                    && #[trigger] stamped(g, grid@, f, Combine::Replace, Change::Bits)
                    && stamp_journalled(
                    g,
                    f,
                    Combine::Replace,
                    Change::Bits,
                    Seq::empty(),
                    journal@,
                );
            lemma_reported(was, g, grid@, f, Combine::Replace, Change::Bits, journal@);
            recorder.law_recorded_once();
        }
        recorder.into_edits()
    }
}

/// The three steps of a displacing stamp: the first one, the rim if the volume is made
/// up for, and the relaxed samples of a region. `edits` is what the steps reported.
pub open spec fn displaced(
    before: GridView,
    after: GridView,
    first: Field,
    op: Combine,
    rim: Option<Field>,
    relaxed: Field,
    edits: Seq<VoxelEdit>,
) -> bool {
    exists|g1: GridView, e1: Seq<VoxelEdit>, g2: GridView, e2: Seq<VoxelEdit>|
        {
            &&& stamped(before, g1, first, op, Change::Stirred)
            &&& #[trigger] reported(
                Seq::empty(),
                e1,
                before,
                g1,
                first,
                op,
                Change::Stirred,
            )
            &&& match rim {
                Some(f) => {
                    &&& stamped(g1, g2, f, Combine::Replace, Change::Stirred)
                    &&& reported(e1, e2, g1, g2, f, Combine::Replace, Change::Stirred)
                },
                None => g2 == g1 && e2 == e1,
            }
            &&& stamped(g2, after, relaxed, Combine::Replace, Change::Bits)
            &&& #[trigger] reported(e2, edits, g2, after, relaxed, Combine::Replace, Change::Bits)
        }
}

/// A displacing stamp is undone by its edits: they know every voxel that differs after
/// it, each with the sample from before the stamp, however many steps wrote to it.
pub proof fn law_displacing_stamp_is_undone(
    before: GridView,
    after: GridView,
    first: Field,
    op: Combine,
    rim: Option<Field>,
    relaxed: Field,
    edits: Seq<VoxelEdit>,
    undone: GridView,
)
    requires
        displaced(before, after, first, op, rim, relaxed, edits),
        replaced(after, undone, edits, pre_samples(edits)),
    ensures
        tracks(edits, before, after),
        same_samples(undone, before),
{
    law_fresh_stroke_tracks(before);
    assert(tracks(Seq::empty(), before, before));
    law_undo_restores_start(edits, before, after, undone);
}

/// A displacing stamp keeps the stroke undoable: if what was recorded leads back to the
/// start of the stroke, then it still does when the edits of the stamp are recorded.
pub proof fn law_displacing_stamp_keeps_track(
    stroke: Seq<VoxelEdit>,
    start: GridView,
    before: GridView,
    after: GridView,
    first: Field,
    op: Combine,
    rim: Option<Field>,
    relaxed: Field,
    edits: Seq<VoxelEdit>,
)
    requires
        tracks(stroke, start, before),
        displaced(before, after, first, op, rim, relaxed, edits),
    ensures
        tracks(with_journal(stroke, edits, edits.len()), start, after),
{
    law_fresh_stroke_tracks(before);
    assert(tracks(Seq::empty(), before, before));
    law_stamp_joins_stroke(stroke, start, before, after, edits);
}

/// The region of the plan holds everything that a displacing stamp changes, so that
/// meshing it again shows the whole stamp: outside it every sample stays.
pub proof fn law_displaced_region_holds_changes(
    tool: DisplaceTool,
    stamp: DirtyRegion,
    edit: DirtyRegion,
    wrote: bool,
    tiny: bool,
    plan: DisplacePlan,
    before: GridView,
    after: GridView,
    first: Field,
    op: Combine,
    rim: Option<Field>,
    relaxed: Field,
    edits: Seq<VoxelEdit>,
    v: UVec3,
)
    requires
        plan_of(tool, stamp, edit, before.res, wrote, tiny) == Some(plan),
        displaced(before, after, first, op, rim, relaxed, edits),
        box_within(edit.min, edit.max, before.res),
        box_within(stamp.min, stamp.max, before.res),
        forall|w: UVec3| #[trigger]
            in_region(stamp, w) ==> in_region(edit, w),
        forall|w: UVec3| #[trigger] first.has(w) ==> in_region(stamp, w),
        rim is Some ==> plan.recruit,
        rim matches Some(f) ==> forall|w: UVec3| #[trigger] f.has(w) ==> in_region(edit, w),
        relaxed.lo == plan.region.min,
        relaxed.hi == plan.region.max,
        in_domain(before.res, v),
        !in_region(plan.region, v),
    ensures
        after.at(v.x as int, v.y as int, v.z as int) == before.at(
            v.x as int,
            v.y as int,
            v.z as int,
        ),
{
    assert(in_region(stamp, v) ==> in_region(edit, v));
    assert(first.has(v) ==> in_region(stamp, v));
    match rim {
        Some(f) => {
            assert(f.has(v) ==> in_region(edit, v));
        },
        None => {},
    }
}

/// A region that grew has the voxels of the domain that are at most so far away, and no others.
pub proof fn law_grown_region_reaches_as_far(b: DirtyRegion, pad: u32, res: UVec3, v: UVec3)
    ensures
        in_region(grown(b, pad, res), v) <==> {
            &&& res.has(v.x as int, v.y as int, v.z as int)
            &&& b.min.x - pad <= v.x < b.max.x + pad
            &&& b.min.y - pad <= v.y < b.max.y + pad
            &&& b.min.z - pad <= v.z < b.max.z + pad
        },
{
}

/// A voxel lies in the interior of a box if all twenty-six voxels around it lie in the box.
pub proof fn law_interior_has_all_neighbours(lo: UVec3, hi: UVec3, v: UVec3)
    ensures
        interior(lo, hi, v) <==> {
            &&& in_box(lo, hi, v.x - 1, v.y - 1, v.z - 1)
            &&& in_box(lo, hi, v.x + 1, v.y + 1, v.z + 1)
        },
{
}

/// What is planned after the first step: a paddle that wrote nothing ends there; a finger whose
/// change is too small to make up for smooths its own footprint a little, and everything else
/// smooths the whole region of the tool, and makes up for the change if it is large enough.
pub proof fn law_plan_covers_the_tool(
    tool: DisplaceTool,
    stamp: DirtyRegion,
    edit: DirtyRegion,
    res: UVec3,
    wrote: bool,
    tiny: bool,
    v: UVec3,
)
    ensures
        plan_of(tool, stamp, edit, res, wrote, tiny) is None <==> tool == DisplaceTool::Paddle && !wrote,
        plan_of(tool, stamp, edit, res, wrote, tiny) matches Some(plan) ==> {
            &&& plan.recruit <==> !tiny
            &&& plan.passes == 2 || plan.passes == 4
            &&& !tiny || tool == DisplaceTool::Paddle ==> plan.passes == 4 && (res.has(
                v.x as int,
                v.y as int,
                v.z as int,
            ) && in_region(edit, v) ==> in_region(plan.region, v))
            &&& tiny && tool != DisplaceTool::Paddle ==> plan.passes == 2 && (res.has(
                v.x as int,
                v.y as int,
                v.z as int,
            ) && in_region(stamp, v) ==> in_region(plan.region, v))
        },
{
}

/// The paddle only presses down: its first step makes nothing solid.
pub proof fn law_paddle_adds_nothing(
    before: GridView,
    after: GridView,
    f: Field,
    change: Change,
    v: UVec3,
)
    requires
        stamped(before, after, f, first_step(DisplaceTool::Paddle), change),
        before.res.has(v.x as int, v.y as int, v.z as int),
        !is_nan(before.at(v.x as int, v.y as int, v.z as int)),
    ensures
        solid(after.at(v.x as int, v.y as int, v.z as int)) ==> solid(
            before.at(v.x as int, v.y as int, v.z as int),
        ),
{
    assert(after.at(v.x as int, v.y as int, v.z as int) == (if stamp_writes(
        before,
        f,
        first_step(DisplaceTool::Paddle),
        change,
        v,
    ) {
        stamp_value(before, f, first_step(DisplaceTool::Paddle), v)
    } else {
        before.at(v.x as int, v.y as int, v.z as int)
    }));
}

/// The fingers bring their own samples: after their first step a voxel has the sample that was
/// offered for it, or its own where the two differ too little to matter.
pub proof fn law_fingers_bring_their_samples(
    tool: DisplaceTool,
    before: GridView,
    after: GridView,
    f: Field,
    v: UVec3,
)
    requires
        tool != DisplaceTool::Paddle,
        stamped(before, after, f, first_step(tool), Change::Stirred),
        before.res.has(v.x as int, v.y as int, v.z as int),
        f.has(v),
        f.offer(v) is Some,
        f.floors is None,
    ensures
        ({
            let was = before.at(v.x as int, v.y as int, v.z as int);
            let now = after.at(v.x as int, v.y as int, v.z as int);
            let d = f.offer(v)->0;
            now == (if stirred(d, was) {
                d
            } else {
                was
            })
        }),
{
    assert(after.at(v.x as int, v.y as int, v.z as int) == (if stamp_writes(
        before,
        f,
        first_step(tool),
        Change::Stirred,
        v,
    ) {
        stamp_value(before, f, first_step(tool), v)
    } else {
        before.at(v.x as int, v.y as int, v.z as int)
    }));
}

} // verus!
