//! Connected-component labelling of the solid voxels of a grid.
//!
//! Two solid voxels belong to the same component when a chain of solid voxels
//! leads from one to the other, each sharing a face with the next.

use crate::grid::{chunk_hi, chunk_lo, lemma_chunk_box, lemma_domain_count, tile_of, ChunkCoord, Grid, GridView};
use crate::region::{box_cell, box_count, box_number, cell_of, count_of, in_box, lemma_box_cell, lemma_box_number, number_of};
use crate::sample::{is_solid, solid, FAR};
use crate::vec3::UVec3;
use vstd::math::abs;
use vstd::prelude::*;

verus! {

/// Component identifier. Zero stands for empty space; components start at one.
pub type ComponentId = u32;

/// The label of empty voxels.
pub const EMPTY: u32 = 0;

/// Voxel `v` of the grid is solid.
pub open spec fn solid_voxel(g: GridView, v: UVec3) -> bool {
    &&& g.res.has(v.x as int, v.y as int, v.z as int)
    &&& solid(g.at(v.x as int, v.y as int, v.z as int))
}

/// Voxels `a` and `b` share a face.
pub open spec fn share_face(a: UVec3, b: UVec3) -> bool {
    ||| a.y == b.y && a.z == b.z && (a.x == b.x + 1 || b.x == a.x + 1)
    ||| a.x == b.x && a.z == b.z && (a.y == b.y + 1 || b.y == a.y + 1)
    ||| a.x == b.x && a.y == b.y && (a.z == b.z + 1 || b.z == a.z + 1)
}

/// A chain of solid voxels, each sharing a face with the next.
pub open spec fn chain(g: GridView, path: Seq<UVec3>) -> bool {
    &&& path.len() > 0
    &&& forall|i: int| 0 <= i < path.len() ==> solid_voxel(g, #[trigger] path[i])
    &&& forall|i: int|
        0 <= i < path.len() - 1 ==> share_face(#[trigger] path[i], path[i + 1])
}

/// A chain leads from `a` to `b`.
pub open spec fn connected(g: GridView, a: UVec3, b: UVec3) -> bool {
    exists|path: Seq<UVec3>| #[trigger] chain(g, path) && path.first() == a && path.last() == b
}

proof fn lemma_connected_self(g: GridView, a: UVec3)
    requires
        solid_voxel(g, a),
    ensures
        connected(g, a, a),
{
    let p = seq![a];
    assert(chain(g, p));
    assert(p.first() == a && p.last() == a);
}

proof fn lemma_connected_step(g: GridView, a: UVec3, b: UVec3, c: UVec3)
    requires
        connected(g, a, b),
        share_face(b, c),
        solid_voxel(g, c),
    ensures
        connected(g, a, c),
{
    let p = choose|p: Seq<UVec3>| #[trigger] chain(g, p) && p.first() == a && p.last() == b;
    let q = p.push(c);
    assert forall|i: int| 0 <= i < q.len() - 1 implies share_face(#[trigger] q[i], q[i + 1]) by {
        if i < p.len() - 1 {
            assert(share_face(p[i], p[i + 1]));
        }
    }
    assert(chain(g, q));
    assert(q.first() == a && q.last() == c);
}

/// A chain can be walked backwards.
pub proof fn law_connected_symmetric(g: GridView, a: UVec3, b: UVec3)
    requires
        connected(g, a, b),
    ensures
        connected(g, b, a),
{
    let p = choose|p: Seq<UVec3>| #[trigger] chain(g, p) && p.first() == a && p.last() == b;
    let n = p.len() as int;
    let q = Seq::new(p.len(), |i: int| p[n - 1 - i]);
    assert forall|i: int| 0 <= i < q.len() - 1 implies share_face(#[trigger] q[i], q[i + 1]) by {
        assert(share_face(p[n - 2 - i], p[n - 2 - i + 1]));
    }
    assert(chain(g, q));
    assert(q.first() == b && q.last() == a);
}

/// Chains can be joined.
pub proof fn law_connected_transitive(g: GridView, a: UVec3, b: UVec3, c: UVec3)
    requires
        connected(g, a, b),
        connected(g, b, c),
    ensures
        connected(g, a, c),
{
    let p = choose|p: Seq<UVec3>| #[trigger] chain(g, p) && p.first() == a && p.last() == b;
    let q = choose|q: Seq<UVec3>| #[trigger] chain(g, q) && q.first() == b && q.last() == c;
    let r = p + q.subrange(1, q.len() as int);
    assert forall|i: int| 0 <= i < r.len() implies solid_voxel(g, #[trigger] r[i]) by {
        if i >= p.len() {
            assert(r[i] == q[i - p.len() + 1]);
        }
    }
    assert forall|i: int| 0 <= i < r.len() - 1 implies share_face(#[trigger] r[i], r[i + 1]) by {
        if i < p.len() - 1 {
            assert(share_face(p[i], p[i + 1]));
        } else if i == p.len() - 1 {
            assert(r[i] == q[0]);
            assert(share_face(q[0], q[1]));
        } else {
            let j = i - p.len() + 1;
            assert(share_face(q[j], q[j + 1]));
        }
    }
    assert(chain(g, r));
    assert(r.first() == a);
    assert(r.last() == c);
}

/// The label of voxel `v` in a buffer over the whole domain.
pub open spec fn label(ids: Seq<u32>, res: UVec3, v: UVec3) -> u32 {
    ids[box_number(UVec3::zero(), res, v.x as int, v.y as int, v.z as int)]
}

/// `v` is a voxel of the domain.
pub open spec fn in_domain(res: UVec3, v: UVec3) -> bool {
    res.has(v.x as int, v.y as int, v.z as int)
}

/// Number of entries of `ids` that equal `id`.
pub open spec fn occurrences(ids: Seq<u32>, id: u32) -> nat
    decreases ids.len(),
{
    if ids.len() == 0 {
        0
    } else {
        occurrences(ids.drop_last(), id) + (if ids.last() == id {
            1nat
        } else {
            0nat
        })
    }
}

proof fn lemma_occurrences_update(ids: Seq<u32>, i: int, v: u32, id: u32)
    requires
        0 <= i < ids.len(),
    ensures
        occurrences(ids.update(i, v), id) + (if ids[i] == id {
            1int
        } else {
            0
        }) == occurrences(ids, id) + (if v == id {
            1int
        } else {
            0
        }),
    decreases ids.len(),
{
    let new = ids.update(i, v);
    if i == ids.len() - 1 {
        assert(new.drop_last() =~= ids.drop_last());
    } else {
        assert(new.drop_last() =~= ids.drop_last().update(i, v));
        lemma_occurrences_update(ids.drop_last(), i, v, id);
    }
}

proof fn lemma_occurrences_bound(ids: Seq<u32>, id: u32)
    ensures
        occurrences(ids, id) <= ids.len(),
    decreases ids.len(),
{
    if ids.len() > 0 {
        lemma_occurrences_bound(ids.drop_last(), id);
    }
}

proof fn lemma_occurrences_two(ids: Seq<u32>, a: u32, b: u32)
    requires
        a != b,
    ensures
        occurrences(ids, a) + occurrences(ids, b) <= ids.len(),
    decreases ids.len(),
{
    if ids.len() > 0 {
        lemma_occurrences_two(ids.drop_last(), a, b);
    }
}

proof fn lemma_occurrences_positive(ids: Seq<u32>, i: int)
    requires
        0 <= i < ids.len(),
    ensures
        occurrences(ids, ids[i]) > 0,
    decreases ids.len(),
{
    if i < ids.len() - 1 {
        lemma_occurrences_positive(ids.drop_last(), i);
    }
}

proof fn lemma_occurrences_zero(ids: Seq<u32>, id: u32)
    requires
        forall|i: int| 0 <= i < ids.len() ==> ids[i] != id,
    ensures
        occurrences(ids, id) == 0,
    decreases ids.len(),
{
    if ids.len() > 0 {
        lemma_occurrences_zero(ids.drop_last(), id);
    }
}

proof fn lemma_occurrences_all(ids: Seq<u32>, id: u32)
    requires
        forall|i: int| 0 <= i < ids.len() ==> ids[i] == id,
    ensures
        occurrences(ids, id) == ids.len(),
    decreases ids.len(),
{
    if ids.len() > 0 {
        lemma_occurrences_all(ids.drop_last(), id);
    }
}

/// The box from `lo` to `hi` is the smallest that holds every voxel labelled
/// `id`.
pub open spec fn tight_box(ids: Seq<u32>, res: UVec3, id: u32, lo: UVec3, hi: UVec3) -> bool {
    &&& forall|v: UVec3|
        in_domain(res, v) && #[trigger] label(ids, res, v) == id ==> in_box(
            lo,
            hi,
            v.x as int,
            v.y as int,
            v.z as int,
        )
    &&& exists|v: UVec3| in_domain(res, v) && #[trigger] label(ids, res, v) == id && v.x == lo.x
    &&& exists|v: UVec3| in_domain(res, v) && #[trigger] label(ids, res, v) == id && v.y == lo.y
    &&& exists|v: UVec3| in_domain(res, v) && #[trigger] label(ids, res, v) == id && v.z == lo.z
    &&& exists|v: UVec3| in_domain(res, v) && #[trigger] label(ids, res, v) == id && v.x + 1 == hi.x
    &&& exists|v: UVec3| in_domain(res, v) && #[trigger] label(ids, res, v) == id && v.y + 1 == hi.y
    &&& exists|v: UVec3| in_domain(res, v) && #[trigger] label(ids, res, v) == id && v.z + 1 == hi.z
}

/// Some voxel is labelled `id`.
pub open spec fn worn(ids: Seq<u32>, res: UVec3, id: u32) -> bool {
    exists|v: UVec3| in_domain(res, v) && #[trigger] label(ids, res, v) == id
}

/// A labelling in progress: what is labelled is solid, lies in one component
/// per label, and takes in every solid voxel beside it.
spec fn partial(g: GridView, ids: Seq<u32>, next: int) -> bool {
    &&& ids.len() == g.res.volume()
    &&& forall|v: UVec3|
        in_domain(g.res, v) ==> #[trigger] label(ids, g.res, v) < next
    &&& forall|v: UVec3|
        in_domain(g.res, v) && #[trigger] label(ids, g.res, v) != 0 ==> solid_voxel(g, v)
    &&& forall|a: UVec3, b: UVec3|
        #![trigger label(ids, g.res, a), label(ids, g.res, b)]
        in_domain(g.res, a) && label(ids, g.res, a) != 0 && solid_voxel(g, b) && share_face(a, b)
            ==> label(ids, g.res, b) == label(ids, g.res, a)
    &&& forall|a: UVec3, b: UVec3|
        #![trigger label(ids, g.res, a), label(ids, g.res, b)]
        in_domain(g.res, a) && in_domain(g.res, b) && label(ids, g.res, a) != 0 && label(
            ids,
            g.res,
            a,
        ) == label(ids, g.res, b) ==> connected(g, a, b)
}

/// Counts and boxes agree with the labels.
spec fn stats(
    ids: Seq<u32>,
    res: UVec3,
    counts: Seq<u32>,
    bounds: Seq<(UVec3, UVec3)>,
) -> bool {
    &&& counts.len() == bounds.len()
    &&& counts.len() >= 1
    &&& forall|i: int| 0 <= i < counts.len() ==> #[trigger] counts[i] == occurrences(ids, i as u32)
    &&& forall|i: int|
        1 <= i < bounds.len() ==> tight_box(
            ids,
            res,
            i as u32,
            (#[trigger] bounds[i]).0,
            bounds[i].1,
        )
}

proof fn lemma_label_update(ids: Seq<u32>, res: UVec3, v: UVec3, id: u32)
    requires
        ids.len() == res.volume(),
        in_domain(res, v),
    ensures
        ({
            let k = box_number(UVec3::zero(), res, v.x as int, v.y as int, v.z as int);
            let new = ids.update(k, id);
            &&& 0 <= k < ids.len()
            &&& label(new, res, v) == id
            &&& forall|w: UVec3|
                in_domain(res, w) && w != v ==> #[trigger] label(new, res, w) == label(ids, res, w)
        }),
{
    let zero = UVec3::zero();
    let k = box_number(zero, res, v.x as int, v.y as int, v.z as int);
    let new = ids.update(k, id);
    lemma_domain_count(res);
    lemma_box_number(zero, res, v.x as int, v.y as int, v.z as int);
    assert forall|w: UVec3| in_domain(res, w) && w != v implies #[trigger] label(new, res, w) == label(
        ids,
        res,
        w,
    ) by {
        lemma_box_number(zero, res, w.x as int, w.y as int, w.z as int);
    }
}

/// Labelling one more voxel grows the box of its component by that voxel, and
/// leaves the other boxes tight.
proof fn lemma_tight_grow(
    ids: Seq<u32>,
    new: Seq<u32>,
    res: UVec3,
    id: u32,
    lo: UVec3,
    hi: UVec3,
    v: UVec3,
)
    requires
        in_domain(res, v),
        tight_box(ids, res, id, lo, hi),
        label(new, res, v) == id,
        forall|w: UVec3|
            in_domain(res, w) && w != v ==> #[trigger] label(new, res, w) == label(ids, res, w),
    ensures
        tight_box(
            new,
            res,
            id,
            lo.spec_min(v),
            hi.spec_max(UVec3 { x: (v.x + 1) as u32, y: (v.y + 1) as u32, z: (v.z + 1) as u32 }),
        ),
{
    let lo2 = lo.spec_min(v);
    let hi2 = hi.spec_max(
        UVec3 { x: (v.x + 1) as u32, y: (v.y + 1) as u32, z: (v.z + 1) as u32 },
    );
    assert forall|w: UVec3| in_domain(res, w) && #[trigger] label(new, res, w) == id implies in_box(
        lo2,
        hi2,
        w.x as int,
        w.y as int,
        w.z as int,
    ) by {
        if w != v {
            assert(label(ids, res, w) == id);
        }
    }
    let a = choose|w: UVec3| in_domain(res, w) && #[trigger] label(ids, res, w) == id && w.x == lo.x;
    let b = choose|w: UVec3| in_domain(res, w) && #[trigger] label(ids, res, w) == id && w.y == lo.y;
    let c = choose|w: UVec3| in_domain(res, w) && #[trigger] label(ids, res, w) == id && w.z == lo.z;
    let d = choose|w: UVec3| in_domain(res, w) && #[trigger] label(ids, res, w) == id && w.x + 1 == hi.x;
    let e = choose|w: UVec3| in_domain(res, w) && #[trigger] label(ids, res, w) == id && w.y + 1 == hi.y;
    let f = choose|w: UVec3| in_domain(res, w) && #[trigger] label(ids, res, w) == id && w.z + 1 == hi.z;
    assert(label(new, res, a) == id);
    assert(label(new, res, b) == id);
    assert(label(new, res, c) == id);
    assert(label(new, res, d) == id);
    assert(label(new, res, e) == id);
    assert(label(new, res, f) == id);
}

proof fn lemma_tight_first(ids: Seq<u32>, res: UVec3, id: u32, v: UVec3)
    requires
        in_domain(res, v),
        label(ids, res, v) == id,
        forall|w: UVec3| in_domain(res, w) && w != v ==> #[trigger] label(ids, res, w) != id,
    ensures
        tight_box(
            ids,
            res,
            id,
            v,
            UVec3 { x: (v.x + 1) as u32, y: (v.y + 1) as u32, z: (v.z + 1) as u32 },
        ),
{
    assert(in_domain(res, v) && label(ids, res, v) == id);
}

/// A box stays tight when no voxel gains or loses its label.
proof fn lemma_tight_frame(ids: Seq<u32>, new: Seq<u32>, res: UVec3, id: u32, lo: UVec3, hi: UVec3)
    requires
        tight_box(ids, res, id, lo, hi),
        forall|w: UVec3|
            in_domain(res, w) ==> (#[trigger] label(new, res, w) == id <==> label(ids, res, w) == id),
    ensures
        tight_box(new, res, id, lo, hi),
{
    assert forall|w: UVec3| in_domain(res, w) && #[trigger] label(new, res, w) == id implies in_box(
        lo,
        hi,
        w.x as int,
        w.y as int,
        w.z as int,
    ) by {
        assert(label(ids, res, w) == id);
    }
    let a = choose|w: UVec3| in_domain(res, w) && #[trigger] label(ids, res, w) == id && w.x == lo.x;
    let b = choose|w: UVec3| in_domain(res, w) && #[trigger] label(ids, res, w) == id && w.y == lo.y;
    let c = choose|w: UVec3| in_domain(res, w) && #[trigger] label(ids, res, w) == id && w.z == lo.z;
    let d = choose|w: UVec3| in_domain(res, w) && #[trigger] label(ids, res, w) == id && w.x + 1 == hi.x;
    let e = choose|w: UVec3| in_domain(res, w) && #[trigger] label(ids, res, w) == id && w.y + 1 == hi.y;
    let f = choose|w: UVec3| in_domain(res, w) && #[trigger] label(ids, res, w) == id && w.z + 1 == hi.z;
    assert(label(new, res, a) == id);
    assert(label(new, res, b) == id);
    assert(label(new, res, c) == id);
    assert(label(new, res, d) == id);
    assert(label(new, res, e) == id);
    assert(label(new, res, f) == id);
}

/// `v` is the neighbour of `u` in direction `d`.
spec fn beside(u: UVec3, v: UVec3, d: int) -> bool {
    if d == 0 {
        v.x == u.x + 1 && v.y == u.y && v.z == u.z
    } else if d == 1 {
        v.x == u.x - 1 && v.y == u.y && v.z == u.z
    } else if d == 2 {
        v.x == u.x && v.y == u.y + 1 && v.z == u.z
    } else if d == 3 {
        v.x == u.x && v.y == u.y - 1 && v.z == u.z
    } else if d == 4 {
        v.x == u.x && v.y == u.y && v.z == u.z + 1
    } else {
        v.x == u.x && v.y == u.y && v.z == u.z - 1
    }
}

/// The neighbour of `u` in direction `d`, if the domain has it.
fn neighbour(u: UVec3, d: usize, res: UVec3) -> (r: Option<UVec3>)
    requires
        in_domain(res, u),
        d < 6,
    ensures
        r matches Some(v) ==> beside(u, v, d as int) && in_domain(res, v),
        r is None ==> forall|v: UVec3| #[trigger] beside(u, v, d as int) ==> !in_domain(res, v),
{
    if d == 0 {
        if u.x + 1 < res.x {
            Some(UVec3 { x: u.x + 1, y: u.y, z: u.z })
        } else {
            None
        }
    } else if d == 1 {
        if u.x > 0 {
            Some(UVec3 { x: u.x - 1, y: u.y, z: u.z })
        } else {
            None
        }
    } else if d == 2 {
        if u.y + 1 < res.y {
            Some(UVec3 { x: u.x, y: u.y + 1, z: u.z })
        } else {
            None
        }
    } else if d == 3 {
        if u.y > 0 {
            Some(UVec3 { x: u.x, y: u.y - 1, z: u.z })
        } else {
            None
        }
    } else if d == 4 {
        if u.z + 1 < res.z {
            Some(UVec3 { x: u.x, y: u.y, z: u.z + 1 })
        } else {
            None
        }
    } else {
        if u.z > 0 {
            Some(UVec3 { x: u.x, y: u.y, z: u.z - 1 })
        } else {
            None
        }
    }
}

/// A component half filled from `seed`: `queue` holds what has been labelled
/// so far, on top of the labels `base`.
spec fn flooding(
    g: GridView,
    base: Seq<u32>,
    ids: Seq<u32>,
    id: u32,
    seed: UVec3,
    queue: Seq<UVec3>,
) -> bool {
    &&& partial(g, base, id as int)
    &&& ids.len() == base.len()
    &&& forall|v: UVec3|
        in_domain(g.res, v) ==> #[trigger] label(ids, g.res, v) == (if queue.contains(v) {
            id
        } else {
            label(base, g.res, v)
        })
    &&& forall|v: UVec3| #[trigger]
        queue.contains(v) ==> in_domain(g.res, v) && solid_voxel(g, v) && label(base, g.res, v) == 0
            && connected(g, seed, v)
    &&& occurrences(ids, id) == queue.len()
}

/// Every solid voxel beside the first `head` of the queue is labelled.
spec fn surrounded(g: GridView, ids: Seq<u32>, id: u32, queue: Seq<UVec3>, head: int) -> bool {
    forall|i: int, b: UVec3|
        #![trigger queue[i], label(ids, g.res, b)]
        0 <= i < head && solid_voxel(g, b) && share_face(queue[i], b) ==> label(ids, g.res, b) == id
}

/// Label one more voxel of the component being filled.
fn claim(
    ids: &mut Vec<u32>,
    counts: &mut Vec<u32>,
    queue: &mut Vec<UVec3>,
    res: UVec3,
    v: UVec3,
    id: u32,
)
    requires
        in_domain(res, v),
        old(ids).len() == res.volume(),
        res.volume() <= u32::MAX,
        label(old(ids)@, res, v) == 0,
        1 <= id,
        old(counts).len() == id + 1,
        forall|i: int|
            0 <= i < old(counts).len() ==> #[trigger] old(counts)@[i] == occurrences(
                old(ids)@,
                i as u32,
            ),
    ensures
        final(queue)@ == old(queue)@.push(v),
        final(ids)@ == old(ids)@.update(
            box_number(UVec3::zero(), res, v.x as int, v.y as int, v.z as int),
            id,
        ),
        final(counts).len() == old(counts).len(),
        forall|i: int|
            0 <= i < final(counts).len() ==> #[trigger] final(counts)@[i] == occurrences(
                final(ids)@,
                i as u32,
            ),
        occurrences(final(ids)@, id) == occurrences(old(ids)@, id) + 1,
{
    let ghost was = ids@;
    proof {
        lemma_domain_count(res);
        lemma_label_update(ids@, res, v, id);
    }
    let k: usize = number_of(UVec3 { x: 0, y: 0, z: 0 }, res, v.x, v.y, v.z);
    proof {
        assert(ids@[k as int] == 0);
        lemma_occurrences_positive(ids@, k as int);
        lemma_occurrences_bound(ids@, id);
        lemma_occurrences_two(ids@, 0, id);
        assert(counts@[0] == occurrences(ids@, 0));
        assert(counts@[id as int] == occurrences(ids@, id));
        assert forall|i: int| 0 <= i < counts.len() implies occurrences(was.update(k as int, id), i as u32)
            == #[trigger] counts@[i] + (if i == id {
            1int
        } else {
            0
        }) - (if i == 0 {
            1int
        } else {
            0
        }) by {
            lemma_occurrences_update(was, k as int, id, i as u32);
        }
        lemma_occurrences_update(was, k as int, id, id);
    }
    ids[k] = id;
    let empty: u32 = counts[0];
    counts[0] = empty - 1;
    let filled: u32 = counts[id as usize];
    counts[id as usize] = filled + 1;
    queue.push(v);
    proof {
        assert(ids@ =~= was.update(k as int, id));
    }
}

proof fn lemma_push_contains(queue: Seq<UVec3>, v: UVec3)
    ensures
        forall|w: UVec3| #[trigger] queue.push(v).contains(w) <==> queue.contains(w) || w == v,
{
    assert forall|w: UVec3| #[trigger] queue.push(v).contains(w) <==> queue.contains(w) || w == v by {
        if queue.contains(w) {
            let i = choose|i: int| 0 <= i < queue.len() && queue[i] == w;
            assert(queue.push(v)[i] == w);
        }
        if w == v {
            assert(queue.push(v)[queue.len() as int] == w);
        }
    }
}

/// Labelling a voxel beside the component keeps the fill in order.
proof fn lemma_flooding_claim(
    g: GridView,
    base: Seq<u32>,
    ids: Seq<u32>,
    id: u32,
    seed: UVec3,
    queue: Seq<UVec3>,
    v: UVec3,
)
    requires
        flooding(g, base, ids, id, seed, queue),
        solid_voxel(g, v),
        label(ids, g.res, v) == 0,
        id > 0,
        connected(g, seed, v),
    ensures
        ({
            let k = box_number(UVec3::zero(), g.res, v.x as int, v.y as int, v.z as int);
            &&& flooding(g, base, ids.update(k, id), id, seed, queue.push(v))
            &&& forall|w: UVec3|
                in_domain(g.res, w) && w != v ==> #[trigger] label(ids.update(k, id), g.res, w)
                    == label(ids, g.res, w)
            &&& label(ids.update(k, id), g.res, v) == id
        }),
{
    let k = box_number(UVec3::zero(), g.res, v.x as int, v.y as int, v.z as int);
    let new = ids.update(k, id);
    lemma_label_update(ids, g.res, v, id);
    lemma_push_contains(queue, v);
    lemma_occurrences_update(ids, k, id, id);
    assert(ids[k] == 0);
    assert(label(base, g.res, v) == 0);
}

/// Once the queue has been worked through, the component is complete.
proof fn lemma_flooded(
    g: GridView,
    base: Seq<u32>,
    ids: Seq<u32>,
    id: u32,
    seed: UVec3,
    queue: Seq<UVec3>,
)
    requires
        flooding(g, base, ids, id, seed, queue),
        surrounded(g, ids, id, queue, queue.len() as int),
        id > 0,
    ensures
        partial(g, ids, id + 1),
{
    assert forall|v: UVec3| in_domain(g.res, v) implies #[trigger] label(ids, g.res, v) < id + 1 by {
        assert(label(base, g.res, v) < id);
    }
    assert forall|v: UVec3|
        in_domain(g.res, v) && #[trigger] label(ids, g.res, v) != 0 implies solid_voxel(g, v) by {
        if !queue.contains(v) {
            assert(label(base, g.res, v) != 0);
        }
    }
    assert forall|a: UVec3, b: UVec3|
        #![trigger label(ids, g.res, a), label(ids, g.res, b)]
        in_domain(g.res, a) && label(ids, g.res, a) != 0 && solid_voxel(g, b) && share_face(
            a,
            b,
        ) implies label(ids, g.res, b) == label(ids, g.res, a) by {
        if queue.contains(a) {
            let i = choose|i: int| 0 <= i < queue.len() && queue[i] == a;
            assert(queue[i] == a);
        } else {
            assert(label(base, g.res, a) != 0);
            assert(label(base, g.res, b) == label(base, g.res, a));
        }
    }
    assert forall|a: UVec3, b: UVec3|
        #![trigger label(ids, g.res, a), label(ids, g.res, b)]
        in_domain(g.res, a) && in_domain(g.res, b) && label(ids, g.res, a) != 0 && label(
            ids,
            g.res,
            a,
        ) == label(ids, g.res, b) implies connected(g, a, b) by {
        assert(label(base, g.res, a) < id && label(base, g.res, b) < id);
        if queue.contains(a) {
            assert(queue.contains(b));
            law_connected_symmetric(g, seed, a);
            law_connected_transitive(g, a, seed, b);
        } else {
            assert(!queue.contains(b));
            assert(label(base, g.res, a) == label(base, g.res, b));
        }
    }
}

/// Label the whole component of an unlabelled solid voxel, breadth first, and
/// return its box.
fn flood(grid: &Grid, ids: &mut Vec<u32>, counts: &mut Vec<u32>, seed: UVec3, id: u32) -> (r: (
    UVec3,
    UVec3,
))
    requires
        grid.wf(),
        grid@.res.volume() <= u32::MAX,
        id >= 1,
        partial(grid@, old(ids)@, id as int),
        solid_voxel(grid@, seed),
        label(old(ids)@, grid@.res, seed) == 0,
        old(counts).len() == id,
        forall|i: int|
            0 <= i < old(counts).len() ==> #[trigger] old(counts)@[i] == occurrences(
                old(ids)@,
                i as u32,
            ),
    ensures
        partial(grid@, final(ids)@, id + 1),
        final(counts).len() == id + 1,
        forall|i: int|
            0 <= i < final(counts).len() ==> #[trigger] final(counts)@[i] == occurrences(
                final(ids)@,
                i as u32,
            ),
        occurrences(final(ids)@, 0) < occurrences(old(ids)@, 0),
        label(final(ids)@, grid@.res, seed) == id,
        forall|v: UVec3|
            in_domain(grid@.res, v) && label(old(ids)@, grid@.res, v) != 0 ==> #[trigger] label(
                final(ids)@,
                grid@.res,
                v,
            ) == label(old(ids)@, grid@.res, v),
        forall|v: UVec3|
            in_domain(grid@.res, v) && label(old(ids)@, grid@.res, v) == 0 ==> #[trigger] label(
                final(ids)@,
                grid@.res,
                v,
            ) == 0 || label(final(ids)@, grid@.res, v) == id,
        tight_box(final(ids)@, grid@.res, id, r.0, r.1),
{
    let res = grid.res();
    let ghost g = grid@;
    let ghost base = ids@;
    let mut queue: Vec<UVec3> = Vec::new();
    proof {
        assert forall|k: int| 0 <= k < base.len() implies base[k] != id by {
            lemma_domain_count(res);
            lemma_box_cell(UVec3::zero(), res, k);
            let v = box_cell(UVec3::zero(), res, k);
            assert(label(base, res, v) < id);
        }
        lemma_occurrences_zero(base, id);
        lemma_connected_self(g, seed);
    }
    counts.push(0);
    assert(flooding(g, base, ids@, id, seed, queue@));
    claim(ids, counts, &mut queue, res, seed, id);
    let mut lo: UVec3 = seed;
    let mut hi: UVec3 = UVec3 { x: seed.x + 1, y: seed.y + 1, z: seed.z + 1 };
    proof {
        lemma_flooding_claim(g, base, base, id, seed, Seq::empty(), seed);
        assert(queue@ =~= Seq::empty().push(seed));
        assert forall|w: UVec3| in_domain(res, w) && w != seed implies #[trigger] label(ids@, res, w)
            != id by {
            assert(label(base, res, w) < id);
        }
        lemma_tight_first(ids@, res, id, seed);
        lemma_label_update(base, res, seed, id);
        lemma_occurrences_update(
            base,
            box_number(UVec3::zero(), res, seed.x as int, seed.y as int, seed.z as int),
            id,
            0,
        );
    }
    let mut head: usize = 0;
    while head < queue.len()
        invariant
            head <= queue.len(),
            grid.wf(),
            g == grid@,
            res == g.res,
            id >= 1,
            res.volume() <= u32::MAX,
            flooding(g, base, ids@, id, seed, queue@),
            surrounded(g, ids@, id, queue@, head as int),
            counts.len() == id + 1,
            forall|i: int|
                0 <= i < counts.len() ==> #[trigger] counts@[i] == occurrences(ids@, i as u32),
            tight_box(ids@, res, id, lo, hi),
            occurrences(ids@, 0) < occurrences(base, 0),
            label(ids@, res, seed) == id,
            ids.len() == res.volume(),
        decreases res.volume() - head,
    {
        proof {
            lemma_occurrences_bound(ids@, id);
        }
        let u = queue[head];
        assert(queue@.contains(u)) by {
            assert(queue@[head as int] == u);
        }
        let mut d: usize = 0;
        while d < 6
            invariant
                d <= 6,
                head < queue.len(),
                u == queue@[head as int],
                in_domain(res, u),
                solid_voxel(g, u),
                label(base, res, u) == 0,
                connected(g, seed, u),
                grid.wf(),
                g == grid@,
                res == g.res,
                id >= 1,
                res.volume() <= u32::MAX,
                flooding(g, base, ids@, id, seed, queue@),
                surrounded(g, ids@, id, queue@, head as int),
                forall|b: UVec3, e: int|
                    #![trigger beside(u, b, e)]
                    0 <= e < d && solid_voxel(g, b) && beside(u, b, e) ==> label(ids@, res, b) == id,
                counts.len() == id + 1,
                forall|i: int|
                    0 <= i < counts.len() ==> #[trigger] counts@[i] == occurrences(ids@, i as u32),
                tight_box(ids@, res, id, lo, hi),
                occurrences(ids@, 0) < occurrences(base, 0),
                label(ids@, res, seed) == id,
                ids.len() == res.volume(),
            decreases 6 - d,
        {
            if let Some(v) = neighbour(u, d, res) {
                proof {
                    lemma_domain_count(res);
                    lemma_box_number(UVec3::zero(), res, v.x as int, v.y as int, v.z as int);
                }
                let k: usize = number_of(UVec3 { x: 0, y: 0, z: 0 }, res, v.x, v.y, v.z);
                assert(ids@[k as int] == label(ids@, res, v));
                if ids[k] != EMPTY {
                    proof {
                        if solid_voxel(g, v) && !queue@.contains(v) {
                            assert(label(base, res, v) != 0);
                            assert(share_face(v, u));
                            assert(label(base, res, u) == label(base, res, v));
                        }
                    }
                } else if is_solid(grid.get(v.x, v.y, v.z)) {
                    let ghost was = ids@;
                    let ghost old_queue = queue@;
                    proof {
                        assert(share_face(u, v));
                        lemma_connected_step(g, seed, u, v);
                        lemma_flooding_claim(g, base, ids@, id, seed, queue@, v);
                        lemma_occurrences_update(was, k as int, id, 0);
                    }
                    claim(ids, counts, &mut queue, res, v, id);
                    proof {
                        lemma_tight_grow(was, ids@, res, id, lo, hi, v);
                        assert forall|i: int, b: UVec3|
                            #![trigger queue@[i], label(ids@, g.res, b)]
                            0 <= i < head && solid_voxel(g, b) && share_face(
                                queue@[i],
                                b,
                            ) implies label(ids@, g.res, b) == id by {
                            assert(queue@[i] == old_queue[i]);
                            assert(label(was, g.res, b) == id);
                        }
                        assert forall|b: UVec3, e: int|
                            #![trigger beside(u, b, e)]
                            0 <= e < d && solid_voxel(g, b) && beside(u, b, e) implies label(
                            ids@,
                            res,
                            b,
                        ) == id by {
                            assert(label(was, res, b) == id);
                        }
                    }
                    lo = lo.min(v);
                    hi = hi.max(UVec3 { x: v.x + 1, y: v.y + 1, z: v.z + 1 });
                }
                proof {
                    assert forall|b: UVec3, e: int|
                        #![trigger beside(u, b, e)]
                        0 <= e < d + 1 && solid_voxel(g, b) && beside(u, b, e) implies label(
                        ids@,
                        res,
                        b,
                    ) == id by {
                        if e == d {
                            assert(b == v);
                        }
                    }
                }
            }
            d = d + 1;
        }
        proof {
            assert forall|i: int, b: UVec3|
                #![trigger queue@[i], label(ids@, g.res, b)]
                0 <= i < head + 1 && solid_voxel(g, b) && share_face(queue@[i], b) implies label(
                ids@,
                g.res,
                b,
            ) == id by {
                if i == head {
                    assert(beside(u, b, 0) || beside(u, b, 1) || beside(u, b, 2) || beside(u, b, 3)
                        || beside(u, b, 4) || beside(u, b, 5));
                }
            }
        }
        head = head + 1;
    }
    proof {
        lemma_flooded(g, base, ids@, id, seed, queue@);
    }
    (lo, hi)
}

/// A component label for every voxel, with the size and box of each component.
pub struct ComponentField {
    ids: Vec<u32>,
    res: UVec3,
    counts: Vec<u32>,
    bounds: Vec<(UVec3, UVec3)>,
}

impl View for ComponentField {
    type V = Seq<u32>;

    /// The labels of the domain, x fastest.
    closed spec fn view(&self) -> Seq<u32> {
        self.ids@
    }
}

impl ComponentField {
    /// Resolution of the labelled domain.
    pub closed spec fn domain(&self) -> UVec3 {
        self.res
    }

    /// Number of components.
    pub closed spec fn count(&self) -> int {
        self.counts.len() - 1
    }

    /// The box of component `id`: its first voxel, and the first voxel past it.
    pub closed spec fn box_of(&self, id: u32) -> (UVec3, UVec3) {
        self.bounds@[id as int]
    }

    /// The label of voxel `v`.
    pub open spec fn id(&self, v: UVec3) -> u32 {
        label(self@, self.domain(), v)
    }

    /// There is a label for each voxel, and the sizes and boxes agree with the
    /// labels.
    pub closed spec fn wf(&self) -> bool {
        &&& self.ids.len() == self.res.volume()
        &&& self.res.volume() <= u32::MAX
        &&& self.counts.len() <= u32::MAX as int + 1
        &&& stats(self.ids@, self.res, self.counts@, self.bounds@)
        &&& forall|v: UVec3|
            in_domain(self.res, v) ==> #[trigger] label(self.ids@, self.res, v) < self.counts.len()
        &&& forall|i: u32| 1 <= i < self.counts.len() ==> #[trigger] worn(self.ids@, self.res, i)
    }

    /// The labels are those of the components of `g`: empty voxels are labelled
    /// zero, and solid voxels have the same label exactly when they are
    /// connected.
    pub open spec fn labels(&self, g: GridView) -> bool {
        &&& self.wf()
        &&& self.domain() == g.res
        &&& forall|v: UVec3|
            in_domain(g.res, v) ==> (#[trigger] self.id(v) == 0 <==> !solid_voxel(g, v))
        &&& forall|a: UVec3, b: UVec3|
            #![trigger self.id(a), self.id(b)]
            solid_voxel(g, a) && solid_voxel(g, b) ==> (self.id(a) == self.id(b) <==> connected(
                g,
                a,
                b,
            ))
    }

    /// What a well formed field promises.
    pub proof fn lemma_wf(&self)
        requires
            self.wf(),
        ensures
            self@.len() == self.domain().volume(),
            self.domain().volume() <= u32::MAX,
            0 <= self.count() <= u32::MAX,
            forall|v: UVec3| in_domain(self.domain(), v) ==> #[trigger] self.id(v) <= self.count(),
            forall|i: u32| 1 <= i <= self.count() ==> #[trigger] worn(self@, self.domain(), i),
    {
        assert forall|v: UVec3| in_domain(self.domain(), v) implies #[trigger] self.id(v) <= self.count() by {
            assert(label(self.ids@, self.res, v) < self.counts.len());
        }
    }

    /// The box of each component is tight.
    pub proof fn lemma_box_of(&self, id: u32)
        requires
            self.wf(),
            1 <= id <= self.count(),
        ensures
            tight_box(self@, self.domain(), id, self.box_of(id).0, self.box_of(id).1),
    {
        assert(self.bounds@[id as int] == self.box_of(id));
    }

    /// The resolution that was labelled.
    pub fn res(&self) -> (r: UVec3)
        ensures
            r == self.domain(),
    {
        self.res
    }

    /// The label of a voxel.
    pub fn id_at(&self, x: u32, y: u32, z: u32) -> (r: u32)
        requires
            self.wf(),
            self.domain().has(x as int, y as int, z as int),
        ensures
            r == self.id(UVec3 { x, y, z }),
            r <= self.count(),
    {
        proof {
            lemma_domain_count(self.res);
            assert(label(self.ids@, self.res, UVec3 { x, y, z }) < self.counts.len());
        }
        self.ids[number_of(UVec3 { x: 0, y: 0, z: 0 }, self.res, x, y, z)]
    }

    /// Every label, x fastest.
    pub fn ids(&self) -> (r: &Vec<u32>)
        ensures
            r@ == self@,
    {
        &self.ids
    }

    /// Number of distinct components.
    pub fn component_count(&self) -> (r: usize)
        requires
            self.wf(),
        ensures
            r == self.count(),
            r <= u32::MAX,
            r < usize::MAX,
    {
        self.counts.len() - 1
    }

    /// Number of voxels with a label; none for a label that does not occur.
    pub fn voxel_count(&self, id: u32) -> (r: u32)
        requires
            self.wf(),
        ensures
            r == occurrences(self@, id),
    {
        if (id as usize) < self.counts.len() {
            self.counts[id as usize]
        } else {
            proof {
                assert forall|k: int| 0 <= k < self.ids.len() implies self.ids@[k] != id by {
                    lemma_domain_count(self.res);
                    lemma_box_cell(UVec3::zero(), self.res, k);
                    let v = box_cell(UVec3::zero(), self.res, k);
                    assert(label(self.ids@, self.res, v) < self.counts.len());
                }
                lemma_occurrences_zero(self.ids@, id);
            }
            0
        }
    }

    /// The smallest box that holds a component: its first voxel, and the first
    /// voxel past it. `None` for the empty label and for unknown labels.
    pub fn bounds_of(&self, id: u32) -> (r: Option<(UVec3, UVec3)>)
        requires
            self.wf(),
        ensures
            r is Some <==> 1 <= id <= self.count(),
            r matches Some(b) ==> {
                &&& b == self.box_of(id)
                &&& tight_box(self@, self.domain(), id, b.0, b.1)
                &&& b.0.x < b.1.x <= self.domain().x
                &&& b.0.y < b.1.y <= self.domain().y
                &&& b.0.z < b.1.z <= self.domain().z
            },
    {
        if id == EMPTY || id as usize >= self.bounds.len() {
            return None;
        }
        Some(self.bounds[id as usize])
    }
}

/// In a complete labelling, connected voxels have the same label.
proof fn lemma_chain_same_label(g: GridView, ids: Seq<u32>, next: int, path: Seq<UVec3>)
    requires
        partial(g, ids, next),
        chain(g, path),
        label(ids, g.res, path.first()) != 0,
    ensures
        label(ids, g.res, path.last()) == label(ids, g.res, path.first()),
    decreases path.len(),
{
    if path.len() > 1 {
        let p = path.drop_last();
        assert forall|i: int| 0 <= i < p.len() - 1 implies share_face(#[trigger] p[i], p[i + 1]) by {
            assert(share_face(path[i], path[i + 1]));
        }
        assert(chain(g, p));
        lemma_chain_same_label(g, ids, next, p);
        let n = path.len() as int;
        assert(share_face(path[n - 2], path[n - 1]));
        assert(p.last() == path[n - 2]);
    }
}

/// Label the solid voxels of a grid by component.
pub fn label_components(grid: &Grid) -> (r: ComponentField)
    requires
        grid.wf(),
        grid@.res.volume() <= u32::MAX,
    ensures
        r.labels(grid@),
{
    let res = grid.res();
    let ghost g = grid@;
    let lo = UVec3 { x: 0, y: 0, z: 0 };
    proof {
        lemma_domain_count(res);
    }
    let n: usize = count_of(lo, res);
    let mut ids: Vec<u32> = vec![EMPTY; n];
    let mut counts: Vec<u32> = Vec::new();
    counts.push(n as u32);
    let mut bounds: Vec<(UVec3, UVec3)> = Vec::new();
    bounds.push((lo, lo));
    let coords: Vec<ChunkCoord> = grid.allocated_chunk_coords();
    proof {
        lemma_occurrences_all(ids@, 0);
        assert forall|v: UVec3| in_domain(res, v) implies #[trigger] label(ids@, res, v) == 0 by {
            lemma_box_number(lo, res, v.x as int, v.y as int, v.z as int);
        }
    }
    let mut t: usize = 0;
    while t < coords.len()
        invariant
            t <= coords.len(),
            grid.wf(),
            g == grid@,
            res == g.res,
            res.volume() <= u32::MAX,
            forall|i: int| 0 <= i < coords.len() ==> g.tiles.dom().contains(#[trigger] coords@[i]),
            ids.len() == res.volume(),
            partial(g, ids@, counts.len() as int),
            stats(ids@, res, counts@, bounds@),
            counts.len() + occurrences(ids@, 0) <= res.volume() + 1,
            forall|i: u32| 1 <= i < counts.len() ==> #[trigger] worn(ids@, res, i),
            forall|v: UVec3, i: int|
                #![trigger label(ids@, res, v), coords@[i]]
                0 <= i < t && solid_voxel(g, v) && tile_of(v.x as int, v.y as int, v.z as int)
                    == coords@[i] ==> label(ids@, res, v) != 0,
        decreases coords.len() - t,
    {
        let c = coords[t];
        proof {
            grid.lemma_wf_view();
            assert(g.tiles.dom().contains(coords@[t as int]));
            lemma_chunk_box(c, res);
        }
        let base = c.voxel_min();
        let end = c.voxel_max(res);
        let m: usize = count_of(base, end);
        let mut k: usize = 0;
        while k < m
            invariant
                k <= m,
                t < coords.len(),
                c == coords@[t as int],
                base == chunk_lo(c),
                end == chunk_hi(c, res),
                m == box_count(base, end),
                forall|x: int, y: int, z: int|
                    #![trigger in_box(base, end, x, y, z)]
                    in_box(base, end, x, y, z) <==> res.has(x, y, z) && tile_of(x, y, z) == c,
                grid.wf(),
                g == grid@,
                res == g.res,
                res.volume() <= u32::MAX,
                ids.len() == res.volume(),
                partial(g, ids@, counts.len() as int),
                stats(ids@, res, counts@, bounds@),
                counts.len() + occurrences(ids@, 0) <= res.volume() + 1,
                forall|i: u32| 1 <= i < counts.len() ==> #[trigger] worn(ids@, res, i),
                forall|v: UVec3, i: int|
                    #![trigger label(ids@, res, v), coords@[i]]
                    0 <= i < t && solid_voxel(g, v) && tile_of(v.x as int, v.y as int, v.z as int)
                        == coords@[i] ==> label(ids@, res, v) != 0,
                forall|v: UVec3| #![trigger label(ids@, res, v)]
                    solid_voxel(g, v) && in_box(base, end, v.x as int, v.y as int, v.z as int)
                        && box_number(base, end, v.x as int, v.y as int, v.z as int) < k ==> label(
                        ids@,
                        res,
                        v,
                    ) != 0,
            decreases m - k,
        {
            let v = cell_of(base, end, k);
            assert(in_box(base, end, v.x as int, v.y as int, v.z as int));
            proof {
                lemma_domain_count(res);
            }
            let idx: usize = number_of(UVec3 { x: 0, y: 0, z: 0 }, res, v.x, v.y, v.z);
            assert(ids@[idx as int] == label(ids@, res, v));
            if is_solid(grid.get(v.x, v.y, v.z)) && ids[idx] == EMPTY {
                proof {
                    lemma_occurrences_positive(ids@, idx as int);
                }
                let id: u32 = counts.len() as u32;
                let ghost was = ids@;
                let ghost old_bounds = bounds@;
                let found: (UVec3, UVec3) = flood(grid, &mut ids, &mut counts, v, id);
                bounds.push(found);
                proof {
                    lemma_stats_after_flood(was, ids@, res, old_bounds, bounds@, id, found);
                    assert forall|i: u32| 1 <= i < counts.len() implies #[trigger] worn(ids@, res, i) by {
                        if i == id {
                            assert(label(ids@, res, v) == i);
                        } else {
                            assert(worn(was, res, i));
                            let w = choose|w: UVec3|
                                in_domain(res, w) && #[trigger] label(was, res, w) == i;
                            assert(label(ids@, res, w) == i);
                        }
                    }
                    assert forall|w: UVec3, i: int|
                        #![trigger label(ids@, res, w), coords@[i]]
                        0 <= i < t && solid_voxel(g, w) && tile_of(w.x as int, w.y as int, w.z as int)
                            == coords@[i] implies label(ids@, res, w) != 0 by {
                        assert(label(was, res, w) != 0);
                    }
                    assert forall|w: UVec3| #![trigger label(ids@, res, w)]
                        solid_voxel(g, w) && in_box(base, end, w.x as int, w.y as int, w.z as int)
                            && box_number(base, end, w.x as int, w.y as int, w.z as int) < k implies label(
                        ids@,
                        res,
                        w,
                    ) != 0 by {
                        assert(label(was, res, w) != 0);
                    }
                }
            }
            proof {
                assert forall|w: UVec3| #![trigger label(ids@, res, w)]
                    solid_voxel(g, w) && in_box(base, end, w.x as int, w.y as int, w.z as int)
                        && box_number(base, end, w.x as int, w.y as int, w.z as int) < k + 1 implies label(
                    ids@,
                    res,
                    w,
                ) != 0 by {
                    if box_number(base, end, w.x as int, w.y as int, w.z as int) == k {
                        lemma_box_number(base, end, w.x as int, w.y as int, w.z as int);
                        assert(w == v);
                    }
                }
            }
            k = k + 1;
        }
        proof {
            assert forall|v: UVec3, i: int|
                #![trigger label(ids@, res, v), coords@[i]]
                0 <= i < t + 1 && solid_voxel(g, v) && tile_of(v.x as int, v.y as int, v.z as int)
                    == coords@[i] implies label(ids@, res, v) != 0 by {
                if i == t {
                    assert(in_box(base, end, v.x as int, v.y as int, v.z as int));
                    lemma_box_number(base, end, v.x as int, v.y as int, v.z as int);
                }
            }
        }
        t = t + 1;
    }
    let r = ComponentField { ids, res, counts, bounds };
    proof {
        assert forall|v: UVec3| in_domain(g.res, v) implies (#[trigger] r.id(v) == 0
            <==> !solid_voxel(g, v)) by {
            assert(label(ids@, res, v) == r.id(v));
            if solid_voxel(g, v) {
                let c = tile_of(v.x as int, v.y as int, v.z as int);
                assert(!solid(FAR));
                assert(g.tiles.dom().contains(c));
                assert(coords@.contains(c));
                let i = choose|i: int| 0 <= i < coords.len() && coords@[i] == c;
                assert(coords@[i] == c);
            }
        }
        assert forall|a: UVec3, b: UVec3|
            #![trigger r.id(a), r.id(b)]
            solid_voxel(g, a) && solid_voxel(g, b) implies (r.id(a) == r.id(b) <==> connected(
            g,
            a,
            b,
        )) by {
            assert(label(ids@, res, a) == r.id(a) && label(ids@, res, b) == r.id(b));
            if connected(g, a, b) {
                let p = choose|p: Seq<UVec3>|
                    #[trigger] chain(g, p) && p.first() == a && p.last() == b;
                lemma_chain_same_label(g, ids@, counts.len() as int, p);
            }
        }
    }
    r
}

proof fn lemma_stats_after_flood(
    was: Seq<u32>,
    ids: Seq<u32>,
    res: UVec3,
    old_bounds: Seq<(UVec3, UVec3)>,
    bounds: Seq<(UVec3, UVec3)>,
    id: u32,
    found: (UVec3, UVec3),
)
    requires
        old_bounds.len() == id,
        bounds == old_bounds.push(found),
        forall|i: int|
            1 <= i < old_bounds.len() ==> tight_box(
                was,
                res,
                i as u32,
                (#[trigger] old_bounds[i]).0,
                old_bounds[i].1,
            ),
        tight_box(ids, res, id, found.0, found.1),
        forall|v: UVec3|
            in_domain(res, v) && label(was, res, v) != 0 ==> #[trigger] label(ids, res, v) == label(
                was,
                res,
                v,
            ),
        forall|v: UVec3|
            in_domain(res, v) && label(was, res, v) == 0 ==> #[trigger] label(ids, res, v) == 0 || label(
                ids,
                res,
                v,
            ) == id,
    ensures
        forall|i: int|
            1 <= i < bounds.len() ==> tight_box(
                ids,
                res,
                i as u32,
                (#[trigger] bounds[i]).0,
                bounds[i].1,
            ),
{
    assert forall|i: int| 1 <= i < bounds.len() implies tight_box(
        ids,
        res,
        i as u32,
        (#[trigger] bounds[i]).0,
        bounds[i].1,
    ) by {
        if i < id {
            assert(bounds[i] == old_bounds[i]);
            lemma_tight_frame(was, ids, res, i as u32, old_bounds[i].0, old_bounds[i].1);
        }
    }
}

/// Component `a` is listed before component `b`: it is larger, or as large and
/// has the smaller label.
pub open spec fn ranks_before(ids: Seq<u32>, a: u32, b: u32) -> bool {
    ||| occurrences(ids, a) > occurrences(ids, b)
    ||| occurrences(ids, a) == occurrences(ids, b) && a < b
}

impl ComponentField {
    /// Every component, largest first.
    pub fn ids_by_size_desc(&self) -> (r: Vec<u32>)
        requires
            self.wf(),
        ensures
            forall|i: u32| #[trigger] r@.contains(i) <==> 1 <= i <= self.count(),
            forall|i: int, j: int|
                0 <= i < j < r.len() ==> ranks_before(self@, #[trigger] r@[i], #[trigger] r@[j]),
    {
        let n: usize = self.counts.len();
        let mut r: Vec<u32> = Vec::new();
        let mut next: usize = 1;
        while next < n
            invariant
                self.wf(),
                n == self.counts.len(),
                1 <= next <= n,
                forall|i: u32| #[trigger] r@.contains(i) <==> 1 <= i < next,
                forall|i: int, j: int|
                    0 <= i < j < r.len() ==> ranks_before(self@, #[trigger] r@[i], #[trigger] r@[j]),
            decreases n - next,
        {
            let id: u32 = next as u32;
            let size: u32 = self.voxel_count(id);
            let mut at: usize = r.len();
            while at > 0 && self.voxel_count(r[at - 1]) < size
                invariant
                    self.wf(),
                    at <= r.len(),
                    size == occurrences(self@, id),
                    forall|j: int|
                        at <= j < r.len() ==> occurrences(self@, #[trigger] r@[j]) < size,
                decreases at,
            {
                at = at - 1;
            }
            let ghost was = r@;
            r.insert(at, id);
            proof {
                assert forall|i: u32| #[trigger] r@.contains(i) <==> 1 <= i < next + 1 by {
                    if was.contains(i) {
                        let j = choose|j: int| 0 <= j < was.len() && was[j] == i;
                        assert(r@[if j < at { j } else { j + 1 }] == i);
                    }
                    if i == id {
                        assert(r@[at as int] == i);
                    }
                    if r@.contains(i) && i != id {
                        let j = choose|j: int| 0 <= j < r.len() && r@[j] == i;
                        assert(was[if j < at { j } else { j - 1 }] == i);
                    }
                }
                assert forall|i: int, j: int| 0 <= i < j < r.len() implies ranks_before(
                    self@,
                    #[trigger] r@[i],
                    #[trigger] r@[j],
                ) by {
                    let pi = if i < at { i } else { i - 1 };
                    let pj = if j < at { j } else { j - 1 };
                    if i != at {
                        assert(r@[i] == was[pi]);
                    }
                    if j != at {
                        assert(r@[j] == was[pj]);
                    }
                    if j == at {
                        assert(was.contains(was[i]));
                        if at > 0 && i < at - 1 {
                            assert(ranks_before(self@, was[i], was[at - 1]));
                        }
                    }
                }
            }
            next = next + 1;
        }
        r
    }
}

/// Number of voxels with one of the first `n` labels, the empty label among them.
pub open spec fn labelled(ids: Seq<u32>, n: nat) -> nat
    decreases n,
{
    if n == 0 {
        0
    } else {
        labelled(ids, (n - 1) as nat) + occurrences(ids, (n - 1) as u32)
    }
}

proof fn lemma_labelled_step(ids: Seq<u32>, n: nat)
    requires
        ids.len() > 0,
        n <= 0x1_0000_0000,
    ensures
        labelled(ids, n) == labelled(ids.drop_last(), n) + (if ids.last() < n {
            1nat
        } else {
            0nat
        }),
    decreases n,
{
    if n > 0 {
        lemma_labelled_step(ids, (n - 1) as nat);
    }
}

proof fn lemma_labelled_all(ids: Seq<u32>, n: nat)
    requires
        n <= 0x1_0000_0000,
        forall|k: int| 0 <= k < ids.len() ==> #[trigger] ids[k] < n,
    ensures
        labelled(ids, n) == ids.len(),
    decreases ids.len(),
{
    if ids.len() == 0 {
        lemma_labelled_none(ids, n);
    } else {
        lemma_labelled_step(ids, n);
        lemma_labelled_all(ids.drop_last(), n);
    }
}

proof fn lemma_labelled_none(ids: Seq<u32>, n: nat)
    requires
        ids.len() == 0,
    ensures
        labelled(ids, n) == 0,
    decreases n,
{
    if n > 0 {
        lemma_labelled_none(ids, (n - 1) as nat);
    }
}

/// No voxel goes missing: the sizes of all components and of the empty space add up to
/// the whole domain.
pub proof fn law_sizes_cover_domain(f: ComponentField)
    requires
        f.wf(),
    ensures
        labelled(f@, (f.count() + 1) as nat) == f.domain().volume(),
{
    let n = (f.count() + 1) as nat;
    f.lemma_wf();
    assert forall|k: int| 0 <= k < f@.len() implies #[trigger] f@[k] < n by {
        lemma_domain_count(f.res);
        lemma_box_cell(UVec3::zero(), f.res, k);
        let v = box_cell(UVec3::zero(), f.res, k);
        assert(label(f.ids@, f.res, v) < f.counts.len());
    }
    lemma_labelled_all(f@, n);
}

/// The labels tell solid from empty, and two solid voxels that differ by one along one axis
/// belong to the same component.
pub proof fn law_neighbours_share_a_component(g: GridView, f: ComponentField, a: UVec3, b: UVec3)
    requires
        f.labels(g),
        g.res.has(a.x as int, a.y as int, a.z as int),
        g.res.has(b.x as int, b.y as int, b.z as int),
    ensures
        f.id(a) > 0 <==> solid(g.at(a.x as int, a.y as int, a.z as int)),
        f.id(a) <= f.count(),
        solid(g.at(a.x as int, a.y as int, a.z as int)) && solid(
            g.at(b.x as int, b.y as int, b.z as int),
        ) && abs(a.x - b.x) + abs(a.y - b.y) + abs(a.z - b.z) == 1 ==> f.id(a) == f.id(b),
{
    f.lemma_wf();
    assert(f.id(a) == 0 <==> !solid_voxel(g, a));
    if solid_voxel(g, a) && solid_voxel(g, b) && abs(a.x - b.x) + abs(a.y - b.y) + abs(a.z - b.z) == 1 {
        lemma_connected_self(g, a);
        lemma_connected_step(g, a, a, b);
    }
}

/// Components do not leak: where no solid voxel inside a set has a solid neighbour outside
/// it, along any axis, the solid voxels inside and outside belong to different components.
pub proof fn law_components_are_apart(
    g: GridView,
    f: ComponentField,
    inside: Set<UVec3>,
    a: UVec3,
    b: UVec3,
)
    requires
        f.labels(g),
        forall|v: UVec3, w: UVec3|
            #![trigger inside.contains(v), inside.contains(w)]
            inside.contains(v) && g.res.has(v.x as int, v.y as int, v.z as int) && g.res.has(
                w.x as int,
                w.y as int,
                w.z as int,
            ) && solid(g.at(v.x as int, v.y as int, v.z as int)) && solid(
                g.at(w.x as int, w.y as int, w.z as int),
            ) && abs(v.x - w.x) + abs(v.y - w.y) + abs(v.z - w.z) == 1 ==> inside.contains(w),
        inside.contains(a),
        !inside.contains(b),
        g.res.has(a.x as int, a.y as int, a.z as int),
        g.res.has(b.x as int, b.y as int, b.z as int),
        solid(g.at(a.x as int, a.y as int, a.z as int)),
        solid(g.at(b.x as int, b.y as int, b.z as int)),
    ensures
        f.id(a) != f.id(b),
{
    assert(solid_voxel(g, a) && solid_voxel(g, b));
    if f.id(a) == f.id(b) {
        assert(connected(g, a, b));
        let path = choose|p: Seq<UVec3>| #[trigger] chain(g, p) && p.first() == a && p.last() == b;
        lemma_chain_stays_inside(g, inside, path, path.len() - 1);
    }
}

proof fn lemma_chain_stays_inside(g: GridView, inside: Set<UVec3>, path: Seq<UVec3>, i: int)
    requires
        chain(g, path),
        0 <= i < path.len(),
        inside.contains(path.first()),
        forall|v: UVec3, w: UVec3|
            #![trigger inside.contains(v), inside.contains(w)]
            inside.contains(v) && g.res.has(v.x as int, v.y as int, v.z as int) && g.res.has(
                w.x as int,
                w.y as int,
                w.z as int,
            ) && solid(g.at(v.x as int, v.y as int, v.z as int)) && solid(
                g.at(w.x as int, w.y as int, w.z as int),
            ) && abs(v.x - w.x) + abs(v.y - w.y) + abs(v.z - w.z) == 1 ==> inside.contains(w),
    ensures
        inside.contains(path[i]),
    decreases i,
{
    if i > 0 {
        lemma_chain_stays_inside(g, inside, path, i - 1);
        let (v, w) = (path[i - 1], path[i]);
        assert(share_face(path[i - 1], path[i - 1 + 1]));
        assert(solid_voxel(g, v) && solid_voxel(g, w));
        assert(inside.contains(w) == inside.contains(path[i]));
    }
}

/// The box of a component holds all of its voxels, from its first corner up to but without
/// its second, and it cannot be made smaller at any side. Its size is the number of its
/// voxels, and there are some.
pub proof fn law_box_is_tight(f: ComponentField, id: u32)
    requires
        f.wf(),
        1 <= id <= f.count(),
    ensures
        ({
            let (lo, hi) = f.box_of(id);
            &&& forall|v: UVec3|
                f.domain().has(v.x as int, v.y as int, v.z as int) && #[trigger] f.id(v) == id ==> lo.x
                    <= v.x < hi.x && lo.y <= v.y < hi.y && lo.z <= v.z < hi.z
            &&& exists|v: UVec3|
                f.domain().has(v.x as int, v.y as int, v.z as int) && #[trigger] f.id(v) == id && v.x
                    == lo.x
            &&& exists|v: UVec3|
                f.domain().has(v.x as int, v.y as int, v.z as int) && #[trigger] f.id(v) == id && v.y
                    == lo.y
            &&& exists|v: UVec3|
                f.domain().has(v.x as int, v.y as int, v.z as int) && #[trigger] f.id(v) == id && v.z
                    == lo.z
            &&& exists|v: UVec3|
                f.domain().has(v.x as int, v.y as int, v.z as int) && #[trigger] f.id(v) == id && v.x
                    == hi.x - 1
            &&& exists|v: UVec3|
                f.domain().has(v.x as int, v.y as int, v.z as int) && #[trigger] f.id(v) == id && v.y
                    == hi.y - 1
            &&& exists|v: UVec3|
                f.domain().has(v.x as int, v.y as int, v.z as int) && #[trigger] f.id(v) == id && v.z
                    == hi.z - 1
        }),
{
    f.lemma_box_of(id);
    let (ids, res) = (f@, f.domain());
    let (lo, hi) = f.box_of(id);
    assert(forall|v: UVec3| f.id(v) == #[trigger] label(ids, res, v));
    let a = choose|v: UVec3| in_domain(res, v) && #[trigger] label(ids, res, v) == id && v.x == lo.x;
    let b = choose|v: UVec3| in_domain(res, v) && #[trigger] label(ids, res, v) == id && v.y == lo.y;
    let c = choose|v: UVec3| in_domain(res, v) && #[trigger] label(ids, res, v) == id && v.z == lo.z;
    let d = choose|v: UVec3| in_domain(res, v) && #[trigger] label(ids, res, v) == id && v.x + 1 == hi.x;
    let e = choose|v: UVec3| in_domain(res, v) && #[trigger] label(ids, res, v) == id && v.y + 1 == hi.y;
    let h = choose|v: UVec3| in_domain(res, v) && #[trigger] label(ids, res, v) == id && v.z + 1 == hi.z;
    assert(f.id(a) == id && f.id(b) == id && f.id(c) == id);
    assert(f.id(d) == id && f.id(e) == id && f.id(h) == id);
}

/// The size of a component is the number of its voxels.
pub proof fn law_size_counts_the_voxels(ids: Seq<u32>, id: u32)
    ensures
        occurrences(ids, id) == ids.to_multiset().count(id),
    decreases ids.len(),
{
    broadcast use vstd::seq_lib::group_to_multiset_ensures;

    if ids.len() > 0 {
        law_size_counts_the_voxels(ids.drop_last(), id);
        assert(ids =~= ids.drop_last().push(ids.last()));
    }
}

/// Components are ranked by size, the largest first, and among equals by number; any two of
/// them have an order.
pub proof fn law_larger_components_come_first(ids: Seq<u32>, a: u32, b: u32)
    ensures
        ranks_before(ids, a, b) ==> ids.to_multiset().count(a) >= ids.to_multiset().count(b),
        ranks_before(ids, a, b) && ids.to_multiset().count(a) == ids.to_multiset().count(b) ==> a < b,
        a != b ==> ranks_before(ids, a, b) != ranks_before(ids, b, a),
        !ranks_before(ids, a, a),
{
    law_size_counts_the_voxels(ids, a);
    law_size_counts_the_voxels(ids, b);
}

} // verus!
