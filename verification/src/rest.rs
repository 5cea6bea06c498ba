//! Where the clay is after a move, and why pieces rest only once.

use crate::clay::{clay, lemma_clay_finite};
use crate::components::{chain, connected, in_domain, label, share_face, solid_voxel, worn, ComponentField};
use crate::gravity::{all_finite, any_move, assigned, brings, delta_of, drops, gathered, in_reach, in_wide, kept, law_drop_reaches_bench, law_moved_piece_arrives, lemma_gathered_least, lemma_wide_reached, rewrites, source, stays, translated};
use crate::grid::GridView;
use crate::plastic::rests;
use crate::sample::{is_finite, is_nan, key, lemma_cleared_is_air, lemma_deep_apart, moved, solid};
use crate::vec3::{IVec3, UVec3};
use vstd::prelude::*;

verus! {

/// Every sample is a finite number, every solid one more than a millionth below zero,
/// and the voxel size is not negative: no step of a move is lost to rounding.
pub open spec fn is_crisp(g: GridView) -> bool {
    &&& all_finite(g)
    &&& forall|v: UVec3| #[trigger]
        solid_voxel(g, v) ==> moved(g.at(v.x as int, v.y as int, v.z as int), 0)
    &&& !is_nan(g.voxel_size)
    &&& !solid(g.voxel_size)
}

/// The voxel of a piece that a move takes to voxel `v`.
pub open spec fn lands(
    f: ComponentField,
    deltas: Seq<(u32, IVec3)>,
    w: UVec3,
    v: UVec3,
) -> bool {
    &&& in_domain(f.domain(), w)
    &&& f.id(w) != 0
    &&& source(deltas, f.id(w), v) == (w.x as int, w.y as int, w.z as int)
}

/// An offset that is not zero is a move.
proof fn lemma_offset_moves(deltas: Seq<(u32, IVec3)>, count: int, c: u32)
    requires
        1 <= c <= count,
        delta_of(deltas, c) != IVec3::zero(),
    ensures
        any_move(deltas, count),
    decreases deltas.len(),
{
    if deltas.last().0 == c {
        assert(deltas[deltas.len() - 1].0 == c);
    } else {
        lemma_offset_moves(deltas.drop_last(), count, c);
        let i = choose|i: int|
            0 <= i < deltas.drop_last().len() && 1 <= (#[trigger] deltas.drop_last()[i]).0 <= count
                && deltas.drop_last()[i].1 != IVec3::zero();
        assert(deltas[i] == deltas.drop_last()[i]);
    }
}

/// A solid voxel lies in the widened box of its piece.
proof fn lemma_piece_wide(g: GridView, f: ComponentField, w: UVec3)
    requires
        f.labels(g),
        in_domain(g.res, w),
        f.id(w) != 0,
    ensures
        1 <= f.id(w) <= f.count(),
        in_wide(f, f.id(w), w.x as int, w.y as int, w.z as int),
        solid_voxel(g, w),
{
    f.lemma_wf();
    assert(f.id(w) <= f.count());
    f.lemma_box_of(f.id(w));
    assert(label(f@, f.domain(), w) == f.id(w));
}

/// What makes a gathered sample solid.
proof fn lemma_gathered_from(
    g: GridView,
    f: ComponentField,
    deltas: Seq<(u32, IVec3)>,
    n: nat,
    v: UVec3,
)
    requires
        n <= f.count() <= u32::MAX,
        solid(gathered(g, f, deltas, n, v)),
    ensures
        (kept(f, deltas, f.count(), v) && solid(g.at(v.x as int, v.y as int, v.z as int))) || exists|
            c: u32,
        |
            1 <= c <= n && #[trigger] brings(f, deltas, c, v) && solid(
                g.at(source(deltas, c, v).0, source(deltas, c, v).1, source(deltas, c, v).2),
            ),
    decreases n,
{
    if n > 0 {
        let m = (n - 1) as nat;
        let c = n as u32;
        if brings(f, deltas, c, v) && solid(
            g.at(source(deltas, c, v).0, source(deltas, c, v).1, source(deltas, c, v).2),
        ) {
        } else {
            assert(solid(gathered(g, f, deltas, m, v)));
            lemma_gathered_from(g, f, deltas, m, v);
        }
    }
}

/// The sample that a move assigns is solid exactly where a voxel of a piece lands.
proof fn lemma_assigned_solid(g: GridView, f: ComponentField, deltas: Seq<(u32, IVec3)>, v: UVec3)
    requires
        f.labels(g),
        is_crisp(g),
        in_domain(g.res, v),
    ensures
        solid(assigned(g, f, deltas, v)) <==> exists|w: UVec3| #[trigger] lands(f, deltas, w, v),
        !is_nan(assigned(g, f, deltas, v)),
        solid(assigned(g, f, deltas, v)) ==> is_finite(assigned(g, f, deltas, v)) && moved(
            assigned(g, f, deltas, v),
            0,
        ),
{
    f.lemma_wf();
    lemma_cleared_is_air(g.voxel_size);
    let n = f.count() as nat;
    let all = gathered(g, f, deltas, n, v);
    let here = g.at(v.x as int, v.y as int, v.z as int);
    assert(is_finite(here));
    lemma_gathered_least(g, f, deltas, n, v, 1);
    lemma_gathered_value(g, f, deltas, n, v);
    if exists|w: UVec3| #[trigger] lands(f, deltas, w, v) {
        let w = choose|w: UVec3| #[trigger] lands(f, deltas, w, v);
        let c = f.id(w);
        lemma_piece_wide(g, f, w);
        if delta_of(deltas, c) == IVec3::zero() {
            assert(w == v);
            assert(stays(f, deltas, c, v));
            assert(kept(f, deltas, f.count(), v));
            assert(key(all) <= key(here));
        } else {
            law_moved_piece_arrives(g, f, deltas, w, v);
        }
    }
    if solid(assigned(g, f, deltas, v)) {
        assert(is_finite(all)) by {
            if !is_finite(all) && kept(f, deltas, f.count(), v) {
                assert(key(all) <= key(here));
            }
        }
        lemma_gathered_from(g, f, deltas, n, v);
        if kept(f, deltas, f.count(), v) && solid(here) {
            let c = choose|c: u32| 1 <= c <= f.count() && #[trigger] stays(f, deltas, c, v);
            assert(solid_voxel(g, v));
            assert(f.id(v) != 0);
            assert(lands(f, deltas, v, v));
        } else {
            let c = choose|c: u32|
                1 <= c <= n && #[trigger] brings(f, deltas, c, v) && solid(
                    g.at(source(deltas, c, v).0, source(deltas, c, v).1, source(deltas, c, v).2),
                );
            let s = source(deltas, c, v);
            let w = UVec3 { x: s.0 as u32, y: s.1 as u32, z: s.2 as u32 };
            assert(solid_voxel(g, w));
            assert(f.id(w) != 0);
            assert(lands(f, deltas, w, v));
        }
    }
}

/// A solid gathered sample is a solid sample of the grid.
proof fn lemma_gathered_value(
    g: GridView,
    f: ComponentField,
    deltas: Seq<(u32, IVec3)>,
    n: nat,
    v: UVec3,
)
    requires
        is_crisp(g),
        f.domain() == g.res,
        in_domain(g.res, v),
        n <= f.count() <= u32::MAX,
    ensures
        solid(gathered(g, f, deltas, n, v)) ==> moved(gathered(g, f, deltas, n, v), 0),
    decreases n,
{
    if n == 0 {
        assert(solid(g.at(v.x as int, v.y as int, v.z as int)) ==> solid_voxel(g, v));
    } else {
        lemma_gathered_value(g, f, deltas, (n - 1) as nat, v);
        let s = source(deltas, n as u32, v);
        if brings(f, deltas, n as u32, v) {
            let w = UVec3 { x: s.0 as u32, y: s.1 as u32, z: s.2 as u32 };
            assert(solid(g.at(s.0, s.1, s.2)) ==> solid_voxel(g, w));
        }
    }
}

/// After a move the clay is exactly where the voxels of the pieces land: no piece loses
/// a voxel but over the edge of the domain, and none is left behind or made.
pub proof fn law_clay_is_where_it_lands(
    g: GridView,
    f: ComponentField,
    deltas: Seq<(u32, IVec3)>,
    v: UVec3,
)
    requires
        f.labels(g),
        is_crisp(g),
        in_domain(g.res, v),
    ensures
        solid(translated(g, f, deltas, v)) <==> exists|w: UVec3| #[trigger] lands(f, deltas, w, v),
        is_finite(translated(g, f, deltas, v)) || !solid(translated(g, f, deltas, v)),
        solid(translated(g, f, deltas, v)) ==> moved(translated(g, f, deltas, v), 0),
{
    f.lemma_wf();
    let here = g.at(v.x as int, v.y as int, v.z as int);
    let next = assigned(g, f, deltas, v);
    assert(is_finite(here));
    assert(solid(here) ==> solid_voxel(g, v));
    lemma_assigned_solid(g, f, deltas, v);
    if solid(here) {
        assert(f.id(v) != 0);
        lemma_piece_wide(g, f, v);
        lemma_wide_reached(f, deltas, f.id(v), v.x as int, v.y as int, v.z as int);
        assert(in_reach(f, deltas, v));
    }
    if any_move(deltas, f.count()) && in_reach(f, deltas, v) {
        if solid(here) && !solid(next) {
            lemma_deep_apart(here, next);
        }
        if !solid(here) && solid(next) {
            lemma_deep_apart(next, here);
        }
        assert(solid(translated(g, f, deltas, v)) == solid(next));
    } else {
        assert(translated(g, f, deltas, v) == here);
        if exists|w: UVec3| #[trigger] lands(f, deltas, w, v) {
            let w = choose|w: UVec3| #[trigger] lands(f, deltas, w, v);
            lemma_piece_wide(g, f, w);
            if delta_of(deltas, f.id(w)) == IVec3::zero() {
                assert(w == v);
            } else {
                lemma_offset_moves(deltas, f.count(), f.id(w));
                law_moved_piece_arrives(g, f, deltas, w, v);
            }
        }
        if solid(here) {
            if delta_of(deltas, f.id(v)) != IVec3::zero() {
                lemma_offset_moves(deltas, f.count(), f.id(v));
            }
            assert(lands(f, deltas, v, v));
        }
    }
}

/// Where a voxel of a piece is after it was dropped.
spec fn dropped(f: ComponentField, w: UVec3) -> UVec3 {
    UVec3 { x: w.x, y: (w.y - f.box_of(f.id(w)).0.y) as u32, z: w.z }
}

/// A dropped voxel lands.
proof fn lemma_dropped_lands(g: GridView, f: ComponentField, after: GridView, w: UVec3)
    requires
        f.labels(g),
        is_crisp(g),
        g.res.y <= 0x8000_0000,
        rests(g, f, after),
        in_domain(g.res, w),
        f.id(w) != 0,
    ensures
        f.box_of(f.id(w)).0.y <= w.y,
        solid_voxel(after, dropped(f, w)),
        lands(f, drops(f, f.count() as nat), w, dropped(f, w)),
{
    let d = drops(f, f.count() as nat);
    lemma_piece_wide(g, f, w);
    f.lemma_box_of(f.id(w));
    assert(label(f@, f.domain(), w) == f.id(w));
    law_drop_reaches_bench(f, f.id(w));
    let v = dropped(f, w);
    assert(in_domain(g.res, v));
    assert(lands(f, d, w, v));
    law_clay_is_where_it_lands(g, f, d, v);
    assert(after.at(v.x as int, v.y as int, v.z as int) == translated(g, f, d, v));
}

/// Every solid voxel is connected to one on the bench after a rest.
proof fn lemma_reaches_bench(g: GridView, f: ComponentField, after: GridView, v: UVec3) -> (b: UVec3)
    requires
        f.labels(g),
        is_crisp(g),
        g.res.y <= 0x8000_0000,
        rests(g, f, after),
        solid_voxel(after, v),
    ensures
        b.y == 0,
        solid_voxel(after, b),
        connected(after, v, b),
{
    let d = drops(f, f.count() as nat);
    f.lemma_wf();
    law_clay_is_where_it_lands(g, f, d, v);
    assert(after.at(v.x as int, v.y as int, v.z as int) == translated(g, f, d, v));
    let w = choose|w: UVec3| #[trigger] lands(f, d, w, v);
    let c = f.id(w);
    lemma_piece_wide(g, f, w);
    f.lemma_box_of(c);
    law_drop_reaches_bench(f, c);
    let lo = f.box_of(c).0;
    let low = choose|u: UVec3|
        in_domain(f.domain(), u) && #[trigger] label(f@, f.domain(), u) == c && u.y == lo.y;
    assert(f.id(low) == c);
    lemma_piece_wide(g, f, low);
    assert(f.id(w) == f.id(low));
    let p = choose|p: Seq<UVec3>| #[trigger] chain(g, p) && p.first() == w && p.last() == low;
    assert forall|i: int| 0 <= i < p.len() implies f.id(#[trigger] p[i]) == c by {
        assert(solid_voxel(g, p[i]));
        let q = p.subrange(0, i + 1);
        assert forall|k: int| 0 <= k < q.len() implies solid_voxel(g, #[trigger] q[k]) by {
            assert(solid_voxel(g, p[k]));
        }
        assert(chain(g, q));
        assert(q.first() == w && q.last() == p[i]);
        assert(connected(g, w, p[i]));
        assert(f.id(w) == f.id(p[i]));
    }
    let q = Seq::new(p.len(), |i: int| dropped(f, p[i]));
    assert forall|i: int| 0 <= i < q.len() implies solid_voxel(after, #[trigger] q[i]) by {
        assert(solid_voxel(g, p[i]));
        assert(f.id(p[i]) == c);
        lemma_dropped_lands(g, f, after, p[i]);
    }
    assert(chain(after, q)) by {
        assert forall|i: int| 0 <= i < q.len() - 1 implies share_face(
            #[trigger] q[i],
            q[i + 1],
        ) by {
            assert(solid_voxel(g, p[i]));
            assert(solid_voxel(g, p[i + 1]));
            assert(f.id(p[i]) == c && f.id(p[i + 1]) == c);
            lemma_dropped_lands(g, f, after, p[i]);
            lemma_dropped_lands(g, f, after, p[i + 1]);
            assert(share_face(p[i], p[i + 1]));
        }
    }
    assert(q.first() == v);
    assert(q.last() == dropped(f, low));
    dropped(f, low)
}

/// No two voxels of the pieces land on one place.
pub open spec fn land_apart(f: ComponentField, deltas: Seq<(u32, IVec3)>) -> bool {
    forall|u: UVec3, w: UVec3, v: UVec3| #[trigger]
        lands(f, deltas, u, v) && #[trigger] lands(f, deltas, w, v) ==> u == w
}

/// Resting keeps the clay: where no two voxels fall on one place, as many voxels are
/// solid after a rest as before.
pub proof fn law_rest_keeps_clay(g: GridView, f: ComponentField, after: GridView)
    requires
        f.labels(g),
        is_crisp(g),
        g.res.y <= 0x8000_0000,
        rests(g, f, after),
        land_apart(f, drops(f, f.count() as nat)),
    ensures
        clay(after).finite(),
        clay(after).len() == clay(g).len(),
{
    let d = drops(f, f.count() as nat);
    let fall = |w: UVec3| dropped(f, w);
    f.lemma_wf();
    lemma_clay_finite(g);
    assert forall|u: UVec3, w: UVec3|
        clay(g).contains(u) && clay(g).contains(w) && #[trigger] fall(u) == #[trigger] fall(
            w,
        ) implies u == w by {
        lemma_dropped_lands(g, f, after, u);
        lemma_dropped_lands(g, f, after, w);
        assert(lands(f, d, u, dropped(f, u)) && lands(f, d, w, dropped(f, u)));
    }
    assert forall|v: UVec3| #[trigger] clay(after).contains(v) implies clay(g).map(fall).contains(
        v,
    ) by {
        law_clay_is_where_it_lands(g, f, d, v);
        assert(after.at(v.x as int, v.y as int, v.z as int) == translated(g, f, d, v));
        let w = choose|w: UVec3| #[trigger] lands(f, d, w, v);
        lemma_piece_wide(g, f, w);
        f.lemma_box_of(f.id(w));
        law_drop_reaches_bench(f, f.id(w));
        assert(label(f@, f.domain(), w) == f.id(w));
        assert(fall(w) == v);
        assert(clay(g).contains(w));
    }
    assert forall|v: UVec3| #[trigger] clay(g).map(fall).contains(v) implies clay(after).contains(
        v,
    ) by {
        let w = choose|w: UVec3| clay(g).contains(w) && fall(w) == v;
        assert(solid_voxel(g, w));
        lemma_dropped_lands(g, f, after, w);
    }
    assert(clay(g).map(fall) =~= clay(after));
    vstd::set_lib::lemma_map_size(clay(g), clay(after), fall);
}

proof fn lemma_no_drops(f: ComponentField, n: nat)
    requires
        n <= f.count() <= u32::MAX,
        forall|c: u32| 1 <= c <= f.count() ==> (#[trigger] f.box_of(c)).0.y == 0,
    ensures
        drops(f, n).len() == 0,
    decreases n,
{
    if n > 0 {
        lemma_no_drops(f, (n - 1) as nat);
        assert(f.box_of(n as u32).0.y == 0);
    }
}

/// Resting is final: every piece that is found after a rest touches the bench, so that
/// none has a drop left and a second rest changes no sample.
pub proof fn law_rest_is_final(
    g: GridView,
    f: ComponentField,
    after: GridView,
    fresh: ComponentField,
)
    requires
        f.labels(g),
        is_crisp(g),
        g.res.y <= 0x8000_0000,
        rests(g, f, after),
        fresh.labels(after),
    ensures
        forall|c: u32| 1 <= c <= fresh.count() ==> (#[trigger] fresh.box_of(c)).0.y == 0,
        drops(fresh, fresh.count() as nat).len() == 0,
        forall|v: UVec3|
            !#[trigger] rewrites(after, fresh, drops(fresh, fresh.count() as nat), v),
{
    fresh.lemma_wf();
    assert forall|c: u32| 1 <= c <= fresh.count() implies (#[trigger] fresh.box_of(c)).0.y == 0 by {
        assert(worn(fresh@, fresh.domain(), c));
        let v = choose|v: UVec3|
            in_domain(fresh.domain(), v) && #[trigger] label(fresh@, fresh.domain(), v) == c;
        assert(fresh.id(v) == c);
        assert(solid_voxel(after, v));
        let b = lemma_reaches_bench(g, f, after, v);
        assert(fresh.id(v) == fresh.id(b));
        fresh.lemma_box_of(c);
        assert(label(fresh@, fresh.domain(), b) == c);
    }
    lemma_no_drops(fresh, fresh.count() as nat);
    assert(!any_move(drops(fresh, fresh.count() as nat), fresh.count()));
}

/// After a move there is clay at a voxel if and only if there was clay where the offset of its
/// piece leads from there: every piece goes by its offset, those without one stay, and nothing
/// is left behind or made.
pub proof fn law_clay_goes_by_its_offset(
    g: GridView,
    f: ComponentField,
    deltas: Seq<(u32, IVec3)>,
    v: UVec3,
)
    requires
        f.labels(g),
        is_crisp(g),
        g.res.has(v.x as int, v.y as int, v.z as int),
    ensures
        solid(translated(g, f, deltas, v)) <==> exists|w: UVec3|
            {
                let d = delta_of(deltas, #[trigger] f.id(w));
                &&& g.res.has(w.x as int, w.y as int, w.z as int)
                &&& solid(g.at(w.x as int, w.y as int, w.z as int))
                &&& v.x == w.x + d.x
                &&& v.y == w.y + d.y
                &&& v.z == w.z + d.z
            },
{
    law_clay_is_where_it_lands(g, f, deltas, v);
    if solid(translated(g, f, deltas, v)) {
        let w = choose|w: UVec3| #[trigger] lands(f, deltas, w, v);
        assert(f.id(w) == 0 <==> !solid_voxel(g, w));
        assert(solid(g.at(w.x as int, w.y as int, w.z as int)));
    } else {
        assert forall|w: UVec3| g.res.has(w.x as int, w.y as int, w.z as int) && solid(
            g.at(w.x as int, w.y as int, w.z as int),
        ) implies !({
            let d = delta_of(deltas, #[trigger] f.id(w));
            &&& v.x == w.x + d.x
            &&& v.y == w.y + d.y
            &&& v.z == w.z + d.z
        }) by {
            assert(f.id(w) == 0 <==> !solid_voxel(g, w));
            assert(!lands(f, deltas, w, v));
        }
    }
}

} // verus!
