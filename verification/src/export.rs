//! Exporting meshes: a watertightness report and binary STL.
//!
//! STL has no shared vertices: every triangle carries its normal and its three
//! corners. Piece-local space has y up; slicers want z up, so the default
//! orientation turns the piece about x and the workbench becomes the print bed.

use crate::bytes::{holds_at, le32, lemma_holds_split, lemma_word_of_le32, push_u32, word};
use crate::dual_contour::Axis;
use crate::mesh::ExtractedMesh;
use crate::sample::{is_finite, law_samples_compare_as_values, negate, negated, value};
use crate::turn::turned;
use crate::vec3::BitVec3;
use std::collections::HashMap;
use vstd::multiset::Multiset;
use vstd::prelude::*;

verus! {

/// Result of counting how many triangles share each edge.
///
/// A mesh is watertight when every undirected edge is shared by exactly two
/// triangles: no open border, no fan.
#[derive(Copy, Clone, Debug, PartialEq, Eq, Structural)]
pub struct WatertightReport {
    pub verts: u32,
    pub edges: u32,
    pub faces: u32,
    pub open_edges: u32,
    pub nonmanifold_edges: u32,
    /// Euler characteristic, vertices minus edges plus faces. A closed mesh of
    /// several shells need not have 2.
    pub euler: i32,
}

impl WatertightReport {
    /// There is a face, no edge is open and no edge is a fan.
    pub fn is_watertight(self) -> (r: bool)
        ensures
            r == (self.faces > 0 && self.open_edges == 0 && self.nonmanifold_edges == 0),
    {
        self.faces > 0 && self.open_edges == 0 && self.nonmanifold_edges == 0
    }
}

/// An undirected edge: the smaller vertex first.
pub open spec fn undirected(a: u32, b: u32) -> (u32, u32) {
    if a <= b {
        (a, b)
    } else {
        (b, a)
    }
}

/// Side number `m` of the triangles, three sides each.
pub open spec fn side(ix: Seq<u32>, m: int) -> (u32, u32) {
    undirected(ix[m], ix[m / 3 * 3 + (m % 3 + 1) % 3])
}

/// How many of the first `n` sides are the edge `e`.
pub open spec fn uses(ix: Seq<u32>, n: nat, e: (u32, u32)) -> nat
    decreases n,
{
    if n == 0 {
        0
    } else {
        uses(ix, (n - 1) as nat, e) + if side(ix, n - 1) == e {
            1nat
        } else {
            0nat
        }
    }
}

/// The edges that are used, among the first `n` sides.
pub open spec fn edges_used(ix: Seq<u32>, n: nat) -> Set<(u32, u32)> {
    Set::new(|e: (u32, u32)| uses(ix, n, e) > 0)
}

/// The edges that are used once.
pub open spec fn edges_open(ix: Seq<u32>, n: nat) -> Set<(u32, u32)> {
    Set::new(|e: (u32, u32)| uses(ix, n, e) == 1)
}

/// The edges that are used more than twice.
pub open spec fn edges_fanned(ix: Seq<u32>, n: nat) -> Set<(u32, u32)> {
    Set::new(|e: (u32, u32)| uses(ix, n, e) > 2)
}

/// Number of whole triangles, times three.
pub open spec fn side_count(ix: Seq<u32>) -> nat {
    ix.len() / 3 * 3
}

/// What one more side does to the three sets of edges.
proof fn lemma_one_more_side(ix: Seq<u32>, n: nat)
    requires
        edges_used(ix, n).finite(),
        edges_open(ix, n).finite(),
        edges_fanned(ix, n).finite(),
    ensures
        ({
            let e = side(ix, n as int);
            let was = uses(ix, n, e);
            let m = (n + 1) as nat;
            &&& edges_used(ix, m) == edges_used(ix, n).insert(e)
            &&& edges_open(ix, m) == if was == 0 {
                edges_open(ix, n).insert(e)
            } else {
                edges_open(ix, n).remove(e)
            }
            &&& edges_fanned(ix, m) == if was >= 2 {
                edges_fanned(ix, n).insert(e)
            } else {
                edges_fanned(ix, n)
            }
            &&& uses(ix, m, e) == was + 1
        }),
{
    let e = side(ix, n as int);
    let m = (n + 1) as nat;
    assert forall|k: (u32, u32)| k != e implies #[trigger] uses(ix, m, k) == uses(ix, n, k) by {}
    assert(uses(ix, m, e) == uses(ix, n, e) + 1);
    assert(edges_used(ix, m) =~= edges_used(ix, n).insert(e));
    if uses(ix, n, e) == 0 {
        assert(edges_open(ix, m) =~= edges_open(ix, n).insert(e));
    } else {
        assert(edges_open(ix, m) =~= edges_open(ix, n).remove(e));
    }
    if uses(ix, n, e) >= 2 {
        assert(edges_fanned(ix, m) =~= edges_fanned(ix, n).insert(e));
    } else {
        assert(edges_fanned(ix, m) =~= edges_fanned(ix, n));
    }
}

proof fn lemma_uses_bound(ix: Seq<u32>, n: nat, e: (u32, u32))
    ensures
        uses(ix, n, e) <= n,
    decreases n,
{
    if n > 0 {
        lemma_uses_bound(ix, (n - 1) as nat, e);
    }
}

/// The key under which an edge is counted.
spec fn edge_key(e: (u32, u32)) -> u64 {
    (e.0 * 0x1_0000_0000 + e.1) as u64
}

/// The counts so far.
spec fn tallies(m: Map<u64, u32>, ix: Seq<u32>, n: nat) -> bool {
    forall|e: (u32, u32)| #[trigger]
        uses(ix, n, e) == if m.dom().contains(edge_key(e)) {
            m[edge_key(e)] as nat
        } else {
            0nat
        }
}

proof fn lemma_tally_step(m: Map<u64, u32>, ix: Seq<u32>, n: nat, c: u32)
    requires
        tallies(m, ix, n),
        c == uses(ix, n, side(ix, n as int)) + 1,
    ensures
        tallies(m.insert(edge_key(side(ix, n as int)), c), ix, (n + 1) as nat),
{
    let s = side(ix, n as int);
    let next = m.insert(edge_key(s), c);
    assert forall|e: (u32, u32)| #[trigger] uses(ix, (n + 1) as nat, e) == if next.dom().contains(
        edge_key(e),
    ) {
        next[edge_key(e)] as nat
    } else {
        0nat
    } by {
        assert(uses(ix, n, e) == if m.dom().contains(edge_key(e)) {
            m[edge_key(e)] as nat
        } else {
            0nat
        });
        if edge_key(e) == edge_key(s) {
            assert(e.0 * 0x1_0000_0000 + e.1 == s.0 * 0x1_0000_0000 + s.1);
            assert(e == s);
        }
    }
}

/// Count the open edges and the fans of a mesh, by vertex indices.
pub fn check_watertight(mesh: &ExtractedMesh) -> (r: WatertightReport)
    requires
        mesh.indices.len() <= i32::MAX,
        mesh.positions.len() + mesh.indices.len() / 3 <= i32::MAX,
    ensures
        ({
            let n = side_count(mesh.indices@);
            &&& r.verts == mesh.positions.len()
            &&& r.faces == mesh.indices.len() / 3
            &&& edges_used(mesh.indices@, n).finite()
            &&& r.edges == edges_used(mesh.indices@, n).len()
            &&& r.open_edges == edges_open(mesh.indices@, n).len()
            &&& r.nonmanifold_edges == edges_fanned(mesh.indices@, n).len()
            &&& r.euler == r.verts - r.edges + r.faces
        }),
{
    broadcast use vstd::std_specs::hash::group_hash_axioms;

    let ghost ix = mesh.indices@;
    let faces: usize = mesh.indices.len() / 3;
    let sides: usize = faces * 3;
    let mut tally: HashMap<u64, u32> = HashMap::new();
    let mut edges: u32 = 0;
    let mut open_edges: u32 = 0;
    let mut nonmanifold_edges: u32 = 0;
    proof {
        assert(edges_used(ix, 0) =~= Set::empty());
        assert(edges_open(ix, 0) =~= Set::empty());
        assert(edges_fanned(ix, 0) =~= Set::empty());
    }
    let mut m: usize = 0;
    while m < sides
        invariant
            ix == mesh.indices@,
            sides == side_count(ix),
            sides <= mesh.indices.len() <= i32::MAX,
            m <= sides,
            tallies(tally@, ix, m as nat),
            edges_used(ix, m as nat).finite(),
            edges_open(ix, m as nat).finite(),
            edges_fanned(ix, m as nat).finite(),
            edges == edges_used(ix, m as nat).len(),
            open_edges == edges_open(ix, m as nat).len(),
            nonmanifold_edges == edges_fanned(ix, m as nat).len(),
            edges <= m,
            open_edges <= m,
            nonmanifold_edges <= m,
        decreases sides - m,
    {
        let a: u32 = mesh.indices[m];
        let b: u32 = mesh.indices[m / 3 * 3 + (m % 3 + 1) % 3];
        let key: u64 = if a <= b {
            a as u64 * 0x1_0000_0000 + b as u64
        } else {
            b as u64 * 0x1_0000_0000 + a as u64
        };
        let ghost e = side(ix, m as int);
        assert(key == edge_key(e));
        let was: u32 = match tally.get(&key) {
            Some(c) => *c,
            None => 0,
        };
        proof {
            assert(was == uses(ix, m as nat, e));
            lemma_uses_bound(ix, m as nat, e);
            lemma_one_more_side(ix, m as nat);
            lemma_tally_step(tally@, ix, m as nat, (was + 1) as u32);
        }
        tally.insert(key, was + 1);
        if was == 0 {
            edges = edges + 1;
            open_edges = open_edges + 1;
        } else if was == 1 {
            assert(edges_open(ix, m as nat).contains(e));
            open_edges = open_edges - 1;
        } else if was == 2 {
            nonmanifold_edges = nonmanifold_edges + 1;
        }
        m = m + 1;
    }
    let verts: usize = mesh.positions.len();
    let euler: i64 = verts as i64 - edges as i64 + faces as i64;
    WatertightReport {
        verts: verts as u32,
        edges,
        faces: faces as u32,
        open_edges,
        nonmanifold_edges,
        euler: euler as i32,
    }
}

proof fn lemma_sets_finite(ix: Seq<u32>, n: nat)
    ensures
        edges_used(ix, n).finite(),
        edges_open(ix, n).finite(),
        edges_fanned(ix, n).finite(),
    decreases n,
{
    if n == 0 {
        assert(edges_used(ix, 0) =~= Set::empty());
        assert(edges_open(ix, 0) =~= Set::empty());
        assert(edges_fanned(ix, 0) =~= Set::empty());
    } else {
        lemma_sets_finite(ix, (n - 1) as nat);
        lemma_one_more_side(ix, (n - 1) as nat);
    }
}

/// No open edge and no fan means that every edge is shared by exactly two
/// triangles.
pub proof fn law_watertight_means_shared_twice(ix: Seq<u32>)
    ensures
        (edges_open(ix, side_count(ix)).len() == 0 && edges_fanned(ix, side_count(ix)).len() == 0)
            <==> (forall|e: (u32, u32)| #[trigger]
            uses(ix, side_count(ix), e) > 0 ==> uses(ix, side_count(ix), e) == 2),
{
    let n = side_count(ix);
    lemma_sets_finite(ix, n);
    if edges_open(ix, n).len() == 0 && edges_fanned(ix, n).len() == 0 {
        assert forall|e: (u32, u32)| #[trigger] uses(ix, n, e) > 0 implies uses(ix, n, e) == 2 by {
            assert(!edges_open(ix, n).contains(e));
            assert(!edges_fanned(ix, n).contains(e));
        }
    }
    if forall|e: (u32, u32)| #[trigger] uses(ix, n, e) > 0 ==> uses(ix, n, e) == 2 {
        assert(edges_open(ix, n) =~= Set::empty());
        assert(edges_fanned(ix, n) =~= Set::empty());
    }
}

/// The corners of triangle `t`, in no order.
pub open spec fn corners_of(ix: Seq<u32>, t: int) -> Multiset<u32> {
    Multiset::singleton(ix[3 * t]).insert(ix[3 * t + 1]).insert(ix[3 * t + 2])
}

/// The triangles of a mesh, in no order, each as its corners in no order.
pub open spec fn triangles(ix: Seq<u32>) -> Multiset<Multiset<u32>> {
    Seq::new(ix.len() / 3, |t: int| corners_of(ix, t)).to_multiset()
}

/// How many sides of a triangle are the edge `e`.
spec fn sides_on(c: Multiset<u32>, e: (u32, u32)) -> int {
    let (a, b) = (c.count(e.0) as int, c.count(e.1) as int);
    if e.0 > e.1 {
        0
    } else if e.0 < e.1 {
        a * b
    } else if a == 2 {
        1
    } else if a == 3 {
        3
    } else {
        0
    }
}

spec fn sides_of_all(s: Seq<Multiset<u32>>, e: (u32, u32)) -> int
    decreases s.len(),
{
    if s.len() == 0 {
        0
    } else {
        sides_of_all(s.drop_last(), e) + sides_on(s.last(), e)
    }
}

proof fn lemma_sides_on(ix: Seq<u32>, t: int, e: (u32, u32))
    requires
        0 <= t,
        3 * t + 2 < ix.len(),
    ensures
        uses(ix, (3 * t + 3) as nat, e) == uses(ix, (3 * t) as nat, e) + sides_on(
            corners_of(ix, t),
            e,
        ),
{
    let (a, b, c) = (ix[3 * t], ix[3 * t + 1], ix[3 * t + 2]);
    assert(side(ix, 3 * t) == undirected(a, b));
    assert(side(ix, 3 * t + 1) == undirected(b, c));
    assert(side(ix, 3 * t + 2) == undirected(c, a));
    reveal_with_fuel(uses, 4);
    let k = corners_of(ix, t);
    let n = |x: u32, y: u32| if x == y { 1int } else { 0int };
    assert(k.count(e.0) == n(a, e.0) + n(b, e.0) + n(c, e.0));
    assert(k.count(e.1) == n(a, e.1) + n(b, e.1) + n(c, e.1));
    let (p, q) = (k.count(e.0) as int, k.count(e.1) as int);
    if e.0 < e.1 {
        assert(p <= 3 && q <= 3 && p + q <= 3);
        if p == 0 {
            assert(p * q == 0) by (nonlinear_arith)
                requires
                    p == 0,
            ;
        } else if p == 1 {
            assert(p * q == q) by (nonlinear_arith)
                requires
                    p == 1,
            ;
        } else if p == 2 {
            assert(p * q == 2 * q) by (nonlinear_arith)
                requires
                    p == 2,
            ;
        } else {
            assert(p * q == 0) by (nonlinear_arith)
                requires
                    q == 0,
            ;
        }
    }
}

proof fn lemma_uses_by_triangle(ix: Seq<u32>, k: nat, e: (u32, u32))
    requires
        3 * k <= ix.len(),
    ensures
        uses(ix, 3 * k, e) == sides_of_all(Seq::new(k, |t: int| corners_of(ix, t)), e),
    decreases k,
{
    let s = Seq::new(k, |t: int| corners_of(ix, t));
    if k > 0 {
        let j = (k - 1) as nat;
        lemma_uses_by_triangle(ix, j, e);
        lemma_sides_on(ix, j as int, e);
        assert(s.drop_last() =~= Seq::new(j, |t: int| corners_of(ix, t)));
    }
}

proof fn lemma_without_one(s: Seq<Multiset<u32>>, i: int, e: (u32, u32))
    requires
        0 <= i < s.len(),
    ensures
        sides_of_all(s, e) == sides_of_all(s.remove(i), e) + sides_on(s[i], e),
    decreases s.len(),
{
    if i == s.len() - 1 {
        assert(s.remove(i) =~= s.drop_last());
    } else {
        lemma_without_one(s.drop_last(), i, e);
        assert(s.remove(i).drop_last() =~= s.drop_last().remove(i));
    }
}

proof fn lemma_order_is_nothing(s: Seq<Multiset<u32>>, t: Seq<Multiset<u32>>, e: (u32, u32))
    requires
        s.to_multiset() == t.to_multiset(),
    ensures
        sides_of_all(s, e) == sides_of_all(t, e),
    decreases s.len(),
{
    broadcast use vstd::seq_lib::group_to_multiset_ensures;

    assert(s.len() == s.to_multiset().len());
    assert(t.len() == t.to_multiset().len());
    if s.len() > 0 {
        let last = s.last();
        assert(s.contains(last)) by {
            assert(s[s.len() - 1] == last);
        }
        assert(t.contains(last)) by {
            assert(s.to_multiset().count(last) > 0);
            assert(t.to_multiset().count(last) > 0);
        }
        let i = choose|i: int| 0 <= i < t.len() && t[i] == last;
        lemma_without_one(t, i, e);
        assert(s.drop_last() =~= s.remove(s.len() - 1));
        assert(s.remove(s.len() - 1).to_multiset() =~= s.to_multiset().remove(last));
        assert(t.remove(i).to_multiset() =~= t.to_multiset().remove(last));
        lemma_order_is_nothing(s.drop_last(), t.remove(i), e);
    }
}

/// The report does not depend on how a mesh is listed: triangles in another order, with
/// their corners rotated or flipped, have the same edges, open edges and fans.
pub proof fn law_report_ignores_order(a: Seq<u32>, b: Seq<u32>)
    requires
        triangles(a) == triangles(b),
    ensures
        a.len() / 3 == b.len() / 3,
        edges_used(a, side_count(a)) == edges_used(b, side_count(b)),
        edges_open(a, side_count(a)) == edges_open(b, side_count(b)),
        edges_fanned(a, side_count(a)) == edges_fanned(b, side_count(b)),
{
    broadcast use vstd::seq_lib::group_to_multiset_ensures;

    let s = Seq::new(a.len() / 3, |t: int| corners_of(a, t));
    let t = Seq::new(b.len() / 3, |t: int| corners_of(b, t));
    assert(s.len() == s.to_multiset().len());
    assert(t.len() == t.to_multiset().len());
    assert forall|e: (u32, u32)| #[trigger] uses(a, side_count(a), e) == uses(
        b,
        side_count(b),
        e,
    ) by {
        lemma_uses_by_triangle(a, a.len() / 3, e);
        lemma_uses_by_triangle(b, b.len() / 3, e);
        lemma_order_is_nothing(s, t, e);
    }
    assert(edges_used(a, side_count(a)) =~= edges_used(b, side_count(b)));
    assert(edges_open(a, side_count(a)) =~= edges_open(b, side_count(b)));
    assert(edges_fanned(a, side_count(a)) =~= edges_fanned(b, side_count(b)));
}

/// The edges that are used twice.
spec fn edges_shared(ix: Seq<u32>, n: nat) -> Set<(u32, u32)> {
    Set::new(|e: (u32, u32)| uses(ix, n, e) == 2)
}

proof fn lemma_uses_grow(ix: Seq<u32>, m: nat, n: nat, e: (u32, u32))
    requires
        m <= n,
    ensures
        uses(ix, m, e) <= uses(ix, n, e),
    decreases n,
{
    if m < n {
        lemma_uses_grow(ix, m, (n - 1) as nat, e);
    }
}

proof fn lemma_sides_add_up(ix: Seq<u32>, m: nat, n: nat)
    requires
        m <= n,
        forall|e: (u32, u32)| #[trigger] uses(ix, n, e) <= 2,
    ensures
        edges_shared(ix, m).finite(),
        m == edges_used(ix, m).len() + edges_shared(ix, m).len(),
    decreases m,
{
    lemma_sets_finite(ix, m);
    if m == 0 {
        assert(edges_used(ix, 0) =~= Set::empty());
        assert(edges_shared(ix, 0) =~= Set::empty());
    } else {
        let k = (m - 1) as nat;
        let e = side(ix, k as int);
        lemma_sides_add_up(ix, k, n);
        lemma_sets_finite(ix, k);
        lemma_one_more_side(ix, k);
        lemma_uses_grow(ix, m, n, e);
        assert(uses(ix, n, e) <= 2);
        assert forall|d: (u32, u32)| d != e implies #[trigger] uses(ix, m, d) == uses(ix, k, d) by {}
        if uses(ix, k, e) == 0 {
            assert(!edges_used(ix, k).contains(e));
            assert(edges_shared(ix, m) =~= edges_shared(ix, k));
        } else {
            assert(edges_used(ix, k).contains(e));
            assert(edges_used(ix, m) =~= edges_used(ix, k));
            assert(!edges_shared(ix, k).contains(e));
            assert(edges_shared(ix, m) =~= edges_shared(ix, k).insert(e));
        }
    }
}

/// In a closed mesh every triangle has three sides and every edge two of them: three
/// times the faces are twice the edges.
pub proof fn law_closed_mesh_counts(ix: Seq<u32>)
    requires
        edges_open(ix, side_count(ix)).len() == 0,
        edges_fanned(ix, side_count(ix)).len() == 0,
    ensures
        2 * edges_used(ix, side_count(ix)).len() == 3 * (ix.len() / 3),
{
    let n = side_count(ix);
    law_watertight_means_shared_twice(ix);
    assert forall|e: (u32, u32)| #[trigger] uses(ix, n, e) <= 2 by {
        if uses(ix, n, e) > 0 {
            assert(uses(ix, n, e) == 2);
        }
    }
    lemma_sides_add_up(ix, n, n);
    assert(edges_shared(ix, n) =~= edges_used(ix, n));
}

/// Coordinate system of an exported mesh.
#[derive(Copy, Clone, Debug, PartialEq, Eq, Structural)]
pub enum Orientation {
    /// Turned a quarter about x, so that y up becomes z up.
    Zup,
    /// As it is, y up.
    YupAsIs,
}

impl Orientation {
    /// A point in this coordinate system.
    pub open spec fn turned(self, v: BitVec3) -> BitVec3 {
        match self {
            Orientation::Zup => BitVec3 { x: v.x, y: negated(v.z), z: v.y },
            Orientation::YupAsIs => v,
        }
    }

    /// A point in this coordinate system.
    pub fn transform(self, v: BitVec3) -> (r: BitVec3)
        ensures
            r == self.turned(v),
    {
        match self {
            Orientation::Zup => BitVec3 { x: v.x, y: negate(v.z), z: v.y },
            Orientation::YupAsIs => v,
        }
    }
}

/// Number of whole triangles.
pub open spec fn triangle_count(mesh: &ExtractedMesh) -> nat {
    mesh.indices@.len() / 3
}

/// Every index names a vertex.
pub open spec fn indices_in_range(mesh: &ExtractedMesh) -> bool {
    forall|i: int|
        0 <= i < mesh.indices@.len() ==> #[trigger] mesh.indices@[i] < mesh.positions@.len()
}

/// Corner number `j` of triangle `t`, in the exported coordinate system.
pub open spec fn facet_corner(mesh: &ExtractedMesh, o: Orientation, t: int, j: int) -> BitVec3 {
    o.turned(mesh.positions@[mesh.indices@[3 * t + j] as int])
}

/// The corners of triangle `t`, in the exported coordinate system.
pub fn facet_corners(mesh: &ExtractedMesh, orientation: Orientation, t: usize) -> (r: (
    BitVec3,
    BitVec3,
    BitVec3,
))
    requires
        indices_in_range(mesh),
        t < triangle_count(mesh),
    ensures
        r.0 == facet_corner(mesh, orientation, t as int, 0),
        r.1 == facet_corner(mesh, orientation, t as int, 1),
        r.2 == facet_corner(mesh, orientation, t as int, 2),
{
    assert(3 * t + 2 < mesh.indices.len());
    let a: u32 = mesh.indices[3 * t];
    let b: u32 = mesh.indices[3 * t + 1];
    let c: u32 = mesh.indices[3 * t + 2];
    (
        orientation.transform(mesh.positions[a as usize]),
        orientation.transform(mesh.positions[b as usize]),
        orientation.transform(mesh.positions[c as usize]),
    )
}

/// Bytes of a binary STL file of a mesh: a header of 80 bytes, the number of
/// triangles, and 50 bytes per triangle.
pub fn stl_binary_size(mesh: &ExtractedMesh) -> (r: usize)
    requires
        84 + 50 * triangle_count(mesh) <= usize::MAX,
    ensures
        r == 84 + 50 * triangle_count(mesh),
{
    80 + 4 + mesh.indices.len() / 3 * 50
}

/// The label at the start of the header.
pub open spec fn stl_label() -> Seq<u8> {
    seq![
        77u8,
        85,
        68,
        32,
        115,
        99,
        117,
        108,
        112,
        116,
        32,
        98,
        105,
        110,
        97,
        114,
        121,
        32,
        83,
        84,
        76,
    ]
}

/// The header: the label, then zeros up to 80 bytes.
pub open spec fn stl_header() -> Seq<u8> {
    Seq::new(
        80,
        |i: int|
            if i < stl_label().len() {
                stl_label()[i]
            } else {
                0u8
            },
    )
}

pub open spec fn triplet_bytes(v: BitVec3) -> Seq<u8> {
    le32(v.x) + le32(v.y) + le32(v.z)
}

/// The bytes of triangle `t`: its normal, its corners, and two zeros.
pub open spec fn facet_bytes(mesh: &ExtractedMesh, o: Orientation, normal: BitVec3, t: int) -> Seq<u8> {
    triplet_bytes(normal) + triplet_bytes(facet_corner(mesh, o, t, 0)) + triplet_bytes(
        facet_corner(mesh, o, t, 1),
    ) + triplet_bytes(facet_corner(mesh, o, t, 2)) + seq![0u8, 0u8]
}

/// The bytes of the first `n` triangles.
pub open spec fn facets_bytes(
    mesh: &ExtractedMesh,
    o: Orientation,
    normals: Seq<BitVec3>,
    n: nat,
) -> Seq<u8>
    decreases n,
{
    if n == 0 {
        Seq::empty()
    } else {
        facets_bytes(mesh, o, normals, (n - 1) as nat) + facet_bytes(mesh, o, normals[n - 1], n - 1)
    }
}

/// The bytes of a binary STL file.
pub open spec fn stl_bytes(mesh: &ExtractedMesh, o: Orientation, normals: Seq<BitVec3>) -> Seq<u8> {
    stl_header() + le32(triangle_count(mesh) as u32) + facets_bytes(
        mesh,
        o,
        normals,
        triangle_count(mesh),
    )
}

fn write_triplet(out: &mut Vec<u8>, v: BitVec3)
    ensures
        final(out)@ == old(out)@ + triplet_bytes(v),
{
    let ghost was = out@;
    push_u32(out, v.x);
    push_u32(out, v.y);
    push_u32(out, v.z);
    assert(out@ =~= was + triplet_bytes(v));
}

fn write_header(out: &mut Vec<u8>)
    requires
        old(out).len() == 0,
    ensures
        final(out)@ == stl_header(),
{
    let label: [u8; 21] = [
        77,
        85,
        68,
        32,
        115,
        99,
        117,
        108,
        112,
        116,
        32,
        98,
        105,
        110,
        97,
        114,
        121,
        32,
        83,
        84,
        76,
    ];
    assert(label@ =~= stl_label());
    let mut i: usize = 0;
    while i < 80
        invariant
            i <= 80,
            label@ == stl_label(),
            out@ =~= stl_header().subrange(0, i as int),
        decreases 80 - i,
    {
        if i < 21 {
            assert(label@[i as int] == stl_label()[i as int]);
            out.push(label[i]);
        } else {
            out.push(0);
        }
        i = i + 1;
    }
    assert(out@ =~= stl_header());
}

proof fn lemma_facets_len(mesh: &ExtractedMesh, o: Orientation, normals: Seq<BitVec3>, n: nat)
    ensures
        facets_bytes(mesh, o, normals, n).len() == 50 * n,
    decreases n,
{
    if n > 0 {
        lemma_facets_len(mesh, o, normals, (n - 1) as nat);
    }
}

fn write_facet(
    out: &mut Vec<u8>,
    mesh: &ExtractedMesh,
    orientation: Orientation,
    normal: BitVec3,
    t: usize,
)
    requires
        indices_in_range(mesh),
        t < triangle_count(mesh),
    ensures
        final(out)@ == old(out)@ + facet_bytes(mesh, orientation, normal, t as int),
{
    let ghost was = out@;
    let (a, b, c) = facet_corners(mesh, orientation, t);
    let ghost t0 = triplet_bytes(normal);
    let ghost t1 = t0 + triplet_bytes(a);
    let ghost t2 = t1 + triplet_bytes(b);
    let ghost t3 = t2 + triplet_bytes(c);
    write_triplet(out, normal);
    write_triplet(out, a);
    assert(out@ =~= was + t1);
    write_triplet(out, b);
    assert(out@ =~= was + t2);
    write_triplet(out, c);
    assert(out@ =~= was + t3);
    out.push(0);
    out.push(0);
    assert(out@ =~= was + (t3 + seq![0u8, 0u8]));
}

/// Write a mesh as binary STL, with one normal per triangle.
pub fn write_stl_binary(mesh: &ExtractedMesh, orientation: Orientation, normals: &Vec<BitVec3>) -> (r:
    Vec<u8>)
    requires
        indices_in_range(mesh),
        normals.len() >= triangle_count(mesh),
    ensures
        r@ == stl_bytes(mesh, orientation, normals@),
        r.len() == 84 + 50 * triangle_count(mesh),
{
    let count: usize = mesh.indices.len() / 3;
    let mut out: Vec<u8> = Vec::new();
    write_header(&mut out);
    push_u32(&mut out, #[verifier::truncate] (count as u32));
    let ghost head = out@;
    assert(head =~= head + facets_bytes(mesh, orientation, normals@, 0));
    let mut t: usize = 0;
    while t < count
        invariant
            indices_in_range(mesh),
            normals.len() >= triangle_count(mesh),
            count == triangle_count(mesh),
            t <= count,
            out@ == head + facets_bytes(mesh, orientation, normals@, t as nat),
        decreases count - t,
    {
        write_facet(&mut out, mesh, orientation, normals[t], t);
        assert(out@ =~= head + facets_bytes(mesh, orientation, normals@, (t + 1) as nat));
        t = t + 1;
    }
    proof {
        lemma_facets_len(mesh, orientation, normals@, count as nat);
        assert(out@ =~= stl_bytes(mesh, orientation, normals@));
    }
    out
}

proof fn lemma_triplet_reads(b: Seq<u8>, at: int, v: BitVec3)
    requires
        holds_at(b, at, triplet_bytes(v)),
    ensures
        word(b, at) == v.x,
        word(b, at + 4) == v.y,
        word(b, at + 8) == v.z,
{
    lemma_holds_split(b, at, le32(v.x) + le32(v.y), le32(v.z));
    lemma_holds_split(b, at, le32(v.x), le32(v.y));
    lemma_word_of_le32(b, at, v.x);
    lemma_word_of_le32(b, at + 4, v.y);
    lemma_word_of_le32(b, at + 8, v.z);
}

proof fn lemma_facet_stands(
    b: Seq<u8>,
    mesh: &ExtractedMesh,
    o: Orientation,
    normals: Seq<BitVec3>,
    n: nat,
    t: int,
)
    requires
        holds_at(b, 84, facets_bytes(mesh, o, normals, n)),
        0 <= t < n,
    ensures
        holds_at(b, 84 + 50 * t, facet_bytes(mesh, o, normals[t], t)),
    decreases n,
{
    lemma_facets_len(mesh, o, normals, (n - 1) as nat);
    lemma_holds_split(
        b,
        84,
        facets_bytes(mesh, o, normals, (n - 1) as nat),
        facet_bytes(mesh, o, normals[n - 1], n - 1),
    );
    if t < n - 1 {
        lemma_facet_stands(b, mesh, o, normals, (n - 1) as nat, t);
    }
}

proof fn lemma_facet_reads(b: Seq<u8>, mesh: &ExtractedMesh, o: Orientation, normal: BitVec3, t: int)
    requires
        holds_at(b, 84 + 50 * t, facet_bytes(mesh, o, normal, t)),
    ensures
        ({
            let p = 84 + 50 * t;
            let c0 = facet_corner(mesh, o, t, 0);
            let c1 = facet_corner(mesh, o, t, 1);
            let c2 = facet_corner(mesh, o, t, 2);
            &&& word(b, p) == normal.x && word(b, p + 4) == normal.y && word(b, p + 8) == normal.z
            &&& word(b, p + 12) == c0.x && word(b, p + 16) == c0.y && word(b, p + 20) == c0.z
            &&& word(b, p + 24) == c1.x && word(b, p + 28) == c1.y && word(b, p + 32) == c1.z
            &&& word(b, p + 36) == c2.x && word(b, p + 40) == c2.y && word(b, p + 44) == c2.z
        }),
{
    let p = 84 + 50 * t;
    let t0 = triplet_bytes(normal);
    let t1 = triplet_bytes(facet_corner(mesh, o, t, 0));
    let t2 = triplet_bytes(facet_corner(mesh, o, t, 1));
    let t3 = triplet_bytes(facet_corner(mesh, o, t, 2));
    lemma_holds_split(b, p, t0 + t1 + t2 + t3, seq![0u8, 0u8]);
    lemma_holds_split(b, p, t0 + t1 + t2, t3);
    lemma_holds_split(b, p, t0 + t1, t2);
    lemma_holds_split(b, p, t0, t1);
    lemma_triplet_reads(b, p, normal);
    lemma_triplet_reads(b, p + 12, facet_corner(mesh, o, t, 0));
    lemma_triplet_reads(b, p + 24, facet_corner(mesh, o, t, 1));
    lemma_triplet_reads(b, p + 36, facet_corner(mesh, o, t, 2));
}

proof fn lemma_stl_parts(mesh: &ExtractedMesh, o: Orientation, normals: Seq<BitVec3>)
    requires
        triangle_count(mesh) <= u32::MAX,
    ensures
        word(stl_bytes(mesh, o, normals), 80) == triangle_count(mesh),
        holds_at(
            stl_bytes(mesh, o, normals),
            84,
            facets_bytes(mesh, o, normals, triangle_count(mesh)),
        ),
{
    let b = stl_bytes(mesh, o, normals);
    let n = triangle_count(mesh);
    let body = facets_bytes(mesh, o, normals, n);
    assert(holds_at(b, 0, b));
    lemma_holds_split(b, 0, stl_header() + le32(n as u32), body);
    lemma_holds_split(b, 0, stl_header(), le32(n as u32));
    lemma_word_of_le32(b, 80, n as u32);
}

/// What a reader of the file finds: after the header the number of triangles,
/// and for each triangle its normal and its corners.
#[verifier::spinoff_prover]
pub proof fn law_stl_reads_back(
    mesh: &ExtractedMesh,
    o: Orientation,
    normals: Seq<BitVec3>,
    t: int,
    j: int,
)
    requires
        triangle_count(mesh) <= u32::MAX,
        0 <= t < triangle_count(mesh),
        0 <= j < 3,
    ensures
        ({
            let b = stl_bytes(mesh, o, normals);
            let p = 84 + 50 * t;
            let q = p + 12 + 12 * j;
            &&& word(b, 80) == triangle_count(mesh)
            &&& (BitVec3 { x: word(b, p), y: word(b, p + 4), z: word(b, p + 8) }) == normals[t]
            &&& (BitVec3 { x: word(b, q), y: word(b, q + 4), z: word(b, q + 8) }) == facet_corner(
                mesh,
                o,
                t,
                j,
            )
        }),
{
    let b = stl_bytes(mesh, o, normals);
    let n = triangle_count(mesh);
    lemma_stl_parts(mesh, o, normals);
    lemma_facet_stands(b, mesh, o, normals, n, t);
    lemma_facet_reads(b, mesh, o, normals[t], t);
}

/// The sides of a triangle join its corners two by two, whichever way round they are written:
/// the first with the second, the second with the third and the third with the first.
pub proof fn law_sides_join_the_corners(ix: Seq<u32>, t: int)
    requires
        0 <= t < ix.len() / 3,
    ensures
        ({
            let (a, b, c) = (ix[3 * t], ix[3 * t + 1], ix[3 * t + 2]);
            let (p, q, r) = (side(ix, 3 * t), side(ix, 3 * t + 1), side(ix, 3 * t + 2));
            &&& p.0 <= p.1 && q.0 <= q.1 && r.0 <= r.1
            &&& p == (a, b) || p == (b, a)
            &&& q == (b, c) || q == (c, b)
            &&& r == (c, a) || r == (a, c)
            &&& 3 * t + 2 < side_count(ix)
        }),
{
    assert((3 * t) / 3 == t && (3 * t + 1) / 3 == t && (3 * t + 2) / 3 == t);
    assert((3 * t) % 3 == 0 && (3 * t + 1) % 3 == 1 && (3 * t + 2) % 3 == 2);
}

/// An edge is used as often as it is a side of a triangle; it is open when that is once, and
/// a fan when that is more than twice.
pub proof fn law_uses_are_counted(ix: Seq<u32>, n: nat, e: (u32, u32))
    ensures
        uses(ix, 0, e) == 0,
        uses(ix, n + 1, e) == uses(ix, n, e) + (if side(ix, n as int) == e {
            1nat
        } else {
            0nat
        }),
        edges_used(ix, n).contains(e) <==> uses(ix, n, e) >= 1,
        edges_open(ix, n).contains(e) <==> uses(ix, n, e) == 1,
        edges_fanned(ix, n).contains(e) <==> uses(ix, n, e) >= 3,
{
}

/// With z up a point is turned a quarter about x, so that what was up along y is up along z;
/// with y up it stays where it is.
pub proof fn law_export_turns_about_x(v: BitVec3)
    requires
        is_finite(v.x),
        is_finite(v.y),
        is_finite(v.z),
    ensures
        ({
            let p = (value(v.x), value(v.y), value(v.z));
            let r = Orientation::Zup.turned(v);
            &&& (value(r.x), value(r.y), value(r.z)) == turned(Axis::X, 1, p)
            &&& r.x == v.x
            &&& r.z == v.y
            &&& Orientation::YupAsIs.turned(v) == v
        }),
{
    reveal(turned);
    law_samples_compare_as_values(v.z, v.z);
}

/// A file has 84 bytes before the first triangle and 50 for each, the last two of them zero; its
/// header is a text that is filled up with zeros to 80 bytes.
pub proof fn law_stl_has_its_length(mesh: &ExtractedMesh, o: Orientation, normals: Seq<BitVec3>, i: int)
    requires
        triangle_count(mesh) <= u32::MAX,
    ensures
        stl_bytes(mesh, o, normals).len() == 84 + 50 * triangle_count(mesh),
        21 <= i < 80 ==> stl_bytes(mesh, o, normals)[i] == 0,
        0 <= i < triangle_count(mesh) ==> stl_bytes(mesh, o, normals)[84 + 50 * i + 48] == 0
            && stl_bytes(mesh, o, normals)[84 + 50 * i + 49] == 0,
{
    let n = triangle_count(mesh);
    lemma_facets_end(mesh, o, normals, n, i);
    let b = stl_bytes(mesh, o, normals);
    let body = facets_bytes(mesh, o, normals, n);
    assert(stl_header().len() == 80);
    assert(le32(n as u32).len() == 4);
    assert(b.len() == 84 + body.len());
    if 21 <= i < 80 {
        assert(b[i] == stl_header()[i]);
        assert(stl_label().len() == 21);
    }
    if 0 <= i < n {
        assert(b[84 + 50 * i + 48] == body[50 * i + 48]);
        assert(b[84 + 50 * i + 49] == body[50 * i + 49]);
    }
}

proof fn lemma_facets_end(
    mesh: &ExtractedMesh,
    o: Orientation,
    normals: Seq<BitVec3>,
    n: nat,
    i: int,
)
    ensures
        facets_bytes(mesh, o, normals, n).len() == 50 * n,
        0 <= i < n ==> facets_bytes(mesh, o, normals, n)[50 * i + 48] == 0 && facets_bytes(
            mesh,
            o,
            normals,
            n,
        )[50 * i + 49] == 0,
    decreases n,
{
    if n > 0 {
        lemma_facets_end(mesh, o, normals, (n - 1) as nat, i);
        let before = facets_bytes(mesh, o, normals, (n - 1) as nat);
        let last = facet_bytes(mesh, o, normals[n - 1], n - 1);
        assert(last.len() == 50);
        assert(last[48] == 0 && last[49] == 0);
        if i < n - 1 {
            if 0 <= i {
                assert((before + last)[50 * i + 48] == before[50 * i + 48]);
                assert((before + last)[50 * i + 49] == before[50 * i + 49]);
            }
        } else if i == n - 1 {
            assert((before + last)[50 * i + 48] == last[48]);
            assert((before + last)[50 * i + 49] == last[49]);
        }
    }
}

/// The corners that a reader of the file finds for a triangle are those of the mesh, in the order
/// of the mesh, each in the coordinate system that was asked for.
pub proof fn law_stl_has_the_corners(
    mesh: &ExtractedMesh,
    o: Orientation,
    normals: Seq<BitVec3>,
    t: int,
    j: int,
)
    requires
        triangle_count(mesh) <= u32::MAX,
        0 <= t < mesh.indices@.len() / 3,
        0 <= j < 3,
    ensures
        ({
            let b = stl_bytes(mesh, o, normals);
            let q = 84 + 50 * t + 12 + 12 * j;
            let v = mesh.positions@[mesh.indices@[3 * t + j] as int];
            &&& word(b, 80) == mesh.indices@.len() / 3
            &&& word(b, q) == v.x
            &&& o == Orientation::YupAsIs ==> word(b, q + 4) == v.y && word(b, q + 8) == v.z
            &&& o == Orientation::Zup ==> word(b, q + 4) == negated(v.z) && word(b, q + 8) == v.y
        }),
{
    law_stl_reads_back(mesh, o, normals, t, j);
}

} // verus!
