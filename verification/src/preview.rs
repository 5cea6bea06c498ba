//! The ghost of the tool under the pointer: when its mesh is made anew, which look
//! and pose it has, and the triangles of a prism.

use crate::tool::ToolKind;
use vstd::arithmetic::div_mod::{lemma_mod_add_multiples_vanish, lemma_small_mod};
use vstd::prelude::*;

verus! {

/// What the mesh of the ghost depends on: the tool, and its settings rounded to what
/// shows.
#[derive(Copy, Clone, Debug, PartialEq, Eq, Structural)]
pub struct Signature {
    pub kind: ToolKind,
    pub size: i32,
    pub corner: i32,
    pub wave_amp: i32,
    pub wave_freq: i32,
}

/// What the last mesh was made for.
#[derive(Copy, Clone, Debug, PartialEq, Eq, Structural)]
pub struct PreviewMeshState {
    pub last: Option<Signature>,
}

impl PreviewMeshState {
    /// Whether a new mesh is needed. The state is up to date afterwards.
    pub fn refresh(&mut self, now: Signature) -> (r: bool)
        ensures
            r == (old(self).last != Some(now)),
            final(self).last == Some(now),
    {
        let same: bool = match self.last {
            Some(last) => last == now,
            None => false,
        };
        self.last = Some(now);
        !same
    }
}

/// The looks of the ghost.
#[derive(Copy, Clone, Debug, PartialEq, Eq, Structural)]
pub enum GhostLook {
    /// Blue: the other tools.
    Plain,
    /// Amber: tools that displace inwards.
    Displace,
    /// Teal: the tool that displaces outwards.
    Draw,
    /// Steel: the knife.
    Blade,
}

/// The look of the ghost of a tool.
pub fn ghost_look(kind: ToolKind) -> (r: GhostLook)
    ensures
        r == (if kind == ToolKind::Press || kind == ToolKind::Paddle {
            GhostLook::Displace
        } else if kind == ToolKind::Pull {
            GhostLook::Draw
        } else if kind == ToolKind::Knife {
            GhostLook::Blade
        } else {
            GhostLook::Plain
        }),
{
    match kind {
        ToolKind::Press | ToolKind::Paddle => GhostLook::Displace,
        ToolKind::Pull => GhostLook::Draw,
        ToolKind::Knife => GhostLook::Blade,
        _ => GhostLook::Plain,
    }
}

/// Where the ghost is.
#[derive(Copy, Clone, Debug, PartialEq, Eq, Structural)]
pub enum GhostPlace {
    /// Where a clay stamp would be.
    ClayCentre,
    /// Where a press would be.
    PressCentre,
    /// A little above the surface.
    Surface,
}

/// Where the ghost of a tool is.
pub fn ghost_place(kind: ToolKind) -> (r: GhostPlace)
    ensures
        r == (if kind == ToolKind::Clay {
            GhostPlace::ClayCentre
        } else if kind == ToolKind::Press || kind == ToolKind::Pull {
            GhostPlace::PressCentre
        } else {
            GhostPlace::Surface
        }),
{
    match kind {
        ToolKind::Clay => GhostPlace::ClayCentre,
        ToolKind::Press | ToolKind::Pull => GhostPlace::PressCentre,
        _ => GhostPlace::Surface,
    }
}

/// Whether the ghost of a tool is turned to stand on the surface.
pub fn ghost_is_turned(kind: ToolKind) -> (r: bool)
    ensures
        r == (kind is Cutter || kind == ToolKind::Paddle || kind == ToolKind::Knife),
{
    match kind {
        ToolKind::Cutter(_) | ToolKind::Paddle | ToolKind::Knife => true,
        _ => false,
    }
}

/// The shape of the ghost.
#[derive(Copy, Clone, Debug, PartialEq, Eq, Structural)]
pub enum GhostShape {
    /// A ball of the size of the tool.
    Ball,
    /// A small ball.
    Dot,
    /// A prism of the outline of the cutter.
    Prism,
    /// A short prism of the outline of the knife.
    Blade,
    /// A disk.
    Disk,
}

/// The shape of the ghost of a tool.
pub fn ghost_shape(kind: ToolKind) -> (r: GhostShape)
    ensures
        r == (match kind {
            ToolKind::Clay | ToolKind::Press | ToolKind::Pull | ToolKind::Smooth => GhostShape::Ball,
            ToolKind::Select | ToolKind::Move | ToolKind::WireCutter => GhostShape::Dot,
            ToolKind::Cutter(_) => GhostShape::Prism,
            ToolKind::Knife => GhostShape::Blade,
            ToolKind::Paddle => GhostShape::Disk,
        }),
{
    match kind {
        ToolKind::Clay | ToolKind::Press | ToolKind::Pull | ToolKind::Smooth => GhostShape::Ball,
        ToolKind::Select | ToolKind::Move | ToolKind::WireCutter => GhostShape::Dot,
        ToolKind::Cutter(_) => GhostShape::Prism,
        ToolKind::Knife => GhostShape::Blade,
        ToolKind::Paddle => GhostShape::Disk,
    }
}

/// The next point around an outline of `n` points.
pub open spec fn next_point(i: int, n: int) -> int {
    if i + 1 == n {
        0
    } else {
        i + 1
    }
}

/// Corner `k` of the two side triangles at point `i` of an outline of `n` points. The
/// bottom points come first, then the top points.
pub open spec fn side_corner(i: int, n: int, k: int) -> int {
    let j = next_point(i, n);
    if k == 0 {
        i
    } else if k == 1 {
        j
    } else if k == 2 {
        j + n
    } else if k == 3 {
        i
    } else if k == 4 {
        j + n
    } else {
        i + n
    }
}

/// Corner `k` of the bottom triangle at point `i`.
pub open spec fn bottom_corner(i: int, n: int, k: int) -> int {
    if k == 0 {
        2 * n
    } else if k == 1 {
        next_point(i, n)
    } else {
        i
    }
}

/// Corner `k` of the top triangle at point `i`.
pub open spec fn top_corner(i: int, n: int, k: int) -> int {
    if k == 0 {
        2 * n + 1
    } else if k == 1 {
        i + n
    } else {
        next_point(i, n) + n
    }
}

/// The triangles of a prism over an outline of `n` points: two for each side, then a
/// fan at the bottom, then a fan at the top. Its points are the bottom outline, the
/// top outline, the middle of the bottom and the middle of the top.
pub open spec fn is_prism(s: Seq<u32>, n: int) -> bool {
    &&& s.len() == 12 * n
    &&& forall|i: int, k: int|
        0 <= i < n && 0 <= k < 6 ==> s[6 * i + k] == #[trigger] side_corner(i, n, k)
    &&& forall|i: int, k: int|
        0 <= i < n && 0 <= k < 3 ==> s[6 * n + 3 * i + k] == #[trigger] bottom_corner(i, n, k)
    &&& forall|i: int, k: int|
        0 <= i < n && 0 <= k < 3 ==> s[9 * n + 3 * i + k] == #[trigger] top_corner(i, n, k)
}

fn following(i: u32, n: u32) -> (r: u32)
    requires
        i < n,
    ensures
        r == next_point(i as int, n as int),
{
    if i + 1 == n {
        0
    } else {
        i + 1
    }
}

/// The triangles of a prism over an outline.
pub fn prism_indices(n: u32) -> (r: Vec<u32>)
    requires
        n <= 0x1000_0000,
    ensures
        is_prism(r@, n as int),
{
    let mut r: Vec<u32> = Vec::new();
    let mut i: u32 = 0;
    while i < n
        invariant
            i <= n,
            n <= 0x1000_0000,
            r@.len() == 6 * i,
            forall|j: int, k: int|
                0 <= j < i && 0 <= k < 6 ==> r@[6 * j + k] == #[trigger] side_corner(j, n as int, k),
        decreases n - i,
    {
        let j: u32 = following(i, n);
        let ghost was = r@;
        r.push(i);
        r.push(j);
        r.push(j + n);
        r.push(i);
        r.push(j + n);
        r.push(i + n);
        proof {
            assert forall|a: int, k: int| 0 <= a < i + 1 && 0 <= k < 6 implies r@[6 * a + k]
                == #[trigger] side_corner(a, n as int, k) by {
                if a < i {
                    assert(r@[6 * a + k] == was[6 * a + k]);
                }
            }
        }
        i = i + 1;
    }
    let ghost sides = r@;
    let mut i: u32 = 0;
    while i < n
        invariant
            i <= n,
            n <= 0x1000_0000,
            sides.len() == 6 * n,
            r@.len() == 6 * n + 3 * i,
            forall|a: int| 0 <= a < 6 * n ==> #[trigger] r@[a] == sides[a],
            forall|j: int, k: int|
                0 <= j < i && 0 <= k < 3 ==> r@[6 * n + 3 * j + k] == #[trigger] bottom_corner(
                    j,
                    n as int,
                    k,
                ),
        decreases n - i,
    {
        let j: u32 = following(i, n);
        let ghost was = r@;
        r.push(2 * n);
        r.push(j);
        r.push(i);
        proof {
            assert forall|a: int, k: int| 0 <= a < i + 1 && 0 <= k < 3 implies r@[6 * n + 3 * a + k]
                == #[trigger] bottom_corner(a, n as int, k) by {
                if a < i {
                    assert(r@[6 * n + 3 * a + k] == was[6 * n + 3 * a + k]);
                }
            }
        }
        i = i + 1;
    }
    let ghost open = r@;
    let mut i: u32 = 0;
    while i < n
        invariant
            i <= n,
            n <= 0x1000_0000,
            open.len() == 9 * n,
            r@.len() == 9 * n + 3 * i,
            forall|a: int| 0 <= a < 9 * n ==> #[trigger] r@[a] == open[a],
            forall|j: int, k: int|
                0 <= j < i && 0 <= k < 3 ==> r@[9 * n + 3 * j + k] == #[trigger] top_corner(
                    j,
                    n as int,
                    k,
                ),
        decreases n - i,
    {
        let j: u32 = following(i, n);
        let ghost was = r@;
        r.push(2 * n + 1);
        r.push(i + n);
        r.push(j + n);
        proof {
            assert forall|a: int, k: int| 0 <= a < i + 1 && 0 <= k < 3 implies r@[9 * n + 3 * a + k]
                == #[trigger] top_corner(a, n as int, k) by {
                if a < i {
                    assert(r@[9 * n + 3 * a + k] == was[9 * n + 3 * a + k]);
                }
            }
        }
        i = i + 1;
    }
    proof {
        assert forall|a: int, k: int| 0 <= a < n && 0 <= k < 6 implies r@[6 * a + k]
            == #[trigger] side_corner(a, n as int, k) by {
            assert(r@[6 * a + k] == open[6 * a + k]);
            assert(open[6 * a + k] == sides[6 * a + k]);
        }
        assert forall|a: int, k: int| 0 <= a < n && 0 <= k < 3 implies r@[6 * n + 3 * a + k]
            == #[trigger] bottom_corner(a, n as int, k) by {
            assert(r@[6 * n + 3 * a + k] == open[6 * n + 3 * a + k]);
        }
    }
    r
}

/// Every corner of a prism is one of its points.
pub proof fn law_prism_in_range(s: Seq<u32>, n: int, p: int)
    requires
        0 < n,
        is_prism(s, n),
        0 <= p < s.len(),
    ensures
        s[p] < 2 * n + 2,
{
    if p < 6 * n {
        let (i, k) = (p / 6, p % 6);
        assert(p == 6 * i + k);
        assert(s[6 * i + k] == side_corner(i, n, k));
    } else if p < 9 * n {
        let q = p - 6 * n;
        let (i, k) = (q / 3, q % 3);
        assert(p == 6 * n + 3 * i + k);
        assert(s[6 * n + 3 * i + k] == bottom_corner(i, n, k));
    } else {
        let q = p - 9 * n;
        let (i, k) = (q / 3, q % 3);
        assert(p == 9 * n + 3 * i + k);
        assert(s[9 * n + 3 * i + k] == top_corner(i, n, k));
    }
}

/// Side number `m` of the triangles, in the direction in which the triangle goes round.
pub open spec fn directed_side(s: Seq<u32>, m: int) -> (u32, u32) {
    (s[m], s[m / 3 * 3 + (m % 3 + 1) % 3])
}

/// Side number `m` goes from one point to another.
spec fn goes(s: Seq<u32>, m: int, a: int, b: int) -> bool {
    directed_side(s, m).0 == a && directed_side(s, m).1 == b
}

proof fn lemma_side_ways(s: Seq<u32>, n: int, i: int)
    requires
        0 < n,
        is_prism(s, n),
        0 <= i < n,
    ensures
        ({
            let j = next_point(i, n);
            &&& goes(s, 6 * i, i, j)
            &&& goes(s, 6 * i + 1, j, j + n)
            &&& goes(s, 6 * i + 2, j + n, i)
            &&& goes(s, 6 * i + 3, i, j + n)
            &&& goes(s, 6 * i + 4, j + n, i + n)
            &&& goes(s, 6 * i + 5, i + n, i)
            &&& goes(s, 6 * n + 3 * i, 2 * n, j)
            &&& goes(s, 6 * n + 3 * i + 1, j, i)
            &&& goes(s, 6 * n + 3 * i + 2, i, 2 * n)
            &&& goes(s, 9 * n + 3 * i, 2 * n + 1, i + n)
            &&& goes(s, 9 * n + 3 * i + 1, i + n, j + n)
            &&& goes(s, 9 * n + 3 * i + 2, j + n, 2 * n + 1)
        }),
{
    assert(s[6 * i] == side_corner(i, n, 0)) by {
        assert(s[6 * i + 0] == side_corner(i, n, 0));
    }
    assert(s[6 * i + 1] == side_corner(i, n, 1));
    assert(s[6 * i + 2] == side_corner(i, n, 2));
    assert(s[6 * i + 3] == side_corner(i, n, 3));
    assert(s[6 * i + 4] == side_corner(i, n, 4));
    assert(s[6 * i + 5] == side_corner(i, n, 5));
    assert(s[6 * n + 3 * i] == bottom_corner(i, n, 0)) by {
        assert(s[6 * n + 3 * i + 0] == bottom_corner(i, n, 0));
    }
    assert(s[6 * n + 3 * i + 1] == bottom_corner(i, n, 1));
    assert(s[6 * n + 3 * i + 2] == bottom_corner(i, n, 2));
    assert(s[9 * n + 3 * i] == top_corner(i, n, 0)) by {
        assert(s[9 * n + 3 * i + 0] == top_corner(i, n, 0));
    }
    assert(s[9 * n + 3 * i + 1] == top_corner(i, n, 1));
    assert(s[9 * n + 3 * i + 2] == top_corner(i, n, 2));
}

/// The prism is closed and goes one way round: every side of a triangle is met by a side of
/// another one that runs the other way.
pub proof fn law_prism_is_closed(s: Seq<u32>, n: int, m: int)
    requires
        3 <= n,
        is_prism(s, n),
        0 <= m < 12 * n,
    ensures
        exists|k: int|
            0 <= k < 12 * n && k / 3 != m / 3 && #[trigger] directed_side(s, k) == (
                directed_side(s, m).1,
                directed_side(s, m).0,
            ),
{
    let i: int = if m < 6 * n {
        m / 6
    } else if m < 9 * n {
        (m - 6 * n) / 3
    } else {
        (m - 9 * n) / 3
    };
    let j = next_point(i, n);
    let h: int = if i == 0 { n - 1 } else { i - 1 };
    assert(next_point(h, n) == i);
    lemma_side_ways(s, n, i);
    lemma_side_ways(s, n, j);
    lemma_side_ways(s, n, h);
    if m < 6 * n {
        let k = m % 6;
        assert(m == 6 * i + k);
        if k == 0 {
            assert(directed_side(s, 6 * n + 3 * i + 1) == (directed_side(s, m).1, directed_side(s, m).0));
        } else if k == 1 {
            assert(directed_side(s, 6 * j + 5) == (directed_side(s, m).1, directed_side(s, m).0));
        } else if k == 2 {
            assert(directed_side(s, 6 * i + 3) == (directed_side(s, m).1, directed_side(s, m).0));
        } else if k == 3 {
            assert(directed_side(s, 6 * i + 2) == (directed_side(s, m).1, directed_side(s, m).0));
        } else if k == 4 {
            assert(directed_side(s, 9 * n + 3 * i + 1) == (directed_side(s, m).1, directed_side(s, m).0));
        } else {
            assert(directed_side(s, 6 * h + 1) == (directed_side(s, m).1, directed_side(s, m).0));
        }
    } else if m < 9 * n {
        let k = (m - 6 * n) % 3;
        assert(m == 6 * n + 3 * i + k);
        if k == 0 {
            assert(directed_side(s, 6 * n + 3 * j + 2) == (directed_side(s, m).1, directed_side(s, m).0));
        } else if k == 1 {
            assert(directed_side(s, 6 * i) == (directed_side(s, m).1, directed_side(s, m).0));
        } else {
            assert(directed_side(s, 6 * n + 3 * h) == (directed_side(s, m).1, directed_side(s, m).0));
        }
    } else {
        let k = (m - 9 * n) % 3;
        assert(m == 9 * n + 3 * i + k);
        if k == 0 {
            assert(directed_side(s, 9 * n + 3 * h + 2) == (directed_side(s, m).1, directed_side(s, m).0));
        } else if k == 1 {
            assert(directed_side(s, 6 * i + 4) == (directed_side(s, m).1, directed_side(s, m).0));
        } else {
            assert(directed_side(s, 9 * n + 3 * j) == (directed_side(s, m).1, directed_side(s, m).0));
        }
    }
}

/// The points below and above stand side by side, in a ring: no side that joins two of them
/// skips one.
pub proof fn law_prism_skips_no_point(s: Seq<u32>, n: int, m: int)
    requires
        3 <= n,
        is_prism(s, n),
        0 <= m < 12 * n,
    ensures
        ({
            let (a, b) = directed_side(s, m);
            a < 2 * n && b < 2 * n ==> {
                let d = (b as int) % n - (a as int) % n;
                d == 0 || d == 1 || d == -1 || d == n - 1 || d == 1 - n
            }
        }),
{
    let i: int = if m < 6 * n {
        m / 6
    } else if m < 9 * n {
        (m - 6 * n) / 3
    } else {
        (m - 9 * n) / 3
    };
    let j = next_point(i, n);
    lemma_side_ways(s, n, i);
    let (a, b) = directed_side(s, m);
    if m < 6 * n {
        let k = m % 6;
        assert(m == 6 * i + k);
        assert(k == 0 || k == 1 || k == 2 || k == 3 || k == 4 || k == 5);
    } else if m < 9 * n {
        let k = (m - 6 * n) % 3;
        assert(m == 6 * n + 3 * i + k);
        assert(k == 0 || k == 1 || k == 2);
    } else {
        let k = (m - 9 * n) % 3;
        assert(m == 9 * n + 3 * i + k);
        assert(k == 0 || k == 1 || k == 2);
    }
    assert(a == i || a == j || a == i + n || a == j + n || a >= 2 * n);
    assert(b == i || b == j || b == i + n || b == j + n || b >= 2 * n);
    lemma_mod_add_multiples_vanish(i, n);
    lemma_mod_add_multiples_vanish(j, n);
    lemma_small_mod(i as nat, n as nat);
    lemma_small_mod(j as nat, n as nat);
}

} // verus!
