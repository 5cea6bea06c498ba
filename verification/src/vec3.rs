//! Integer vectors: voxel indices, chunk counts and voxel offsets.

use vstd::prelude::*;

verus! {

/// Three unsigned components: a voxel index, a resolution or a chunk count.
#[derive(Copy, Clone, Debug, PartialEq, Eq, Structural)]
pub struct UVec3 {
    pub x: u32,
    pub y: u32,
    pub z: u32,
}

/// Three signed components: a voxel offset.
#[derive(Copy, Clone, Debug, PartialEq, Eq, Structural)]
pub struct IVec3 {
    pub x: i32,
    pub y: i32,
    pub z: i32,
}

/// A point or extent in millimetres; each component is an IEEE-754 binary32
/// bit pattern.
#[derive(Copy, Clone, Debug, PartialEq, Eq, Structural)]
pub struct BitVec3 {
    pub x: u32,
    pub y: u32,
    pub z: u32,
}

pub open spec fn min_u32(a: u32, b: u32) -> u32 {
    if a <= b {
        a
    } else {
        b
    }
}

pub open spec fn max_u32(a: u32, b: u32) -> u32 {
    if a >= b {
        a
    } else {
        b
    }
}

/// The smaller of two numbers.
pub fn least(a: u32, b: u32) -> (r: u32)
    ensures
        r == min_u32(a, b),
{
    if a <= b {
        a
    } else {
        b
    }
}

/// The larger of two numbers.
pub fn greatest(a: u32, b: u32) -> (r: u32)
    ensures
        r == max_u32(a, b),
{
    if a >= b {
        a
    } else {
        b
    }
}

impl UVec3 {
    pub fn new(x: u32, y: u32, z: u32) -> (r: UVec3)
        ensures
            r == (UVec3 { x, y, z }),
    {
        UVec3 { x, y, z }
    }

    /// All three components equal to `v`.
    pub fn splat(v: u32) -> (r: UVec3)
        ensures
            r == (UVec3 { x: v, y: v, z: v }),
    {
        UVec3 { x: v, y: v, z: v }
    }

    pub open spec fn zero() -> UVec3 {
        UVec3 { x: 0, y: 0, z: 0 }
    }

    pub open spec fn spec_min(self, other: UVec3) -> UVec3 {
        UVec3 {
            x: min_u32(self.x, other.x),
            y: min_u32(self.y, other.y),
            z: min_u32(self.z, other.z),
        }
    }

    pub open spec fn spec_max(self, other: UVec3) -> UVec3 {
        UVec3 {
            x: max_u32(self.x, other.x),
            y: max_u32(self.y, other.y),
            z: max_u32(self.z, other.z),
        }
    }

    /// Component-wise minimum.
    pub fn min(self, other: UVec3) -> (r: UVec3)
        ensures
            r == self.spec_min(other),
    {
        UVec3 { x: least(self.x, other.x), y: least(self.y, other.y), z: least(self.z, other.z) }
    }

    /// Component-wise maximum.
    pub fn max(self, other: UVec3) -> (r: UVec3)
        ensures
            r == self.spec_max(other),
    {
        UVec3 {
            x: greatest(self.x, other.x),
            y: greatest(self.y, other.y),
            z: greatest(self.z, other.z),
        }
    }

    /// `v` is a voxel index of a grid of this resolution.
    pub open spec fn has(self, x: int, y: int, z: int) -> bool {
        &&& 0 <= x < self.x
        &&& 0 <= y < self.y
        &&& 0 <= z < self.z
    }

    /// Number of cells in a grid of this resolution.
    pub open spec fn volume(self) -> int {
        self.x as int * self.y as int * self.z as int
    }
}

impl IVec3 {
    pub fn new(x: i32, y: i32, z: i32) -> (r: IVec3)
        ensures
            r == (IVec3 { x, y, z }),
    {
        IVec3 { x, y, z }
    }

    pub open spec fn zero() -> IVec3 {
        IVec3 { x: 0, y: 0, z: 0 }
    }

    /// Whether this is the zero offset.
    pub fn is_zero(&self) -> (r: bool)
        ensures
            r == (*self == IVec3::zero()),
    {
        self.x == 0 && self.y == 0 && self.z == 0
    }
}

/// The smaller and the larger of two vectors, coordinate by coordinate, hold both between them,
/// and each coordinate is that of one of the two.
pub proof fn law_least_and_greatest(a: UVec3, b: UVec3)
    ensures
        ({
            let (l, g) = (a.spec_min(b), a.spec_max(b));
            &&& l.x <= a.x <= g.x && l.x <= b.x <= g.x && l.x + g.x == a.x + b.x
            &&& l.y <= a.y <= g.y && l.y <= b.y <= g.y && l.y + g.y == a.y + b.y
            &&& l.z <= a.z <= g.z && l.z <= b.z <= g.z && l.z + g.z == a.z + b.z
        }),
{
}

} // verus!
