//! Reading the samples around a point of a grid, for interpolation and for
//! gradients.

use crate::grid::{Grid, GridView};
use crate::sample::{cleared, cleared_value};
use vstd::prelude::*;

verus! {

/// The domain has all eight corners of the cell that starts at `(x, y, z)`.
pub open spec fn has_cell(g: GridView, x: int, y: int, z: int) -> bool {
    g.res.has(x, y, z) && g.res.has(x + 1, y + 1, z + 1)
}

/// The corners of a cell for trilinear interpolation: x counts once, y twice and z
/// four times. Where the domain does not have the cell, the error is a sample of
/// open air, 32 voxels from any surface.
pub fn cell_samples(grid: &Grid, x: i32, y: i32, z: i32) -> (r: Result<[u32; 8], u32>)
    requires
        grid.wf(),
    ensures
        r is Ok <==> has_cell(grid@, x as int, y as int, z as int),
        r matches Err(s) ==> s == cleared(grid@.voxel_size),
        r matches Ok(c) ==> forall|i: int|
            0 <= i < 8 ==> #[trigger] c@[i] == grid@.at(x + i % 2, y + (i / 2) % 2, z + i / 4),
{
    let res = grid.res();
    if x < 0 || y < 0 || z < 0 {
        return Err(cleared_value(grid.voxel_size()));
    }
    let (a, b, c) = (x as u32, y as u32, z as u32);
    if a + 1 >= res.x || b + 1 >= res.y || c + 1 >= res.z {
        return Err(cleared_value(grid.voxel_size()));
    }
    let corners: [u32; 8] = [
        grid.get(a, b, c),
        grid.get(a + 1, b, c),
        grid.get(a, b + 1, c),
        grid.get(a + 1, b + 1, c),
        grid.get(a, b, c + 1),
        grid.get(a + 1, b, c + 1),
        grid.get(a, b + 1, c + 1),
        grid.get(a + 1, b + 1, c + 1),
    ];
    proof {
        assert forall|i: int| 0 <= i < 8 implies #[trigger] corners@[i] == grid@.at(
            x + i % 2,
            y + (i / 2) % 2,
            z + i / 4,
        ) by {
            if i == 0 {
            } else if i == 1 {
            } else if i == 2 {
            } else if i == 3 {
            } else if i == 4 {
            } else if i == 5 {
            } else if i == 6 {
            } else {
                assert(i == 7);
            }
        }
    }
    Ok(corners)
}

/// One step up along an axis of `n` voxels, but not off its end.
pub open spec fn step_up(v: u32, n: u32) -> int {
    if v + 1 < n {
        v + 1
    } else {
        n - 1
    }
}

/// One step down along an axis, but not off its start.
pub open spec fn step_down(v: u32) -> int {
    if v > 0 {
        v - 1
    } else {
        0
    }
}

fn up(v: u32, n: u32) -> (r: u32)
    requires
        v < n,
    ensures
        r == step_up(v, n),
        r < n,
{
    if v + 1 < n {
        v + 1
    } else {
        n - 1
    }
}

fn down(v: u32) -> (r: u32)
    ensures
        r == step_down(v),
        r <= v,
{
    if v > 0 {
        v - 1
    } else {
        0
    }
}

/// The samples on both sides of a voxel along each axis, for a gradient by
/// central differences; at the border the voxel's own sample takes the place of
/// the missing one.
pub fn gradient_samples(grid: &Grid, x: u32, y: u32, z: u32) -> (r: [u32; 6])
    requires
        grid.wf(),
        grid@.res.has(x as int, y as int, z as int),
    ensures
        r@ == seq![
            grid@.at(step_up(x, grid@.res.x), y as int, z as int),
            grid@.at(step_down(x), y as int, z as int),
            grid@.at(x as int, step_up(y, grid@.res.y), z as int),
            grid@.at(x as int, step_down(y), z as int),
            grid@.at(x as int, y as int, step_up(z, grid@.res.z)),
            grid@.at(x as int, y as int, step_down(z)),
        ],
{
    let res = grid.res();
    let r: [u32; 6] = [
        grid.get(up(x, res.x), y, z),
        grid.get(down(x), y, z),
        grid.get(x, up(y, res.y), z),
        grid.get(x, down(y), z),
        grid.get(x, y, up(z, res.z)),
        grid.get(x, y, down(z)),
    ];
    assert(r@ =~= seq![
        grid@.at(step_up(x, grid@.res.x), y as int, z as int),
        grid@.at(step_down(x), y as int, z as int),
        grid@.at(x as int, step_up(y, grid@.res.y), z as int),
        grid@.at(x as int, step_down(y), z as int),
        grid@.at(x as int, y as int, step_up(z, grid@.res.z)),
        grid@.at(x as int, y as int, step_down(z)),
    ]);
    r
}

/// A step along an axis goes one voxel up or down and stays inside; only at the end it has
/// nowhere to go.
pub proof fn law_steps_stay_inside(v: u32, n: u32)
    requires
        v < n,
    ensures
        0 <= step_down(v) <= v <= step_up(v, n) < n,
        step_up(v, n) == v <==> v == n - 1,
        step_down(v) == v <==> v == 0,
        step_up(v, n) - v <= 1,
        v - step_down(v) <= 1,
        v + 1 < n ==> step_down(step_up(v, n) as u32) == v,
{
}

} // verus!
