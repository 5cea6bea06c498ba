//! The sculpting tools, driven by distances computed in `f32`.

use glam::Vec2;
use glam::Vec3;
use mud_sculpt::brush::{BrushMode, apply_cookie_cutter, apply_displacing_brush, apply_primitive, apply_smooth_brush, apply_sphere_brush, apply_wire_cutter, clamp_aabb, expand_region, neighbour_samples, wire_slab};
use mud_sculpt::dirty::DirtyRegion;
use mud_sculpt::displace::{DisplaceStamp, DisplaceTool, apply_relaxed, displace_plan};
use mud_sculpt::grid::{ChunkCoord, Grid};
use mud_sculpt::journal::VoxelEdit;
use mud_sculpt::probe::{cell_samples, gradient_samples};
use mud_sculpt::sample::{FAR, cleared_value, double, finite, has_moved, has_stirred, is_nearly_equal, is_solid, larger, less, negate, same_number, smaller};
use mud_sculpt::stamp::{Change, Combine, Field, apply_field};
use mud_sculpt::vec3::{BitVec3, IVec3, UVec3};

fn vec3_of(b: BitVec3) -> Vec3 {
    Vec3::new(f32::from_bits(b.x), f32::from_bits(b.y), f32::from_bits(b.z))
}

fn bits_of(v: Vec3) -> BitVec3 {
    BitVec3 { x: v.x.to_bits(), y: v.y.to_bits(), z: v.z.to_bits() }
}

fn empty_grid(res: UVec3, voxel_size: f32, origin: Vec3) -> Grid {
    Grid::empty(res, voxel_size.to_bits(), bits_of(origin))
}

fn voxel_size(grid: &Grid) -> f32 {
    f32::from_bits(grid.voxel_size())
}

fn origin(grid: &Grid) -> Vec3 {
    vec3_of(grid.origin())
}

fn value(grid: &Grid, ix: u32, iy: u32, iz: u32) -> f32 {
    f32::from_bits(grid.get(ix, iy, iz))
}

fn position(grid: &Grid, ix: u32, iy: u32, iz: u32) -> Vec3 {
    origin(grid) + Vec3::new(ix as f32, iy as f32, iz as f32) * voxel_size(grid)
}

/// A grid that holds a solid sphere.
fn sphere_grid(res: UVec3, voxel_size: f32, origin: Vec3, center: Vec3, radius: f32) -> Grid {
    let mut data = Vec::with_capacity(res.x as usize * res.y as usize * res.z as usize);
    for iz in 0..res.z {
        for iy in 0..res.y {
            for ix in 0..res.x {
                let p = origin + Vec3::new(ix as f32, iy as f32, iz as f32) * voxel_size;
                data.push(((p - center).length() - radius).to_bits());
            }
        }
    }
    Grid::from_samples(res, voxel_size.to_bits(), bits_of(origin), data)
        .expect("one sample for each voxel")
}

/// Trilinear interpolation; open air outside the domain.
fn sample(grid: &Grid, p: Vec3) -> f32 {
    let at = (p - origin(grid)) * (1.0 / voxel_size(grid));
    let cell = at.floor();
    match cell_samples(grid, cell.x as i32, cell.y as i32, cell.z as i32) {
        Err(air) => f32::from_bits(air),
        Ok(corners) => {
            let c = corners.map(f32::from_bits);
            let f = at - cell;
            let along = |a: f32, b: f32, t: f32| a * (1.0 - t) + b * t;
            let near = along(along(c[0], c[1], f.x), along(c[2], c[3], f.x), f.y);
            let far = along(along(c[4], c[5], f.x), along(c[6], c[7], f.x), f.y);
            along(near, far, f.z)
        }
    }
}

/// How far a point is from the samples of the grid, so that a ray from afar does not
/// step over a piece near the border.
fn distance_to_domain(grid: &Grid, p: Vec3) -> f32 {
    let res = grid.res();
    let first = origin(grid);
    let last = position(grid, res.x.saturating_sub(1), res.y.saturating_sub(1), res.z.saturating_sub(1));
    (p - p.clamp(first, last.max(first))).length()
}

/// Sphere tracing from outside the workpiece, refined onto the surface.
fn ray_march(grid: &Grid, from: Vec3, dir: Vec3, max_dist: f32) -> Option<Vec3> {
    let vs = voxel_size(grid);
    let min_step = vs * 0.5;
    let near_enough = vs * 0.25;
    let mut t = 0.0f32;
    let mut latch = None;
    for _ in 0..256 {
        let p = from + dir * t;
        let outside = distance_to_domain(grid, p);
        let d = if outside > 0.0 { outside } else { sample(grid, p) };
        if outside <= 0.0 && d < near_enough {
            latch = Some(t);
            break;
        }
        t += d.max(min_step);
        if t > max_dist {
            return None;
        }
    }
    let hit = latch?;
    let mut outside = (hit - min_step).max(0.0);
    let mut inside = hit;
    if sample(grid, from + dir * outside) < 0.0 {
        outside = (hit - vs * 2.0).max(0.0);
    }
    for _ in 0..8 {
        let middle = 0.5 * (outside + inside);
        if sample(grid, from + dir * middle) > 0.0 {
            outside = middle;
        } else {
            inside = middle;
        }
    }
    Some(from + dir * inside)
}

/// The voxels that a tool may reach: a box of `reach` on every side of `center`.
fn footprint(grid: &Grid, center: Vec3, reach: Vec3) -> Option<(UVec3, UVec3)> {
    let per_mm = 1.0 / voxel_size(grid);
    let first = (center - reach - origin(grid)) * per_mm;
    let last = (center + reach - origin(grid)) * per_mm;
    let floors = UVec3::new(
        first.x.floor().max(0.0) as u32,
        first.y.floor().max(0.0) as u32,
        first.z.floor().max(0.0) as u32,
    );
    let ceils = IVec3::new(last.x.ceil() as i32, last.y.ceil() as i32, last.z.ceil() as i32);
    let res = grid.res();
    if res.x == 0 || res.y == 0 || res.z == 0 {
        return None;
    }
    clamp_aabb(floors, ceils, res)
}

/// What a tool offers for each voxel of a box.
fn field(
    grid: &Grid,
    bounds: (UVec3, UVec3),
    workbench_y: Option<f32>,
    offer: impl Fn(Vec3, f32, UVec3) -> Option<f32>,
) -> Field {
    let (lo, hi) = bounds;
    let mut values = Vec::new();
    for iz in lo.z..hi.z {
        for iy in lo.y..hi.y {
            for ix in lo.x..hi.x {
                let v = UVec3::new(ix, iy, iz);
                let offered = offer(position(grid, ix, iy, iz), value(grid, ix, iy, iz), v);
                values.push(offered.map(f32::to_bits));
            }
        }
    }
    Field { lo, hi, values, floors: workbench_y.map(|y| floors(grid, lo.y, hi.y, y)) }
}

/// How far each height lies below the workbench.
fn floors(grid: &Grid, lo: u32, hi: u32, workbench_y: f32) -> Vec<u32> {
    (lo..hi).map(|iy| (workbench_y - position(grid, 0, iy, 0).y).to_bits()).collect()
}

#[derive(Copy, Clone, Debug)]
struct SphereBrush {
    center: Vec3,
    radius: f32,
    mode: BrushMode,
    direction: Vec3,
    displace: bool,
    workbench_y: Option<f32>,
}

/// The field of a spherical brush: distances to the sphere, or whole samples where
/// the brush bulges.
fn sphere_field(grid: &Grid, brush: &SphereBrush) -> Option<Field> {
    let vs = voxel_size(grid);
    let (r, c) = (brush.radius, brush.center);
    let ring = if brush.displace { r * 0.45 } else { 0.0 };
    let bounds = footprint(grid, c, Vec3::splat(r + ring + vs))?;
    let bulges = brush.displace && matches!(brush.mode, BrushMode::Press);
    let band = ring * 1.2 + vs;
    Some(field(grid, bounds, brush.workbench_y, |p, old, _| {
        let d = (p - c).length() - r;
        if !bulges {
            return Some(d);
        }
        let mut new = old.max(-d);
        if d > 0.0 && d < ring {
            let surface = (1.0 - (old.abs() / band).min(1.0)).max(0.0);
            let inner = (1.0 - d / ring) * (1.0 - d / ring);
            let cos = ((p - c) * (1.0 / (d + r).max(1e-6))).dot(brush.direction);
            let sideways = ((1.0 - cos) * 0.5).clamp(0.0, 1.0);
            new -= r * 0.18 * inner * surface * sideways;
        }
        Some(new)
    }))
}

fn sphere_brush(grid: &mut Grid, brush: &SphereBrush) -> Option<DirtyRegion> {
    let field = sphere_field(grid, brush)?;
    if brush.displace && matches!(brush.mode, BrushMode::Press) {
        apply_displacing_brush(grid, &field, &mut Vec::new())
    } else {
        apply_sphere_brush(grid, brush.mode, &field)
    }
}

#[derive(Copy, Clone, Debug)]
enum PrimitiveKind {
    Sphere { radius: f32 },
    Box { half_extents: Vec3 },
    Cylinder { radius: f32, half_height: f32 },
    Torus { major: f32, minor: f32 },
}

impl PrimitiveKind {
    fn sdf(&self, p: Vec3) -> f32 {
        match *self {
            PrimitiveKind::Sphere { radius } => p.length() - radius,
            PrimitiveKind::Box { half_extents } => {
                let q = p.abs() - half_extents;
                q.max(Vec3::ZERO).length() + q.max_element().min(0.0)
            }
            PrimitiveKind::Cylinder { radius, half_height } => {
                let side = Vec2::new(p.x, p.z).length() - radius;
                let cap = p.y.abs() - half_height;
                Vec2::new(side.max(0.0), cap.max(0.0)).length() + side.max(cap).min(0.0)
            }
            PrimitiveKind::Torus { major, minor } => {
                let tube = Vec2::new(p.x, p.z).length() - major;
                Vec2::new(tube, p.y).length() - minor
            }
        }
    }

    fn half_extents(&self) -> Vec3 {
        match *self {
            PrimitiveKind::Sphere { radius } => Vec3::splat(radius),
            PrimitiveKind::Box { half_extents } => half_extents,
            PrimitiveKind::Cylinder { radius, half_height } => Vec3::new(radius, half_height, radius),
            PrimitiveKind::Torus { major, minor } => Vec3::new(major + minor, minor, major + minor),
        }
    }
}

fn primitive_field(
    grid: &Grid,
    kind: PrimitiveKind,
    center: Vec3,
    workbench_y: Option<f32>,
) -> Option<Field> {
    let bounds = footprint(grid, center, kind.half_extents() + Vec3::splat(voxel_size(grid)))?;
    Some(field(grid, bounds, workbench_y, |p, _, _| Some(kind.sdf(p - center))))
}

/// A profile of a cutter in its own plane.
#[derive(Copy, Clone, Debug)]
enum Outline {
    Circle { radius: f32 },
    WavyCircle { radius: f32, amp: f32, freq: f32 },
    Square { half_side: f32 },
    RoundedSquare { half_side: f32, corner_r: f32 },
    Hexagon { radius: f32 },
    Star5 { outer: f32, inner_ratio: f32 },
}

fn box_sdf(p: Vec2, half: Vec2) -> f32 {
    let d = p.abs() - half;
    d.max(Vec2::ZERO).length() + d.max_element().min(0.0)
}

fn hexagon_sdf(p: Vec2, r: f32) -> f32 {
    let fold = Vec2::new(-0.866_025_4, 0.5);
    let half_edge = 0.577_350_26 * r;
    let mut q = p.abs();
    q -= 2.0 * fold * fold.dot(q).min(0.0);
    q -= Vec2::new(q.x.clamp(-half_edge, half_edge), r);
    q.length() * q.y.signum()
}

fn star5_sdf(mut p: Vec2, r: f32, inner: f32) -> f32 {
    let k1 = Vec2::new(0.809_017, -0.587_785_25);
    let k2 = Vec2::new(-k1.x, k1.y);
    p.x = p.x.abs();
    p -= 2.0 * k1 * k1.dot(p).max(0.0);
    p -= 2.0 * k2 * k2.dot(p).max(0.0);
    p.x = p.x.abs();
    p.y -= r;
    let edge = Vec2::new(-k1.y, k1.x) * (inner * r) - Vec2::new(0.0, r);
    let h = (p.dot(edge) / edge.dot(edge)).clamp(0.0, 1.0);
    (p - edge * h).length() * (p.y * edge.x - p.x * edge.y).signum()
}

impl Outline {
    fn sdf(&self, p: Vec2) -> f32 {
        match *self {
            Outline::Circle { radius } => p.length() - radius,
            Outline::WavyCircle { radius, amp, freq } => {
                p.length() - (radius + amp * (freq * p.y.atan2(p.x)).cos())
            }
            Outline::Square { half_side } => box_sdf(p, Vec2::splat(half_side)),
            Outline::RoundedSquare { half_side, corner_r } => {
                box_sdf(p, Vec2::splat(half_side - corner_r)) - corner_r
            }
            Outline::Hexagon { radius } => hexagon_sdf(p, radius),
            Outline::Star5 { outer, inner_ratio } => star5_sdf(p, outer, inner_ratio),
        }
    }

    fn bounding_radius(&self) -> f32 {
        match *self {
            Outline::Circle { radius } => radius,
            Outline::WavyCircle { radius, amp, .. } => radius + amp.abs(),
            Outline::Square { half_side } | Outline::RoundedSquare { half_side, .. } => {
                half_side * std::f32::consts::SQRT_2
            }
            Outline::Hexagon { radius } => radius * 2.0 / 3.0f32.sqrt(),
            Outline::Star5 { outer, .. } => outer,
        }
    }
}

#[derive(Copy, Clone, Debug)]
struct CookieCutter {
    profile: Outline,
    origin: Vec3,
    axis: Vec3,
    half_length: f32,
    workbench_y: Option<f32>,
}

/// Distance to an outline extruded along an axis.
fn extrude_profile(profile: &Outline, origin: Vec3, axis: Vec3, half_length: f32, p: Vec3) -> f32 {
    let reference = if axis.x.abs() < 0.9 { Vec3::X } else { Vec3::Y };
    let u = reference.cross(axis).normalize();
    let v = axis.cross(u);
    let d = p - origin;
    let across = profile.sdf(Vec2::new(d.dot(u), d.dot(v)));
    let along = d.dot(axis).abs() - half_length;
    Vec2::new(across.max(0.0), along.max(0.0)).length() + across.max(along).min(0.0)
}

fn cutter_field(grid: &Grid, cutter: &CookieCutter) -> Option<Field> {
    let reach = cutter.profile.bounding_radius().hypot(cutter.half_length) + voxel_size(grid);
    let bounds = footprint(grid, cutter.origin, Vec3::splat(reach))?;
    Some(field(grid, bounds, cutter.workbench_y, |p, _, _| {
        Some(extrude_profile(&cutter.profile, cutter.origin, cutter.axis, cutter.half_length, p))
    }))
}

#[derive(Copy, Clone, Debug)]
struct WireCutter {
    anchor: Vec3,
    normal: Vec3,
    thickness: f32,
    workbench_y: Option<f32>,
}

fn wire_field(grid: &Grid, cutter: &WireCutter) -> Field {
    let res = grid.res();
    let mut distances = Vec::new();
    for iz in 0..res.z {
        for iy in 0..res.y {
            for ix in 0..res.x {
                let off = (position(grid, ix, iy, iz) - cutter.anchor).dot(cutter.normal);
                distances.push((off.abs() - cutter.thickness * 0.5).to_bits());
            }
        }
    }
    let floors = cutter.workbench_y.map(|y| floors(grid, 0, res.y, y));
    wire_slab(res, &distances, floors, grid.voxel_size())
}

#[derive(Copy, Clone, Debug)]
struct SmoothBrush {
    center: Vec3,
    radius: f32,
    strength: f32,
    workbench_y: Option<f32>,
}

fn smooth_field(grid: &Grid, brush: &SmoothBrush) -> Option<Field> {
    let bounds = footprint(grid, brush.center, Vec3::splat(brush.radius + voxel_size(grid)))?;
    let strength = brush.strength.clamp(0.0, 1.0);
    Some(field(grid, bounds, brush.workbench_y, |p, old, v| {
        let dist = (p - brush.center).length();
        if dist >= brush.radius {
            return None;
        }
        let around = neighbour_samples(grid, v.x, v.y, v.z);
        if around.is_empty() {
            return None;
        }
        let sum: f32 = around.iter().map(|&s| f32::from_bits(s)).sum();
        let mean = sum / around.len() as f32;
        let radial = 1.0 - dist * (1.0 / brush.radius.max(1e-6));
        let t = radial * radial * strength;
        Some(old * (1.0 - t) + mean * t)
    }))
}

/// How much of a voxel is solid.
fn occupancy(phi: f32, vs: f32) -> f32 {
    let vs = vs.max(1e-6);
    (0.5 - 0.5 * (phi / vs)).clamp(0.0, 1.0)
}

/// Solid volume of a box, in cubic millimetres.
fn solid_volume_in_region(grid: &Grid, min: UVec3, max: UVec3) -> f32 {
    let vs = voxel_size(grid);
    let cell = vs * vs * vs;
    let mut volume = 0.0f32;
    for iz in min.z..max.z {
        for iy in min.y..max.y {
            for ix in min.x..max.x {
                volume += occupancy(value(grid, ix, iy, iz), vs) * cell;
            }
        }
    }
    volume
}

fn soft_max(a: f32, b: f32, k: f32) -> f32 {
    let h = (k - (a - b).abs()).max(0.0) / k.max(1e-6);
    a.max(b) + h * h * k * 0.25
}

fn soft_min(a: f32, b: f32, k: f32) -> f32 {
    -soft_max(-a, -b, k)
}

/// Relax the distances of a region towards a slope of one.
fn relaxed(grid: &Grid, region: DirtyRegion, passes: u32) -> Vec<u32> {
    let (lo, hi) = (region.min, region.max);
    let vs = voxel_size(grid);
    let (nx, ny) = ((hi.x - lo.x) as usize, (hi.y - lo.y) as usize);
    let nz = (hi.z - lo.z) as usize;
    let mut phi = Vec::with_capacity(nx * ny * nz);
    for iz in lo.z..hi.z {
        for iy in lo.y..hi.y {
            for ix in lo.x..hi.x {
                phi.push(value(grid, ix, iy, iz));
            }
        }
    }
    let sign: Vec<f32> = phi.iter().map(|v| v / (v * v + vs * vs).sqrt()).collect();
    for _ in 0..passes {
        let before = phi.clone();
        for z in 1..nz.saturating_sub(1) {
            for y in 1..ny.saturating_sub(1) {
                for x in 1..nx.saturating_sub(1) {
                    let i = x + y * nx + z * nx * ny;
                    let slope = |step: usize| (before[i + step] - before[i - step]) * (0.5 / vs);
                    let grad = Vec3::new(slope(1), slope(nx), slope(nx * ny)).length();
                    phi[i] = before[i] - 0.4 * vs * sign[i] * (grad - 1.0);
                }
            }
        }
    }
    phi.into_iter().map(f32::to_bits).collect()
}

#[derive(Copy, Clone, Debug)]
struct Finger {
    center: Vec3,
    radius: f32,
    direction: Vec3,
    workbench_y: Option<f32>,
}

/// A finger that presses clay in or pulls it out, with the clay made up for around it.
fn finger_stamp(
    grid: &mut Grid,
    tool: DisplaceTool,
    finger: &Finger,
    journal: &mut Vec<VoxelEdit>,
) -> Option<DirtyRegion> {
    let pulls = tool == DisplaceTool::Pull;
    let vs = voxel_size(grid);
    let r = finger.radius.max(1e-3);
    let c = finger.center;
    let rim = r * if pulls { 0.85 } else { 0.75 };
    let stamp = footprint(grid, c, Vec3::splat(r + vs))?;
    let edit = footprint(grid, c, Vec3::splat(r + rim + vs * 2.0))?;
    let measured = if pulls { edit } else { stamp };
    let before = solid_volume_in_region(grid, measured.0, measured.1);
    let first = field(grid, stamp, finger.workbench_y, |p, old, _| {
        let d = (p - c).length() - r;
        Some(if pulls { soft_min(old, d, r * 0.40) } else { soft_max(old, -d, r * 0.40) })
    });
    let stamp_box = DirtyRegion { min: stamp.0, max: stamp.1 };
    let edit_box = DirtyRegion { min: edit.0, max: edit.1 };
    let (mut steps, wrote) = DisplaceStamp::begin(grid, tool, stamp_box, edit_box, &first);
    let after = solid_volume_in_region(grid, measured.0, measured.1);
    let moved = if pulls { after - before } else { before - after }.max(0.0);
    let tiny = moved < vs * vs * vs * 0.25;
    let plan = displace_plan(tool, stamp_box, edit_box, grid.res(), wrote, tiny)?;
    if plan.recruit {
        let band = rim * 1.15 + vs;
        let dir = if finger.direction.length() > 1e-6 {
            finger.direction.normalize()
        } else {
            Vec3::NEG_Y
        };
        let sign = if pulls { 1.0 } else { -1.0 };
        let heap = rim_field(grid, edit, finger.workbench_y, moved * sign, |p, phi| {
            let d = (p - c).length() - r;
            if d <= 0.0 || d >= rim || (pulls && phi > band * 0.5) {
                return 0.0;
            }
            let surface = (1.0 - (phi.abs() / band).min(1.0)).max(0.0);
            if surface <= 1e-4 {
                return 0.0;
            }
            let ring = (1.0 - d / rim) * (1.0 - d / rim);
            let cos = (p - c).normalize_or_zero().dot(dir);
            ring * surface * ((1.0 - cos) * 0.5).clamp(0.05, 1.0)
        });
        if let Some(heap) = heap {
            steps.make_up(grid, &heap);
        }
    }
    let samples = relaxed(grid, plan.region, plan.passes);
    journal.extend(steps.finish(grid, &plan, &samples));
    Some(plan.region)
}

/// Spread a volume over the voxels of a rim, in proportion to their weights.
fn rim_field(
    grid: &Grid,
    edit: (UVec3, UVec3),
    workbench_y: Option<f32>,
    volume: f32,
    weight: impl Fn(Vec3, f32) -> f32,
) -> Option<Field> {
    let vs = voxel_size(grid);
    let mut total = 0.0f32;
    for iz in edit.0.z..edit.1.z {
        for iy in edit.0.y..edit.1.y {
            for ix in edit.0.x..edit.1.x {
                let w = weight(position(grid, ix, iy, iz), value(grid, ix, iy, iz));
                if w > 1e-5 {
                    total += w;
                }
            }
        }
    }
    if total <= 1e-6 {
        return None;
    }
    let scale = (2.0 / (vs * vs).max(1e-8)) * (volume / total);
    Some(field(grid, edit, workbench_y, |p, old, _| {
        let w = weight(p, old);
        if w > 1e-5 {
            Some(old + scale * w)
        } else {
            None
        }
    }))
}

#[derive(Copy, Clone, Debug)]
struct Paddle {
    center: Vec3,
    normal: Vec3,
    radius: f32,
    workbench_y: Option<f32>,
}

/// A flat plate, with the clay squeezed out beside it.
fn paddle_stamp(
    grid: &mut Grid,
    paddle: &Paddle,
    journal: &mut Vec<VoxelEdit>,
) -> Option<DirtyRegion> {
    let vs = voxel_size(grid);
    let r = paddle.radius.max(1e-3);
    let c = paddle.center;
    let rim = r * 0.55;
    let n = if paddle.normal.length() > 1e-6 { paddle.normal.normalize() } else { Vec3::Y };
    let edit = footprint(grid, c, Vec3::splat(r + rim + vs * 2.0))?;
    let before = solid_volume_in_region(grid, edit.0, edit.1);
    let polar = |p: Vec3| {
        let axial = (p - c).dot(n);
        (axial, ((p - c) - n * axial).length())
    };
    let plate = field(grid, edit, paddle.workbench_y, |p, _, _| {
        let (axial, radial) = polar(p);
        if radial >= r {
            None
        } else {
            Some(axial.min(r - radial))
        }
    });
    let region = DirtyRegion { min: edit.0, max: edit.1 };
    let tool = DisplaceTool::Paddle;
    let (mut steps, wrote) = DisplaceStamp::begin(grid, tool, region, region, &plate);
    let lost = (before - solid_volume_in_region(grid, edit.0, edit.1)).max(0.0);
    let tiny = lost < vs * vs * vs * 0.25;
    let plan = displace_plan(tool, region, region, grid.res(), wrote, tiny)?;
    if plan.recruit {
        let band = rim * 1.2 + vs;
        let heap = rim_field(grid, edit, paddle.workbench_y, -lost, |p, phi| {
            let (axial, radial) = polar(p);
            if radial < r || radial >= r + rim || axial > band {
                return 0.0;
            }
            let surface = (1.0 - (phi.abs() / band).min(1.0)).max(0.0);
            if surface <= 1e-4 {
                return 0.0;
            }
            let out = 1.0 - (radial - r) / rim;
            out * out * surface * (1.0 - (axial.abs() / band).min(1.0)).max(0.15)
        });
        if let Some(heap) = heap {
            steps.make_up(grid, &heap);
        }
    }
    let samples = relaxed(grid, plan.region, plan.passes);
    journal.extend(steps.finish(grid, &plan, &samples));
    Some(plan.region)
}

fn put(grid: &mut Grid, ix: u32, iy: u32, iz: u32, v: f32) {
    grid.set(ix, iy, iz, v.to_bits());
}

fn cut_cookie(grid: &mut Grid, cutter: &CookieCutter) -> Option<DirtyRegion> {
    let field = cutter_field(grid, cutter)?;
    apply_cookie_cutter(grid, &field)
}

fn cut_wire(grid: &mut Grid, cutter: &WireCutter) -> Option<DirtyRegion> {
    let slab = wire_field(grid, cutter);
    apply_wire_cutter(grid, &slab)
}

fn press(grid: &mut Grid, finger: &Finger) -> Option<DirtyRegion> {
    finger_stamp(grid, DisplaceTool::Press, finger, &mut Vec::new())
}

fn pull(grid: &mut Grid, finger: &Finger) -> Option<DirtyRegion> {
    finger_stamp(grid, DisplaceTool::Pull, finger, &mut Vec::new())
}

fn smooth(grid: &mut Grid, brush: &SmoothBrush) -> Option<DirtyRegion> {
    let field = smooth_field(grid, brush)?;
    apply_smooth_brush(grid, &field)
}

struct Primitive {
    kind: PrimitiveKind,
    center: Vec3,
    workbench_y: Option<f32>,
}

fn insert(grid: &mut Grid, prim: &Primitive) -> Option<DirtyRegion> {
    let field = primitive_field(grid, prim.kind, prim.center, prim.workbench_y)?;
    apply_primitive(grid, &field)
}

fn approx_eq(a: f32, b: f32, tol: f32) -> bool {
    (a - b).abs() < tol
}

#[test]
fn sphere_grid_is_zero_at_surface() {
    let res = UVec3::new(32, 32, 32);
    let g = sphere_grid(res, 1.0, Vec3::ZERO, Vec3::new(16.0, 16.0, 16.0), 8.0);
    let p_surface = Vec3::new(24.0, 16.0, 16.0);
    assert!(approx_eq(sample(&g, p_surface), 0.0, 0.05));
}

#[test]
fn sphere_grid_is_negative_inside_positive_outside() {
    let res = UVec3::new(32, 32, 32);
    let g = sphere_grid(res, 1.0, Vec3::ZERO, Vec3::new(16.0, 16.0, 16.0), 8.0);
    assert!(sample(&g, Vec3::new(16.0, 16.0, 16.0)) < 0.0);
    assert!(sample(&g, Vec3::new(30.0, 16.0, 16.0)) > 0.0);
}

#[test]
fn ray_march_hits_sphere() {
    let res = UVec3::new(64, 64, 64);
    let g = sphere_grid(res, 1.0, Vec3::ZERO, Vec3::new(32.0, 32.0, 32.0), 10.0);
    let hit = ray_march(&g, Vec3::new(-10.0, 32.0, 32.0), Vec3::X, 200.0)
        .expect("ray should hit the sphere");
    assert!(
        (hit.x - 22.0).abs() < 1.5,
        "unexpected hit x = {}",
        hit.x
    );
    assert!(hit.y > 30.0 && hit.y < 34.0);
    assert!(hit.z > 30.0 && hit.z < 34.0);
}

#[test]
fn ray_march_misses_when_no_intersection() {
    let res = UVec3::new(64, 64, 64);
    let g = sphere_grid(res, 1.0, Vec3::ZERO, Vec3::new(32.0, 32.0, 32.0), 5.0);
    let hit = ray_march(&g, Vec3::new(-10.0, 60.0, 32.0), Vec3::X, 200.0);
    assert!(hit.is_none());
}

fn plain_press_brush(center: Vec3, radius: f32) -> SphereBrush {
    SphereBrush {
        center,
        radius,
        mode: BrushMode::Press,
        direction: Vec3::new(-1.0, 0.0, 0.0),
        displace: false,
        workbench_y: None,
    }
}

fn plain_pull_brush(center: Vec3, radius: f32) -> SphereBrush {
    SphereBrush {
        center,
        radius,
        mode: BrushMode::Pull,
        direction: Vec3::new(-1.0, 0.0, 0.0),
        displace: false,
        workbench_y: None,
    }
}

#[test]
fn press_removes_material_inside_brush() {
    let g_res = UVec3::new(32, 32, 32);
    let mut g = sphere_grid(g_res, 1.0, Vec3::ZERO, Vec3::new(16.0, 16.0, 16.0), 8.0);
    assert!(sample(&g, Vec3::new(16.0, 16.0, 16.0)) < 0.0);
    let dirty = sphere_brush(&mut g, &plain_press_brush(Vec3::new(16.0, 16.0, 16.0), 20.0));
    assert!(dirty.is_some());
    assert!(sample(&g, Vec3::new(16.0, 16.0, 16.0)) > 15.0);
}

#[test]
fn pull_adds_material_outside_brush() {
    let g_res = UVec3::new(32, 32, 32);
    let mut g = sphere_grid(g_res, 1.0, Vec3::ZERO, Vec3::new(8.0, 16.0, 16.0), 4.0);
    assert!(sample(&g, Vec3::new(20.0, 16.0, 16.0)) > 0.0);
    let _ = sphere_brush(&mut g, &plain_pull_brush(Vec3::new(20.0, 16.0, 16.0), 4.0));
    assert!(sample(&g, Vec3::new(20.0, 16.0, 16.0)) < 0.0);
}

#[test]
fn press_outside_workpiece_is_a_noop_on_the_surface() {
    let g_res = UVec3::new(32, 32, 32);
    let mut g = sphere_grid(g_res, 1.0, Vec3::ZERO, Vec3::new(8.0, 16.0, 16.0), 4.0);
    let before = sample(&g, Vec3::new(8.0, 16.0, 16.0));
    let _ = sphere_brush(&mut g, &plain_press_brush(Vec3::new(28.0, 28.0, 28.0), 2.0));
    let after = sample(&g, Vec3::new(8.0, 16.0, 16.0));
    assert!((before - after).abs() < 1e-4);
}

#[test]
fn press_with_displacement_bulges_surface_sideways() {
    let g_res = UVec3::new(64, 64, 64);
    let mut g = sphere_grid(g_res, 1.0, Vec3::ZERO, Vec3::new(32.0, 32.0, 32.0), 20.0);
    let probe = Vec3::new(52.0, 38.0, 32.0);
    let before = sample(&g, probe);
    assert!(
        before > 0.0 && before < 2.0,
        "probe should sit just outside the workpiece surface: before={before}",
    );

    let brush = SphereBrush {
        center: Vec3::new(52.0, 32.0, 32.0),
        radius: 5.0,
        mode: BrushMode::Press,
        direction: Vec3::new(-1.0, 0.0, 0.0),
        displace: true,
        workbench_y: None,
    };
    for _ in 0..40 {
        let _ = sphere_brush(&mut g, &brush);
    }
    let after = sample(&g, probe);
    assert!(
        after < before - 0.5,
        "displacement should bulge the surface toward the probe: before={before}, after={after}",
    );
}

#[test]
fn press_without_displacement_matches_stage0_behaviour() {
    let g_res = UVec3::new(64, 64, 64);
    let mut g = sphere_grid(g_res, 1.0, Vec3::ZERO, Vec3::new(32.0, 32.0, 32.0), 20.0);
    let probe = Vec3::new(52.0, 38.0, 32.0);
    let before = sample(&g, probe);

    let brush = SphereBrush {
        center: Vec3::new(52.0, 32.0, 32.0),
        radius: 5.0,
        mode: BrushMode::Press,
        direction: Vec3::new(-1.0, 0.0, 0.0),
        displace: false,
        workbench_y: None,
    };
    for _ in 0..40 {
        let _ = sphere_brush(&mut g, &brush);
    }
    let after = sample(&g, probe);
    assert!(
        (after - before).abs() < 1e-4,
        "no-displace mode should leave outside-ring voxels alone: before={before}, after={after}",
    );
}

#[test]
fn workbench_clip_prevents_material_below_plane() {
    let g_res = UVec3::new(32, 32, 32);
    let mut g = sphere_grid(g_res, 1.0, Vec3::ZERO, Vec3::new(16.0, 20.0, 16.0), 6.0);
    let brush = SphereBrush {
        center: Vec3::new(16.0, 6.0, 16.0),
        radius: 10.0,
        mode: BrushMode::Pull,
        direction: Vec3::new(0.0, -1.0, 0.0),
        displace: false,
        workbench_y: Some(8.0),
    };
    let _ = sphere_brush(&mut g, &brush);
    let below = sample(&g, Vec3::new(16.0, 3.0, 16.0));
    assert!(
        below > 0.0,
        "voxel below workbench should be outside the workpiece, got SDF={below}"
    );
    let above = sample(&g, Vec3::new(16.0, 10.0, 16.0));
    assert!(
        above < 0.0,
        "voxel above workbench should be inside the workpiece, got SDF={above}"
    );
}

#[test]
fn circle_cutter_removes_a_cylindrical_channel() {
    let g_res = UVec3::new(64, 64, 64);
    let mut g = sphere_grid(g_res, 1.0, Vec3::ZERO, Vec3::new(32.0, 32.0, 32.0), 20.0);
    let cutter = CookieCutter {
        profile: Outline::Circle { radius: 4.0 },
        origin: Vec3::new(32.0, 32.0, 32.0),
        axis: Vec3::Y,
        half_length: 50.0,
        workbench_y: None,
    };
    let region = cut_cookie(&mut g, &cutter);
    assert!(region.is_some());
    assert!(sample(&g, Vec3::new(32.0, 32.0, 32.0)) > 0.0);
    assert!(sample(&g, Vec3::new(38.0, 32.0, 32.0)) < 0.0);
    assert!(sample(&g, Vec3::new(32.0, 55.0, 32.0)) > 0.0);
}

#[test]
fn square_cutter_removes_a_square_channel() {
    let g_res = UVec3::new(64, 64, 64);
    let mut g = sphere_grid(g_res, 1.0, Vec3::ZERO, Vec3::new(32.0, 32.0, 32.0), 20.0);

    let cutter = CookieCutter {
        profile: Outline::Square { half_side: 3.0 },
        origin: Vec3::new(32.0, 32.0, 32.0),
        axis: Vec3::Y,
        half_length: 50.0,
        workbench_y: None,
    };
    let _ = cut_cookie(&mut g, &cutter);
    assert!(sample(&g, Vec3::new(32.0, 32.0, 32.0)) > 0.0);
    assert!(sample(&g, Vec3::new(37.0, 32.0, 32.0)) < 0.0);
}

#[test]
fn wire_cutter_splits_a_sphere_into_two_disconnected_regions() {
    let g_res = UVec3::new(64, 64, 64);
    let mut g = sphere_grid(g_res, 1.0, Vec3::ZERO, Vec3::new(32.0, 32.0, 32.0), 15.0);
    let cutter = WireCutter {
        anchor: Vec3::new(32.0, 32.0, 32.0),
        normal: Vec3::new(1.0, 0.0, 0.0),
        thickness: 2.0,
        workbench_y: None,
    };
    let region = cut_wire(&mut g, &cutter);
    assert!(region.is_some());
    assert!(sample(&g, Vec3::new(32.0, 32.0, 32.0)) > 0.0);
    assert!(sample(&g, Vec3::new(25.0, 32.0, 32.0)) < 0.0);
    assert!(sample(&g, Vec3::new(39.0, 32.0, 32.0)) < 0.0);
}

#[test]
fn wire_cutter_workbench_clip_is_respected() {
    let g_res = UVec3::new(32, 32, 32);
    let mut g = sphere_grid(g_res, 1.0, Vec3::ZERO, Vec3::new(16.0, 20.0, 16.0), 6.0);
    let cutter = WireCutter {
        anchor: Vec3::new(16.0, 6.0, 16.0),
        normal: Vec3::new(0.0, 1.0, 0.0),
        thickness: 6.0,
        workbench_y: Some(8.0),
    };
    let _ = cut_wire(&mut g, &cutter);
    let below = sample(&g, Vec3::new(16.0, 3.0, 16.0));
    assert!(below > 0.0, "voxel below workbench should be outside, got {below}");
}

#[test]
fn cutter_workbench_clip_is_respected() {
    let g_res = UVec3::new(32, 32, 32);
    let mut g = sphere_grid(g_res, 1.0, Vec3::ZERO, Vec3::new(16.0, 16.0, 16.0), 6.0);
    let cutter = CookieCutter {
        profile: Outline::Circle { radius: 4.0 },
        origin: Vec3::new(16.0, 8.0, 16.0),
        axis: Vec3::Y,
        half_length: 20.0,
        workbench_y: Some(8.0),
    };
    let _ = cut_cookie(&mut g, &cutter);
    let below = sample(&g, Vec3::new(16.0, 4.0, 16.0));
    assert!(
        below > 0.0,
        "voxel below workbench should not become material, got {below}"
    );
}

fn ball18() -> Grid {
    sphere_grid(
        UVec3::new(64, 64, 64),
        1.0,
        Vec3::ZERO,
        Vec3::new(32.0, 32.0, 32.0),
        18.0,
    )
}

#[test]
fn press_depresses_contact_point() {
    let mut g = ball18();
    let hit = Vec3::new(50.0, 32.0, 32.0);
    let into = Vec3::NEG_X;
    let radius = 6.0;
    let advance = 1.5;
    let center = hit - into * (radius - advance);
    let before = sample(&g, hit);
    let _ = press(
        &mut g,
        &Finger {
            center,
            radius,
            direction: into,
            workbench_y: None,
        },
    );
    let after = sample(&g, hit);
    assert!(
        after > before,
        "press should push the surface inward (φ↑): before={before}, after={after}"
    );
}

#[test]
fn press_roughly_conserves_volume() {
    let mut g = ball18();
    let res = g.res();
    let full_min = UVec3::splat(0);
    let full_max = res;
    let v0 = solid_volume_in_region(&g, full_min, full_max);

    let hit = Vec3::new(50.0, 32.0, 32.0);
    let into = Vec3::NEG_X;
    let radius = 6.0;
    let center = hit - into * (radius - 1.5);
    let _ = press(
        &mut g,
        &Finger {
            center,
            radius,
            direction: into,
            workbench_y: None,
        },
    );
    let v1 = solid_volume_in_region(&g, full_min, full_max);
    let rel = ((v1 - v0) / v0).abs();
    assert!(
        rel < 0.04,
        "volume should stay within ~4%: v0={v0}, v1={v1}, rel={rel}"
    );
}

#[test]
fn press_builds_a_side_rim() {
    let mut g = ball18();
    let hit = Vec3::new(50.0, 32.0, 32.0);
    let into = Vec3::NEG_X;
    let radius = 6.0;
    let center = hit - into * (radius - 1.5);
    let probe = Vec3::new(50.0, 38.5, 32.0);
    let before = sample(&g, probe);
    let _ = press(
        &mut g,
        &Finger {
            center,
            radius,
            direction: into,
            workbench_y: None,
        },
    );
    let after = sample(&g, probe);
    assert!(
        after < before - 0.05,
        "rim should gain material (φ↓): before={before}, after={after}"
    );
}

#[test]
fn plain_csg_remove_does_not_conserve_like_press() {
    let mut g = ball18();
    let res = g.res();
    let v0 = solid_volume_in_region(&g, UVec3::splat(0), res);
    let _ = sphere_brush(
        &mut g,
        &SphereBrush {
            center: Vec3::new(50.0, 32.0, 32.0),
            radius: 6.0,
            mode: BrushMode::Press,
            direction: Vec3::NEG_X,
            displace: false,
            workbench_y: None,
        },
    );
    let v1 = solid_volume_in_region(&g, UVec3::splat(0), res);
    assert!(
        v1 < v0 - 200.0,
        "hard CSG remove should clearly lose volume: v0={v0}, v1={v1}"
    );
}

#[test]
fn pull_grows_contact_point() {
    let mut g = ball18();
    let hit = Vec3::new(50.0, 32.0, 32.0);
    let into = Vec3::NEG_X;
    let radius = 6.0;
    let center = hit - into * (radius - 1.5);
    let before = sample(&g, hit);
    let _ = pull(
        &mut g,
        &Finger {
            center,
            radius,
            direction: into,
            workbench_y: None,
        },
    );
    let after = sample(&g, hit);
    assert!(
        after < before,
        "pull should grow the surface outward (φ↓): before={before}, after={after}"
    );
}

#[test]
fn pull_roughly_conserves_volume() {
    let mut g = ball18();
    let v0 = solid_volume_in_region(&g, UVec3::splat(0), g.res());
    let hit = Vec3::new(50.0, 32.0, 32.0);
    let into = Vec3::NEG_X;
    let radius = 6.0;
    let center = hit - into * (radius - 1.5);
    let _ = pull(
        &mut g,
        &Finger {
            center,
            radius,
            direction: into,
            workbench_y: None,
        },
    );
    let v1 = solid_volume_in_region(&g, UVec3::splat(0), g.res());
    let rel = ((v1 - v0) / v0).abs();
    assert!(
        rel < 0.05,
        "volume should stay within ~5%: v0={v0}, v1={v1}, rel={rel}"
    );
}

#[test]
fn pull_thins_the_side_rim() {
    let mut g = ball18();
    let hit = Vec3::new(50.0, 32.0, 32.0);
    let into = Vec3::NEG_X;
    let radius = 6.0;
    let center = hit - into * (radius - 1.5);
    let probe = Vec3::new(49.0, 38.0, 32.0);
    let before = sample(&g, probe);
    let _ = pull(
        &mut g,
        &Finger {
            center,
            radius,
            direction: into,
            workbench_y: None,
        },
    );
    let after = sample(&g, probe);
    assert!(
        after > before + 0.05,
        "rim should thin (φ↑): before={before}, after={after}"
    );
}

fn ball20() -> Grid {
    sphere_grid(
        UVec3::new(64, 64, 64),
        1.0,
        Vec3::ZERO,
        Vec3::new(32.0, 32.0, 32.0),
        20.0,
    )
}

#[test]
fn paddle_flattens_a_bump() {
    let mut g = ball20();
    let top_of_ball = sample(&g, Vec3::new(32.0, 52.0, 32.0));
    assert!(top_of_ball.abs() < 1.0, "top of ball should be on surface");
    assert!(sample(&g, Vec3::new(32.0, 48.0, 32.0)) < 0.0);

    let paddle = Paddle {
        center: Vec3::new(32.0, 45.0, 32.0),
        normal: Vec3::new(0.0, 1.0, 0.0),
        radius: 15.0,
        workbench_y: None,
    };
    let _ = paddle_stamp(&mut g, &paddle, &mut Vec::new());

    assert!(sample(&g, Vec3::new(32.0, 48.0, 32.0)) > 0.0);
    assert!(sample(&g, Vec3::new(32.0, 40.0, 32.0)) < 0.0);
}

#[test]
fn paddle_leaves_material_outside_the_disk() {
    let mut g = ball20();
    let before = sample(&g, Vec3::new(45.0, 45.0, 32.0));
    let paddle = Paddle {
        center: Vec3::new(32.0, 45.0, 32.0),
        normal: Vec3::new(0.0, 1.0, 0.0),
        radius: 5.0,
        workbench_y: None,
    };
    let _ = paddle_stamp(&mut g, &paddle, &mut Vec::new());
    let after = sample(&g, Vec3::new(45.0, 45.0, 32.0));
    assert!(
        (before - after).abs() < 1e-3,
        "outside the disk should be untouched: before={before}, after={after}",
    );
}

#[test]
fn paddle_roughly_conserves_volume() {
    let mut g = ball20();
    let v0 = solid_volume_in_region(&g, UVec3::splat(0), g.res());
    let paddle = Paddle {
        center: Vec3::new(32.0, 46.0, 32.0),
        normal: Vec3::Y,
        radius: 10.0,
        workbench_y: None,
    };
    let _ = paddle_stamp(&mut g, &paddle, &mut Vec::new());
    let v1 = solid_volume_in_region(&g, UVec3::splat(0), g.res());
    let rel = ((v1 - v0) / v0).abs();
    assert!(
        rel < 0.05,
        "paddle displace should keep volume within ~5%: v0={v0}, v1={v1}, rel={rel}"
    );
}

#[test]
fn paddle_builds_a_rim_outside_the_disk() {
    let mut g = ball20();
    let paddle = Paddle {
        center: Vec3::new(32.0, 46.0, 32.0),
        normal: Vec3::Y,
        radius: 8.0,
        workbench_y: None,
    };
    let probe = Vec3::new(32.0 + 9.5, 45.5, 32.0);
    let before = sample(&g, probe);
    let _ = paddle_stamp(&mut g, &paddle, &mut Vec::new());
    let after = sample(&g, probe);
    assert!(
        after < before - 0.05,
        "rim outside disk should gain material (φ↓): before={before}, after={after}"
    );
}

#[test]
fn smooth_reduces_a_bump() {
    let mut g = empty_grid(UVec3::new(16, 16, 16), 1.0, Vec3::ZERO);
    for iz in 0..16 {
        for iy in 0..16 {
            for ix in 0..16 {
                put(&mut g, ix, iy, iz, -1.0);
            }
        }
    }
    put(&mut g, 8, 8, 8, -10.0);

    let brush = SmoothBrush {
        center: Vec3::new(8.0, 8.0, 8.0),
        radius: 4.0,
        strength: 1.0,
        workbench_y: None,
    };
    let before = value(&g, 8, 8, 8);
    let _ = smooth(&mut g, &brush);
    let after = value(&g, 8, 8, 8);
    assert!(
        after > before,
        "smoothed voxel should move toward the (less negative) neighbour average: before={before}, after={after}",
    );
}

#[test]
fn smooth_leaves_uniform_field_unchanged() {
    let mut g = empty_grid(UVec3::new(16, 16, 16), 1.0, Vec3::ZERO);
    for iz in 0..16 {
        for iy in 0..16 {
            for ix in 0..16 {
                put(&mut g, ix, iy, iz, -1.0);
            }
        }
    }
    let brush = SmoothBrush {
        center: Vec3::new(8.0, 8.0, 8.0),
        radius: 4.0,
        strength: 1.0,
        workbench_y: None,
    };
    let _ = smooth(&mut g, &brush);
    for iz in 0..16 {
        for iy in 0..16 {
            for ix in 0..16 {
                let v = value(&g, ix, iy, iz);
                assert!(
                    (v + 1.0).abs() < 1e-3,
                    "constant field disturbed at ({ix},{iy},{iz}): {v}",
                );
            }
        }
    }
}

#[test]
fn smooth_falloff_is_radial() {
    let mut g = empty_grid(UVec3::new(32, 32, 32), 1.0, Vec3::ZERO);
    for iz in 0..32 {
        for iy in 0..32 {
            for ix in 0..32 {
                put(&mut g, ix, iy, iz, -1.0);
            }
        }
    }
    put(&mut g, 16, 16, 16, -10.0);
    put(&mut g, 20, 16, 16, -10.0);

    let brush = SmoothBrush {
        center: Vec3::new(16.0, 16.0, 16.0),
        radius: 5.0,
        strength: 1.0,
        workbench_y: None,
    };
    let _ = smooth(&mut g, &brush);
    let near = value(&g, 16, 16, 16);
    let far = value(&g, 20, 16, 16);
    assert!(
        (near + 1.0).abs() < (far + 1.0).abs(),
        "closer voxel should smooth more: near={near}, far={far}",
    );
}

fn blank() -> Grid {
    empty_grid(UVec3::new(64, 64, 64), 1.0, Vec3::ZERO)
}

#[test]
fn sphere_inserted_into_empty_grid_leaves_interior_negative() {
    let mut g = blank();
    let prim = Primitive {
        kind: PrimitiveKind::Sphere { radius: 10.0 },
        center: Vec3::new(32.0, 32.0, 32.0),
        workbench_y: None,
    };
    let region = insert(&mut g, &prim);
    assert!(region.is_some());
    assert!(sample(&g, Vec3::new(32.0, 32.0, 32.0)) < 0.0);
    assert!(sample(&g, Vec3::new(60.0, 32.0, 32.0)) > 0.0);
}

#[test]
fn primitive_union_preserves_pre_existing_material() {
    let mut g = sphere_grid(
        UVec3::new(64, 64, 64),
        1.0,
        Vec3::ZERO,
        Vec3::new(16.0, 32.0, 32.0),
        6.0,
    );
    assert!(sample(&g, Vec3::new(16.0, 32.0, 32.0)) < 0.0);
    let prim = Primitive {
        kind: PrimitiveKind::Sphere { radius: 6.0 },
        center: Vec3::new(48.0, 32.0, 32.0),
        workbench_y: None,
    };
    let _ = insert(&mut g, &prim);
    assert!(sample(&g, Vec3::new(16.0, 32.0, 32.0)) < 0.0);
    assert!(sample(&g, Vec3::new(48.0, 32.0, 32.0)) < 0.0);
}

#[test]
fn box_edges_and_corners_are_solid() {
    let mut g = blank();
    let prim = Primitive {
        kind: PrimitiveKind::Box {
            half_extents: Vec3::new(8.0, 8.0, 8.0),
        },
        center: Vec3::new(32.0, 32.0, 32.0),
        workbench_y: None,
    };
    let _ = insert(&mut g, &prim);
    assert!(sample(&g, Vec3::new(32.0, 32.0, 32.0)) < -7.0);
    assert!(sample(&g, Vec3::new(39.5, 32.0, 32.0)) < 0.0);
    assert!(sample(&g, Vec3::new(41.0, 41.0, 41.0)) > 0.0);
}

#[test]
fn cylinder_is_axial_along_y() {
    let mut g = blank();
    let prim = Primitive {
        kind: PrimitiveKind::Cylinder {
            radius: 6.0,
            half_height: 12.0,
        },
        center: Vec3::new(32.0, 32.0, 32.0),
        workbench_y: None,
    };
    let _ = insert(&mut g, &prim);
    assert!(sample(&g, Vec3::new(32.0, 40.0, 32.0)) < 0.0);
    assert!(sample(&g, Vec3::new(32.0, 50.0, 32.0)) > 0.0);
    assert!(sample(&g, Vec3::new(36.0, 32.0, 32.0)) < 0.0);
    assert!(sample(&g, Vec3::new(42.0, 32.0, 32.0)) > 0.0);
}

#[test]
fn torus_hole_stays_empty() {
    let mut g = blank();
    let prim = Primitive {
        kind: PrimitiveKind::Torus {
            major: 10.0,
            minor: 3.0,
        },
        center: Vec3::new(32.0, 32.0, 32.0),
        workbench_y: None,
    };
    let _ = insert(&mut g, &prim);
    assert!(sample(&g, Vec3::new(42.0, 32.0, 32.0)) < 0.0);
    assert!(sample(&g, Vec3::new(32.0, 32.0, 32.0)) > 0.0);
}

#[test]
fn workbench_clip_prevents_material_below_the_plane() {
    let mut g = blank();
    let prim = Primitive {
        kind: PrimitiveKind::Sphere { radius: 6.0 },
        center: Vec3::new(32.0, 32.0, 32.0),
        workbench_y: Some(32.0),
    };
    let _ = insert(&mut g, &prim);
    assert!(sample(&g, Vec3::new(32.0, 28.0, 32.0)) > 0.0);
    assert!(sample(&g, Vec3::new(32.0, 36.0, 32.0)) < 0.0);
}

fn dense(grid: &Grid) -> Vec<u32> {
    grid.to_dense()
}

fn box_of(lo: (u32, u32, u32), hi: (u32, u32, u32), values: Vec<Option<f32>>, floors: Option<Vec<f32>>) -> Field {
    Field {
        lo: UVec3::new(lo.0, lo.1, lo.2),
        hi: UVec3::new(hi.0, hi.1, hi.2),
        values: values.into_iter().map(|v| v.map(f32::to_bits)).collect(),
        floors: floors.map(|f| f.into_iter().map(f32::to_bits).collect()),
    }
}

fn four() -> Grid {
    let mut g = empty_grid(UVec3::new(2, 2, 1), 1.0, Vec3::ZERO);
    for (i, v) in [-1.0, 2.0, 0.5, -0.5].into_iter().enumerate() {
        put(&mut g, i as u32 % 2, i as u32 / 2, 0, v);
    }
    g
}

fn values(g: &Grid) -> Vec<f32> {
    dense(g).into_iter().map(f32::from_bits).collect()
}

#[test]
fn subtracting_keeps_the_larger_of_sample_and_negated_distance() {
    let mut g = four();
    let f = box_of((0, 0, 0), (2, 2, 1), vec![Some(-3.0), Some(-1.0), None, Some(4.0)], None);
    let mut journal = Vec::new();
    let dirty = apply_field(&mut g, &f, Combine::Subtract, Change::Number, &mut journal);
    assert_eq!(values(&g), vec![3.0, 2.0, 0.5, -0.5]);
    assert_eq!(journal.len(), 1);
    assert_eq!((journal[0].x, journal[0].y, journal[0].z), (0, 0, 0));
    assert_eq!(f32::from_bits(journal[0].pre), -1.0);
    let dirty = dirty.unwrap();
    assert_eq!((dirty.min, dirty.max), (UVec3::new(0, 0, 0), UVec3::new(1, 1, 1)));
}

#[test]
fn uniting_keeps_the_smaller_and_the_bench_is_a_floor() {
    let mut g = four();
    let offers = vec![Some(-3.0), Some(-1.0), Some(-2.0), Some(4.0)];
    let f = box_of((0, 0, 0), (2, 2, 1), offers, Some(vec![0.25, -5.0]));
    let mut journal = Vec::new();
    apply_field(&mut g, &f, Combine::Unite, Change::Number, &mut journal);
    assert_eq!(values(&g), vec![0.25, 0.25, -2.0, -0.5]);
    assert_eq!(journal.len(), 3);
}

#[test]
fn raising_and_replacing_write_only_what_differs_enough() {
    let mut g = four();
    let near = -1.0 + 1.0e-7;
    let f = box_of((0, 0, 0), (2, 1, 1), vec![Some(near), Some(5.0)], None);
    apply_field(&mut g, &f, Combine::Raise, Change::Moved, &mut Vec::new());
    assert_eq!(values(&g), vec![-1.0, 5.0, 0.5, -0.5]);
    apply_field(&mut g, &f, Combine::Replace, Change::Bits, &mut Vec::new());
    assert_eq!(values(&g), vec![near, 5.0, 0.5, -0.5]);
}

#[test]
fn a_stamp_leaves_what_it_does_not_reach() {
    let mut g = four();
    let before = dense(&g);
    let f = box_of((1, 1, 0), (2, 2, 1), vec![None], None);
    let mut journal = Vec::new();
    assert!(apply_field(&mut g, &f, Combine::Replace, Change::Bits, &mut journal).is_none());
    assert_eq!(dense(&g), before);
    assert!(journal.is_empty());
}

#[test]
fn footprints_are_clipped_to_the_domain() {
    let res = UVec3::new(10, 10, 10);
    let b = clamp_aabb(UVec3::new(0, 8, 20), IVec3::new(3, 40, 11), res);
    assert_eq!(b, Some((UVec3::new(0, 8, 9), UVec3::new(3, 10, 10))));
    assert_eq!(clamp_aabb(UVec3::new(0, 0, 0), IVec3::new(-1, 5, 5), res), None);
    let (lo, hi) = expand_region(res, UVec3::new(1, 4, 8), UVec3::new(2, 5, 9), 2);
    assert_eq!((lo, hi), (UVec3::new(0, 2, 6), UVec3::new(4, 7, 10)));
}

#[test]
fn smoothing_leaves_out_neighbours_that_do_not_exist() {
    let g = four();
    let around = neighbour_samples(&g, 0, 0, 0);
    let around: Vec<f32> = around.into_iter().map(f32::from_bits).collect();
    assert_eq!(around, vec![2.0, 0.5]);
}

#[test]
fn a_displacing_stamp_is_planned_by_tool_and_volume() {
    let res = UVec3::new(32, 32, 32);
    let stamp = DirtyRegion { min: UVec3::splat(10), max: UVec3::splat(12) };
    let edit = DirtyRegion { min: UVec3::splat(1), max: UVec3::splat(31) };
    let small = displace_plan(DisplaceTool::Press, stamp, edit, res, true, true).unwrap();
    assert!(!small.recruit);
    assert_eq!(small.passes, 2);
    assert_eq!(small.region.min, UVec3::splat(9));
    assert_eq!(small.region.max, UVec3::splat(13));
    let large = displace_plan(DisplaceTool::Pull, stamp, edit, res, true, false).unwrap();
    assert!(large.recruit);
    assert_eq!(large.passes, 4);
    assert_eq!(large.region.min, UVec3::splat(0));
    assert_eq!(large.region.max, UVec3::splat(32));
    assert!(displace_plan(DisplaceTool::Paddle, stamp, edit, res, false, true).is_none());
    let flat = displace_plan(DisplaceTool::Paddle, stamp, edit, res, true, true).unwrap();
    assert!(!flat.recruit);
    assert_eq!(flat.passes, 4);
}

#[test]
fn relaxing_writes_the_interior_and_spares_the_border() {
    let mut g = empty_grid(UVec3::new(3, 3, 3), 1.0, Vec3::ZERO);
    let samples: Vec<u32> = (0..27).map(|i| (i as f32).to_bits()).collect();
    let mut journal = Vec::new();
    apply_relaxed(&mut g, UVec3::splat(0), UVec3::splat(3), &samples, &mut journal);
    assert_eq!(value(&g, 1, 1, 1), 13.0);
    assert_eq!(g.get(0, 1, 1), FAR);
    assert_eq!(journal.len(), 1);
    // A sample that would make clay of air is left out.
    let inverted: Vec<u32> = samples.iter().map(|&s| (-f32::from_bits(s)).to_bits()).collect();
    apply_relaxed(&mut g, UVec3::splat(0), UVec3::splat(3), &inverted, &mut journal);
    assert_eq!(value(&g, 1, 1, 1), 13.0);
    assert_eq!(journal.len(), 1);
}

#[test]
fn every_write_of_a_displacing_stamp_can_be_taken_back() {
    let mut g = ball18();
    let before = dense(&g);
    let mut journal = Vec::new();
    let finger = Finger {
        center: Vec3::new(54.5, 32.0, 32.0),
        radius: 6.0,
        direction: Vec3::NEG_X,
        workbench_y: None,
    };
    assert!(finger_stamp(&mut g, DisplaceTool::Press, &finger, &mut journal).is_some());
    assert!(dense(&g) != before);
    for e in journal.iter().rev() {
        g.set(e.x, e.y, e.z, e.pre);
    }
    assert_eq!(dense(&g), before);
}

#[test]
fn samples_are_compared_as_the_numbers_they_stand_for() {
    let b = f32::to_bits;
    assert!(less(b(-1.0), b(2.0)));
    assert!(less(b(-2.0), b(-1.0)));
    assert!(!less(b(0.0), b(-0.0)) && !less(b(-0.0), b(0.0)));
    assert!(same_number(b(0.0), b(-0.0)));
    assert!(!same_number(b(f32::NAN), b(f32::NAN)));
    assert!(is_solid(b(-1.0e-30)) && !is_solid(b(-0.0)) && !is_solid(b(f32::NAN)));
    assert_eq!(smaller(b(3.0), b(-4.0)), b(-4.0));
    assert_eq!(larger(b(3.0), b(-4.0)), b(3.0));
    assert_eq!(larger(b(f32::NAN), b(-4.0)), b(-4.0));
    assert_eq!(negate(b(1.5)), b(-1.5));
    assert_eq!(double(b(1.5)), b(3.0));
    assert_eq!(double(b(f32::MAX)), b(f32::INFINITY));
    assert_eq!(double(1), 2);
    assert!(finite(FAR) && !finite(b(f32::INFINITY)) && !finite(b(f32::NAN)));
    assert_eq!(f32::from_bits(FAR), f32::MAX / 4.0);
    assert_eq!(f32::from_bits(cleared_value(b(0.5))), 16.0);
}

#[test]
fn small_differences_are_told_from_large_ones_as_in_f32() {
    let cases = [0.0f32, 1.0, -1.0, 0.1, 3.0e-7, -2.0e-6, 100.0, 1.0e30, f32::INFINITY, f32::NAN];
    let steps = [0.0f32, 5.0e-8, 1.0e-7, 1.1e-7, 5.0e-7, 1.0e-6, 1.1e-6, 1.0e-3, -1.1e-6, -9.0e-8];
    for a in cases {
        for step in steps {
            let b = a + step;
            let gap = (a - b).abs();
            assert_eq!(has_moved(a.to_bits(), b.to_bits()), gap > 1.0e-6, "{a} {b}");
            assert_eq!(has_stirred(a.to_bits(), b.to_bits()), gap > 1.0e-7, "{a} {b}");
            assert_eq!(is_nearly_equal(a.to_bits(), b.to_bits()), gap < 1.0e-7, "{a} {b}");
        }
    }
}

#[test]
fn gradients_at_the_border_are_one_sided() {
    let g = four();
    let s = gradient_samples(&g, 0, 1, 0).map(f32::from_bits);
    assert_eq!(s, [-0.5, 0.5, 0.5, -1.0, 0.5, 0.5]);
}

#[test]
fn cells_outside_the_domain_are_open_air() {
    let g = sphere_grid(UVec3::splat(4), 0.5, Vec3::ZERO, Vec3::splat(0.75), 0.5);
    assert_eq!(cell_samples(&g, -1, 0, 0).map_err(f32::from_bits), Err(16.0));
    assert_eq!(cell_samples(&g, 3, 0, 0).map_err(f32::from_bits), Err(16.0));
    let corners = cell_samples(&g, 2, 2, 2).unwrap();
    assert_eq!(corners[0], g.get(2, 2, 2));
    assert_eq!(corners[1], g.get(3, 2, 2));
    assert_eq!(corners[2], g.get(2, 3, 2));
    assert_eq!(corners[4], g.get(2, 2, 3));
    assert_eq!(corners[7], g.get(3, 3, 3));
}

#[test]
fn a_grid_allocates_only_what_is_written() {
    let mut g = empty_grid(UVec3::new(70, 33, 5), 1.0, Vec3::ZERO);
    assert_eq!(g.num_chunks(), UVec3::new(3, 2, 1));
    assert_eq!(g.allocated_tile_count(), 0);
    assert_eq!(g.get(69, 32, 4), FAR);
    put(&mut g, 69, 32, 4, -1.0);
    put(&mut g, 0, 0, 0, -2.0);
    assert_eq!(g.allocated_chunk_coords(), vec![ChunkCoord::new(0, 0, 0), ChunkCoord::new(2, 1, 0)]);
    assert_eq!(g.idx(1, 2, 3), 1 + 2 * 70 + 3 * 70 * 33);
    let c = ChunkCoord::new(2, 1, 0);
    assert_eq!(c.voxel_min(), UVec3::new(64, 32, 0));
    assert_eq!(c.voxel_max(g.res()), UVec3::new(70, 33, 5));
    assert!(Grid::from_samples(UVec3::splat(2), 0, bits_of(Vec3::ZERO), vec![0; 7]).is_none());
}

#[test]
fn dirty_regions_reach_the_chunks_that_sample_them() {
    let res = UVec3::new(96, 96, 96);
    let at = |v: u32| {
        let r = DirtyRegion { min: UVec3::new(v, 5, 5), max: UVec3::new(v + 1, 6, 6) };
        r.touched_chunks(res).into_iter().map(|c| c.x).collect::<Vec<u32>>()
    };
    assert_eq!(at(10), vec![0]);
    assert_eq!(at(32), vec![0, 1]);
    assert_eq!(at(31), vec![0, 1]);
    assert_eq!(at(40), vec![1]);
}

#[test]
fn regions_are_put_back_as_they_were() {
    let mut g = four();
    let before = dense(&g);
    let snap = g.snapshot_region(UVec3::new(0, 0, 0), UVec3::new(2, 1, 1));
    put(&mut g, 0, 0, 0, 9.0);
    put(&mut g, 1, 1, 0, 8.0);
    g.restore_region(&snap);
    assert_eq!(values(&g)[..3], [-1.0, 2.0, 0.5]);
    assert_eq!(values(&g)[3], 8.0);
    put(&mut g, 1, 1, 0, -0.5);
    assert_eq!(dense(&g), before);
}

#[test]
fn a_union_of_grids_keeps_the_smaller_samples() {
    let mut a = four();
    let mut b = empty_grid(UVec3::new(2, 2, 1), 1.0, Vec3::ZERO);
    put(&mut b, 1, 0, 0, -7.0);
    a.union_from(&b);
    assert_eq!(values(&a), vec![-1.0, -7.0, 0.5, -0.5]);
}

#[test]
fn a_displacing_stamp_is_undone_by_its_journal() {
    let center = Vec3::new(16.0, 16.0, 16.0);
    for tool in [DisplaceTool::Press, DisplaceTool::Pull, DisplaceTool::Paddle] {
        let mut grid = sphere_grid(UVec3::splat(32), 1.0, Vec3::ZERO, center, 8.0);
        let before = grid.to_dense();
        let mut journal = Vec::new();
        let top = center + Vec3::Y * 8.0;
        let region = if tool == DisplaceTool::Paddle {
            let paddle = Paddle { center: top - Vec3::Y, normal: Vec3::Y, radius: 4.0, workbench_y: None };
            paddle_stamp(&mut grid, &paddle, &mut journal)
        } else {
            let finger = Finger { center: top, radius: 4.0, direction: Vec3::NEG_Y, workbench_y: None };
            finger_stamp(&mut grid, tool, &finger, &mut journal)
        };
        let region = region.expect("the tool touches the ball");
        assert_ne!(grid.to_dense(), before);
        for iz in 0..32 {
            for iy in 0..32 {
                for ix in 0..32 {
                    let inside = (region.min.x..region.max.x).contains(&ix)
                        && (region.min.y..region.max.y).contains(&iy)
                        && (region.min.z..region.max.z).contains(&iz);
                    if !inside {
                        assert_eq!(grid.get(ix, iy, iz), before[grid.idx(ix, iy, iz)]);
                    }
                }
            }
        }
        let mut places: Vec<(u32, u32, u32)> = journal.iter().map(|e| (e.x, e.y, e.z)).collect();
        places.sort_unstable();
        places.dedup();
        assert_eq!(places.len(), journal.len(), "each voxel is reported once");
        for edit in &journal {
            assert_eq!(edit.pre, before[grid.idx(edit.x, edit.y, edit.z)]);
            grid.set(edit.x, edit.y, edit.z, edit.pre);
        }
        assert_eq!(grid.to_dense(), before);
    }
}
