//! Connected pieces: labelling, moving, dropping and settling them.

use glam::Vec2;
use glam::Vec3;
use mud_sculpt::brush::{BrushMode, apply_displacing_brush, apply_primitive, apply_sphere_brush, clamp_aabb};
use mud_sculpt::components::{ComponentField, EMPTY, label_components};
use mud_sculpt::dirty::DirtyRegion;
use mud_sculpt::gravity::{rest_components_on_bench, touched_region_for_translate, translate_component, translate_components};
use mud_sculpt::grid::Grid;
use mud_sculpt::plastic::{BAND_END, DEFAULT_ITERATIONS, PlasticSettleParams, PlasticSettleSummary, settle_components_plastic};
use mud_sculpt::sandpile::slump;
use mud_sculpt::stamp::Field;
use mud_sculpt::turn::{component_pivot, is_identity, rotate_component, rotate_picked, rotate_voxel, touched_region_for_rotate};
use mud_sculpt::vec3::{BitVec3, IVec3, UVec3};

fn vec3_of(b: BitVec3) -> Vec3 {
    Vec3::new(f32::from_bits(b.x), f32::from_bits(b.y), f32::from_bits(b.z))
}

fn bits_of(v: Vec3) -> BitVec3 {
    BitVec3 { x: v.x.to_bits(), y: v.y.to_bits(), z: v.z.to_bits() }
}

fn empty_grid(res: UVec3, voxel_size: f32, origin: Vec3) -> Grid {
    Grid::empty(res, voxel_size.to_bits(), bits_of(origin))
}

fn voxel_size(grid: &Grid) -> f32 {
    f32::from_bits(grid.voxel_size())
}

fn origin(grid: &Grid) -> Vec3 {
    vec3_of(grid.origin())
}

fn value(grid: &Grid, ix: u32, iy: u32, iz: u32) -> f32 {
    f32::from_bits(grid.get(ix, iy, iz))
}

fn position(grid: &Grid, ix: u32, iy: u32, iz: u32) -> Vec3 {
    origin(grid) + Vec3::new(ix as f32, iy as f32, iz as f32) * voxel_size(grid)
}

/// A grid that holds a solid sphere.
fn sphere_grid(res: UVec3, voxel_size: f32, origin: Vec3, center: Vec3, radius: f32) -> Grid {
    let mut data = Vec::with_capacity(res.x as usize * res.y as usize * res.z as usize);
    for iz in 0..res.z {
        for iy in 0..res.y {
            for ix in 0..res.x {
                let p = origin + Vec3::new(ix as f32, iy as f32, iz as f32) * voxel_size;
                data.push(((p - center).length() - radius).to_bits());
            }
        }
    }
    Grid::from_samples(res, voxel_size.to_bits(), bits_of(origin), data)
        .expect("one sample for each voxel")
}

/// The voxels that a tool may reach: a box of `reach` on every side of `center`.
fn footprint(grid: &Grid, center: Vec3, reach: Vec3) -> Option<(UVec3, UVec3)> {
    let per_mm = 1.0 / voxel_size(grid);
    let first = (center - reach - origin(grid)) * per_mm;
    let last = (center + reach - origin(grid)) * per_mm;
    let floors = UVec3::new(
        first.x.floor().max(0.0) as u32,
        first.y.floor().max(0.0) as u32,
        first.z.floor().max(0.0) as u32,
    );
    let ceils = IVec3::new(last.x.ceil() as i32, last.y.ceil() as i32, last.z.ceil() as i32);
    let res = grid.res();
    if res.x == 0 || res.y == 0 || res.z == 0 {
        return None;
    }
    clamp_aabb(floors, ceils, res)
}

/// What a tool offers for each voxel of a box.
fn field(
    grid: &Grid,
    bounds: (UVec3, UVec3),
    workbench_y: Option<f32>,
    offer: impl Fn(Vec3, f32, UVec3) -> Option<f32>,
) -> Field {
    let (lo, hi) = bounds;
    let mut values = Vec::new();
    for iz in lo.z..hi.z {
        for iy in lo.y..hi.y {
            for ix in lo.x..hi.x {
                let v = UVec3::new(ix, iy, iz);
                let offered = offer(position(grid, ix, iy, iz), value(grid, ix, iy, iz), v);
                values.push(offered.map(f32::to_bits));
            }
        }
    }
    Field { lo, hi, values, floors: workbench_y.map(|y| floors(grid, lo.y, hi.y, y)) }
}

/// How far each height lies below the workbench.
fn floors(grid: &Grid, lo: u32, hi: u32, workbench_y: f32) -> Vec<u32> {
    (lo..hi).map(|iy| (workbench_y - position(grid, 0, iy, 0).y).to_bits()).collect()
}

#[derive(Copy, Clone, Debug)]
struct SphereBrush {
    center: Vec3,
    radius: f32,
    mode: BrushMode,
    direction: Vec3,
    displace: bool,
    workbench_y: Option<f32>,
}

/// The field of a spherical brush: distances to the sphere, or whole samples where
/// the brush bulges.
fn sphere_field(grid: &Grid, brush: &SphereBrush) -> Option<Field> {
    let vs = voxel_size(grid);
    let (r, c) = (brush.radius, brush.center);
    let ring = if brush.displace { r * 0.45 } else { 0.0 };
    let bounds = footprint(grid, c, Vec3::splat(r + ring + vs))?;
    let bulges = brush.displace && matches!(brush.mode, BrushMode::Press);
    let band = ring * 1.2 + vs;
    Some(field(grid, bounds, brush.workbench_y, |p, old, _| {
        let d = (p - c).length() - r;
        if !bulges {
            return Some(d);
        }
        let mut new = old.max(-d);
        if d > 0.0 && d < ring {
            let surface = (1.0 - (old.abs() / band).min(1.0)).max(0.0);
            let inner = (1.0 - d / ring) * (1.0 - d / ring);
            let cos = ((p - c) * (1.0 / (d + r).max(1e-6))).dot(brush.direction);
            let sideways = ((1.0 - cos) * 0.5).clamp(0.0, 1.0);
            new -= r * 0.18 * inner * surface * sideways;
        }
        Some(new)
    }))
}

fn sphere_brush(grid: &mut Grid, brush: &SphereBrush) -> Option<DirtyRegion> {
    let field = sphere_field(grid, brush)?;
    if brush.displace && matches!(brush.mode, BrushMode::Press) {
        apply_displacing_brush(grid, &field, &mut Vec::new())
    } else {
        apply_sphere_brush(grid, brush.mode, &field)
    }
}

#[derive(Copy, Clone, Debug)]
enum PrimitiveKind {
    Sphere { radius: f32 },
    Box { half_extents: Vec3 },
    Cylinder { radius: f32, half_height: f32 },
    Torus { major: f32, minor: f32 },
}

impl PrimitiveKind {
    fn sdf(&self, p: Vec3) -> f32 {
        match *self {
            PrimitiveKind::Sphere { radius } => p.length() - radius,
            PrimitiveKind::Box { half_extents } => {
                let q = p.abs() - half_extents;
                q.max(Vec3::ZERO).length() + q.max_element().min(0.0)
            }
            PrimitiveKind::Cylinder { radius, half_height } => {
                let side = Vec2::new(p.x, p.z).length() - radius;
                let cap = p.y.abs() - half_height;
                Vec2::new(side.max(0.0), cap.max(0.0)).length() + side.max(cap).min(0.0)
            }
            PrimitiveKind::Torus { major, minor } => {
                let tube = Vec2::new(p.x, p.z).length() - major;
                Vec2::new(tube, p.y).length() - minor
            }
        }
    }

    fn half_extents(&self) -> Vec3 {
        match *self {
            PrimitiveKind::Sphere { radius } => Vec3::splat(radius),
            PrimitiveKind::Box { half_extents } => half_extents,
            PrimitiveKind::Cylinder { radius, half_height } => Vec3::new(radius, half_height, radius),
            PrimitiveKind::Torus { major, minor } => Vec3::new(major + minor, minor, major + minor),
        }
    }
}

fn primitive_field(
    grid: &Grid,
    kind: PrimitiveKind,
    center: Vec3,
    workbench_y: Option<f32>,
) -> Option<Field> {
    let bounds = footprint(grid, center, kind.half_extents() + Vec3::splat(voxel_size(grid)))?;
    Some(field(grid, bounds, workbench_y, |p, _, _| Some(kind.sdf(p - center))))
}

/// How high clay of a plasticity stands before it slumps.
fn stable_height(plasticity: f32) -> u32 {
    let p = plasticity.clamp(0.0, 1.0);
    (2.0 + (1.0 - p).powi(2) * 48.0).round().max(2.0) as u32
}

/// Samples by squared distance from the heap, in voxels.
fn settle_band(voxel_size: f32) -> Vec<u32> {
    (0..=BAND_END).map(|d| ((d as f32).sqrt().min(4.0) * voxel_size).to_bits()).collect()
}

fn put(grid: &mut Grid, ix: u32, iy: u32, iz: u32, v: f32) {
    grid.set(ix, iy, iz, v.to_bits());
}

fn volume_mm3(labels: &ComponentField, id: u32, voxel_size: f32) -> f32 {
    labels.voxel_count(id) as f32 * voxel_size.powi(3)
}

struct Primitive {
    kind: PrimitiveKind,
    center: Vec3,
    workbench_y: Option<f32>,
}

fn insert(grid: &mut Grid, prim: &Primitive) -> Option<DirtyRegion> {
    let field = primitive_field(grid, prim.kind, prim.center, prim.workbench_y)?;
    apply_primitive(grid, &field)
}

fn settle(
    grid: &mut Grid,
    labels: &ComponentField,
    plasticity: f32,
    iterations: u32,
) -> PlasticSettleSummary {
    let params = PlasticSettleParams { plasticity: plasticity.to_bits(), iterations };
    let band = settle_band(voxel_size(grid));
    settle_components_plastic(grid, labels, &params, stable_height(plasticity), &band, &mut Vec::new())
}

fn ball(radius: f32, centre: Vec3) -> Grid {
    sphere_grid(UVec3::new(32, 32, 32), 1.0, Vec3::ZERO, centre, radius)
}

#[test]
fn empty_grid_has_no_components() {
    let g = empty_grid(UVec3::new(16, 16, 16), 1.0, Vec3::ZERO);
    let f = label_components(&g);
    assert_eq!(f.component_count(), 0);
    assert_eq!(f.id_at(8, 8, 8), EMPTY);
}

#[test]
fn single_sphere_is_one_component() {
    let g = ball(6.0, Vec3::new(16.0, 16.0, 16.0));
    let f = label_components(&g);
    assert_eq!(f.component_count(), 1);
    let centre_id = f.id_at(16, 16, 16);
    assert_ne!(centre_id, EMPTY);
    assert_eq!(f.id_at(0, 0, 0), EMPTY);
}

#[test]
fn two_disjoint_spheres_are_two_components() {
    let mut g = ball(10.0, Vec3::new(16.0, 16.0, 16.0));
    let carver = SphereBrush {
        center: Vec3::new(16.0, 16.0, 22.0),
        radius: 4.0,
        mode: BrushMode::Press,
        direction: Vec3::new(0.0, 0.0, -1.0),
        displace: false,
        workbench_y: None,
    };
    let _ = sphere_brush(&mut g, &carver);
    let mut g = empty_grid(UVec3::new(32, 32, 32), 1.0, Vec3::ZERO);
    let add_a = SphereBrush {
        center: Vec3::new(8.0, 16.0, 16.0),
        radius: 3.0,
        mode: BrushMode::Pull,
        direction: Vec3::new(1.0, 0.0, 0.0),
        displace: false,
        workbench_y: None,
    };
    let add_b = SphereBrush {
        center: Vec3::new(24.0, 16.0, 16.0),
        radius: 3.0,
        mode: BrushMode::Pull,
        direction: Vec3::new(-1.0, 0.0, 0.0),
        displace: false,
        workbench_y: None,
    };
    let _ = sphere_brush(&mut g, &add_a);
    let _ = sphere_brush(&mut g, &add_b);

    let f = label_components(&g);
    assert_eq!(f.component_count(), 2);
    let id_a = f.id_at(8, 16, 16);
    let id_b = f.id_at(24, 16, 16);
    assert_ne!(id_a, EMPTY);
    assert_ne!(id_b, EMPTY);
    assert_ne!(id_a, id_b);
}

#[test]
fn tiny_fragment_ranks_last_by_size() {
    let mut g = empty_grid(UVec3::new(32, 32, 32), 1.0, Vec3::ZERO);
    let big = SphereBrush {
        center: Vec3::new(8.0, 16.0, 16.0),
        radius: 6.0,
        mode: BrushMode::Pull,
        direction: Vec3::new(1.0, 0.0, 0.0),
        displace: false,
        workbench_y: None,
    };
    let tiny = SphereBrush {
        center: Vec3::new(24.0, 16.0, 16.0),
        radius: 2.0,
        mode: BrushMode::Pull,
        direction: Vec3::new(-1.0, 0.0, 0.0),
        displace: false,
        workbench_y: None,
    };
    let _ = sphere_brush(&mut g, &big);
    let _ = sphere_brush(&mut g, &tiny);

    let f = label_components(&g);
    let ranked = f.ids_by_size_desc();
    assert_eq!(ranked.len(), 2);
    assert!(f.voxel_count(ranked[0]) > f.voxel_count(ranked[1]));
}

#[test]
fn bounds_cover_component_voxels() {
    let mut g = empty_grid(UVec3::new(32, 32, 32), 1.0, Vec3::ZERO);
    let s = SphereBrush {
        center: Vec3::new(16.0, 16.0, 16.0),
        radius: 4.0,
        mode: BrushMode::Pull,
        direction: Vec3::new(0.0, 0.0, -1.0),
        displace: false,
        workbench_y: None,
    };
    let _ = sphere_brush(&mut g, &s);
    let f = label_components(&g);
    assert_eq!(f.component_count(), 1);
    let id = f.ids_by_size_desc()[0];
    let (mn, mx) = f.bounds_of(id).expect("component has bounds");
    for iz in 0..32u32 {
        for iy in 0..32u32 {
            for ix in 0..32u32 {
                if f.id_at(ix, iy, iz) == id {
                    assert!(ix >= mn.x && ix < mx.x, "x out of bounds");
                    assert!(iy >= mn.y && iy < mx.y, "y out of bounds");
                    assert!(iz >= mn.z && iz < mx.z, "z out of bounds");
                }
            }
        }
    }
    assert!(mx.x > mn.x && mx.y > mn.y && mx.z > mn.z);
}

#[test]
fn bounds_of_empty_or_unknown_id_is_none() {
    let g = ball(5.0, Vec3::new(16.0, 16.0, 16.0));
    let f = label_components(&g);
    assert!(f.bounds_of(EMPTY).is_none());
    assert!(f.bounds_of(9999).is_none());
}
#[test]
fn empty_voxel_count_accounts_for_every_voxel_including_unallocated_tiles() {
    let res = UVec3::new(96, 96, 96);
    let mut g = empty_grid(res, 1.0, Vec3::ZERO);
    let add = SphereBrush {
        center: Vec3::new(16.0, 16.0, 16.0),
        radius: 6.0,
        mode: BrushMode::Pull,
        direction: Vec3::new(0.0, 0.0, -1.0),
        displace: false,
        workbench_y: None,
    };
    let _ = sphere_brush(&mut g, &add);
    assert!(g.allocated_tile_count() < 27);

    let f = label_components(&g);
    let total = (res.x as u64) * (res.y as u64) * (res.z as u64);
    let solid: u64 = f
        .ids_by_size_desc()
        .iter()
        .map(|&id| f.voxel_count(id) as u64)
        .sum();
    assert_eq!(
        f.voxel_count(EMPTY) as u64 + solid,
        total,
        "empty + solid voxel counts must cover every voxel in the domain"
    );
}

#[test]
fn volume_mm3_scales_with_voxel_size() {
    let mut g = empty_grid(UVec3::new(16, 16, 16), 2.0, Vec3::ZERO);
    let add = SphereBrush {
        center: Vec3::new(16.0, 16.0, 16.0),
        radius: 4.0,
        mode: BrushMode::Pull,
        direction: Vec3::new(0.0, 0.0, -1.0),
        displace: false,
        workbench_y: None,
    };
    let _ = sphere_brush(&mut g, &add);
    let f = label_components(&g);
    assert_eq!(f.component_count(), 1);
    let id = f.ids_by_size_desc()[0];
    let count = f.voxel_count(id) as f32;
    assert!((volume_mm3(&f, id, 2.0) - count * 8.0).abs() < 1e-3);
}

fn add_sphere(g: &mut Grid, centre: Vec3, radius: f32) {
    let brush = SphereBrush {
        center: centre,
        radius,
        mode: BrushMode::Pull,
        direction: Vec3::new(0.0, -1.0, 0.0),
        displace: false,
        workbench_y: None,
    };
    let _ = sphere_brush(g, &brush);
}

fn lowest_iy_of(g: &Grid) -> u32 {
    let labels = label_components(g);
    let id = labels
        .ids_by_size_desc()
        .into_iter()
        .next()
        .expect("at least one component");
    let (mn, _) = labels.bounds_of(id).expect("component has bounds");
    mn.y
}

#[test]
fn floating_piece_drops_so_its_bottom_touches_bench() {
    let mut g = empty_grid(UVec3::new(32, 32, 32), 1.0, Vec3::ZERO);
    add_sphere(&mut g, Vec3::new(16.0, 20.0, 16.0), 4.0);
    let labels = label_components(&g);
    let summary = rest_components_on_bench(&mut g, &labels, &mut Vec::new());
    assert_eq!(summary.moved, 1);
    assert_eq!(lowest_iy_of(&g), 0);
}

#[test]
fn resting_piece_is_left_alone() {
    let mut g = empty_grid(UVec3::new(32, 32, 32), 1.0, Vec3::ZERO);
    add_sphere(&mut g, Vec3::new(16.0, 4.0, 16.0), 5.0);
    let labels = label_components(&g);
    let before = g.to_dense();
    let summary = rest_components_on_bench(&mut g, &labels, &mut Vec::new());
    assert_eq!(summary.moved, 0);
    assert_eq!(g.to_dense(), before);
}

#[test]
fn two_disjoint_pieces_both_land() {
    let mut g = empty_grid(UVec3::new(32, 32, 32), 1.0, Vec3::ZERO);
    add_sphere(&mut g, Vec3::new(10.0, 18.0, 16.0), 3.0);
    add_sphere(&mut g, Vec3::new(22.0, 24.0, 16.0), 3.0);
    let labels = label_components(&g);
    assert_eq!(labels.component_count(), 2);
    let summary = rest_components_on_bench(&mut g, &labels, &mut Vec::new());
    assert_eq!(summary.moved, 2);
    let labels_after = label_components(&g);
    for id in labels_after.ids_by_size_desc() {
        let (mn, _) = labels_after.bounds_of(id).expect("component");
        assert_eq!(mn.y, 0, "component {id} should touch the bench");
    }
}

#[test]
fn pre_mutation_callback_captures_touched_voxels() {
    let mut g = empty_grid(UVec3::new(32, 32, 32), 1.0, Vec3::ZERO);
    add_sphere(&mut g, Vec3::new(16.0, 20.0, 16.0), 3.0);
    let labels = label_components(&g);
    let mut journal = Vec::new();
    let _ = rest_components_on_bench(&mut g, &labels, &mut journal);
    let hits = journal.len();
    assert!(hits > 0);
}

#[test]
fn empty_grid_is_a_noop() {
    let mut g = empty_grid(UVec3::new(16, 16, 16), 1.0, Vec3::ZERO);
    let labels = label_components(&g);
    let summary = rest_components_on_bench(&mut g, &labels, &mut Vec::new());
    assert_eq!(summary.components, 0);
    assert_eq!(summary.moved, 0);
    assert!(summary.dirty.is_none());
}
#[test]
fn dropped_piece_preserves_narrow_band_around_the_new_surface() {
    let mut g = empty_grid(UVec3::new(48, 48, 48), 1.0, Vec3::ZERO);
    add_sphere(&mut g, Vec3::new(24.0, 24.0, 24.0), 8.0);

    let mut band_before: Vec<(u32, u32, u32, f32)> = Vec::new();
    for iz in 0..48 {
        for iy in 0..48 {
            for ix in 0..48 {
                let v = value(&g, ix, iy, iz);
                if v > 0.0 && v < 3.0 {
                    band_before.push((ix, iy, iz, v));
                }
            }
        }
    }
    assert!(!band_before.is_empty(), "starter sphere should have a band");
    let labels_before = label_components(&g);
    let id_before = labels_before.ids_by_size_desc()[0];
    let drop = labels_before.bounds_of(id_before).unwrap().0.y;

    let _ = rest_components_on_bench(&mut g, &labels_before, &mut Vec::new());

    let mut preserved = 0usize;
    let mut sheared = 0usize;
    for (ix, iy, iz, v_before) in band_before {
        if iy < drop {
            continue;
        }
        let new_iy = iy - drop;
        let v_after = value(&g, ix, new_iy, iz);
        if (v_after - v_before).abs() < 0.51 {
            preserved += 1;
        } else {
            sheared += 1;
        }
    }
    let ratio = preserved as f32 / (preserved + sheared).max(1) as f32;
    assert!(
        ratio > 0.9,
        "band preservation ratio {ratio:.2} — surface got sheared during rest",
    );
}

#[test]
fn translate_component_shifts_a_piece_along_x() {
    let mut g = empty_grid(UVec3::new(32, 32, 32), 1.0, Vec3::ZERO);
    add_sphere(&mut g, Vec3::new(10.0, 16.0, 16.0), 4.0);
    let labels = label_components(&g);
    let id = labels.ids_by_size_desc()[0];
    let dirty = translate_component(
        &mut g,
        &labels,
        id,
        IVec3::new(6, 0, 0),
        &mut Vec::new(),
    );
    assert!(dirty.is_some(), "shift should produce a dirty region");
    let labels_after = label_components(&g);
    let id_after = labels_after.ids_by_size_desc()[0];
    let (mn, mx) = labels_after.bounds_of(id_after).expect("bounds");
    let mid = (mn.x + mx.x) as f32 * 0.5;
    assert!(
        (mid - 16.5).abs() <= 1.0,
        "shifted centre x = {mid}, expected ≈ 16.5 voxels",
    );
}
#[test]
fn translating_one_component_leaves_a_distant_component_untouched() {
    let mut g = empty_grid(UVec3::new(160, 160, 160), 1.0, Vec3::ZERO);
    add_sphere(&mut g, Vec3::new(10.0, 30.0, 10.0), 4.0);
    add_sphere(&mut g, Vec3::new(140.0, 30.0, 140.0), 4.0);
    let labels = label_components(&g);
    assert_eq!(labels.component_count(), 2);

    let near_id = labels.id_at(10, 30, 10);
    let far_id_before = labels.id_at(140, 30, 140);
    let far_bounds_before = labels.bounds_of(far_id_before).expect("far piece has bounds");
    let far_centre_before = value(&g, 140, 30, 140);

    let _ = translate_component(
        &mut g,
        &labels,
        near_id,
        IVec3::new(20, 0, 0),
        &mut Vec::new(),
    );
    assert_eq!(value(&g, 140, 30, 140), far_centre_before);
    let labels_after = label_components(&g);
    assert_eq!(labels_after.component_count(), 2);
    let far_id_after = labels_after.id_at(140, 30, 140);
    assert_ne!(far_id_after, EMPTY);
    let far_bounds_after = labels_after.bounds_of(far_id_after).expect("far piece still there");
    assert_eq!(far_bounds_after, far_bounds_before, "far piece must not move or resize");
}

#[test]
fn zero_delta_is_a_noop() {
    let mut g = empty_grid(UVec3::new(16, 16, 16), 1.0, Vec3::ZERO);
    add_sphere(&mut g, Vec3::new(8.0, 8.0, 8.0), 3.0);
    let labels = label_components(&g);
    let id = labels.ids_by_size_desc()[0];
    let before = g.to_dense();
    let dirty = translate_component(
        &mut g,
        &labels,
        id,
        IVec3::new(0, 0, 0),
        &mut Vec::new(),
    );
    assert!(dirty.is_none());
    assert_eq!(g.to_dense(), before);
}

fn solid_count(g: &Grid) -> u32 {
    let mut n = 0u32;
    for c in g.allocated_chunk_coords() {
        let base = c.voxel_min();
        let max = c.voxel_max(g.res());
        for iz in base.z..max.z {
            for iy in base.y..max.y {
                for ix in base.x..max.x {
                    if value(&g, ix, iy, iz) < 0.0 {
                        n += 1;
                    }
                }
            }
        }
    }
    n
}

fn solid_peak_iy(g: &Grid) -> u32 {
    let mut peak = 0u32;
    for c in g.allocated_chunk_coords() {
        let base = c.voxel_min();
        let max = c.voxel_max(g.res());
        for iz in base.z..max.z {
            for iy in base.y..max.y {
                for ix in base.x..max.x {
                    if value(&g, ix, iy, iz) < 0.0 {
                        peak = peak.max(iy);
                    }
                }
            }
        }
    }
    peak
}

fn solid_lowest_iy(g: &Grid) -> u32 {
    let mut low = u32::MAX;
    for c in g.allocated_chunk_coords() {
        let base = c.voxel_min();
        let max = c.voxel_max(g.res());
        for iz in base.z..max.z {
            for iy in base.y..max.y {
                for ix in base.x..max.x {
                    if value(&g, ix, iy, iz) < 0.0 {
                        low = low.min(iy);
                    }
                }
            }
        }
    }
    low
}

fn solid_base_width_xz(g: &Grid) -> u32 {
    let mut min_x = u32::MAX;
    let mut max_x = 0u32;
    let mut min_z = u32::MAX;
    let mut max_z = 0u32;
    let mut any = false;
    for c in g.allocated_chunk_coords() {
        let base = c.voxel_min();
        let max = c.voxel_max(g.res());
        for iz in base.z..max.z {
            for iy in base.y..max.y.min(4) {
                for ix in base.x..max.x {
                    if value(&g, ix, iy, iz) < 0.0 {
                        min_x = min_x.min(ix);
                        max_x = max_x.max(ix);
                        min_z = min_z.min(iz);
                        max_z = max_z.max(iz);
                        any = true;
                    }
                }
            }
        }
    }
    if !any {
        return 0;
    }
    (max_x - min_x + 1).max(max_z - min_z + 1)
}

fn tall_tower() -> Grid {
    let mut g = empty_grid(UVec3::new(64, 64, 64), 1.0, Vec3::new(-32.0, 0.0, -32.0));
    for iy in 0..28 {
        for iz in 30..34 {
            for ix in 30..34 {
                put(&mut g, ix, iy, iz, -1.0);
            }
        }
    }
    for iy in 0..30 {
        for iz in 28..36 {
            for ix in 28..36 {
                if value(&g, ix, iy, iz) >= 0.0 {
                    let dx = (ix as i32 - 31).unsigned_abs();
                    let dz = (iz as i32 - 31).unsigned_abs();
                    put(&mut g, ix, iy, iz, (dx.max(dz) + 1) as f32);
                }
            }
        }
    }
    g
}

#[test]
fn plasticity_zero_leaves_grounded_tower_alone() {
    let mut g = tall_tower();
    let before = solid_count(&g);
    let peak = solid_peak_iy(&g);
    let labels = label_components(&g);
    let summary = settle(&mut g, &labels, 0.0, 8);
    assert_eq!(summary.voxels_touched, 0);
    assert_eq!(solid_count(&g), before);
    assert_eq!(solid_peak_iy(&g), peak);
}

#[test]
fn floating_lump_crashes_to_bench_even_when_stiff() {
    let mut g = empty_grid(UVec3::new(64, 64, 64), 1.0, Vec3::new(-32.0, 0.0, -32.0));
    let _ = insert(
        &mut g,
        &Primitive {
            kind: PrimitiveKind::Sphere { radius: 5.0 },
            center: Vec3::new(0.0, 28.0, 0.0),
            workbench_y: None,
        },
    );
    assert!(solid_lowest_iy(&g) > 5, "precondition: lump is airborne");
    let labels = label_components(&g);
    let summary = settle(&mut g, &labels, 0.0, 8);
    assert!(summary.voxels_touched > 0);
    assert_eq!(
        solid_lowest_iy(&g),
        0,
        "floating lump must land on the workbench"
    );
}

#[test]
fn soft_settle_collapses_tower_down_onto_bench() {
    let mut g = tall_tower();
    let peak_before = solid_peak_iy(&g);
    let width_before = solid_base_width_xz(&g);
    let vol_before = solid_count(&g);
    let labels = label_components(&g);
    let summary = settle(&mut g, &labels, 1.0, 256);
    assert!(summary.voxels_touched > 0, "soft settle must touch voxels");
    assert_eq!(solid_lowest_iy(&g), 0, "collapsed clay sits on the bench");
    let peak_after = solid_peak_iy(&g);
    assert!(
        peak_after + 10 < peak_before,
        "tower should collapse hard: before={peak_before} after={peak_after}"
    );
    let width_after = solid_base_width_xz(&g);
    assert!(
        width_after > width_before,
        "base should pile outward: before={width_before} after={width_after}"
    );
    let vol_after = solid_count(&g);
    let ratio = vol_after as f32 / vol_before as f32;
    assert!(
        (0.85..=1.15).contains(&ratio),
        "volume should stay roughly conserved: before={vol_before} after={vol_after}"
    );
}

#[test]
fn soft_sphere_pancakes_toward_bench() {
    let mut g = empty_grid(UVec3::new(64, 64, 64), 1.0, Vec3::new(-32.0, 0.0, -32.0));
    let _ = insert(
        &mut g,
        &Primitive {
            kind: PrimitiveKind::Sphere { radius: 10.0 },
            center: Vec3::new(0.0, 10.0, 0.0),
            workbench_y: Some(0.0),
        },
    );
    let peak_before = solid_peak_iy(&g);
    let width_before = solid_base_width_xz(&g);
    let vol_before = solid_count(&g);
    let labels = label_components(&g);
    let summary = settle(&mut g, &labels, 1.0, 256);
    assert!(summary.voxels_touched > 0);
    assert_eq!(solid_lowest_iy(&g), 0);
    let peak_after = solid_peak_iy(&g);
    assert!(
        peak_after + 6 < peak_before,
        "soft sphere should lose height: before={peak_before} after={peak_after}"
    );
    let width_after = solid_base_width_xz(&g);
    assert!(
        width_after > width_before,
        "soft sphere should pancake outward: before={width_before} after={width_after}"
    );
    let vol_after = solid_count(&g);
    let ratio = vol_after as f32 / vol_before as f32;
    assert!(
        (0.85..=1.15).contains(&ratio),
        "sphere volume drift: before={vol_before} after={vol_after}"
    );
}

#[test]
fn stiff_fat_blob_barely_squashes() {
    let mut g = empty_grid(UVec3::new(64, 64, 64), 1.0, Vec3::new(-32.0, 0.0, -32.0));
    let _ = insert(
        &mut g,
        &Primitive {
            kind: PrimitiveKind::Sphere { radius: 8.0 },
            center: Vec3::new(0.0, 8.0, 0.0),
            workbench_y: Some(0.0),
        },
    );
    let peak_before = solid_peak_iy(&g);
    let vol_before = solid_count(&g);
    let labels = label_components(&g);
    let summary = settle(&mut g, &labels, 0.2, 64);
    let peak_after = solid_peak_iy(&g);
    let drop = peak_before as i32 - peak_after as i32;
    assert!(
        drop <= 4,
        "stiff fat blob should barely squash: drop={drop} touched={}",
        summary.voxels_touched
    );
    let vol_after = solid_count(&g);
    let ratio = vol_after as f32 / vol_before as f32;
    assert!(
        (0.90..=1.10).contains(&ratio),
        "fat blob volume drift: before={vol_before} after={vol_after}"
    );
}

fn solids(grid: &Grid) -> Vec<(u32, u32, u32)> {
    let res = grid.res();
    let mut list = Vec::new();
    for iz in 0..res.z {
        for iy in 0..res.y {
            for ix in 0..res.x {
                if value(grid, ix, iy, iz) < 0.0 {
                    list.push((ix, iy, iz));
                }
            }
        }
    }
    list
}

fn lumps(at: &[(u32, u32, u32)]) -> Grid {
    let mut g = empty_grid(UVec3::new(24, 24, 24), 1.0, Vec3::ZERO);
    for &(x, y, z) in at {
        put(&mut g, x, y, z, -1.0);
    }
    g
}

#[test]
fn diagonal_neighbours_are_separate_pieces() {
    let f = label_components(&lumps(&[(3, 3, 3), (4, 3, 3), (5, 4, 3), (3, 3, 9)]));
    assert_eq!(f.component_count(), 3);
    assert_eq!(f.id_at(3, 3, 3), f.id_at(4, 3, 3));
    assert_ne!(f.id_at(4, 3, 3), f.id_at(5, 4, 3));
    let ranked = f.ids_by_size_desc();
    assert_eq!(ranked[0], f.id_at(3, 3, 3));
    assert_eq!(f.voxel_count(ranked[0]), 2);
    assert_eq!(f.bounds_of(ranked[0]), Some((UVec3::new(3, 3, 3), UVec3::new(5, 4, 4))));
    assert_eq!(f.voxel_count(EMPTY), 24 * 24 * 24 - 4);
    assert_eq!(f.voxel_count(77), 0);
}

#[test]
fn what_lands_outside_the_domain_is_cut_off() {
    let mut g = lumps(&[(1, 12, 12), (2, 12, 12)]);
    let labels = label_components(&g);
    let mut journal = Vec::new();
    let dirty = translate_component(&mut g, &labels, 1, IVec3::new(-2, 0, 0), &mut journal);
    assert_eq!(solids(&g), vec![(0, 12, 12)]);
    assert!(dirty.is_some());
    assert!(!journal.is_empty());
}

#[test]
fn several_pieces_move_in_one_pass() {
    let mut g = lumps(&[(4, 12, 12), (16, 12, 12)]);
    let labels = label_components(&g);
    let (a, b) = (labels.id_at(4, 12, 12), labels.id_at(16, 12, 12));
    let deltas = vec![(a, IVec3::new(0, -3, 0)), (b, IVec3::new(0, 2, 1))];
    translate_components(&mut g, &labels, &deltas, &mut Vec::new());
    assert_eq!(solids(&g), vec![(4, 9, 12), (16, 14, 13)]);
}

#[test]
fn a_drop_takes_the_lowest_voxel_to_the_bench() {
    let mut g = lumps(&[(4, 5, 12), (4, 6, 12), (4, 6, 13)]);
    let labels = label_components(&g);
    let summary = rest_components_on_bench(&mut g, &labels, &mut Vec::new());
    assert_eq!((summary.components, summary.moved), (1, 1));
    assert_eq!(solids(&g), vec![(4, 0, 12), (4, 1, 12), (4, 1, 13)]);
}

#[test]
fn the_region_of_a_move_holds_both_places() {
    let g = lumps(&[(10, 10, 10)]);
    let labels = label_components(&g);
    let (lo, hi) = touched_region_for_translate(&labels, 1, IVec3::new(4, 0, -1)).unwrap();
    assert_eq!((lo, hi), (UVec3::new(7, 7, 6), UVec3::new(18, 14, 14)));
    assert!(touched_region_for_translate(&labels, 2, IVec3::new(1, 0, 0)).is_none());
}

#[test]
fn a_pile_that_slumps_keeps_its_clay() {
    let lo = UVec3::new(0, 0, 0);
    let hi = UVec3::new(3, 1, 3);
    let mut counts = vec![0, 0, 0, 0, 9, 0, 0, 0, 0];
    let passes = slump(&mut counts, lo, hi, 2, 64);
    assert_eq!(counts.iter().sum::<u32>(), 9);
    assert!(counts.iter().all(|&c| c <= 2));
    assert_eq!(passes, 7);
    let mut stable = vec![2, 1, 0, 2, 2, 2, 0, 0, 0];
    slump(&mut stable, lo, hi, 2, 64);
    assert_eq!(stable, vec![2, 1, 0, 2, 2, 2, 0, 0, 0]);
    let mut stopped = vec![0, 0, 0, 0, 9, 0, 0, 0, 0];
    assert_eq!(slump(&mut stopped, lo, hi, 2, 1), 1);
    assert_eq!(stopped, vec![0, 0, 0, 0, 8, 1, 0, 0, 0]);
}

#[test]
fn settling_without_clay_does_nothing() {
    let mut g = lumps(&[]);
    let labels = label_components(&g);
    let summary = settle(&mut g, &labels, 1.0, 64);
    assert_eq!(summary.iterations_run, 0);
    assert_eq!(summary.voxels_touched, 0);
    assert!(summary.dirty.is_none());
    let defaults = PlasticSettleParams::default();
    assert_eq!(f32::from_bits(defaults.plasticity), 0.7);
    assert_eq!(defaults.iterations, DEFAULT_ITERATIONS);
}

#[test]
fn settled_clay_has_exact_distances_around_it() {
    let mut g = lumps(&[(12, 0, 12)]);
    let labels = label_components(&g);
    let summary = settle(&mut g, &labels, 1.0, 64);
    assert_eq!(summary.iterations_run, 1);
    assert_eq!(value(&g, 12, 0, 12), -1.0);
    assert_eq!(value(&g, 13, 0, 12), 1.0);
    assert_eq!(value(&g, 13, 1, 12), 2.0f32.sqrt());
    assert_eq!(value(&g, 12, 3, 12), 3.0);
    assert_eq!(value(&g, 20, 0, 12), 4.0);
}

#[test]
fn quarter_turns_go_counter_clockwise() {
    let pivot = IVec3::new(10, 10, 10);
    let v = IVec3::new(13, 10, 10);
    assert_eq!(rotate_voxel(v, pivot, IVec3::new(0, 1, 0)), IVec3::new(10, 10, 7));
    assert_eq!(rotate_voxel(v, pivot, IVec3::new(0, -1, 0)), IVec3::new(10, 10, 13));
    assert_eq!(rotate_voxel(v, pivot, IVec3::new(0, 0, 1)), IVec3::new(10, 13, 10));
    assert_eq!(rotate_voxel(v, pivot, IVec3::new(1, 0, 0)), v);
    assert_eq!(rotate_voxel(v, pivot, IVec3::new(4, -8, 2)), IVec3::new(7, 10, 10));
    let w = IVec3::new(11, 12, 13);
    assert_eq!(rotate_voxel(w, pivot, IVec3::new(1, 1, 0)), IVec3::new(12, 7, 9));
    assert!(is_identity(IVec3::new(4, -8, 0)));
    assert!(!is_identity(IVec3::new(4, -7, 0)));
}

#[test]
fn a_turned_piece_arrives_and_others_stay() {
    let mut g = lumps(&[(10, 12, 12), (11, 12, 12), (12, 12, 12), (13, 12, 12), (20, 12, 12)]);
    let labels = label_components(&g);
    let id = labels.id_at(10, 12, 12);
    assert_eq!(component_pivot(&labels, id), Some(IVec3::new(12, 12, 12)));
    assert_eq!(component_pivot(&labels, 9), None);
    let before = g.to_dense();
    let mut journal = Vec::new();
    let q = IVec3::new(0, 1, 0);
    let dirty = rotate_component(&mut g, &labels, id, q, &mut journal);
    assert!(dirty.is_some());
    assert_eq!(
        solids(&g),
        vec![(12, 12, 11), (12, 12, 12), (20, 12, 12), (12, 12, 13), (12, 12, 14)]
    );
    assert_eq!(rotate_picked(&labels, id, q, UVec3::new(10, 12, 12)), Some(UVec3::new(12, 12, 14)));
    assert_eq!(rotate_picked(&labels, id, q, UVec3::new(30, 12, 12)), None);
    for e in journal.iter().rev() {
        g.set(e.x, e.y, e.z, e.pre);
    }
    assert_eq!(g.to_dense(), before);
}

#[test]
fn whole_turns_and_unknown_pieces_change_nothing() {
    let mut g = lumps(&[(10, 12, 12), (11, 12, 12)]);
    let labels = label_components(&g);
    let before = g.to_dense();
    let mut journal = Vec::new();
    assert!(rotate_component(&mut g, &labels, 1, IVec3::new(0, 4, 0), &mut journal).is_none());
    assert!(rotate_component(&mut g, &labels, 2, IVec3::new(0, 1, 0), &mut journal).is_none());
    assert!(journal.is_empty());
    assert_eq!(g.to_dense(), before);
    let (lo, hi) = touched_region_for_rotate(&labels, 1, IVec3::new(0, 1, 0)).unwrap();
    assert_eq!((lo, hi), (UVec3::new(7, 9, 9), UVec3::new(15, 16, 17)));
}

#[test]
fn a_label_that_no_piece_has_moves_nothing() {
    let mut g = empty_grid(UVec3::new(20, 1, 1), 1.0, Vec3::ZERO);
    g.set(2, 0, 0, (-1.0f32).to_bits());
    g.set(17, 0, 0, (-1.0f32).to_bits());
    let labels = label_components(&g);
    let before = g.to_dense();
    let mut journal = Vec::new();
    for id in [EMPTY, 3] {
        let moved = translate_component(&mut g, &labels, id, IVec3::new(1, 0, 0), &mut journal);
        assert!(moved.is_none());
        assert!(journal.is_empty());
        assert_eq!(g.to_dense(), before);
    }
    assert!(translate_component(&mut g, &labels, 1, IVec3::new(1, 0, 0), &mut journal).is_some());
}

#[test]
fn resting_is_final() {
    let mut g = empty_grid(UVec3::new(32, 32, 32), 1.0, Vec3::ZERO);
    add_sphere(&mut g, Vec3::new(9.0, 20.0, 9.0), 4.0);
    add_sphere(&mut g, Vec3::new(22.0, 12.0, 22.0), 5.0);
    let count = solid_count(&g);
    let labels = label_components(&g);
    let summary = rest_components_on_bench(&mut g, &labels, &mut Vec::new());
    assert_eq!((summary.components, summary.moved), (2, 2));
    assert_eq!(solid_count(&g), count);

    let settled = g.to_dense();
    let labels = label_components(&g);
    for id in labels.ids_by_size_desc() {
        assert_eq!(labels.bounds_of(id).unwrap().0.y, 0);
    }
    let mut journal = Vec::new();
    let again = rest_components_on_bench(&mut g, &labels, &mut journal);
    assert_eq!((again.components, again.moved), (2, 0));
    assert!(again.dirty.is_none() && journal.is_empty());
    assert_eq!(g.to_dense(), settled);
}

#[test]
fn pieces_that_fall_into_each_other_become_one() {
    let mut g = empty_grid(UVec3::new(16, 16, 16), 1.0, Vec3::ZERO);
    put(&mut g, 8, 4, 8, -1.0);
    put(&mut g, 8, 9, 8, -1.0);
    let labels = label_components(&g);
    rest_components_on_bench(&mut g, &labels, &mut Vec::new());
    assert_eq!(solid_count(&g), 1);
    assert!(value(&g, 8, 0, 8) < 0.0);
}

#[test]
fn settling_keeps_the_clay() {
    let mut g = empty_grid(UVec3::new(48, 48, 48), 1.0, Vec3::ZERO);
    for z in 20..26 {
        for y in 8..30 {
            for x in 20..26 {
                put(&mut g, x, y, z, -1.0);
            }
        }
    }
    let count = solid_count(&g);
    assert_eq!(count, 6 * 22 * 6);
    for plasticity in [0.0, 0.5, 1.0] {
        let labels = label_components(&g);
        let summary = settle(&mut g, &labels, plasticity, DEFAULT_ITERATIONS);
        assert_eq!(solid_count(&g), count, "at {plasticity}");
        assert_eq!(summary.iterations_run > 0, plasticity > 0.0);
    }
}
