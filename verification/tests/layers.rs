//! The layer stack, and strokes that write to it.

use glam::Vec2;
use glam::Vec3;
use mud_sculpt::bench::{insert_primitive_centered_on_bench, rest_on_bench_now, select_inserted, settle_plastic_now};
use mud_sculpt::brush::{BrushMode, apply_displacing_brush, apply_primitive, apply_sphere_brush, clamp_aabb};
use mud_sculpt::dirty::DirtyRegion;
use mud_sculpt::dual_contour::Axis;
use mud_sculpt::grid::{ChunkCoord, Grid};
use mud_sculpt::layers::LayersState;
use mud_sculpt::move_tool::{ArrowPass, GizmoStep, apply_move, apply_preview, cancel_drag, commit_drag, gizmo_frame, pick_arrow, snap_selection_to_workbench, start_drag};
use mud_sculpt::panels::{finish_rename, layers_panel};
use mud_sculpt::plastic::{BAND_END, PlasticSettleParams};
use mud_sculpt::probe::cell_samples;
use mud_sculpt::project::{IoKind, ReadError, WriteError};
use mud_sculpt::remesh::{MAX_CHUNKS_PER_FRAME, Reconcile};
use mud_sculpt::rotate_tool::{RingPass, apply_rotate, cancel_turn, commit_turn, pick_ring, preview_turn, ring_frame, start_turn};
use mud_sculpt::sample::FAR;
use mud_sculpt::scene::GridSwapError;
use mud_sculpt::sculpt::{Pointer, Route, SculptStroke, Spacing, WireCut, WireCutState, WireStep, apply_at, arm_wire, empty_bench_add, finish_stroke, is_spaced, lock_plane, mirror, note_stamp, pointer_frame, route_stamp, wire_cut, wire_frame};
use mud_sculpt::selection::{Selection, delete_selected_component};
use mud_sculpt::session::{LoadError, clear_worktable, delete_layer_now, load_project, merge_down_now, save_project};
use mud_sculpt::stamp::Field;
use mud_sculpt::stroke::{StrokeRecorder, chunk_of_voxel, pack_key};
use mud_sculpt::tool::{SculptTool, ToolKind};
use mud_sculpt::undo::{MAX_HISTORY, UndoHistory};
use mud_sculpt::vec3::{BitVec3, IVec3, UVec3};

fn vec3_of(b: BitVec3) -> Vec3 {
    Vec3::new(f32::from_bits(b.x), f32::from_bits(b.y), f32::from_bits(b.z))
}

fn bits_of(v: Vec3) -> BitVec3 {
    BitVec3 { x: v.x.to_bits(), y: v.y.to_bits(), z: v.z.to_bits() }
}

fn empty_grid(res: UVec3, voxel_size: f32, origin: Vec3) -> Grid {
    Grid::empty(res, voxel_size.to_bits(), bits_of(origin))
}

fn voxel_size(grid: &Grid) -> f32 {
    f32::from_bits(grid.voxel_size())
}

fn origin(grid: &Grid) -> Vec3 {
    vec3_of(grid.origin())
}

fn value(grid: &Grid, ix: u32, iy: u32, iz: u32) -> f32 {
    f32::from_bits(grid.get(ix, iy, iz))
}

fn position(grid: &Grid, ix: u32, iy: u32, iz: u32) -> Vec3 {
    origin(grid) + Vec3::new(ix as f32, iy as f32, iz as f32) * voxel_size(grid)
}

/// A grid that holds a solid sphere.
fn sphere_grid(res: UVec3, voxel_size: f32, origin: Vec3, center: Vec3, radius: f32) -> Grid {
    let mut data = Vec::with_capacity(res.x as usize * res.y as usize * res.z as usize);
    for iz in 0..res.z {
        for iy in 0..res.y {
            for ix in 0..res.x {
                let p = origin + Vec3::new(ix as f32, iy as f32, iz as f32) * voxel_size;
                data.push(((p - center).length() - radius).to_bits());
            }
        }
    }
    Grid::from_samples(res, voxel_size.to_bits(), bits_of(origin), data)
        .expect("one sample for each voxel")
}

/// Trilinear interpolation; open air outside the domain.
fn sample(grid: &Grid, p: Vec3) -> f32 {
    let at = (p - origin(grid)) * (1.0 / voxel_size(grid));
    let cell = at.floor();
    match cell_samples(grid, cell.x as i32, cell.y as i32, cell.z as i32) {
        Err(air) => f32::from_bits(air),
        Ok(corners) => {
            let c = corners.map(f32::from_bits);
            let f = at - cell;
            let along = |a: f32, b: f32, t: f32| a * (1.0 - t) + b * t;
            let near = along(along(c[0], c[1], f.x), along(c[2], c[3], f.x), f.y);
            let far = along(along(c[4], c[5], f.x), along(c[6], c[7], f.x), f.y);
            along(near, far, f.z)
        }
    }
}

/// How far a point is from the samples of the grid, so that a ray from afar does not
/// step over a piece near the border.
fn distance_to_domain(grid: &Grid, p: Vec3) -> f32 {
    let res = grid.res();
    let first = origin(grid);
    let last = position(grid, res.x.saturating_sub(1), res.y.saturating_sub(1), res.z.saturating_sub(1));
    (p - p.clamp(first, last.max(first))).length()
}

/// Sphere tracing from outside the workpiece, refined onto the surface.
fn ray_march(grid: &Grid, from: Vec3, dir: Vec3, max_dist: f32) -> Option<Vec3> {
    let vs = voxel_size(grid);
    let min_step = vs * 0.5;
    let near_enough = vs * 0.25;
    let mut t = 0.0f32;
    let mut latch = None;
    for _ in 0..256 {
        let p = from + dir * t;
        let outside = distance_to_domain(grid, p);
        let d = if outside > 0.0 { outside } else { sample(grid, p) };
        if outside <= 0.0 && d < near_enough {
            latch = Some(t);
            break;
        }
        t += d.max(min_step);
        if t > max_dist {
            return None;
        }
    }
    let hit = latch?;
    let mut outside = (hit - min_step).max(0.0);
    let mut inside = hit;
    if sample(grid, from + dir * outside) < 0.0 {
        outside = (hit - vs * 2.0).max(0.0);
    }
    for _ in 0..8 {
        let middle = 0.5 * (outside + inside);
        if sample(grid, from + dir * middle) > 0.0 {
            outside = middle;
        } else {
            inside = middle;
        }
    }
    Some(from + dir * inside)
}

/// The voxels that a tool may reach: a box of `reach` on every side of `center`.
fn footprint(grid: &Grid, center: Vec3, reach: Vec3) -> Option<(UVec3, UVec3)> {
    let per_mm = 1.0 / voxel_size(grid);
    let first = (center - reach - origin(grid)) * per_mm;
    let last = (center + reach - origin(grid)) * per_mm;
    let floors = UVec3::new(
        first.x.floor().max(0.0) as u32,
        first.y.floor().max(0.0) as u32,
        first.z.floor().max(0.0) as u32,
    );
    let ceils = IVec3::new(last.x.ceil() as i32, last.y.ceil() as i32, last.z.ceil() as i32);
    let res = grid.res();
    if res.x == 0 || res.y == 0 || res.z == 0 {
        return None;
    }
    clamp_aabb(floors, ceils, res)
}

/// What a tool offers for each voxel of a box.
fn field(
    grid: &Grid,
    bounds: (UVec3, UVec3),
    workbench_y: Option<f32>,
    offer: impl Fn(Vec3, f32, UVec3) -> Option<f32>,
) -> Field {
    let (lo, hi) = bounds;
    let mut values = Vec::new();
    for iz in lo.z..hi.z {
        for iy in lo.y..hi.y {
            for ix in lo.x..hi.x {
                let v = UVec3::new(ix, iy, iz);
                let offered = offer(position(grid, ix, iy, iz), value(grid, ix, iy, iz), v);
                values.push(offered.map(f32::to_bits));
            }
        }
    }
    Field { lo, hi, values, floors: workbench_y.map(|y| floors(grid, lo.y, hi.y, y)) }
}

/// How far each height lies below the workbench.
fn floors(grid: &Grid, lo: u32, hi: u32, workbench_y: f32) -> Vec<u32> {
    (lo..hi).map(|iy| (workbench_y - position(grid, 0, iy, 0).y).to_bits()).collect()
}

#[derive(Copy, Clone, Debug)]
struct SphereBrush {
    center: Vec3,
    radius: f32,
    mode: BrushMode,
    direction: Vec3,
    displace: bool,
    workbench_y: Option<f32>,
}

/// The field of a spherical brush: distances to the sphere, or whole samples where
/// the brush bulges.
fn sphere_field(grid: &Grid, brush: &SphereBrush) -> Option<Field> {
    let vs = voxel_size(grid);
    let (r, c) = (brush.radius, brush.center);
    let ring = if brush.displace { r * 0.45 } else { 0.0 };
    let bounds = footprint(grid, c, Vec3::splat(r + ring + vs))?;
    let bulges = brush.displace && matches!(brush.mode, BrushMode::Press);
    let band = ring * 1.2 + vs;
    Some(field(grid, bounds, brush.workbench_y, |p, old, _| {
        let d = (p - c).length() - r;
        if !bulges {
            return Some(d);
        }
        let mut new = old.max(-d);
        if d > 0.0 && d < ring {
            let surface = (1.0 - (old.abs() / band).min(1.0)).max(0.0);
            let inner = (1.0 - d / ring) * (1.0 - d / ring);
            let cos = ((p - c) * (1.0 / (d + r).max(1e-6))).dot(brush.direction);
            let sideways = ((1.0 - cos) * 0.5).clamp(0.0, 1.0);
            new -= r * 0.18 * inner * surface * sideways;
        }
        Some(new)
    }))
}

fn sphere_brush(grid: &mut Grid, brush: &SphereBrush) -> Option<DirtyRegion> {
    let field = sphere_field(grid, brush)?;
    if brush.displace && matches!(brush.mode, BrushMode::Press) {
        apply_displacing_brush(grid, &field, &mut Vec::new())
    } else {
        apply_sphere_brush(grid, brush.mode, &field)
    }
}

#[derive(Copy, Clone, Debug)]
enum PrimitiveKind {
    Sphere { radius: f32 },
    Box { half_extents: Vec3 },
    Cylinder { radius: f32, half_height: f32 },
    Torus { major: f32, minor: f32 },
}

impl PrimitiveKind {
    fn sdf(&self, p: Vec3) -> f32 {
        match *self {
            PrimitiveKind::Sphere { radius } => p.length() - radius,
            PrimitiveKind::Box { half_extents } => {
                let q = p.abs() - half_extents;
                q.max(Vec3::ZERO).length() + q.max_element().min(0.0)
            }
            PrimitiveKind::Cylinder { radius, half_height } => {
                let side = Vec2::new(p.x, p.z).length() - radius;
                let cap = p.y.abs() - half_height;
                Vec2::new(side.max(0.0), cap.max(0.0)).length() + side.max(cap).min(0.0)
            }
            PrimitiveKind::Torus { major, minor } => {
                let tube = Vec2::new(p.x, p.z).length() - major;
                Vec2::new(tube, p.y).length() - minor
            }
        }
    }

    fn half_extents(&self) -> Vec3 {
        match *self {
            PrimitiveKind::Sphere { radius } => Vec3::splat(radius),
            PrimitiveKind::Box { half_extents } => half_extents,
            PrimitiveKind::Cylinder { radius, half_height } => Vec3::new(radius, half_height, radius),
            PrimitiveKind::Torus { major, minor } => Vec3::new(major + minor, minor, major + minor),
        }
    }
}

fn primitive_field(
    grid: &Grid,
    kind: PrimitiveKind,
    center: Vec3,
    workbench_y: Option<f32>,
) -> Option<Field> {
    let bounds = footprint(grid, center, kind.half_extents() + Vec3::splat(voxel_size(grid)))?;
    Some(field(grid, bounds, workbench_y, |p, _, _| Some(kind.sdf(p - center))))
}

/// How high clay of a plasticity stands before it slumps.
fn stable_height(plasticity: f32) -> u32 {
    let p = plasticity.clamp(0.0, 1.0);
    (2.0 + (1.0 - p).powi(2) * 48.0).round().max(2.0) as u32
}

/// Samples by squared distance from the heap, in voxels.
fn settle_band(voxel_size: f32) -> Vec<u32> {
    (0..=BAND_END).map(|d| ((d as f32).sqrt().min(4.0) * voxel_size).to_bits()).collect()
}

/// How much a contact wants a column to the side: none face-on, all at the equator.
fn clay_column_weight(into_surface: Vec3, view_dir: Vec3) -> f32 {
    let outward = -into_surface;
    let side = 1.0 - outward.dot(-view_dir).clamp(0.0, 1.0);
    let flatness = Vec3::new(outward.x, 0.0, outward.z).length().clamp(0.0, 1.0);
    side * flatness * flatness
}

/// Where the clay brush sits for a contact.
fn clay_brush_center(
    hit: Vec3,
    into_surface: Vec3,
    view_dir: Vec3,
    size: f32,
    advance: f32,
    adding: bool,
) -> Vec3 {
    let shallow = (size - advance).max(size * 0.5);
    if !adding {
        return hit - into_surface * shallow;
    }
    let column = clay_column_weight(into_surface, view_dir);
    let sideways = Vec3::new(-into_surface.x, 0.0, -into_surface.z);
    let flatness = sideways.length().clamp(0.0, 1.0);
    let embed = shallow * (1.0 - column) + size * 0.15 * column;
    let push = (advance * 4.0 + size * 0.05) * column * column;
    let push_dir = if flatness > 1e-3 { sideways / flatness } else { Vec3::ZERO };
    hit + into_surface * embed + push_dir * push
}

fn put(grid: &mut Grid, ix: u32, iy: u32, iz: u32, v: f32) {
    grid.set(ix, iy, iz, v.to_bits());
}

fn sphere(centre: Vec3) -> Grid {
    sphere_grid(UVec3::new(64, 64, 64), 1.0, Vec3::ZERO, centre, 6.0)
}

fn one_layer(grid: Grid) -> LayersState {
    LayersState::new(grid, 0)
}

fn push(state: &mut LayersState, grid: Grid, name: &str) -> u32 {
    state.push_new_layer(grid, 0, name.to_string())
}

/// The layer whose surface a ray meets first, and where.
fn march_visible(state: &LayersState, from: Vec3, dir: Vec3, max_dist: f32) -> Option<(usize, Vec3)> {
    let points: Vec<Option<Vec3>> =
        state.layers().iter().map(|l| ray_march(&l.grid, from, dir, max_dist)).collect();
    let hits: Vec<Option<u32>> =
        points.iter().map(|p| p.map(|p| (p - from).length_squared().to_bits())).collect();
    let i = state.ray_march_visible(&hits)?;
    Some((i, points[i]?))
}

#[test]
fn push_new_layer_keeps_both_layers_and_union_preserves_both() {
    let mut state = one_layer(sphere(Vec3::new(16.0, 16.0, 16.0)));
    assert_eq!(state.layer_count(), 1);
    assert_eq!(state.active_index(), 0);

    let second = sphere(Vec3::new(48.0, 48.0, 48.0));
    let id = push(&mut state, second, "Layer 2");
    assert_eq!(state.layer_count(), 2);
    assert_eq!(state.active_index(), 1);
    assert_eq!(state.active_id(), id);

    assert!(sample(state.grid(), Vec3::new(48.0, 48.0, 48.0)) < 0.0);
    assert!(sample(state.grid(), Vec3::new(16.0, 16.0, 16.0)) > 0.0);

    let flattened = state.visible_union_grid();
    assert!(sample(&flattened, Vec3::new(16.0, 16.0, 16.0)) < 0.0, "first layer's sphere must survive the union");
    assert!(sample(&flattened, Vec3::new(48.0, 48.0, 48.0)) < 0.0, "second layer's sphere must survive the union");
}

#[test]
fn hidden_layer_is_excluded_from_visible_union() {
    let mut state = one_layer(sphere(Vec3::new(16.0, 16.0, 16.0)));
    push(&mut state, sphere(Vec3::new(48.0, 48.0, 48.0)), "Layer 2");
    state.layers[0].visible = false;

    let flattened = state.visible_union_grid();
    assert!(
        sample(&flattened, Vec3::new(16.0, 16.0, 16.0)) > 0.0,
        "hidden layer's material must not appear in the union"
    );
    assert!(sample(&flattened, Vec3::new(48.0, 48.0, 48.0)) < 0.0);
}

#[test]
fn ray_march_visible_finds_the_closest_hit_across_layers() {
    let mut state = one_layer(sphere(Vec3::new(16.0, 32.0, 32.0)));
    push(&mut state, sphere(Vec3::new(48.0, 32.0, 32.0)), "Layer 2");
    let hit = march_visible(&state, Vec3::new(-10.0, 32.0, 32.0), Vec3::X, 200.0);
    let (idx, point) = hit.expect("ray should hit the near sphere");
    assert_eq!(idx, 0, "closest hit should be the near sphere's layer, not the active one");
    assert!((point.x - 10.0).abs() < 1.5, "hit should land on the near sphere, x~10, got {point:?}");
}

#[test]
fn ray_march_visible_skips_hidden_layers() {
    let mut state = one_layer(sphere(Vec3::new(16.0, 32.0, 32.0)));
    push(&mut state, sphere(Vec3::new(48.0, 32.0, 32.0)), "Layer 2");
    state.layers[0].visible = false;
    let hit = march_visible(&state, Vec3::new(-10.0, 32.0, 32.0), Vec3::X, 200.0);
    let (idx, _) = hit.expect("ray should hit the far (visible) sphere");
    assert_eq!(idx, 1, "hidden layer must be skipped even though it's physically closer");
}

#[test]
fn merge_down_unions_into_below_and_drops_source() {
    let mut state = one_layer(sphere(Vec3::new(16.0, 16.0, 16.0)));
    push(&mut state, sphere(Vec3::new(48.0, 48.0, 48.0)), "Layer 2");
    assert_eq!(state.active_index(), 1);

    let record = state
        .merge_down_active()
        .expect("active layer 1 should merge into layer 0");
    assert_eq!(record.src_index, 1);
    assert_eq!(record.dst_index, 0);
    assert_eq!(state.layer_count(), 1);
    assert_eq!(state.active_index(), 0);
    assert!(sample(state.grid(), Vec3::new(16.0, 16.0, 16.0)) < 0.0);
    assert!(sample(state.grid(), Vec3::new(48.0, 48.0, 48.0)) < 0.0);
}

#[test]
fn merge_down_on_bottom_layer_is_noop() {
    let mut state = one_layer(sphere(Vec3::new(16.0, 16.0, 16.0)));
    assert!(state.merge_down_active().is_none());
    assert_eq!(state.layer_count(), 1);
}

#[test]
fn delete_layer_refuses_last_and_restores_via_snapshot() {
    let mut state = one_layer(sphere(Vec3::new(16.0, 16.0, 16.0)));
    assert!(state.delete_layer(0).is_none(), "cannot delete the last layer");

    push(&mut state, sphere(Vec3::new(48.0, 48.0, 48.0)), "Layer 2");
    let (snap, prev_active) = state.delete_layer(1).expect("second layer is deletable");
    assert_eq!(prev_active, 1);
    assert_eq!(state.layer_count(), 1);
    assert_eq!(snap.name, "Layer 2");
    assert!(sample(&snap.grid, Vec3::new(48.0, 48.0, 48.0)) < 0.0);

    state.restore_layer_at(1, snap);
    state.set_active_index(prev_active);
    assert_eq!(state.layer_count(), 2);
    assert_eq!(state.active_index(), 1);
    assert!(sample(state.grid(), Vec3::new(48.0, 48.0, 48.0)) < 0.0);
}

#[test]
fn reset_to_empty_single_layer_drops_extras() {
    let mut state = one_layer(sphere(Vec3::new(16.0, 16.0, 16.0)));
    push(&mut state, sphere(Vec3::new(48.0, 48.0, 48.0)), "Layer 2");
    state.reset_to_empty_single_layer();
    assert_eq!(state.layer_count(), 1);
    assert_eq!(state.active_index(), 0);
    assert_eq!(state.active_layer().name, "Layer 1");
    assert!(
        state.grid().allocated_tile_count() == 0,
        "cleared worktable must be empty"
    );
}

#[test]
fn rename_and_visibility_helpers() {
    let mut state = one_layer(sphere(Vec3::new(16.0, 16.0, 16.0)));
    assert!(state.rename_layer(0, "Base"));
    assert_eq!(state.active_layer().name, "Base");
    assert!(!state.rename_layer(0, "   "), "whitespace-only names rejected");
    assert!(state.set_visible(0, false));
    assert!(!state.layers()[0].visible);
}

#[test]
fn showing_a_hidden_layer_redirties_allocated_chunks() {
    let mut state = one_layer(sphere(Vec3::new(16.0, 16.0, 16.0)));
    state.layers[0].dirty.clear();
    assert!(state.set_visible(0, false));
    assert!(
        state.layers[0].dirty.len() == 0,
        "hiding must not invent dirty work"
    );
    assert!(state.set_visible(0, true));
    let allocated = state.layers[0].grid.allocated_chunk_coords().len();
    assert!(allocated > 0, "test sphere must allocate tiles");
    assert_eq!(
        state.layers[0].dirty.len(),
        allocated,
        "showing again must dirty every allocated chunk so remesh respawns meshes"
    );
}

#[test]
fn replace_from_scene_restores_multi_layer_stack() {
    let mut state = one_layer(sphere(Vec3::new(16.0, 16.0, 16.0)));
    push(&mut state, sphere(Vec3::new(48.0, 48.0, 48.0)), "L2");
    state.set_visible(0, false);

    let layers: Vec<_> = state
        .layers()
        .iter()
        .map(|l| (l.id, l.name.clone(), l.visible, l.grid.clone()))
        .collect();
    let active = state.active_index();

    let mut fresh = one_layer(empty_grid(UVec3::new(64, 64, 64), 1.0, Vec3::ZERO));
    fresh
        .replace_from_scene(layers, active)
        .expect("same domain");
    assert_eq!(fresh.layer_count(), 2);
    assert_eq!(fresh.active_index(), 1);
    assert!(!fresh.layers()[0].visible);
    assert_eq!(fresh.layers()[1].name, "L2");
    assert!(sample(fresh.grid(), Vec3::new(48.0, 48.0, 48.0)) < 0.0);
}

fn empty_bench_workpiece() -> LayersState {
    one_layer(empty_grid(UVec3::new(64, 64, 64), 1.0, Vec3::new(-32.0, 0.0, -32.0)))
}

fn tool_sized(size: f32) -> SculptTool {
    SculptTool { size: size.to_bits(), ..SculptTool::default() }
}

/// Highest y of any solid voxel.
fn solid_peak_y(grid: &Grid) -> f32 {
    let mut peak = f32::NEG_INFINITY;
    for coord in grid.allocated_chunk_coords() {
        let base = coord.voxel_min();
        let max = coord.voxel_max(grid.res());
        for iz in base.z..max.z {
            for iy in base.y..max.y {
                for ix in base.x..max.x {
                    if value(grid, ix, iy, iz) < 0.0 {
                        let y = origin(grid).y + (iy as f32 + 0.5) * voxel_size(grid);
                        peak = peak.max(y);
                    }
                }
            }
        }
    }
    peak
}

fn bench_blob(grid: &Grid, size: f32, bench: Vec3) -> Field {
    let brush = SphereBrush {
        center: Vec3::new(bench.x, size, bench.z),
        radius: size,
        mode: BrushMode::Pull,
        direction: Vec3::NEG_Y,
        displace: false,
        workbench_y: Some(0.0),
    };
    sphere_field(grid, &brush).expect("the bench is in the domain")
}

fn bench_add(state: &mut LayersState, stroke: &mut SculptStroke, size: f32, bench: Vec3) {
    let blob = bench_blob(state.grid(), size, bench);
    empty_bench_add(state, stroke, bits_of(bench), &blob, None);
}

#[test]
fn empty_bench_add_latches_bench_paint() {
    let mut workpiece = empty_bench_workpiece();
    let mut stroke = SculptStroke::new();
    let size = 8.0;
    bench_add(&mut workpiece, &mut stroke, size, Vec3::new(10.0, 0.0, 0.0));
    assert!(stroke.bench_paint, "first empty-bench stamp must latch");
    assert!(stroke.last_clay_hit.is_some());
    let peak = solid_peak_y(workpiece.grid());
    assert!(
        (peak - 2.0 * size).abs() < 1.5,
        "blob sitting on the bench should peak near 2*size, got {peak}"
    );
}

#[test]
fn bench_coil_stamps_stay_level_while_overlapping() {
    let mut workpiece = empty_bench_workpiece();
    let mut stroke = SculptStroke::new();
    let size = 8.0;
    let radius = 14.0;
    for i in 0..24 {
        let a = (i as f32) * std::f32::consts::TAU / 24.0;
        let x = radius * a.cos();
        let z = radius * a.sin();
        bench_add(&mut workpiece, &mut stroke, size, Vec3::new(x, 0.0, z));
        assert!(stroke.bench_paint);
    }
    let peak = solid_peak_y(workpiece.grid());
    let expected = 2.0 * size;
    assert!(
        (peak - expected).abs() < 2.0,
        "coil on the bench must stay one bead thick (≈{expected}), got peak={peak}"
    );
}

#[test]
fn surface_path_after_bench_blob_creeps_upward() {
    let mut workpiece = empty_bench_workpiece();
    let tool = tool_sized(8.0);
    let size = f32::from_bits(tool.size);
    let blob = bench_blob(workpiece.grid(), size, Vec3::ZERO);
    let _ = apply_sphere_brush(workpiece.grid_mut(), BrushMode::Pull, &blob);
    let after_bench = solid_peak_y(workpiece.grid());

    let into = Vec3::NEG_Y;
    let view = Vec3::NEG_Y;
    for _ in 0..12 {
        let hit = Vec3::new(0.0, solid_peak_y(workpiece.grid()), 0.0);
        let advance = f32::from_bits(tool.advance_per_step);
        let brush = SphereBrush {
            center: clay_brush_center(hit, into, view, size, advance, true),
            radius: size,
            mode: BrushMode::Pull,
            direction: into,
            displace: tool.displace,
            workbench_y: Some(0.0),
        };
        let _ = sphere_brush(workpiece.grid_mut(), &brush);
    }
    let after_surface = solid_peak_y(workpiece.grid());
    assert!(
        after_surface > after_bench + 2.0,
        "surface tip-chase should climb (bench peak {after_bench}, after {after_surface})"
    );
}

fn cube(at: UVec3, side: u32) -> Grid {
    let mut g = empty_grid(UVec3::splat(32), 1.0, Vec3::ZERO);
    for iz in at.z..at.z + side {
        for iy in at.y..at.y + side {
            for ix in at.x..at.x + side {
                put(&mut g, ix, iy, iz, -1.0);
            }
        }
    }
    g
}

fn solids(grid: &Grid) -> Vec<(u32, u32, u32)> {
    let res = grid.res();
    let mut list = Vec::new();
    for iz in 0..res.z {
        for iy in 0..res.y {
            for ix in 0..res.x {
                if value(grid, ix, iy, iz) < 0.0 {
                    list.push((ix, iy, iz));
                }
            }
        }
    }
    list
}

fn one_voxel_field(at: (u32, u32, u32), v: f32) -> Field {
    Field {
        lo: UVec3::new(at.0, at.1, at.2),
        hi: UVec3::new(at.0 + 1, at.1 + 1, at.2 + 1),
        values: vec![Some(v.to_bits())],
        floors: None,
    }
}

fn pointer(held: bool, pressed: bool, released: bool) -> Pointer {
    Pointer { held, pressed, released, over_ui: false }
}

#[test]
fn a_stroke_is_undone_and_redone_as_one() {
    let mut state = one_layer(cube(UVec3::splat(10), 4));
    let mut stroke = SculptStroke::new();
    let mut history = UndoHistory::new();
    let mut selection = Selection::new();
    let start = state.grid().to_dense();
    let clay = ToolKind::Clay;
    assert!(pointer_frame(clay, pointer(true, true, false), &mut stroke, &state, &mut history, &mut selection));
    apply_at(&mut state, &mut stroke, clay, false, false, &one_voxel_field((10, 10, 10), -4.0));
    apply_at(&mut state, &mut stroke, clay, false, false, &one_voxel_field((11, 10, 10), -4.0));
    apply_at(&mut state, &mut stroke, clay, true, false, &one_voxel_field((10, 10, 10), -9.0));
    let end = state.grid().to_dense();
    assert!(!pointer_frame(clay, pointer(false, false, true), &mut stroke, &state, &mut history, &mut selection));
    assert_eq!(history.undo.len(), 1);
    state.layers[0].dirty.clear();
    assert!(history.undo(&mut state));
    assert_eq!(state.grid().to_dense(), start);
    assert!(state.layers[0].dirty.contains(ChunkCoord::new(0, 0, 0)));
    assert!(!history.undo(&mut state));
    assert!(history.redo(&mut state));
    assert_eq!(state.grid().to_dense(), end);
    assert!(!history.redo(&mut state));
}

#[test]
fn a_stroke_that_wrote_nothing_leaves_no_entry() {
    let state = one_layer(cube(UVec3::splat(10), 4));
    let mut stroke = SculptStroke::new();
    let mut history = UndoHistory::new();
    let mut selection = Selection::new();
    stroke.begin();
    finish_stroke(&mut stroke, &state, &mut history, &mut selection);
    assert!(history.undo.is_empty());
    assert!(stroke.recorder.is_none());
}

#[test]
fn history_is_capped_and_a_new_entry_drops_what_was_undone() {
    let mut state = one_layer(cube(UVec3::splat(10), 4));
    let mut history = UndoHistory::new();
    for i in 0..MAX_HISTORY as u32 + 3 {
        let mut rec = StrokeRecorder::new();
        rec.record_pre_value(i % 32, 0, 0, FAR);
        let entry = rec.finish(state.grid(), 0).unwrap();
        history.push_stroke(entry);
    }
    assert_eq!(history.undo.len(), MAX_HISTORY);
    assert!(history.undo(&mut state));
    assert_eq!(history.redo.len(), 1);
    let mut rec = StrokeRecorder::new();
    rec.record_pre_value(1, 1, 1, FAR);
    rec.record_pre_value(1, 1, 1, 0);
    let entry = rec.finish(state.grid(), 0).unwrap();
    assert_eq!(entry.edits.len(), 1);
    assert_eq!(entry.edits[0].pre, FAR);
    history.push_stroke(entry);
    assert!(history.redo.is_empty());
    history.clear();
    assert!(history.undo.is_empty());
}

#[test]
fn keys_of_different_voxels_differ() {
    assert_ne!(pack_key(1 << 20, 0, 0), pack_key(0, 1, 0));
    assert_ne!(pack_key(0, 1 << 20, 0), pack_key(0, 0, 1));
    assert_eq!(chunk_of_voxel(31, 32, 95), ChunkCoord::new(0, 1, 2));
}

#[test]
fn deleting_a_layer_can_be_undone_and_redone() {
    let mut state = one_layer(cube(UVec3::splat(2), 2));
    push(&mut state, cube(UVec3::splat(8), 2), "Top");
    let mut history = UndoHistory::new();
    let mut stroke = SculptStroke::new();
    let mut selection = Selection::new();
    selection.picked_voxel = Some((8, 8, 8));
    assert!(delete_layer_now(&mut state, &mut history, &mut stroke, &mut selection, 1));
    assert_eq!(state.layer_count(), 1);
    assert!(selection.picked_voxel.is_none());
    assert!(!delete_layer_now(&mut state, &mut history, &mut stroke, &mut selection, 0));
    assert!(history.undo(&mut state));
    assert_eq!(state.layer_count(), 2);
    assert_eq!(state.active_index(), 1);
    assert_eq!(state.active_layer().name, "Top");
    assert_eq!(solids(state.grid()).len(), 8);
    assert!(history.redo(&mut state));
    assert_eq!(state.layer_count(), 1);
}

#[test]
fn merging_down_can_be_undone_and_redone() {
    let mut state = one_layer(cube(UVec3::splat(2), 2));
    push(&mut state, cube(UVec3::splat(3), 2), "Top");
    let below = state.layers()[0].grid.to_dense();
    let top = state.layers()[1].grid.to_dense();
    let mut history = UndoHistory::new();
    let mut stroke = SculptStroke::new();
    let mut selection = Selection::new();
    assert!(merge_down_now(&mut state, &mut history, &mut stroke, &mut selection));
    let merged = state.grid().to_dense();
    assert_eq!(solids(state.grid()).len(), 15);
    assert!(history.undo(&mut state));
    assert_eq!(state.layer_count(), 2);
    assert_eq!(state.layers()[0].grid.to_dense(), below);
    assert_eq!(state.layers()[1].grid.to_dense(), top);
    assert_eq!(state.layers()[1].name, "Top");
    assert!(history.redo(&mut state));
    assert_eq!(state.grid().to_dense(), merged);
    assert!(!merge_down_now(&mut state, &mut history, &mut stroke, &mut selection));
}

#[test]
fn a_saved_project_loads_as_it_was() {
    let mut state = one_layer(cube(UVec3::splat(2), 2));
    push(&mut state, cube(UVec3::splat(9), 3), "Über");
    state.set_visible(0, false);
    let bytes = save_project(&state).unwrap();
    let mut fresh = one_layer(empty_grid(UVec3::splat(32), 1.0, Vec3::ZERO));
    let mut history = UndoHistory::new();
    let mut stroke = SculptStroke::new();
    let mut selection = Selection::new();
    selection.picked_voxel = Some((1, 1, 1));
    let n = load_project(&bytes, &mut fresh, &mut history, &mut stroke, &mut selection);
    assert!(matches!(n, Ok(2)));
    assert_eq!(fresh.active_index(), 1);
    assert!(selection.picked_voxel.is_none());
    for i in 0..2 {
        assert_eq!(fresh.layers()[i].id, state.layers()[i].id);
        assert_eq!(fresh.layers()[i].name, state.layers()[i].name);
        assert_eq!(fresh.layers()[i].visible, state.layers()[i].visible);
        assert_eq!(fresh.layers()[i].grid.to_dense(), state.layers()[i].grid.to_dense());
    }
}

#[test]
fn a_file_that_does_not_fit_leaves_the_workpiece_alone() {
    let other = one_layer(empty_grid(UVec3::splat(16), 1.0, Vec3::ZERO));
    let bytes = save_project(&other).unwrap();
    let mut state = one_layer(cube(UVec3::splat(2), 2));
    let before = state.grid().to_dense();
    let mut history = UndoHistory::new();
    let mut stroke = SculptStroke::new();
    let mut selection = Selection::new();
    match load_project(&bytes, &mut state, &mut history, &mut stroke, &mut selection) {
        Err(LoadError::Swap(e)) => {
            assert_eq!(
                e,
                GridSwapError::ResolutionMismatch {
                    current: UVec3::splat(32),
                    incoming: UVec3::splat(16),
                }
            );
            assert_eq!(
                e.message("1", "1"),
                "grid resolution mismatch: current 32x32x32, incoming 16x16x16"
            );
        }
        _ => panic!("another resolution should be refused"),
    }
    match load_project(&bytes[..10], &mut state, &mut history, &mut stroke, &mut selection) {
        Err(LoadError::Read(e)) => assert!(matches!(e, ReadError::Io(IoKind::UnexpectedEof))),
        _ => panic!("half a header should be refused"),
    }
    assert_eq!(state.grid().to_dense(), before);
}

#[test]
fn grids_that_do_not_fit_are_not_swapped_in() {
    let mut state = one_layer(cube(UVec3::splat(2), 2));
    let coarse = empty_grid(UVec3::splat(32), 2.0, Vec3::ZERO);
    let e = state.swap_active_grid(coarse).unwrap_err();
    assert_eq!(
        e,
        GridSwapError::VoxelSizeMismatch { current: 1.0f32.to_bits(), incoming: 2.0f32.to_bits() }
    );
    assert_eq!(e.message("1", "2"), "voxel size mismatch: current 1 mm, incoming 2 mm");
    assert_eq!(solids(state.grid()).len(), 8);
    let e = state.replace_from_scene(Vec::new(), 0).unwrap_err();
    assert_eq!(e, GridSwapError::EmptyScene);
    assert_eq!(e.message("", ""), "invalid project scene (no layers or bad active index)");
    let layer = (0, "a".to_string(), true, cube(UVec3::splat(1), 1));
    assert_eq!(state.replace_from_scene(vec![layer], 1).unwrap_err(), GridSwapError::EmptyScene);
    assert!(state.swap_active_grid(cube(UVec3::splat(20), 1)).is_ok());
    assert_eq!(solids(state.grid()), vec![(20, 20, 20)]);
}

#[test]
fn messages_of_scenes_that_cannot_be_written() {
    assert_eq!(WriteError::EmptyScene.message(), "cannot write an empty project scene");
    assert_eq!(WriteError::ActiveOutOfRange.message(), "active layer index out of range");
    assert_eq!(WriteError::DomainMismatch.message(), "all layers must share the same domain");
    assert_eq!(WriteError::NoVolume.message(), "cannot write a domain without voxels");
    assert_eq!(WriteError::TooManyLayers.message(), "a project holds at most 256 layers");
    assert_eq!(WriteError::TooManyTiles.message(), "a layer holds at most 1048576 tiles");
}

#[test]
fn a_cleared_worktable_has_no_history() {
    let mut state = one_layer(cube(UVec3::splat(2), 2));
    let mut history = UndoHistory::new();
    let mut stroke = SculptStroke::new();
    let mut selection = Selection::new();
    selection.picked_voxel = Some((2, 2, 2));
    delete_selected_component(&mut state, &mut selection, &mut history, &mut stroke);
    assert_eq!(history.undo.len(), 1);
    clear_worktable(&mut state, &mut history, &mut stroke, &mut selection);
    assert!(history.undo.is_empty());
    assert_eq!(state.layer_count(), 1);
    assert!(solids(state.grid()).is_empty());
}

#[test]
fn a_selected_piece_is_deleted_and_comes_back() {
    let mut g = cube(UVec3::splat(4), 2);
    put(&mut g, 20, 20, 20, -1.0);
    let before = g.to_dense();
    let mut state = one_layer(g);
    let mut selection = Selection::new();
    let mut history = UndoHistory::new();
    let mut stroke = SculptStroke::new();
    assert!(!delete_selected_component(&mut state, &mut selection, &mut history, &mut stroke));
    assert!(!selection.pick(state.grid(), 0, 0, 0));
    assert!(selection.pick(state.grid(), 5, 5, 5));
    assert_eq!(selection.selected_bounds(state.grid()), Some((UVec3::splat(4), UVec3::splat(6))));
    assert!(delete_selected_component(&mut state, &mut selection, &mut history, &mut stroke));
    assert_eq!(solids(state.grid()), vec![(20, 20, 20)]);
    assert_eq!(value(state.grid(), 5, 5, 5), 32.0);
    assert!(selection.picked_voxel.is_none());
    assert!(history.undo(&mut state));
    assert_eq!(state.grid().to_dense(), before);
}

#[test]
fn active_only_keeps_stamps_on_the_selected_piece() {
    let mut g = cube(UVec3::splat(4), 2);
    put(&mut g, 20, 20, 20, -1.0);
    let mut selection = Selection::new();
    assert!(selection.stamp_allowed(&g, Some((20, 20, 20))));
    selection.pick(&g, 5, 5, 5);
    selection.toggle_active_only();
    assert!(selection.stamp_allowed(&g, Some((4, 4, 4))));
    assert!(!selection.stamp_allowed(&g, Some((20, 20, 20))));
    assert!(!selection.stamp_allowed(&g, None));
}

#[test]
fn a_piece_moves_by_whole_voxels_with_one_undo() {
    let mut state = one_layer(cube(UVec3::splat(4), 2));
    let before = state.grid().to_dense();
    let mut selection = Selection::new();
    let mut history = UndoHistory::new();
    let mut stroke = SculptStroke::new();
    let delta = IVec3::new(5, 0, -1);
    let far = 26.0f32.to_bits();
    assert!(!apply_move(far, delta, &mut state, &mut selection, &mut history, &mut stroke));
    selection.picked_voxel = Some((4, 4, 4));
    assert!(!apply_move(0, delta, &mut state, &mut selection, &mut history, &mut stroke));
    assert!(apply_move(far, delta, &mut state, &mut selection, &mut history, &mut stroke));
    assert_eq!(selection.picked_voxel, Some((9, 4, 3)));
    assert_eq!(solids(state.grid())[0], (9, 4, 3));
    assert_eq!(solids(state.grid()).len(), 8);
    assert!(history.undo(&mut state));
    assert_eq!(solids(state.grid()), solids(&Grid::from_samples(
        UVec3::splat(32),
        1.0f32.to_bits(),
        bits_of(Vec3::ZERO),
        before,
    ).unwrap()));
}

#[test]
fn a_selected_piece_snaps_to_the_bench() {
    let mut g = cube(UVec3::splat(4), 2);
    put(&mut g, 20, 20, 20, -1.0);
    let mut state = one_layer(g);
    let mut selection = Selection::new();
    let mut history = UndoHistory::new();
    let mut stroke = SculptStroke::new();
    assert!(!snap_selection_to_workbench(&mut state, &mut selection, &mut history, &mut stroke));
    selection.picked_voxel = Some((5, 5, 5));
    assert!(snap_selection_to_workbench(&mut state, &mut selection, &mut history, &mut stroke));
    assert_eq!(selection.picked_voxel, Some((5, 1, 5)));
    assert_eq!(solids(state.grid())[0], (4, 0, 4));
    assert!(solids(state.grid()).contains(&(20, 20, 20)));
    assert_eq!(history.undo.len(), 1);
    assert!(!snap_selection_to_workbench(&mut state, &mut selection, &mut history, &mut stroke));
    assert!(history.undo(&mut state));
    assert_eq!(solids(state.grid())[0], (4, 4, 4));
}

#[test]
fn frames_of_a_drag_do_not_add_up() {
    let mut state = one_layer(cube(UVec3::splat(4), 2));
    let mut selection = Selection::new();
    let mut history = UndoHistory::new();
    selection.picked_voxel = Some((4, 4, 4));
    let zero = bits_of(Vec3::ZERO);
    let start = state.grid().to_dense();
    let mut drag = start_drag(state.grid(), &selection, Axis::X, 0, zero).unwrap();
    for x in [1, 7, 20, 3] {
        apply_preview(&mut drag, &mut state, IVec3::new(x, 0, 0));
        assert_eq!(solids(state.grid())[0], (4 + x as u32, 4, 4));
        assert_eq!(solids(state.grid()).len(), 8);
    }
    let (lo, hi, shown) = drag.active_drag_bounds_and_delta(IVec3::new(3, 0, 0));
    assert_eq!((lo, hi, shown), (UVec3::splat(4), UVec3::splat(6), IVec3::new(3, 0, 0)));
    assert!(commit_drag(drag, IVec3::new(2, 0, 0), &mut state, &mut selection, &mut history));
    assert_eq!(solids(state.grid())[0], (6, 4, 4));
    assert_eq!(selection.picked_voxel, Some((6, 4, 4)));
    assert_eq!(history.undo.len(), 1);
    assert!(history.undo(&mut state));
    assert_eq!(state.grid().to_dense(), start);
}

#[test]
fn frames_of_a_drag_mark_what_they_show() {
    let mut g = empty_grid(UVec3::new(96, 32, 32), 1.0, Vec3::ZERO);
    put(&mut g, 10, 10, 10, -1.0);
    put(&mut g, 11, 10, 10, -1.0);
    let mut state = one_layer(g);
    let mut selection = Selection::new();
    selection.picked_voxel = Some((10, 10, 10));
    let zero = bits_of(Vec3::ZERO);
    let (near, far) = (ChunkCoord::new(0, 0, 0), ChunkCoord::new(2, 0, 0));

    let mut drag = start_drag(state.grid(), &selection, Axis::X, 0, zero).unwrap();
    state.layers[0].dirty.clear();
    apply_preview(&mut drag, &mut state, IVec3::new(70, 0, 0));
    assert!(state.layers[0].dirty.contains(near) && state.layers[0].dirty.contains(far));
    state.layers[0].dirty.clear();
    apply_preview(&mut drag, &mut state, IVec3::new(1, 0, 0));
    assert!(state.layers[0].dirty.contains(near) && state.layers[0].dirty.contains(far));
    cancel_drag(drag, &mut state);

    let mut turn = start_turn(state.grid(), &selection, Axis::Y, 0, zero).unwrap();
    state.layers[0].dirty.clear();
    preview_turn(&mut turn, &mut state, IVec3::new(0, 1, 0));
    assert!(state.layers[0].dirty.contains(near) && !state.layers[0].dirty.contains(far));
}

#[test]
fn a_drag_that_is_given_up_leaves_no_trace() {
    let mut state = one_layer(cube(UVec3::splat(4), 2));
    let mut selection = Selection::new();
    selection.picked_voxel = Some((4, 4, 4));
    let start = state.grid().to_dense();
    let typed = bits_of(Vec3::new(1.0, 2.0, 3.0));
    let mut drag = start_drag(state.grid(), &selection, Axis::Z, 0, typed).unwrap();
    apply_preview(&mut drag, &mut state, IVec3::new(0, 0, 9));
    assert_eq!(cancel_drag(drag, &mut state), typed);
    assert_eq!(state.grid().to_dense(), start);
    selection.picked_voxel = Some((0, 0, 0));
    assert!(start_drag(state.grid(), &selection, Axis::Z, 0, typed).is_none());
}

#[test]
fn the_nearest_arrow_is_grabbed() {
    let pass = |axis, distance: f32, t_axis: f32| ArrowPass {
        axis,
        distance: distance.to_bits(),
        t_ray: 1.0f32.to_bits(),
        t_axis: t_axis.to_bits(),
    };
    let passes = vec![pass(Axis::X, 5.0, 10.0), pass(Axis::Y, 2.0, 70.0), pass(Axis::Z, 3.0, 0.0)];
    assert_eq!(pick_arrow(&passes), Some(2));
    assert_eq!(pick_arrow(&vec![pass(Axis::X, 6.5, 10.0)]), None);
    assert_eq!(pick_arrow(&vec![pass(Axis::X, 6.0, 60.0)]), Some(0));
}

#[test]
fn arrows_follow_the_pointer() {
    let down = pointer(true, true, false);
    let up = pointer(false, false, true);
    assert_eq!(gizmo_frame(ToolKind::Move, down, false, true), GizmoStep::TryStart);
    assert_eq!(gizmo_frame(ToolKind::Move, down, false, false), GizmoStep::Idle);
    assert_eq!(gizmo_frame(ToolKind::Move, down, true, true), GizmoStep::Update);
    assert_eq!(gizmo_frame(ToolKind::Move, up, true, true), GizmoStep::Commit);
    assert_eq!(gizmo_frame(ToolKind::Clay, down, true, true), GizmoStep::Cancel);
    assert_eq!(ring_frame(true, down, false, true), GizmoStep::TryStart);
    assert_eq!(ring_frame(true, up, true, true), GizmoStep::Commit);
    assert_eq!(ring_frame(false, up, true, true), GizmoStep::Cancel);
    assert_eq!(ring_frame(false, down, false, true), GizmoStep::Idle);
    assert_eq!(ring_frame(true, down, true, false), GizmoStep::Update);
}

#[test]
fn apply_rotate_turns_box_about_y() {
    let mut workpiece = one_layer(empty_grid(UVec3::new(64, 64, 64), 1.0, Vec3::ZERO));
    let kind = PrimitiveKind::Box { half_extents: Vec3::new(12.0, 4.0, 4.0) };
    let field = primitive_field(workpiece.grid(), kind, Vec3::new(32.0, 32.0, 32.0), None).unwrap();
    let _ = apply_primitive(workpiece.grid_mut(), &field);
    let mut selection = Selection::new();
    selection.picked_voxel = Some((40, 32, 32));
    let mut history = UndoHistory::new();
    let mut stroke = SculptStroke::new();

    let applied = apply_rotate(
        IVec3::new(0, 1, 0),
        &mut workpiece,
        &mut selection,
        &mut history,
        &mut stroke,
    );
    assert!(applied);
    assert!(sample(workpiece.grid(), Vec3::new(40.0, 32.0, 32.0)) > 0.0);
    assert!(
        sample(workpiece.grid(), Vec3::new(32.0, 32.0, 24.0)) < 0.0
            || sample(workpiece.grid(), Vec3::new(32.0, 32.0, 20.0)) < 0.0
    );
    assert_eq!(history.undo.len(), 1);
    assert_eq!(selection.picked_voxel, Some((32, 32, 24)));
}

#[test]
fn apply_rotate_noop_without_selection() {
    let mut workpiece = one_layer(sphere_grid(
        UVec3::new(32, 32, 32),
        1.0,
        Vec3::ZERO,
        Vec3::new(16.0, 16.0, 16.0),
        6.0,
    ));
    let mut selection = Selection::new();
    let mut history = UndoHistory::new();
    let mut stroke = SculptStroke::new();
    assert!(!apply_rotate(
        IVec3::new(0, 1, 0),
        &mut workpiece,
        &mut selection,
        &mut history,
        &mut stroke,
    ));
}

#[test]
fn a_dragged_ring_turns_from_the_start_and_is_undone() {
    let mut g = empty_grid(UVec3::splat(32), 1.0, Vec3::ZERO);
    for x in 14..20 {
        put(&mut g, x, 16, 16, -1.0);
    }
    let mut state = one_layer(g);
    let start = state.grid().to_dense();
    let mut selection = Selection::new();
    selection.picked_voxel = Some((14, 16, 16));
    let mut history = UndoHistory::new();
    let typed = bits_of(Vec3::new(0.0, 10.0, 0.0));
    let mut drag = start_turn(state.grid(), &selection, Axis::Y, 0, typed).unwrap();
    for k in [1, 2, 3, 4, 5] {
        preview_turn(&mut drag, &mut state, IVec3::new(0, k, 0));
        assert_eq!(solids(state.grid()).len(), 6);
    }
    assert!(solids(state.grid()).iter().all(|v| v.0 == 17));
    let shown = drag.active_drag_bounds_and_quarters(IVec3::new(0, 1, 0)).unwrap();
    assert_eq!(shown.0, UVec3::new(14, 16, 16));
    assert_eq!(shown.3, IVec3::new(17, 16, 16));
    assert!(commit_turn(drag, IVec3::new(0, 0, 1), &mut state, &mut selection, &mut history));
    assert_eq!(selection.picked_voxel, Some((17, 13, 16)));
    assert!(solids(state.grid()).iter().all(|v| v.0 == 17 && v.2 == 16));
    assert!(history.undo(&mut state));
    assert_eq!(solids(state.grid()).len(), 6);
    let mut drag = start_turn(state.grid(), &selection, Axis::Y, 0, typed);
    assert!(drag.is_none());
    selection.picked_voxel = Some((14, 16, 16));
    drag = start_turn(state.grid(), &selection, Axis::Y, 0, typed);
    let mut drag = drag.unwrap();
    preview_turn(&mut drag, &mut state, IVec3::new(1, 1, 0));
    assert_eq!(cancel_turn(drag, &mut state), typed);
    assert_eq!(state.grid().to_dense(), start);
}

#[test]
fn the_nearest_ring_is_grabbed() {
    let pass = |axis, distance: f32| RingPass { axis, distance: distance.to_bits(), angle: 0 };
    let passes = vec![pass(Axis::X, 8.5), pass(Axis::Y, 4.0), pass(Axis::Z, 4.0)];
    assert_eq!(pick_ring(&passes), Some(1));
    assert_eq!(pick_ring(&vec![pass(Axis::X, 8.5)]), None);
    assert_eq!(pick_ring(&vec![pass(Axis::X, 8.0)]), Some(0));
}

#[test]
fn pieces_rest_on_the_bench_with_one_undo() {
    let mut state = one_layer(cube(UVec3::splat(6), 2));
    let start = state.grid().to_dense();
    let mut history = UndoHistory::new();
    let mut stroke = SculptStroke::new();
    let mut selection = Selection::new();
    let summary = rest_on_bench_now(&mut state, &mut history, &mut stroke, &mut selection).unwrap();
    assert_eq!(summary.moved, 1);
    assert_eq!(solids(state.grid())[0], (6, 0, 6));
    assert_eq!(history.undo.len(), 1);
    assert!(history.undo(&mut state));
    assert_eq!(state.grid().to_dense(), start);
}

#[test]
fn clay_settles_with_one_undo() {
    let mut g = empty_grid(UVec3::splat(32), 1.0, Vec3::ZERO);
    for y in 0..20 {
        put(&mut g, 16, y, 16, -1.0);
    }
    let mut state = one_layer(g);
    let start = state.grid().to_dense();
    let mut history = UndoHistory::new();
    let mut stroke = SculptStroke::new();
    let mut selection = Selection::new();
    let params = PlasticSettleParams { plasticity: 1.0f32.to_bits(), iterations: 256 };
    let (limit, band) = (stable_height(1.0), settle_band(1.0));
    let summary = settle_plastic_now(
        &mut state,
        &mut history,
        &mut stroke,
        &mut selection,
        &params,
        limit,
        &band,
    );
    assert!(summary.unwrap().voxels_touched > 0);
    assert_eq!(solids(state.grid()).len(), 20);
    assert!(solids(state.grid()).iter().all(|v| v.1 < 2));
    assert!(history.undo(&mut state));
    assert_eq!(state.grid().to_dense(), start);
}

#[test]
fn an_inserted_primitive_is_selected_for_moving() {
    let mut state = one_layer(empty_grid(UVec3::splat(32), 1.0, Vec3::new(-16.0, 0.0, -16.0)));
    let mut history = UndoHistory::new();
    let mut stroke = SculptStroke::new();
    let mut selection = Selection::new();
    let mut tool = SculptTool::default();
    let kind = PrimitiveKind::Sphere { radius: 5.0 };
    let field = primitive_field(state.grid(), kind, Vec3::new(0.0, 5.0, 0.0), Some(0.0)).unwrap();
    let centre = IVec3::new(16, 5, 16);
    let seed = insert_primitive_centered_on_bench(
        &mut state,
        &mut history,
        &mut stroke,
        &field,
        centre,
    );
    assert_eq!(seed, Some((16, 5, 16)));
    select_inserted(seed, &mut selection, &mut tool, &mut stroke);
    assert_eq!(selection.picked_voxel, seed);
    assert_eq!(tool.kind, ToolKind::Move);
    assert_eq!(history.undo.len(), 1);
    assert!(history.undo(&mut state));
    assert!(solids(state.grid()).is_empty());
}

#[test]
fn chunks_are_remeshed_in_batches() {
    let mut state = one_layer(empty_grid(UVec3::new(320, 64, 64), 1.0, Vec3::ZERO));
    assert_eq!(state.layers[0].dirty.len(), 40);
    let (gone, batch) = state.layer_frame(0);
    assert!(gone.is_empty());
    assert_eq!(batch.len(), MAX_CHUNKS_PER_FRAME);
    assert_eq!(state.layers[0].dirty.len(), 8);
    let c = batch[0];
    assert!(matches!(state.reconcile(0, c, true), Reconcile::Nothing));
    assert!(matches!(state.reconcile(0, c, false), Reconcile::Spawn(0)));
    state.note_spawned(0, c, 77);
    assert!(matches!(state.reconcile(0, c, false), Reconcile::Update(77)));
    assert!(matches!(state.reconcile(0, c, true), Reconcile::Despawn(77)));
    state.note_spawned(0, c, 78);
    state.set_visible(0, false);
    let (gone, batch) = state.layer_frame(0);
    assert_eq!(gone, vec![78]);
    assert!(batch.is_empty());
    push(&mut state, empty_grid(UVec3::new(320, 64, 64), 1.0, Vec3::ZERO), "Top");
    state.note_spawned(1, c, 79);
    state.drop_layer_at(1);
    assert_eq!(state.take_pending(), vec![79]);
    assert!(state.take_pending().is_empty());
}

#[test]
fn coils_stay_on_the_bench() {
    let mut stroke = SculptStroke::new();
    assert_eq!(route_stamp(true, &stroke, false), Route::Bench);
    assert_eq!(route_stamp(true, &stroke, true), Route::Surface);
    assert_eq!(route_stamp(false, &stroke, false), Route::Nothing);
    stroke.bench_paint = true;
    assert_eq!(route_stamp(true, &stroke, true), Route::Bench);
    assert_eq!(route_stamp(false, &stroke, true), Route::Surface);
}

#[test]
fn stamps_keep_their_distance() {
    let mut stroke = SculptStroke::new();
    let b = f32::to_bits;
    let spacing = Spacing { dense: b(1.0), coarse: b(4.0) };
    let near = |s: &SculptStroke, kind, adding, turning, gap: f32| {
        is_spaced(s, kind, adding, turning, 0, gap.to_bits(), spacing)
    };
    assert!(near(&stroke, ToolKind::Clay, true, false, 0.0));
    note_stamp(&mut stroke, ToolKind::Clay, bits_of(Vec3::ONE));
    assert_eq!(stroke.last_clay_hit, Some(bits_of(Vec3::ONE)));
    assert!(!near(&stroke, ToolKind::Clay, true, false, 2.0));
    assert!(near(&stroke, ToolKind::Clay, true, true, 2.0));
    assert!(!near(&stroke, ToolKind::Press, false, true, 2.0));
    assert!(near(&stroke, ToolKind::Smooth, false, false, 0.0));
    assert!(is_spaced(&stroke, ToolKind::Clay, true, false, b(0.35), b(2.0), spacing));
}

#[test]
fn face_on_painting_holds_its_plane() {
    let mut stroke = SculptStroke::new();
    let (hit, into) = (bits_of(Vec3::ONE), bits_of(Vec3::NEG_Y));
    assert_eq!(lock_plane(&mut stroke, true, 0, hit, into), None);
    let other = bits_of(Vec3::ZERO);
    assert_eq!(lock_plane(&mut stroke, true, 0, other, into), Some((hit, into)));
    assert_eq!(lock_plane(&mut stroke, true, 0.5f32.to_bits(), other, into), None);
    assert_eq!(stroke.paint_plane, None);
    assert_eq!(mirror(bits_of(Vec3::new(2.0, 3.0, 4.0))), bits_of(Vec3::new(-2.0, 3.0, 4.0)));
}

#[test]
fn a_wire_is_armed_pulled_and_cuts() {
    let mut wire = WireCutState { anchor_a: None, view_dir_local: None };
    let mut stroke = SculptStroke::new();
    let kind = ToolKind::WireCutter;
    let down = pointer(true, true, false);
    assert!(matches!(wire_frame(kind, down, &mut wire, false), WireStep::Arm));
    let (a, v) = (bits_of(Vec3::ONE), bits_of(Vec3::NEG_Z));
    arm_wire(&mut wire, &mut stroke, a, v);
    assert!(stroke.recorder.is_some());
    assert_eq!(wire.anchor_a, Some(a));
    let up = pointer(false, false, true);
    match wire_frame(kind, up, &mut wire, true) {
        WireStep::Cut(p, q) => assert_eq!((p, q), (a, v)),
        _ => panic!("letting go should cut"),
    }
    assert_eq!(wire.anchor_a, None);
    let b = f32::to_bits;
    assert!(matches!(wire_cut(b(3.9), b(1.0), true, b(5.0), b(1.0)), WireCut::Nothing));
    assert!(matches!(wire_cut(b(9.0), b(1.0e-5), true, b(5.0), b(1.0)), WireCut::Nothing));
    assert!(matches!(wire_cut(b(9.0), b(1.0), false, b(5.0), b(1.0)), WireCut::Once));
    assert!(matches!(wire_cut(b(9.0), b(1.0), true, b(5.0), b(1.0)), WireCut::Twice));
    assert!(matches!(wire_cut(b(9.0), b(1.0), true, b(0.0), b(0.0)), WireCut::Once));
    // Left of the mirror plane, or tilted the other way, a cut is mirrored as well.
    assert!(matches!(wire_cut(b(9.0), b(1.0), true, b(-5.0), b(-1.0)), WireCut::Twice));
    assert!(matches!(wire_cut(b(9.0), b(1.0), true, b(-5.0), b(0.0)), WireCut::Twice));
    assert!(matches!(wire_cut(b(9.0), b(1.0), true, b(0.0), b(-0.5)), WireCut::Twice));
    assert!(matches!(wire_cut(b(9.0), b(1.0), true, b(-1.0e-4), b(-1.0e-4)), WireCut::Once));
}

#[test]
fn the_layers_panel_lists_what_can_be_done() {
    let mut state = one_layer(cube(UVec3::splat(2), 2));
    let panel = layers_panel(&state);
    assert!(!panel.can_delete && !panel.can_merge);
    push(&mut state, cube(UVec3::splat(3), 2), "Top");
    let panel = layers_panel(&state);
    assert!(panel.can_delete && panel.can_merge);
    assert_eq!(panel.rows.len(), 2);
    assert!(finish_rename(&mut state, 1, "  Hat "));
    assert_eq!(state.layers()[1].name, "Hat");
}

#[test]
fn layers_are_reached_by_place_and_by_id() {
    let mut state = LayersState::new(empty_grid(UVec3::splat(8), 1.0, Vec3::ZERO), 0);
    let second = state.push_new_layer(
        empty_grid(UVec3::splat(8), 1.0, Vec3::ZERO),
        0,
        String::from("Handle"),
    );
    assert!(state.layer_mut(2).is_none());
    state.layer_mut(0).expect("first layer").visible = false;
    state.layer_by_id_mut(second).expect("second layer").name = String::from("Spout");
    assert!(state.layer_by_id_mut(second + 7).is_none());
    assert!(!state.layers()[0].visible);
    assert!(state.layers()[1].visible);
    assert_eq!(state.layers()[1].name, "Spout");
    assert_eq!(state.layer_count(), 2);
}

#[test]
fn an_inserted_ring_is_selected_by_its_clay() {
    let mut state = one_layer(empty_grid(UVec3::splat(64), 1.0, Vec3::new(-32.0, 0.0, -32.0)));
    let mut history = UndoHistory::new();
    let mut stroke = SculptStroke::new();
    let mut selection = Selection::new();
    let ring = PrimitiveKind::Torus { major: 20.0, minor: 7.0 };
    let field = primitive_field(state.grid(), ring, Vec3::new(0.0, 7.0, 0.0), Some(0.0)).unwrap();
    let hole = IVec3::new(32, 7, 32);
    let (x, y, z) = insert_primitive_centered_on_bench(
        &mut state,
        &mut history,
        &mut stroke,
        &field,
        hole,
    )
    .expect("the ring is new");
    assert!(f32::from_bits(state.grid().get(32, 7, 32)) > 0.0);
    assert!(f32::from_bits(state.grid().get(x, y, z)) < 0.0);
    assert!(selection.pick(state.grid(), x, y, z));
    // Around a post that stands in its hole, the ring is still found by its own clay.
    let post = PrimitiveKind::Sphere { radius: 3.0 };
    let mut other = one_layer(empty_grid(UVec3::splat(64), 1.0, Vec3::new(-32.0, 0.0, -32.0)));
    let middle = primitive_field(other.grid(), post, Vec3::new(0.0, 7.0, 0.0), None).unwrap();
    apply_primitive(other.grid_mut(), &middle);
    let seed = insert_primitive_centered_on_bench(
        &mut other,
        &mut UndoHistory::new(),
        &mut stroke,
        &field,
        hole,
    );
    assert_eq!(seed, Some((x, y, z)));
}
