//! Lattices, dual contouring and export.

use fast_surface_nets::ndshape::ConstShape3u32;
use fast_surface_nets::ndshape::RuntimeShape;
use fast_surface_nets::SurfaceNetsBuffer;
use glam::Vec3;
use fast_surface_nets::surface_nets;
use mud_sculpt::dual_contour::{NO_VERTEX, cell_corners, cell_index, crossed_edges, dual_indices, emit_quad, is_mixed, number_vertices, sample_idx};
use mud_sculpt::export::{Orientation, check_watertight, facet_corners, stl_binary_size, write_stl_binary};
use mud_sculpt::grid::{ChunkCoord, Grid};
use mud_sculpt::mesh::{CHUNK_LATTICE, ExtractedMesh, chunk_samples, full_samples};
use mud_sculpt::probe::cell_samples;
use mud_sculpt::vec3::{BitVec3, UVec3};

fn vec3_of(b: BitVec3) -> Vec3 {
    Vec3::new(f32::from_bits(b.x), f32::from_bits(b.y), f32::from_bits(b.z))
}

fn bits_of(v: Vec3) -> BitVec3 {
    BitVec3 { x: v.x.to_bits(), y: v.y.to_bits(), z: v.z.to_bits() }
}

fn empty_grid(res: UVec3, voxel_size: f32, origin: Vec3) -> Grid {
    Grid::empty(res, voxel_size.to_bits(), bits_of(origin))
}

fn voxel_size(grid: &Grid) -> f32 {
    f32::from_bits(grid.voxel_size())
}

fn origin(grid: &Grid) -> Vec3 {
    vec3_of(grid.origin())
}

/// A grid that holds a solid sphere.
fn sphere_grid(res: UVec3, voxel_size: f32, origin: Vec3, center: Vec3, radius: f32) -> Grid {
    let mut data = Vec::with_capacity(res.x as usize * res.y as usize * res.z as usize);
    for iz in 0..res.z {
        for iy in 0..res.y {
            for ix in 0..res.x {
                let p = origin + Vec3::new(ix as f32, iy as f32, iz as f32) * voxel_size;
                data.push(((p - center).length() - radius).to_bits());
            }
        }
    }
    Grid::from_samples(res, voxel_size.to_bits(), bits_of(origin), data)
        .expect("one sample for each voxel")
}

/// Trilinear interpolation; open air outside the domain.
fn sample(grid: &Grid, p: Vec3) -> f32 {
    let at = (p - origin(grid)) * (1.0 / voxel_size(grid));
    let cell = at.floor();
    match cell_samples(grid, cell.x as i32, cell.y as i32, cell.z as i32) {
        Err(air) => f32::from_bits(air),
        Ok(corners) => {
            let c = corners.map(f32::from_bits);
            let f = at - cell;
            let along = |a: f32, b: f32, t: f32| a * (1.0 - t) + b * t;
            let near = along(along(c[0], c[1], f.x), along(c[2], c[3], f.x), f.y);
            let far = along(along(c[4], c[5], f.x), along(c[6], c[7], f.x), f.y);
            along(near, far, f.z)
        }
    }
}

/// Central differences of [`sample`], one voxel to each side.
fn gradient_at(grid: &Grid, p: Vec3) -> Vec3 {
    let h = voxel_size(grid);
    let slope = |step: Vec3| sample(grid, p + step) - sample(grid, p - step);
    Vec3::new(slope(Vec3::X * h), slope(Vec3::Y * h), slope(Vec3::Z * h)) * (0.5 / h)
}

fn assembled(positions: Vec<Vec3>, normals: Vec<Vec3>, indices: Vec<u32>) -> ExtractedMesh {
    ExtractedMesh {
        cavity: vec![1.0f32.to_bits(); positions.len()],
        positions: positions.into_iter().map(bits_of).collect(),
        normals: normals.into_iter().map(bits_of).collect(),
        indices,
    }
}

fn netted(buffer: SurfaceNetsBuffer, corner: Vec3, vs: f32) -> ExtractedMesh {
    let positions = buffer.positions.iter().map(|p| corner + Vec3::from(*p) * vs).collect();
    let normals = buffer.normals.iter().map(|n| Vec3::from(*n)).collect();
    assembled(positions, normals, buffer.indices)
}

fn lattice(samples: Vec<u32>) -> Vec<f32> {
    samples.into_iter().map(f32::from_bits).collect()
}

/// Mesh of one chunk by Naive Surface Nets.
fn extract_chunk(grid: &Grid, coord: ChunkCoord) -> ExtractedMesh {
    let vs = voxel_size(grid);
    let samples = lattice(chunk_samples(grid, coord, (vs * 10.0).to_bits()));
    let last = CHUNK_LATTICE - 1;
    let mut buffer = SurfaceNetsBuffer::default();
    surface_nets(&samples, &ChunkShape {}, [0; 3], [last; 3], &mut buffer);
    netted(buffer, chunk_corner(grid, coord), vs)
}

fn chunk_corner(grid: &Grid, coord: ChunkCoord) -> Vec3 {
    let base = coord.voxel_min();
    let first = Vec3::new(base.x as f32, base.y as f32, base.z as f32) - Vec3::ONE;
    origin(grid) + first * voxel_size(grid)
}

/// Mesh of the whole grid by Naive Surface Nets, without chunk seams.
fn extract_full_mesh(grid: &Grid) -> ExtractedMesh {
    let vs = voxel_size(grid);
    let res = grid.res();
    let size = [res.x + 2, res.y + 2, res.z + 2];
    let samples = lattice(full_samples(grid, (vs * 10.0).to_bits()));
    let shape = RuntimeShape::<u32, 3>::new(size);
    let mut buffer = SurfaceNetsBuffer::default();
    let last = [size[0] - 1, size[1] - 1, size[2] - 1];
    surface_nets(&samples, &shape, [0; 3], last, &mut buffer);
    netted(buffer, origin(grid) - Vec3::splat(vs), vs)
}

/// Mesh of one chunk by dual contouring.
fn extract_chunk_dc(grid: &Grid, coord: ChunkCoord) -> ExtractedMesh {
    let samples = chunk_samples(grid, coord, (voxel_size(grid) * 10.0).to_bits());
    contour(grid, &samples, UVec3::splat(CHUNK_LATTICE), chunk_corner(grid, coord))
}

/// Mesh of the whole grid by dual contouring.
fn extract_full_mesh_dc(grid: &Grid) -> ExtractedMesh {
    let vs = voxel_size(grid);
    let res = grid.res();
    let samples = full_samples(grid, (vs * 10.0).to_bits());
    let size = UVec3::new(res.x + 2, res.y + 2, res.z + 2);
    contour(grid, &samples, size, origin(grid) - Vec3::splat(vs))
}

fn sdf_normal(grid: &Grid, p: Vec3) -> Vec3 {
    let slope = gradient_at(grid, p);
    let len = slope.length();
    if len > 1e-6 {
        slope / len
    } else {
        Vec3::Y
    }
}

fn corner_offset(i: usize) -> Vec3 {
    Vec3::new((i % 2) as f32, (i / 2 % 2) as f32, (i / 4) as f32)
}

/// One vertex for each cell that the surface crosses, one quad for each edge.
fn contour(grid: &Grid, samples: &Vec<u32>, size: UVec3, corner: Vec3) -> ExtractedMesh {
    let vs = voxel_size(grid);
    let vertices = number_vertices(samples, size);
    let mut positions = Vec::new();
    let mut normals = Vec::new();
    for cell in &vertices.cells {
        let corners = cell_corners(samples, size, cell.x, cell.y, cell.z);
        let at = Vec3::new(cell.x as f32, cell.y as f32, cell.z as f32);
        let mut points = Vec::new();
        for (a, b) in crossed_edges(&corners) {
            let (va, vb) = (f32::from_bits(corners[a]), f32::from_bits(corners[b]));
            let t = if (vb - va).abs() < 1e-8 { 0.5 } else { -va / (vb - va) };
            let local = at + corner_offset(a).lerp(corner_offset(b), t.clamp(0.0, 1.0));
            points.push((local, sdf_normal(grid, corner + local * vs)));
        }
        let vertex = solve_qef(&points).clamp(at - Vec3::splat(0.25), at + Vec3::splat(1.25));
        let world = corner + vertex * vs;
        positions.push(world);
        normals.push(sdf_normal(grid, world));
    }
    let indices = dual_indices(samples, size, &vertices);
    assembled(positions, normals, indices)
}

/// The point closest to all tangent planes, or the middle of the points where the
/// planes do not fix one.
fn solve_qef(points: &[(Vec3, Vec3)]) -> Vec3 {
    let mut ata = [[0.0f32; 3]; 3];
    let mut atb = [0.0f32; 3];
    let mut mass = Vec3::ZERO;
    for &(p, n) in points {
        let np = n.dot(p);
        for r in 0..3 {
            atb[r] += n[r] * np;
            for c in 0..3 {
                ata[r][c] += n[r] * n[c];
            }
        }
        mass += p;
    }
    for (i, row) in ata.iter_mut().enumerate() {
        row[i] += 1e-4;
    }
    match solve3(&ata, &atb) {
        Some(x) => Vec3::from(x),
        None => mass / points.len().max(1) as f32,
    }
}

/// Gaussian elimination with partial pivoting.
fn solve3(a: &[[f32; 3]; 3], b: &[f32; 3]) -> Option<[f32; 3]> {
    let mut m = [0, 1, 2].map(|r| [a[r][0], a[r][1], a[r][2], b[r]]);
    for col in 0..3 {
        let mut pivot = col;
        for r in col + 1..3 {
            if m[r][col].abs() > m[pivot][col].abs() {
                pivot = r;
            }
        }
        if m[pivot][col].abs() < 1e-8 {
            return None;
        }
        m.swap(col, pivot);
        let lead = m[col].map(|v| v / m[col][col]);
        m[col] = lead;
        for (r, row) in m.iter_mut().enumerate() {
            if r != col {
                let factor = row[col];
                for c in col..4 {
                    row[c] -= factor * lead[c];
                }
            }
        }
    }
    Some([m[0][3], m[1][3], m[2][3]])
}

/// Right-hand normals of the triangles, as an STL file wants them.
fn facet_normals(mesh: &ExtractedMesh, orientation: Orientation) -> Vec<BitVec3> {
    (0..mesh.indices.len() / 3)
        .map(|t| {
            let (a, b, c) = facet_corners(mesh, orientation, t);
            let (a, b, c) = (vec3_of(a), vec3_of(b), vec3_of(c));
            bits_of((b - a).cross(c - a).normalize_or_zero())
        })
        .collect()
}

fn put(grid: &mut Grid, ix: u32, iy: u32, iz: u32, v: f32) {
    grid.set(ix, iy, iz, v.to_bits());
}

type ChunkShape = ConstShape3u32<34, 34, 34>;

fn points(ps: &[[f32; 3]]) -> Vec<BitVec3> {
    ps.iter().map(|p| bits_of(Vec3::from(*p))).collect()
}

#[test]
fn dc_chunk_meshing_sphere_is_nonempty() {
    let g = sphere_grid(
        UVec3::new(32, 32, 32),
        1.0,
        Vec3::ZERO,
        Vec3::new(16.0, 16.0, 16.0),
        8.0,
    );
    let mesh = extract_chunk_dc(&g, ChunkCoord::new(0, 0, 0));
    assert!(!mesh.is_empty());
    assert_eq!(mesh.positions.len(), mesh.normals.len());
    assert_eq!(mesh.positions.len(), mesh.cavity.len());
    assert!(mesh.indices.len() >= 3);
    assert_eq!(mesh.indices.len() % 3, 0);
}

#[test]
fn dc_full_mesh_covers_sphere() {
    let g = sphere_grid(
        UVec3::new(32, 32, 32),
        1.0,
        Vec3::ZERO,
        Vec3::new(16.0, 16.0, 16.0),
        8.0,
    );
    let mesh = extract_full_mesh_dc(&g);
    assert!(!mesh.is_empty());
    let mut r_sum = 0.0;
    let center = Vec3::new(16.0, 16.0, 16.0);
    for p in &mesh.positions {
        r_sum += (vec3_of(*p) - center).length();
    }
    let r_mean = r_sum / mesh.positions.len() as f32;
    assert!(
        (r_mean - 8.0).abs() < 1.5,
        "mean radius should be ~8, got {r_mean}"
    );
}

#[test]
fn extract_full_mesh_of_sphere_produces_triangles() {
    let g = sphere_grid(
        UVec3::new(32, 32, 32),
        1.0,
        Vec3::ZERO,
        Vec3::new(16.0, 16.0, 16.0),
        8.0,
    );
    let mesh = extract_full_mesh(&g);
    assert!(!mesh.is_empty(), "sphere should produce a mesh");
    assert_eq!(mesh.indices.len() % 3, 0, "indices divide into triangles");
    assert!(mesh.indices.len() > 300);
}

#[test]
fn sphere_export_mesh_is_watertight() {
    let g = sphere_grid(
        UVec3::new(32, 32, 32),
        1.0,
        Vec3::ZERO,
        Vec3::new(16.0, 16.0, 16.0),
        8.0,
    );
    let mesh = extract_full_mesh(&g);
    let report = check_watertight(&mesh);
    assert!(
        report.is_watertight(),
        "closed sphere should be watertight: {report:?}"
    );
}

#[test]
fn single_triangle_has_open_edges() {
    let mesh = ExtractedMesh {
        positions: points(&[[0.0, 0.0, 0.0], [1.0, 0.0, 0.0], [0.0, 1.0, 0.0]]),
        normals: points(&[[0.0, 0.0, 1.0]; 3]),
        cavity: vec![1.0f32.to_bits(); 3],
        indices: vec![0, 1, 2],
    };
    let report = check_watertight(&mesh);
    assert!(!report.is_watertight());
    assert_eq!(report.open_edges, 3);
    assert_eq!(report.nonmanifold_edges, 0);
}

#[test]
fn edge_shared_by_three_triangles_is_nonmanifold() {
    let mesh = ExtractedMesh {
        positions: points(&[
            [0.0, 0.0, 0.0],
            [1.0, 0.0, 0.0],
            [0.5, 1.0, 0.0],
            [0.5, 0.0, 1.0],
            [0.5, 0.0, -1.0],
        ]),
        normals: points(&[[0.0, 1.0, 0.0]; 5]),
        cavity: vec![1.0f32.to_bits(); 5],
        indices: vec![0, 1, 2, 0, 1, 3, 0, 1, 4],
    };
    let report = check_watertight(&mesh);
    assert!(!report.is_watertight());
    assert!(
        report.nonmanifold_edges >= 1,
        "edge 0-1 shared by 3 tris: {report:?}"
    );
}

#[test]
fn extract_full_mesh_of_empty_grid_returns_empty() {
    let mut g = empty_grid(UVec3::new(16, 16, 16), 1.0, Vec3::ZERO);
    for iz in 0..16 {
        for iy in 0..16 {
            for ix in 0..16 {
                put(&mut g, ix, iy, iz, 1.0);
            }
        }
    }
    let mesh = extract_full_mesh(&g);
    assert!(mesh.is_empty());
}

#[test]
fn stl_binary_header_and_triangle_count_are_correct() {
    let g = sphere_grid(
        UVec3::new(32, 32, 32),
        1.0,
        Vec3::ZERO,
        Vec3::new(16.0, 16.0, 16.0),
        8.0,
    );
    let mesh = extract_full_mesh(&g);
    let expected_size = stl_binary_size(&mesh);
    let normals = facet_normals(&mesh, Orientation::Zup);
    let out = write_stl_binary(&mesh, Orientation::Zup, &normals);
    assert_eq!(out.len(), expected_size);
    let mut count_bytes = [0u8; 4];
    count_bytes.copy_from_slice(&out[80..84]);
    let count = u32::from_le_bytes(count_bytes) as usize;
    assert_eq!(count, mesh.indices.len() / 3);
}

#[test]
fn zup_orientation_puts_workbench_at_z_zero() {
    let g = sphere_grid(
        UVec3::new(32, 32, 32),
        1.0,
        Vec3::new(-16.0, 0.0, -16.0),
        Vec3::new(0.0, 8.0, 0.0),
        8.0,
    );
    let mesh = extract_full_mesh(&g);
    let mut min_z_stl = f32::INFINITY;
    for p in &mesh.positions {
        let t = Orientation::Zup.transform(*p);
        min_z_stl = min_z_stl.min(f32::from_bits(t.z));
    }
    assert!(
        min_z_stl.abs() < 1.0,
        "piece should rest on the bed after Z-up rotation: min_z={min_z_stl}",
    );
}

#[test]
fn yup_orientation_is_identity() {
    let v = bits_of(Vec3::new(1.5, -2.5, 3.5));
    assert_eq!(Orientation::YupAsIs.transform(v), v);
}

#[test]
fn stl_face_normals_point_outward_for_a_sphere() {
    let centre = Vec3::new(16.0, 16.0, 16.0);
    let g = sphere_grid(
        UVec3::new(32, 32, 32),
        1.0,
        Vec3::ZERO,
        centre,
        8.0,
    );
    let mesh = extract_full_mesh(&g);
    let mut inward = 0usize;
    for tri in mesh.indices.chunks_exact(3) {
        let a = vec3_of(mesh.positions[tri[0] as usize]);
        let b = vec3_of(mesh.positions[tri[1] as usize]);
        let c = vec3_of(mesh.positions[tri[2] as usize]);
        let n = (b - a).cross(c - a).normalize_or_zero();
        let centroid = (a + b + c) / 3.0;
        let radial = (centroid - centre).normalize_or_zero();
        if n.dot(radial) < 0.0 {
            inward += 1;
        }
    }
    let total = mesh.indices.len() / 3;
    let bad_ratio = inward as f32 / total as f32;
    assert!(
        bad_ratio < 0.02,
        "too many inward-facing triangles: {inward}/{total} = {:.2}%",
        bad_ratio * 100.0,
    );
}

#[test]
fn the_lattice_of_a_chunk_has_its_neighbours_around_it() {
    let mut g = empty_grid(UVec3::new(40, 40, 40), 1.0, Vec3::ZERO);
    put(&mut g, 31, 0, 5, -3.0);
    put(&mut g, 33, 2, 5, -4.0);
    let out = 10.0f32.to_bits();
    let first = chunk_samples(&g, ChunkCoord::new(0, 0, 0), out);
    assert_eq!(first.len(), 34 * 34 * 34);
    let at = |s: &Vec<u32>, x: usize, y: usize, z: usize| f32::from_bits(s[x + 34 * y + 34 * 34 * z]);
    assert_eq!(at(&first, 32, 1, 6), -3.0);
    assert_eq!(at(&first, 0, 1, 6), 10.0);
    let second = chunk_samples(&g, ChunkCoord::new(1, 0, 0), out);
    assert_eq!(at(&second, 0, 1, 6), -3.0);
    assert_eq!(at(&second, 2, 3, 6), -4.0);
    assert_eq!(at(&second, 9, 1, 6), 10.0);
}

#[test]
fn the_lattice_of_a_grid_ends_in_air() {
    let mut g = empty_grid(UVec3::new(2, 3, 4), 1.0, Vec3::ZERO);
    put(&mut g, 1, 2, 3, -5.0);
    let s = full_samples(&g, 10.0f32.to_bits());
    assert_eq!(s.len(), 4 * 5 * 6);
    assert_eq!(f32::from_bits(s[2 + 3 * 4 + 4 * 20]), -5.0);
    assert_eq!(f32::from_bits(s[0]), 10.0);
    assert_eq!(f32::from_bits(s[4 * 5 * 6 - 1]), 10.0);
}

#[test]
fn a_single_solid_voxel_is_a_closed_cube_of_quads() {
    let mut g = empty_grid(UVec3::new(1, 1, 1), 1.0, Vec3::ZERO);
    put(&mut g, 0, 0, 0, -1.0);
    let size = UVec3::new(3, 3, 3);
    let s = full_samples(&g, 10.0f32.to_bits());
    let v = number_vertices(&s, size);
    assert_eq!(v.cells.len(), 8);
    assert_eq!(v.cells[0], UVec3::new(0, 0, 0));
    assert_eq!(v.cells[7], UVec3::new(1, 1, 1));
    let indices = dual_indices(&s, size, &v);
    assert_eq!(indices.len(), 36);
    assert!(indices.iter().all(|&i| i < 8));
    let mesh = ExtractedMesh {
        positions: points(&[[0.0, 0.0, 0.0]; 8]),
        normals: points(&[[0.0, 1.0, 0.0]; 8]),
        cavity: vec![0; 8],
        indices,
    };
    let report = check_watertight(&mesh);
    assert!(report.is_watertight());
    assert_eq!((report.verts, report.edges, report.faces, report.euler), (8, 18, 12, 2));
}

#[test]
fn cells_without_a_surface_have_no_vertex() {
    let s = vec![1.0f32.to_bits(); 8];
    let v = number_vertices(&s, UVec3::splat(2));
    assert_eq!(v.entries, vec![NO_VERTEX]);
    assert!(v.cells.is_empty());
    let corners = [1.0f32, -1.0, 1.0, 1.0, 1.0, 1.0, 1.0, 1.0].map(f32::to_bits);
    assert!(is_mixed(&corners));
    assert_eq!(crossed_edges(&corners), vec![(0, 1), (1, 3), (1, 5)]);
    assert_eq!(sample_idx(1, 2, 3, 10, 20), 1 + 20 + 600);
    assert_eq!(cell_index(1, 2, 3, 10, 20), 1 + 20 + 600);
}

#[test]
fn quads_are_wound_by_their_side_and_need_four_vertices() {
    let cells = vec![0, 1, 2, 3, NO_VERTEX];
    let mut out = Vec::new();
    emit_quad(&cells, &mut out, [0, 1, 2, 3], true);
    assert_eq!(out, vec![0, 1, 2, 0, 2, 3]);
    emit_quad(&cells, &mut out, [0, 1, 2, 3], false);
    assert_eq!(out[6..], [0, 2, 1, 0, 3, 2]);
    emit_quad(&cells, &mut out, [0, 1, 2, 4], true);
    assert_eq!(out.len(), 12);
}

#[test]
fn a_mesh_without_triangles_is_not_watertight() {
    let mesh = ExtractedMesh::default();
    let report = check_watertight(&mesh);
    assert!(!report.is_watertight());
    assert_eq!((report.verts, report.edges, report.faces, report.euler), (0, 0, 0, 0));
}

#[test]
fn an_stl_file_reads_back_facet_by_facet() {
    let mesh = ExtractedMesh {
        positions: points(&[[1.0, 2.0, 3.0], [4.0, 5.0, 6.0], [7.0, 8.0, 9.0]]),
        normals: Vec::new(),
        cavity: Vec::new(),
        indices: vec![0, 1, 2, 2, 1, 0, 1],
    };
    let normals = points(&[[0.5, 0.25, 0.125], [-1.0, 0.0, 0.0]]);
    let out = write_stl_binary(&mesh, Orientation::Zup, &normals);
    assert_eq!(out.len(), 84 + 100);
    assert_eq!(&out[..21], b"MUD sculpt binary STL");
    assert!(out[21..80].iter().all(|&b| b == 0));
    let f = |at: usize| f32::from_le_bytes([out[at], out[at + 1], out[at + 2], out[at + 3]]);
    assert_eq!([f(84), f(88), f(92)], [0.5, 0.25, 0.125]);
    assert_eq!([f(96), f(100), f(104)], [1.0, -3.0, 2.0]);
    assert_eq!([f(108), f(112), f(116)], [4.0, -6.0, 5.0]);
    assert_eq!([f(134), f(138), f(142)], [-1.0, 0.0, 0.0]);
    assert_eq!([f(146), f(150), f(154)], [7.0, -9.0, 8.0]);
    assert_eq!(&out[132..134], &[0, 0]);
}

#[test]
fn chunks_meshed_one_by_one_cover_the_ball() {
    let g = sphere_grid(UVec3::splat(40), 1.0, Vec3::ZERO, Vec3::splat(20.0), 14.0);
    let mut vertices = 0;
    for z in 0..2 {
        for y in 0..2 {
            for x in 0..2 {
                let mesh = extract_chunk(&g, ChunkCoord::new(x, y, z));
                for p in &mesh.positions {
                    let r = (vec3_of(*p) - Vec3::splat(20.0)).length();
                    assert!((r - 14.0).abs() < 1.0, "vertex at radius {r}");
                }
                vertices += mesh.positions.len();
            }
        }
    }
    assert!(vertices > 500);
}

#[test]
fn a_contoured_ball_is_closed() {
    let ball = sphere_grid(UVec3::splat(32), 1.0, Vec3::ZERO, Vec3::new(16.0, 15.3, 16.7), 8.0);
    let report = check_watertight(&extract_full_mesh_dc(&ball));
    assert_eq!(report.open_edges, 0);
    assert_eq!(report.nonmanifold_edges, 0);
    assert_eq!(report.euler, 2);
    assert!(report.is_watertight());
}

#[test]
fn the_report_ignores_the_order_of_triangles_and_corners() {
    let tetrahedron = |indices: Vec<u32>| ExtractedMesh {
        positions: points(&[[0.0, 0.0, 0.0], [1.0, 0.0, 0.0], [0.0, 1.0, 0.0], [0.0, 0.0, 1.0]]),
        normals: points(&[[0.0, 0.0, 1.0]; 4]),
        cavity: vec![1.0f32.to_bits(); 4],
        indices,
    };
    let report = check_watertight(&tetrahedron(vec![0, 1, 2, 0, 3, 1, 0, 2, 3, 1, 3, 2]));
    assert!(report.is_watertight());
    assert_eq!((report.verts, report.edges, report.faces, report.euler), (4, 6, 4, 2));
    assert_eq!(2 * report.edges, 3 * report.faces);
    let shuffled = check_watertight(&tetrahedron(vec![2, 1, 3, 0, 2, 1, 3, 0, 2, 1, 0, 3]));
    assert_eq!(shuffled.edges, report.edges);
    assert_eq!(shuffled.faces, report.faces);
    assert_eq!(shuffled.open_edges, report.open_edges);
    assert_eq!(shuffled.nonmanifold_edges, report.nonmanifold_edges);
    assert_eq!(shuffled.euler, report.euler);
}
