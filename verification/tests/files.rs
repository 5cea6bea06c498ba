//! Project files: what is written, what is read back, and what is refused.

use glam::Vec3;
use mud_sculpt::grid::{CHUNK_SIZE, ChunkCoord, Grid};
use mud_sculpt::project::{HEADER_LEN, HEADER_PREFIX_LEN, IoKind, ProjectLayer, ProjectScene, ReadError, VERSION, WriteError, read_exact_trunc, read_project, read_project_scene, read_u32};
use mud_sculpt::project_write::{project_scene_size, project_size, write_project, write_project_scene};
use mud_sculpt::vec3::{BitVec3, UVec3};

fn bits_of(v: Vec3) -> BitVec3 {
    BitVec3 { x: v.x.to_bits(), y: v.y.to_bits(), z: v.z.to_bits() }
}

fn empty_grid(res: UVec3, voxel_size: f32, origin: Vec3) -> Grid {
    Grid::empty(res, voxel_size.to_bits(), bits_of(origin))
}

fn value(grid: &Grid, ix: u32, iy: u32, iz: u32) -> f32 {
    f32::from_bits(grid.get(ix, iy, iz))
}

/// A grid that holds a solid sphere.
fn sphere_grid(res: UVec3, voxel_size: f32, origin: Vec3, center: Vec3, radius: f32) -> Grid {
    let mut data = Vec::with_capacity(res.x as usize * res.y as usize * res.z as usize);
    for iz in 0..res.z {
        for iy in 0..res.y {
            for ix in 0..res.x {
                let p = origin + Vec3::new(ix as f32, iy as f32, iz as f32) * voxel_size;
                data.push(((p - center).length() - radius).to_bits());
            }
        }
    }
    Grid::from_samples(res, voxel_size.to_bits(), bits_of(origin), data)
        .expect("one sample for each voxel")
}

fn put(grid: &mut Grid, ix: u32, iy: u32, iz: u32, v: f32) {
    grid.set(ix, iy, iz, v.to_bits());
}

const MAGIC: &[u8; 8] = b"MUDCLAY\0";

fn header(version: u32, res: UVec3, voxel_size: u32, origin: BitVec3) -> Vec<u8> {
    let mut out = MAGIC.to_vec();
    let rest = [version, 0, res.x, res.y, res.z, voxel_size, origin.x, origin.y, origin.z];
    for word in rest {
        out.extend_from_slice(&word.to_le_bytes());
    }
    out
}

fn v1_dense(grid: &Grid) -> Vec<u8> {
    let mut out = header(1, grid.res(), grid.voxel_size(), grid.origin());
    let samples = grid.to_dense();
    out.extend_from_slice(&(samples.len() as u32).to_le_bytes());
    for s in samples {
        out.extend_from_slice(&s.to_le_bytes());
    }
    out
}

fn v2_sparse(grid: &Grid) -> Vec<u8> {
    let mut out = header(2, grid.res(), grid.voxel_size(), grid.origin());
    out.extend_from_slice(&CHUNK_SIZE.to_le_bytes());
    let coords = grid.allocated_chunk_coords();
    out.extend_from_slice(&(coords.len() as u32).to_le_bytes());
    for c in coords {
        for word in [c.x, c.y, c.z] {
            out.extend_from_slice(&word.to_le_bytes());
        }
        for s in grid.tile_samples(c) {
            out.extend_from_slice(&s.to_le_bytes());
        }
    }
    out
}

#[test]
fn v3_round_trip_preserves_layers() {
    let mut a = empty_grid(UVec3::new(64, 64, 64), 1.0, Vec3::new(-32.0, 0.0, -32.0));
    let mut b = empty_grid(UVec3::new(64, 64, 64), 1.0, Vec3::new(-32.0, 0.0, -32.0));
    for iz in 4..12 {
        for iy in 4..12 {
            for ix in 4..12 {
                put(&mut a, ix, iy, iz, -1.0);
            }
        }
    }
    for iz in 40..48 {
        for iy in 40..48 {
            for ix in 40..48 {
                put(&mut b, ix, iy, iz, -2.0);
            }
        }
    }
    let scene = ProjectScene {
        layers: vec![
            ProjectLayer {
                id: 0,
                name: "Base".into(),
                visible: true,
                grid: a,
            },
            ProjectLayer {
                id: 3,
                name: "Top lump".into(),
                visible: false,
                grid: b,
            },
        ],
        active: 1,
    };

    let buf = write_project_scene(&scene).unwrap();
    assert_eq!(buf.len(), project_scene_size(&scene));
    assert_eq!(&buf[8..12], &VERSION.to_le_bytes());

    let loaded = read_project_scene(&buf[..]).unwrap();
    assert_eq!(loaded.layers.len(), 2);
    assert_eq!(loaded.active, 1);
    assert_eq!(loaded.layers[0].name, "Base");
    assert_eq!(loaded.layers[1].name, "Top lump");
    assert!(loaded.layers[0].visible);
    assert!(!loaded.layers[1].visible);
    assert_eq!(loaded.layers[1].id, 3);
    assert_eq!(value(&loaded.layers[0].grid, 8, 8, 8), -1.0);
    assert_eq!(value(&loaded.layers[1].grid, 44, 44, 44), -2.0);
    assert!(loaded.layers[1].grid.allocated_tile_count() > 0);
}

#[test]
fn write_project_single_grid_is_v3() {
    let g = sphere_grid(
        UVec3::new(32, 32, 32),
        1.0,
        Vec3::ZERO,
        Vec3::new(16.0, 16.0, 16.0),
        8.0,
    );
    let buf = write_project(&g).unwrap();
    assert_eq!(&buf[8..12], &VERSION.to_le_bytes());
    let loaded = read_project(&buf[..]).unwrap();
    assert_eq!(value(&loaded, 16, 16, 16), value(&g, 16, 16, 16));
}

#[test]
fn v1_dense_loads_as_single_layer_scene() {
    let g = sphere_grid(
        UVec3::new(16, 16, 16),
        1.0,
        Vec3::ZERO,
        Vec3::new(8.0, 8.0, 8.0),
        4.0,
    );
    let buf = v1_dense(&g);
    let scene = read_project_scene(&buf[..]).unwrap();
    assert_eq!(scene.layers.len(), 1);
    assert_eq!(scene.active, 0);
    assert_eq!(value(&scene.layers[0].grid, 8, 8, 8), value(&g, 8, 8, 8));
}

#[test]
fn v2_sparse_loads_as_single_layer_scene() {
    let mut g = empty_grid(UVec3::new(64, 64, 64), 1.0, Vec3::ZERO);
    put(&mut g, 3, 3, 3, -1.5);
    put(&mut g, 40, 40, 40, -2.5);
    let buf = v2_sparse(&g);
    assert_eq!(&buf[8..12], &2u32.to_le_bytes());
    assert!(buf.len() < 64 * 64 * 64 * 4);
    let scene = read_project_scene(&buf[..]).unwrap();
    assert_eq!(scene.layers.len(), 1);
    assert_eq!(value(&scene.layers[0].grid, 3, 3, 3), -1.5);
    assert_eq!(value(&scene.layers[0].grid, 40, 40, 40), -2.5);
}

#[test]
fn round_trip_preserves_every_voxel_in_touched_tiles() {
    let mut g = empty_grid(UVec3::new(16, 12, 8), 1.5, Vec3::new(-10.0, 0.0, 3.0));
    for iz in 0..8 {
        for iy in 0..12 {
            for ix in 0..16 {
                put(&mut g, ix, iy, iz, (ix as f32) * 0.3 - (iy as f32) * 0.2 + (iz as f32) * 0.1);
            }
        }
    }

    let buf = write_project(&g).unwrap();
    assert_eq!(buf.len(), project_size(&g));

    let loaded = read_project(&buf[..]).expect("round-trip should succeed");
    assert_eq!(loaded.res(), g.res());
    assert_eq!(loaded.voxel_size(), g.voxel_size());
    assert_eq!(loaded.origin(), g.origin());
    for iz in 0..8 {
        for iy in 0..12 {
            for ix in 0..16 {
                assert_eq!(
                    value(&loaded, ix, iy, iz),
                    value(&g, ix, iy, iz),
                    "mismatch at ({ix},{iy},{iz})",
                );
            }
        }
    }
}

fn expect_err<T>(res: Result<T, ReadError>, want: &str, check: impl Fn(&ReadError) -> bool) {
    match res {
        Ok(_) => panic!("expected error {want}, got Ok"),
        Err(ref e) if check(e) => {}
        Err(e) => panic!("expected error {want}, got {}", e.message()),
    }
}

#[test]
fn bad_magic_is_rejected() {
    let buf = [b'N'; HEADER_LEN + 4];
    expect_err(read_project_scene(&buf[..]), "BadMagic", |e| {
        matches!(e, ReadError::BadMagic)
    });
}

#[test]
fn unsupported_version_is_rejected() {
    let mut buf = Vec::new();
    buf.extend_from_slice(MAGIC);
    buf.extend_from_slice(&99u32.to_le_bytes());
    buf.extend_from_slice(&[0u8; HEADER_PREFIX_LEN - 12]);
    expect_err(
        read_project_scene(&buf[..]),
        "UnsupportedVersion(99)",
        |e| matches!(e, ReadError::UnsupportedVersion(99)),
    );
}

#[test]
fn reserved_field_set_is_rejected() {
    let mut buf = Vec::new();
    buf.extend_from_slice(MAGIC);
    buf.extend_from_slice(&VERSION.to_le_bytes());
    buf.extend_from_slice(&0xdeadbeefu32.to_le_bytes());
    buf.extend_from_slice(&[0u8; HEADER_PREFIX_LEN - 16]);
    expect_err(read_project_scene(&buf[..]), "ReservedFieldSet", |e| {
        matches!(e, ReadError::ReservedFieldSet)
    });
}

#[test]
fn truncated_v3_body_is_rejected() {
    let g = empty_grid(UVec3::new(32, 32, 32), 1.0, Vec3::ZERO);
    let mut buf = write_project(&g).unwrap();
    buf.truncate(buf.len().saturating_sub(8));
    expect_err(read_project_scene(&buf[..]), "Truncated", |e| {
        matches!(e, ReadError::Truncated)
    });
}

fn lump(at: (u32, u32, u32)) -> Grid {
    let mut g = empty_grid(UVec3::new(40, 8, 8), 0.5, Vec3::new(-1.0, 0.0, 2.0));
    put(&mut g, at.0, at.1, at.2, -0.25);
    g
}

fn layer(id: u32, name: &str, visible: bool, grid: Grid) -> ProjectLayer {
    ProjectLayer { id, name: name.to_string(), visible, grid }
}

fn refusal(bytes: &[u8]) -> ReadError {
    match read_project_scene(bytes) {
        Ok(_) => panic!("the file should be refused"),
        Err(e) => e,
    }
}

fn two_layers() -> Vec<u8> {
    let layers = vec![
        layer(7, "Käfer", true, lump((1, 2, 3))),
        layer(7, "", false, lump((39, 7, 7))),
    ];
    write_project_scene(&ProjectScene { layers, active: 1 }).unwrap()
}

fn with_word(mut bytes: Vec<u8>, at: usize, word: u32) -> Vec<u8> {
    bytes[at..at + 4].copy_from_slice(&word.to_le_bytes());
    bytes
}

#[test]
fn names_beyond_ascii_come_back() {
    let scene = read_project_scene(&two_layers()).unwrap();
    assert_eq!(scene.layers[0].name, "Käfer");
    assert_eq!(scene.layers[1].name, "");
    assert_eq!(scene.layers[0].id, 7);
    assert_eq!(scene.layers[1].id, 7);
    assert_eq!(scene.domain_res(), UVec3::new(40, 8, 8));
    assert_eq!(f32::from_bits(scene.domain_voxel_size()), 0.5);
    assert_eq!(scene.domain_origin(), bits_of(Vec3::new(-1.0, 0.0, 2.0)));
    assert_eq!(scene.layers[0].grid.to_dense(), lump((1, 2, 3)).to_dense());
    assert_eq!(scene.layers[1].grid.allocated_chunk_coords(), vec![ChunkCoord::new(1, 0, 0)]);
}

#[test]
fn a_name_that_is_not_text_is_refused() {
    let mut bytes = two_layers();
    let at = 44 + 8 + 8;
    assert_eq!(bytes[at], b'K');
    bytes[at] = 0xff;
    assert!(matches!(refusal(&bytes), ReadError::BadName));
}

#[test]
fn long_names_come_back_whole() {
    for name in ["x".repeat(300), "a".to_string() + &"\u{e9}".repeat(128), "\u{e9}".repeat(40000)] {
        let layers = vec![layer(0, &name, true, lump((0, 0, 0))), layer(1, "b", false, lump((1, 0, 0)))];
        let scene = ProjectScene { layers, active: 1 };
        let bytes = write_project_scene(&scene).unwrap();
        assert_eq!(bytes.len(), project_scene_size(&scene));
        let loaded = read_project_scene(&bytes).unwrap();
        assert_eq!(loaded.layers[0].name, name);
        assert_eq!(loaded.layers[1].name, "b");
        assert_eq!(loaded.layers[1].grid.to_dense(), scene.layers[1].grid.to_dense());
    }
}

#[test]
fn a_name_that_the_file_does_not_hold_is_refused() {
    let good = two_layers();
    let most = good.len() as u32;
    for declared in [most - 59, most, u32::MAX] {
        let bytes = with_word(good.clone(), 56, declared);
        assert!(matches!(refusal(&bytes), ReadError::Truncated));
    }
}

#[test]
fn a_scene_that_a_file_cannot_hold_is_not_written() {
    let stack = |n: u32| ProjectScene {
        layers: (0..n).map(|i| layer(i, "Layer", true, lump((0, 0, 0)))).collect(),
        active: 0,
    };
    assert!(matches!(write_project_scene(&stack(257)), Err(WriteError::TooManyLayers)));

    let flat = empty_grid(UVec3::new(32, 0, 32), 1.0, Vec3::ZERO);
    assert!(matches!(write_project(&flat), Err(WriteError::NoVolume)));
}

#[test]
fn a_header_that_ends_early_is_an_io_error() {
    let bytes = two_layers();
    let e = refusal(&bytes[..43]);
    assert!(matches!(e, ReadError::Io(IoKind::UnexpectedEof)));
    assert_eq!(e.message(), "I/O error: failed to fill whole buffer");
}

#[test]
fn a_version_one_file_without_its_count_is_an_io_error() {
    let bytes = v1_dense(&lump((0, 0, 0)));
    assert!(matches!(refusal(&bytes[..46]), ReadError::Io(IoKind::UnexpectedEof)));
    assert!(matches!(refusal(&bytes[..50]), ReadError::Truncated));
}

#[test]
fn inconsistent_headers_are_refused() {
    let good = two_layers();
    // No voxels along x, no layers, active past the end, an unknown visibility.
    assert!(matches!(refusal(&with_word(good.clone(), 16, 0)), ReadError::HeaderInconsistent));
    assert!(matches!(refusal(&with_word(good.clone(), 44, 0)), ReadError::HeaderInconsistent));
    assert!(matches!(refusal(&with_word(good.clone(), 44, 257)), ReadError::HeaderInconsistent));
    assert!(matches!(refusal(&with_word(good.clone(), 48, 2)), ReadError::HeaderInconsistent));
    let visible = 44 + 8 + 8 + "Käfer".len();
    assert!(matches!(refusal(&with_word(good.clone(), visible, 2)), ReadError::HeaderInconsistent));
    // A tile count beyond the limit.
    let tiles = visible + 4;
    assert!(matches!(
        refusal(&with_word(good, tiles, (1 << 20) + 1)),
        ReadError::HeaderInconsistent
    ));
    // A dense file that declares another number of samples, and a foreign tile size.
    let dense = v1_dense(&lump((0, 0, 0)));
    assert!(matches!(refusal(&with_word(dense, 44, 1)), ReadError::HeaderInconsistent));
    let sparse = v2_sparse(&lump((0, 0, 0)));
    assert!(matches!(refusal(&with_word(sparse, 44, 16)), ReadError::HeaderInconsistent));
}

#[test]
fn the_reserved_word_is_looked_at_before_the_version() {
    let bytes = with_word(with_word(two_layers(), 8, 99), 12, 1);
    assert!(matches!(refusal(&bytes), ReadError::ReservedFieldSet));
}

#[test]
fn messages_name_what_is_wrong() {
    assert_eq!(ReadError::BadMagic.message(), "not a MUDCLAY file (bad magic bytes)");
    assert_eq!(
        ReadError::UnsupportedVersion(99).message(),
        "unsupported .mudclay version 99 (this build reads v1–v3)"
    );
    assert_eq!(ReadError::HeaderInconsistent.message(), "header fields are inconsistent");
    assert_eq!(ReadError::ReservedFieldSet.message(), "reserved header field is non-zero");
    assert_eq!(ReadError::Truncated.message(), "file is shorter than the declared payload");
    assert_eq!(ReadError::BadName.message(), "layer name is not valid UTF-8");
    assert_eq!(ReadError::Io(IoKind::Other).message(), "I/O error");
}

#[test]
fn scenes_that_no_file_can_hold_are_not_written() {
    let none = ProjectScene { layers: Vec::new(), active: 0 };
    assert!(matches!(write_project_scene(&none), Err(WriteError::EmptyScene)));
    let late = ProjectScene { layers: vec![layer(0, "a", true, lump((0, 0, 0)))], active: 1 };
    assert!(matches!(write_project_scene(&late), Err(WriteError::ActiveOutOfRange)));
    let other = empty_grid(UVec3::new(41, 8, 8), 0.5, Vec3::new(-1.0, 0.0, 2.0));
    let layers = vec![layer(0, "a", true, lump((0, 0, 0))), layer(1, "b", true, other)];
    let mixed = ProjectScene { layers, active: 0 };
    assert!(matches!(write_project_scene(&mixed), Err(WriteError::DomainMismatch)));
}

#[test]
fn a_written_file_has_the_announced_layout() {
    let bytes = two_layers();
    assert_eq!(&bytes[0..8], MAGIC);
    let word = |at: usize| read_u32(&bytes, at).unwrap();
    assert_eq!(word(8), 3);
    assert_eq!((word(16), word(20), word(24)), (40, 8, 8));
    assert_eq!((word(44), word(48)), (2, 1));
    assert_eq!(bytes.len(), 52 + 2 * 16 + "Käfer".len() + 2 * (12 + 32768 * 4));
}

#[test]
fn short_reads_are_reported() {
    let bytes = [1u8, 2, 3, 4, 5];
    assert_eq!(read_u32(&bytes, 1).unwrap(), 0x05040302);
    assert!(matches!(read_u32(&bytes, 2), Err(ReadError::Truncated)));
    assert_eq!(read_exact_trunc(&bytes, 0, 5).unwrap(), vec![1, 2, 3, 4, 5]);
    assert!(matches!(read_exact_trunc(&bytes, 5, 1), Err(ReadError::Truncated)));
}

#[test]
fn reading_a_project_gives_the_active_layer() {
    let grid = read_project(&two_layers()).unwrap();
    assert_eq!(grid.to_dense(), lump((39, 7, 7)).to_dense());
}
