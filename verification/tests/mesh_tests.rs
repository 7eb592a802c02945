use rustpg::TerrainError;
use rustpg::chunk::TerrainGenerator;
use rustpg::chunk::build_chunk;
use rustpg::mesh::MeshVertex;
use rustpg::rtin::Rtin;
use rustpg::streaming::ChunkCoord;

/// Deterministic pseudo-random heights for a grid.
fn lcg_heights(n: usize, seed: u64) -> Vec<i32> {
    let mut state = seed;
    let mut out = Vec::with_capacity(n);
    for _ in 0..n {
        state = state.wrapping_mul(6364136223846793005).wrapping_add(1442695040888963407);
        out.push(((state >> 33) as i32 % 1000) - 500);
    }
    out
}

/// A strictly convex heightfield: every midpoint interpolation error is
/// positive, so a zero threshold forces the full-resolution mesh.
fn convex_heights(grid: usize) -> Vec<i32> {
    let mut out = Vec::with_capacity(grid * grid);
    for y in 0..grid {
        for x in 0..grid {
            out.push((x * x + y * y) as i32);
        }
    }
    out
}

#[test]
fn flat_heightfield_extracts_two_triangles() {
    // Grid 9, all-zero heights: any threshold yields exactly the two root
    // triangles over the four tile corners, all at height zero.
    let rtin = Rtin::new(9).expect("valid grid size");
    let terrain = vec![0i32; 81];
    let tile = rtin.create_tile(&terrain).expect("matching heightfield");
    for max_error in [0u64, 5, 1 << 20, u64::MAX] {
        let mesh = tile.generate_mesh_data(max_error);
        assert_eq!(mesh.indices.len(), 6);
        assert_eq!(
            mesh.vertices,
            vec![
                MeshVertex { x: 0, height: 0, z: 0 },
                MeshVertex { x: 8, height: 0, z: 8 },
                MeshVertex { x: 8, height: 0, z: 0 },
                MeshVertex { x: 0, height: 0, z: 8 },
            ]
        );
        assert_eq!(mesh.indices, vec![0, 1, 2, 1, 0, 3]);
    }
}

#[test]
fn zero_threshold_extracts_full_resolution() {
    let grid = 5usize;
    let rtin = Rtin::new(grid).expect("valid grid size");
    let terrain = convex_heights(grid);
    let tile = rtin.create_tile(&terrain).expect("matching heightfield");
    let mesh = tile.generate_mesh_data(0);
    // One leaf per half cell and every grid point used as a vertex.
    assert_eq!(mesh.indices.len(), 3 * 2 * (grid - 1) * (grid - 1));
    assert_eq!(mesh.vertices.len(), grid * grid);
}

#[test]
fn huge_threshold_extracts_two_triangles() {
    let grid = 5usize;
    let rtin = Rtin::new(grid).expect("valid grid size");
    let terrain = convex_heights(grid);
    let tile = rtin.create_tile(&terrain).expect("matching heightfield");
    let mesh = tile.generate_mesh_data(u64::MAX);
    assert_eq!(mesh.indices.len(), 6);
    assert_eq!(mesh.vertices.len(), 4);
}

#[test]
fn buffers_are_exactly_filled() {
    // The counting pass and the building pass agree: no index overflows the
    // vertex buffer and no vertex slot stays unused.
    let cases = [(5usize, 0u64, 3u64), (5, 40, 5), (9, 0, 7), (9, 120, 13), (17, 60, 29)];
    for (grid, max_error, seed) in cases {
        let rtin = Rtin::new(grid).expect("valid grid size");
        let terrain = lcg_heights(grid * grid, seed);
        let tile = rtin.create_tile(&terrain).expect("matching heightfield");
        let mesh = tile.generate_mesh_data(max_error);
        assert!(mesh.indices.len() % 3 == 0);
        assert!(!mesh.vertices.is_empty());
        let mut used = vec![false; mesh.vertices.len()];
        for &ix in &mesh.indices {
            assert!((ix as usize) < mesh.vertices.len(), "index out of range");
            used[ix as usize] = true;
        }
        assert!(used.iter().all(|&u| u), "unused vertex slot");
        // Every vertex matches the sampled height of its grid cell.
        for v in &mesh.vertices {
            assert_eq!(v.height, terrain[v.z * grid + v.x]);
        }
    }
}

#[test]
fn chunk_is_placed_by_coordinate() {
    let rtin = Rtin::new(9).expect("valid grid size");
    let terrain = vec![0i32; 81];
    let chunk = build_chunk(&rtin, ChunkCoord { x: 2, y: -3 }, &terrain, 0, 256)
        .expect("matching heightfield");
    assert_eq!(chunk.coordinate, ChunkCoord { x: 2, y: -3 });
    assert_eq!(chunk.position_x, 512);
    assert_eq!(chunk.position_y, 0);
    assert_eq!(chunk.position_z, 768);
    assert_eq!(chunk.mesh.indices.len(), 6);
    assert_eq!(chunk.mesh.vertices.len(), 4);
}

#[test]
fn terrain_generator_round_trip() {
    assert!(matches!(TerrainGenerator::new(9), Err(TerrainError::InvalidGridSize)));
    let tg = TerrainGenerator::new(8).expect("power-of-two chunk size");
    assert_eq!(tg.rtin.grid_size, 9);
    let terrain = vec![0i32; 81];
    let chunk = tg
        .generate_terrain_chunk(ChunkCoord { x: -1, y: 4 }, &terrain, 7)
        .expect("matching heightfield");
    assert_eq!(chunk.position_x, -8);
    assert_eq!(chunk.position_z, -32);
    assert_eq!(chunk.mesh.vertices.len(), 4);
    let short = vec![0i32; 80];
    assert!(matches!(
        tg.generate_terrain_chunk(ChunkCoord { x: 0, y: 0 }, &short, 7),
        Err(TerrainError::TerrainSizeMismatch)
    ));
}

#[test]
fn largest_supported_grid_runs_end_to_end() {
    let grid = 257usize;
    let rtin = Rtin::new(grid).expect("valid grid size");
    let terrain = vec![-3i32; grid * grid];
    let tile = rtin.create_tile(&terrain).expect("matching heightfield");
    let mesh = tile.generate_mesh_data(0);
    assert_eq!(mesh.indices.len(), 6);
    assert_eq!(mesh.vertices.len(), 4);
    for v in &mesh.vertices {
        assert_eq!(v.height, -3);
    }
}
