use noise::MultiFractal;
use noise::NoiseFn;
use noise::Perlin;
use noise::Fbm;

use rustpg::rtin::Rtin;

/// Samples one tile of fractal noise as fixed-point heights, the way the
/// sampler at the crate's edge does: world coordinates from the chunk
/// coordinate, heights scaled to milli-units.
fn sample_heights(seed: u32, chunk_x: i32, chunk_y: i32, grid: usize) -> Vec<i32> {
    let fbm = Fbm::<Perlin>::new(seed)
        .set_octaves(4)
        .set_frequency(0.02)
        .set_lacunarity(2.0)
        .set_persistence(0.5);
    let tile = (grid - 1) as f64;
    let mut out = Vec::with_capacity(grid * grid);
    for y in 0..grid {
        for x in 0..grid {
            let wx = chunk_x as f64 * tile + x as f64;
            let wy = chunk_y as f64 * tile + y as f64;
            let value = fbm.get([wx, wy]);
            out.push((value * 1000.0) as i32);
        }
    }
    out
}

#[test]
fn sampler_is_deterministic() {
    // Identical parameters produce bit-identical heightfields.
    let a = sample_heights(42, 3, -2, 17);
    let b = sample_heights(42, 3, -2, 17);
    assert_eq!(a, b);

    let fbm1 = Fbm::<Perlin>::new(7).set_octaves(5).set_frequency(0.013);
    let fbm2 = Fbm::<Perlin>::new(7).set_octaves(5).set_frequency(0.013);
    for i in 0..100 {
        let p = [i as f64 * 0.37, i as f64 * -1.11];
        assert_eq!(fbm1.get(p).to_bits(), fbm2.get(p).to_bits());
    }
}

#[test]
fn sampled_terrain_runs_through_the_pipeline() {
    let grid = 17usize;
    let rtin = Rtin::new(grid).expect("valid grid size");
    let terrain = sample_heights(9, 0, 0, grid);
    let tile = rtin.create_tile(&terrain).expect("matching heightfield");
    let coarse = tile.generate_mesh_data(2000);
    let fine = tile.generate_mesh_data(10);
    assert!(coarse.indices.len() <= fine.indices.len());
    assert!(fine.indices.len() <= 3 * 2 * (grid - 1) * (grid - 1));
    for mesh in [&coarse, &fine] {
        for &ix in &mesh.indices {
            assert!((ix as usize) < mesh.vertices.len());
        }
        for v in &mesh.vertices {
            assert_eq!(v.height, terrain[v.z * grid + v.x]);
        }
    }
}
