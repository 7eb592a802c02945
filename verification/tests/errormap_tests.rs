use rustpg::TerrainError;
use rustpg::rtin::Rtin;

/// Deterministic pseudo-random heights for a grid.
fn lcg_heights(n: usize, seed: u64) -> Vec<i32> {
    let mut state = seed;
    let mut out = Vec::with_capacity(n);
    for _ in 0..n {
        state = state.wrapping_mul(6364136223846793005).wrapping_add(1442695040888963407);
        out.push(((state >> 33) as i32 % 1000) - 500);
    }
    out
}

#[test]
fn mismatched_heightfield_is_rejected() {
    let rtin = Rtin::new(5).expect("valid grid size");
    let terrain = vec![0i32; 24];
    assert!(matches!(rtin.create_tile(&terrain), Err(TerrainError::TerrainSizeMismatch)));
}

#[test]
fn flat_heightfield_has_zero_errors() {
    let rtin = Rtin::new(5).expect("valid grid size");
    let terrain = vec![7i32; 25];
    let tile = rtin.create_tile(&terrain).expect("matching heightfield");
    assert_eq!(tile.errors, vec![0u64; 25]);
}

#[test]
fn center_bump_error_map() {
    // A single bump of height 8 at the center of a 3x3 grid: the center cell
    // carries a doubled interpolation error of 16, all other cells are flat.
    let rtin = Rtin::new(3).expect("valid grid size");
    let terrain = vec![0, 0, 0, 0, 8, 0, 0, 0, 0];
    let tile = rtin.create_tile(&terrain).expect("matching heightfield");
    assert_eq!(tile.errors, vec![0, 0, 0, 0, 16, 0, 0, 0, 0]);
}

#[test]
fn error_map_is_monotonic() {
    // For every non-leaf triangle, the aggregated error at its hypotenuse
    // midpoint dominates the aggregated errors at its children's midpoints.
    for (grid, seed) in [(9usize, 11u64), (17, 23)] {
        let rtin = Rtin::new(grid).expect("valid grid size");
        let terrain = lcg_heights(grid * grid, seed);
        let tile = rtin.create_tile(&terrain).expect("matching heightfield");
        for i in 0..rtin.num_parent_triangles {
            let k = 4 * i;
            let (ax, ay, bx, by) =
                (rtin.coords[k], rtin.coords[k + 1], rtin.coords[k + 2], rtin.coords[k + 3]);
            let (mx, my) = ((ax + bx) / 2, (ay + by) / 2);
            let (cx, cy) = (mx + my - ay, my + ax - mx);
            let mid = tile.errors[my * grid + mx];
            let left = tile.errors[((ay + cy) / 2) * grid + (ax + cx) / 2];
            let right = tile.errors[((by + cy) / 2) * grid + (bx + cx) / 2];
            assert!(mid >= left, "triangle {i}: {mid} < {left}");
            assert!(mid >= right, "triangle {i}: {mid} < {right}");
        }
    }
}
