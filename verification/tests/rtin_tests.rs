use rustpg::TerrainError;
use rustpg::rtin::Rtin;

#[test]
fn table_counts_for_all_valid_sizes() {
    for n in 1..=8u32 {
        let tile = 1usize << n;
        let grid = tile + 1;
        let rtin = Rtin::new(grid).expect("valid grid size");
        assert_eq!(rtin.grid_size, grid);
        assert_eq!(rtin.num_triangles, 2 * tile * tile - 2);
        assert_eq!(rtin.num_parent_triangles, rtin.num_triangles - tile * tile);
        assert_eq!(rtin.coords.len(), 4 * rtin.num_triangles);
    }
}

#[test]
fn table_corners_stay_on_grid() {
    let rtin = Rtin::new(9).expect("valid grid size");
    for &v in &rtin.coords {
        assert!(v <= 8);
    }
}

#[test]
fn table_entry_walk_example() {
    // Grid 5: triangle index 2 (tree id 4) stores hypotenuse (0,0)-(0,4).
    let rtin = Rtin::new(5).expect("valid grid size");
    assert_eq!(&rtin.coords[8..12], &[0, 0, 0, 4]);
    // The two seed triangles are the halves of the full square.
    assert_eq!(&rtin.coords[0..4], &[4, 4, 0, 0]);
    assert_eq!(&rtin.coords[4..8], &[0, 0, 4, 4]);
}

#[test]
fn grid_size_ten_is_rejected() {
    assert!(matches!(Rtin::new(10), Err(TerrainError::InvalidGridSize)));
}

#[test]
fn degenerate_and_oversized_grids_are_rejected() {
    assert!(matches!(Rtin::new(0), Err(TerrainError::InvalidGridSize)));
    assert!(matches!(Rtin::new(1), Err(TerrainError::InvalidGridSize)));
    assert!(matches!(Rtin::new(2), Err(TerrainError::InvalidGridSize)));
    assert!(matches!(Rtin::new(4098), Err(TerrainError::InvalidGridSize)));
    assert!(Rtin::new(3).is_ok());
    assert!(Rtin::new(257).is_ok());
}
