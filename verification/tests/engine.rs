use dull_life::dense::DenseWorld;
use dull_life::grid::WorldError;
use dull_life::world::DullWorld;

/// Enumerates the dense engine's live cells in row-major order.
fn dense_living_cells(world: &DenseWorld) -> Vec<(usize, usize)> {
    let (rows, cols) = world.dimensions();
    let mut cells = Vec::new();
    for row in 0..rows {
        for col in 0..cols {
            if world.is_live(row, col) {
                cells.push((row, col));
            }
        }
    }
    cells
}

/// A fixed pseudo-random binary grid, the same on every run.
fn scrambled_grid(rows: usize, cols: usize, mut seed: u64) -> Vec<Vec<u8>> {
    let mut grid = vec![vec![0u8; cols]; rows];
    for row in grid.iter_mut() {
        for cell in row.iter_mut() {
            seed = seed
                .wrapping_mul(6364136223846793005)
                .wrapping_add(1442695040888963407);
            if (seed >> 33) % 10 < 3 {
                *cell = 1;
            }
        }
    }
    grid
}

#[test]
fn both_engines_validate_alike() {
    assert_eq!(
        DenseWorld::from_config(vec![vec![]]).err().unwrap(),
        WorldError::TooFewRows
    );
    assert_eq!(
        DenseWorld::from_config(vec![vec![0], vec![0]]).err().unwrap(),
        WorldError::TooFewColumns
    );
    assert_eq!(
        DenseWorld::from_config(vec![vec![0, 0], vec![0, 3]])
            .err()
            .unwrap(),
        WorldError::InconsistentOrInvalidGrid
    );
    assert!(DenseWorld::from_config(vec![vec![0, 1], vec![1, 0]]).is_ok());
}

#[test]
fn engines_agree_generation_by_generation() {
    let grid = scrambled_grid(12, 17, 35);
    let mut sparse = DullWorld::from_config(grid.clone()).unwrap();
    let mut dense = DenseWorld::from_config(grid).unwrap();

    let mut initial = sparse.get_living_cells();
    initial.sort();
    assert_eq!(initial, dense_living_cells(&dense));

    for _ in 0..6 {
        sparse.step();
        dense.step();
        let mut sparse_cells = sparse.get_living_cells();
        sparse_cells.sort();
        assert_eq!(sparse_cells, dense_living_cells(&dense));
    }
}

#[test]
fn engines_agree_on_two_row_wrap_heavy_grids() {
    // Two-row and two-column grids make opposite neighbor slots coincide;
    // both engines must count such a doubled neighbor twice.
    let narrow = vec![vec![1, 0, 1, 1, 0], vec![0, 1, 0, 0, 1]];
    let mut sparse = DullWorld::from_config(narrow.clone()).unwrap();
    let mut dense = DenseWorld::from_config(narrow).unwrap();
    for _ in 0..4 {
        sparse.step();
        dense.step();
        let mut sparse_cells = sparse.get_living_cells();
        sparse_cells.sort();
        assert_eq!(sparse_cells, dense_living_cells(&dense));
    }
}

#[test]
fn dead_universe_never_springs_to_life() {
    let config = vec![vec![0, 0, 0], vec![0, 0, 0], vec![0, 0, 0]];
    let mut sparse = DullWorld::from_config(config.clone()).unwrap();
    let mut dense = DenseWorld::from_config(config).unwrap();
    for _ in 0..5 {
        sparse.step();
        dense.step();
        assert_eq!(sparse.get_living_cells(), []);
        assert_eq!(dense_living_cells(&dense), []);
    }
}

#[test]
fn lone_cell_dies_in_both_engines() {
    let config = vec![vec![0, 0, 0, 0], vec![0, 1, 0, 0], vec![0, 0, 0, 0]];
    let mut sparse = DullWorld::from_config(config.clone()).unwrap();
    let mut dense = DenseWorld::from_config(config).unwrap();
    sparse.step();
    dense.step();
    assert_eq!(sparse.get_living_cells(), []);
    assert_eq!(dense_living_cells(&dense), []);
}

#[test]
fn vertical_blinker_flips_in_dense_engine() {
    let config = vec![
        vec![0, 0, 0, 0, 0],
        vec![0, 0, 1, 0, 0],
        vec![0, 0, 1, 0, 0],
        vec![0, 0, 1, 0, 0],
        vec![0, 0, 0, 0, 0],
    ];
    let mut dense = DenseWorld::from_config(config).unwrap();
    dense.step();
    assert_eq!(dense_living_cells(&dense), [(2, 1), (2, 2), (2, 3)]);
}

#[test]
fn equal_worlds_step_to_equal_results() {
    let grid = scrambled_grid(9, 9, 7);
    let mut first = DullWorld::from_config(grid.clone()).unwrap();
    let mut second = DullWorld::from_config(grid).unwrap();
    for _ in 0..4 {
        first.step();
        second.step();
        let mut a = first.get_living_cells();
        a.sort();
        let mut b = second.get_living_cells();
        b.sort();
        assert_eq!(a, b);
    }
}
