use dull_life::grid::WorldError;
use dull_life::index::build_living_cell_key;
use dull_life::world::DullWorld;

#[test]
fn it_should_not_create_world_if_rows_too_small() {
    let result = DullWorld::from_config(vec![vec![]]);
    assert!(result.is_err());
    assert_eq!(
        result.err().unwrap().message(),
        "Grid row must have a minimum length of 2"
    );
}

#[test]
fn it_should_not_create_world_if_cols_too_small() {
    let result = DullWorld::from_config(vec![vec![0], vec![0]]);

    assert!(result.is_err());
    assert_eq!(
        result.err().unwrap().message(),
        "Grid column must have a minimum length of 2"
    );
}

#[test]
fn it_should_not_create_world_if_cols_len_are_inconsitent() {
    let result = DullWorld::from_config(vec![vec![0, 0], vec![0, 0, 0]]);

    assert!(result.is_err());
    assert_eq!(
        result.err().unwrap().message(),
        "All grid columns must be of the same length"
    );
}

#[test]
fn it_should_create_world() {
    let result = DullWorld::from_config(vec![vec![1; 3]; 2]);

    assert!(result.is_ok());
    let mut living_cells = result.unwrap().get_living_cells();
    living_cells.sort();

    assert_eq!(
        living_cells,
        [(0, 0), (0, 1), (0, 2), (1, 0), (1, 1), (1, 2)]
    );
}

/// Any live cell with fewer than two live neighbours dies, as if caused by underpopulation.
#[test]
fn it_should_die_if_less_than_two_live_neighbours() {
    let config = vec![vec![0, 0, 0], vec![0, 1, 0], vec![0, 0, 0]];
    let result = DullWorld::from_config(config);

    assert!(result.is_ok());
    let mut world = result.unwrap();
    world.step();

    assert_eq!(world.get_living_cells(), []);
}

#[test]
fn it_should_not_die_if_two_or_three_live_neighbours() {
    let config = vec![
        vec![0, 0, 0, 0, 0],
        vec![0, 1, 1, 1, 0],
        vec![0, 0, 0, 0, 0],
    ];
    let result = DullWorld::from_config(config);

    assert!(result.is_ok());
    let mut world = result.unwrap();
    world.step();

    let mut living_cells = world.get_living_cells();
    living_cells.sort();

    assert_eq!(living_cells, [(0, 2), (1, 2), (2, 2)]);
}

#[test]
fn it_should_die_if_more_than_three_live_neighbours() {
    let config = vec![
        vec![0, 0, 0, 0, 0],
        vec![0, 0, 1, 0, 0],
        vec![0, 1, 1, 1, 0],
        vec![0, 0, 1, 0, 0],
        vec![0, 0, 0, 0, 0],
    ];
    let result = DullWorld::from_config(config);

    assert!(result.is_ok());
    let mut world = result.unwrap();
    world.step();

    let mut living_cells = world.get_living_cells();
    living_cells.sort();

    assert_eq!(
        living_cells,
        [
            (1, 1),
            (1, 2),
            (1, 3),
            (2, 1),
            (2, 3),
            (3, 1),
            (3, 2),
            (3, 3)
        ]
    );
}

#[test]
fn it_should_revive_if_exactly_three_live_neighbours() {
    let config = vec![
        vec![0, 0, 0, 0, 0],
        vec![0, 0, 1, 0, 0],
        vec![0, 0, 1, 0, 0],
        vec![0, 0, 1, 0, 0],
        vec![0, 0, 0, 0, 0],
    ];
    let result = DullWorld::from_config(config);

    assert!(result.is_ok());
    let mut world = result.unwrap();
    world.step();

    let mut living_cells = world.get_living_cells();
    living_cells.sort();

    assert_eq!(living_cells, [(2, 1), (2, 2), (2, 3)]);
}

#[test]
fn construction_errors_carry_their_kind() {
    assert_eq!(
        DullWorld::from_config(vec![]).err().unwrap(),
        WorldError::TooFewRows
    );
    assert_eq!(
        DullWorld::from_config(vec![vec![0, 0]]).err().unwrap(),
        WorldError::TooFewRows
    );
    assert_eq!(
        DullWorld::from_config(vec![vec![0], vec![0], vec![0]])
            .err()
            .unwrap(),
        WorldError::TooFewColumns
    );
    assert_eq!(
        DullWorld::from_config(vec![vec![0, 0], vec![0, 0, 0]])
            .err()
            .unwrap(),
        WorldError::InconsistentOrInvalidGrid
    );
}

#[test]
fn cell_values_outside_binary_are_rejected() {
    let result = DullWorld::from_config(vec![vec![0, 2], vec![0, 0]]);
    assert!(result.is_err());
    assert_eq!(
        result.err().unwrap(),
        WorldError::InconsistentOrInvalidGrid
    );
    assert_eq!(
        DullWorld::from_config(vec![vec![0, 1], vec![255, 0]])
            .err()
            .unwrap(),
        WorldError::InconsistentOrInvalidGrid
    );
}

#[test]
fn living_cells_match_the_input_grid() {
    let config = vec![vec![1, 0, 0, 1], vec![0, 0, 1, 0], vec![0, 1, 0, 0]];
    let world = DullWorld::from_config(config).unwrap();

    assert_eq!(world.dimensions(), (3, 4));
    let mut living_cells = world.get_living_cells();
    living_cells.sort();
    assert_eq!(living_cells, [(0, 0), (0, 3), (1, 2), (2, 1)]);

    for row in 0..3 {
        for col in 0..4 {
            let expected = matches!((row, col), (0, 0) | (0, 3) | (1, 2) | (2, 1));
            assert_eq!(world.is_live(row, col), expected);
        }
    }
}

#[test]
fn corner_block_across_the_wrapped_edge_is_a_still_life() {
    // The four live cells form a 2x2 block only because the top row and the
    // bottom row are adjacent on the torus; each has exactly three live
    // neighbors and survives, and no dead cell reaches three.
    let config = vec![
        vec![1, 1, 0, 0],
        vec![0, 0, 0, 0],
        vec![0, 0, 0, 0],
        vec![1, 1, 0, 0],
    ];
    let mut world = DullWorld::from_config(config).unwrap();
    for _ in 0..3 {
        world.step();
        let mut living_cells = world.get_living_cells();
        living_cells.sort();
        assert_eq!(living_cells, [(0, 0), (0, 1), (3, 0), (3, 1)]);
    }
}

#[test]
fn blinker_returns_after_two_steps() {
    let config = vec![
        vec![0, 0, 0, 0, 0],
        vec![0, 0, 0, 0, 0],
        vec![0, 1, 1, 1, 0],
        vec![0, 0, 0, 0, 0],
        vec![0, 0, 0, 0, 0],
    ];
    let mut world = DullWorld::from_config(config).unwrap();
    world.step();
    let mut flipped = world.get_living_cells();
    flipped.sort();
    assert_eq!(flipped, [(1, 2), (2, 2), (3, 2)]);
    world.step();
    let mut living_cells = world.get_living_cells();
    living_cells.sort();
    assert_eq!(living_cells, [(2, 1), (2, 2), (2, 3)]);
}

#[test]
fn distinct_cells_get_distinct_keys() {
    let cols = 7;
    let mut keys = Vec::new();
    for row in 0..5 {
        for col in 0..cols {
            keys.push(build_living_cell_key(row, col, cols));
        }
    }
    keys.sort();
    for pair in keys.windows(2) {
        assert!(pair[0] != pair[1]);
    }
}
