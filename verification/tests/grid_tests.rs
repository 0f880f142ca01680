use tile2048::{GameError, Grid, GridCoord};

fn tile_value_at(grid: &Grid, x: u8, y: u8) -> Option<u16> {
    grid.get_tile(GridCoord { x, y }).unwrap().map(|t| t.value)
}

#[test]
fn grid_adds_a_tile_of_given_value_to_the_given_position() {
    let mut grid = Grid::new(2).unwrap();

    let expected_value: u16 = 2;
    let x = 0;
    let y = 0;
    grid.add_new_tile(expected_value, GridCoord { x, y }).unwrap();

    let result = grid.get_tile(GridCoord { x, y }).unwrap();
    match result {
        None => assert!(false),
        Some(tile) => assert_eq!(tile.value, expected_value),
    };
}

#[test]
fn grid_does_not_add_a_tile_if_one_is_present_in_given_location() {
    let mut grid = Grid::new(2).unwrap();

    grid.add_new_tile(16, GridCoord { x: 0, y: 0 }).unwrap();
    let result = grid.add_new_tile(2, GridCoord { x: 0, y: 0 });

    assert_eq!(result.unwrap_err(), GameError::CellOccupied);
}

#[test]
fn grid_returns_tile_for_valid_location() {
    let mut grid = Grid::new(2).unwrap();
    let expected_value = 16;
    grid.add_new_tile(expected_value, GridCoord { x: 0, y: 0 }).unwrap();

    let result = grid.get_tile(GridCoord { x: 0, y: 0 }).unwrap();

    match result {
        Some(tile) => assert_eq!(expected_value, tile.value),
        None => assert!(false),
    };
}

#[test]
fn lib_adds_a_tile_of_given_value_to_the_given_position() {
    let mut grid = Grid::new(2).unwrap();

    let expected_value: u16 = 2;
    grid.add_new_tile(expected_value, GridCoord { x: 0, y: 0 }).unwrap();

    match tile_value_at(&grid, 0, 0) {
        None => assert!(false),
        Some(value) => assert_eq!(value, expected_value),
    };
}

#[test]
fn lib_does_not_add_a_tile_if_one_is_present_in_given_location() {
    let mut grid = Grid::new(2).unwrap();

    grid.add_new_tile(16, GridCoord { x: 0, y: 0 }).unwrap();
    let result = grid.add_new_tile(2, GridCoord { x: 0, y: 0 });

    assert_eq!(result.unwrap_err(), GameError::CellOccupied);
}

#[test]
fn lib_returns_tile_for_valid_location() {
    let mut grid = Grid::new(2).unwrap();
    let expected_value = 16;
    grid.add_new_tile(expected_value, GridCoord { x: 0, y: 0 }).unwrap();

    match tile_value_at(&grid, 0, 0) {
        Some(value) => assert_eq!(expected_value, value),
        None => assert!(false),
    };
}

#[test]
fn new_grid_of_each_valid_size_is_all_empty() {
    for size in [2u8, 4, 5] {
        let grid = Grid::new(size).unwrap();
        assert_eq!(grid.get_size(), size);
        let expected: usize = (size as usize) * (size as usize);
        assert_eq!(grid.get_empty_positions().len(), expected);
        for x in 0..size {
            for y in 0..size {
                assert_eq!(tile_value_at(&grid, x, y), None);
            }
        }
    }
}

#[test]
fn new_grid_rejects_sizes_below_two() {
    assert_eq!(Grid::new(0).unwrap_err(), GameError::InvalidSize);
    assert_eq!(Grid::new(1).unwrap_err(), GameError::InvalidSize);
}

#[test]
fn get_tile_rejects_coordinates_outside_the_grid() {
    let grid = Grid::new(2).unwrap();
    assert_eq!(
        grid.get_tile(GridCoord { x: 0, y: 3 }).unwrap_err(),
        GameError::OutOfBounds
    );
    assert_eq!(
        grid.get_tile(GridCoord { x: 3, y: 0 }).unwrap_err(),
        GameError::OutOfBounds
    );
    assert_eq!(
        grid.get_tile(GridCoord { x: 2, y: 0 }).unwrap_err(),
        GameError::OutOfBounds
    );
}

#[test]
fn add_new_tile_rejects_coordinates_outside_the_grid() {
    let mut grid = Grid::new(2).unwrap();
    assert_eq!(
        grid.add_new_tile(2, GridCoord { x: 2, y: 1 }).unwrap_err(),
        GameError::OutOfBounds
    );
}

#[test]
fn move_tile_relocates_and_empties_the_source() {
    let mut grid = Grid::new(4).unwrap();
    grid.add_new_tile(8, GridCoord { x: 1, y: 2 }).unwrap();

    grid.move_tile(GridCoord { x: 1, y: 2 }, GridCoord { x: 3, y: 2 }).unwrap();

    assert_eq!(tile_value_at(&grid, 1, 2), None);
    assert_eq!(tile_value_at(&grid, 3, 2), Some(8));
}

#[test]
fn move_tile_rejects_an_empty_source() {
    let mut grid = Grid::new(2).unwrap();
    let result = grid.move_tile(GridCoord { x: 0, y: 0 }, GridCoord { x: 1, y: 1 });
    assert_eq!(result.unwrap_err(), GameError::SourceEmpty);
}

#[test]
fn move_tile_rejects_an_occupied_destination() {
    let mut grid = Grid::new(2).unwrap();
    grid.add_new_tile(2, GridCoord { x: 0, y: 0 }).unwrap();
    grid.add_new_tile(4, GridCoord { x: 1, y: 1 }).unwrap();
    let result = grid.move_tile(GridCoord { x: 0, y: 0 }, GridCoord { x: 1, y: 1 });
    assert_eq!(result.unwrap_err(), GameError::DestinationOccupied);
}

#[test]
fn move_tile_rejects_coordinates_outside_the_grid() {
    let mut grid = Grid::new(2).unwrap();
    grid.add_new_tile(2, GridCoord { x: 0, y: 0 }).unwrap();
    let result = grid.move_tile(GridCoord { x: 0, y: 0 }, GridCoord { x: 0, y: 2 });
    assert_eq!(result.unwrap_err(), GameError::OutOfBounds);
}

#[test]
fn merge_into_doubles_the_destination_and_returns_the_new_value() {
    let mut grid = Grid::new(2).unwrap();
    grid.add_new_tile(2, GridCoord { x: 0, y: 0 }).unwrap();
    grid.add_new_tile(2, GridCoord { x: 0, y: 1 }).unwrap();

    let new_value = grid.merge_into(GridCoord { x: 0, y: 1 }, GridCoord { x: 0, y: 0 }).unwrap();

    assert_eq!(new_value, 4);
    assert_eq!(tile_value_at(&grid, 0, 0), Some(4));
    assert_eq!(tile_value_at(&grid, 0, 1), None);
}

#[test]
fn merge_into_rejects_unequal_values() {
    let mut grid = Grid::new(2).unwrap();
    grid.add_new_tile(2, GridCoord { x: 0, y: 0 }).unwrap();
    grid.add_new_tile(4, GridCoord { x: 0, y: 1 }).unwrap();
    let result = grid.merge_into(GridCoord { x: 0, y: 1 }, GridCoord { x: 0, y: 0 });
    assert_eq!(result.unwrap_err(), GameError::ValueMismatch);
}

#[test]
fn merge_into_rejects_an_empty_destination() {
    let mut grid = Grid::new(2).unwrap();
    grid.add_new_tile(2, GridCoord { x: 0, y: 0 }).unwrap();
    let result = grid.merge_into(GridCoord { x: 0, y: 0 }, GridCoord { x: 1, y: 1 });
    assert_eq!(result.unwrap_err(), GameError::ValueMismatch);
}

#[test]
fn merge_into_rejects_an_empty_source() {
    let mut grid = Grid::new(2).unwrap();
    grid.add_new_tile(2, GridCoord { x: 1, y: 1 }).unwrap();
    let result = grid.merge_into(GridCoord { x: 0, y: 0 }, GridCoord { x: 1, y: 1 });
    assert_eq!(result.unwrap_err(), GameError::SourceEmpty);
}

#[test]
fn merge_into_rejects_merging_a_cell_into_itself() {
    let mut grid = Grid::new(2).unwrap();
    grid.add_new_tile(2, GridCoord { x: 0, y: 0 }).unwrap();
    let result = grid.merge_into(GridCoord { x: 0, y: 0 }, GridCoord { x: 0, y: 0 });
    assert_eq!(result.unwrap_err(), GameError::InvalidArgument);
}

fn sorted_values(grid: &Grid) -> Vec<u16> {
    let size = grid.get_size();
    let mut values: Vec<u16> = Vec::new();
    for x in 0..size {
        for y in 0..size {
            if let Some(v) = tile_value_at(grid, x, y) {
                values.push(v);
            }
        }
    }
    values.sort();
    values
}

#[test]
fn shifts_keep_the_value_multiset_and_merges_trade_two_for_a_double() {
    let mut grid = Grid::new(4).unwrap();
    grid.add_new_tile(2, GridCoord { x: 0, y: 0 }).unwrap();
    grid.add_new_tile(2, GridCoord { x: 2, y: 0 }).unwrap();
    grid.add_new_tile(8, GridCoord { x: 1, y: 3 }).unwrap();
    assert_eq!(sorted_values(&grid), vec![2, 2, 8]);
    let sum_before: u32 = sorted_values(&grid).iter().map(|v| *v as u32).sum();

    // a pure shift keeps the multiset of values exactly
    grid.move_tile(GridCoord { x: 2, y: 0 }, GridCoord { x: 1, y: 0 }).unwrap();
    assert_eq!(sorted_values(&grid), vec![2, 2, 8]);

    // a merge removes two equal values and introduces their double
    grid.merge_into(GridCoord { x: 1, y: 0 }, GridCoord { x: 0, y: 0 }).unwrap();
    assert_eq!(sorted_values(&grid), vec![4, 8]);

    // which leaves the total value on the board unchanged
    let sum_after: u32 = sorted_values(&grid).iter().map(|v| *v as u32).sum();
    assert_eq!(sum_before, sum_after);
}

#[test]
fn empty_positions_come_in_row_major_order() {
    let mut grid = Grid::new(2).unwrap();
    grid.add_new_tile(2, GridCoord { x: 0, y: 0 }).unwrap();

    let empties = grid.get_empty_positions();

    assert_eq!(empties.len(), 3);
    assert!(empties[0].is_equal(&GridCoord { x: 0, y: 1 }));
    assert!(empties[1].is_equal(&GridCoord { x: 1, y: 0 }));
    assert!(empties[2].is_equal(&GridCoord { x: 1, y: 1 }));
}

#[test]
fn empty_count_plus_occupied_count_covers_the_board() {
    for (size, placed) in [(2u8, 2u8), (2, 4), (3, 2), (3, 4), (5, 5), (5, 20)] {
        let mut grid = Grid::new(size).unwrap();
        for i in 0..placed {
            let position = GridCoord { x: i / size, y: i % size };
            grid.add_new_tile(2, position).unwrap();
        }
        let total: usize = (size as usize) * (size as usize);
        assert_eq!(
            grid.get_empty_positions().len() + (placed as usize),
            total
        );
    }
}
