use tile2048::{Grid, GridCoord, MoveDirection, MoveEngine};

fn tile_value_at(grid: &Grid, x: u8, y: u8) -> Option<u16> {
    grid.get_tile(GridCoord { x, y }).unwrap().map(|t| t.value)
}

fn place(grid: &mut Grid, x: u8, y: u8, value: u16) {
    grid.add_new_tile(value, GridCoord { x, y }).unwrap();
}

#[test]
fn tiles_already_resting_at_the_bottom_do_not_move() {
    // bottom row (row index 3) holds [2, 2, 4, _]; everything rests already
    let mut grid = Grid::new(4).unwrap();
    place(&mut grid, 3, 0, 2);
    place(&mut grid, 3, 1, 2);
    place(&mut grid, 3, 2, 4);

    let result = MoveEngine::apply(&mut grid, MoveDirection::Down);

    assert_eq!(result.moved, false);
    assert_eq!(result.score_delta, 0);
    assert_eq!(tile_value_at(&grid, 3, 0), Some(2));
    assert_eq!(tile_value_at(&grid, 3, 1), Some(2));
    assert_eq!(tile_value_at(&grid, 3, 2), Some(4));
    assert_eq!(tile_value_at(&grid, 3, 3), None);
}

#[test]
fn a_row_compacts_and_merges_towards_the_right_edge() {
    // the same row, merge-tested in the perpendicular direction:
    // [2, 2, 4, _] moving Right becomes [_, _, 4, 4] and scores 4
    let mut grid = Grid::new(4).unwrap();
    place(&mut grid, 2, 0, 2);
    place(&mut grid, 2, 1, 2);
    place(&mut grid, 2, 2, 4);

    let result = MoveEngine::apply(&mut grid, MoveDirection::Right);

    assert_eq!(result.moved, true);
    assert_eq!(result.score_delta, 4);
    assert_eq!(tile_value_at(&grid, 2, 0), None);
    assert_eq!(tile_value_at(&grid, 2, 1), None);
    assert_eq!(tile_value_at(&grid, 2, 2), Some(4));
    assert_eq!(tile_value_at(&grid, 2, 3), Some(4));
}

#[test]
fn three_equal_tiles_merge_only_the_pair_nearest_the_edge() {
    // column [2, 2, 2, _] moving Down: [_, _, 2, 4], scoring 4 — not 8
    let mut grid = Grid::new(4).unwrap();
    place(&mut grid, 0, 0, 2);
    place(&mut grid, 1, 0, 2);
    place(&mut grid, 2, 0, 2);

    let result = MoveEngine::apply(&mut grid, MoveDirection::Down);

    assert_eq!(result.moved, true);
    assert_eq!(result.score_delta, 4);
    assert_eq!(tile_value_at(&grid, 0, 0), None);
    assert_eq!(tile_value_at(&grid, 1, 0), None);
    assert_eq!(tile_value_at(&grid, 2, 0), Some(2));
    assert_eq!(tile_value_at(&grid, 3, 0), Some(4));
}

#[test]
fn a_lone_tile_slides_the_whole_way_without_scoring() {
    let mut grid = Grid::new(4).unwrap();
    place(&mut grid, 0, 2, 2);

    let result = MoveEngine::apply(&mut grid, MoveDirection::Down);

    assert_eq!(result.moved, true);
    assert_eq!(result.score_delta, 0);
    assert_eq!(tile_value_at(&grid, 0, 2), None);
    assert_eq!(tile_value_at(&grid, 3, 2), Some(2));
}

#[test]
fn a_merged_tile_does_not_merge_again_in_the_same_move() {
    // column [4, 2, 2, _] moving Down: the 2s merge into a 4 at the bottom,
    // the old 4 lands on top of it — no cascade into an 8
    let mut grid = Grid::new(4).unwrap();
    place(&mut grid, 0, 1, 4);
    place(&mut grid, 1, 1, 2);
    place(&mut grid, 2, 1, 2);

    let result = MoveEngine::apply(&mut grid, MoveDirection::Down);

    assert_eq!(result.moved, true);
    assert_eq!(result.score_delta, 4);
    assert_eq!(tile_value_at(&grid, 3, 1), Some(4));
    assert_eq!(tile_value_at(&grid, 2, 1), Some(4));
    assert_eq!(tile_value_at(&grid, 1, 1), None);
    assert_eq!(tile_value_at(&grid, 0, 1), None);
}

#[test]
fn each_direction_stacks_tiles_against_its_own_edge() {
    for (dir, expect_x, expect_y) in [
        (MoveDirection::Up, 0u8, 1u8),
        (MoveDirection::Down, 3, 1),
        (MoveDirection::Left, 1, 0),
        (MoveDirection::Right, 1, 3),
    ] {
        let mut grid = Grid::new(4).unwrap();
        place(&mut grid, 1, 1, 8);

        let result = MoveEngine::apply(&mut grid, dir);

        assert_eq!(result.moved, true);
        assert_eq!(result.score_delta, 0);
        assert_eq!(tile_value_at(&grid, expect_x, expect_y), Some(8));
        assert_eq!(grid.get_empty_positions().len(), 15);
    }
}

#[test]
fn two_pairs_in_one_line_both_merge() {
    // row [2, 2, 4, 4] moving Left: [4, 8, _, _], scoring 12
    let mut grid = Grid::new(4).unwrap();
    place(&mut grid, 0, 0, 2);
    place(&mut grid, 0, 1, 2);
    place(&mut grid, 0, 2, 4);
    place(&mut grid, 0, 3, 4);

    let result = MoveEngine::apply(&mut grid, MoveDirection::Left);

    assert_eq!(result.moved, true);
    assert_eq!(result.score_delta, 12);
    assert_eq!(tile_value_at(&grid, 0, 0), Some(4));
    assert_eq!(tile_value_at(&grid, 0, 1), Some(8));
    assert_eq!(tile_value_at(&grid, 0, 2), None);
    assert_eq!(tile_value_at(&grid, 0, 3), None);
}

#[test]
fn would_change_reports_without_mutating() {
    let mut grid = Grid::new(4).unwrap();
    place(&mut grid, 3, 0, 2);

    assert_eq!(MoveEngine::would_change(&grid, MoveDirection::Down), false);
    assert_eq!(MoveEngine::would_change(&grid, MoveDirection::Up), true);
    // the dry run left the board as it was
    assert_eq!(tile_value_at(&grid, 3, 0), Some(2));
    assert_eq!(grid.get_empty_positions().len(), 15);
}
