use roomgen::Grid;

#[test]
fn should_create_grid() {
    assert_eq!(Grid::new(2, 3).to_string(), "##\n##\n##\n");
}

#[test]
fn should_change_tile() {
    let mut grid = Grid::new(2, 3);
    grid.set(1, 2, 'x');
    assert_eq!(grid.to_string(), "##\n##\n#x\n");
    assert_eq!(grid.get(1, 2).unwrap(), 'x');
}

#[test]
fn should_return_true_only_if_successfully_set_tile() {
    let mut grid = Grid::new(1, 1);
    assert!(!grid.set(1, 0, '@'));
    assert_eq!(grid.to_string(), "#\n");
    assert!(grid.set(0, 0, '@'));
    assert_eq!(grid.to_string(), "@\n");
}

#[test]
fn should_return_correct_dimmensions() {
    let grid = Grid::new(5, 8);
    assert_eq!(grid.width(), 5);
    assert_eq!(grid.height(), 8);
}

#[test]
fn get_fails_beyond_last_row() {
    let grid = Grid::new(4, 4);
    assert_eq!(grid.get(0, 4), None);
    assert_eq!(grid.get(3, 100), None);
    assert_eq!(grid.get(100, 3), None);
}

#[test]
fn set_and_get_round_trip_everywhere() {
    let mut grid = Grid::new_with_fill(3, 3, '#');
    for x in 0..3 {
        for y in 0..3 {
            assert!(grid.set(x, y, 'z'));
            assert_eq!(grid.get(x, y), Some('z'));
        }
    }
}

#[test]
fn new_with_fill_uses_the_fill_tile() {
    let grid = Grid::new_with_fill(2, 2, '.');
    assert_eq!(grid.to_string(), "..\n..\n");
    assert_eq!(grid.count('.'), 4);
    assert_eq!(grid.count('#'), 0);
}

#[test]
fn count_tallies_exactly() {
    let mut grid = Grid::new(3, 2);
    assert_eq!(grid.count('#'), 6);
    grid.set(0, 0, '.');
    grid.set(2, 1, '.');
    assert_eq!(grid.count('.'), 2);
    assert_eq!(grid.count('#'), 4);
}

#[test]
fn connect_with_equal_endpoints_writes_nothing() {
    let mut grid = Grid::new(4, 4);
    grid.connect(2, 2, 2, 2, '.');
    assert_eq!(grid.count('.'), 0);
    assert_eq!(grid.to_string(), "####\n####\n####\n####\n");
}

#[test]
fn connect_rasterizes_without_the_start_cell() {
    let mut grid = Grid::new(4, 1);
    grid.connect(0, 0, 3, 0, '.');
    assert_eq!(grid.to_string(), "#...\n");
}

#[test]
fn connect_takes_diagonal_steps() {
    let mut grid = Grid::new(3, 3);
    grid.connect(0, 0, 2, 2, '.');
    assert_eq!(grid.to_string(), "###\n#.#\n##.\n");
}

#[test]
fn fill_is_idempotent_on_a_filled_region() {
    let mut grid = Grid::new(5, 5);
    // Close off a 3x3 box in the upper-left corner with floor tiles.
    grid.connect(0, 0, 2, 0, '.');
    grid.connect(2, 0, 2, 2, '.');
    grid.connect(2, 2, 0, 2, '.');
    grid.connect(0, 2, 0, 0, '.');
    grid.fill(1, 1, '.');
    let once = grid.to_string();
    grid.fill(1, 1, '.');
    assert_eq!(grid.to_string(), once);
}

#[test]
fn fill_on_a_uniform_grid_changes_nothing_more() {
    let mut grid = Grid::new_with_fill(4, 3, '.');
    grid.fill(1, 1, '.');
    assert_eq!(grid.to_string(), "....\n....\n....\n");
}

#[test]
fn fill_stays_inside_a_closed_border() {
    let mut grid = Grid::new_with_fill(5, 5, '#');
    // A closed 3x3 box whose border is the fill tile itself.
    grid.connect(0, 0, 2, 0, 'o');
    grid.connect(2, 0, 2, 2, 'o');
    grid.connect(2, 2, 0, 2, 'o');
    grid.connect(0, 2, 0, 0, 'o');
    grid.fill(1, 1, 'o');
    // The box (border plus center) is filled; the rest was not touched.
    assert_eq!(grid.count('o'), 9);
    assert_eq!(grid.count('#'), 16);
}

#[test]
fn fill_ignores_an_out_of_bounds_seed() {
    let mut grid = Grid::new(3, 3);
    grid.fill(0, 50, '.');
    assert_eq!(grid.count('.'), 0);
}
