use roomgen::{ConfigError, Grid, Point, Room, RoomGenerator};

#[test]
fn rejects_zero_width() {
    assert_eq!(
        RoomGenerator::new(0, 5, 500, -2, 2, 500).unwrap_err(),
        ConfigError::ZeroWidth
    );
}

#[test]
fn rejects_zero_height() {
    assert_eq!(
        RoomGenerator::new(5, 0, 500, -2, 2, 500).unwrap_err(),
        ConfigError::ZeroHeight
    );
}

#[test]
fn rejects_reversed_offset_range() {
    assert_eq!(
        RoomGenerator::new(5, 5, 500, 3, -3, 500).unwrap_err(),
        ConfigError::OffsetRange
    );
}

#[test]
fn rejects_chance_beyond_scale() {
    assert_eq!(
        RoomGenerator::new(5, 5, 1001, -2, 2, 500).unwrap_err(),
        ConfigError::ChanceRange
    );
    assert_eq!(
        RoomGenerator::new(5, 5, 500, -2, 2, 1001).unwrap_err(),
        ConfigError::ChanceRange
    );
}

#[test]
fn rejects_oversized_dimensions() {
    assert_eq!(
        RoomGenerator::new(usize::MAX, 5, 500, -2, 2, 500).unwrap_err(),
        ConfigError::TooLarge
    );
}

#[test]
fn accepts_a_sane_configuration() {
    assert!(RoomGenerator::new(20, 15, 900, -2, 2, 500).is_ok());
}

#[test]
fn room_wraps_outline_with_bounding_box() {
    let mut outline = Vec::new();
    for x in 0..=4 {
        outline.push(Point::new(x, 0));
    }
    for y in 1..=3 {
        outline.push(Point::new(4, y));
    }
    for x in (0..4).rev() {
        outline.push(Point::new(x, 3));
    }
    for y in (1..3).rev() {
        outline.push(Point::new(0, y));
    }
    outline.push(Point::new(0, 0));
    let room = Room::new(outline);
    let mut grid = Grid::new_with_fill(10, 10, '#');
    room.draw(&mut grid, &Point::new(1, 1));
    // The rectangle outline is stamped and its interior flood-filled:
    // a full 5x4 block of floor.
    assert_eq!(grid.count('.'), 20);
}

#[test]
fn draw_ignores_points_outside_the_grid() {
    let outline = vec![Point::new(0, 0), Point::new(1, 0), Point::new(1, 1), Point::new(0, 1)];
    let room = Room::new(outline);
    let mut grid = Grid::new_with_fill(3, 3, '#');
    // A far-away position: every stamped point and the fill seed miss the
    // grid, which stays untouched.
    room.draw(&mut grid, &Point::new(100, 100));
    assert_eq!(grid.count('.'), 0);
}

#[test]
fn should_fill_only_room() {
    // Repeated end-to-end trials: an irregular room drawn on a 30x30 grid
    // must never leak its floor fill outside the outline, so the wall tiles
    // always stay in the majority.
    let room_gen = RoomGenerator::new(20, 15, 900, -2, 2, 500).unwrap();
    for _ in 0..1000 {
        let mut grid = Grid::new_with_fill(30, 30, '#');
        let room = room_gen.generate();
        room.draw(&mut grid, &Point::new(5, 7));
        let floor = grid.count('.');
        let wall = grid.count('#');
        assert!(floor > 0);
        assert!(wall > floor, "fill leaked: {} walls vs {} floors\n{}", wall, floor, grid.to_string());
    }
}
