use roomgen::Point;

fn distance(a: &Point, b: &Point) -> f32 {
    (a.dist_squared(b) as f32).sqrt()
}

#[test]
fn should_calc_distance() {
    assert_eq!(distance(&Point::new(1, 1), &Point::new(1, 2)), 1.0);
    assert_eq!(distance(&Point::new(0, 1), &Point::new(-1, 1)), 1.0);
    assert_eq!(distance(&Point::new(1, 1), &Point::new(2, 2)), 1.4142135);
    assert_eq!(distance(&Point::new(0, 0), &Point::new(2, 3)), 3.6055512);
}

#[test]
fn unit_diagonal_distance_is_root_two() {
    assert_eq!(Point::new(1, 1).dist_squared(&Point::new(2, 2)), 2);
    assert_eq!(distance(&Point::new(1, 1), &Point::new(2, 2)), 1.4142135);
}

#[test]
fn squared_distance_is_symmetric_and_zero_on_self() {
    let a = Point::new(-7, 3);
    let b = Point::new(12, -5);
    assert_eq!(a.dist_squared(&b), b.dist_squared(&a));
    assert_eq!(a.dist_squared(&a), 0);
    assert_eq!(b.dist_squared(&b), 0);
}

#[test]
fn sub_is_component_wise() {
    let a = Point::new(5, -2);
    let b = Point::new(3, 4);
    let d = a.sub(&b);
    assert_eq!(d, Point::new(2, -6));
}
