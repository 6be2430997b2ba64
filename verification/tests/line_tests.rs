use roomgen::line_gen::{connect_points, dediagonalize, straight_line};
use roomgen::{DistortedLineGnerator, Point};

#[test]
fn straight_line_of_a_point_is_the_point() {
    let p = Point::new(3, -4);
    let line = straight_line(&p, &p);
    assert_eq!(line, vec![Point::new(3, -4)]);
}

#[test]
fn straight_line_samples_and_rounds() {
    let line = straight_line(&Point::new(0, 0), &Point::new(4, 2));
    // Five samples; the fractional y values 0.5 and 1.5 round away from zero.
    assert_eq!(
        line,
        vec![
            Point::new(0, 0),
            Point::new(1, 1),
            Point::new(2, 1),
            Point::new(3, 2),
            Point::new(4, 2),
        ]
    );
}

#[test]
fn straight_line_handles_negative_direction() {
    let line = straight_line(&Point::new(2, 0), &Point::new(-1, 0));
    assert_eq!(
        line,
        vec![Point::new(2, 0), Point::new(1, 0), Point::new(0, 0), Point::new(-1, 0)]
    );
}

#[test]
fn connect_points_keeps_adjacent_pairs_and_dedups() {
    let input = vec![Point::new(0, 0), Point::new(0, 0), Point::new(1, 0)];
    let out = connect_points(input);
    assert_eq!(out, vec![Point::new(0, 0), Point::new(1, 0)]);
}

#[test]
fn connect_points_bridges_a_gap() {
    let input = vec![Point::new(0, 0), Point::new(3, 0)];
    let out = connect_points(input);
    assert_eq!(
        out,
        vec![Point::new(0, 0), Point::new(1, 0), Point::new(2, 0), Point::new(3, 0)]
    );
}

#[test]
fn connect_points_keeps_single_points() {
    let input = vec![Point::new(5, 5)];
    let out = connect_points(input);
    assert_eq!(out, vec![Point::new(5, 5)]);
}

#[test]
fn dediagonalize_splits_a_diagonal_step() {
    let input = vec![Point::new(0, 0), Point::new(1, 1)];
    let out = dediagonalize(input);
    assert_eq!(out.len(), 3);
    assert_eq!(out[0], Point::new(0, 0));
    assert_eq!(out[2], Point::new(1, 1));
    let elbow = out[1];
    assert!(elbow == Point::new(1, 0) || elbow == Point::new(0, 1));
}

#[test]
fn dediagonalize_keeps_axis_steps() {
    let input = vec![Point::new(0, 0), Point::new(1, 0), Point::new(1, 1)];
    let out = dediagonalize(input.clone());
    assert_eq!(out, input);
}

#[test]
fn distort_points_keeps_endpoints_and_length() {
    let gen = DistortedLineGnerator::new(1000);
    let input = straight_line(&Point::new(0, 0), &Point::new(10, 0));
    for _ in 0..50 {
        let out = gen.distort_points(input.clone());
        assert_eq!(out.len(), input.len());
        assert_eq!(out[0], Point::new(0, 0));
        assert_eq!(out[out.len() - 1], Point::new(10, 0));
        for (p, q) in input.iter().zip(out.iter()) {
            let dx = (q.x - p.x).abs();
            let dy = (q.y - p.y).abs();
            assert!(dx + dy <= 1);
        }
    }
}

#[test]
fn generated_path_has_no_diagonal_steps() {
    let gen = DistortedLineGnerator::new(900);
    for _ in 0..200 {
        let path = gen.generate(&Point::new(0, 0), &Point::new(12, 5));
        assert!(path.len() >= 2);
        assert_eq!(path[0], Point::new(0, 0));
        assert_eq!(path[path.len() - 1], Point::new(12, 5));
        for w in path.windows(2) {
            let dx = w[1].x - w[0].x;
            let dy = w[1].y - w[0].y;
            assert!(dx == 0 || dy == 0, "diagonal step from {:?} to {:?}", w[0], w[1]);
            assert!(
                dx.abs() + dy.abs() == 1,
                "step from {:?} to {:?} is not a unit step",
                w[0],
                w[1]
            );
        }
    }
}

#[test]
fn generate_on_equal_endpoints_is_the_single_point() {
    let gen = DistortedLineGnerator::new(500);
    let path = gen.generate(&Point::new(4, 4), &Point::new(4, 4));
    assert_eq!(path, vec![Point::new(4, 4)]);
}

#[test]
fn zero_distortion_keeps_the_straight_line() {
    let gen = DistortedLineGnerator::new(0);
    let line = straight_line(&Point::new(0, 0), &Point::new(5, 0));
    let distorted = gen.distort_points(line.clone());
    assert_eq!(distorted, line);
    for _ in 0..20 {
        let path = gen.generate(&Point::new(0, 0), &Point::new(5, 0));
        assert_eq!(path, line);
    }
}

#[test]
fn full_distortion_nudges_every_interior_point() {
    let gen = DistortedLineGnerator::new(1000);
    let input = straight_line(&Point::new(0, 0), &Point::new(10, 0));
    for _ in 0..20 {
        let out = gen.distort_points(input.clone());
        for (p, q) in input.iter().zip(out.iter()).skip(1).take(input.len() - 2) {
            let dx = (q.x - p.x).abs();
            let dy = (q.y - p.y).abs();
            assert_eq!(dx + dy, 1, "interior point {:?} was not nudged", p);
        }
    }
}
