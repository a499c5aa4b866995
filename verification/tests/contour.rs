use geo_rand::chain::sort_by_x;
use geo_rand::contour::{left_turn_test, points_to_contour};
use geo_rand::Point;

fn points(coordinates: &[(i32, i32)]) -> Vec<Point> {
    coordinates.iter().map(|&(x, y)| Point::new(x, y)).collect()
}

#[test]
fn contour_of_a_diamond() {
    let given = points(&[(0, 0), (2, 3), (4, 0), (2, -3)]);
    let ring = points_to_contour(&given).unwrap();
    assert_eq!(ring, points(&[(0, 0), (2, 3), (4, 0), (2, -3), (0, 0)]));
}

#[test]
fn contour_does_not_depend_on_where_the_ends_stand() {
    let given = points(&[(2, -3), (4, 0), (2, 3), (0, 0)]);
    let ring = points_to_contour(&given).unwrap();
    assert_eq!(ring, points(&[(0, 0), (2, 3), (4, 0), (2, -3), (0, 0)]));
}

#[test]
fn no_contour_of_no_points() {
    let given: Vec<Point> = Vec::new();
    assert_eq!(points_to_contour(&given), None);
}

#[test]
fn contour_of_distinct_points_has_one_point_more() {
    let given = points(&[(5, 1), (1, 1), (3, 4), (9, 2), (7, -2), (2, -1), (8, 8)]);
    let ring = points_to_contour(&given).unwrap();
    assert_eq!(ring.len(), given.len() + 1);
    assert_eq!(ring[0], ring[given.len()]);
    assert_eq!(
        ring,
        points(&[(1, 1), (3, 4), (8, 8), (9, 2), (7, -2), (5, 1), (2, -1), (1, 1)])
    );
}

#[test]
fn contour_of_one_point_names_it_three_times() {
    let given = points(&[(7, 7)]);
    let ring = points_to_contour(&given).unwrap();
    assert_eq!(ring, points(&[(7, 7), (7, 7), (7, 7)]));
}

#[test]
fn contour_of_two_points_goes_there_and_back() {
    let given = points(&[(3, 1), (1, 2)]);
    let ring = points_to_contour(&given).unwrap();
    assert_eq!(ring, points(&[(1, 2), (3, 1), (1, 2)]));
}

#[test]
fn points_equal_to_an_end_are_left_out() {
    let given = points(&[(0, 0), (2, 2), (0, 0), (4, 0), (4, 0), (2, -2)]);
    let ring = points_to_contour(&given).unwrap();
    assert_eq!(ring, points(&[(0, 0), (2, 2), (4, 0), (2, -2), (0, 0)]));
    assert_eq!(ring.len(), given.len() + 3 - 4);
}

#[test]
fn leftmost_is_the_first_of_the_smallest() {
    let given = points(&[(1, 5), (0, 1), (3, 0), (0, 2), (0, 3)]);
    let ring = points_to_contour(&given).unwrap();
    assert_eq!(ring[0], Point::new(0, 1));
    assert_eq!(ring[ring.len() - 1], Point::new(0, 1));
    for p in &given {
        assert!(ring[0].x <= p.x);
    }
}

#[test]
fn rightmost_is_the_last_of_the_largest() {
    let given = points(&[(5, 1), (0, 0), (5, 2), (2, 9), (5, 3), (1, -4)]);
    let ring = points_to_contour(&given).unwrap();
    // above the way from (0, 0) to (5, 3): (2, 9); below it: (5, 1), (5, 2), (1, -4)
    assert_eq!(
        ring,
        points(&[(0, 0), (2, 9), (5, 3), (5, 1), (5, 2), (1, -4), (0, 0)])
    );
}

#[test]
fn points_on_the_line_between_the_ends_go_above() {
    let given = points(&[(0, 0), (2, 2), (4, 4), (1, 1)]);
    let ring = points_to_contour(&given).unwrap();
    assert_eq!(ring, points(&[(0, 0), (1, 1), (2, 2), (4, 4), (0, 0)]));
}

#[test]
fn points_with_one_x_keep_their_order_in_both_chains() {
    let given = points(&[(0, 0), (5, 9), (5, 7), (5, 8), (5, -1), (5, -3), (5, -2), (10, 0)]);
    let ring = points_to_contour(&given).unwrap();
    assert_eq!(
        ring,
        points(&[
            (0, 0),
            (5, 9),
            (5, 7),
            (5, 8),
            (10, 0),
            (5, -1),
            (5, -3),
            (5, -2),
            (0, 0)
        ])
    );
}

#[test]
fn contour_may_run_back_over_itself() {
    // The chains are ordered by x alone. The three points above (5, 0) are joined as they
    // were given: up from (5, 1) to (5, 5), and back down over the same edge to (5, 3).
    let given = points(&[(0, 0), (10, 0), (5, 1), (5, 5), (5, 3), (4, -2)]);
    let ring = points_to_contour(&given).unwrap();
    assert_eq!(
        ring,
        points(&[(0, 0), (5, 1), (5, 5), (5, 3), (10, 0), (4, -2), (0, 0)])
    );
}

#[test]
fn contour_is_not_a_convex_hull() {
    // (3, 1) lies inside the hull of the others, and is a point of the ring all the same
    let given = points(&[(0, 0), (10, 0), (2, 6), (3, 1), (8, 6), (5, -4)]);
    let ring = points_to_contour(&given).unwrap();
    assert_eq!(
        ring,
        points(&[(0, 0), (2, 6), (3, 1), (8, 6), (10, 0), (5, -4), (0, 0)])
    );
}

#[test]
fn left_turn_test_takes_the_sign_of_the_cross_product() {
    let origin = Point::new(0, 0);
    let toward = Point::new(4, 0);
    assert!(left_turn_test(&origin, &toward, &Point::new(2, 3)));
    assert!(!left_turn_test(&origin, &toward, &Point::new(2, -3)));
    assert!(left_turn_test(&origin, &toward, &Point::new(2, 0)));
    assert!(left_turn_test(&origin, &toward, &Point::new(-7, 0)));
    assert!(left_turn_test(&Point::new(1, 1), &Point::new(3, 2), &Point::new(2, 2)));
    assert!(!left_turn_test(&Point::new(1, 1), &Point::new(3, 2), &Point::new(3, 1)));
}

#[test]
fn left_turn_test_is_exact_at_the_edge_of_the_grid() {
    let origin = Point::new(i32::MIN, i32::MIN);
    let toward = Point::new(i32::MAX, i32::MAX);
    assert!(left_turn_test(&origin, &toward, &Point::new(i32::MIN, i32::MAX)));
    assert!(!left_turn_test(&origin, &toward, &Point::new(i32::MAX, i32::MIN)));
    assert!(left_turn_test(&origin, &toward, &Point::new(0, 0)));
    assert!(left_turn_test(&origin, &toward, &Point::new(i32::MAX - 1, i32::MAX)));
    assert!(!left_turn_test(&origin, &toward, &Point::new(i32::MAX, i32::MAX - 1)));
}

#[test]
fn sort_by_x_ascends_and_keeps_ties() {
    let given = points(&[(3, 0), (1, 0), (2, 0), (1, 1), (3, 1), (1, 2)]);
    assert_eq!(
        sort_by_x(&given, false),
        points(&[(1, 0), (1, 1), (1, 2), (2, 0), (3, 0), (3, 1)])
    );
}

#[test]
fn sort_by_x_descends_and_keeps_ties() {
    let given = points(&[(3, 0), (1, 0), (2, 0), (1, 1), (3, 1), (1, 2)]);
    assert_eq!(
        sort_by_x(&given, true),
        points(&[(3, 0), (3, 1), (2, 0), (1, 0), (1, 1), (1, 2)])
    );
}

#[test]
fn sort_by_x_of_nothing_is_nothing() {
    let given: Vec<Point> = Vec::new();
    assert_eq!(sort_by_x(&given, false), Vec::new());
}

#[test]
fn contour_through_every_point_of_a_grid_row() {
    let given = points(&[(3, 0), (0, 0), (2, 0), (1, 0), (4, 0)]);
    let ring = points_to_contour(&given).unwrap();
    // every point lies on the line between the ends, so all go above
    assert_eq!(
        ring,
        points(&[(0, 0), (1, 0), (2, 0), (3, 0), (4, 0), (0, 0)])
    );
    assert_eq!(ring.len(), given.len() + 1);
}

#[test]
fn contour_of_points_on_one_vertical() {
    let given = points(&[(1, 5), (1, 2), (1, 9), (1, 3)]);
    let ring = points_to_contour(&given).unwrap();
    // leftmost is the first point, rightmost the last; from (1, 5) up to (1, 3)
    // the way goes down, so (1, 2) lies on it and (1, 9) too
    assert_eq!(ring, points(&[(1, 5), (1, 2), (1, 9), (1, 3), (1, 5)]));
}

#[test]
fn contour_of_two_or_more_points_has_one_point_more_at_most() {
    let lists: Vec<Vec<(i32, i32)>> = vec![
        vec![(1, 1), (1, 1)],
        vec![(1, 1), (1, 1), (1, 1)],
        vec![(0, 0), (3, 3), (0, 0)],
        vec![(0, 0), (3, 3), (3, 3), (1, 2)],
        vec![(2, 0), (0, 0), (1, 5), (1, -5), (0, 0)],
        vec![(0, 0), (1, 0), (2, 0)],
    ];
    let lengths = [3, 3, 3, 4, 5, 4];
    for (given, length) in lists.iter().zip(lengths) {
        let ring = points_to_contour(&points(given)).unwrap();
        assert_eq!(ring.len(), length);
        assert!(3 <= ring.len() && ring.len() <= given.len() + 1);
        assert_eq!(ring[0], ring[ring.len() - 1]);
    }
}
