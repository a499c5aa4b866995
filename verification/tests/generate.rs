use geo_rand::{
    Accumulation, GeoRand, GeoRandError, GeoRandParameters, MultiPolygon, Phase, Point, Polygon,
    RandomSource,
};
use rand::rngs::StdRng;
use rand::Rng;
use rand::SeedableRng;

fn source(seed: u64) -> RandomSource {
    RandomSource::new(StdRng::seed_from_u64(seed))
}

fn wide_parameters() -> GeoRandParameters<i32> {
    GeoRandParameters {
        max_polygons_count: 20,
        max_polygon_vertices_count: 9,
        max_collisions_count: Some(50),
        min_x: -1_000_000,
        min_y: -1_000_000,
        max_x: 1_000_000,
        max_y: 1_000_000,
    }
}

/// Whether `candidate` intersects `other`, asked as a generation asks it.
fn intersect(candidate: &Polygon, other: &Polygon) -> bool {
    MultiPolygon(vec![other.clone()]).intersects(candidate)
}

fn assert_in_region(polygon: &Polygon, parameters: &GeoRandParameters<i32>) {
    let ring = polygon.exterior();
    assert!(ring.len() >= 3);
    assert!(ring.len() <= parameters.max_polygon_vertices_count);
    assert_eq!(ring[0], ring[ring.len() - 1]);
    for p in ring {
        assert!(parameters.min_x <= p.x && p.x <= parameters.max_x);
        assert!(parameters.min_y <= p.y && p.y <= parameters.max_y);
    }
}

#[test]
fn validate_names_the_fault() {
    let mut parameters = GeoRandParameters::default();
    assert_eq!(parameters.validate(), Ok(()));
    parameters.max_polygon_vertices_count = 3;
    assert_eq!(parameters.validate(), Err(GeoRandError::EmptyVertexCountRange));
    parameters.max_polygon_vertices_count = 4;
    assert_eq!(parameters.validate(), Ok(()));
    parameters.max_x = 0;
    assert_eq!(parameters.validate(), Err(GeoRandError::EmptyCoordinateRange));
    parameters.max_polygon_vertices_count = 0;
    assert_eq!(parameters.validate(), Err(GeoRandError::EmptyCoordinateRange));
    parameters.max_x = 1;
    parameters.max_y = -1;
    assert_eq!(parameters.validate(), Err(GeoRandError::EmptyCoordinateRange));
}

#[test]
fn random_points_lie_in_the_region() {
    let mut rng = source(1);
    let mut parameters = GeoRandParameters::default();
    parameters.min_x = -3;
    parameters.max_x = 4;
    parameters.min_y = 10;
    parameters.max_y = 12;
    for _ in 0..200 {
        let p = Point::rand(&mut rng, &parameters).unwrap();
        assert!(-3 <= p.x && p.x < 4);
        assert!(10 <= p.y && p.y < 12);
    }
}

#[test]
fn random_points_differ() {
    let mut rng = source(2);
    let parameters = wide_parameters();
    let first = Point::rand(&mut rng, &parameters).unwrap();
    let mut other_x = false;
    let mut other_y = false;
    let mut off_the_lower_bounds = false;
    for _ in 0..50 {
        let p = Point::rand(&mut rng, &parameters).unwrap();
        other_x = other_x || p.x != first.x;
        other_y = other_y || p.y != first.y;
        off_the_lower_bounds =
            off_the_lower_bounds || (p.x != parameters.min_x && p.y != parameters.min_y);
    }
    assert!(other_x && other_y && off_the_lower_bounds);
}

#[test]
fn a_point_of_a_region_of_one_point() {
    let mut rng = source(3);
    let mut parameters = GeoRandParameters::default();
    parameters.min_x = 5;
    parameters.max_x = 6;
    parameters.min_y = -2;
    parameters.max_y = -1;
    assert_eq!(Point::rand(&mut rng, &parameters), Ok(Point::new(5, -2)));
}

#[test]
fn no_point_of_an_empty_region() {
    let mut rng = source(4);
    let untouched = StdRng::seed_from_u64(4);
    let mut parameters = GeoRandParameters::default();
    parameters.max_x = parameters.min_x;
    assert_eq!(
        Point::rand(&mut rng, &parameters),
        Err(GeoRandError::EmptyCoordinateRange)
    );
    parameters.max_x = 100;
    parameters.min_y = 101;
    assert_eq!(
        Point::rand(&mut rng, &parameters),
        Err(GeoRandError::EmptyCoordinateRange)
    );
    assert_eq!(rng.into_inner(), untouched);
}

#[test]
fn random_polygons_lie_in_the_region() {
    let parameters = wide_parameters();
    for seed in 0..40 {
        let mut rng = source(seed);
        let polygon = Polygon::rand(&mut rng, &parameters).unwrap();
        assert_in_region(&polygon, &parameters);
    }
}

#[test]
fn random_polygons_in_a_small_region() {
    let mut parameters = GeoRandParameters::default();
    parameters.min_x = -2;
    parameters.max_x = 3;
    parameters.min_y = 7;
    parameters.max_y = 11;
    let mut generated = 0;
    for seed in 0..200 {
        let mut rng = source(seed);
        match Polygon::rand(&mut rng, &parameters) {
            Ok(polygon) => {
                assert_in_region(&polygon, &parameters);
                generated += 1;
            }
            Err(error) => assert_eq!(error, GeoRandError::EmptyCoordinateRange),
        }
    }
    assert!(generated > 0);
}

#[test]
fn random_polygons_have_fewer_points_than_asked() {
    let mut parameters = wide_parameters();
    parameters.max_polygon_vertices_count = 4;
    for seed in 0..40 {
        let mut rng = source(seed);
        let polygon = Polygon::rand(&mut rng, &parameters).unwrap();
        // three distinct points: the ring names the first of them twice
        assert_eq!(polygon.exterior().len(), 4);
    }
}

#[test]
fn random_polygons_differ_in_size() {
    let mut parameters = wide_parameters();
    parameters.max_polygon_vertices_count = 12;
    let mut sizes = Vec::new();
    for seed in 0..60 {
        let mut rng = source(seed);
        let polygon = Polygon::rand(&mut rng, &parameters).unwrap();
        let size = polygon.exterior().len();
        assert!(4 <= size && size <= 12);
        if !sizes.contains(&size) {
            sizes.push(size);
        }
    }
    assert!(sizes.len() > 1);
}

#[test]
fn no_polygon_of_three_points_at_most() {
    let mut parameters = wide_parameters();
    for count in 0..4 {
        parameters.max_polygon_vertices_count = count;
        let mut rng = source(5);
        let untouched = StdRng::seed_from_u64(5);
        assert_eq!(
            Polygon::rand(&mut rng, &parameters),
            Err(GeoRandError::EmptyVertexCountRange)
        );
        assert_eq!(rng.into_inner(), untouched);
    }
}

#[test]
fn no_polygon_in_an_empty_region() {
    let mut parameters = wide_parameters();
    parameters.min_y = parameters.max_y;
    parameters.max_polygon_vertices_count = 0;
    let mut rng = source(6);
    let untouched = StdRng::seed_from_u64(6);
    assert_eq!(
        Polygon::rand(&mut rng, &parameters),
        Err(GeoRandError::EmptyCoordinateRange)
    );
    assert_eq!(rng.into_inner(), untouched);
}

#[test]
fn no_polygon_in_a_thin_region() {
    let mut parameters = wide_parameters();
    parameters.max_x = parameters.min_x + 1;
    for seed in 0..20 {
        let mut rng = source(seed);
        assert_eq!(
            Polygon::rand(&mut rng, &parameters),
            Err(GeoRandError::EmptyCoordinateRange)
        );
    }
}

#[test]
fn same_seed_same_polygon() {
    let parameters = wide_parameters();
    for seed in 0..10 {
        let mut first = source(seed);
        let mut second = source(seed);
        assert_eq!(
            Polygon::rand(&mut first, &parameters),
            Polygon::rand(&mut second, &parameters)
        );
        assert_eq!(first.into_inner(), second.into_inner());
    }
}

#[test]
fn same_seed_same_set() {
    let parameters = wide_parameters();
    for seed in 0..10 {
        let mut first = source(seed);
        let mut second = source(seed);
        assert_eq!(
            MultiPolygon::rand(&mut first, &parameters),
            MultiPolygon::rand(&mut second, &parameters)
        );
        assert_eq!(first.into_inner(), second.into_inner());
    }
}

#[test]
fn other_seed_other_polygon() {
    let parameters = wide_parameters();
    let mut first = source(11);
    let mut second = source(12);
    assert_ne!(
        Polygon::rand(&mut first, &parameters),
        Polygon::rand(&mut second, &parameters)
    );
}

#[test]
fn polygons_of_a_set_do_not_intersect() {
    let parameters = wide_parameters();
    let mut sets = 0;
    for seed in 0..20 {
        let mut rng = source(seed);
        match MultiPolygon::rand(&mut rng, &parameters) {
            Ok(set) => {
                sets += 1;
                assert!(set.0.len() <= parameters.max_polygons_count);
                for (j, polygon) in set.0.iter().enumerate() {
                    assert_in_region(polygon, &parameters);
                    for earlier in &set.0[..j] {
                        assert!(!intersect(polygon, earlier));
                    }
                }
            }
            Err(error) => assert_eq!(error, GeoRandError::EmptyCoordinateRange),
        }
    }
    assert!(sets > 0);
}

#[test]
fn without_a_budget_the_set_is_full() {
    let mut parameters = wide_parameters();
    parameters.max_collisions_count = None;
    parameters.max_polygons_count = 30;
    let mut sets = 0;
    for seed in 0..20 {
        let mut rng = source(seed);
        match MultiPolygon::rand(&mut rng, &parameters) {
            Ok(set) => {
                sets += 1;
                assert_eq!(set.0.len(), 30);
                for polygon in &set.0 {
                    assert_in_region(polygon, &parameters);
                }
            }
            Err(error) => assert_eq!(error, GeoRandError::EmptyCoordinateRange),
        }
    }
    assert!(sets > 0);
}

#[test]
fn without_a_budget_polygons_may_overlap() {
    let mut parameters = wide_parameters();
    parameters.max_collisions_count = None;
    parameters.max_polygons_count = 40;
    let mut overlaps = false;
    for seed in 0..20 {
        let mut rng = source(seed);
        if let Ok(set) = MultiPolygon::rand(&mut rng, &parameters) {
            for (j, polygon) in set.0.iter().enumerate() {
                for earlier in &set.0[..j] {
                    overlaps = overlaps || intersect(polygon, earlier);
                }
            }
        }
    }
    assert!(overlaps);
}

#[test]
fn with_a_budget_of_zero_the_set_is_empty() {
    let mut parameters = wide_parameters();
    parameters.max_collisions_count = Some(0);
    let mut rng = source(7);
    let untouched = StdRng::seed_from_u64(7);
    assert_eq!(
        MultiPolygon::rand(&mut rng, &parameters),
        Ok(MultiPolygon(Vec::new()))
    );
    assert_eq!(rng.into_inner(), untouched);
}

#[test]
fn with_a_budget_of_zero_the_parameters_are_not_looked_at() {
    let mut parameters = wide_parameters();
    parameters.max_collisions_count = Some(0);
    parameters.max_x = parameters.min_x;
    parameters.max_polygon_vertices_count = 0;
    let mut rng = source(7);
    assert_eq!(
        MultiPolygon::rand(&mut rng, &parameters),
        Ok(MultiPolygon(Vec::new()))
    );
}

#[test]
fn a_set_of_no_polygons_is_empty() {
    let mut parameters = wide_parameters();
    parameters.max_polygons_count = 0;
    parameters.max_y = parameters.min_y;
    let mut rng = source(8);
    let untouched = StdRng::seed_from_u64(8);
    assert_eq!(
        MultiPolygon::rand(&mut rng, &parameters),
        Ok(MultiPolygon(Vec::new()))
    );
    assert_eq!(rng.into_inner(), untouched);
}

#[test]
fn with_a_budget_of_one_the_first_collision_ends_the_set() {
    // In a small region polygons collide soon: the set ends short of its count.
    let mut parameters = GeoRandParameters::default();
    parameters.max_polygons_count = 1000;
    parameters.max_collisions_count = Some(1);
    parameters.min_x = 0;
    parameters.max_x = 50;
    parameters.min_y = 0;
    parameters.max_y = 50;
    let mut sets = 0;
    for seed in 0..50 {
        let mut rng = source(seed);
        if let Ok(set) = MultiPolygon::rand(&mut rng, &parameters) {
            sets += 1;
            assert!(set.0.len() < 1000);
            for (j, polygon) in set.0.iter().enumerate() {
                for earlier in &set.0[..j] {
                    assert!(!intersect(polygon, earlier));
                }
            }
        }
    }
    assert!(sets > 0);
}

#[test]
fn no_set_in_an_empty_region() {
    let mut parameters = wide_parameters();
    parameters.min_x = parameters.max_x + 1;
    parameters.max_polygon_vertices_count = 2;
    let mut rng = source(9);
    let untouched = StdRng::seed_from_u64(9);
    assert_eq!(
        MultiPolygon::rand(&mut rng, &parameters),
        Err(GeoRandError::EmptyCoordinateRange)
    );
    assert_eq!(rng.into_inner(), untouched);
}

#[test]
fn no_set_of_polygons_of_three_points_at_most() {
    let mut parameters = wide_parameters();
    parameters.max_polygon_vertices_count = 3;
    parameters.max_collisions_count = None;
    let mut rng = source(10);
    let untouched = StdRng::seed_from_u64(10);
    assert_eq!(
        MultiPolygon::rand(&mut rng, &parameters),
        Err(GeoRandError::EmptyVertexCountRange)
    );
    assert_eq!(rng.into_inner(), untouched);
}

#[test]
fn sets_with_the_default_parameters() {
    let parameters = GeoRandParameters::default();
    for seed in 0..30 {
        let mut rng = source(seed);
        match MultiPolygon::rand(&mut rng, &parameters) {
            Ok(set) => {
                assert!(set.0.len() <= 60);
                for (j, polygon) in set.0.iter().enumerate() {
                    assert_in_region(polygon, &parameters);
                    for earlier in &set.0[..j] {
                        assert!(!intersect(polygon, earlier));
                    }
                }
            }
            Err(error) => assert_eq!(error, GeoRandError::EmptyCoordinateRange),
        }
    }
}

#[test]
fn a_filled_accumulation_is_over() {
    let mut parameters = GeoRandParameters::default();
    parameters.max_polygons_count = 8;
    parameters.max_collisions_count = Some(3);
    parameters.max_x = 200;
    parameters.max_y = 200;
    let mut filled = 0;
    let mut exhausted = 0;
    let mut reached = 0;
    for seed in 0..200 {
        let mut rng = source(seed);
        if let Ok(state) = Accumulation::fill(&mut rng, &parameters) {
            filled += 1;
            match state.phase(&parameters) {
                Phase::Accumulating => panic!("seed {} left the accumulation going on", seed),
                Phase::BudgetExhausted => {
                    exhausted += 1;
                    assert_eq!(state.collisions, 3);
                    assert!(state.accepted.0.len() < 8);
                }
                Phase::TargetReached => {
                    reached += 1;
                    assert!(state.collisions <= 3);
                    assert_eq!(state.accepted.0.len(), 8);
                }
            }
        }
    }
    assert!(filled > 0 && exhausted > 0 && reached > 0);
}

#[test]
fn fill_and_rand_accept_the_same_polygons() {
    let parameters = wide_parameters();
    for seed in 0..5 {
        let mut first = source(seed);
        let mut second = source(seed);
        let state = Accumulation::fill(&mut first, &parameters).unwrap();
        let set = MultiPolygon::rand(&mut second, &parameters).unwrap();
        assert_eq!(state.accepted, set);
    }
}

#[test]
fn a_point_is_drawn_x_first() {
    let parameters = wide_parameters();
    for seed in 0..10 {
        let mut rng = source(seed);
        let mut plain = StdRng::seed_from_u64(seed);
        let p = Point::rand(&mut rng, &parameters).unwrap();
        let x: i64 = plain.random_range(-1_000_000i64..1_000_000i64);
        let y: i64 = plain.random_range(-1_000_000i64..1_000_000i64);
        assert_eq!((i64::from(p.x), i64::from(p.y)), (x, y));
        assert_eq!(rng.into_inner(), plain);
    }
}

#[test]
fn a_polygon_is_made_of_its_draws_in_their_order() {
    let parameters = wide_parameters();
    let (min_x, max_x) = (i64::from(parameters.min_x), i64::from(parameters.max_x));
    let (min_y, max_y) = (i64::from(parameters.min_y), i64::from(parameters.max_y));
    for seed in 0..20 {
        let mut rng = source(seed);
        let mut plain = StdRng::seed_from_u64(seed);
        let polygon = Polygon::rand(&mut rng, &parameters).unwrap();

        let x1: i64 = plain.random_range(min_x..max_x);
        let y1: i64 = plain.random_range(min_y..max_y);
        let x2: i64 = plain.random_range(min_x..max_x);
        let y2: i64 = plain.random_range(min_y..max_y);
        let (box_min_x, box_max_x) = if x1 < x2 { (x1, x2) } else { (x2, x1) };
        let (box_min_y, box_max_y) = if y1 < y2 { (y1, y2) } else { (y2, y1) };
        let count: usize = plain.random_range(3..parameters.max_polygon_vertices_count);
        let mut vertices = Vec::new();
        for _ in 0..count {
            let x: i64 = plain.random_range(box_min_x..box_max_x);
            let y: i64 = plain.random_range(box_min_y..box_max_y);
            vertices.push(Point::new(x as i32, y as i32));
        }
        let dx: i64 = plain.random_range(min_x - box_min_x..max_x - box_max_x);
        let dy: i64 = plain.random_range(min_y - box_min_y..max_y - box_max_y);

        assert_eq!(Some(polygon), Polygon::from_vertices(&vertices, dx, dy));
        assert_eq!(rng.into_inner(), plain);
    }
}

#[test]
fn a_set_is_made_of_polygons_generated_in_turn() {
    let mut parameters = wide_parameters();
    parameters.max_collisions_count = None;
    parameters.max_polygons_count = 5;
    for seed in 0..10 {
        let mut rng = source(seed);
        let mut again = source(seed);
        let set = MultiPolygon::rand(&mut rng, &parameters).unwrap();
        let mut polygons = Vec::new();
        for _ in 0..5 {
            polygons.push(Polygon::rand(&mut again, &parameters).unwrap());
        }
        assert_eq!(set, MultiPolygon(polygons));
        assert_eq!(rng.into_inner(), again.into_inner());
    }
}

#[test]
fn a_set_under_a_budget_is_what_offering_each_polygon_gives() {
    let mut parameters = GeoRandParameters::default();
    parameters.max_polygons_count = 6;
    parameters.max_collisions_count = Some(4);
    parameters.max_x = 300;
    parameters.max_y = 300;
    let mut compared = 0;
    for seed in 0..100 {
        let mut rng = source(seed);
        let mut again = source(seed);
        if let Ok(filled) = Accumulation::fill(&mut rng, &parameters) {
            let mut state = Accumulation::new();
            while state.phase(&parameters) == Phase::Accumulating {
                let candidate = Polygon::rand(&mut again, &parameters).unwrap();
                state.offer(candidate, &parameters);
            }
            assert_eq!(state.accepted, filled.accepted);
            assert_eq!(state.collisions, filled.collisions);
            assert_eq!(rng.into_inner(), again.into_inner());
            compared += 1;
        }
    }
    assert!(compared > 0);
}

#[test]
fn a_source_gives_its_generator_back() {
    let rng = StdRng::seed_from_u64(33);
    assert_eq!(RandomSource::new(rng.clone()).into_inner(), rng);
}

#[test]
fn draws_lie_in_their_ranges() {
    let mut rng = source(34);
    let mut numbers = Vec::new();
    let mut counts = Vec::new();
    for _ in 0..200 {
        let number = rng.draw_between(-5, 5);
        assert!(-5 <= number && number < 5);
        if !numbers.contains(&number) {
            numbers.push(number);
        }
        let count = rng.draw_count(3, 7);
        assert!(3 <= count && count < 7);
        if !counts.contains(&count) {
            counts.push(count);
        }
    }
    assert_eq!(numbers.len(), 10);
    assert_eq!(counts.len(), 4);
}

#[test]
fn draws_from_ranges_of_one_number() {
    let mut rng = source(35);
    assert_eq!(rng.draw_between(7, 8), 7);
    assert_eq!(rng.draw_between(i64::MIN, i64::MIN + 1), i64::MIN);
    assert_eq!(rng.draw_between(i64::MAX - 1, i64::MAX), i64::MAX - 1);
    assert_eq!(rng.draw_count(3, 4), 3);
    assert_eq!(rng.draw_count(usize::MAX - 1, usize::MAX), usize::MAX - 1);
}

#[test]
fn draws_from_the_widest_ranges() {
    let mut rng = source(36);
    for _ in 0..20 {
        let number = rng.draw_between(i64::MIN, i64::MAX);
        assert!(number < i64::MAX);
        let count = rng.draw_count(0, usize::MAX);
        assert!(count < usize::MAX);
    }
}

#[test]
fn draws_are_those_of_the_generator() {
    let mut rng = source(37);
    let mut plain = StdRng::seed_from_u64(37);
    for _ in 0..10 {
        let expected: i64 = plain.random_range(-1000i64..1000i64);
        assert_eq!(rng.draw_between(-1000, 1000), expected);
        let expected: usize = plain.random_range(3usize..9usize);
        assert_eq!(rng.draw_count(3, 9), expected);
    }
    assert_eq!(rng.into_inner(), plain);
}
