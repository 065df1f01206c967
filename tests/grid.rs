use rss_clean::point::Point;
use rss_clean::point_map::{GridError, PointMap, PointMapConfig};

fn config(x: u32, y: u32, res: u32) -> PointMapConfig {
    PointMapConfig { x_size: x, y_size: y, resolution: res }
}

#[test]
fn point_dist_sq() {
    let a = Point::new(3, 4);
    let b = Point::new(0, 0);
    assert_eq!(a.dist_sq(&b), 25);
    assert_eq!(b.dist_sq(&a), 25);
    let far = Point::new(u32::MAX, u32::MAX);
    let expected = 2 * (u32::MAX as u128) * (u32::MAX as u128);
    assert_eq!(far.dist_sq(&b), expected);
}

#[test]
fn point_with_resolution() {
    let p = Point::new(37, 129);
    assert_eq!(p.with_resolution(10), Point::new(30, 120));
    assert_eq!(p.with_resolution(1), p);
}

#[test]
fn point_offsets_saturate() {
    let p = Point::new(5, u32::MAX - 1);
    assert_eq!(p.sub_offset(10), Point::new(0, u32::MAX - 11));
    assert_eq!(p.add_offset(3), Point::new(8, u32::MAX));
}

#[test]
fn value_at_out_of_bounds() {
    let m: PointMap<u8> = PointMap::new(config(100, 50, 10));
    assert_eq!(m.cell_count(), 50);
    assert!(matches!(m.value_at(Point::new(100, 0)), Err(GridError::OutOfBounds)));
    assert!(matches!(m.value_at(Point::new(0, 50)), Err(GridError::OutOfBounds)));
    assert!(matches!(m.value_at(Point::new(99, 49)), Ok(None)));
}

#[test]
fn remainder_strip_is_dropped() {
    let mut m: PointMap<u8> = PointMap::new(config(105, 105, 10));
    assert_eq!(m.cell_count(), 100);
    assert_eq!(m.insert_if_absent(Point::new(101, 0), 1), Err(GridError::OutOfBounds));
}

#[test]
fn insert_if_absent_is_idempotent() {
    let mut m: PointMap<u8> = PointMap::new(config(100, 100, 10));
    let p = Point::new(23, 41);
    assert_eq!(m.insert_if_absent(p, 7), Ok(()));
    assert_eq!(m.insert_if_absent(p, 9), Ok(()));
    assert_eq!(m.insert_if_absent(Point::new(20, 40), 11), Ok(()));
    assert!(matches!(m.value_at(p), Ok(Some(7))));
    assert!(m.contains(Point::new(20, 40)));
    assert!(!m.contains(Point::new(30, 40)));
}

#[test]
fn within_radius_is_exact_at_the_boundary() {
    let mut m: PointMap<u8> = PointMap::new(config(100, 100, 10));
    for (x, y) in [(0, 0), (30, 0), (40, 0), (20, 20), (30, 30), (0, 30)] {
        m.insert_if_absent(Point::new(x, y), 1).unwrap();
    }
    let got = m.within_radius(Point::new(0, 0), 30);
    assert_eq!(
        got,
        vec![Point::new(0, 0), Point::new(30, 0), Point::new(20, 20), Point::new(0, 30)]
    );
}

#[test]
fn within_radius_matches_brute_force() {
    let mut m: PointMap<u8> = PointMap::new(config(200, 200, 20));
    let pts = [(0, 0), (20, 40), (60, 60), (100, 20), (180, 180), (40, 100), (80, 80)];
    for (x, y) in pts {
        m.insert_if_absent(Point::new(x, y), 0).unwrap();
    }
    for (cx, cy) in [(0, 0), (55, 61), (100, 100), (199, 3)] {
        for r in [0u32, 15, 20, 45, 60, 300] {
            let c = Point::new(cx, cy);
            let mut expected: Vec<Point> = m
                .occupied_points()
                .into_iter()
                .filter(|q| q.dist_sq(&c) <= (r as u128) * (r as u128))
                .collect();
            expected.sort_by_key(|q| (q.y, q.x));
            assert_eq!(m.within_radius(c, r), expected);
        }
    }
}

#[test]
fn within_square_covers_the_box() {
    let mut m: PointMap<u8> = PointMap::new(config(100, 100, 10));
    for (x, y) in [(0, 0), (30, 30), (40, 0), (50, 50)] {
        m.insert_if_absent(Point::new(x, y), 1).unwrap();
    }
    // Columns and rows 0 to 3, occupied or not.
    let got = m.within_square(Point::new(10, 10), 20);
    let mut expected = Vec::new();
    for y in 0..4 {
        for x in 0..4 {
            expected.push(Point::new(x * 10, y * 10));
        }
    }
    assert_eq!(got, expected);
}

#[test]
fn within_square_on_empty_grid() {
    let m: PointMap<u8> = PointMap::new(config(100, 100, 10));
    let got = m.within_square(Point::new(95, 95), 10);
    assert_eq!(got, vec![Point::new(80, 80), Point::new(90, 80), Point::new(80, 90), Point::new(90, 90)]);
}

#[test]
fn occupied_and_missing_points() {
    let mut m: PointMap<u8> = PointMap::new(config(20, 20, 10));
    m.insert_if_absent(Point::new(10, 0), 1).unwrap();
    m.insert_if_absent(Point::new(0, 10), 1).unwrap();
    assert_eq!(m.occupied_points(), vec![Point::new(10, 0), Point::new(0, 10)]);
    assert_eq!(m.missing_points(), vec![Point::new(0, 0), Point::new(10, 10)]);
}
