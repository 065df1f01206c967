use rss_clean::augment::{
    aug_boxes, augment_pass, augment_point, converge, populate_points, AugmentBox, GainMap,
    ReadingMap,
};
use rss_clean::config::CleanAugmentConfig;
use rss_clean::point::Point;
use rss_clean::point_map::{GridError, PointMap, PointMapConfig};
use rss_clean::record::{clean_records_stg2, RssRecord};

fn grid() -> PointMapConfig {
    PointMapConfig { x_size: 100, y_size: 100, resolution: 10 }
}

fn one_led_config(augm_dist: u32) -> CleanAugmentConfig {
    let mut cfg = CleanAugmentConfig::default_config();
    cfg.led_count = 1;
    cfg.led_positions = vec![Point::new(0, 0)];
    cfg.augm_dist = augm_dist;
    cfg
}

fn gains(like: &ReadingMap, f: impl Fn(Point) -> u32) -> GainMap {
    let mut g: GainMap = like.empty_like();
    for k in 0..g.cell_count() {
        let p = g.point_of_cell(k);
        g.insert_if_absent(p, vec![f(p)]).unwrap();
    }
    g
}

fn rec(x: u32, y: u32, rss: Vec<Option<u32>>) -> RssRecord {
    RssRecord { point: Point::new(x, y), rss }
}

#[test]
fn box_constructors() {
    let b = AugmentBox::new(Point::new(1, 2), Point::new(30, 40));
    assert_eq!(b.ur, Point::new(30, 40));
    assert_eq!(b.resolution, 10);
    let b = AugmentBox::new_with_size(Point::new(1610, 0), 1210, 1210);
    assert_eq!(b.ur, Point::new(2820, 1210));
    let boxes = aug_boxes();
    assert_eq!(boxes.len(), 4);
    assert_eq!(boxes[3].ll, Point::new(1610, 1550));
    assert_eq!(boxes[3].ur, Point::new(2820, 2760));
}

#[test]
fn symmetric_neighbors_give_their_value() {
    let recs = vec![
        rec(0, 0, vec![Some(5_000)]),
        rec(20, 0, vec![Some(5_000)]),
        rec(10, 0, vec![None]),
    ];
    let m = ReadingMap::from_records(&recs, grid()).unwrap();
    let g = gains(&m, |_| 1_000);
    let cfg = one_led_config(10);
    assert_eq!(augment_point(Point::new(10, 0), &m, &g, &cfg, 2), vec![Some(5_000)]);
}

#[test]
fn too_few_neighbors_stay_unknown() {
    let recs = vec![
        rec(0, 0, vec![Some(5_000)]),
        rec(20, 0, vec![Some(5_000)]),
        rec(10, 0, vec![None]),
    ];
    let m = ReadingMap::from_records(&recs, grid()).unwrap();
    let g = gains(&m, |_| 1_000);
    let cfg = one_led_config(10);
    assert_eq!(augment_point(Point::new(10, 0), &m, &g, &cfg, 3), vec![None]);
    assert_eq!(augment_point(Point::new(10, 0), &m, &g, &cfg, 0), vec![Some(5_000)]);
}

#[test]
fn rescaling_follows_the_gains() {
    // The neighbor's gain is half the target's: its reading doubles.
    let recs = vec![rec(0, 0, vec![Some(300)]), rec(10, 0, vec![None])];
    let m = ReadingMap::from_records(&recs, grid()).unwrap();
    let g = gains(&m, |p| if p.x == 0 { 500 } else { 1_000 });
    let cfg = one_led_config(10);
    assert_eq!(augment_point(Point::new(10, 0), &m, &g, &cfg, 1), vec![Some(600)]);
}

#[test]
fn mean_of_estimates_and_known_pass_through() {
    let recs = vec![
        rec(0, 0, vec![Some(100)]),
        rec(20, 0, vec![Some(201)]),
        rec(10, 0, vec![None]),
        rec(50, 50, vec![Some(7)]),
    ];
    let m = ReadingMap::from_records(&recs, grid()).unwrap();
    let g = gains(&m, |_| 3);
    let cfg = one_led_config(10);
    assert_eq!(augment_point(Point::new(10, 0), &m, &g, &cfg, 1), vec![Some(150)]);
    assert_eq!(augment_point(Point::new(50, 50), &m, &g, &cfg, 1), vec![Some(7)]);
    assert_eq!(augment_point(Point::new(90, 90), &m, &g, &cfg, 1), vec![None]);
}

#[test]
fn first_record_wins_in_scalar_grid() {
    let recs = vec![rec(3, 3, vec![Some(1)]), rec(5, 5, vec![Some(2)])];
    let m = ReadingMap::from_records(&recs, grid()).unwrap();
    assert!(matches!(m.value_at(Point::new(0, 0)), Ok(Some(v)) if v == &vec![Some(1)]));
    let bad = vec![rec(3, 300, vec![Some(1)])];
    assert!(matches!(ReadingMap::from_records(&bad, grid()), Err(GridError::OutOfBounds)));
}

#[test]
fn zero_iterations_leave_seeds_unknown() {
    let recs = vec![rec(0, 0, vec![Some(9)])];
    let mut m = ReadingMap::from_records(&recs, grid()).unwrap();
    let boxes = vec![AugmentBox::new(Point::new(0, 0), Point::new(30, 10))];
    populate_points(&mut m, &boxes, 1).unwrap();
    assert_eq!(m.occupied_points(), vec![Point::new(0, 0), Point::new(10, 0), Point::new(20, 0)]);
    let g = gains(&m, |_| 1);
    let cfg = one_led_config(10);
    let out = converge(m, &g, &cfg, 0);
    assert!(matches!(out.value_at(Point::new(0, 0)), Ok(Some(v)) if v == &vec![Some(9)]));
    assert!(matches!(out.value_at(Point::new(10, 0)), Ok(Some(v)) if v == &vec![None]));
    assert!(matches!(out.value_at(Point::new(20, 0)), Ok(Some(v)) if v == &vec![None]));
}

#[test]
fn information_diffuses_one_hop_per_iteration() {
    let recs = vec![rec(0, 0, vec![Some(9)])];
    let mut m = ReadingMap::from_records(&recs, grid()).unwrap();
    let boxes = vec![AugmentBox::new(Point::new(0, 0), Point::new(30, 10))];
    populate_points(&mut m, &boxes, 1).unwrap();
    let g = gains(&m, |_| 1);
    let mut cfg = one_led_config(10);
    cfg.augm_min_neighbors2 = 1;
    let once = augment_pass(&m, &g, &cfg, 1);
    assert!(matches!(once.value_at(Point::new(10, 0)), Ok(Some(v)) if v == &vec![Some(9)]));
    assert!(matches!(once.value_at(Point::new(20, 0)), Ok(Some(v)) if v == &vec![None]));
    let twice = converge(m, &g, &cfg, 2);
    assert!(matches!(twice.value_at(Point::new(20, 0)), Ok(Some(v)) if v == &vec![Some(9)]));
}

#[test]
fn seeding_outside_fails() {
    let mut m: ReadingMap = PointMap::new(grid());
    let boxes = vec![AugmentBox::new(Point::new(90, 90), Point::new(120, 100))];
    assert_eq!(populate_points(&mut m, &boxes, 1), Err(GridError::OutOfBounds));
}

#[test]
fn subsample_takes_candidates_in_order() {
    let recs = vec![rec(0, 0, vec![Some(1)]), rec(10, 0, vec![Some(2)]), rec(20, 0, vec![Some(3)])];
    let m = ReadingMap::from_records(&recs, grid()).unwrap();
    let cands = vec![
        Point::new(50, 50),
        Point::new(10, 0),
        Point::new(12, 3),
        Point::new(500, 0),
        Point::new(0, 0),
        Point::new(20, 0),
    ];
    let s = m.subsample(&cands, 2);
    assert_eq!(s.occupied_points(), vec![Point::new(0, 0), Point::new(10, 0)]);
    assert!(matches!(s.value_at(Point::new(10, 0)), Ok(Some(v)) if v == &vec![Some(2)]));
    let all = m.subsample(&cands, 10);
    assert_eq!(all.occupied_points().len(), 3);
}

#[test]
fn seeds_cover_the_box() {
    let mut m: ReadingMap = PointMap::new(grid());
    let boxes = vec![AugmentBox::new(Point::new(5, 5), Point::new(40, 26))];
    populate_points(&mut m, &boxes, 2).unwrap();
    // Seeds at x = 5, 15, 25, 35 and y = 5, 15, 25.
    assert_eq!(m.occupied_points().len(), 12);
    assert!(matches!(m.value_at(Point::new(35, 25)), Ok(Some(v)) if v == &vec![None, None]));
}

#[test]
fn second_stage_fills_from_neighbors() {
    let recs = vec![
        rec(0, 0, vec![Some(40)]),
        rec(20, 0, vec![Some(60)]),
        rec(10, 0, vec![None]),
    ];
    let m = ReadingMap::from_records(&recs, grid()).unwrap();
    let g = gains(&m, |_| 2);
    let mut cfg = one_led_config(10);
    cfg.augm_min_neighbors = 2;
    let out = clean_records_stg2(&recs, grid(), &g, &cfg).unwrap();
    assert_eq!(out.len(), 3);
    assert_eq!(out[1].point, Point::new(10, 0));
    assert_eq!(out[1].rss, vec![Some(50)]);
    cfg.augm_min_neighbors = 3;
    let out = clean_records_stg2(&recs, grid(), &g, &cfg).unwrap();
    assert_eq!(out[1].rss, vec![None]);
}

#[test]
fn seeding_twice_equals_seeding_once() {
    let recs = vec![rec(10, 10, vec![Some(4)])];
    let mut m = ReadingMap::from_records(&recs, grid()).unwrap();
    let boxes = vec![AugmentBox::new(Point::new(0, 0), Point::new(30, 30))];
    populate_points(&mut m, &boxes, 1).unwrap();
    let once: Vec<_> = m.to_records().into_iter().map(|r| (r.point, r.rss)).collect();
    populate_points(&mut m, &boxes, 1).unwrap();
    let twice: Vec<_> = m.to_records().into_iter().map(|r| (r.point, r.rss)).collect();
    assert_eq!(once, twice);
    assert_eq!(once.len(), 9);
    assert!(once.contains(&(Point::new(10, 10), vec![Some(4)])));
    assert!(once.contains(&(Point::new(20, 20), vec![None])));
    assert_eq!(m.missing_points().len(), 91);
}
