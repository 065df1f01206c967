use rss_clean::clean::{clean_point, RawMap};
use rss_clean::config::{led_to_point, CleanAugmentConfig, ConfigError, ConfigOverrides};
use rss_clean::point::Point;
use rss_clean::point_map::{GridError, PointMapConfig};
use rss_clean::record::{clean_map, clean_records_stg1, RssRecord};

fn two_led_config(clean_dist: u32, thresh: u32) -> CleanAugmentConfig {
    let mut cfg = CleanAugmentConfig::default_config();
    cfg.led_count = 2;
    cfg.led_positions = vec![Point::new(0, 0), Point::new(100, 0)];
    cfg.clean_dist = clean_dist;
    cfg.continuity_thresh = thresh;
    cfg
}

fn rec(x: u32, y: u32, rss: Vec<Option<u32>>) -> RssRecord {
    RssRecord { point: Point::new(x, y), rss }
}

fn grid() -> PointMapConfig {
    PointMapConfig { x_size: 100, y_size: 100, resolution: 10 }
}

#[test]
fn default_config_values() {
    let cfg = CleanAugmentConfig::default_config();
    assert_eq!(cfg.clean_dist, 30);
    assert_eq!(cfg.augm_dist, 50);
    assert_eq!(cfg.led_count, 36);
    assert_eq!(cfg.height, 1760);
    assert_eq!(cfg.darkness_penalty, 3);
    assert_eq!(cfg.augm_min_neighbors, 10);
    assert_eq!(cfg.augm_min_neighbors2, 4);
    assert_eq!(cfg.led_positions.len(), 36);
    assert_eq!(cfg.led_positions[0], Point::new(250, 250));
    assert_eq!(cfg.led_positions[7], Point::new(750, 750));
    assert_eq!(led_to_point(35), Point::new(2750, 2750));
}

#[test]
fn raw_grid_keeps_every_vector_in_order() {
    let recs = vec![rec(12, 3, vec![Some(1)]), rec(40, 40, vec![Some(2)]), rec(18, 9, vec![Some(3)])];
    let m = RawMap::from_raw_records(&recs, grid()).unwrap();
    let cell = m.value_at(Point::new(10, 0)).unwrap().as_ref().unwrap();
    assert_eq!(cell, &vec![vec![Some(1)], vec![Some(3)]]);
    assert_eq!(m.occupied_points(), vec![Point::new(10, 0), Point::new(40, 40)]);
}

#[test]
fn raw_grid_rejects_points_outside() {
    let recs = vec![rec(12, 3, vec![Some(1)]), rec(100, 0, vec![Some(2)])];
    assert!(matches!(RawMap::from_raw_records(&recs, grid()), Err(GridError::OutOfBounds)));
}

#[test]
fn single_candidate_within_threshold_is_kept() {
    // Baseline over both points is 100: 101 is 1 above (score 1/3), 99 is 1
    // below (score 1); both pass a threshold of 1 and neither passes 0.
    let recs = vec![rec(0, 0, vec![Some(101)]), rec(10, 0, vec![Some(99)])];
    let m = RawMap::from_raw_records(&recs, grid()).unwrap();
    let mut cfg = two_led_config(10, 1);
    cfg.led_count = 1;
    cfg.led_positions = vec![Point::new(0, 0)];
    assert_eq!(clean_point(Point::new(0, 0), &m, &cfg), vec![Some(101)]);
    assert_eq!(clean_point(Point::new(10, 0), &m, &cfg), vec![Some(99)]);
    cfg.continuity_thresh = 0;
    assert_eq!(clean_point(Point::new(0, 0), &m, &cfg), vec![None]);
    assert_eq!(clean_point(Point::new(10, 0), &m, &cfg), vec![None]);
}

#[test]
fn darker_readings_are_penalized_more() {
    // Baseline 100; 103 scores 1, 97 scores 3.
    let recs = vec![rec(0, 0, vec![Some(103)]), rec(10, 0, vec![Some(97)])];
    let m = RawMap::from_raw_records(&recs, grid()).unwrap();
    let mut cfg = two_led_config(10, 2);
    cfg.led_count = 1;
    assert_eq!(clean_point(Point::new(0, 0), &m, &cfg), vec![Some(103)]);
    assert_eq!(clean_point(Point::new(10, 0), &m, &cfg), vec![None]);
}

#[test]
fn fusion_is_per_emitter() {
    let recs = vec![
        rec(0, 0, vec![Some(10), Some(50)]),
        rec(0, 0, vec![Some(20), Some(40)]),
        rec(10, 0, vec![Some(20), Some(50)]),
    ];
    let m = RawMap::from_raw_records(&recs, grid()).unwrap();
    let cfg = two_led_config(10, 1_000);
    // Baselines are 50/3 and 140/3: 20 is closest for the first emitter,
    // 50 (brighter, so divided by 3) for the second.
    assert_eq!(clean_point(Point::new(0, 0), &m, &cfg), vec![Some(20), Some(50)]);
}

#[test]
fn unknown_neighbor_disqualifies_emitter() {
    // Both points are connected, and each emitter is unknown at one of them,
    // so neither baseline is defined.
    let recs = vec![rec(0, 0, vec![Some(5), None]), rec(10, 0, vec![None, Some(5)])];
    let m = RawMap::from_raw_records(&recs, grid()).unwrap();
    let cfg = two_led_config(1_000, u32::MAX);
    let cleaned = clean_map(&m, &cfg).to_records();
    assert_eq!(cleaned.len(), 2);
    assert_eq!(cleaned[0].rss, vec![None, None]);
    assert_eq!(cleaned[1].rss, vec![None, None]);
}

#[test]
fn known_values_survive_cleaning() {
    let recs = vec![rec(0, 0, vec![Some(5), Some(7)]), rec(10, 0, vec![Some(5), Some(7)])];
    let m = RawMap::from_raw_records(&recs, grid()).unwrap();
    let cfg = two_led_config(1_000, u32::MAX);
    let cleaned = clean_map(&m, &cfg).to_records();
    assert_eq!(cleaned[0].point, Point::new(0, 0));
    assert_eq!(cleaned[0].rss, vec![Some(5), Some(7)]);
    assert_eq!(cleaned[1].point, Point::new(10, 0));
    assert_eq!(cleaned[1].rss, vec![Some(5), Some(7)]);
}

#[test]
fn isolated_point_keeps_its_own_reading() {
    // The point's own cell is part of its neighborhood.
    let recs = vec![rec(50, 50, vec![Some(42)])];
    let m = RawMap::from_raw_records(&recs, grid()).unwrap();
    let mut cfg = two_led_config(0, 0);
    cfg.led_count = 1;
    assert_eq!(clean_point(Point::new(50, 50), &m, &cfg), vec![Some(42)]);
}

#[test]
fn empty_neighborhood_gives_unknown() {
    let recs = vec![rec(50, 50, vec![Some(42)])];
    let m = RawMap::from_raw_records(&recs, grid()).unwrap();
    let mut cfg = two_led_config(5, u32::MAX);
    cfg.led_count = 1;
    assert_eq!(clean_point(Point::new(0, 0), &m, &cfg), vec![None]);
}

fn no_overrides() -> ConfigOverrides {
    ConfigOverrides {
        clean_dist: None,
        augm_dist: None,
        continuity_thresh: None,
        led_count: None,
        height: None,
        led_positions: None,
        half_power_semiangle: None,
        augm_min_neighbors: None,
        darkness_penalty: None,
    }
}

#[test]
fn overrides_fall_back_to_defaults() {
    let cfg = no_overrides().build().unwrap();
    assert_eq!(cfg.clean_dist, 30);
    assert_eq!(cfg.led_positions.len(), 36);
    let mut o = no_overrides();
    o.clean_dist = Some(12);
    o.led_count = Some(2);
    o.led_positions = Some(vec![Point::new(1, 2), Point::new(3, 4)]);
    let cfg = o.build().unwrap();
    assert_eq!(cfg.clean_dist, 12);
    assert_eq!(cfg.augm_dist, 50);
    assert_eq!(cfg.led_count, 2);
    assert_eq!(cfg.led_positions, vec![Point::new(1, 2), Point::new(3, 4)]);
}

#[test]
fn invalid_overrides_are_rejected() {
    let mut o = no_overrides();
    o.darkness_penalty = Some(0);
    assert!(matches!(o.build(), Err(ConfigError::ZeroDarknessPenalty)));
    let mut o = no_overrides();
    o.led_count = Some(40);
    assert!(matches!(o.build(), Err(ConfigError::LedCountMismatch)));
}

#[test]
fn extra_positions_are_accepted() {
    let mut o = no_overrides();
    o.led_count = Some(3);
    let cfg = o.build().unwrap();
    assert_eq!(cfg.led_count, 3);
    assert_eq!(cfg.led_positions.len(), 36);
}

#[test]
fn first_stage_cleans_every_point() {
    let recs = vec![
        rec(0, 0, vec![Some(5), Some(7)]),
        rec(3, 2, vec![Some(9), Some(7)]),
        rec(10, 0, vec![Some(5), Some(7)]),
    ];
    let cfg = two_led_config(1_000, 1);
    let out = clean_records_stg1(&recs, grid(), &cfg).unwrap();
    assert_eq!(out.len(), 2);
    assert_eq!(out[0].point, Point::new(0, 0));
    // Baselines 19/3 and 7: 5 scores (19 - 15) * 3 = 12 against a bound of
    // 1 * 3 * 3 = 9, 9 scores 27 - 19 = 8.
    assert_eq!(out[0].rss, vec![Some(9), Some(7)]);
    assert_eq!(out[1].point, Point::new(10, 0));
    assert_eq!(out[1].rss, vec![None, Some(7)]);
    let bad = vec![rec(0, 100, vec![Some(1), Some(1)])];
    assert!(matches!(clean_records_stg1(&bad, grid(), &cfg), Err(GridError::OutOfBounds)));
}
