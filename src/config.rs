use vstd::prelude::*;

use crate::point::Point;

verus! {

/// Number of emitters in the default layout.
pub const DEFAULT_LED_COUNT: usize = 36;

/// Position of emitter `led` in the default layout: a 6 by 6 grid with
/// 500 units between emitters and the first one 250 units from the origin.
pub open spec fn led_to_point_spec(led: int) -> Point {
    Point { x: ((led % 6) * 500 + 250) as u32, y: ((led / 6) * 500 + 250) as u32 }
}

pub fn led_to_point(led: usize) -> (r: Point)
    requires
        led < DEFAULT_LED_COUNT,
    ensures
        r == led_to_point_spec(led as int),
{
    let x = (led % 6) as u32;
    let y = (led / 6) as u32;
    Point { x: x * 500 + 250, y: y * 500 + 250 }
}

/// Thresholds and emitter geometry of the cleaning and augmentation stages.
/// Readings and `continuity_thresh` are in the same fixed-point unit.
pub struct CleanAugmentConfig {
    /// Search radius of the continuity cleaner.
    pub clean_dist: u32,
    /// Search radius of the augmenter.
    pub augm_dist: u32,
    /// Largest accepted continuity score.
    pub continuity_thresh: u32,
    pub led_count: usize,
    /// Emitter height above the plane.
    pub height: u32,
    pub led_positions: Vec<Point>,
    /// Half-power semiangle of the emitters, in degrees.
    pub half_power_semiangle: u32,
    /// Minimum number of contributing neighbors in a first augmentation pass.
    pub augm_min_neighbors: usize,
    /// Divisor of the score of a reading brighter than its neighborhood.
    pub darkness_penalty: u32,
    /// Minimum number of contributing neighbors in convergence passes.
    pub augm_min_neighbors2: usize,
}

impl CleanAugmentConfig {
    pub open spec fn wf(&self) -> bool {
        &&& self.darkness_penalty > 0
        &&& self.led_positions@.len() >= self.led_count
    }

    /// The documented defaults, with readings in millionths of a unit.
    pub fn default_config() -> (r: CleanAugmentConfig)
        ensures
            r.wf(),
            r.clean_dist == 30,
            r.augm_dist == 50,
            r.continuity_thresh == 80_000,
            r.led_count == DEFAULT_LED_COUNT,
            r.led_positions@.len() == DEFAULT_LED_COUNT,
            r.height == 1760,
            r.half_power_semiangle == 15,
            r.augm_min_neighbors == 10,
            r.darkness_penalty == 3,
            r.augm_min_neighbors2 == 4,
            forall|i: int|
                0 <= i < DEFAULT_LED_COUNT ==> r.led_positions@[i] == led_to_point_spec(i),
    {
        let mut led_positions: Vec<Point> = Vec::new();
        let mut i: usize = 0;
        while i < DEFAULT_LED_COUNT
            invariant
                i <= DEFAULT_LED_COUNT,
                led_positions@.len() == i,
                forall|j: int| 0 <= j < i ==> led_positions@[j] == led_to_point_spec(j),
            decreases DEFAULT_LED_COUNT - i,
        {
            led_positions.push(led_to_point(i));
            i = i + 1;
        }
        CleanAugmentConfig {
            clean_dist: 30,
            augm_dist: 50,
            continuity_thresh: 80_000,
            led_count: DEFAULT_LED_COUNT,
            height: 1760,
            led_positions,
            half_power_semiangle: 15,
            augm_min_neighbors: 10,
            darkness_penalty: 3,
            augm_min_neighbors2: 4,
        }
    }
}

/// Values read from a configuration file; absent ones keep their default.
pub struct ConfigOverrides {
    pub clean_dist: Option<u32>,
    pub augm_dist: Option<u32>,
    pub continuity_thresh: Option<u32>,
    pub led_count: Option<usize>,
    pub height: Option<u32>,
    pub led_positions: Option<Vec<Point>>,
    pub half_power_semiangle: Option<u32>,
    pub augm_min_neighbors: Option<usize>,
    pub darkness_penalty: Option<u32>,
}

/// A configuration that cannot drive the stages.
#[derive(Debug, Clone, Copy, PartialEq, Eq, Structural)]
pub enum ConfigError {
    /// The darkness penalty is zero.
    ZeroDarknessPenalty,
    /// Fewer emitter positions than emitters.
    LedCountMismatch,
}

pub open spec fn or_default<T>(o: Option<T>, d: T) -> T {
    match o {
        Some(v) => v,
        None => d,
    }
}

impl ConfigOverrides {
    /// Emitter positions after the overrides, as a sequence.
    pub open spec fn positions_spec(&self) -> Seq<Point> {
        match self.led_positions {
            Some(v) => v@,
            None => Seq::new(DEFAULT_LED_COUNT as nat, |i: int| led_to_point_spec(i)),
        }
    }

    pub open spec fn penalty_spec(&self) -> u32 {
        or_default(self.darkness_penalty, 3)
    }

    pub open spec fn led_count_spec(&self) -> usize {
        or_default(self.led_count, DEFAULT_LED_COUNT)
    }

    /// The default configuration with these overrides applied; fails where
    /// the result would have no darkness penalty or a position list whose
    /// length is not the emitter count.
    pub fn build(self) -> (r: Result<CleanAugmentConfig, ConfigError>)
        ensures
            self.penalty_spec() == 0 ==> r == Err::<CleanAugmentConfig, ConfigError>(
                ConfigError::ZeroDarknessPenalty,
            ),
            self.penalty_spec() != 0 && self.positions_spec().len() < self.led_count_spec() ==> r
                == Err::<CleanAugmentConfig, ConfigError>(ConfigError::LedCountMismatch),
            self.penalty_spec() != 0 && self.positions_spec().len() >= self.led_count_spec() ==> r
                is Ok,
            r is Ok ==> {
                let c = r->Ok_0;
                &&& c.wf()
                &&& c.clean_dist == or_default(self.clean_dist, 30)
                &&& c.augm_dist == or_default(self.augm_dist, 50)
                &&& c.continuity_thresh == or_default(self.continuity_thresh, 80_000)
                &&& c.led_count == self.led_count_spec()
                &&& c.height == or_default(self.height, 1760)
                &&& c.led_positions@ == self.positions_spec()
                &&& c.half_power_semiangle == or_default(self.half_power_semiangle, 15)
                &&& c.augm_min_neighbors == or_default(self.augm_min_neighbors, 10)
                &&& c.darkness_penalty == self.penalty_spec()
                &&& c.augm_min_neighbors2 == 4
            },
    {
        let d = CleanAugmentConfig::default_config();
        assert(d.led_positions@ =~= Seq::new(DEFAULT_LED_COUNT as nat, |i: int| led_to_point_spec(i)));
        let led_positions = match self.led_positions {
            Some(v) => v,
            None => d.led_positions,
        };
        let cfg = CleanAugmentConfig {
            clean_dist: match self.clean_dist {
                Some(v) => v,
                None => d.clean_dist,
            },
            augm_dist: match self.augm_dist {
                Some(v) => v,
                None => d.augm_dist,
            },
            continuity_thresh: match self.continuity_thresh {
                Some(v) => v,
                None => d.continuity_thresh,
            },
            led_count: match self.led_count {
                Some(v) => v,
                None => d.led_count,
            },
            height: match self.height {
                Some(v) => v,
                None => d.height,
            },
            led_positions,
            half_power_semiangle: match self.half_power_semiangle {
                Some(v) => v,
                None => d.half_power_semiangle,
            },
            augm_min_neighbors: match self.augm_min_neighbors {
                Some(v) => v,
                None => d.augm_min_neighbors,
            },
            darkness_penalty: match self.darkness_penalty {
                Some(v) => v,
                None => d.darkness_penalty,
            },
            augm_min_neighbors2: d.augm_min_neighbors2,
        };
        if cfg.darkness_penalty == 0 {
            return Err(ConfigError::ZeroDarknessPenalty);
        }
        if cfg.led_positions.len() < cfg.led_count {
            return Err(ConfigError::LedCountMismatch);
        }
        Ok(cfg)
    }
}

} // verus!
