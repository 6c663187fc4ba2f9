use std::cell::Cell;
use std::ops::Range;

use pathtracer::estimator::ray_color;
use pathtracer::hittable::{HitRecord, Hittable, Hittables};

/// A surface that every ray meets at one fixed position. It counts how
/// often it is asked.
struct Wall {
    at: f64,
    mat: u32,
    asked: Cell<u32>,
}

impl Wall {
    fn new(at: f64, mat: u32) -> Self {
        Wall { at, mat, asked: Cell::new(0) }
    }
}

impl Hittable for Wall {
    type Ray = u32;
    type Vector = ();
    type Param = f64;
    type Material = u32;

    fn hit(&self, _ray: &u32, ray_range: Range<f64>) -> Option<HitRecord<(), f64, u32>> {
        self.asked.set(self.asked.get() + 1);
        if ray_range.contains(&self.at) {
            Some(HitRecord::new((), (), self.at, true, self.mat))
        } else {
            None
        }
    }
}

const BLACK: f64 = 0.0;

/// Rays are numbered by the bounces behind them. The background grows
/// brighter with every bounce.
fn sky(ray: &u32) -> f64 {
    100.0 + *ray as f64
}

/// Scales what lies beyond and adds one, so that the order of tints shows.
fn tint(attenuation: f64, beyond: f64) -> f64 {
    attenuation * beyond + 1.0
}

fn mirror(ray: &u32, _hit: &HitRecord<(), f64, u32>) -> Option<(f64, u32)> {
    Some((0.5, ray + 1))
}

fn sponge(_ray: &u32, _hit: &HitRecord<(), f64, u32>) -> Option<(f64, u32)> {
    None
}

#[test]
fn without_a_bounce_left_a_ray_sees_black() {
    let empty: Hittables<Wall> = Hittables::new();
    let wall = Wall::new(1.0, 0);
    for ray in [0u32, 1, 77] {
        assert_eq!(ray_color(&ray, &empty, 0.001..f64::INFINITY, 0, BLACK, &mirror, &tint, &sky), 0.0);
        assert_eq!(ray_color(&ray, &wall, 0.001..f64::INFINITY, 0, BLACK, &mirror, &tint, &sky), 0.0);
        assert_eq!(ray_color(&ray, &wall, 0.001..f64::INFINITY, -3, BLACK, &sponge, &tint, &sky), 0.0);
    }
    assert_eq!(wall.asked.get(), 0);
}

#[test]
fn black_is_what_the_caller_says_it_is() {
    let wall = Wall::new(1.0, 0);
    assert_eq!(ray_color(&0, &wall, 0.001..f64::INFINITY, 0, -1.5, &mirror, &tint, &sky), -1.5);
    assert_eq!(ray_color(&0, &wall, 0.001..f64::INFINITY, 5, -1.5, &sponge, &tint, &sky), -1.5);
}

#[test]
fn in_an_empty_scene_a_ray_sees_the_background() {
    let empty: Hittables<Wall> = Hittables::new();
    assert_eq!(ray_color(&0, &empty, 0.001..f64::INFINITY, 1, BLACK, &mirror, &tint, &sky), 100.0);
    assert_eq!(ray_color(&7, &empty, 0.001..f64::INFINITY, 50, BLACK, &sponge, &tint, &sky), 107.0);
}

#[test]
fn a_ray_that_misses_sees_the_background() {
    let wall = Wall::new(5.0, 0);
    assert_eq!(ray_color(&3, &wall, 0.001..4.0, 9, BLACK, &mirror, &tint, &sky), 103.0);
    assert_eq!(wall.asked.get(), 1);
}

#[test]
fn a_swallowed_ray_sees_black() {
    let wall = Wall::new(5.0, 0);
    assert_eq!(ray_color(&3, &wall, 0.001..f64::INFINITY, 9, BLACK, &sponge, &tint, &sky), 0.0);
    assert_eq!(wall.asked.get(), 1);
}

#[test]
fn a_scattered_ray_sees_what_lies_beyond_tinted() {
    let wall = Wall::new(5.0, 0);
    // The first ray is scattered into ray 40, and ray 40 is swallowed.
    let once = |ray: &u32, _hit: &HitRecord<(), f64, u32>| {
        if *ray == 0 {
            Some((0.5, 40u32))
        } else {
            None
        }
    };
    assert_eq!(ray_color(&0, &wall, 0.001..f64::INFINITY, 9, BLACK, &once, &tint, &sky), 1.0);
    assert_eq!(wall.asked.get(), 2);
    // With one bounce only, ray 40 sees black without being cast.
    assert_eq!(ray_color(&0, &wall, 0.001..f64::INFINITY, 1, 6.0, &once, &tint, &sky), 4.0);
    assert_eq!(wall.asked.get(), 3);
}

#[test]
fn a_scattered_ray_that_misses_shows_the_background_tinted() {
    // Ray 0 meets the wall; the ray that goes on is cast where no wall is.
    struct Door;
    impl Hittable for Door {
        type Ray = u32;
        type Vector = ();
        type Param = f64;
        type Material = u32;

        fn hit(&self, ray: &u32, _range: Range<f64>) -> Option<HitRecord<(), f64, u32>> {
            if *ray == 0 {
                Some(HitRecord::new((), (), 1.0, true, 0))
            } else {
                None
            }
        }
    }
    let seen = ray_color(&0, &Door, 0.001..f64::INFINITY, 9, BLACK, &mirror, &tint, &sky);
    assert_eq!(seen, 0.5 * 101.0 + 1.0);
}

#[test]
fn tints_are_applied_from_the_far_end_inwards() {
    // Bounce k is tinted by 1 / (k + 2); after three bounces the ray misses.
    let scatter = |ray: &u32, _hit: &HitRecord<(), f64, u32>| Some((1.0 / (*ray as f64 + 2.0), ray + 1));
    struct Thin;
    impl Hittable for Thin {
        type Ray = u32;
        type Vector = ();
        type Param = f64;
        type Material = u32;

        fn hit(&self, ray: &u32, _range: Range<f64>) -> Option<HitRecord<(), f64, u32>> {
            if *ray < 3 {
                Some(HitRecord::new((), (), 1.0, true, 0))
            } else {
                None
            }
        }
    }
    let seen = ray_color(&0, &Thin, 0.001..f64::INFINITY, 10, BLACK, &scatter, &tint, &sky);
    let expected = tint(1.0 / 2.0, tint(1.0 / 3.0, tint(1.0 / 4.0, sky(&3))));
    assert_eq!(seen, expected);
    assert_eq!(expected, 0.5 * ((1.0 / 3.0) * (0.25 * 103.0 + 1.0) + 1.0) + 1.0);
}

#[test]
fn a_path_takes_no_more_bounces_than_it_is_given() {
    for depth in [1, 2, 5, 40] {
        let wall = Wall::new(5.0, 0);
        let seen = ray_color(&0, &wall, 0.001..f64::INFINITY, depth, BLACK, &mirror, &tint, &sky);
        assert_eq!(wall.asked.get(), depth as u32);
        let mut expected = BLACK;
        for _ in 0..depth {
            expected = tint(0.5, expected);
        }
        assert_eq!(seen, expected);
    }
}

#[test]
fn hits_are_looked_for_in_the_given_range_only() {
    let mut world = Hittables::new();
    world.add(Wall::new(0.0005, 1));
    world.add(Wall::new(3.0, 2));
    let by_material = |_ray: &u32, hit: &HitRecord<(), f64, u32>| Some((hit.mat as f64, 9u32));
    let back = |_ray: &u32| 1.0;
    // The wall nearer than the start of the range is not seen; the other is
    // hit on every bounce.
    let seen = ray_color(&0, &world, 0.001..f64::INFINITY, 2, BLACK, &by_material, &tint, &back);
    assert_eq!(seen, tint(2.0, tint(2.0, BLACK)));
}

#[test]
fn the_same_ray_in_the_same_scene_sees_the_same_colour() {
    let mut world = Hittables::new();
    world.add(Wall::new(2.0, 3));
    world.add(Wall::new(1.5, 5));
    let by_material = |ray: &u32, hit: &HitRecord<(), f64, u32>| {
        if *ray < 4 {
            Some((1.0 / hit.mat as f64, ray + 1))
        } else {
            None
        }
    };
    let first = ray_color(&0, &world, 0.001..f64::INFINITY, 10, BLACK, &by_material, &tint, &sky);
    let second = ray_color(&0, &world, 0.001..f64::INFINITY, 10, BLACK, &by_material, &tint, &sky);
    assert_eq!(first.to_bits(), second.to_bits());
    assert_eq!(first, tint(0.2, tint(0.2, tint(0.2, tint(0.2, BLACK)))));
}
