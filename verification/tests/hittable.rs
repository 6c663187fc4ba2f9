use std::cell::RefCell;
use std::ops::Range;

use pathtracer::hittable::{HitRecord, Hittable, Hittables};

/// A surface that every ray meets at one fixed position. It notes the end of
/// every range it is asked for.
struct Plate {
    at: f64,
    tag: u32,
    asked: RefCell<Vec<f64>>,
}

impl Plate {
    fn new(at: f64, tag: u32) -> Self {
        Plate { at, tag, asked: RefCell::new(Vec::new()) }
    }
}

impl Hittable for Plate {
    type Ray = ();
    type Vector = ();
    type Param = f64;
    type Material = u32;

    fn hit(&self, _ray: &(), ray_range: Range<f64>) -> Option<HitRecord<(), f64, u32>> {
        self.asked.borrow_mut().push(ray_range.end);
        if ray_range.contains(&self.at) {
            Some(HitRecord::new((), (), self.at, true, self.tag))
        } else {
            None
        }
    }
}

fn plates(at: &[f64]) -> Hittables<Plate> {
    let mut world = Hittables::new();
    for (k, t) in at.iter().enumerate() {
        world.add(Plate::new(*t, k as u32));
    }
    world
}

type Point = (f64, f64, f64);

struct Beam {
    origin: Point,
    direction: Point,
}

struct Ball {
    center: Point,
    radius: f64,
    tag: u32,
}

fn dot(a: Point, b: Point) -> f64 {
    a.0 * b.0 + a.1 * b.1 + a.2 * b.2
}

fn minus(a: Point, b: Point) -> Point {
    (a.0 - b.0, a.1 - b.1, a.2 - b.2)
}

impl Hittable for Ball {
    type Ray = Beam;
    type Vector = Point;
    type Param = f64;
    type Material = u32;

    fn hit(&self, ray: &Beam, ray_range: Range<f64>) -> Option<HitRecord<Point, f64, u32>> {
        let oc = minus(self.center, ray.origin);
        let a = dot(ray.direction, ray.direction);
        let h = dot(ray.direction, oc);
        let c = dot(oc, oc) - self.radius * self.radius;
        let discriminant = h * h - a * c;
        if discriminant < 0.0 {
            return None;
        }
        let sqrtd = discriminant.sqrt();
        for root in [(h - sqrtd) / a, (h + sqrtd) / a] {
            if ray_range.contains(&root) {
                let p = (
                    ray.origin.0 + root * ray.direction.0,
                    ray.origin.1 + root * ray.direction.1,
                    ray.origin.2 + root * ray.direction.2,
                );
                let out = minus(p, self.center);
                let n = (out.0 / self.radius, out.1 / self.radius, out.2 / self.radius);
                let front_face = dot(ray.direction, n) < 0.0;
                let n = if front_face { n } else { (-n.0, -n.1, -n.2) };
                return Some(HitRecord::new(p, n, root, front_face, self.tag));
            }
        }
        None
    }
}

#[test]
fn hit_record_keeps_what_it_is_given() {
    let record = HitRecord::new((1.0, 2.0, 3.0), (0.0, 1.0, 0.0), 0.25, true, 7u8);
    assert_eq!(record.p, (1.0, 2.0, 3.0));
    assert_eq!(record.n, (0.0, 1.0, 0.0));
    assert_eq!(record.t, 0.25);
    assert!(record.front_face);
    assert_eq!(record.mat, 7);
}

#[test]
fn an_empty_collection_is_never_hit() {
    let world: Hittables<Plate> = Hittables::new();
    assert!(world.hit(&(), 0.0..f64::INFINITY).is_none());
    assert!(world.hit(&(), 0.0..0.0).is_none());
}

#[test]
fn a_collection_of_one_answers_as_its_member() {
    let world = plates(&[2.0]);
    let hit = world.hit(&(), 0.0..10.0).unwrap();
    assert_eq!(hit.t, 2.0);
    assert_eq!(hit.mat, 0);
    assert!(world.hit(&(), 0.0..2.0).is_none());
    assert!(world.hit(&(), 2.5..10.0).is_none());
    assert!(world.hit(&(), 2.0..10.0).is_some());
}

#[test]
fn the_nearest_member_wins_wherever_it_stands() {
    for order in [[1.0, 2.0, 3.0], [1.0, 3.0, 2.0], [2.0, 1.0, 3.0], [2.0, 3.0, 1.0], [3.0, 1.0, 2.0], [3.0, 2.0, 1.0]]
    {
        let world = plates(&order);
        let hit = world.hit(&(), 0.0..f64::INFINITY).unwrap();
        assert_eq!(hit.t, 1.0);
        assert_eq!(order[hit.mat as usize], 1.0);
    }
}

#[test]
fn members_out_of_range_are_passed_over() {
    let world = plates(&[0.5, 7.0, 3.0, 12.0]);
    let hit = world.hit(&(), 1.0..10.0).unwrap();
    assert_eq!(hit.t, 3.0);
    assert_eq!(hit.mat, 2);
    assert!(world.hit(&(), 0.75..2.5).is_none());
    assert!(world.hit(&(), 13.0..20.0).is_none());
}

#[test]
fn of_two_members_at_one_distance_the_first_wins() {
    let world = plates(&[4.0, 4.0]);
    let hit = world.hit(&(), 0.0..10.0).unwrap();
    assert_eq!(hit.t, 4.0);
    assert_eq!(hit.mat, 0);
}

#[test]
fn a_collection_asks_with_narrowed_ranges() {
    struct Watch<'a> {
        plate: &'a Plate,
    }

    impl<'a> Hittable for Watch<'a> {
        type Ray = ();
        type Vector = ();
        type Param = f64;
        type Material = u32;

        fn hit(&self, ray: &(), ray_range: Range<f64>) -> Option<HitRecord<(), f64, u32>> {
            self.plate.hit(ray, ray_range)
        }
    }

    let made = [Plate::new(20.0, 0), Plate::new(5.0, 1), Plate::new(8.0, 2), Plate::new(3.0, 3), Plate::new(4.0, 4)];
    let mut world = Hittables::new();
    for plate in made.iter() {
        world.add(Watch { plate });
    }
    let hit = world.hit(&(), 0.0..10.0).unwrap();
    assert_eq!(hit.t, 3.0);
    let ends: Vec<f64> = made.iter().map(|plate| plate.asked.borrow()[0]).collect();
    assert_eq!(ends, vec![10.0, 10.0, 5.0, 5.0, 3.0]);
    assert!(made.iter().all(|plate| plate.asked.borrow().len() == 1));
}

#[test]
fn a_collection_of_collections_finds_the_nearest_of_all() {
    let mut world = Hittables::new();
    world.add(plates(&[9.0, 6.0]));
    world.add(plates(&[]));
    world.add(plates(&[7.0, 2.0, 4.0]));
    world.add(plates(&[3.0]));
    let hit = world.hit(&(), 0.0..f64::INFINITY).unwrap();
    assert_eq!(hit.t, 2.0);
    assert_eq!(hit.mat, 1);
}

#[test]
fn add_puts_members_behind_those_that_are_there() {
    let mut world = Hittables::new();
    world.add(Plate::new(1.0, 10));
    assert_eq!(world.hit(&(), 0.0..5.0).unwrap().mat, 10);
    world.add(Plate::new(1.0, 11));
    assert_eq!(world.hit(&(), 0.0..5.0).unwrap().mat, 10);
    world.add(Plate::new(0.5, 12));
    assert_eq!(world.hit(&(), 0.0..5.0).unwrap().mat, 12);
}

#[test]
fn of_two_spheres_along_a_ray_the_nearer_is_hit() {
    let ray = Beam { origin: (0.0, 0.0, 0.0), direction: (0.0, 0.0, -1.0) };
    let near = Ball { center: (0.0, 0.0, -1.0), radius: 0.5, tag: 1 };
    let far = Ball { center: (0.0, 0.0, -3.0), radius: 0.5, tag: 2 };
    let near_root = near.hit(&ray, 0.00001..f64::INFINITY).unwrap().t;
    let far_root = far.hit(&ray, 0.00001..f64::INFINITY).unwrap().t;
    assert!((near_root - 0.5).abs() < 1e-12);
    assert!((far_root - 2.5).abs() < 1e-12);

    let mut world = Hittables::new();
    world.add(Ball { center: (0.0, 0.0, -3.0), radius: 0.5, tag: 2 });
    world.add(Ball { center: (0.0, 0.0, -1.0), radius: 0.5, tag: 1 });
    let hit = world.hit(&ray, 0.00001..f64::INFINITY).unwrap();
    assert_eq!(hit.t, near_root);
    assert_eq!(hit.mat, 1);
    assert!(hit.front_face);

    let mut world = Hittables::new();
    world.add(Ball { center: (0.0, 0.0, -1.0), radius: 0.5, tag: 1 });
    world.add(Ball { center: (0.0, 0.0, -3.0), radius: 0.5, tag: 2 });
    let hit = world.hit(&ray, 0.00001..f64::INFINITY).unwrap();
    assert_eq!(hit.t, near_root);
    assert_eq!(hit.mat, 1);
}

#[test]
fn of_two_overlapping_spheres_the_nearer_surface_is_hit() {
    let ray = Beam { origin: (0.0, 0.0, 0.0), direction: (0.0, 0.0, -1.0) };
    let mut world = Hittables::new();
    world.add(Ball { center: (0.0, 0.0, -2.0), radius: 1.0, tag: 1 });
    world.add(Ball { center: (0.0, 0.0, -2.5), radius: 1.75, tag: 2 });
    let hit = world.hit(&ray, 0.00001..f64::INFINITY).unwrap();
    assert!((hit.t - 0.75).abs() < 1e-12);
    assert_eq!(hit.mat, 2);
}

#[test]
fn a_ray_that_misses_every_sphere_hits_nothing() {
    let ray = Beam { origin: (0.0, 0.0, 0.0), direction: (0.0, 1.0, 0.0) };
    let mut world = Hittables::new();
    world.add(Ball { center: (0.0, 0.0, -1.0), radius: 0.5, tag: 1 });
    world.add(Ball { center: (0.0, 0.0, -3.0), radius: 0.5, tag: 2 });
    assert!(world.hit(&ray, 0.00001..f64::INFINITY).is_none());
}
