//! The radiance estimator: what colour is seen along a ray.
//!
//! A ray is cast into the scene. Where it hits nothing, it sees the
//! background. Where it hits a surface, the surface either swallows it, and
//! it sees black, or scatters it: then it sees what the scattered ray sees,
//! tinted by the surface. A ray that has no bounce left sees black.
//!
//! The scene says where rays hit; the caller says how surfaces scatter, how
//! colours are tinted and what the background looks like. What is decided
//! here is how these are put together.

use crate::hittable::{HitRecord, Hittable, Hittables};
use core::ops::Range;
use vstd::prelude::*;

verus! {

/// What a ray sees at one bounce. `found` is what the scene answers when
/// `ray` is cast, `scattered` what the surface does with the ray if one was
/// hit, and `beyond` what is seen along the ray that goes on, if one does.
/// Then `colour` is seen along `ray`: the background where nothing is hit,
/// black where the surface swallows the ray, and else `beyond`, tinted by
/// the surface.
pub open spec fn bounce<W: Hittable, C, S, T, B>(
    world: W,
    ray: W::Ray,
    ray_range: Range<W::Param>,
    black: C,
    scatter: S,
    tint: T,
    background: B,
    found: Option<HitRecord<W::Vector, W::Param, W::Material>>,
    scattered: Option<(C, W::Ray)>,
    beyond: C,
    colour: C,
) -> bool where
    S: Fn(&W::Ray, &HitRecord<W::Vector, W::Param, W::Material>) -> Option<(C, W::Ray)>,
    T: Fn(C, C) -> C,
    B: Fn(&W::Ray) -> C,
 {
    &&& call_ensures(W::hit, (&world, &ray, ray_range), found)
    &&& match found {
        None => call_ensures(background, (&ray,), colour),
        Some(record) => {
            &&& call_ensures(scatter, (&ray, &record), scattered)
            &&& match scattered {
                None => colour == black,
                Some((attenuation, _)) => call_ensures(tint, (attenuation, beyond), colour),
            }
        },
    }
}

/// The ray that goes on from a bounce, if one does: the scattered ray, where
/// a surface was hit and did not swallow the ray.
pub open spec fn onward<V, P, M, C, R>(
    found: Option<HitRecord<V, P, M>>,
    scattered: Option<(C, R)>,
) -> Option<R> {
    match (found, scattered) {
        (Some(_), Some((_, ray))) => Some(ray),
        _ => None,
    }
}

/// `colour` is what may be seen along `ray` with `depth` bounces left: black
/// with none left, and else what is seen at one bounce, where what lies
/// beyond is seen with one bounce less.
pub open spec fn seen<W: Hittable, C, S, T, B>(
    world: W,
    ray: W::Ray,
    ray_range: Range<W::Param>,
    depth: int,
    black: C,
    scatter: S,
    tint: T,
    background: B,
    colour: C,
) -> bool where
    S: Fn(&W::Ray, &HitRecord<W::Vector, W::Param, W::Material>) -> Option<(C, W::Ray)>,
    T: Fn(C, C) -> C,
    B: Fn(&W::Ray) -> C,

    decreases depth,
{
    if depth <= 0 {
        colour == black
    } else {
        exists|
            found: Option<HitRecord<W::Vector, W::Param, W::Material>>,
            scattered: Option<(C, W::Ray)>,
            beyond: C,
        |
            {
                &&& #[trigger] bounce(
                    world,
                    ray,
                    ray_range,
                    black,
                    scatter,
                    tint,
                    background,
                    found,
                    scattered,
                    beyond,
                    colour,
                )
                &&& onward(found, scattered) matches Some(next) ==> seen(
                    world,
                    next,
                    ray_range,
                    depth - 1,
                    black,
                    scatter,
                    tint,
                    background,
                    beyond,
                )
            }
    }
}

/// In a scene without geometry, a ray that has a bounce left sees the
/// background.
pub proof fn lemma_empty_scene_shows_background<H: Hittable, C, S, T, B>(
    world: Hittables<H>,
    ray: H::Ray,
    ray_range: Range<H::Param>,
    depth: int,
    black: C,
    scatter: S,
    tint: T,
    background: B,
    colour: C,
) where
    S: Fn(&H::Ray, &HitRecord<H::Vector, H::Param, H::Material>) -> Option<(C, H::Ray)>,
    T: Fn(C, C) -> C,
    B: Fn(&H::Ray) -> C,

    requires
        world@.len() == 0,
        depth > 0,
        seen(world, ray, ray_range, depth, black, scatter, tint, background, colour),
    ensures
        call_ensures(background, (&ray,), colour),
{
}

/// Whatever `world`, `scatter`, `tint` and `background` are asked, each has
/// one answer only.
pub open spec fn all_single_valued<W: Hittable, C, S, T, B>(
    world: W,
    scatter: S,
    tint: T,
    background: B,
) -> bool where
    S: Fn(&W::Ray, &HitRecord<W::Vector, W::Param, W::Material>) -> Option<(C, W::Ray)>,
    T: Fn(C, C) -> C,
    B: Fn(&W::Ray) -> C,
 {
    &&& forall|
        ray: W::Ray,
        range: Range<W::Param>,
        a: Option<HitRecord<W::Vector, W::Param, W::Material>>,
        b: Option<HitRecord<W::Vector, W::Param, W::Material>>,
    |
        #[trigger] call_ensures(W::hit, (&world, &ray, range), a) && #[trigger] call_ensures(
            W::hit,
            (&world, &ray, range),
            b,
        ) ==> a == b
    &&& forall|
        ray: W::Ray,
        record: HitRecord<W::Vector, W::Param, W::Material>,
        a: Option<(C, W::Ray)>,
        b: Option<(C, W::Ray)>,
    |
        #[trigger] call_ensures(scatter, (&ray, &record), a) && #[trigger] call_ensures(
            scatter,
            (&ray, &record),
            b,
        ) ==> a == b
    &&& forall|x: C, y: C, a: C, b: C|
        #[trigger] call_ensures(tint, (x, y), a) && #[trigger] call_ensures(tint, (x, y), b) ==> a
            == b
    &&& forall|ray: W::Ray, a: C, b: C|
        #[trigger] call_ensures(background, (&ray,), a) && #[trigger] call_ensures(
            background,
            (&ray,),
            b,
        ) ==> a == b
}

/// Where the scene and the shading have one answer only to every question,
/// one colour only is seen along a ray.
pub proof fn lemma_one_colour_is_seen<W: Hittable, C, S, T, B>(
    world: W,
    ray: W::Ray,
    ray_range: Range<W::Param>,
    depth: int,
    black: C,
    scatter: S,
    tint: T,
    background: B,
    first: C,
    second: C,
) where
    S: Fn(&W::Ray, &HitRecord<W::Vector, W::Param, W::Material>) -> Option<(C, W::Ray)>,
    T: Fn(C, C) -> C,
    B: Fn(&W::Ray) -> C,

    requires
        all_single_valued(world, scatter, tint, background),
        seen(world, ray, ray_range, depth, black, scatter, tint, background, first),
        seen(world, ray, ray_range, depth, black, scatter, tint, background, second),
    ensures
        first == second,
    decreases depth,
{
    if depth > 0 {
        let (found1, scattered1, beyond1) = choose|
            found: Option<HitRecord<W::Vector, W::Param, W::Material>>,
            scattered: Option<(C, W::Ray)>,
            beyond: C,
        |
            {
                &&& #[trigger] bounce(
                    world,
                    ray,
                    ray_range,
                    black,
                    scatter,
                    tint,
                    background,
                    found,
                    scattered,
                    beyond,
                    first,
                )
                &&& onward(found, scattered) matches Some(next) ==> seen(
                    world,
                    next,
                    ray_range,
                    depth - 1,
                    black,
                    scatter,
                    tint,
                    background,
                    beyond,
                )
            };
        let (found2, scattered2, beyond2) = choose|
            found: Option<HitRecord<W::Vector, W::Param, W::Material>>,
            scattered: Option<(C, W::Ray)>,
            beyond: C,
        |
            {
                &&& #[trigger] bounce(
                    world,
                    ray,
                    ray_range,
                    black,
                    scatter,
                    tint,
                    background,
                    found,
                    scattered,
                    beyond,
                    second,
                )
                &&& onward(found, scattered) matches Some(next) ==> seen(
                    world,
                    next,
                    ray_range,
                    depth - 1,
                    black,
                    scatter,
                    tint,
                    background,
                    beyond,
                )
            };
        assert(found1 == found2);
        if let Some(record) = found1 {
            assert(call_ensures(scatter, (&ray, &record), scattered1));
            assert(call_ensures(scatter, (&ray, &record), scattered2));
            assert(scattered1 == scattered2);
            if let Some((attenuation, next)) = scattered1 {
                lemma_one_colour_is_seen(
                    world,
                    next,
                    ray_range,
                    depth - 1,
                    black,
                    scatter,
                    tint,
                    background,
                    beyond1,
                    beyond2,
                );
                assert(call_ensures(tint, (attenuation, beyond1), first));
                assert(call_ensures(tint, (attenuation, beyond2), second));
            }
        }
    }
}

/// The colour seen along `ray`, following at most `max_depth` bounces.
///
/// Hits are looked for at positions in `ray_range`. `scatter` says what a
/// surface does with a ray that hit it: it gives the tint and the ray that
/// goes on, or nothing if the ray is swallowed. `tint` applies a tint to the
/// colour that the ray going on sees. `background` is what a ray sees that
/// hits nothing.
pub fn ray_color<W: Hittable, C: Copy, S, T, B>(
    ray: &W::Ray,
    world: &W,
    ray_range: Range<W::Param>,
    max_depth: i32,
    black: C,
    scatter: &S,
    tint: &T,
    background: &B,
) -> (colour: C) where
    S: Fn(&W::Ray, &HitRecord<W::Vector, W::Param, W::Material>) -> Option<(C, W::Ray)>,
    T: Fn(C, C) -> C,
    B: Fn(&W::Ray) -> C,

    requires
        forall|r: &W::Ray, h: &HitRecord<W::Vector, W::Param, W::Material>|
            call_requires(*scatter, (r, h)),
        forall|a: C, b: C| call_requires(*tint, (a, b)),
        forall|r: &W::Ray| call_requires(*background, (r,)),
    ensures
        seen(*world, *ray, ray_range, max_depth as int, black, *scatter, *tint, *background, colour),
        max_depth <= 0 ==> colour == black,
    decreases max_depth,
{
    if max_depth <= 0 {
        return black;
    }
    let start = ray_range.start;
    let end = ray_range.end;
    let found = world.hit(ray, start..end);
    match &found {
        Some(h) => {
            let scattered = scatter(ray, h);
            match &scattered {
                Some((attenuation, new_ray)) => {
                    let beyond = ray_color(
                        new_ray,
                        world,
                        start..end,
                        max_depth - 1,
                        black,
                        scatter,
                        tint,
                        background,
                    );
                    let colour = tint(*attenuation, beyond);
                    assert(bounce(
                        *world,
                        *ray,
                        ray_range,
                        black,
                        *scatter,
                        *tint,
                        *background,
                        found,
                        scattered,
                        beyond,
                        colour,
                    ));
                    colour
                },
                None => {
                    assert(bounce(
                        *world,
                        *ray,
                        ray_range,
                        black,
                        *scatter,
                        *tint,
                        *background,
                        found,
                        scattered,
                        black,
                        black,
                    ));
                    black
                },
            }
        },
        None => {
            let colour = background(ray);
            assert(bounce(
                *world,
                *ray,
                ray_range,
                black,
                *scatter,
                *tint,
                *background,
                found,
                None,
                black,
                colour,
            ));
            colour
        },
    }
}

} // verus!
