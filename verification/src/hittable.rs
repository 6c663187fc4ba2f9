//! Shapes that a ray can hit, and collections of them.
//!
//! A shape answers one question: where does this ray hit you first, within
//! this range of positions along the ray? A collection of shapes answers it
//! by asking every member in turn, each only for hits nearer than the
//! nearest found so far, and keeping the last answer.
//!
//! Nothing here computes with positions or vectors: their types are the
//! shape's to choose, and a collection only hands them on.

use core::ops::Range;
use vstd::prelude::*;

verus! {

/// Where and how a ray hit a surface: the point `p`, the surface normal `n`
/// there, the position `t` of the point along the ray, whether the ray came
/// from outside, and the material `mat` of the surface.
pub struct HitRecord<V, T, M> {
    pub p: V,
    pub n: V,
    pub t: T,
    pub front_face: bool,
    pub mat: M,
}

impl<V, T, M> HitRecord<V, T, M> {
    /// The record of a hit at the point `p`, with the normal `n`, at the
    /// position `t` along the ray, on a surface made of `mat`.
    pub fn new(p: V, n: V, t: T, front_face: bool, mat: M) -> (record: Self)
        ensures
            record == (HitRecord { p, n, t, front_face, mat }),
    {
        Self { p, n, t, front_face, mat }
    }
}

/// A shape that rays can hit.
pub trait Hittable {
    /// The rays that are cast at the shape.
    type Ray;

    /// Points and directions in space.
    type Vector;

    /// Positions along a ray.
    type Param: Copy;

    /// What surfaces are made of.
    type Material;

    /// The nearest hit of `ray` on the shape whose position along the ray
    /// lies in `ray_range`, if there is one.
    fn hit(&self, ray: &Self::Ray, ray_range: Range<Self::Param>) -> Option<
        HitRecord<Self::Vector, Self::Param, Self::Material>,
    >;
}

/// The last hit among `answers`, if there is one: what a collection keeps of
/// the answers of its members.
pub open spec fn kept<V, T, M>(answers: Seq<Option<HitRecord<V, T, M>>>) -> Option<
    HitRecord<V, T, M>,
>
    decreases answers.len(),
{
    if answers.len() == 0 {
        None
    } else if answers.last() is Some {
        answers.last()
    } else {
        kept(answers.drop_last())
    }
}

/// The range in which the member behind those that gave `answers` is asked:
/// from the start of `ray_range` up to the hit kept so far, or up to the end
/// of `ray_range` as long as there is none.
pub open spec fn narrowed<V, T, M>(
    ray_range: Range<T>,
    answers: Seq<Option<HitRecord<V, T, M>>>,
) -> Range<T> {
    match kept(answers) {
        Some(record) => ray_range.start..record.t,
        None => ray_range,
    }
}

/// `answers` holds, member by member, what the members of `objects` may
/// answer when each is asked for a hit of `ray` in the range that the
/// answers before it leave.
pub open spec fn answered<H: Hittable>(
    objects: Seq<H>,
    ray: H::Ray,
    ray_range: Range<H::Param>,
    answers: Seq<Option<HitRecord<H::Vector, H::Param, H::Material>>>,
) -> bool {
    &&& answers.len() == objects.len()
    &&& forall|k: int|
        0 <= k < objects.len() ==> call_ensures(
            H::hit,
            (&objects[k], &ray, narrowed(ray_range, answers.take(k))),
            #[trigger] answers[k],
        )
}

/// Where no hit is kept, no member was hit, and every member was asked for
/// the whole range.
pub proof fn lemma_nothing_kept<H: Hittable>(
    objects: Seq<H>,
    ray: H::Ray,
    ray_range: Range<H::Param>,
    answers: Seq<Option<HitRecord<H::Vector, H::Param, H::Material>>>,
)
    requires
        answered(objects, ray, ray_range, answers),
        kept(answers) is None,
    ensures
        forall|k: int| 0 <= k < objects.len() ==> (#[trigger] answers[k]) is None,
        forall|k: int|
            0 <= k < objects.len() ==> call_ensures(
                H::hit,
                (&(#[trigger] objects[k]), &ray, ray_range),
                None,
            ),
{
    assert forall|k: int| 0 <= k <= answers.len() implies kept(#[trigger] answers.take(k))
        is None by {
        lemma_kept_none(answers, k);
    }
    assert forall|k: int| 0 <= k < objects.len() implies (#[trigger] answers[k]) is None by {
        lemma_kept_none(answers, k + 1);
        assert(answers.take(k + 1).last() == answers[k]);
    }
    assert forall|k: int| 0 <= k < objects.len() implies call_ensures(
        H::hit,
        (&(#[trigger] objects[k]), &ray, ray_range),
        None,
    ) by {
        assert(kept(answers.take(k)) is None);
        assert(answers[k] is None);
    }
}

/// Where nothing is kept of all answers, nothing is kept of the first `k`.
proof fn lemma_kept_none<V, T, M>(answers: Seq<Option<HitRecord<V, T, M>>>, k: int)
    requires
        kept(answers) is None,
        0 <= k <= answers.len(),
    ensures
        kept(answers.take(k)) is None,
    decreases answers.len(),
{
    if k == answers.len() {
        assert(answers.take(k) =~= answers);
    } else {
        lemma_kept_none(answers.drop_last(), k);
        assert(answers.drop_last().take(k) =~= answers.take(k));
    }
}

/// The hit that is kept is the answer of one member, and no member behind
/// that one was hit.
pub proof fn lemma_kept_is_an_answer<V, T, M>(answers: Seq<Option<HitRecord<V, T, M>>>) -> (at:
    int)
    requires
        kept(answers) is Some,
    ensures
        0 <= at < answers.len(),
        answers[at] == kept(answers),
        kept(answers.take(at + 1)) == kept(answers),
        forall|k: int| at < k < answers.len() ==> (#[trigger] answers[k]) is None,
    decreases answers.len(),
{
    if answers.last() is Some {
        assert(answers.take(answers.len() as int) =~= answers);
        answers.len() - 1
    } else {
        let at = lemma_kept_is_an_answer(answers.drop_last());
        assert(answers.drop_last().take(at + 1) =~= answers.take(at + 1));
        assert(answers.drop_last()[at] == answers[at]);
        assert forall|k: int| at < k < answers.len() implies (#[trigger] answers[k]) is None by {
            if k < answers.len() - 1 {
                assert(answers.drop_last()[k] == answers[k]);
            }
        }
        at
    }
}

/// `before` orders positions in a transitive way.
pub open spec fn transitive<T>(before: spec_fn(T, T) -> bool) -> bool {
    forall|a: T, b: T, c: T| #[trigger] before(a, b) && #[trigger] before(b, c) ==> before(a, c)
}

/// Every member of `objects` keeps to the range it is asked for: where it
/// reports a hit, the hit lies before the end of that range.
pub open spec fn keep_to_range<H: Hittable>(
    objects: Seq<H>,
    ray: H::Ray,
    before: spec_fn(H::Param, H::Param) -> bool,
) -> bool {
    forall|i: int, range: Range<H::Param>, record: HitRecord<H::Vector, H::Param, H::Material>|
        0 <= i < objects.len() && #[trigger] call_ensures(
            H::hit,
            (&objects[i], &ray, range),
            Some(record),
        ) ==> before(record.t, range.end)
}

/// Where the member at `j` was hit, a hit is kept, and it is that member's
/// or one from behind it.
proof fn lemma_kept_behind<V, T, M>(answers: Seq<Option<HitRecord<V, T, M>>>, j: int) -> (at: int)
    requires
        0 <= j < answers.len(),
        answers[j] is Some,
    ensures
        j <= at < answers.len(),
        answers[at] is Some,
        answers[at] == kept(answers),
    decreases answers.len(),
{
    if answers.last() is Some {
        answers.len() - 1
    } else {
        assert(answers.drop_last()[j] == answers[j]);
        let at = lemma_kept_behind(answers.drop_last(), j);
        assert(answers.drop_last()[at] == answers[at]);
        at
    }
}

/// If every member keeps to the range it is asked for, each hit lies before
/// all hits that members in front of it reported. `before` may be any
/// transitive way to order positions.
pub proof fn lemma_hits_get_nearer<H: Hittable>(
    objects: Seq<H>,
    ray: H::Ray,
    ray_range: Range<H::Param>,
    answers: Seq<Option<HitRecord<H::Vector, H::Param, H::Material>>>,
    before: spec_fn(H::Param, H::Param) -> bool,
    j: int,
    k: int,
)
    requires
        answered(objects, ray, ray_range, answers),
        transitive(before),
        keep_to_range(objects, ray, before),
        0 <= j < k < answers.len(),
        answers[j] is Some,
        answers[k] is Some,
    ensures
        before(answers[k]->0.t, answers[j]->0.t),
    decreases k - j,
{
    let earlier = answers.take(k);
    assert(earlier[j] == answers[j]);
    let at = lemma_kept_behind(earlier, j);
    assert(earlier[at] == answers[at]);
    let asked = narrowed(ray_range, earlier);
    let near = answers[k]->0;
    let far = answers[at]->0;
    assert(asked.end == far.t);
    assert(call_ensures(H::hit, (&objects[k], &ray, asked), answers[k]));
    assert(before(near.t, asked.end));
    if j < at {
        lemma_hits_get_nearer(objects, ray, ray_range, answers, before, j, at);
        assert(before(near.t, far.t) && before(far.t, answers[j]->0.t));
    }
}

/// If every member keeps to the range it is asked for, the hit that a
/// collection keeps lies before every other hit that a member reported.
pub proof fn lemma_kept_is_nearest<H: Hittable>(
    objects: Seq<H>,
    ray: H::Ray,
    ray_range: Range<H::Param>,
    answers: Seq<Option<HitRecord<H::Vector, H::Param, H::Material>>>,
    before: spec_fn(H::Param, H::Param) -> bool,
    j: int,
) -> (at: int)
    requires
        answered(objects, ray, ray_range, answers),
        transitive(before),
        keep_to_range(objects, ray, before),
        0 <= j < answers.len(),
        answers[j] is Some,
    ensures
        j <= at < answers.len(),
        kept(answers) is Some,
        kept(answers) == answers[at],
        j == at || before(kept(answers)->0.t, answers[j]->0.t),
{
    let at = lemma_kept_behind(answers, j);
    if j < at {
        lemma_hits_get_nearer(objects, ray, ray_range, answers, before, j, at);
    }
    at
}

/// A collection of shapes, which is itself a shape: a ray hits it where it
/// first hits one of its members.
pub struct Hittables<H: Hittable> {
    objects: Vec<H>,
}

impl<H: Hittable> View for Hittables<H> {
    type V = Seq<H>;

    /// The members, in the order in which they are asked.
    closed spec fn view(&self) -> Seq<H> {
        self.objects@
    }
}

impl<H: Hittable> Hittables<H> {
    /// A collection without members.
    pub fn new() -> (world: Self)
        ensures
            world@ == Seq::<H>::empty(),
    {
        Self { objects: Vec::new() }
    }

    /// Adds `object` behind the members that are there.
    pub fn add(&mut self, object: H)
        ensures
            final(self)@ == old(self)@.push(object),
    {
        self.objects.push(object);
    }
}

impl<H: Hittable> Hittable for Hittables<H> {
    type Ray = H::Ray;

    type Vector = H::Vector;

    type Param = H::Param;

    type Material = H::Material;

    /// Asks every member in turn, each for a hit in the range that the
    /// answers before it leave, and returns the last hit that a member
    /// reported.
    fn hit(&self, ray: &H::Ray, ray_range: Range<H::Param>) -> (r: Option<
        HitRecord<H::Vector, H::Param, H::Material>,
    >)
        ensures
            exists|answers: Seq<Option<HitRecord<H::Vector, H::Param, H::Material>>>|
                #[trigger] answered(self@, *ray, ray_range, answers) && r == kept(answers),
            self@.len() == 0 ==> r is None,
            r is None ==> forall|k: int|
                0 <= k < self@.len() ==> call_ensures(
                    H::hit,
                    (&(#[trigger] self@[k]), ray, ray_range),
                    None,
                ),
    {
        let start = ray_range.start;
        let mut closest_so_far = ray_range.end;
        let mut temp_hit: Option<HitRecord<H::Vector, H::Param, H::Material>> = None;
        let ghost mut answers = Seq::<Option<HitRecord<H::Vector, H::Param, H::Material>>>::empty();
        let mut k: usize = 0;
        while k < self.objects.len()
            invariant
                k <= self.objects@.len(),
                start == ray_range.start,
                answers.len() == k,
                temp_hit == kept(answers),
                (start..closest_so_far) == narrowed(ray_range, answers),
                forall|i: int|
                    0 <= i < k ==> call_ensures(
                        H::hit,
                        (&self@[i], ray, narrowed(ray_range, answers.take(i))),
                        #[trigger] answers[i],
                    ),
            decreases self.objects@.len() - k,
        {
            let ghost earlier = answers;
            let found = self.objects[k].hit(ray, start..closest_so_far);
            proof {
                answers = earlier.push(found);
                assert(answers.drop_last() =~= earlier);
                assert(answers.take(k as int) =~= earlier);
                assert forall|i: int| 0 <= i < k implies answers.take(i) == earlier.take(i) by {
                    assert(answers.take(i) =~= earlier.take(i));
                }
            }
            if let Some(hit) = found {
                closest_so_far = hit.t;
                temp_hit = Some(hit);
            }
            k += 1;
        }
        proof {
            assert(answered(self@, *ray, ray_range, answers));
            if temp_hit is None {
                lemma_nothing_kept(self@, *ray, ray_range, answers);
            }
        }
        temp_hit
    }
}

} // verus!
