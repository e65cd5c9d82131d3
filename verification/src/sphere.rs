use vstd::prelude::*;
use crate::hittable::{is_clear, is_nearest, HitRecord, Hittable};
use crate::hittable_list::{is_first_source, HittableList};
use crate::interval::Interval;

verus! {

/// Which of the two parameters at which a ray meets a sphere counts as the
/// hit inside `range`: `near` if `range` encloses it, else `far` if `range`
/// encloses that, else none.
pub open spec fn chosen_root(near: int, far: int, range: Interval) -> Option<int> {
    if range.encloses(near) {
        Some(near)
    } else if range.encloses(far) {
        Some(far)
    } else {
        None
    }
}

/// Chooses between the two roots of a sphere's intersection equation.
pub fn select_root(near: i64, far: i64, range: Interval) -> (r: Option<i64>)
    ensures
        match r {
            Some(t) => chosen_root(near as int, far as int, range) == Some(t as int),
            None => chosen_root(near as int, far as int, range).is_none(),
        },
{
    if range.surrounds(near) {
        Some(near)
    } else if range.surrounds(far) {
        Some(far)
    } else {
        None
    }
}

/// With the roots in order, the chosen root is the nearest crossing inside
/// the range, and none is chosen only where the range encloses neither.
pub proof fn lemma_chosen_root_is_nearest(near: int, far: int, range: Interval)
    requires
        near <= far,
    ensures
        match chosen_root(near, far, range) {
            Some(t) => is_nearest(set![near, far], range, t),
            None => is_clear(set![near, far], range),
        },
{
}

/// The stretch of one ray that lies inside a sphere, by the parameters at
/// which the ray enters and leaves it, with the sphere's material.
///
/// It stands for a sphere whose intersection equation with that ray has been
/// solved: what is left of testing the sphere is to choose between the two
/// roots. It looks at no ray and records nothing of the place of a hit.
pub struct Chord<M> {
    pub near: i64,
    pub far: i64,
    pub material: M,
}

impl<M> Chord<M> {
    /// Whether a hit at `t` is on the side the ray enters by. A ray that only
    /// touches the sphere enters nowhere.
    pub open spec fn enters_at(&self, t: int) -> bool {
        t == self.near && self.near < self.far
    }
}

impl<R, M> Hittable<R, (), M> for Chord<M> {
    /// The model holds of a chord whose ends are in order.
    open spec fn obeys_model(&self) -> bool {
        self.near <= self.far
    }

    open spec fn crossings(&self, ray: &R) -> Set<int> {
        set![self.near as int, self.far as int]
    }

    open spec fn yields(&self, ray: &R, record: HitRecord<'_, (), M>) -> bool {
        &&& record.material == &self.material
        &&& record.front_face == self.enters_at(record.t as int)
    }

    fn hit<'a>(&'a self, ray: &R, range: Interval) -> (r: Option<HitRecord<'a, (), M>>)
        ensures
            match r {
                Some(record) => chosen_root(self.near as int, self.far as int, range) == Some(
                    record.t as int,
                ) && self.yields(ray, record),
                None => chosen_root(self.near as int, self.far as int, range).is_none(),
            },
    {
        proof {
            if self.near <= self.far {
                lemma_chosen_root_is_nearest(self.near as int, self.far as int, range);
            }
        }
        match select_root(self.near, self.far, range) {
            Some(t) => Some(HitRecord::new(t, t == self.near && self.near < self.far, &self.material, ())),
            None => None,
        }
    }
}

/// Of two spheres that a ray enters inside `range`, a list of the two gives
/// the one that the ray enters first, whichever stands first in the list,
/// and the one that stands first where the ray enters both at once.
pub proof fn lemma_nearer_sphere_wins<R, M>(
    list: HittableList<Chord<M>>,
    ray: &R,
    range: Interval,
    record: HitRecord<'_, (), M>,
)
    requires
        list.objects@.len() == 2,
        list.objects@[0].near <= list.objects@[0].far,
        list.objects@[1].near <= list.objects@[1].far,
        range.encloses(list.objects@[0].near as int),
        range.encloses(list.objects@[1].near as int),
        is_nearest(list.crossings(ray), range, record.t as int),
        list.yields(ray, record),
    ensures
        record.t == if list.objects@[0].near <= list.objects@[1].near {
            list.objects@[0].near
        } else {
            list.objects@[1].near
        },
        record.material == if list.objects@[0].near <= list.objects@[1].near {
            &list.objects@[0].material
        } else {
            &list.objects@[1].material
        },
{
    let first = list.objects@[0];
    let second = list.objects@[1];
    assert(first.crossings(ray).contains(first.near as int));
    assert(second.crossings(ray).contains(second.near as int));
    assert(list.crossings(ray).contains(first.near as int));
    assert(list.crossings(ray).contains(second.near as int));
    let i = choose|i: int| is_first_source::<R, (), M, Chord<M>>(list.objects@, i, ray, record);
    assert(list.objects@[i].crossings(ray).contains(record.t as int));
    if i == 1 {
        assert(!list.objects@[0].crossings(ray).contains(record.t as int));
    }
}

} // verus!
