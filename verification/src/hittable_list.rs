use vstd::prelude::*;
use crate::hittable::{is_clear, is_nearest, HitRecord, Hittable};
use crate::interval::Interval;

verus! {

/// An ordered collection of surfaces that is tested as one surface: of all
/// the intersections of its members, the nearest one wins.
pub struct HittableList<H> {
    pub objects: Vec<H>,
}

impl<H> HittableList<H> {
    pub fn new() -> (r: HittableList<H>)
        ensures
            r.objects@ == Seq::<H>::empty(),
    {
        HittableList { objects: Vec::new() }
    }

    /// Appends `object` behind the members already there.
    pub fn add(&mut self, object: H)
        ensures
            final(self).objects@ == old(self).objects@.push(object),
    {
        self.objects.push(object);
    }

    /// Removes every member.
    pub fn clear(&mut self)
        ensures
            final(self).objects@ == Seq::<H>::empty(),
    {
        self.objects.clear();
    }
}

impl<H> Default for HittableList<H> {
    fn default() -> (r: HittableList<H>)
        ensures
            r.objects@ == Seq::<H>::empty(),
    {
        HittableList { objects: Vec::new() }
    }
}

/// The parameters at which `ray` meets one of the first `count` surfaces of
/// `objects`.
pub open spec fn crossings_among<R, G, M, H: Hittable<R, G, M>>(
    objects: Seq<H>,
    count: int,
    ray: &R,
) -> Set<int> {
    Set::new(
        |t: int| exists|i: int| 0 <= i < count && i < objects.len() && (#[trigger] objects[i]).crossings(ray).contains(t),
    )
}

/// `record` comes from the surface at `index`, and no surface before it in
/// `objects` is met by `ray` at the record's parameter.
pub open spec fn is_first_source<R, G, M, H: Hittable<R, G, M>>(
    objects: Seq<H>,
    index: int,
    ray: &R,
    record: HitRecord<'_, G, M>,
) -> bool {
    &&& 0 <= index < objects.len()
    &&& objects[index].yields(ray, record)
    &&& objects[index].crossings(ray).contains(record.t as int)
    &&& forall|j: int| 0 <= j < index ==> !(#[trigger] objects[j]).crossings(ray).contains(record.t as int)
}

impl<R, G, M, H: Hittable<R, G, M>> Hittable<R, G, M> for HittableList<H> {
    /// A list keeps to the model where every member does.
    open spec fn obeys_model(&self) -> bool {
        forall|i: int| 0 <= i < self.objects@.len() ==> (#[trigger] self.objects@[i]).obeys_model()
    }

    /// A list is met wherever one of its members is met.
    open spec fn crossings(&self, ray: &R) -> Set<int> {
        crossings_among::<R, G, M, H>(self.objects@, self.objects@.len() as int, ray)
    }

    /// A list gives the records of its members; where several members are met
    /// at the same parameter, the one that stands first gives the record.
    open spec fn yields(&self, ray: &R, record: HitRecord<'_, G, M>) -> bool {
        exists|i: int| is_first_source::<R, G, M, H>(self.objects@, i, ray, record)
    }

    /// One pass over the members. Each member is asked only for what lies
    /// nearer than the nearest intersection found so far, so a member that is
    /// met at the same parameter as an earlier one does not replace it.
    fn hit<'a>(&'a self, ray: &R, range: Interval) -> (r: Option<HitRecord<'a, G, M>>)
        ensures
            self.objects@.len() == 0 ==> r is None,
    {
        let mut nearest: Option<HitRecord<'a, G, M>> = None;
        let mut closest_so_far: i64 = range.max;
        let mut k: usize = 0;
        while k < self.objects.len()
            invariant
                0 <= k <= self.objects@.len(),
                k == 0 ==> nearest is None,
                self.obeys_model() ==> match nearest {
                    Some(record) => {
                        &&& closest_so_far == record.t
                        &&& is_nearest(
                            crossings_among::<R, G, M, H>(self.objects@, k as int, ray),
                            range,
                            record.t as int,
                        )
                        &&& exists|i: int|
                            0 <= i < k && is_first_source::<R, G, M, H>(self.objects@, i, ray, record)
                    },
                    None => {
                        &&& closest_so_far == range.max
                        &&& is_clear(crossings_among::<R, G, M, H>(self.objects@, k as int, ray), range)
                    },
                },
            decreases self.objects@.len() - k,
        {
            let narrowed = Interval::new(range.min, closest_so_far);
            let found = self.objects[k].hit(ray, narrowed);
            proof {
                let before = crossings_among::<R, G, M, H>(self.objects@, k as int, ray);
                let after = crossings_among::<R, G, M, H>(self.objects@, k as int + 1, ray);
                let here = self.objects@[k as int].crossings(ray);
                assert forall|u: int| after.contains(u) implies before.contains(u) || here.contains(u) by {
                    let i = choose|i: int|
                        0 <= i < k as int + 1 && i < self.objects@.len() && (#[trigger] self.objects@[i]).crossings(
                            ray,
                        ).contains(u);
                    if i < k {
                        assert(before.contains(u));
                    }
                }
                assert forall|u: int| before.contains(u) || here.contains(u) implies after.contains(u) by {
                    if here.contains(u) {
                        assert(self.objects@[k as int].crossings(ray).contains(u));
                    } else {
                        let i = choose|i: int|
                            0 <= i < k as int && i < self.objects@.len() && (#[trigger] self.objects@[i]).crossings(
                                ray,
                            ).contains(u);
                        assert(self.objects@[i].crossings(ray).contains(u));
                    }
                }
            }
            match found {
                Some(record) => {
                    proof {
                        if self.obeys_model() {
                            let before = crossings_among::<R, G, M, H>(self.objects@, k as int, ray);
                            assert forall|j: int| 0 <= j < k implies !(#[trigger] self.objects@[j]).crossings(
                                ray,
                            ).contains(record.t as int) by {
                                if self.objects@[j].crossings(ray).contains(record.t as int) {
                                    assert(before.contains(record.t as int));
                                }
                            }
                            assert(is_first_source::<R, G, M, H>(self.objects@, k as int, ray, record));
                        }
                    }
                    closest_so_far = record.t;
                    nearest = Some(record);
                },
                None => {},
            }
            k += 1;
        }
        nearest
    }
}

/// Nearest wins: a parameter that is the nearest of a list inside `range` is
/// not beyond any parameter inside `range` at which a member is met.
pub proof fn lemma_nearest_of_list_bounds_members<R, G, M, H: Hittable<R, G, M>>(
    list: HittableList<H>,
    ray: &R,
    range: Interval,
    t: int,
    member: int,
    u: int,
)
    requires
        is_nearest(list.crossings(ray), range, t),
        0 <= member < list.objects@.len(),
        list.objects@[member].crossings(ray).contains(u),
        range.encloses(u),
    ensures
        t <= u,
{
    assert(list.crossings(ray).contains(u));
}

/// A list without members is met nowhere.
pub proof fn lemma_empty_list_is_clear<R, G, M, H: Hittable<R, G, M>>(
    list: HittableList<H>,
    ray: &R,
    range: Interval,
)
    requires
        list.objects@.len() == 0,
    ensures
        is_clear(list.crossings(ray), range),
{
}

} // verus!
