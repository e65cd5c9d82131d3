use vstd::prelude::*;
use crate::interval::Interval;

verus! {

/// What is known of one intersection of a ray with a surface.
///
/// `t` is the ray parameter of the intersection. `front_face` tells whether
/// the ray arrived on the side the surface's normal points to. `material`
/// borrows the material of the surface from the scene, and `geometry` carries
/// whatever the host records of the place itself (the point, the oriented
/// normal), which nothing here looks into.
pub struct HitRecord<'a, G, M> {
    pub t: i64,
    pub front_face: bool,
    pub material: &'a M,
    pub geometry: G,
}

impl<'a, G, M> HitRecord<'a, G, M> {
    pub fn new(t: i64, front_face: bool, material: &'a M, geometry: G) -> (r: HitRecord<'a, G, M>)
        ensures
            r.t == t,
            r.front_face == front_face,
            r.material == material,
            r.geometry == geometry,
    {
        HitRecord { t, front_face, material, geometry }
    }
}

/// `t` is the least parameter of `crossings` that `range` encloses.
pub open spec fn is_nearest(crossings: Set<int>, range: Interval, t: int) -> bool {
    &&& crossings.contains(t)
    &&& range.encloses(t)
    &&& forall|u: int| #[trigger] crossings.contains(u) && range.encloses(u) ==> t <= u
}

/// `range` encloses no parameter of `crossings`.
pub open spec fn is_clear(crossings: Set<int>, range: Interval) -> bool {
    forall|u: int| #[trigger] crossings.contains(u) ==> !range.encloses(u)
}

/// Something a ray can be tested against.
///
/// A surface is modelled by the parameters at which a ray meets it. A
/// surface that `obeys_model` answers `hit` by that model; of one that does
/// not, which is what an implementation that overrides none of the three
/// descriptions says of itself, nothing is claimed.
pub trait Hittable<R, G, M> {
    /// Whether `hit` keeps to `crossings` and `yields`.
    open spec fn obeys_model(&self) -> bool {
        false
    }

    /// The parameters at which `ray` meets this surface.
    open spec fn crossings(&self, ray: &R) -> Set<int> {
        Set::empty()
    }

    /// Whether `record` is a record this surface gives for `ray`.
    open spec fn yields(&self, ray: &R, record: HitRecord<'_, G, M>) -> bool {
        false
    }

    /// The nearest intersection of `ray` with this surface whose parameter
    /// lies strictly inside `range`, or nothing where there is none.
    fn hit<'a>(&'a self, ray: &R, range: Interval) -> (r: Option<HitRecord<'a, G, M>>)
        ensures
            self.obeys_model() ==> match r {
                Some(record) => is_nearest(self.crossings(ray), range, record.t as int)
                    && self.yields(ray, record),
                None => is_clear(self.crossings(ray), range),
            },
    ;
}

} // verus!
