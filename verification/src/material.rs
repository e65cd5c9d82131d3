use vstd::prelude::*;
use crate::hittable::HitRecord;

verus! {

/// How a surface answers a ray that meets it.
///
/// A material either scatters the ray, giving the outgoing ray and the
/// attenuation by which light arriving along it is multiplied, or absorbs it
/// and gives nothing. The answer may depend on chance, so a material is
/// modelled by the answers it may give. A material that `obeys_model` gives
/// only answers that `scatters` admits; of one that does not, which is what
/// an implementation that overrides neither description says of itself,
/// nothing is claimed.
pub trait Material<R, G, C>: Sized {
    /// Whether `scatter` keeps to `scatters`.
    open spec fn obeys_model(&self) -> bool {
        false
    }

    /// Whether `answer` is an answer this material may give to `ray_in`
    /// where `record` says it met the surface.
    open spec fn scatters(&self, ray_in: &R, record: HitRecord<'_, G, Self>, answer: Option<(R, C)>) -> bool {
        false
    }

    fn scatter(&self, ray_in: &R, record: &HitRecord<'_, G, Self>) -> (r: Option<(R, C)>)
        ensures
            self.obeys_model() ==> self.scatters(ray_in, *record, r),
    ;
}

} // verus!
