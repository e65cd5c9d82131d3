use vstd::prelude::*;
use crate::hittable::{is_clear, is_nearest, HitRecord, Hittable};
use crate::interval::Interval;
use crate::material::Material;

verus! {

/// What the scene did with one ray of a path.
#[derive(Clone, Copy, Debug, PartialEq, Eq, Structural)]
pub enum Outcome {
    /// The ray met nothing.
    Missed,
    /// The ray met a surface whose material absorbed it.
    Absorbed,
    /// The ray met a surface whose material scattered it.
    Scattered,
}

/// Why a path stopped.
#[derive(Clone, Copy, Debug, PartialEq, Eq, Structural)]
pub enum Ending {
    /// No bounce was left: the path carries no light.
    Exhausted,
    /// A material absorbed the ray: the path carries no light.
    Absorbed,
    /// The ray left the scene: the path carries the light of the environment.
    Escaped,
}

/// What a path does next.
#[derive(Clone, Copy, Debug, PartialEq, Eq, Structural)]
pub enum Step {
    /// Test a ray against the scene, with `remaining` bounces left, this one
    /// included.
    Cast { remaining: i32 },
    /// Stop.
    Done(Ending),
}

/// The first step of a path that may take `depth` bounces.
pub open spec fn first_step(depth: int) -> Step {
    if depth <= 0 {
        Step::Done(Ending::Exhausted)
    } else {
        Step::Cast { remaining: depth as i32 }
    }
}

/// The step after a ray cast with `remaining` bounces left had `outcome`.
pub open spec fn next_step(remaining: int, outcome: Outcome) -> Step {
    match outcome {
        Outcome::Missed => Step::Done(Ending::Escaped),
        Outcome::Absorbed => Step::Done(Ending::Absorbed),
        Outcome::Scattered => first_step(remaining - 1),
    }
}

/// How a path of `depth` bounces ends, and after how many scatterings, when
/// its rays meet with `outcomes` one after the other, from `outcomes(from)` on.
pub open spec fn resolve(depth: int, outcomes: spec_fn(nat) -> Outcome, from: nat) -> (Ending, nat)
    decreases depth,
{
    if depth <= 0 {
        (Ending::Exhausted, 0)
    } else {
        match outcomes(from) {
            Outcome::Missed => (Ending::Escaped, 0),
            Outcome::Absorbed => (Ending::Absorbed, 0),
            Outcome::Scattered => {
                let rest = resolve(depth - 1, outcomes, from + 1);
                (rest.0, rest.1 + 1)
            },
        }
    }
}

/// Starts a path: with no bounce allowed it is over before any ray is cast.
pub fn begin(depth: i32) -> (r: Step)
    ensures
        r == first_step(depth as int),
{
    if depth <= 0 {
        Step::Done(Ending::Exhausted)
    } else {
        Step::Cast { remaining: depth }
    }
}

/// Moves a path on after one of its rays was cast.
pub fn advance(remaining: i32, outcome: Outcome) -> (r: Step)
    ensures
        r == next_step(remaining as int, outcome),
{
    match outcome {
        Outcome::Missed => Step::Done(Ending::Escaped),
        Outcome::Absorbed => Step::Done(Ending::Absorbed),
        Outcome::Scattered => if remaining <= 1 {
            Step::Done(Ending::Exhausted)
        } else {
            begin(remaining - 1)
        },
    }
}

/// A path that may take no bounce ends exhausted, whatever the scene holds.
pub proof fn lemma_no_depth_no_light(depth: int, outcomes: spec_fn(nat) -> Outcome, from: nat)
    requires
        depth <= 0,
    ensures
        resolve(depth, outcomes, from) == (Ending::Exhausted, 0nat),
        first_step(depth) == Step::Done(Ending::Exhausted),
{
}

/// A path scatters at most `depth` times, and exactly `depth` times where it
/// ends exhausted.
pub proof fn lemma_bounces_bounded(depth: int, outcomes: spec_fn(nat) -> Outcome, from: nat)
    requires
        depth >= 0,
    ensures
        resolve(depth, outcomes, from).1 <= depth,
        resolve(depth, outcomes, from).0 == Ending::Exhausted ==> resolve(depth, outcomes, from).1
            == depth,
    decreases depth,
{
    if depth > 0 {
        lemma_bounces_bounded(depth - 1, outcomes, from + 1);
    }
}

/// Following the steps one by one ends as `resolve` says: after a scattering
/// the rest of the path is a path of its own with one bounce less.
pub proof fn lemma_steps_follow_resolve(depth: int, outcomes: spec_fn(nat) -> Outcome, from: nat)
    requires
        0 < depth <= i32::MAX,
    ensures
        match next_step(depth, outcomes(from)) {
            Step::Done(ending) => resolve(depth, outcomes, from).0 == ending,
            Step::Cast { remaining } => {
                &&& remaining == depth - 1
                &&& resolve(depth, outcomes, from).0 == resolve(remaining as int, outcomes, from + 1).0
                &&& resolve(depth, outcomes, from).1 == resolve(remaining as int, outcomes, from + 1).1
                    + 1
            },
        },
{
    reveal_with_fuel(resolve, 2);
}

/// How a traced path stopped; where the ray left the scene, the ray that did.
pub enum PathEnd<R> {
    Exhausted,
    Absorbed,
    Escaped(R),
}

impl<R> PathEnd<R> {
    /// The end of a path that stopped for `ending` while it followed `ray`.
    pub open spec fn ended(ending: Ending, ray: R) -> PathEnd<R> {
        match ending {
            Ending::Exhausted => PathEnd::Exhausted,
            Ending::Absorbed => PathEnd::Absorbed,
            Ending::Escaped => PathEnd::Escaped(ray),
        }
    }

    /// Records how a path stopped, and the ray with which it left the scene
    /// where it did.
    pub fn of(ending: Ending, ray: R) -> (end: PathEnd<R>)
        ensures
            end == PathEnd::ended(ending, ray),
    {
        match ending {
            Ending::Exhausted => PathEnd::Exhausted,
            Ending::Absorbed => PathEnd::Absorbed,
            Ending::Escaped => PathEnd::Escaped(ray),
        }
    }
}

/// A traced path: the attenuations of its scatterings, first bounce first,
/// and how it stopped. The light it carries is the light of its end (none, or
/// that of the environment along the escaped ray) multiplied by every
/// attenuation.
pub struct Path<R, C> {
    pub attenuations: Vec<C>,
    pub end: PathEnd<R>,
}

/// `found` is an answer that `world` may give when `ray` is tested inside
/// `range`: any answer at all of a world that does not keep to its model.
pub open spec fn world_gives<R, G, M, W: Hittable<R, G, M>>(
    world: &W,
    ray: &R,
    range: Interval,
    found: Option<HitRecord<'_, G, M>>,
) -> bool {
    world.obeys_model() ==> match found {
        Some(record) => is_nearest(world.crossings(ray), range, record.t as int) && world.yields(
            ray,
            record,
        ),
        None => is_clear(world.crossings(ray), range),
    }
}

/// `answer` is an answer that the material of `record` may give to `ray`:
/// any answer at all of a material that does not keep to its model.
pub open spec fn material_gives<R, G, C, M: Material<R, G, C>>(
    ray: &R,
    record: HitRecord<'_, G, M>,
    answer: Option<(R, C)>,
) -> bool {
    record.material.obeys_model() ==> record.material.scatters(ray, record, answer)
}

/// `found` and `answer` are what the world and then the material may say
/// of `ray`: the world is asked about that ray inside `range`, and where it
/// gives a record, the material of that record is asked about that ray and
/// that record. Where the world gives nothing no material is asked, and
/// `answer` stands for nothing.
pub open spec fn is_turn<R, G, C, M: Material<R, G, C>, W: Hittable<R, G, M>>(
    world: &W,
    range: Interval,
    ray: R,
    found: Option<HitRecord<'_, G, M>>,
    answer: Option<(R, C)>,
) -> bool {
    &&& world_gives(world, &ray, range, found)
    &&& match found {
        Some(record) => material_gives(&ray, record, answer),
        None => true,
    }
}

/// `attenuations` and `end` are a path that `ray` may take through `world`
/// with `depth` bounces allowed.
///
/// With no bounce allowed the path is exhausted at once. Else the world and
/// the material have their turn. A ray that met nothing escapes, and a ray
/// that was absorbed ends the path, each with nothing recorded. A scattering
/// records its attenuation first, and the scattered ray takes a path of its
/// own with one bounce less.
pub open spec fn is_path<R, G, C, M: Material<R, G, C>, W: Hittable<R, G, M>>(
    world: &W,
    range: Interval,
    ray: R,
    depth: int,
    attenuations: Seq<C>,
    end: PathEnd<R>,
) -> bool
    decreases depth,
{
    if depth <= 0 {
        attenuations.len() == 0 && end == PathEnd::<R>::Exhausted
    } else {
        exists|found: Option<HitRecord<'_, G, M>>, answer: Option<(R, C)>|
            #[trigger] is_turn(world, range, ray, found, answer) && match found {
                None => attenuations.len() == 0 && end == PathEnd::Escaped(ray),
                Some(_) => match answer {
                    None => attenuations.len() == 0 && end == PathEnd::<R>::Absorbed,
                    Some(scattering) => {
                        &&& attenuations.len() > 0
                        &&& attenuations[0] == scattering.1
                        &&& is_path(world, range, scattering.0, depth - 1, attenuations.drop_first(), end)
                    },
                },
            }
    }
}

/// Every path has at most `depth` scatterings, and as many as that exactly
/// where it ends exhausted.
pub proof fn lemma_path_is_bounded<R, G, C, M: Material<R, G, C>, W: Hittable<R, G, M>>(
    world: &W,
    range: Interval,
    ray: R,
    depth: int,
    attenuations: Seq<C>,
    end: PathEnd<R>,
)
    requires
        is_path(world, range, ray, depth, attenuations, end),
    ensures
        depth <= 0 ==> attenuations.len() == 0 && end is Exhausted,
        depth > 0 ==> attenuations.len() <= depth,
        depth > 0 ==> (end is Exhausted <==> attenuations.len() == depth),
    decreases depth,
{
    if depth > 0 {
        let (found, answer) = choose|found: Option<HitRecord<'_, G, M>>, answer: Option<(R, C)>|
            #[trigger] is_turn(world, range, ray, found, answer) && match found {
                None => attenuations.len() == 0 && end == PathEnd::Escaped(ray),
                Some(_) => match answer {
                    None => attenuations.len() == 0 && end == PathEnd::<R>::Absorbed,
                    Some(scattering) => {
                        &&& attenuations.len() > 0
                        &&& attenuations[0] == scattering.1
                        &&& is_path(world, range, scattering.0, depth - 1, attenuations.drop_first(), end)
                    },
                },
            };
        if found is Some && answer is Some {
            lemma_path_is_bounded(world, range, answer.unwrap().0, depth - 1, attenuations.drop_first(), end);
        }
    }
}

/// A ray that meets nothing inside the range escapes as it came, with
/// nothing recorded, and a ray that meets something does not, wherever the
/// world keeps to its model and a bounce is allowed.
pub proof fn lemma_clear_ray_escapes<R, G, C, M: Material<R, G, C>, W: Hittable<R, G, M>>(
    world: &W,
    range: Interval,
    ray: R,
    depth: int,
    attenuations: Seq<C>,
    end: PathEnd<R>,
)
    requires
        depth > 0,
        world.obeys_model(),
        is_path(world, range, ray, depth, attenuations, end),
    ensures
        is_clear(world.crossings(&ray), range) <==> end == PathEnd::Escaped(ray) && attenuations.len() == 0,
{
    let (found, answer) = choose|found: Option<HitRecord<'_, G, M>>, answer: Option<(R, C)>|
        #[trigger] is_turn(world, range, ray, found, answer) && match found {
            None => attenuations.len() == 0 && end == PathEnd::Escaped(ray),
            Some(_) => match answer {
                None => attenuations.len() == 0 && end == PathEnd::<R>::Absorbed,
                Some(scattering) => {
                    &&& attenuations.len() > 0
                    &&& attenuations[0] == scattering.1
                    &&& is_path(world, range, scattering.0, depth - 1, attenuations.drop_first(), end)
                },
            },
        };
    match found {
        Some(record) => {
            assert(world.crossings(&ray).contains(record.t as int));
        },
        None => {},
    }
}

/// Follows `ray` through `world` for at most `depth` bounces.
///
/// Each ray is tested against `world` inside `range`. A ray that meets
/// nothing escapes and ends the path. Otherwise the material of the surface
/// it met either absorbs it, which ends the path, or scatters it: the
/// attenuation is recorded and the scattered ray goes on with one bounce
/// less. With no bounce left the path ends exhausted, so with `depth <= 0`
/// nothing is tested at all.
pub fn trace<R, G, C, M: Material<R, G, C>, W: Hittable<R, G, M>>(
    ray: R,
    depth: i32,
    world: &W,
    range: Interval,
) -> (p: Path<R, C>)
    ensures
        is_path(world, range, ray, depth as int, p.attenuations@, p.end),
        depth <= 0 ==> p.end is Exhausted && p.attenuations@.len() == 0,
        depth > 0 ==> p.attenuations@.len() <= depth,
        depth > 0 ==> (p.end is Exhausted <==> p.attenuations@.len() == depth),
        depth > 0 && world.obeys_model() && is_clear(world.crossings(&ray), range) ==> p.end
            == PathEnd::Escaped(ray) && p.attenuations@.len() == 0,
        depth > 0 && world.obeys_model() && !is_clear(world.crossings(&ray), range) ==> !(p.end is Escaped
            && p.attenuations@.len() == 0),
        match p.end {
            PathEnd::Escaped(last) => world.obeys_model() ==> is_clear(world.crossings(&last), range),
            _ => true,
        },
{
    let mut attenuations: Vec<C> = Vec::new();
    let mut current: R = ray;
    let mut step: Step = begin(depth);
    proof {
        assert forall|tail: Seq<C>, end: PathEnd<R>| #[trigger]
            is_path(world, range, current, depth as int, tail, end) implies is_path(
            world,
            range,
            ray,
            depth as int,
            attenuations@ + tail,
            end,
        ) by {
            assert(attenuations@ + tail =~= tail);
        }
    }
    loop
        invariant
            match step {
                Step::Cast { remaining } => {
                    &&& remaining > 0
                    &&& forall|tail: Seq<C>, end: PathEnd<R>| #[trigger]
                        is_path(world, range, current, remaining as int, tail, end) ==> is_path(
                            world,
                            range,
                            ray,
                            depth as int,
                            attenuations@ + tail,
                            end,
                        )
                },
                Step::Done(ending) => {
                    &&& is_path(
                        world,
                        range,
                        ray,
                        depth as int,
                        attenuations@,
                        PathEnd::ended(ending, current),
                    )
                    &&& ending == Ending::Escaped && world.obeys_model() ==> is_clear(
                        world.crossings(&current),
                        range,
                    )
                },
            },
        decreases
            match step {
                Step::Cast { remaining } => remaining + 1,
                Step::Done(_) => 0,
            },
    {
        let remaining: i32 = match step {
            Step::Done(ending) => {
                proof {
                    let end = PathEnd::ended(ending, current);
                    lemma_path_is_bounded(world, range, ray, depth as int, attenuations@, end);
                    if depth > 0 && world.obeys_model() {
                        lemma_clear_ray_escapes(world, range, ray, depth as int, attenuations@, end);
                    }
                }
                return Path { attenuations, end: PathEnd::of(ending, current) };
            },
            Step::Cast { remaining } => remaining,
        };
        let ghost before = attenuations@;
        let ghost asked = current;
        match world.hit(&current, range) {
            None => {
                step = advance(remaining, Outcome::Missed);
                proof {
                    let nothing: Option<HitRecord<'_, G, M>> = None;
                    let unasked: Option<(R, C)> = None;
                    let end = PathEnd::Escaped(asked);
                    assert(is_turn(world, range, asked, nothing, unasked));
                    assert(is_path(world, range, asked, remaining as int, Seq::<C>::empty(), end));
                    assert(before + Seq::<C>::empty() =~= before);
                }
            },
            Some(record) => {
                proof {
                    assert(world_gives(world, &asked, range, Some(record)));
                }
                match record.material.scatter(&current, &record) {
                    None => {
                        step = advance(remaining, Outcome::Absorbed);
                        proof {
                            let nothing: Option<(R, C)> = None;
                            let end = PathEnd::<R>::Absorbed;
                            assert(is_turn(world, range, asked, Some(record), nothing));
                            assert(is_path(world, range, asked, remaining as int, Seq::<C>::empty(), end));
                            assert(before + Seq::<C>::empty() =~= before);
                        }
                    },
                    Some((scattered, attenuation)) => {
                        proof {
                            let answer = Some((scattered, attenuation));
                            assert forall|tail: Seq<C>, end: PathEnd<R>| #[trigger]
                                is_path(world, range, scattered, remaining - 1, tail, end) implies is_path(
                                world,
                                range,
                                ray,
                                depth as int,
                                before.push(attenuation) + tail,
                                end,
                            ) by {
                                let longer = seq![attenuation] + tail;
                                assert(longer.drop_first() =~= tail);
                                assert(longer[0] == attenuation);
                                assert(is_turn(world, range, asked, Some(record), answer));
                                assert(is_path(world, range, asked, remaining as int, longer, end));
                                assert(before + longer =~= before.push(attenuation) + tail);
                            }
                            if remaining == 1 {
                                let end = PathEnd::<R>::Exhausted;
                                assert(is_path(world, range, scattered, 0, Seq::<C>::empty(), end));
                                assert(before.push(attenuation) + Seq::<C>::empty() =~= before.push(
                                    attenuation,
                                ));
                            }
                        }
                        attenuations.push(attenuation);
                        current = scattered;
                        step = advance(remaining, Outcome::Scattered);
                    },
                }
            },
        }
    }
}

} // verus!
