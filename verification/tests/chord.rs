use raytrace_core::hittable::{HitRecord, Hittable};
use raytrace_core::hittable_list::HittableList;
use raytrace_core::interval::Interval;
use raytrace_core::material::Material;
use raytrace_core::path::{trace, PathEnd};
use raytrace_core::sphere::Chord;

fn chord(near: i64, far: i64, material: &'static str) -> Chord<&'static str> {
    Chord { near, far, material }
}

#[test]
fn chord_hit_is_the_first_end_inside_the_range() {
    let c = chord(10, 30, "glass");
    let entering = c.hit(&(), Interval::new(0, 100)).unwrap();
    assert_eq!((entering.t, entering.front_face, *entering.material), (10, true, "glass"));
    let leaving = c.hit(&(), Interval::new(10, 100)).unwrap();
    assert_eq!((leaving.t, leaving.front_face, *leaving.material), (30, false, "glass"));
    assert!(c.hit(&(), Interval::new(30, 100)).is_none());
    assert!(c.hit(&(), Interval::new(0, 10)).is_none());
    assert!(c.hit(&(), Interval::new(10, 30)).is_none());
    let touched = chord(20, 20, "glass");
    let grazing = touched.hit(&(), Interval::new(0, 100)).unwrap();
    assert_eq!((grazing.t, grazing.front_face), (20, false));
}

#[test]
fn overlapping_spheres_give_the_smaller_parameter() {
    let range = Interval::new(1, i64::MAX);
    for (first, second) in [((40, 90), (60, 120)), ((60, 120), (40, 90))] {
        let mut world = HittableList::new();
        world.add(chord(first.0, first.1, "first"));
        world.add(chord(second.0, second.1, "second"));
        let record = world.hit(&(), range).unwrap();
        assert_eq!(record.t, 40);
        assert!(record.front_face);
        assert_eq!(*record.material, if first.0 == 40 { "first" } else { "second" });
    }
}

#[test]
fn equal_parameters_keep_the_earlier_member() {
    let mut world = HittableList::new();
    world.add(chord(70, 80, "a"));
    world.add(chord(50, 60, "b"));
    world.add(chord(50, 90, "c"));
    world.add(chord(20, 50, "d"));
    let record = world.hit(&(), Interval::new(30, 100)).unwrap();
    assert_eq!((record.t, *record.material), (50, "b"));
    let record = world.hit(&(), Interval::new(0, 100)).unwrap();
    assert_eq!((record.t, *record.material), (20, "d"));
    let record = world.hit(&(), Interval::new(60, 100)).unwrap();
    assert_eq!((record.t, *record.material), (70, "a"));
    assert!(world.hit(&(), Interval::new(90, 100)).is_none());
}

#[test]
fn record_keeps_what_it_was_made_of() {
    let material = 7u32;
    let record = HitRecord::new(-5, true, &material, (1u8, 2u8));
    assert_eq!(record.t, -5);
    assert!(record.front_face);
    assert_eq!(*record.material, 7);
    assert_eq!(record.geometry, (1, 2));
}

/// A material that scatters straight on a fixed number of times and then
/// absorbs.
struct Fading {
    left: std::cell::Cell<u32>,
}

impl Material<(), (), u32> for Fading {
    fn scatter(&self, _: &(), _: &HitRecord<'_, (), Fading>) -> Option<((), u32)> {
        let left = self.left.get();
        if left == 0 {
            None
        } else {
            self.left.set(left - 1);
            Some(((), left))
        }
    }
}

fn fading(scatterings: u32) -> HittableList<Chord<Fading>> {
    let mut world = HittableList::new();
    world.add(Chord { near: 5, far: 9, material: Fading { left: std::cell::Cell::new(scatterings) } });
    world
}

#[test]
fn trace_records_attenuations_in_bounce_order() {
    let path = trace((), 10, &fading(3), Interval::new(0, 100));
    assert_eq!(path.attenuations, vec![3, 2, 1]);
    assert!(matches!(path.end, PathEnd::Absorbed));
}

#[test]
fn trace_stops_when_the_depth_is_used_up() {
    let path = trace((), 2, &fading(3), Interval::new(0, 100));
    assert_eq!(path.attenuations, vec![3, 2]);
    assert!(matches!(path.end, PathEnd::Exhausted));
    let path = trace((), 3, &fading(3), Interval::new(0, 100));
    assert_eq!(path.attenuations, vec![3, 2, 1]);
    assert!(matches!(path.end, PathEnd::Exhausted));
    let path = trace((), 0, &fading(3), Interval::new(0, 100));
    assert_eq!(path.attenuations, Vec::<u32>::new());
    assert!(matches!(path.end, PathEnd::Exhausted));
}

#[test]
fn trace_escapes_where_the_range_is_clear() {
    let path = trace((), 4, &fading(3), Interval::new(9, 100));
    assert!(path.attenuations.is_empty());
    assert!(matches!(path.end, PathEnd::Escaped(())));
}

/// A material that notes what it was asked and sends the ray on under the
/// next number.
struct Noting {
    asked: std::cell::RefCell<Vec<(u32, i64, bool)>>,
}

impl Material<u32, (), &'static str> for Noting {
    fn scatter(&self, ray_in: &u32, record: &HitRecord<'_, (), Noting>) -> Option<(u32, &'static str)> {
        self.asked.borrow_mut().push((*ray_in, record.t, record.front_face));
        Some((*ray_in + 1, "dim"))
    }
}

#[test]
fn trace_hands_each_material_the_ray_and_the_record_of_its_hit() {
    let mut world = HittableList::new();
    world.add(Chord { near: 40, far: 60, material: Noting { asked: std::cell::RefCell::new(Vec::new()) } });
    world.add(Chord { near: 10, far: 90, material: Noting { asked: std::cell::RefCell::new(Vec::new()) } });
    let path = trace(100u32, 3, &world, Interval::new(10, 1000));
    assert_eq!(path.attenuations, vec!["dim", "dim", "dim"]);
    assert!(matches!(path.end, PathEnd::Exhausted));
    assert_eq!(*world.objects[0].material.asked.borrow(), vec![(100, 40, true), (101, 40, true), (102, 40, true)]);
    assert!(world.objects[1].material.asked.borrow().is_empty());
    let path = trace(5u32, 2, &world, Interval::new(60, 1000));
    assert_eq!(path.attenuations.len(), 2);
    assert_eq!(*world.objects[1].material.asked.borrow(), vec![(5, 90, false), (6, 90, false)]);
}

#[test]
fn a_scattered_ray_escapes_as_the_material_gave_it() {
    let mut world = HittableList::new();
    world.add(Chord { near: 5, far: 9, material: Fading { left: std::cell::Cell::new(1) } });
    let path = trace((), 4, &world, Interval::new(0, 100));
    assert_eq!(path.attenuations, vec![1]);
    assert!(matches!(path.end, PathEnd::Absorbed));
    let empty: HittableList<Chord<Noting>> = HittableList::new();
    let path = trace(77u32, 4, &empty, Interval::new(0, 100));
    assert!(path.attenuations.is_empty());
    assert!(matches!(path.end, PathEnd::Escaped(77)));
}
