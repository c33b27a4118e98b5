use raytracer::hittable_list::{nearest_hit, HittableList, NearestHit, Roots};

/// The order key of a ray parameter.
fn key(t: f64) -> u64 {
    raytracer::key::encode(t.to_bits())
}

/// Where the ray `origin + t * direction` meets the sphere, if it does.
fn sphere_roots(origin: [f64; 3], direction: [f64; 3], center: [f64; 3], radius: f64) -> Option<Roots> {
    let oc = [origin[0] - center[0], origin[1] - center[1], origin[2] - center[2]];
    let dot = |a: [f64; 3], b: [f64; 3]| a[0] * b[0] + a[1] * b[1] + a[2] * b[2];
    let a = dot(direction, direction);
    let b = 2.0 * dot(direction, oc);
    let c = dot(oc, oc) - radius * radius;
    let discriminant = b * b - 4.0 * a * c;
    if discriminant < 0.0 {
        return None;
    }
    let root = discriminant.sqrt();
    Some(Roots::new(key((-b - root) / (2.0 * a)), key((-b + root) / (2.0 * a))))
}

#[test]
fn the_smaller_root_counts_when_it_is_inside() {
    assert_eq!(Roots::new(5, 9).select(1, 20), Some(5));
    assert_eq!(Roots::new(5, 9).select(4, 6), Some(5));
}

#[test]
fn the_larger_root_counts_when_the_smaller_is_outside() {
    assert_eq!(Roots::new(5, 9).select(5, 20), Some(9));
    assert_eq!(Roots::new(5, 9).select(7, 10), Some(9));
}

#[test]
fn no_root_inside_is_no_hit() {
    assert_eq!(Roots::new(5, 9).select(9, 20), None);
    assert_eq!(Roots::new(5, 9).select(0, 5), None);
    assert_eq!(Roots::new(5, 9).select(5, 9), None);
    assert_eq!(Roots::new(5, 9).select(6, 8), None);
    assert_eq!(Roots::new(5, 9).select(20, 1), None);
}

#[test]
fn the_interval_is_open_at_both_ends() {
    assert_eq!(Roots::new(5, 5).select(5, 6), None);
    assert_eq!(Roots::new(5, 5).select(4, 5), None);
    assert_eq!(Roots::new(5, 5).select(4, 6), Some(5));
    assert_eq!(Roots::new(0, u64::MAX).select(0, u64::MAX), None);
}

#[test]
fn roots_given_in_the_wrong_order_are_put_right() {
    assert_eq!(Roots::new(9, 5).select(1, 20), Some(5));
    assert_eq!(Roots::new(9, 5).select(5, 20), Some(9));
    assert_eq!(Roots::new(9, 5).select(1, 7), Some(5));
}

#[test]
fn nothing_is_hit_in_an_empty_scene() {
    assert_eq!(nearest_hit(&vec![], 0, u64::MAX), None);
}

#[test]
fn missed_objects_are_passed_over() {
    let candidates = vec![None, Some(Roots::new(30, 40)), None];
    assert_eq!(nearest_hit(&candidates, 0, 100), Some(NearestHit { index: 1, t: 30 }));
    assert_eq!(nearest_hit(&vec![None, None], 0, 100), None);
}

#[test]
fn the_nearest_object_wins_wherever_it_stands() {
    let near = Some(Roots::new(10, 20));
    let middle = Some(Roots::new(15, 25));
    let far = Some(Roots::new(30, 40));
    assert_eq!(nearest_hit(&vec![near, middle, far], 0, 100), Some(NearestHit { index: 0, t: 10 }));
    assert_eq!(nearest_hit(&vec![far, near, middle], 0, 100), Some(NearestHit { index: 1, t: 10 }));
    assert_eq!(nearest_hit(&vec![far, middle, near], 0, 100), Some(NearestHit { index: 2, t: 10 }));
    assert_eq!(nearest_hit(&vec![middle, far, near], 0, 100), Some(NearestHit { index: 2, t: 10 }));
}

#[test]
fn of_two_equally_near_objects_the_earlier_wins() {
    let a = Some(Roots::new(10, 20));
    let b = Some(Roots::new(10, 50));
    assert_eq!(nearest_hit(&vec![a, b], 0, 100), Some(NearestHit { index: 0, t: 10 }));
    assert_eq!(nearest_hit(&vec![b, a], 0, 100), Some(NearestHit { index: 0, t: 10 }));
    assert_eq!(nearest_hit(&vec![None, b, a, b], 0, 100), Some(NearestHit { index: 1, t: 10 }));
}

#[test]
fn an_object_around_the_origin_is_hit_at_its_far_side() {
    // The ray starts inside the second object: its smaller root lies behind.
    let candidates = vec![Some(Roots::new(60, 70)), Some(Roots::new(2, 50))];
    assert_eq!(nearest_hit(&candidates, 5, 100), Some(NearestHit { index: 1, t: 50 }));
}

#[test]
fn a_larger_root_does_not_beat_a_nearer_hit() {
    // Once the first object is hit at 30, the second object's far side at 50
    // is out of reach, and its near side lies behind the start.
    let candidates = vec![Some(Roots::new(30, 40)), Some(Roots::new(2, 50))];
    assert_eq!(nearest_hit(&candidates, 5, 100), Some(NearestHit { index: 0, t: 30 }));
}

#[test]
fn nothing_beyond_the_far_bound_is_hit() {
    let candidates = vec![Some(Roots::new(30, 40)), Some(Roots::new(35, 50))];
    assert_eq!(nearest_hit(&candidates, 0, 100), Some(NearestHit { index: 0, t: 30 }));
    // The nearest hit lies at 30: a search that ends there or before finds nothing.
    assert_eq!(nearest_hit(&candidates, 0, 30), None);
    assert_eq!(nearest_hit(&candidates, 0, 29), None);
    assert_eq!(nearest_hit(&candidates, 0, 31), Some(NearestHit { index: 0, t: 30 }));
}

#[test]
fn a_scene_keeps_its_objects_in_order() {
    let mut scene: HittableList<&str> = HittableList::new();
    assert_eq!(scene.len(), 0);
    assert_eq!(scene.get(0), None);
    scene.add("ground");
    scene.add("glass");
    scene.add("metal");
    assert_eq!(scene.len(), 3);
    assert_eq!(scene.get(0), Some(&"ground"));
    assert_eq!(scene.get(1), Some(&"glass"));
    assert_eq!(scene.get(2), Some(&"metal"));
    assert_eq!(scene.get(3), None);
    scene.clear();
    assert_eq!(scene.len(), 0);
    assert_eq!(scene.get(0), None);
    scene.add("again");
    assert_eq!(scene.get(0), Some(&"again"));
}

#[test]
fn a_scene_names_the_object_that_is_hit() {
    let mut scene: HittableList<&str> = HittableList::new();
    scene.add("far");
    scene.add("near");
    scene.add("missed");
    let candidates = vec![Some(Roots::new(30, 40)), Some(Roots::new(10, 20)), None];
    assert_eq!(scene.hit(&candidates, 0, 100), Some((&"near", NearestHit { index: 1, t: 10 })));
    assert_eq!(scene.hit(&candidates, 0, 10), None);
    assert_eq!(scene.hit(&candidates, 20, 100), Some((&"far", NearestHit { index: 0, t: 30 })));
}

#[test]
fn the_nearer_of_two_objects_is_found_whichever_was_added_first() {
    let near = Some(Roots::new(10, 20));
    let far = Some(Roots::new(15, 40));
    let mut one: HittableList<&str> = HittableList::new();
    one.add("near");
    one.add("far");
    let mut other: HittableList<&str> = HittableList::new();
    other.add("far");
    other.add("near");
    assert_eq!(one.hit(&vec![near, far], 0, 100).map(|(name, hit)| (*name, hit.t)), Some(("near", 10)));
    assert_eq!(other.hit(&vec![far, near], 0, 100).map(|(name, hit)| (*name, hit.t)), Some(("near", 10)));
}

#[test]
fn candidates_and_objects_are_matched_by_position() {
    let mut scene: HittableList<u8> = HittableList::new();
    scene.add(7);
    // A candidate without an object is ignored, however near.
    let too_many = vec![Some(Roots::new(30, 40)), Some(Roots::new(10, 20))];
    assert_eq!(scene.hit(&too_many, 0, 100), Some((&7, NearestHit { index: 0, t: 30 })));
    // An object without a candidate counts as missed.
    scene.add(8);
    scene.add(9);
    assert_eq!(scene.hit(&too_many, 0, 100), Some((&8, NearestHit { index: 1, t: 10 })));
    assert_eq!(scene.hit(&vec![], 0, 100), None);
}

#[test]
fn a_ray_through_the_centre_hits_at_distance_less_radius() {
    // A sphere of radius 0.5 around (0, 0, -1), seen from the origin.
    let roots = sphere_roots([0.0, 0.0, 0.0], [0.0, 0.0, -1.0], [0.0, 0.0, -1.0], 0.5);
    let found = nearest_hit(&vec![roots], key(0.001), key(f64::INFINITY));
    assert_eq!(found, Some(NearestHit { index: 0, t: key(0.5) }));
    // From three units away along x, a unit sphere around the origin.
    let roots = sphere_roots([3.0, 0.0, 0.0], [-1.0, 0.0, 0.0], [0.0, 0.0, 0.0], 1.0);
    let found = nearest_hit(&vec![roots], key(0.001), key(f64::INFINITY));
    assert_eq!(found, Some(NearestHit { index: 0, t: key(2.0) }));
}

#[test]
fn of_two_overlapping_spheres_the_nearer_is_hit_in_either_order() {
    let origin = [0.0, 0.0, 0.0];
    let direction = [0.0, 0.0, -1.0];
    let near = sphere_roots(origin, direction, [0.0, 0.0, -2.0], 1.0);
    let far = sphere_roots(origin, direction, [0.0, 0.0, -2.5], 1.0);
    let t_min = key(0.001);
    let t_max = key(f64::INFINITY);
    assert_eq!(nearest_hit(&vec![near, far], t_min, t_max), Some(NearestHit { index: 0, t: key(1.0) }));
    assert_eq!(nearest_hit(&vec![far, near], t_min, t_max), Some(NearestHit { index: 1, t: key(1.0) }));
}

#[test]
fn a_sphere_beyond_the_far_bound_is_not_hit() {
    let roots = sphere_roots([0.0, 0.0, 0.0], [0.0, 0.0, -1.0], [0.0, 0.0, -10.0], 1.0);
    assert_eq!(nearest_hit(&vec![roots], key(0.001), key(8.0)), None);
    assert_eq!(nearest_hit(&vec![roots], key(0.001), key(9.0)), None);
    assert_eq!(
        nearest_hit(&vec![roots], key(0.001), key(9.5)),
        Some(NearestHit { index: 0, t: key(9.0) })
    );
}

#[test]
fn a_sphere_behind_the_ray_is_not_hit() {
    let roots = sphere_roots([0.0, 0.0, 0.0], [0.0, 0.0, -1.0], [0.0, 0.0, 5.0], 1.0);
    assert!(roots.is_some());
    assert_eq!(nearest_hit(&vec![roots], key(0.001), key(f64::INFINITY)), None);
}

#[test]
fn a_ray_that_passes_a_sphere_by_has_no_roots() {
    let roots = sphere_roots([0.0, 0.0, 0.0], [0.0, 1.0, 0.0], [0.0, 0.0, -1.0], 0.5);
    assert_eq!(roots, None);
    assert_eq!(nearest_hit(&vec![roots], key(0.001), key(f64::INFINITY)), None);
}

#[test]
fn a_surface_does_not_hit_itself() {
    // A ray that starts on the sphere and leaves it: the root at the start
    // lies below the least parameter that counts.
    let roots = sphere_roots([0.0, 0.0, -0.5], [0.0, 0.0, 1.0], [0.0, 0.0, -1.0], 0.5);
    assert_eq!(nearest_hit(&vec![roots], key(0.001), key(f64::INFINITY)), None);
    // A ray that starts on the sphere and goes through it hits the far side.
    let roots = sphere_roots([0.0, 0.0, -0.5], [0.0, 0.0, -1.0], [0.0, 0.0, -1.0], 0.5);
    assert_eq!(
        nearest_hit(&vec![roots], key(0.001), key(f64::INFINITY)),
        Some(NearestHit { index: 0, t: key(1.0) })
    );
}
