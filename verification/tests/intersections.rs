use rstracer::intersections::{hit, Computations, Intersection, Medium, Reflectance, NO_HIT};
use rstracer::key::ONE;

/// The key of a number.
fn key(t: f32) -> i64 {
    rstracer::key::key(t.to_bits())
}

fn refractive_index(m: Medium, of: &[f32]) -> f32 {
    match m {
        Medium::Vacuum => 1.0,
        Medium::Inside(object) => of[object],
    }
}

#[test]
fn getting_the_hit_when_all_are_positive() {
    let sphere = 0;
    let ixs = vec![
        Intersection::new(key(1.0), sphere, None),
        Intersection::new(key(2.0), sphere, None),
    ];

    let (min, index, hit) = hit(&ixs);

    assert_eq!(min, key(1.0));
    assert_eq!(index, 0);
    assert!(hit);
}

#[test]
fn getting_the_hit_when_some_pos_some_neg() {
    let sphere = 0;
    let ixs = vec![
        Intersection::new(key(-1.0), sphere, None),
        Intersection::new(key(1.0), sphere, None),
        Intersection::new(key(2.0), sphere, None),
    ];

    let (min, index, hit) = hit(&ixs);

    assert_eq!(min, key(1.0));
    assert_eq!(index, 1);
    assert!(hit);
}

#[test]
fn getting_the_hit_when_all_are_neg() {
    let sphere = 0;
    let ixs = vec![
        Intersection::new(key(-1.0), sphere, None),
        Intersection::new(key(-2.0), sphere, None),
    ];

    let (min, index, hit) = hit(&ixs);

    assert_eq!(min, key(f32::INFINITY));
    assert_eq!(min, NO_HIT);
    assert_eq!(index, 0);
    assert!(!hit);
}

#[test]
fn the_hit_is_always_the_lowest_positive_intersection() {
    let sphere = 0;
    let ixs = vec![
        Intersection::new(key(-1.0), sphere, None),
        Intersection::new(key(1.0), sphere, None),
        Intersection::new(key(-2.0), sphere, None),
        Intersection::new(key(2.0), sphere, None),
    ];

    let (min, index, hit) = hit(&ixs);

    assert_eq!(min, key(1.0));
    assert_eq!(index, 1);
    assert!(hit);
}

#[test]
fn the_hit_does_not_depend_on_the_order() {
    let ts = [-1.0f32, 1.0, -2.0, 2.0];
    let orders: [[usize; 4]; 6] = [
        [0, 1, 2, 3],
        [3, 2, 1, 0],
        [1, 0, 3, 2],
        [2, 3, 0, 1],
        [3, 0, 1, 2],
        [1, 3, 0, 2],
    ];
    for order in orders.iter() {
        let ixs: Vec<Intersection> =
            order.iter().map(|&i| Intersection::new(key(ts[i]), i, None)).collect();
        let (min, index, found) = hit(&ixs);
        assert!(found);
        assert_eq!(min, key(1.0));
        assert_eq!(ixs[index].object, 1);
    }
}

#[test]
fn the_hit_of_no_intersections() {
    let ixs: Vec<Intersection> = vec![];
    assert_eq!(hit(&ixs), (NO_HIT, 0, false));
}

#[test]
fn the_hit_is_the_first_of_equal_distances() {
    let ixs = vec![
        Intersection::new(7, 0, None),
        Intersection::new(3, 1, None),
        Intersection::new(3, 2, None),
        Intersection::new(-3, 3, None),
    ];
    assert_eq!(hit(&ixs), (3, 1, true));
}

#[test]
fn a_hit_at_distance_zero_counts() {
    let ixs = vec![Intersection::new(5, 0, None), Intersection::new(0, 1, None)];
    assert_eq!(hit(&ixs), (0, 1, true));
    let ixs = vec![Intersection::new(key(-0.0), 0, None)];
    assert_eq!(hit(&ixs), (0, 0, true));
}

#[test]
fn an_intersection_without_distance_is_no_hit() {
    let ixs = vec![Intersection::new(NO_HIT, 0, None)];
    assert_eq!(hit(&ixs), (NO_HIT, 0, false));
    let ixs = vec![Intersection::new(NO_HIT, 0, None), Intersection::new(NO_HIT - 1, 1, None)];
    assert_eq!(hit(&ixs), (NO_HIT - 1, 1, true));
}

#[test]
fn hit_leaves_the_list_as_it_is() {
    let ixs = vec![
        Intersection::new(-4, 0, None),
        Intersection::new(2, 1, Some((5, 6))),
        Intersection::new(-1, 0, None),
    ];
    let _ = hit(&ixs);
    assert_eq!(ixs.len(), 3);
    assert_eq!(ixs[0].t, -4);
    assert_eq!(ixs[1].uv, Some((5, 6)));
    assert_eq!(ixs[2].t, -1);
}

#[test]
fn finding_n1_and_n2_at_various_intersections() {
    let a = 0;
    let b = 1;
    let c = 2;
    let indices = [1.5f32, 2.0, 2.5];

    let xs = vec![
        Intersection::new(key(2.0), a, None),
        Intersection::new(key(2.75), b, None),
        Intersection::new(key(3.25), c, None),
        Intersection::new(key(4.75), b, None),
        Intersection::new(key(5.25), c, None),
        Intersection::new(key(6.0), a, None),
    ];

    let comps = |idx: usize, n1: f32, n2: f32| {
        let c: Computations = xs[idx].computations(key(1.0), Some(&xs), idx);
        assert!((refractive_index(c.n1, &indices) - n1).abs() < 10e-8);
        assert!((refractive_index(c.n2, &indices) - n2).abs() < 10e-8);
    };

    let cases: Vec<(usize, f32, f32)> = vec![
        (0, 1.0, 1.5),
        (1, 1.5, 2.0),
        (2, 2.0, 2.5),
        (3, 2.5, 2.5),
        (4, 2.5, 1.5),
        (5, 1.5, 1.0),
    ];

    cases.iter().for_each(|case| {
        comps(case.0, case.1, case.2);
    });
}

#[test]
fn media_at_various_intersections() {
    let xs = vec![
        Intersection::new(20, 0, None),
        Intersection::new(27, 1, None),
        Intersection::new(32, 2, None),
        Intersection::new(47, 1, None),
        Intersection::new(52, 2, None),
        Intersection::new(60, 0, None),
    ];
    let expected = [
        (Medium::Vacuum, Medium::Inside(0)),
        (Medium::Inside(0), Medium::Inside(1)),
        (Medium::Inside(1), Medium::Inside(2)),
        (Medium::Inside(2), Medium::Inside(2)),
        (Medium::Inside(2), Medium::Inside(0)),
        (Medium::Inside(0), Medium::Vacuum),
    ];
    for (at, want) in expected.iter().enumerate() {
        assert_eq!(Intersection::calculate_refractions(&xs, at), *want);
    }
}

#[test]
fn media_of_a_position_outside_the_list() {
    let xs = vec![Intersection::new(1, 0, None), Intersection::new(2, 0, None)];
    assert_eq!(Intersection::calculate_refractions(&xs, 2), (Medium::Vacuum, Medium::Vacuum));
    assert_eq!(Intersection::calculate_refractions(&xs, 99), (Medium::Vacuum, Medium::Vacuum));
    assert_eq!(Intersection::calculate_refractions(&vec![], 0), (Medium::Vacuum, Medium::Vacuum));
}

#[test]
fn media_inside_one_object() {
    let xs = vec![Intersection::new(-1, 4, None), Intersection::new(1, 4, None)];
    assert_eq!(
        Intersection::calculate_refractions(&xs, 0),
        (Medium::Vacuum, Medium::Inside(4))
    );
    assert_eq!(
        Intersection::calculate_refractions(&xs, 1),
        (Medium::Inside(4), Medium::Vacuum)
    );
}

#[test]
fn an_object_entered_again_is_the_innermost() {
    // 0 in, 1 in, 0 out, 0 in: the ray is then inside 1 and 0, 0 entered last.
    let xs = vec![
        Intersection::new(1, 0, None),
        Intersection::new(2, 1, None),
        Intersection::new(3, 0, None),
        Intersection::new(4, 0, None),
        Intersection::new(5, 7, None),
    ];
    assert_eq!(
        Intersection::calculate_refractions(&xs, 2),
        (Medium::Inside(1), Medium::Inside(1))
    );
    assert_eq!(
        Intersection::calculate_refractions(&xs, 3),
        (Medium::Inside(1), Medium::Inside(0))
    );
    assert_eq!(
        Intersection::calculate_refractions(&xs, 4),
        (Medium::Inside(0), Medium::Inside(7))
    );
}

#[test]
fn computations_without_a_list() {
    let i = Intersection::new(key(4.0), 3, Some((1, 2)));
    let c = i.computations(key(1.0), None, 0);
    assert!(!c.inside);
    assert_eq!(c.t, i.t);
    assert_eq!(c.object, 3);
    assert_eq!(c.uv, Some((1, 2)));
    assert_eq!(c.n1, Medium::Vacuum);
    assert_eq!(c.n2, Medium::Vacuum);
}

#[test]
fn new_intersection_keeps_its_parts() {
    let i = Intersection::new(-9, 12, Some((3, 4)));
    assert_eq!(i.t, -9);
    assert_eq!(i.object, 12);
    assert_eq!(i.uv, Some((3, 4)));
}

#[test]
fn a_hit_seen_along_the_normal_is_outside() {
    // The normal points towards the eye.
    let i = Intersection::new(key(4.0), 0, None);
    let c = i.computations(key(1.0), None, 0);

    assert!(!c.inside);
}

#[test]
fn a_hit_seen_against_the_normal_is_inside() {
    // The normal points away from the eye.
    let i = Intersection::new(key(1.0), 0, None);
    let c = i.computations(key(-1.0), None, 0);

    assert!(c.inside);
}

#[test]
fn a_hit_seen_along_the_surface_is_outside() {
    let i = Intersection::new(key(1.0), 0, None);
    assert!(!i.computations(key(0.0), None, 0).inside);
    assert!(!i.computations(key(-0.0), None, 0).inside);
}

#[test]
fn computations_keep_distance_and_object() {
    let i = Intersection::new(key(4.0), 0, None);

    let c = i.computations(key(1.0), None, 0);

    assert_eq!(i.t, c.t);
    assert_eq!(c.object, 0);
}

/// How the reflectance is found at a hit with these indices and this
/// cosine between the eye and the normal.
fn reflectance(n1: f32, n2: f32, cos: f32) -> Reflectance {
    let n = n1 / n2;
    let sin2_t = n.powi(2) * (1.0 - cos.powi(2));
    Computations::schlick(key(n1), key(n2), key(sin2_t))
}

#[test]
fn reflectance_under_total_internal_reflection_is_total() {
    // Inside a glass sphere, looking at its surface under forty-five degrees.
    let p = 2f32.sqrt() / 2.0;
    assert_eq!(reflectance(1.5, 1.0, p), Reflectance::Total);
}

#[test]
fn reflectance_looking_straight_out_of_glass() {
    // Inside a glass sphere, looking straight at its surface.
    assert_eq!(reflectance(1.5, 1.0, 1.0), Reflectance::Refracted);
}

#[test]
fn reflectance_into_a_denser_medium() {
    assert_eq!(reflectance(1.0, 1.5, 0.1), Reflectance::Incident);
    assert_eq!(reflectance(1.5, 1.5, 0.1), Reflectance::Incident);
}

#[test]
fn schlick_into_a_medium_of_index_zero() {
    for n1 in [0.0f32, 1.0, 1.5] {
        for cos in [0.0f32, 0.5, 1.0, -1.0] {
            assert_eq!(reflectance(n1, 0.0, cos), Reflectance::Total);
        }
    }
    assert_eq!(Computations::schlick(5, 0, 0), Reflectance::Total);
    assert_eq!(Computations::schlick(-5, 0, 0), Reflectance::Total);
}

#[test]
fn schlick_on_keys() {
    assert_eq!(Computations::schlick(3, 2, ONE + 1), Reflectance::Total);
    assert_eq!(Computations::schlick(3, 2, ONE), Reflectance::Refracted);
    assert_eq!(Computations::schlick(3, 2, NO_HIT), Reflectance::Total);
    assert_eq!(Computations::schlick(2, 3, ONE + 1), Reflectance::Incident);
    assert_eq!(Computations::schlick(2, 2, ONE + 1), Reflectance::Incident);
}
