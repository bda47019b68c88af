use rstracer::intersections::NO_HIT;
use rstracer::key::{EPSILON, ONE};
use rstracer::objects::{PLANE_PARALLEL, TRI_PARALLEL};
use rstracer::material::{Material, Terms};
use rstracer::objects::{Axis, Cube, Plane, Sphere, Tri};
use rstracer::patterns::{cube_face_at_point, CubeFace};
use rstracer::world::Roots;

/// The key of a number.
fn key(t: f32) -> i64 {
    rstracer::key::key(t.to_bits())
}

/// The unit sphere against a ray from `origin` along `direction`.
fn sphere(origin: [f32; 3], direction: [f32; 3]) -> Roots {
    let dot = |a: [f32; 3], b: [f32; 3]| a[0] * b[0] + a[1] * b[1] + a[2] * b[2];
    let a = dot(direction, direction);
    let b = 2.0 * dot(direction, origin);
    let c = dot(origin, origin) - 1.0;
    let discriminant = b.powi(2) - 4.0 * a * c;
    let t1 = (-b - discriminant.sqrt()) / (2.0 * a);
    let t2 = (-b + discriminant.sqrt()) / (2.0 * a);
    Sphere::intersect(key(discriminant), key(t1), key(t2))
}

/// The unit cube against a ray from `origin` along `direction`.
fn cube(origin: [f32; 3], direction: [f32; 3]) -> Roots {
    let check_axis = |origin: f32, direction: f32| {
        let tmin_numerator = -1. - origin;
        let tmax_numerator = 1. - origin;
        if Cube::runs_along_faces(key(direction.abs())) {
            (key(tmin_numerator * f32::INFINITY), key(tmax_numerator * f32::INFINITY))
        } else {
            (key(tmin_numerator / direction), key(tmax_numerator / direction))
        }
    };
    Cube::intersect(
        check_axis(origin[0], direction[0]),
        check_axis(origin[1], direction[1]),
        check_axis(origin[2], direction[2]),
    )
}

#[test]
fn ray_intersects_sphere_two_points() {
    assert_eq!(sphere([0.0, 0.0, -5.0], [0.0, 0.0, 1.0]), Roots::Pair(key(4.0), key(6.0)));
}

#[test]
fn ray_intersects_sphere_at_tangent() {
    assert_eq!(sphere([0.0, 1.0, -5.0], [0.0, 0.0, 1.0]), Roots::Pair(key(5.0), key(5.0)));
}

#[test]
fn ray_misses_sphere() {
    assert_eq!(sphere([0.0, 2.0, -5.0], [0.0, 0.0, 1.0]), Roots::Miss);
}

#[test]
fn ray_originates_inside_sphere() {
    assert_eq!(sphere([0.0, 0.0, 0.0], [0.0, 0.0, 1.0]), Roots::Pair(key(-1.0), key(1.0)));
}

#[test]
fn sphere_is_behind_ray() {
    assert_eq!(sphere([0.0, 0.0, 5.0], [0.0, 0.0, 1.0]), Roots::Pair(key(-6.0), key(-4.0)));
}

#[test]
fn sphere_roots_come_in_ascending_order() {
    assert_eq!(Sphere::intersect(1, 9, 3), Roots::Pair(3, 9));
    assert_eq!(Sphere::intersect(0, 3, 9), Roots::Pair(3, 9));
    assert_eq!(Sphere::intersect(0, 4, 4), Roots::Pair(4, 4));
    assert_eq!(Sphere::intersect(-1, 3, 9), Roots::Miss);
    assert_eq!(Sphere::intersect(i64::MIN, i64::MAX, i64::MIN), Roots::Miss);
    assert_eq!(Sphere::intersect(i64::MAX, i64::MAX, i64::MIN), Roots::Pair(i64::MIN, i64::MAX));
}

#[test]
fn ray_intersects_cube() {
    let cases = vec![
        ("+x", [5.0, 0.5, 0.0], [-1.0, 0.0, 0.0], (4f32, 6f32)),
        ("-x", [-5.0, 0.5, 0.0], [1.0, 0.0, 0.0], (4f32, 6f32)),
        ("+y", [0.5, 5.0, 0.0], [0.0, -1.0, 0.0], (4f32, 6f32)),
        ("-y", [0.5, -5.0, 0.0], [0.0, 1.0, 0.0], (4f32, 6f32)),
        ("+z", [0.5, 0.0, 5.0], [0.0, 0.0, -1.0], (4f32, 6f32)),
        ("-z", [0.5, 0.0, -5.0], [0.0, 0.0, 1.0], (4f32, 6f32)),
        ("inside", [0.0, 0.5, 0.0], [0.0, 0.0, 1.0], (-1f32, 1f32)),
    ];

    cases.into_iter().for_each(|(_name, origin, direction, expected)| {
        assert_eq!(cube(origin, direction), Roots::Pair(key(expected.0), key(expected.1)));
    });
}

#[test]
fn ray_misses_cube() {
    let cases = vec![
        ([2., 0., 2.], [0., 0., -1.]),
        ([0., 2., 2.], [0., -1., 0.]),
        ([2., 2., 0.], [-1., 0., 0.]),
    ];

    cases.into_iter().for_each(|(origin, direction)| {
        assert_eq!(cube(origin, direction), Roots::Miss);
    });
}

#[test]
fn slanted_rays_miss_the_cube() {
    let cases = vec![
        ([-2.0, 0.0, 0.0], [0.2673, 0.5345, 0.8018]),
        ([0.0, -2.0, 0.0], [0.8018, 0.2673, 0.5345]),
        ([0.0, 0.0, -2.0], [0.5345, 0.8018, 0.2673]),
    ];

    cases.into_iter().for_each(|(origin, direction)| {
        assert_eq!(cube(origin, direction), Roots::Miss);
    });
}

#[test]
fn cube_roots_are_the_last_entry_and_the_first_exit() {
    assert_eq!(Cube::intersect((1, 9), (8, 2), (3, 7)), Roots::Pair(3, 7));
    assert_eq!(Cube::intersect((1, 2), (3, 4), (0, 9)), Roots::Miss);
    assert_eq!(Cube::intersect((5, 5), (5, 5), (5, 5)), Roots::Pair(5, 5));
    assert_eq!(Cube::intersect((-9, 9), (-NO_HIT, NO_HIT), (NO_HIT, -NO_HIT)), Roots::Pair(-9, 9));
    assert_eq!(Cube::intersect((0, 4), (4, 8), (4, 4)), Roots::Pair(4, 4));
}

#[test]
fn cube_normal() {
    let test = |point: [f32; 3], expected_normal: [f32; 3]| {
        let axis = Cube::normal(key(point[0].abs()), key(point[1].abs()), key(point[2].abs()));
        let result = match axis {
            Axis::X => [point[0], 0., 0.],
            Axis::Y => [0., point[1], 0.],
            Axis::Z => [0., 0., point[2]],
        };
        assert_eq!(result, expected_normal)
    };

    vec![
        ([1., 0.5, -0.8], [1., 0., 0.]),
        ([-1., -0.2, 0.9], [-1., 0., 0.]),
        ([0.4, 1., 0.6], [0., 1., 0.]),
        ([-0.5, -1., 0.7], [0., -1., 0.]),
        ([0.2, 0.8, 1.], [0., 0., 1.]),
        ([-0.7, 0.4, -1.], [0., 0., -1.]),
        ([1., 1., 1.], [1., 0., 0.]),
        ([-1., -1., -1.], [-1., 0., 0.]),
    ]
    .into_iter()
    .for_each(|elem| {
        test(elem.0, elem.1);
    });
}

#[test]
fn cube_normal_of_equal_sizes() {
    assert_eq!(Cube::normal(5, 5, 1), Axis::X);
    assert_eq!(Cube::normal(1, 5, 5), Axis::Y);
    assert_eq!(Cube::normal(5, 1, 5), Axis::X);
    assert_eq!(Cube::normal(1, 2, 3), Axis::Z);
    assert_eq!(Cube::normal(0, 0, 0), Axis::X);
}

#[test]
fn faces_of_a_cube() {
    let cases: Vec<([f32; 3], CubeFace)> = vec![
        ([-1.0, 0.5, -0.25], CubeFace::Left),
        ([1.1, -0.75, 0.8], CubeFace::Right),
        ([0.1, 0.6, 0.9], CubeFace::Front),
        ([-0.7, 0.0, -2.0], CubeFace::Back),
        ([0.5, 1.0, 0.9], CubeFace::Top),
        ([-0.2, -1.3, 1.1], CubeFace::Bottom),
        ([0.0, 0.0, 0.0], CubeFace::Right),
        ([1.0, 1.0, 1.0], CubeFace::Right),
        ([-1.0, 1.0, 1.0], CubeFace::Left),
        ([0.5, -1.0, 1.0], CubeFace::Bottom),
        ([0.5, 0.5, -1.0], CubeFace::Back),
    ];
    cases.into_iter().for_each(|(p, face)| {
        assert_eq!(cube_face_at_point(key(p[0]), key(p[1]), key(p[2])), face);
    });
    assert_eq!(cube_face_at_point(i64::MIN, 0, 0), CubeFace::Left);
    assert_eq!(cube_face_at_point(0, i64::MIN, i64::MAX), CubeFace::Bottom);
    assert_eq!(cube_face_at_point(0, 0, i64::MIN), CubeFace::Back);
}

#[test]
fn a_light_behind_the_surface_gives_ambient_light_only() {
    // The light is at z = 10 and the normal points to -z.
    let t = Material::lighting(key(-1.0), key(0.0));
    assert_eq!(t, Terms { diffuse: false, specular: false });
    assert_eq!(Material::lighting(key(-1.0), key(1.0)), Terms { diffuse: false, specular: false });
}

#[test]
fn a_light_in_front_mirrored_to_the_eye_gives_all_parts() {
    // Light and eye straight in front: all three parts are seen.
    assert_eq!(Material::lighting(key(1.0), key(1.0)), Terms { diffuse: true, specular: true });
}

#[test]
fn a_light_mirrored_away_from_the_eye_gives_no_highlight() {
    // The mirrored light points away from the eye.
    let p = 2.0f32.sqrt() / 2.0;
    assert_eq!(Material::lighting(key(p), key(-p)), Terms { diffuse: true, specular: false });
    assert_eq!(Material::lighting(key(p), key(0.0)), Terms { diffuse: true, specular: false });
}

#[test]
fn light_along_the_surface_is_in_front() {
    assert_eq!(Material::lighting(key(0.0), key(0.5)), Terms { diffuse: true, specular: true });
    assert_eq!(Material::lighting(key(-0.0), key(0.5)), Terms { diffuse: true, specular: true });
}

#[test]
fn default_material_casts_shadows() {
    assert!(!Material::new().light_through);
    assert!(!Material::default().light_through);
}

/// The plane across the y axis against a ray from `origin` along
/// `direction`.
fn plane(origin: [f32; 3], direction: [f32; 3]) -> Roots {
    Plane::intersect(key(direction[1].abs()), key((-origin[1]) / direction[1]))
}

#[test]
fn plane_intersections() {
    // parallel to the plane
    assert_eq!(plane([0.0, 10.0, 0.0], [0.0, 0.0, 1.0]), Roots::Miss);
    // coplanar
    assert_eq!(plane([0.0, 0.0, 0.0], [0.0, 0.0, 1.0]), Roots::Miss);
    // from above
    assert_eq!(plane([0.0, 1.0, 0.0], [0.0, -1.0, 0.0]), Roots::Single(key(1.0), None));
    // from below
    assert_eq!(plane([0.0, -1.0, 0.0], [0.0, 1.0, 0.0]), Roots::Single(key(1.0), None));
}

#[test]
fn a_ray_at_the_threshold_is_not_parallel() {
    assert_eq!(Plane::intersect(PLANE_PARALLEL, 77), Roots::Single(77, None));
    assert_eq!(Plane::intersect(PLANE_PARALLEL - 1, 77), Roots::Miss);
    assert_eq!(Plane::intersect(0, 77), Roots::Miss);
    assert_eq!(plane([0.0, 1.0, 0.0], [1.0, -1e-5, 0.0]), Roots::Single(key(1.0 / 1e-5), None));
    assert_eq!(plane([0.0, 1.0, 0.0], [1.0, -9e-6, 0.0]), Roots::Miss);
}

type V = [f32; 3];

fn sub(a: V, b: V) -> V {
    [a[0] - b[0], a[1] - b[1], a[2] - b[2]]
}

fn cross(a: V, b: V) -> V {
    [a[1] * b[2] - a[2] * b[1], a[2] * b[0] - a[0] * b[2], a[0] * b[1] - a[1] * b[0]]
}

fn dot(a: V, b: V) -> f32 {
    a[0] * b[0] + a[1] * b[1] + a[2] * b[2]
}

/// The triangle with corners (0,1,0), (-1,0,0) and (1,0,0) against a ray.
fn tri(origin: V, direction: V) -> Option<(f32, f32, f32)> {
    let (p1, p2, p3) = ([0., 1., 0.], [-1., 0., 0.], [1., 0., 0.]);
    let (e1, e2) = (sub(p2, p1), sub(p3, p1));
    let dir_cross_e2 = cross(direction, e2);
    let determinant = dot(e1, dir_cross_e2);
    let f = 1. / determinant;
    let p1_to_origin = sub(origin, p1);
    let u = f * dot(p1_to_origin, dir_cross_e2);
    let origin_cross_e1 = cross(p1_to_origin, e1);
    let v = f * dot(direction, origin_cross_e1);
    let t = f * dot(e2, origin_cross_e1);
    match Tri::intersect(
        key(determinant.abs()),
        key(u),
        key(v),
        key(v + u),
        key(t),
        (u.to_bits(), v.to_bits()),
    ) {
        Roots::Single(k, Some((a, b))) => {
            assert_eq!(k, key(t));
            Some((t, f32::from_bits(a), f32::from_bits(b)))
        }
        Roots::Miss => None,
        other => panic!("a triangle has one root with coordinates, not {:?}", other),
    }
}

#[test]
fn tri_none_with_parallel_ray() {
    assert_eq!(tri([0., -1., -2.], [0., 1., 0.]), None);
}

#[test]
fn tri_none_with_edge_misses() {
    // p1-p3 edge
    assert_eq!(tri([1., 1., -2.], [0., 0., 1.]), None);
    // p1-p2 edge
    assert_eq!(tri([-1., 1., -2.], [0., 0., 1.]), None);
    // p2-p3 edge
    assert_eq!(tri([0., -1., -2.], [0., 0., 1.]), None);
}

#[test]
fn tri_intersection() {
    assert_eq!(tri([0., 0.5, -2.], [0., 0., 1.]), Some((2., 0.25, 0.25)));
}

#[test]
fn tri_bounds_on_keys() {
    let hit = Roots::Single(42, Some((1, 2)));
    let d = TRI_PARALLEL;
    assert_eq!(Tri::intersect(d, 0, 0, 0, 42, (1, 2)), hit);
    assert_eq!(Tri::intersect(d, ONE, 0, ONE, 42, (1, 2)), hit);
    assert_eq!(Tri::intersect(d, 0, ONE, ONE, 42, (1, 2)), hit);
    assert_eq!(Tri::intersect(d - 1, key(0.5), key(0.1), key(0.6), 42, (1, 2)), Roots::Miss);
    assert_eq!(Tri::intersect(d, -1, key(0.1), key(0.6), 42, (1, 2)), Roots::Miss);
    assert_eq!(Tri::intersect(d, ONE + 1, 0, ONE + 1, 42, (1, 2)), Roots::Miss);
    assert_eq!(Tri::intersect(d, key(0.5), -1, key(0.5), 42, (1, 2)), Roots::Miss);
    assert_eq!(Tri::intersect(d, key(0.5), key(0.6), ONE + 1, 42, (1, 2)), Roots::Miss);
    assert_eq!(Tri::intersect(d, key(f32::NAN), 0, 0, 42, (1, 2)), Roots::Miss);
}

#[test]
fn rays_along_the_faces_of_a_cube() {
    assert!(Cube::runs_along_faces(key(0.0)));
    assert!(Cube::runs_along_faces(key(f32::EPSILON / 2.0)));
    assert!(Cube::runs_along_faces(EPSILON - 1));
    assert!(!Cube::runs_along_faces(EPSILON));
    assert!(!Cube::runs_along_faces(key(f32::EPSILON)));
    assert!(!Cube::runs_along_faces(key(1.0)));
    assert!(!Cube::runs_along_faces(key(f32::NAN)));
}

#[test]
fn a_ray_from_the_centre_of_a_sphere_has_opposite_roots() {
    let directions: [[f32; 3]; 5] =
        [[0.0, 0.0, 1.0], [1.0, 0.0, 0.0], [0.0, -2.0, 0.0], [3.0, 4.0, 0.0], [0.5, 0.5, 0.5]];
    for d in directions.iter() {
        match sphere([0.0, 0.0, 0.0], *d) {
            Roots::Pair(t1, t2) => {
                assert_eq!(t1, -t2);
                assert!(t1 < 0 && 0 < t2);
            }
            other => panic!("two roots, not {:?}", other),
        }
    }
    assert_eq!(Sphere::intersect(0, 7, -7), Roots::Pair(-7, 7));
    assert_eq!(Sphere::intersect(5, -7, 7), Roots::Pair(-7, 7));
}
