use rstracer::intersections::NO_HIT;
use rstracer::matrix::{Builder, Inversion, Kind};

const KINDS: [Kind; 4] = [Kind::General, Kind::Transform, Kind::TransformNoScale, Kind::Identity];

#[test]
fn multiplication_keeps_kind_of_rhs() {
    let lhs = Kind::TransformNoScale;
    let rhs = Kind::General;

    match lhs.worst(&rhs) {
        Kind::General => (),
        _ => panic!("borrow: kind is not expected"),
    };
}

#[test]
fn worst_is_the_less_specialised() {
    for (i, a) in KINDS.iter().enumerate() {
        for (j, b) in KINDS.iter().enumerate() {
            let expected = KINDS[i.min(j)];
            assert_eq!(a.worst(b), expected);
            assert_eq!(a.worst(b), b.worst(a));
            for c in KINDS.iter() {
                assert_eq!(a.worst(b).worst(c), a.worst(&b.worst(c)));
            }
        }
        assert_eq!(a.worst(a), *a);
        assert_eq!(a.worst(&Kind::Identity), *a);
        assert_eq!(a.worst(&Kind::General), Kind::General);
    }
}

#[test]
fn inversion_by_kind() {
    assert_eq!(Kind::Identity.inversion(), Inversion::Unchanged);
    assert_eq!(Kind::TransformNoScale.inversion(), Inversion::NoScale);
    assert_eq!(Kind::Transform.inversion(), Inversion::General);
    assert_eq!(Kind::General.inversion(), Inversion::General);
}

#[test]
fn kinds_of_the_builders() {
    assert_eq!(Builder::Translation.kind(), Kind::TransformNoScale);
    assert_eq!(Builder::Scaling.kind(), Kind::Transform);
    assert_eq!(Builder::RotateX.kind(), Kind::TransformNoScale);
    assert_eq!(Builder::RotateY.kind(), Kind::TransformNoScale);
    assert_eq!(Builder::RotateZ.kind(), Kind::TransformNoScale);
    assert_eq!(Builder::Shearing.kind(), Kind::General);
}

#[test]
fn kind_of_a_chain() {
    assert_eq!(Kind::of_product(&vec![]), Kind::Identity);
    assert_eq!(
        Kind::of_product(&vec![Kind::TransformNoScale, Kind::Identity]),
        Kind::TransformNoScale
    );
    assert_eq!(
        Kind::of_product(&vec![Kind::TransformNoScale, Kind::Transform, Kind::TransformNoScale]),
        Kind::Transform
    );
    assert_eq!(
        Kind::of_product(&vec![Kind::Transform, Kind::General, Kind::Identity]),
        Kind::General
    );
}

fn k(t: f32) -> i64 {
    rstracer::key::key(t.to_bits())
}

#[test]
fn a_general_matrix_has_an_inverse_unless_its_determinant_is_zero() {
    assert!(Kind::General.is_inversible(k(-2120.0)));
    assert!(!Kind::General.is_inversible(k(0.0)));
}

#[test]
fn matrices_without_an_inverse() {
    for kind in [Kind::General, Kind::Transform] {
        assert!(!kind.is_inversible(k(0.0)));
        assert!(!kind.is_inversible(k(-0.0)));
        assert!(!kind.is_inversible(k(f32::NAN)));
        assert!(!kind.is_inversible(NO_HIT));
        assert!(kind.is_inversible(k(1.0e-30)));
        assert!(kind.is_inversible(k(-532.0)));
        assert!(kind.is_inversible(k(f32::NEG_INFINITY)));
    }
    for kind in [Kind::Identity, Kind::TransformNoScale] {
        assert!(kind.is_inversible(k(0.0)));
        assert!(kind.is_inversible(k(1.0)));
        assert!(kind.is_inversible(NO_HIT));
    }
}
