use encriptions::curve::Secp256k1;
use encriptions::curve::TestEllipticCurve;
use encriptions::field::LimitedFieldElement;
use encriptions::field::Prime13;
use encriptions::field::Prime223;
use encriptions::point::GeneralPoint;
use encriptions::point::PointOnCurve;

fn secp256k1_point(x: i64, y: i64) -> Option<PointOnCurve<Prime223, Secp256k1>> {
    PointOnCurve::<Prime223, Secp256k1>::new(GeneralPoint::finite(
        LimitedFieldElement::from(x),
        LimitedFieldElement::from(y),
    ))
}

#[test]
fn curve_on_finite_field() {
    assert!(
        PointOnCurve::<Prime223, Secp256k1>::new(GeneralPoint::finite(
            LimitedFieldElement::from(192),
            LimitedFieldElement::from(105)
        ))
        .is_some()
    );
    assert!(
        PointOnCurve::<Prime223, Secp256k1>::new(GeneralPoint::finite(
            LimitedFieldElement::from(17),
            LimitedFieldElement::from(56)
        ))
        .is_some()
    );
    assert!(
        !(PointOnCurve::<Prime223, Secp256k1>::new(GeneralPoint::finite(
            LimitedFieldElement::from(200),
            LimitedFieldElement::from(119)
        ))
        .is_some())
    );
    assert!(
        PointOnCurve::<Prime223, Secp256k1>::new(GeneralPoint::finite(
            LimitedFieldElement::from(1),
            LimitedFieldElement::from(193)
        ))
        .is_some()
    );
    assert!(
        !(PointOnCurve::<Prime223, Secp256k1>::new(GeneralPoint::finite(
            LimitedFieldElement::from(42),
            LimitedFieldElement::from(99)
        ))
        .is_some())
    );
}

#[test]
fn curve_add_finite_field() {
    let p1 = secp256k1_point(170, 142).unwrap();
    let p2 = secp256k1_point(60, 139).unwrap();
    assert_eq!(p1.add(p2), secp256k1_point(220, 181).unwrap());

    let p1 = secp256k1_point(47, 71).unwrap();
    let p2 = secp256k1_point(17, 56).unwrap();
    assert_eq!(p1.add(p2), secp256k1_point(215, 68).unwrap());

    let p1 = secp256k1_point(143, 98).unwrap();
    let p2 = secp256k1_point(76, 66).unwrap();
    assert_eq!(p1.add(p2), secp256k1_point(47, 71).unwrap());
}

#[test]
fn add_identity() {
    let o = PointOnCurve::<Prime223, Secp256k1>::new(GeneralPoint::Infinite).unwrap();
    let p = secp256k1_point(192, 105).unwrap();
    assert_eq!(p.add(o), p);
    assert_eq!(o.add(p), p);
    assert_eq!(o.add(o), o);
}

#[test]
fn add_opposite_is_infinity() {
    // 105 + 118 = 223, so (192, 118) is the reflection of (192, 105).
    let p = secp256k1_point(192, 105).unwrap();
    let q = secp256k1_point(192, 118).unwrap();
    let o = PointOnCurve::<Prime223, Secp256k1>::new(GeneralPoint::Infinite).unwrap();
    assert_eq!(p.add(q), o);
}

#[test]
fn add_commutes() {
    let p1 = secp256k1_point(170, 142).unwrap();
    let p2 = secp256k1_point(60, 139).unwrap();
    assert_eq!(p1.add(p2), p2.add(p1));

    let p3 = secp256k1_point(47, 71).unwrap();
    assert_eq!(p1.add(p3), p3.add(p1));
}

#[test]
fn doubling() {
    // (47, 71) + (47, 71) uses the tangent formula.
    let p = secp256k1_point(47, 71).unwrap();
    let d = p.add(p);
    assert_eq!(d, secp256k1_point(36, 111).unwrap());
    assert_eq!(d.add(p), p.add(d));
}

#[test]
fn doubling_with_zero_ordinate() {
    // On y^2 = x^3 + 5x + 7 over F_13 the point (1, 0) lies on the
    // curve; its tangent is vertical, so doubling gives infinity.
    let p = PointOnCurve::<Prime13, TestEllipticCurve>::new(GeneralPoint::finite(
        LimitedFieldElement::from(1),
        LimitedFieldElement::from(0),
    ))
    .unwrap();
    let o = PointOnCurve::<Prime13, TestEllipticCurve>::new(GeneralPoint::Infinite).unwrap();
    assert_eq!(p.add(p), o);
}

#[test]
fn accessors() {
    let p = secp256k1_point(192, 105).unwrap();
    assert!(p.is_finite());
    assert_eq!(p.x(), Some(LimitedFieldElement::from(192)));
    assert_eq!(p.y(), Some(LimitedFieldElement::from(105)));

    let o = PointOnCurve::<Prime223, Secp256k1>::new(GeneralPoint::Infinite).unwrap();
    assert!(!o.is_finite());
    assert!(o.x().is_none());
    assert!(o.y().is_none());

    let g: GeneralPoint<LimitedFieldElement<Prime223>> = GeneralPoint::finite(
        LimitedFieldElement::from(3),
        LimitedFieldElement::from(4),
    );
    assert!(g.is_finite());
    assert_eq!(g.x(), Some(LimitedFieldElement::from(3)));
    assert_eq!(g.y(), Some(LimitedFieldElement::from(4)));
}

fn all_curve_points() -> Vec<PointOnCurve<Prime13, TestEllipticCurve>> {
    let mut points: Vec<PointOnCurve<Prime13, TestEllipticCurve>> = Vec::new();
    points.push(PointOnCurve::new(GeneralPoint::Infinite).unwrap());
    for x in 0u64..13 {
        for y in 0u64..13 {
            let candidate = PointOnCurve::<Prime13, TestEllipticCurve>::new(GeneralPoint::finite(
                LimitedFieldElement::new_from_u64(x).unwrap(),
                LimitedFieldElement::new_from_u64(y).unwrap(),
            ));
            if let Some(p) = candidate {
                points.push(p);
            }
        }
    }
    points
}

#[test]
fn associativity_exhaustive() {
    // (P + Q) + R = P + (Q + R) over every triple of points of
    // y^2 = x^3 + 5x + 7 over F_13, the identity included.
    let points = all_curve_points();
    assert!(points.len() > 1);
    for p in &points {
        for q in &points {
            for r in &points {
                assert_eq!(p.add(*q).add(*r), p.add(q.add(*r)));
            }
        }
    }
}

#[test]
fn commutativity_exhaustive() {
    let points = all_curve_points();
    for p in &points {
        for q in &points {
            assert_eq!(p.add(*q), q.add(*p));
        }
    }
}

#[test]
fn membership_of_sums() {
    // Every sum is again a point the constructor accepts.
    let points = all_curve_points();
    for p in &points {
        for q in &points {
            let s = p.add(*q);
            match (s.x(), s.y()) {
                (Some(x), Some(y)) => {
                    assert!(
                        PointOnCurve::<Prime13, TestEllipticCurve>::new(GeneralPoint::finite(x, y))
                            .is_some()
                    );
                }
                _ => {
                    assert!(!s.is_finite());
                }
            }
        }
    }
}
