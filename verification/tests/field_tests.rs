use encriptions::field::FieldError;
use encriptions::field::LimitedFieldElement;
use encriptions::field::Prime13;
use encriptions::field::Prime19;
use encriptions::field::Prime223;
use encriptions::field::Prime29;

#[test]
fn add_test() {
    let a: LimitedFieldElement<Prime29> = LimitedFieldElement::new_from_u64(1).unwrap();
    let b = LimitedFieldElement::new_from_u64(2).unwrap();
    let c = LimitedFieldElement::new_from_u64(28).unwrap();

    assert_eq!(a.clone().add(b), LimitedFieldElement::new_from_u64(3).unwrap());
    assert_eq!(a.add(c), LimitedFieldElement::new_from_u64(0).unwrap());
}

#[test]
fn add_1_5_1() {
    let a: LimitedFieldElement<Prime13> = LimitedFieldElement::new_from_u64(7).unwrap();
    let b = LimitedFieldElement::new_from_u64(12).unwrap();
    let c = LimitedFieldElement::new_from_u64(6).unwrap();

    assert_eq!(a.add(b), c);
}

#[test]
fn mul_1_6_1() {
    let a: LimitedFieldElement<Prime13> = LimitedFieldElement::new_from_u64(3).unwrap();
    let b = LimitedFieldElement::new_from_u64(12).unwrap();
    let c = LimitedFieldElement::new_from_u64(10).unwrap();

    assert_eq!(a.mul(b), c);
}

#[test]
fn pow_1_6_2() {
    let a: LimitedFieldElement<Prime13> = LimitedFieldElement::new_from_u64(3).unwrap();
    let b = LimitedFieldElement::new_from_u64(1).unwrap();

    assert_eq!(a.pow(3), b);
}

#[test]
fn div_test() {
    let a: LimitedFieldElement<Prime19> = LimitedFieldElement::new_from_u64(2).unwrap();
    let b = LimitedFieldElement::new_from_u64(7).unwrap();

    assert_eq!(a.div(b).unwrap(), LimitedFieldElement::new_from_u64(3).unwrap());

    let a: LimitedFieldElement<Prime19> = LimitedFieldElement::new_from_u64(7).unwrap();
    let b = LimitedFieldElement::new_from_u64(5).unwrap();

    assert_eq!(a.div(b).unwrap(), LimitedFieldElement::new_from_u64(9).unwrap());
}

#[test]
fn pow_minus() {
    let a: LimitedFieldElement<Prime13> = LimitedFieldElement::new_from_u64(12).unwrap();
    let b = a.clone().pow(13 - 4);
    let c = a.pow(-3);

    assert_eq!(b, c);
}

#[test]
fn sub_test() {
    let a: LimitedFieldElement<Prime29> = LimitedFieldElement::new_from_u64(1).unwrap();
    let b = LimitedFieldElement::new_from_u64(2).unwrap();
    let c = LimitedFieldElement::new_from_u64(28).unwrap();

    assert_eq!(a.clone().sub(b), LimitedFieldElement::new_from_u64(28).unwrap());
    assert_eq!(a.sub(c), LimitedFieldElement::new_from_u64(2).unwrap());
}

#[test]
fn new_rejects_out_of_range() {
    assert!(LimitedFieldElement::<Prime13>::new(13).is_none());
    assert!(LimitedFieldElement::<Prime13>::new(12).is_some());
    assert!(LimitedFieldElement::<Prime13>::new_from_u64(14).is_none());
    assert!(LimitedFieldElement::<Prime13>::new_from_u64(0).is_some());
}

#[test]
fn new_reduced_wraps() {
    let a: LimitedFieldElement<Prime223> = LimitedFieldElement::new_reduced(230);
    assert_eq!(a, LimitedFieldElement::new_from_u64(7).unwrap());
    let b: LimitedFieldElement<Prime223> = LimitedFieldElement::new_reduced(223);
    assert_eq!(b, LimitedFieldElement::new_from_u64(0).unwrap());
}

#[test]
fn from_signed_euclidean() {
    let a: LimitedFieldElement<Prime223> = LimitedFieldElement::from(-1);
    assert_eq!(a, LimitedFieldElement::new_from_u64(222).unwrap());
    let b: LimitedFieldElement<Prime223> = LimitedFieldElement::from_signed(-446);
    assert_eq!(b, LimitedFieldElement::new_from_u64(0).unwrap());
    let c: LimitedFieldElement<Prime13> = LimitedFieldElement::from(27);
    assert_eq!(c, LimitedFieldElement::new_from_u64(1).unwrap());
}

#[test]
fn neg_cancels() {
    for v in 0u64..29 {
        let a: LimitedFieldElement<Prime29> = LimitedFieldElement::new_from_u64(v).unwrap();
        let zero = LimitedFieldElement::new_from_u64(0).unwrap();
        assert_eq!(a.add(a.neg()), zero);
        assert_eq!(a.add(zero), a);
        assert_eq!(zero.add(a), a);
    }
}

#[test]
fn div_by_zero_reported() {
    let a: LimitedFieldElement<Prime19> = LimitedFieldElement::new_from_u64(4).unwrap();
    let zero = LimitedFieldElement::new_from_u64(0).unwrap();
    assert_eq!(a.div(zero), Err(FieldError::DivisionByZero));
}

#[test]
fn pow_of_zero_base() {
    let zero: LimitedFieldElement<Prime13> = LimitedFieldElement::new_from_u64(0).unwrap();
    let one = LimitedFieldElement::new_from_u64(1).unwrap();
    // The exponent reduces modulo 12, and 0^0 follows the modpow
    // convention.
    assert_eq!(zero.pow(0), one);
    assert_eq!(zero.pow(12), one);
    assert_eq!(zero.pow(5), zero);
}

#[test]
fn fermat_spot_checks() {
    // a^(p-1) = 1 for every nonzero a.
    for v in 1u64..13 {
        let a: LimitedFieldElement<Prime13> = LimitedFieldElement::new_from_u64(v).unwrap();
        let one = LimitedFieldElement::new_from_u64(1).unwrap();
        assert_eq!(a.pow(12), one);
        assert_eq!(a.mul(a.pow(11)), one);
    }
}

#[test]
fn field_laws_on_samples() {
    // Associativity, commutativity and distributivity on all of F_13.
    for va in 0u64..13 {
        for vb in 0u64..13 {
            for vc in 0u64..13 {
                let a: LimitedFieldElement<Prime13> =
                    LimitedFieldElement::new_from_u64(va).unwrap();
                let b = LimitedFieldElement::new_from_u64(vb).unwrap();
                let c = LimitedFieldElement::new_from_u64(vc).unwrap();
                assert_eq!(a.add(b), b.add(a));
                assert_eq!(a.add(b).add(c), a.add(b.add(c)));
                assert_eq!(a.mul(b), b.mul(a));
                assert_eq!(a.mul(b).mul(c), a.mul(b.mul(c)));
                assert_eq!(a.mul(b.add(c)), a.mul(b).add(a.mul(c)));
            }
        }
    }
}
