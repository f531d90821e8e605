use ecc_field::error::EccError;
use ecc_field::field_element::{mod_it, FieldElement};

#[test]
fn field_element_test_exception_raised() {
    let a = FieldElement { number: 44, prime: 57 };
    let b = FieldElement { number: 33, prime: 58 };
    let result = a.add(&b);
    let error = result.unwrap_err();
    assert_eq!(error.message(), "Prime base not the same between two FieldElement");
}

#[test]
fn test_positive_mod_1() {
    let result = mod_it(9, 19);
    assert_eq!(result, 9);
}

#[test]
fn test_positive_mod_2() {
    let result = mod_it(22, 19);
    assert_eq!(result, 3);
}

#[test]
fn test_negative_mod_1() {
    let result = mod_it(-9, 19);
    assert_eq!(result, 10);
}

#[test]
fn test_negative_mod_2() {
    let result = mod_it(-7, 19);
    assert_eq!(result, 12);
}

#[test]
fn test_add_1() {
    let a = FieldElement { number: 44, prime: 57 };
    let b = FieldElement { number: 33, prime: 57 };
    let result = a.add(&b).unwrap();
    let expected = FieldElement { number: 20, prime: 57 };
    assert_eq!(result, expected);
}

#[test]
fn test_add_2() {
    let a = FieldElement { number: 9, prime: 57 };
    let b = FieldElement { number: -29, prime: 57 };
    let result = a.add(&b).unwrap();
    let expected = FieldElement { number: 37, prime: 57 };
    assert_eq!(result, expected);
}

#[test]
fn test_add_3() {
    let a = FieldElement { number: 17, prime: 57 };
    let b = FieldElement { number: 42, prime: 57 };
    let c = FieldElement { number: 49, prime: 57 };
    let result = a.add(&b).unwrap().add(&c).unwrap();
    let expected = FieldElement { number: 51, prime: 57 };
    assert_eq!(result, expected);
}

#[test]
fn test_add_4() {
    let a = FieldElement { number: 52, prime: 57 };
    let b = FieldElement { number: -30, prime: 57 };
    let c = FieldElement { number: -38, prime: 57 };
    let result = a.add(&b).unwrap().add(&c).unwrap();
    let expected = FieldElement { number: 41, prime: 57 };
    assert_eq!(result, expected);
}

#[test]
fn test_equal() {
    let a = FieldElement { number: 7, prime: 13 };
    let b = FieldElement { number: 7, prime: 13 };
    assert_eq!(a, b);
}

#[test]
fn test_not_equal() {
    let a = FieldElement { number: 8, prime: 13 };
    let b = FieldElement { number: 7, prime: 13 };
    assert_ne!(a, b);
}

#[test]
fn test_mul_1() {
    let a = FieldElement { number: 5, prime: 19 };
    let b = FieldElement { number: 3, prime: 19 };
    let result = a.mul(&b).unwrap();
    let expected = FieldElement { number: 15, prime: 19 };
    assert_eq!(result, expected);
}

#[test]
fn test_mul_2() {
    let a = FieldElement { number: 8, prime: 19 };
    let b = FieldElement { number: 17, prime: 19 };
    let result = a.mul(&b).unwrap();
    let expected = FieldElement { number: 3, prime: 19 };
    assert_eq!(result, expected);
}

#[test]
fn test_pow_1() {
    let test_values = vec![
        ((3, 13), (1, 13), 3),
        ((75, 223), (50, 223), 2),
        ((41, 223), (120, 223), 2),
        ((113, 223), (75, 223), 221),
    ];
    for ((given_number, given_prime), (expected_number, expected_prime), power) in test_values {
        let a = FieldElement { number: given_number, prime: given_prime };
        let result = a.power_(power);
        let expected = FieldElement { number: expected_number, prime: expected_prime };
        assert_eq!(result, expected);
    }
}

#[test]
fn test_div_1() {
    let a = FieldElement { number: 3, prime: 31 };
    let b = FieldElement { number: 24, prime: 31 };
    let result = a.div(&b).unwrap();
    let expected = FieldElement { number: 4, prime: 31 };
    assert_eq!(result, expected);
}

#[test]
fn new_normalises_out_of_range_numbers() {
    assert_eq!(FieldElement::new(-5, 223), FieldElement { number: 218, prime: 223 });
    assert_eq!(FieldElement::new(500, 223), FieldElement { number: 54, prime: 223 });
    assert_eq!(FieldElement::new(-500, 223), FieldElement { number: 169, prime: 223 });
    assert_eq!(FieldElement::new(0, 7), FieldElement { number: 0, prime: 7 });
}

#[test]
fn new_is_periodic_in_the_prime() {
    for k in -3..4 {
        assert_eq!(FieldElement::new(10 + k * 19, 19), FieldElement::new(10, 19));
    }
    assert_eq!(FieldElement::new(isize::MIN, 7), FieldElement::new(isize::MIN % 7 + 7, 7));
}

#[test]
fn mod_it_far_below_zero() {
    assert_eq!(mod_it(-100, 57), 14);
    assert_eq!(mod_it(isize::MIN, 3), 1);
}

#[test]
fn sub_wraps_forward() {
    let a = FieldElement::new(3, 19);
    let b = FieldElement::new(10, 19);
    assert_eq!(a.sub(&b).unwrap(), FieldElement { number: 12, prime: 19 });
    assert_eq!(b.sub(&a).unwrap(), FieldElement { number: 7, prime: 19 });
}

#[test]
fn power_of_zero_exponent_is_one() {
    let a = FieldElement::new(5, 13);
    assert_eq!(a.power_(0), FieldElement { number: 1, prime: 13 });
    assert_eq!(a.power_(1), a);
}

#[test]
fn large_operands_do_not_overflow() {
    let p = 2_305_843_009_213_693_951; // 2^61 - 1
    let a = FieldElement::new(p - 1, p);
    assert_eq!(a.mul(&a).unwrap(), FieldElement { number: 1, prime: p });
    assert_eq!(a.add(&a).unwrap(), FieldElement { number: p - 2, prime: p });
}

#[test]
fn mismatched_primes_fail_everywhere() {
    let a = FieldElement::new(3, 13);
    let b = FieldElement::new(3, 17);
    assert_eq!(a.add(&b), Err(EccError::MismatchedField));
    assert_eq!(a.sub(&b), Err(EccError::MismatchedField));
    assert_eq!(a.mul(&b), Err(EccError::MismatchedField));
    assert_eq!(a.div(&b), Err(EccError::MismatchedField));
}

#[test]
fn division_by_zero_is_refused() {
    let a = FieldElement::new(3, 13);
    let zero = FieldElement::new(0, 13);
    assert_eq!(a.div(&zero), Err(EccError::DivisionByZero));
    assert_eq!(
        EccError::DivisionByZero.message(),
        "Division by the zero element"
    );
    let unreduced_zero = FieldElement { number: 26, prime: 13 };
    assert_eq!(a.div(&unreduced_zero), Err(EccError::DivisionByZero));
}

#[test]
fn division_undoes_multiplication() {
    let p = 223;
    for an in [0, 1, 17, 100, 222] {
        for bn in [1, 2, 57, 222] {
            let a = FieldElement::new(an, p);
            let b = FieldElement::new(bn, p);
            assert_eq!(a.mul(&b).unwrap().div(&b).unwrap(), a);
        }
    }
}

#[test]
fn identities_are_neutral() {
    let p = 31;
    for n in 0..p {
        let a = FieldElement::new(n, p);
        assert_eq!(a.add(&FieldElement::new(0, p)).unwrap(), a);
        assert_eq!(a.mul(&FieldElement::new(1, p)).unwrap(), a);
    }
}

#[test]
fn results_stay_in_the_field() {
    let p = 19;
    for x in 0..p {
        for y in 0..p {
            let a = FieldElement::new(x, p);
            let b = FieldElement::new(y, p);
            for r in [a.add(&b).unwrap(), a.sub(&b).unwrap(), a.mul(&b).unwrap()] {
                assert!(0 <= r.number && r.number < p);
                assert_eq!(r.prime, p);
            }
        }
    }
}
