use vstd::prelude::*;
use vstd::arithmetic::div_mod::{
    lemma_mod_bound, lemma_mod_multiples_vanish, lemma_mul_mod_noop, lemma_mul_mod_noop_left,
    lemma_mul_mod_noop_right, lemma_small_mod,
};
use vstd::arithmetic::power::{lemma_pow0, pow};
use crate::error::EccError;
use crate::number_theory::{is_prime, lemma_fermat};

verus! {

/// Reduces a wide integer into `[0, modulus)`.
fn reduce(value: i128, modulus: isize) -> (r: isize)
    requires
        modulus > 0,
    ensures
        r == (value as int) % (modulus as int),
{
    match value.checked_rem_euclid(modulus as i128) {
        Some(rem) => rem as isize,
        None => {
            proof {
                assert(false);
            }
            0
        },
    }
}

/// The residue of `left` modulo `right`, taken floor-style so that it is never
/// negative.
pub fn mod_it(left: isize, right: isize) -> (r: isize)
    requires
        right > 0,
    ensures
        r == left % right,
        0 <= r < right,
{
    reduce(left as i128, right)
}

/// An element of the field of integers modulo `prime`.
#[derive(Debug, Clone, Copy, PartialEq, Eq, Structural)]
pub struct FieldElement {
    pub number: isize,
    pub prime: isize,
}

impl FieldElement {
    /// The element of the field modulo `prime` that `number` stands for.
    pub open spec fn of(number: int, prime: isize) -> FieldElement {
        FieldElement { number: (number % (prime as int)) as isize, prime }
    }

    /// The residue lies in `[0, prime)`.
    pub open spec fn wf(self) -> bool {
        0 <= self.number < self.prime
    }

    /// Every residue lies in `[0, prime)`.
    pub proof fn lemma_of_wf(number: int, prime: isize)
        requires
            prime > 0,
        ensures
            FieldElement::of(number, prime).wf(),
            FieldElement::of(number, prime).number == number % (prime as int),
            FieldElement::of(number, prime).prime == prime,
    {
        lemma_mod_bound(number, prime as int);
    }

    /// Builds the element for `number`, normalised into `[0, prime)`.
    pub fn new(number: isize, prime: isize) -> (r: FieldElement)
        requires
            prime > 0,
        ensures
            r == FieldElement::of(number as int, prime),
            r.wf(),
    {
        FieldElement { number: mod_it(number, prime), prime }
    }

    /// `self + right` in the field of `self`.
    pub open spec fn plus(self, right: FieldElement) -> FieldElement {
        FieldElement::of(self.number + right.number, self.prime)
    }

    /// `self - right` in the field of `self`.
    pub open spec fn minus(self, right: FieldElement) -> FieldElement {
        FieldElement::of(self.number - right.number, self.prime)
    }

    /// `self * right` in the field of `self`.
    pub open spec fn times(self, right: FieldElement) -> FieldElement {
        FieldElement::of(self.number * right.number, self.prime)
    }

    /// `self` raised to `exponent` in its field.
    pub open spec fn pow_of(self, exponent: nat) -> FieldElement {
        FieldElement::of(pow(self.number as int, exponent), self.prime)
    }

    /// `self` times `right` raised to `prime - 2`: the quotient `self / right`
    /// when the prime is prime and `right` is not zero.
    pub open spec fn over(self, right: FieldElement) -> FieldElement {
        self.times(right.pow_of((self.prime - 2) as nat))
    }

    fn same_base(&self, right: &FieldElement) -> (r: bool)
        ensures
            r == (self.prime == right.prime),
    {
        self.prime == right.prime
    }

    /// The sum of two elements of one field.
    pub fn add(&self, right: &FieldElement) -> (r: Result<FieldElement, EccError>)
        requires
            self.prime > 0,
        ensures
            r == (if self.prime == right.prime {
                Ok(self.plus(*right))
            } else {
                Err(EccError::MismatchedField)
            }),
    {
        if !self.same_base(right) {
            return Err(EccError::MismatchedField);
        }
        let adder: i128 = self.number as i128 + right.number as i128;
        Ok(FieldElement { number: reduce(adder, self.prime), prime: self.prime })
    }

    /// The difference of two elements of one field.
    pub fn sub(&self, right: &FieldElement) -> (r: Result<FieldElement, EccError>)
        requires
            self.prime > 0,
        ensures
            r == (if self.prime == right.prime {
                Ok(self.minus(*right))
            } else {
                Err(EccError::MismatchedField)
            }),
    {
        if !self.same_base(right) {
            return Err(EccError::MismatchedField);
        }
        let subber: i128 = self.number as i128 - right.number as i128;
        Ok(FieldElement { number: reduce(subber, self.prime), prime: self.prime })
    }

    /// The product of two elements of one field.
    pub fn mul(&self, right: &FieldElement) -> (r: Result<FieldElement, EccError>)
        requires
            self.prime > 0,
        ensures
            r == (if self.prime == right.prime {
                Ok(self.times(*right))
            } else {
                Err(EccError::MismatchedField)
            }),
    {
        if !self.same_base(right) {
            return Err(EccError::MismatchedField);
        }
        let multiplier: i128 = wide_product(self.number, right.number);
        Ok(FieldElement { number: reduce(multiplier, self.prime), prime: self.prime })
    }

    /// `self` raised to a non-negative `right`, by repeated multiplication.
    pub fn power_(&self, right: isize) -> (r: FieldElement)
        requires
            self.prime > 0,
            right >= 0,
        ensures
            r == self.pow_of(right as nat),
    {
        let mut value: isize = reduce(1, self.prime);
        let mut i: isize = 0;
        proof {
            lemma_pow0(self.number as int);
        }
        while i < right
            invariant
                0 <= i <= right,
                self.prime > 0,
                value == pow(self.number as int, i as nat) % (self.prime as int),
            decreases right - i,
        {
            let product: i128 = wide_product(value, self.number);
            proof {
                lemma_pow_step_mod(self.number as int, i as nat, self.prime as int);
            }
            value = reduce(product, self.prime);
            i = i + 1;
        }
        FieldElement { number: value, prime: self.prime }
    }

    /// `self / right`: `self` times `right` raised to `prime - 2`.
    pub fn div(&self, right: &FieldElement) -> (r: Result<FieldElement, EccError>)
        requires
            self.prime > 0,
        ensures
            r == (if self.prime != right.prime {
                Err(EccError::MismatchedField)
            } else if right.number % right.prime == 0 {
                Err(EccError::DivisionByZero)
            } else {
                Ok(self.over(*right))
            }),
    {
        if !self.same_base(right) {
            return Err(EccError::MismatchedField);
        }
        if mod_it(right.number, right.prime) == 0 {
            return Err(EccError::DivisionByZero);
        }
        let raise_pow: isize = self.prime - 2;
        let inverse = right.power_(raise_pow);
        self.mul(&inverse)
    }
}

/// The product of two `isize` values, which always fits in `i128`.
fn wide_product(left: isize, right: isize) -> (r: i128)
    ensures
        r == left * right,
{
    proof {
        lemma_wide_product_bounds(left as int, right as int);
    }
    left as i128 * right as i128
}

proof fn lemma_wide_product_bounds(left: int, right: int)
    requires
        isize::MIN <= left <= isize::MAX,
        isize::MIN <= right <= isize::MAX,
    ensures
        i128::MIN <= left * right <= i128::MAX,
{
    assert(-0x8000_0000_0000_0000 <= left <= 0x7fff_ffff_ffff_ffff);
    assert(-0x8000_0000_0000_0000 <= right <= 0x7fff_ffff_ffff_ffff);
    assert(i128::MIN <= left * right <= i128::MAX) by (nonlinear_arith)
        requires
            -0x8000_0000_0000_0000 <= left <= 0x7fff_ffff_ffff_ffff,
            -0x8000_0000_0000_0000 <= right <= 0x7fff_ffff_ffff_ffff,
    ;
}

/// One more factor of `b` commutes with reduction modulo `m`.
proof fn lemma_pow_step_mod(b: int, e: nat, m: int)
    requires
        m > 0,
    ensures
        ((pow(b, e) % m) * b) % m == pow(b, e + 1) % m,
{
    reveal(pow);
    lemma_mul_mod_noop_left(pow(b, e), b, m);
    assert(pow(b, e + 1) == b * pow(b, e));
    assert(pow(b, e) * b == b * pow(b, e)) by (nonlinear_arith);
}

/// Construction always lands in `[0, prime)`, and numbers that differ by a
/// multiple of `prime` give the same element.
pub proof fn lemma_new_residue_class(number: int, prime: isize, k: int)
    requires
        prime > 0,
    ensures
        FieldElement::of(number, prime).wf(),
        FieldElement::of(number, prime) == FieldElement::of(number + k * prime, prime),
{
    FieldElement::lemma_of_wf(number, prime);
    lemma_mod_multiples_vanish(k, number, prime as int);
    assert(number + k * prime == prime * k + number) by (nonlinear_arith);
}

/// Sums, differences and products of two elements of one field are elements
/// of that same field.
pub proof fn lemma_closure(a: FieldElement, b: FieldElement)
    requires
        a.wf(),
        b.wf(),
        a.prime == b.prime,
    ensures
        a.plus(b).wf() && a.plus(b).prime == a.prime,
        a.minus(b).wf() && a.minus(b).prime == a.prime,
        a.times(b).wf() && a.times(b).prime == a.prime,
{
    FieldElement::lemma_of_wf(a.number + b.number, a.prime);
    FieldElement::lemma_of_wf(a.number - b.number, a.prime);
    FieldElement::lemma_of_wf(a.number * b.number, a.prime);
}

/// Zero is neutral for addition and one is neutral for multiplication.
pub proof fn lemma_identities(a: FieldElement)
    requires
        a.wf(),
    ensures
        a.plus(FieldElement::of(0, a.prime)) == a,
        a.times(FieldElement::of(1, a.prime)) == a,
{
    let p = a.prime as int;
    lemma_small_mod(a.number as nat, p as nat);
    lemma_small_mod(0, p as nat);
    lemma_mul_mod_noop_right(a.number as int, 1, p);
}

/// In a field of prime order, dividing a product by a nonzero factor gives
/// back the other factor.
pub proof fn lemma_division_inverse(a: FieldElement, b: FieldElement)
    requires
        a.wf(),
        b.wf(),
        a.prime == b.prime,
        is_prime(a.prime as int),
        b.number != 0,
    ensures
        a.times(b).prime == b.prime,
        b.number % b.prime != 0,
        a.times(b).over(b) == a,
{
    let p = a.prime as int;
    let (an, bn) = (a.number as int, b.number as int);
    let e = (p - 2) as nat;
    let w = pow(bn, e);
    lemma_small_mod(bn as nat, p as nat);
    lemma_small_mod(an as nat, p as nat);
    FieldElement::lemma_of_wf(an * bn, a.prime);
    FieldElement::lemma_of_wf(w, a.prime);
    lemma_fermat(p, bn as nat);
    reveal(pow);
    assert(pow(bn, (p - 1) as nat) == bn * w);
    lemma_mul_mod_noop(an * bn, w, p);
    assert(an * bn * w == an * (bn * w)) by (nonlinear_arith);
    lemma_mul_mod_noop_right(an, bn * w, p);
}

} // verus!
