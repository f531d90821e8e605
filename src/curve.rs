use vstd::prelude::*;
use vstd::arithmetic::div_mod::{
    lemma_add_mod_noop, lemma_add_mod_noop_right, lemma_fundamental_div_mod,
    lemma_mod_multiples_vanish, lemma_mul_mod_noop, lemma_small_mod,
};
use vstd::arithmetic::power::pow;
use crate::error::EccError;
use crate::field_element::FieldElement;

verus! {

/// `y^2 == x^3 + a*x + b` modulo the prime of `x`.
pub open spec fn on_curve(
    a: FieldElement,
    b: FieldElement,
    x: FieldElement,
    y: FieldElement,
) -> bool {
    let p = x.prime as int;
    (y.number * y.number) % p == (x.number * x.number * x.number + a.number * x.number
        + b.number) % p
}

proof fn lemma_small_powers(v: int)
    ensures
        pow(v, 2) == v * v,
        pow(v, 3) == v * v * v,
{
    reveal_with_fuel(pow, 4);
    assert(v * (v * v) == v * v * v) by (nonlinear_arith);
}

/// A nonzero integer smaller in size than `m` is not a multiple of `m`.
proof fn lemma_small_nonzero_mod(d: int, m: int)
    requires
        m > 0,
        -m < d < m,
        d != 0,
    ensures
        d % m != 0,
{
    lemma_fundamental_div_mod(d, m);
    let q = d / m;
    if d % m == 0 {
        assert(d == m * q);
        assert(false) by (nonlinear_arith)
            requires
                d == m * q,
                -m < d < m,
                d != 0,
                m > 0,
        ;
    }
}

/// Whether `(x, y)` satisfies the curve equation of `a` and `b`, computed with
/// the field's own operations.
fn confirm_on_curve(x: FieldElement, y: FieldElement, a: FieldElement, b: FieldElement) -> (r:
    Result<bool, EccError>)
    requires
        x.prime > 0,
        y.prime > 0,
        a.prime > 0,
    ensures
        r == (if a.prime != x.prime || b.prime != x.prime {
            Err(EccError::MismatchedField)
        } else {
            Ok(y.prime == x.prime && on_curve(a, b, x, y))
        }),
{
    let y_side = y.power_(2);
    let x_3 = x.power_(3);
    let a_x = match a.mul(&x) {
        Ok(v) => v,
        Err(e) => return Err(e),
    };
    let x_3_a_x = x_3.add(&a_x).unwrap();
    let x_side = match x_3_a_x.add(&b) {
        Ok(v) => v,
        Err(e) => return Err(e),
    };
    proof {
        let p = x.prime as int;
        let (xn, yn, an, bn) = (x.number as int, y.number as int, a.number as int, b.number as int);
        lemma_small_powers(xn);
        lemma_small_powers(yn);
        FieldElement::lemma_of_wf(xn * xn * xn, x.prime);
        FieldElement::lemma_of_wf(an * xn, x.prime);
        FieldElement::lemma_of_wf(yn * yn, y.prime);
        FieldElement::lemma_of_wf(x_3.number + a_x.number, x.prime);
        FieldElement::lemma_of_wf(x_3_a_x.number + bn, x.prime);
        lemma_add_mod_noop(xn * xn * xn, an * xn, p);
        lemma_add_mod_noop_right(bn, xn * xn * xn + an * xn, p);
        assert(x_side.number == (xn * xn * xn + an * xn + bn) % p);
    }
    Ok(y_side == x_side)
}

/// The coordinates of a curve point: the point at infinity, or a finite point.
#[derive(Debug, Clone, Copy, PartialEq, Eq, Structural)]
pub enum Coordinates {
    Identity,
    Finite { x: FieldElement, y: FieldElement },
}

/// A curve point as plain values: the curve parameters and where it lies.
pub struct PointView {
    pub a: FieldElement,
    pub b: FieldElement,
    pub coords: Coordinates,
}

impl PointView {
    /// Curve parameters are reduced, and a finite point lies on the curve, all
    /// in the one field.
    pub open spec fn valid(self) -> bool {
        &&& self.a.wf()
        &&& self.b.wf()
        &&& match self.coords {
            Coordinates::Identity => true,
            Coordinates::Finite { x, y } => {
                &&& x.wf()
                &&& y.wf()
                &&& self.b.prime == self.a.prime
                &&& x.prime == self.a.prime
                &&& y.prime == self.a.prime
                &&& on_curve(self.a, self.b, x, y)
            },
        }
    }

    /// The `x` coordinate, absent at infinity.
    pub open spec fn x_coordinate(self) -> Option<FieldElement> {
        match self.coords {
            Coordinates::Identity => None,
            Coordinates::Finite { x, y } => Some(x),
        }
    }

    /// The `y` coordinate, absent at infinity.
    pub open spec fn y_coordinate(self) -> Option<FieldElement> {
        match self.coords {
            Coordinates::Identity => None,
            Coordinates::Finite { x, y } => Some(y),
        }
    }

    /// The point at infinity of the curve of `a` and `b`.
    pub open spec fn identity(a: FieldElement, b: FieldElement) -> PointView {
        PointView { a, b, coords: Coordinates::Identity }
    }

    /// What construction from `a`, `b` and optional coordinates yields.
    pub open spec fn validated(
        a: FieldElement,
        b: FieldElement,
        x: Option<FieldElement>,
        y: Option<FieldElement>,
    ) -> Result<PointView, EccError> {
        match (x, y) {
            (None, None) => Ok(PointView::identity(a, b)),
            (Some(x), Some(y)) => if a.prime != x.prime || b.prime != x.prime {
                Err(EccError::MismatchedField)
            } else if y.prime == x.prime && on_curve(a, b, x, y) {
                Ok(PointView { a, b, coords: Coordinates::Finite { x, y } })
            } else {
                Err(EccError::InvalidPoint)
            },
            _ => Err(EccError::InvalidPoint),
        }
    }

    /// The chord through two finite points with different `x`, reflected.
    pub open spec fn chord(
        self,
        x1: FieldElement,
        y1: FieldElement,
        x2: FieldElement,
        y2: FieldElement,
    ) -> Result<PointView, EccError> {
        let slope = y2.minus(y1).over(x2.minus(x1));
        let x3 = slope.pow_of(2).minus(x1).minus(x2);
        let y3 = slope.times(x1.minus(x3)).minus(y1);
        PointView::validated(self.a, self.b, Some(x3), Some(y3))
    }

    /// The tangent at a finite point, reflected; fails where `2*y1` is zero.
    pub open spec fn tangent(self, x1: FieldElement, y1: FieldElement) -> Result<
        PointView,
        EccError,
    > {
        let p = x1.prime;
        let numerator = FieldElement::of(3, p).times(x1.pow_of(2)).plus(self.a);
        let denominator = FieldElement::of(2, p).times(y1);
        if denominator.number == 0 {
            Err(EccError::DivisionByZero)
        } else {
            let slope = numerator.over(denominator);
            let x3 = slope.pow_of(2).minus(FieldElement::of(2, p).times(x1));
            let y3 = slope.times(x1.minus(x3)).minus(y1);
            PointView::validated(self.a, self.b, Some(x3), Some(y3))
        }
    }

    /// The group law: what `self + other` is.
    pub open spec fn sum(self, other: PointView) -> Result<PointView, EccError> {
        if self.a != other.a || self.b != other.b {
            Err(EccError::MismatchedCurve)
        } else {
            match (self.coords, other.coords) {
                (Coordinates::Identity, _) => Ok(other),
                (_, Coordinates::Identity) => Ok(self),
                (Coordinates::Finite { x: x1, y: y1 }, Coordinates::Finite { x: x2, y: y2 }) => {
                    if x1 == x2 && y1 != y2 {
                        Ok(PointView::identity(self.a, self.b))
                    } else if x1 != x2 {
                        self.chord(x1, y1, x2, y2)
                    } else if y1.number == 0 {
                        Ok(PointView::identity(self.a, self.b))
                    } else {
                        self.tangent(x1, y1)
                    }
                },
            }
        }
    }
}

/// A point of the curve `y^2 = x^3 + a*x + b`, or the point at infinity. Only
/// construction makes one, so each is valid.
#[derive(Debug, Clone, Copy, PartialEq, Eq, Structural)]
pub struct PointField {
    a: FieldElement,
    b: FieldElement,
    coords: Coordinates,
}

impl View for PointField {
    type V = PointView;

    closed spec fn view(&self) -> PointView {
        PointView { a: self.a, b: self.b, coords: self.coords }
    }
}

/// A result with its point replaced by the point's view.
pub open spec fn viewed(r: Result<PointField, EccError>) -> Result<PointView, EccError> {
    match r {
        Ok(p) => Ok(p@),
        Err(e) => Err(e),
    }
}

impl PointField {
    #[verifier::type_invariant]
    closed spec fn inv(self) -> bool {
        self@.valid()
    }

    /// Builds a point, checking it against the curve; with neither coordinate
    /// it is the point at infinity.
    pub fn new(
        a: FieldElement,
        b: FieldElement,
        x: Option<FieldElement>,
        y: Option<FieldElement>,
    ) -> (r: Result<PointField, EccError>)
        requires
            a.wf(),
            b.wf(),
            x matches Some(v) ==> v.wf(),
            y matches Some(v) ==> v.wf(),
        ensures
            viewed(r) == PointView::validated(a, b, x, y),
    {
        match (x, y) {
            (None, None) => Ok(PointField { a, b, coords: Coordinates::Identity }),
            (Some(xv), Some(yv)) => {
                let on = match confirm_on_curve(xv, yv, a, b) {
                    Ok(on) => on,
                    Err(e) => return Err(e),
                };
                if on {
                    Ok(PointField { a, b, coords: Coordinates::Finite { x: xv, y: yv } })
                } else {
                    Err(EccError::InvalidPoint)
                }
            },
            _ => Err(EccError::InvalidPoint),
        }
    }

    /// The parameter `a` of the curve.
    pub fn a(&self) -> (r: FieldElement)
        ensures
            r == self@.a,
    {
        self.a
    }

    /// The parameter `b` of the curve.
    pub fn b(&self) -> (r: FieldElement)
        ensures
            r == self@.b,
    {
        self.b
    }

    /// The `x` coordinate, `None` at infinity.
    pub fn x(&self) -> (r: Option<FieldElement>)
        ensures
            r == self@.x_coordinate(),
    {
        match self.coords {
            Coordinates::Identity => None,
            Coordinates::Finite { x, y } => Some(x),
        }
    }

    /// The `y` coordinate, `None` at infinity.
    pub fn y(&self) -> (r: Option<FieldElement>)
        ensures
            r == self@.y_coordinate(),
    {
        match self.coords {
            Coordinates::Identity => None,
            Coordinates::Finite { x, y } => Some(y),
        }
    }

    /// Adds two points of one curve by the chord-and-tangent rule.
    pub fn add(&self, other: &PointField) -> (r: Result<PointField, EccError>)
        ensures
            viewed(r) == self@.sum(other@),
    {
        proof {
            use_type_invariant(self);
            use_type_invariant(other);
        }
        if self.a != other.a || self.b != other.b {
            return Err(EccError::MismatchedCurve);
        }
        let (x1, y1) = match self.coords {
            Coordinates::Identity => return Ok(*other),
            Coordinates::Finite { x, y } => (x, y),
        };
        let (x2, y2) = match other.coords {
            Coordinates::Identity => return Ok(*self),
            Coordinates::Finite { x, y } => (x, y),
        };
        if x1 == x2 && y1 != y2 {
            return Ok(PointField { a: self.a, b: self.b, coords: Coordinates::Identity });
        }
        let prime = x1.prime;
        if x1 != x2 {
            let sub_1 = y2.sub(&y1).unwrap();
            let sub_2 = x2.sub(&x1).unwrap();
            proof {
                FieldElement::lemma_of_wf(x2.number - x1.number, prime);
                lemma_small_nonzero_mod(x2.number - x1.number, prime as int);
                lemma_small_mod(sub_2.number as nat, prime as nat);
            }
            let slope = sub_1.div(&sub_2).unwrap();
            let x = slope.power_(2).sub(&x1).unwrap().sub(&x2).unwrap();
            let w = x1.sub(&x).unwrap();
            let y = slope.mul(&w).unwrap().sub(&y1).unwrap();
            proof {
                FieldElement::lemma_of_wf(slope.pow_of(2).minus(x1).number - x2.number, prime);
                FieldElement::lemma_of_wf(slope.times(w).number - y1.number, prime);
            }
            return PointField::new(self.a, self.b, Some(x), Some(y));
        }
        if y1.number == 0 {
            return Ok(PointField { a: self.a, b: self.b, coords: Coordinates::Identity });
        }
        let x_2 = x1.power_(2);
        let x_2_3 = FieldElement::new(3, prime).mul(&x_2).unwrap();
        let s_1 = x_2_3.add(&self.a).unwrap();
        let y_2 = FieldElement::new(2, prime).mul(&y1).unwrap();
        proof {
            FieldElement::lemma_of_wf(2 * y1.number, prime);
            lemma_small_mod(y_2.number as nat, prime as nat);
        }
        let slope = match s_1.div(&y_2) {
            Ok(v) => v,
            Err(e) => return Err(e),
        };
        let s_2 = slope.power_(2);
        let x_times_2 = FieldElement::new(2, prime).mul(&x1).unwrap();
        let x = s_2.sub(&x_times_2).unwrap();
        let y = slope.mul(&x1.sub(&x).unwrap()).unwrap().sub(&y1).unwrap();
        proof {
            FieldElement::lemma_of_wf(s_2.number - x_times_2.number, prime);
            FieldElement::lemma_of_wf(slope.times(x1.minus(x)).number - y1.number, prime);
        }
        PointField::new(self.a, self.b, Some(x), Some(y))
    }
}

/// The point at infinity is neutral on either side.
pub proof fn lemma_identity_neutral(p: PointView)
    requires
        p.valid(),
    ensures
        PointView::identity(p.a, p.b).sum(p) == Ok::<PointView, EccError>(p),
        p.sum(PointView::identity(p.a, p.b)) == Ok::<PointView, EccError>(p),
{
}

/// A point plus its reflection `(x, -y)` is the point at infinity, over a
/// field of odd order.
pub proof fn lemma_inverse(p: PointView)
    requires
        p.valid(),
        p.a.prime % 2 == 1,
    ensures
        match p.coords {
            Coordinates::Identity => p.sum(p) == Ok::<PointView, EccError>(
                PointView::identity(p.a, p.b),
            ),
            Coordinates::Finite { x, y } => {
                let neg = PointView::validated(
                    p.a,
                    p.b,
                    Some(x),
                    Some(FieldElement::of(-y.number, y.prime)),
                );
                &&& neg is Ok
                &&& p.sum(neg->Ok_0) == Ok::<PointView, EccError>(PointView::identity(p.a, p.b))
            },
        },
{
    match p.coords {
        Coordinates::Identity => {},
        Coordinates::Finite { x, y } => {
            let m = y.prime as int;
            let yn = y.number as int;
            let ny = FieldElement::of(-yn, y.prime);
            FieldElement::lemma_of_wf(-yn, y.prime);
            lemma_mul_mod_noop(-yn, -yn, m);
            assert((-yn) * (-yn) == yn * yn) by (nonlinear_arith);
            assert(on_curve(p.a, p.b, x, ny));
            if yn == 0 {
                lemma_small_mod(0, m as nat);
                assert(ny == y);
            } else {
                lemma_mod_multiples_vanish(1, -yn, m);
                lemma_small_mod((m - yn) as nat, m as nat);
                assert(ny.number == m - yn);
                assert(ny != y);
            }
        },
    }
}

/// Rebuilding a point from its own parameters and coordinates gives it back.
pub proof fn lemma_revalidate(p: PointView)
    requires
        p.valid(),
    ensures
        PointView::validated(p.a, p.b, p.x_coordinate(), p.y_coordinate()) == Ok::<
            PointView,
            EccError,
        >(p),
{
}

} // verus!
