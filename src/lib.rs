//! Exact arithmetic in a prime field and the group law of points on an
//! elliptic curve `y^2 = x^3 + a*x + b` over such a field.
pub mod error;
pub mod field_element;
pub mod curve;
pub mod number_theory;
