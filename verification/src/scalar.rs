//! The scalar type of the library and the trusted arithmetic on it.
//!
//! Every number in the library is a `num_complex::Complex32`. Verus treats
//! that type as opaque, so each operation on it goes through a small trusted
//! wrapper whose body makes one call into `num_complex`, `libm` or a
//! primitive float operation. Real quantities are carried as complex values
//! whose imaginary part is zero; the wrappers named `re_*` operate on the
//! real parts alone and return such a value.
//!
//! Each wrapper's result depends on its arguments alone, so each is fixed
//! by an uninterpreted name (`cx_add_of`, `re_sqrt_of`, ...). Nothing is
//! claimed about single-precision arithmetic itself; the names let every
//! caller's contract pin its outputs as functions of its inputs.

use vstd::prelude::*;

use num_complex::Complex32;
use num_traits::FromPrimitive;

verus! {

#[verifier::external_type_specification]
#[verifier::external_body]
#[verifier::reject_recursive_types(T)]
pub struct ExComplex<T>(num_complex::Complex<T>);

pub uninterp spec fn c32_of_u32(x: u32) -> Complex32;

pub uninterp spec fn cx_add_of(a: Complex32, b: Complex32) -> Complex32;

pub uninterp spec fn cx_sub_of(a: Complex32, b: Complex32) -> Complex32;

pub uninterp spec fn cx_mul_of(a: Complex32, b: Complex32) -> Complex32;

pub uninterp spec fn cx_neg_of(a: Complex32) -> Complex32;

pub uninterp spec fn cx_conj_of(a: Complex32) -> Complex32;

pub uninterp spec fn cx_scale_of(a: Complex32, t: Complex32) -> Complex32;

pub uninterp spec fn cx_unscale_of(a: Complex32, t: Complex32) -> Complex32;

pub uninterp spec fn re_part_of(a: Complex32) -> Complex32;

pub uninterp spec fn im_part_of(a: Complex32) -> Complex32;

pub uninterp spec fn re_add_of(a: Complex32, b: Complex32) -> Complex32;

pub uninterp spec fn re_sub_of(a: Complex32, b: Complex32) -> Complex32;

pub uninterp spec fn re_mul_of(a: Complex32, b: Complex32) -> Complex32;

pub uninterp spec fn re_div_of(a: Complex32, b: Complex32) -> Complex32;

pub uninterp spec fn re_neg_of(a: Complex32) -> Complex32;

pub uninterp spec fn re_max_of(a: Complex32, b: Complex32) -> Complex32;

pub uninterp spec fn re_sqrt_of(a: Complex32) -> Complex32;

pub uninterp spec fn re_powf_of(a: Complex32, b: Complex32) -> Complex32;

pub uninterp spec fn re_abs_of(a: Complex32) -> Complex32;

pub uninterp spec fn re_lt_of(a: Complex32, b: Complex32) -> bool;

pub uninterp spec fn re_le_of(a: Complex32, b: Complex32) -> bool;

pub uninterp spec fn re_eq_of(a: Complex32, b: Complex32) -> bool;

/// Relies on num_complex's `FromPrimitive::from_u32`, which embeds an
/// unsigned integer as the complex number `x + 0i` and never fails for a
/// single-precision component type.
#[verifier::external_body]
pub(crate) fn re_of_u32(x: u32) -> (r: Complex32)
    ensures
        r == c32_of_u32(x),
{
    Complex32::from_u32(x).unwrap()
}

/// Relies on num_complex's `Add for Complex<T>`: componentwise addition.
#[verifier::external_body]
pub(crate) fn cx_add(a: Complex32, b: Complex32) -> (r: Complex32)
    ensures
        r == cx_add_of(a, b),
{
    a + b
}

/// Relies on num_complex's `Sub for Complex<T>`: componentwise subtraction.
#[verifier::external_body]
pub(crate) fn cx_sub(a: Complex32, b: Complex32) -> (r: Complex32)
    ensures
        r == cx_sub_of(a, b),
{
    a - b
}

/// Relies on num_complex's `Mul for Complex<T>`: the usual complex product.
#[verifier::external_body]
pub(crate) fn cx_mul(a: Complex32, b: Complex32) -> (r: Complex32)
    ensures
        r == cx_mul_of(a, b),
{
    a * b
}

/// Relies on num_complex's `Neg for Complex<T>`: componentwise negation.
#[verifier::external_body]
pub(crate) fn cx_neg(a: Complex32) -> (r: Complex32)
    ensures
        r == cx_neg_of(a),
{
    -a
}

/// Relies on num_complex's `Complex::conj`: negates the imaginary part.
#[verifier::external_body]
pub(crate) fn cx_conj(a: Complex32) -> (r: Complex32)
    ensures
        r == cx_conj_of(a),
{
    a.conj()
}

/// Relies on num_complex's `Mul<T> for Complex<T>`: scales both components
/// of `a` by the real part of `t`.
#[verifier::external_body]
pub(crate) fn cx_scale(a: Complex32, t: Complex32) -> (r: Complex32)
    ensures
        r == cx_scale_of(a, t),
{
    a * t.re
}

/// Relies on num_complex's `Div<T> for Complex<T>`: divides both components
/// of `a` by the real part of `t`.
#[verifier::external_body]
pub(crate) fn cx_unscale(a: Complex32, t: Complex32) -> (r: Complex32)
    ensures
        r == cx_unscale_of(a, t),
{
    a / t.re
}

/// The real part of `a`, as a real value. Relies on num_complex's
/// `From<T> for Complex<T>`.
#[verifier::external_body]
pub(crate) fn re_part(a: Complex32) -> (r: Complex32)
    ensures
        r == re_part_of(a),
{
    Complex32::from(a.re)
}

/// The imaginary part of `a`, as a real value. Relies on num_complex's
/// `From<T> for Complex<T>`.
#[verifier::external_body]
pub(crate) fn im_part(a: Complex32) -> (r: Complex32)
    ensures
        r == im_part_of(a),
{
    Complex32::from(a.im)
}

/// Primitive single-precision addition of the real parts.
#[verifier::external_body]
pub(crate) fn re_add(a: Complex32, b: Complex32) -> (r: Complex32)
    ensures
        r == re_add_of(a, b),
{
    Complex32::from(a.re + b.re)
}

/// Primitive single-precision subtraction of the real parts.
#[verifier::external_body]
pub(crate) fn re_sub(a: Complex32, b: Complex32) -> (r: Complex32)
    ensures
        r == re_sub_of(a, b),
{
    Complex32::from(a.re - b.re)
}

/// Primitive single-precision multiplication of the real parts.
#[verifier::external_body]
pub(crate) fn re_mul(a: Complex32, b: Complex32) -> (r: Complex32)
    ensures
        r == re_mul_of(a, b),
{
    Complex32::from(a.re * b.re)
}

/// Primitive single-precision division of the real parts.
#[verifier::external_body]
pub(crate) fn re_div(a: Complex32, b: Complex32) -> (r: Complex32)
    ensures
        r == re_div_of(a, b),
{
    Complex32::from(a.re / b.re)
}

/// Primitive single-precision negation of the real part.
#[verifier::external_body]
pub(crate) fn re_neg(a: Complex32) -> (r: Complex32)
    ensures
        r == re_neg_of(a),
{
    Complex32::from(-a.re)
}

/// Relies on `f32::max` of the real parts.
#[verifier::external_body]
pub(crate) fn re_max(a: Complex32, b: Complex32) -> (r: Complex32)
    ensures
        r == re_max_of(a, b),
{
    Complex32::from(a.re.max(b.re))
}

/// Relies on `libm::sqrtf` applied to the real part.
#[verifier::external_body]
pub(crate) fn re_sqrt(a: Complex32) -> (r: Complex32)
    ensures
        r == re_sqrt_of(a),
{
    Complex32::from(libm::sqrtf(a.re))
}

/// Relies on `libm::powf` applied to the real parts.
#[verifier::external_body]
pub(crate) fn re_powf(a: Complex32, b: Complex32) -> (r: Complex32)
    ensures
        r == re_powf_of(a, b),
{
    Complex32::from(libm::powf(a.re, b.re))
}

/// Relies on `libm::fabsf` applied to the real part.
#[verifier::external_body]
pub(crate) fn re_abs(a: Complex32) -> (r: Complex32)
    ensures
        r == re_abs_of(a),
{
    Complex32::from(libm::fabsf(a.re))
}

/// Primitive single-precision comparison of the real parts.
#[verifier::external_body]
pub(crate) fn re_lt(a: Complex32, b: Complex32) -> (r: bool)
    ensures
        r == re_lt_of(a, b),
{
    a.re < b.re
}

/// Primitive single-precision comparison of the real parts.
#[verifier::external_body]
pub(crate) fn re_le(a: Complex32, b: Complex32) -> (r: bool)
    ensures
        r == re_le_of(a, b),
{
    a.re <= b.re
}

/// Primitive single-precision equality of the real parts.
#[verifier::external_body]
pub(crate) fn re_eq(a: Complex32, b: Complex32) -> (r: bool)
    ensures
        r == re_eq_of(a, b),
{
    a.re == b.re
}

/// The magnitude of a complex number: the square root of the sum of the
/// squared components, with the squares taken through `powf`.
pub open spec fn cabs_of(x: Complex32) -> Complex32 {
    re_sqrt_of(
        re_add_of(
            re_powf_of(re_part_of(x), c32_of_u32(2)),
            re_powf_of(im_part_of(x), c32_of_u32(2)),
        ),
    )
}

/// The magnitude of a complex number, computed exactly as the reduction
/// expects it.
pub(crate) fn cabs(x: Complex32) -> (r: Complex32)
    ensures
        r == cabs_of(x),
{
    let two = re_of_u32(2);
    re_sqrt(re_add(re_powf(re_part(x), two), re_powf(im_part(x), two)))
}

} // verus!
