use csvd::{csvd, matrix_mult, pinv, SvdError};
use num_complex::Complex32;

fn c(re: f32, im: f32) -> Complex32 {
    Complex32 { re, im }
}

fn sentinel(len: usize) -> Vec<Complex32> {
    (0..len).map(|k| c(k as f32 + 1.0, -(k as f32) - 2.0)).collect()
}

#[test]
fn rejects_n_less_than_one() {
    let mut a = sentinel(4);
    let mut s = sentinel(2);
    let mut u = sentinel(4);
    let mut v = sentinel(1);
    let r = csvd(&mut a, 2, 0, 0, 0, 0, &mut s, &mut u, &mut v);
    assert_eq!(r, Err(SvdError::NLessThanOne));
    assert_eq!(a, sentinel(4));
    assert_eq!(s, sentinel(2));
    assert_eq!(u, sentinel(4));
    assert_eq!(v, sentinel(1));
}

#[test]
fn rejects_n_over_capacity() {
    let mut a = sentinel(3);
    let mut s = sentinel(3);
    let mut u = sentinel(3);
    let mut v = sentinel(3);
    let r = csvd(&mut a, 200, 151, 0, 0, 0, &mut s, &mut u, &mut v);
    assert_eq!(r, Err(SvdError::NExceedsCapacity));
    assert_eq!(a, sentinel(3));
    assert_eq!(s, sentinel(3));
    assert_eq!(u, sentinel(3));
    assert_eq!(v, sentinel(3));
}

#[test]
fn rejects_m_less_than_one() {
    let mut a = sentinel(2);
    let mut s = sentinel(2);
    let mut u = sentinel(2);
    let mut v = sentinel(2);
    let r = csvd(&mut a, 0, 2, 0, 0, 0, &mut s, &mut u, &mut v);
    assert_eq!(r, Err(SvdError::MLessThanOne));
    assert_eq!(a, sentinel(2));
}

#[test]
fn rejects_m_less_than_n() {
    let mut a = sentinel(6);
    let mut s = sentinel(3);
    let mut u = sentinel(4);
    let mut v = sentinel(9);
    let r = csvd(&mut a, 2, 3, 0, 0, 0, &mut s, &mut u, &mut v);
    assert_eq!(r, Err(SvdError::MLessThanN));
    assert_eq!(a, sentinel(6));
    assert_eq!(s, sentinel(3));
}

#[test]
fn pinv_propagates_dimension_errors() {
    let mut a = sentinel(4);
    let mut inv = sentinel(4);
    assert_eq!(pinv(&mut a, &mut inv, 2, 0), Err(SvdError::NLessThanOne));
    assert_eq!(pinv(&mut a, &mut inv, 200, 151), Err(SvdError::NExceedsCapacity));
    assert_eq!(pinv(&mut a, &mut inv, 0, 2), Err(SvdError::MLessThanOne));
    assert_eq!(pinv(&mut a, &mut inv, 2, 3), Err(SvdError::MLessThanN));
    assert_eq!(a, sentinel(4));
    assert_eq!(inv, sentinel(4));
}

#[test]
fn error_messages() {
    assert_eq!(SvdError::NLessThanOne.message(), "Fatal Error = Input N < 1");
    assert_eq!(SvdError::NExceedsCapacity.message(), "Fatal Error: NBIG < N");
    assert_eq!(SvdError::MLessThanOne.message(), "Fatal Error: Input M < 1");
    assert_eq!(SvdError::MLessThanN.message(), "Fatal Error: M < N");
}

#[test]
fn matrix_mult_rejects_mismatched_inner_dimensions() {
    let a = sentinel(6);
    let b = sentinel(6);
    let mut out = sentinel(4);
    let r = matrix_mult(&a, 2, 3, &b, 2, 3, &mut out);
    assert_eq!(r, Err("Matrix dimension not compatible!"));
    assert_eq!(out, sentinel(4));
}

#[test]
fn matrix_mult_accumulates_product() {
    // [[1, i], [2, 0]] * [[1, 1], [0, -i]]:
    // row 0: [1*1 + i*0, 1*1 + i*(-i)] = [1, 2]
    // row 1: [2*1 + 0*0, 2*1 + 0*(-i)] = [2, 2]
    let a = vec![c(1.0, 0.0), c(0.0, 1.0), c(2.0, 0.0), c(0.0, 0.0)];
    let b = vec![c(1.0, 0.0), c(1.0, 0.0), c(0.0, 0.0), c(0.0, -1.0)];
    let mut out = vec![c(0.0, 0.0); 4];
    matrix_mult(&a, 2, 2, &b, 2, 2, &mut out).unwrap();
    assert_eq!(out[0], c(1.0, 0.0));
    assert_eq!(out[1], c(2.0, 0.0));
    assert_eq!(out[2], c(2.0, 0.0));
    assert_eq!(out[3], c(2.0, 0.0));
}
