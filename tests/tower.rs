use qm31_tower::cm31::{CM31, ORDER as CM31_ORDER, TWO_ADICITY as CM31_TWO_ADICITY};
use qm31_tower::error::FieldError;
use qm31_tower::m31::{M31, P};
use qm31_tower::qm31::{QM31, ORDER, TWO_ADICITY};

fn m(v: u32) -> M31 {
    M31::new(v)
}

fn c(re: u32, im: u32) -> CM31 {
    CM31::new(m(re), m(im))
}

fn q(a: u32, b: u32, x: u32, y: u32) -> QM31 {
    QM31::new(c(a, b), c(x, y))
}

fn coords(x: &QM31) -> Vec<u32> {
    x.as_base_slice().iter().map(|v| v.as_canonical_u32()).collect()
}

#[test]
fn base_field_reduces_and_wraps() {
    assert_eq!(M31::new(P).as_canonical_u32(), 0);
    assert_eq!(M31::new(P + 5).as_canonical_u32(), 5);
    assert_eq!(M31::from_wrapped_u64(u64::MAX).as_canonical_u32(), (u64::MAX % (P as u64)) as u32);
    assert_eq!(m(P - 1).add(m(3)).as_canonical_u32(), 2);
    assert_eq!(m(2).sub(m(5)).as_canonical_u32(), P - 3);
    assert_eq!(m(0).neg().as_canonical_u32(), 0);
    assert_eq!(m(7).neg().as_canonical_u32(), P - 7);
    assert_eq!(m(P - 1).mul(m(P - 1)).as_canonical_u32(), 1);
}

#[test]
fn base_field_inverse_of_two() {
    let inv = m(2).try_inverse().unwrap();
    assert_eq!(inv.as_canonical_u32(), 1_073_741_824);
    assert_eq!(m(2).mul(inv), M31::one());
    assert_eq!(m(0).try_inverse(), Err(FieldError::DivisionByZero));
}

#[test]
fn quadratic_scenario_add_and_mul() {
    let a = c(3, 4);
    let b = c(1, 2);
    assert_eq!(a.add(b), c(4, 6));
    assert_eq!(a.mul(b), c(P - 5, 10));
}

#[test]
fn quartic_scenario_coordinates() {
    let a = q(1, 0, 0, 1);
    assert_eq!(coords(&a), vec![1, 0, 0, 1]);
    let back = QM31::from_base_slice(&[m(1), m(0), m(0), m(1)]).unwrap();
    assert_eq!(back, a);
    assert_eq!(back.re, c(1, 0));
    assert_eq!(back.im, c(0, 1));
}

#[test]
fn quadratic_scenario_inverse() {
    let a = c(3, 4);
    let inv = a.try_inverse().unwrap();
    assert_eq!(a.mul(inv), c(1, 0));
}

#[test]
fn quartic_inverse_and_division() {
    let a = q(1, 2, 3, 4);
    let inv = a.try_inverse().unwrap();
    assert_eq!(a.mul(inv), QM31::one());
    let b = q(5, 6, 7, 8);
    let quotient = b.div(a).unwrap();
    assert_eq!(quotient.mul(a), b);
}

#[test]
fn inverse_of_zero_fails_at_every_level() {
    assert_eq!(M31::zero().try_inverse(), Err(FieldError::DivisionByZero));
    assert_eq!(CM31::zero().try_inverse(), Err(FieldError::DivisionByZero));
    assert_eq!(QM31::zero().try_inverse(), Err(FieldError::DivisionByZero));
    assert_eq!(QM31::one().div(QM31::zero()), Err(FieldError::DivisionByZero));
}

#[test]
fn quartic_product_exact_value() {
    let a = q(1, 2, 3, 4);
    let b = q(5, 6, 7, 8);
    assert_eq!(coords(&a.mul(b)), vec![2147483566, 109, 2147483629, 60]);
    let mut x = a;
    x.mul_assign(b);
    assert_eq!(x, a.mul(b));
}

#[test]
fn quartic_field_axioms_on_values() {
    let a = q(1, 2, 3, 4);
    let b = q(5, 6, 7, 8);
    let d = q(P - 1, 9, 0, P - 2);
    assert_eq!(a.add(b), b.add(a));
    assert_eq!(a.add(b).add(d), a.add(b.add(d)));
    assert_eq!(a.mul(b.add(d)), a.mul(b).add(a.mul(d)));
    assert_eq!(a.add(a.neg()), QM31::zero());
    assert_eq!(a.mul(b), b.mul(a));
    assert_eq!(a.mul(b).mul(d), a.mul(b.mul(d)));
    assert_eq!(a.sub(b), a.add(b.neg()));
}

#[test]
fn quadratic_field_axioms_on_values() {
    let a = c(3, 4);
    let b = c(P - 1, 2);
    let d = c(10, P - 10);
    assert_eq!(a.add(b), b.add(a));
    assert_eq!(a.add(b).add(d), a.add(b.add(d)));
    assert_eq!(a.mul(b.add(d)), a.mul(b).add(a.mul(d)));
    assert_eq!(a.add(a.neg()), CM31::zero());
}

#[test]
fn round_trip_through_coordinates() {
    let v = [m(11), m(P - 1), m(0), m(12345)];
    let x = QM31::from_base_slice(&v).unwrap();
    assert_eq!(x.as_base_slice(), v.to_vec());
    let y = q(9, 8, 7, 6);
    assert_eq!(QM31::from_base_slice(&y.as_base_slice()).unwrap(), y);
    let z = CM31::from_base_slice(&[m(4), m(5)]).unwrap();
    assert_eq!(z.as_base_slice(), vec![m(4), m(5)]);
}

#[test]
fn wrong_coordinate_length_is_a_shape_mismatch() {
    assert_eq!(QM31::from_base_slice(&[m(1), m(2), m(3)]), Err(FieldError::ShapeMismatch));
    assert_eq!(QM31::from_base_slice(&[m(1); 5]), Err(FieldError::ShapeMismatch));
    assert_eq!(QM31::from_base_slice(&[]), Err(FieldError::ShapeMismatch));
    assert_eq!(CM31::from_base_slice(&[m(1)]), Err(FieldError::ShapeMismatch));
}

#[test]
fn base_embedding_respects_products() {
    let b1 = m(123_456);
    let b2 = m(P - 2);
    assert_eq!(QM31::from_base(b1).mul(QM31::from_base(b2)), QM31::from_base(b1.mul(b2)));
    assert_eq!(CM31::from_base(b1).mul(CM31::from_base(b2)), CM31::from_base(b1.mul(b2)));
    assert_eq!(QM31::from_base(b1), QM31::from(b1));
    assert_eq!(QM31::from_complex(c(1, 2)), QM31::from(c(1, 2)));
    assert_eq!(q(1, 2, 3, 4).mul_base(b1), q(1, 2, 3, 4).mul(QM31::from_base(b1)));
}

#[test]
fn frobenius_fixes_base_and_is_an_involution() {
    let b = QM31::from_base(m(77));
    assert_eq!(b.frobenius(), b);
    let a = q(1, 2, 3, 4);
    assert_eq!(a.frobenius(), q(1, 2, P - 3, P - 4));
    assert_eq!(a.frobenius().frobenius(), a);
    let z = c(5, 6);
    assert_eq!(z.frobenius(), c(5, P - 6));
    assert_eq!(z.frobenius().frobenius(), z);
    assert_eq!(CM31::from_base(m(9)).frobenius(), CM31::from_base(m(9)));
    let x = q(5, 6, 7, 8);
    assert_eq!(a.mul(x).frobenius(), a.frobenius().mul(x.frobenius()));
}

#[test]
fn norms_are_multiplicative() {
    let a = q(1, 2, 3, 4);
    let b = q(5, 6, 7, 8);
    assert_eq!(a.norm().as_canonical_u32(), 2594);
    assert_eq!(b.norm().as_canonical_u32(), 39362);
    assert_eq!(a.mul(b).norm().as_canonical_u32(), 102_105_028);
    assert_eq!(a.mul(b).norm(), a.norm().mul(b.norm()));
    let x = c(3, 4);
    let y = c(1, 2);
    assert_eq!(x.norm().as_canonical_u32(), 25);
    assert_eq!(x.mul(y).norm(), x.norm().mul(y.norm()));
}

#[test]
fn two_adic_generators() {
    assert_eq!(TWO_ADICITY, 33);
    assert_eq!(QM31::order(), ORDER);
    assert_eq!(QM31::two_adic_generator(0).unwrap(), QM31::one());
    assert_eq!(QM31::two_adic_generator(1).unwrap(), QM31::neg_one());
    let g = QM31::two_adic_generator(33).unwrap();
    assert_eq!(coords(&g), vec![0, 0, 167_564_260, 274_353_454]);
    assert_eq!(g.exp_u128(1u128 << 32), QM31::neg_one());
    assert_eq!(g.exp_u128(1u128 << 33), QM31::one());
    assert_eq!(QM31::two_adic_generator(34), Err(FieldError::UnsupportedOrder));
    assert_eq!(QM31::two_adic_generator(usize::MAX), Err(FieldError::UnsupportedOrder));
}

#[test]
fn exponentiation_small_powers() {
    let a = q(1, 2, 3, 4);
    assert_eq!(a.exp_u128(0), QM31::one());
    assert_eq!(a.exp_u128(1), a);
    assert_eq!(a.exp_u128(5), a.mul(a).mul(a).mul(a).mul(a));
    assert_eq!(QM31::generator(), q(6, 0, 1, 0));
}

#[test]
fn sums_and_products() {
    let a = q(1, 2, 3, 4);
    let b = q(5, 6, 7, 8);
    assert_eq!(QM31::sum(&[]), QM31::zero());
    assert_eq!(QM31::product(&[]), QM31::one());
    assert_eq!(QM31::sum(&[a, b, a]), a.add(b).add(a));
    assert_eq!(QM31::product(&[a, b, a]), a.mul(b).mul(a));
}

#[test]
fn base_scalar_operations_touch_only_their_coordinates() {
    let a = q(1, 2, 3, 4);
    assert_eq!(a.add_base(m(P - 1)), q(0, 2, 3, 4));
    assert_eq!(a.sub_base(m(2)), q(P - 1, 2, 3, 4));
    let mut x = a;
    x.mul_base_assign(m(3));
    assert_eq!(x, q(3, 6, 9, 12));
    let mut y = a;
    y.add_assign(a);
    assert_eq!(y, QM31::two().mul(a));
    y.sub_assign(a);
    assert_eq!(y, a);
}

#[test]
fn small_constructors() {
    assert_eq!(QM31::from_bool(true), QM31::one());
    assert_eq!(QM31::from_bool(false), QM31::zero());
    assert_eq!(QM31::from_canonical_u32(5), QM31::from_base(m(5)));
    assert_eq!(QM31::from_wrapped_u32(P + 1), QM31::one());
    assert_eq!(QM31::from_wrapped_u64(2 * (P as u64) + 2), QM31::two());
    assert!(QM31::zero().is_zero());
    assert!(!QM31::one().is_zero());
    assert_eq!(QM31::neg_one().add(QM31::one()), QM31::zero());
}

#[test]
fn from_base_fn_fills_coordinates_in_order() {
    let x = QM31::from_base_fn(|i| M31::new(i as u32 + 1));
    assert_eq!(x, q(1, 2, 3, 4));
}

#[test]
fn division_at_base_and_quadratic_levels() {
    assert_eq!(m(10).div(m(5)).unwrap(), m(2));
    assert_eq!(m(1).div(m(2)).unwrap().as_canonical_u32(), 1_073_741_824);
    assert_eq!(m(3).div(m(0)), Err(FieldError::DivisionByZero));
    let a = c(3, 4);
    let b = c(1, 2);
    assert_eq!(a.mul(b).div(b).unwrap(), a);
    assert_eq!(a.div(CM31::zero()), Err(FieldError::DivisionByZero));
}

#[test]
fn quadratic_two_adic_generators() {
    assert_eq!(CM31_TWO_ADICITY, 32);
    assert_eq!(CM31::order(), CM31_ORDER);
    assert_eq!(CM31::order(), (P as u64) * (P as u64));
    assert_eq!(CM31::generator(), c(12, 1));
    assert_eq!(CM31::two_adic_generator(0).unwrap(), CM31::one());
    assert_eq!(CM31::two_adic_generator(1).unwrap(), c(P - 1, 0));
    let g = CM31::two_adic_generator(32).unwrap();
    assert_eq!(g, c(1_166_849_849, 1_117_296_306));
    assert_eq!(g.exp_u64(1u64 << 31), c(P - 1, 0));
    assert_eq!(g.exp_u64(1u64 << 32), CM31::one());
    assert_eq!(CM31::two_adic_generator(33), Err(FieldError::UnsupportedOrder));
}
