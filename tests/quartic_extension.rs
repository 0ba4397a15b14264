use qm31_tower::cm31::CM31;
use qm31_tower::m31::M31;
use qm31_tower::qm31::QM31;

fn get_quartic_extension_element() -> (M31, M31, M31, M31, CM31, CM31, QM31) {
    let a = M31::new(1);
    let b = M31::new(2);
    let c = M31::new(3);
    let d = M31::new(4);
    let real = CM31::new(a, b);
    let imaginary = CM31::new(c, d);
    let quartic_element = QM31::new(real, imaginary);
    (a, b, c, d, real, imaginary, quartic_element)
}

#[test]
fn test_can_multiply_with_base_field() {
    let factor = M31::new(2);
    let (a, b, c, d, _real, _imaginary, quartic_element) = get_quartic_extension_element();
    let expected_real = CM31::new(a.mul(factor), b.mul(factor));
    let expected_imaginary = CM31::new(c.mul(factor), d.mul(factor));
    let expected_result = QM31::new(expected_real, expected_imaginary);

    let multiplication = quartic_element.mul_base(factor);

    assert_eq!(multiplication, expected_result);
}

#[test]
fn test_can_subtract_with_base_field() {
    let factor = M31::new(1);
    let (_a, b, c, d, _real, _imaginary, quartic_element) = get_quartic_extension_element();

    let expected_real = CM31::new(M31::zero(), b);
    let expected_imaginary = CM31::new(c, d);
    let expected_result = QM31::new(expected_real, expected_imaginary);

    let subtraction = quartic_element.sub_base(factor);
    assert_eq!(subtraction, expected_result);
}

#[test]
fn test_can_subtract_assign_with_base_field() {
    let factor = M31::new(1);
    let (_a, b, c, d, _real, _imaginary, mut quartic_element) = get_quartic_extension_element();

    let expected_real = CM31::new(M31::zero(), b);
    let expected_imaginary = CM31::new(c, d);
    let expected_result = QM31::new(expected_real, expected_imaginary);

    quartic_element.sub_base_assign(factor);
    assert_eq!(quartic_element, expected_result);
}

#[test]
fn test_can_add_assign_with_base_field() {
    let factor = M31::new(1);
    let (_a, b, c, d, _, _, mut quartic_element) = get_quartic_extension_element();
    let expected_real = CM31::new(M31::new(2), b);
    let expected_imaginary = CM31::new(c, d);
    let expected_result = QM31::new(expected_real, expected_imaginary);

    quartic_element.add_base_assign(factor);

    assert_eq!(quartic_element, expected_result);
}

#[test]
fn test_can_instantiate_from_base_field() {
    let element = QM31::from(M31::new(1));

    let a = M31::new(1);
    let b = M31::new(0);
    let c = M31::new(0);
    let d = M31::new(0);
    let real = CM31::new(a, b);
    let imaginary = CM31::new(c, d);
    let expected_result = QM31::new(real, imaginary);

    assert_eq!(element, expected_result);
}
