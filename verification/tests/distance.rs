use l2vec::vector::Vector;
use l2vec::distance::l2_distance;
use l2vec::errors::DimensionMismatchError;
use l2vec::sqrt::sqrt_bits;

fn vec_of(xs: &[f32]) -> Vector {
    Vector::from_bits(xs.iter().map(|x| x.to_bits()).collect())
}

fn dist(a: &[f32], b: &[f32]) -> f32 {
    f32::from_bits(l2_distance(&vec_of(a), &vec_of(b)).expect("dimensions match"))
}

#[test]
fn three_four_five_triangle() {
    assert_eq!(dist(&[0.0, 0.0, 0.0], &[3.0, 4.0, 0.0]), 5.0);
}

#[test]
fn dimension_mismatch_reports_both_lengths() {
    let a = vec_of(&[1.0, 2.0, 3.0]);
    let b = vec_of(&[1.0, 2.0]);
    assert_eq!(l2_distance(&a, &b), Err(DimensionMismatchError { left: 3, right: 2 }));
}

#[test]
fn empty_vectors_have_zero_distance() {
    assert_eq!(dist(&[], &[]), 0.0);
}

#[test]
fn distance_is_symmetric() {
    let a = [1.25, -7.5, 0.1, 42.0];
    let b = [-3.0, 2.5, 9.75, 0.3];
    assert_eq!(dist(&a, &b), dist(&b, &a));
}

#[test]
fn distance_to_itself_is_zero() {
    let v = [0.1, -2.5, 1.0e20, -0.0, 1.0e-40];
    assert_eq!(dist(&v, &v), 0.0);
}

#[test]
fn distance_is_non_negative() {
    let cases: [([f32; 2], [f32; 2]); 3] = [
        ([1.0, 2.0], [-1.0, -2.0]),
        ([0.0, 0.0], [0.0, 0.0]),
        ([-5.5, 3.25], [7.75, -0.125]),
    ];
    for (a, b) in cases.iter() {
        let d = dist(a, b);
        assert!(d >= 0.0);
    }
}

#[test]
fn distance_matches_direct_formula() {
    let a = [1.0, 2.0, 3.0];
    let b = [4.0, 6.0, 3.0];
    // differences 3 and 4 again: exactly representable all the way
    assert_eq!(dist(&a, &b), 5.0);
    assert_eq!(dist(&[1.5], &[4.0]), 2.5);
}

#[test]
fn non_finite_elements_propagate_as_nan() {
    let d = dist(&[f32::INFINITY], &[f32::INFINITY]);
    assert!(d.is_nan());
    let d2 = dist(&[f32::NAN], &[0.0]);
    assert!(d2.is_nan());
}

#[test]
fn sqrt_matches_hardware_rounding() {
    let cases: [f32; 10] = [
        0.0, 1.0, 2.0, 0.5, 25.0, 1.0e-40, 3.4028235e38, 9.0, 1.0000001, 123456.789,
    ];
    for x in cases.iter() {
        assert_eq!(sqrt_bits(x.to_bits()), x.sqrt().to_bits(), "sqrt of {}", x);
    }
}

#[test]
fn sqrt_special_values() {
    assert_eq!(sqrt_bits((-0.0f32).to_bits()), (-0.0f32).to_bits());
    assert_eq!(sqrt_bits(f32::INFINITY.to_bits()), f32::INFINITY.to_bits());
    assert_eq!(sqrt_bits(f32::NAN.to_bits()), 0x7FC0_0000);
    assert_eq!(sqrt_bits((-4.0f32).to_bits()), 0x7FC0_0000);
}
