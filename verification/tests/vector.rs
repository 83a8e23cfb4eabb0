use l2vec::vector::Vector;

fn vec_of(xs: &[f32]) -> Vector {
    Vector::from_bits(xs.iter().map(|x| x.to_bits()).collect())
}

#[test]
fn equality_is_exact_and_element_wise() {
    let a = vec_of(&[1.0, 2.0, 3.0]);
    let b = vec_of(&[1.0, 2.0, 3.0]);
    let c = vec_of(&[1.0, 2.0, 4.0]);
    let d = vec_of(&[1.0, 2.0]);
    assert!(a == b);
    assert!(a != c);
    assert!(a != d);
}

#[test]
fn equality_distinguishes_signed_zero() {
    // bitwise comparison, no numeric tolerance: +0.0 and -0.0 differ
    let pos = vec_of(&[0.0]);
    let neg = vec_of(&[-0.0]);
    assert!(pos != neg);
}

#[test]
fn equal_vectors_hash_equally() {
    let a = vec_of(&[1.0, -2.5, 0.0, 3.25e7]);
    let b = vec_of(&[1.0, -2.5, 0.0, 3.25e7]);
    assert!(a == b);
    assert_eq!(a.hash_value(), b.hash_value());
}

#[test]
fn hash_depends_only_on_elements() {
    let a = vec_of(&[5.0, 6.0]);
    let cloned = a.clone();
    assert_eq!(a.hash_value(), cloned.hash_value());
}

#[test]
fn length_and_element_access() {
    let a = vec_of(&[9.5, -1.0]);
    assert_eq!(a.len(), 2);
    assert_eq!(a.get(0), 9.5f32.to_bits());
    assert_eq!(a.get(1), (-1.0f32).to_bits());
    assert_eq!(a.bits().len(), 2);
}
