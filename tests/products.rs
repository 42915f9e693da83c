use clifford::{cga, pga, vga, Clifford, Multivector};

fn mv(sig: Clifford, coeffs: Vec<i64>) -> Multivector {
    Multivector::from_coefficients(sig, coeffs).unwrap()
}

fn coeffs(m: &Multivector) -> Vec<i64> {
    m.coefficients().clone()
}

fn basis(sig: Clifford, slot: usize) -> Multivector {
    let mut c = vec![0; sig.size()];
    c[slot] = 1;
    mv(sig, c)
}

#[test]
fn construction_checks_length() {
    let sig = pga(1);
    assert!(Multivector::from_coefficients(sig, vec![1, 2, 3]).is_none());
    assert!(Multivector::from_coefficients(sig, vec![1, 2, 3, 4, 5]).is_none());
    let m = mv(sig, vec![1, 2, 3, 4]);
    assert_eq!(m.signature(), sig);
    assert_eq!(m.into_coefficients(), vec![1, 2, 3, 4]);
    let z = Multivector::zero_of(clifford::sta());
    assert_eq!(z.into_coefficients(), vec![0; 16]);
}

#[test]
fn addition_identity_and_associativity() {
    let sig = pga(1);
    let x = mv(sig, vec![1, -2, 3, 4]);
    let y = mv(sig, vec![5, 6, -7, 8]);
    let z = mv(sig, vec![-9, 10, 11, -12]);
    let zero = Multivector::zero_of(sig);
    assert_eq!(coeffs(&x.add(&zero)), vec![1, -2, 3, 4]);
    let left = x.add(&y).add(&z);
    let right = x.add(&y.add(&z));
    assert_eq!(coeffs(&left), vec![-3, 14, 7, 0]);
    assert_eq!(coeffs(&left), coeffs(&right));
    assert_eq!(coeffs(&x.add(&y)), coeffs(&y.add(&x)));
}

#[test]
fn scalar_goes_to_the_first_slot() {
    let sig = vga(2);
    let x = mv(sig, vec![1, 2, 3, 4]);
    assert_eq!(coeffs(&x.add_scalar(-5)), vec![-4, 2, 3, 4]);
}

#[test]
fn negative_generator_squares_to_minus_one() {
    let sig = cga(0);
    let e = mv(sig, vec![0, 7]);
    assert_eq!(e.inner_product(&e), -49);
    let x = mv(sig, vec![3, 7]);
    assert_eq!(x.inner_product(&x), 9 - 49);
    assert_eq!(coeffs(&basis(sig, 1).mul(&basis(sig, 1))), vec![-1, 0]);
}

#[test]
fn null_blades_do_not_pair() {
    let sig = pga(1);
    let a = mv(sig, vec![0, 0, 5, -3]);
    let b = mv(sig, vec![1, 2, 3, 4]);
    assert_eq!(a.inner_product(&b), 0);
    assert_eq!(b.inner_product(&a), 0);
    assert_eq!(b.inner_product(&b), 1 + 4);
}

#[test]
fn inner_product_signs() {
    let sig = clifford::sta();
    let mut c = vec![0; 16];
    c[0] = 2;
    c[1] = 3;
    c[2] = 5;
    c[15] = 7;
    let x = mv(sig, c);
    assert_eq!(x.inner_product(&x), 4 + 9 - 25 - 49);
}

#[test]
fn outer_product_of_vectors_is_antisymmetric() {
    let sig = vga(3);
    let e0 = basis(sig, 1);
    let e2 = basis(sig, 3);
    let ab = coeffs(&e0.outer_product(&e2));
    let ba = coeffs(&e2.outer_product(&e0));
    assert_eq!(ab, vec![0, 0, 0, 0, 0, 1, 0, 0]);
    let negated: Vec<i64> = ba.iter().map(|c| -c).collect();
    assert_eq!(ab, negated);
    assert_eq!(coeffs(&e0.outer_product(&e0)), vec![0; 8]);
}

#[test]
fn outer_product_with_shared_generators() {
    let sig = vga(2);
    let e1 = basis(sig, 1);
    let e12 = basis(sig, 3);
    assert_eq!(coeffs(&e1.outer_product(&e12)), vec![0, 0, 1, 0]);
    let sig = cga(1);
    let e2 = basis(sig, 2);
    let e12 = basis(sig, 3);
    assert_eq!(coeffs(&e2.outer_product(&e12)), vec![0, 1, 0, 0]);
}

#[test]
fn simple_quat() {
    // coefficients in hundredths
    let sig = cga(1);
    let u = mv(sig, vec![-25, 0, -70, 0]);
    let v = mv(sig, vec![100, 0, 0, 30]);
    let ours = u.mul(&v);
    assert_eq!(coeffs(&ours), vec![-2500, -2100, -7000, -750]);
}

#[test]
fn projective_product_scenario() {
    // coefficients in hundredths
    let sig = pga(3);
    assert_eq!(sig.dim(), 4);
    assert_eq!(sig.size(), 16);
    let mut u = vec![0; 16];
    u[0] = -25;
    u[2] = -70;
    let mut v = vec![0; 16];
    v[0] = 100;
    v[3] = 30;
    let ours = mv(sig, u).mul(&mv(sig, v));
    let mut expected = vec![0; 16];
    expected[0] = -2500;
    expected[2] = -7000;
    expected[3] = -750;
    expected[7] = -2100;
    assert_eq!(coeffs(&ours), expected);
}

#[test]
fn product_is_outer_plus_inner() {
    let sig = clifford::sta();
    let x = mv(sig, (0..16).map(|i| i - 7).collect());
    let y = mv(sig, (0..16).map(|i| 3 * i % 5 - 2).collect());
    let outer = x.outer_product(&y);
    let inner = x.inner_product(&y);
    assert_eq!(coeffs(&outer)[0], 0);
    assert_eq!(coeffs(&x.mul(&y)), coeffs(&outer.add_scalar(inner)));
}

#[test]
fn multiplication_bounds() {
    let sig = vga(1);
    let big = mv(sig, vec![i64::MAX, 0]);
    let one = mv(sig, vec![1, 0]);
    let two = mv(sig, vec![2, 0]);
    assert!(big.can_multiply(&one));
    assert_eq!(big.inner_product(&one), i64::MAX);
    assert_eq!(coeffs(&big.mul(&one)), vec![i64::MAX, 0]);
    assert!(!big.can_multiply(&two));
    let low = mv(sig, vec![i64::MIN, 0]);
    assert!(!low.can_multiply(&one));
    let zero = Multivector::zero_of(sig);
    assert!(low.can_multiply(&zero));
    let spread = mv(sig, vec![3, -4]);
    assert!(spread.can_multiply(&spread));
    let other = Multivector::zero_of(vga(2));
    assert!(!zero.can_multiply(&other));
}

#[test]
fn addition_bounds() {
    let sig = vga(1);
    let big = mv(sig, vec![i64::MAX, 5]);
    let one = mv(sig, vec![1, 0]);
    let minus = mv(sig, vec![-1, i64::MIN]);
    assert!(!big.can_add(&one));
    assert!(big.can_add(&minus));
    assert_eq!(coeffs(&big.add(&minus)), vec![i64::MAX - 1, i64::MIN + 5]);
    assert!(!minus.can_add(&minus));
    assert!(!one.can_add(&Multivector::zero_of(cga(0))));
}
