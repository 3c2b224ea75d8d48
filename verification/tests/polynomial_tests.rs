use magic_pake::ot::bitmatrix::BitVector;
use magic_pake::ot::polynomial::{
    polynomial_acc, polynomial_eq, polynomial_mul, polynomial_new, polynomial_zero,
};

fn poly(word: u64) -> BitVector {
    BitVector::from_vec(vec![word])
}

fn product(a: &BitVector, b: &BitVector) -> BitVector {
    let mut dst = polynomial_new(a.len());
    polynomial_mul(&mut dst, a, b);
    dst
}

#[test]
fn new_polynomial_is_zero() {
    let p = polynomial_new(256);
    assert_eq!(p.len(), 256);
    assert!(polynomial_eq(&p, &BitVector::zeros(256)));
}

#[test]
fn product_over_gf2() {
    // (1 + x)(1 + x) = 1 + x^2
    assert!(polynomial_eq(&product(&poly(0b11), &poly(0b11)), &poly(0b101)));
    // (1 + x + x^3)(x + x^2) = x + x^3 + x^4 + x^5
    assert!(polynomial_eq(
        &product(&poly(0b1011), &poly(0b110)),
        &poly(0b111010)
    ));
    // the unit is neutral
    assert!(polynomial_eq(
        &product(&poly(1), &poly(0xdead_beef)),
        &poly(0xdead_beef)
    ));
}

#[test]
fn product_is_cut_off_at_the_length() {
    // x^63 * x = x^64, which a polynomial of 64 terms does not hold
    assert!(polynomial_eq(&product(&poly(1 << 63), &poly(0b10)), &poly(0)));
    // x^62 * (1 + x + x^2) keeps x^62 and x^63 only
    assert!(polynomial_eq(
        &product(&poly(1 << 62), &poly(0b111)),
        &poly(0b11 << 62)
    ));
}

#[test]
fn product_is_added_to_the_destination() {
    let mut dst = poly(0b1);
    polynomial_mul(&mut dst, &poly(0b11), &poly(0b11));
    assert!(polynomial_eq(&dst, &poly(0b100)));
}

#[test]
fn product_is_bilinear() {
    let a = poly(0x0123_4567_89ab_cdef);
    let b = poly(0xfedc_ba98_7654_3210);
    let c = poly(0x0f0f_1234_f0f0_4321);
    let mut b_plus_c = b.clone();
    polynomial_acc(&mut b_plus_c, &c);
    let mut sum = product(&a, &b);
    polynomial_acc(&mut sum, &product(&a, &c));
    assert!(polynomial_eq(&product(&a, &b_plus_c), &sum));
    let mut sum = product(&b, &a);
    polynomial_acc(&mut sum, &product(&c, &a));
    assert!(polynomial_eq(&product(&b_plus_c, &a), &sum));
    assert!(polynomial_eq(&product(&a, &b), &product(&b, &a)));
}

#[test]
fn accumulate_is_associative_and_commutative() {
    let a = poly(0x1111_2222_3333_4444);
    let b = poly(0x5555_6666_7777_8888);
    let c = poly(0x9999_aaaa_bbbb_cccc);
    let mut ab = a.clone();
    polynomial_acc(&mut ab, &b);
    let mut ba = b.clone();
    polynomial_acc(&mut ba, &a);
    assert!(polynomial_eq(&ab, &ba));
    assert!(polynomial_eq(&ab, &poly(0x1111_2222_3333_4444 ^ 0x5555_6666_7777_8888)));
    let mut left = ab.clone();
    polynomial_acc(&mut left, &c);
    let mut bc = b.clone();
    polynomial_acc(&mut bc, &c);
    let mut right = a.clone();
    polynomial_acc(&mut right, &bc);
    assert!(polynomial_eq(&left, &right));
}

#[test]
fn zero_clears_and_eq_sees_lengths() {
    let mut p = poly(0xffff);
    polynomial_zero(&mut p);
    assert!(polynomial_eq(&p, &poly(0)));
    assert_eq!(p.len(), 64);
    assert!(!polynomial_eq(&p, &BitVector::zeros(128)));
    assert!(!polynomial_eq(&poly(1), &poly(2)));
}

#[test]
fn product_of_wide_polynomials() {
    // x^100 * x^100 = x^200, within 256 terms
    let mut a_words = vec![0u64; 4];
    a_words[1] = 1 << 36;
    let mut expected = vec![0u64; 4];
    expected[3] = 1 << 8;
    let a = BitVector::from_vec(a_words);
    assert!(polynomial_eq(&product(&a, &a), &BitVector::from_vec(expected)));
}
