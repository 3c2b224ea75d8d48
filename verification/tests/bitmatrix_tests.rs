use magic_pake::ot::bitmatrix::{BitMatrix, BitVector, BLOCK_SIZE};

fn bits_of(v: &BitVector) -> Vec<bool> {
    (0..v.len()).map(|i| v.index(i)).collect()
}

fn matrix_bits(m: &BitMatrix) -> Vec<Vec<bool>> {
    (0..m.num_rows()).map(|r| bits_of(m.index(r))).collect()
}

#[test]
fn from_vec_starts_at_the_lowest_bit() {
    let v = BitVector::from_vec(vec![0b101, 1 << 63]);
    assert_eq!(v.len(), 2 * BLOCK_SIZE);
    assert!(v.index(0));
    assert!(!v.index(1));
    assert!(v.index(2));
    assert!(!v.index(64));
    assert!(v.index(127));
    let set = bits_of(&v).iter().filter(|b| **b).count();
    assert_eq!(set, 3);
}

#[test]
fn bytes_round_trip() {
    let bytes: Vec<u8> = vec![0x01, 0x80, 0xff, 0x00, 0x12, 0x34, 0x56, 0x78];
    let v = BitVector::from_bytes(bytes.clone());
    assert_eq!(v.len(), 64);
    assert!(v.index(0));
    assert!(!v.index(1));
    assert!(v.index(15));
    assert!(!v.index(14));
    for i in 16..24 {
        assert!(v.index(i));
    }
    assert_eq!(v.as_bytes(), bytes);
    assert!(v == BitVector::from_vec(vec![0x7856_3412_00ff_8001]));
}

#[test]
fn zeros_and_ones() {
    let z = BitVector::zeros(128);
    let o = BitVector::ones(128);
    assert_eq!(z.len(), 128);
    assert_eq!(o.len(), 128);
    assert!(bits_of(&z).iter().all(|b| !*b));
    assert!(bits_of(&o).iter().all(|b| *b));
    assert!(!z.is_empty());
    assert!(BitVector::zeros(0).is_empty());
    assert!(z != o);
}

#[test]
fn from_bits_keeps_order_and_length() {
    let bits = [true, false, false, true, true];
    let v = BitVector::from_bits(&bits);
    assert_eq!(v.len(), 5);
    assert_eq!(bits_of(&v), bits.to_vec());
}

#[test]
fn xor_and_and_are_bitwise() {
    let a = BitVector::from_vec(vec![0b1100]);
    let b = BitVector::from_vec(vec![0b1010]);
    assert!(a.clone().bitxor(b.clone()) == BitVector::from_vec(vec![0b0110]));
    assert!(a.clone().bitand(b.clone()) == BitVector::from_vec(vec![0b1000]));
    let mut c = a.clone();
    c.bitxor_assign(&b);
    assert!(c == BitVector::from_vec(vec![0b0110]));
    c.bitand_assign(&a);
    assert!(c == BitVector::from_vec(vec![0b0100]));
}

#[test]
fn xor_shifted_moves_bits_up_and_drops_the_rest() {
    let mut dst = BitVector::zeros(64);
    let src = BitVector::from_vec(vec![(1 << 63) | 0b11]);
    dst.xor_shifted(&src, 2);
    assert!(dst == BitVector::from_vec(vec![0b1100]));
    dst.xor_shifted(&src, 64);
    assert!(dst == BitVector::from_vec(vec![0b1100]));
}

#[test]
fn transpose_swaps_rows_and_columns() {
    let m = BitMatrix::new(vec![
        BitVector::from_bits(&[true, false, true]),
        BitVector::from_bits(&[false, false, true]),
    ]);
    assert_eq!(m.dims(), (2, 3));
    let t = m.transpose();
    assert_eq!(t.dims(), (3, 2));
    assert_eq!(
        matrix_bits(&t),
        vec![vec![true, false], vec![false, false], vec![true, true]]
    );
}

#[test]
fn transpose_twice_is_the_identity() {
    let rows: Vec<BitVector> = (0..5u64)
        .map(|r| BitVector::from_vec(vec![0x9e37_79b9_7f4a_7c15u64.wrapping_mul(r + 1), r]))
        .collect();
    let m = BitMatrix::new(rows);
    let back = m.transpose().transpose();
    assert_eq!(back.dims(), m.dims());
    assert_eq!(matrix_bits(&back), matrix_bits(&m));
    assert_eq!(m.transpose().dims(), (128, 5));
}

#[test]
fn transpose_of_a_single_bit() {
    let m = BitMatrix::new(vec![BitVector::from_bits(&[true])]);
    let t = m.transpose();
    assert_eq!(t.dims(), (1, 1));
    assert!(t.index(0).index(0));
}

#[test]
fn shape_check() {
    let m = BitMatrix::new(vec![BitVector::zeros(64), BitVector::zeros(128)]);
    assert!(!m.is_shaped(2, 64));
    assert!(!m.is_shaped(1, 64));
    let m = BitMatrix::new(vec![BitVector::zeros(64), BitVector::zeros(64)]);
    assert!(m.is_shaped(2, 64));
    assert_eq!(m.clone().into_rows().len(), 2);
}
