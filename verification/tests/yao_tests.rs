use magic_pake::yao::{
    eq, prf, xor, yao_decode, yao_encode, yao_evaluate, yao_garble, yao_garble_with, zero,
    Circuit, Gate, GateKind, Primitive, Primitives,
};
use sha2::{Digest, Sha256};

fn gate(kind: GateKind, inputs: Vec<usize>, output: usize) -> Gate {
    Gate { kind, inputs, output }
}

/// (a AND b) OR (NOT c), with a, b, c on the wires 0, 1, 2.
fn sample_circuit() -> Circuit {
    Circuit {
        gates: vec![
            gate(GateKind::AND, vec![0, 1], 3),
            gate(GateKind::NOT, vec![2], 4),
            gate(GateKind::OR, vec![3, 4], 5),
        ],
        num_inputs: 3,
        num_outputs: 1,
        num_wires: 6,
    }
}

fn inputs_of(bits: usize, count: usize) -> Vec<bool> {
    (0..count).map(|i| (bits >> i) & 1 == 1).collect()
}

fn label(seed: u8) -> Primitive {
    let mut p = [0u8; 16];
    for i in 0..16 {
        p[i] = seed.wrapping_mul(31).wrapping_add(i as u8);
    }
    p
}

#[test]
fn plain_evaluation() {
    let c = sample_circuit();
    for bits in 0..8 {
        let x = inputs_of(bits, 3);
        let expected = (x[0] && x[1]) || !x[2];
        assert_eq!(c.evaluate(x), vec![expected]);
    }
    let xor = Circuit {
        gates: vec![gate(GateKind::XOR, vec![0, 1], 2)],
        num_inputs: 2,
        num_outputs: 2,
        num_wires: 3,
    };
    assert_eq!(xor.evaluate(vec![true, false]), vec![false, true]);
    assert_eq!(xor.evaluate(vec![true, true]), vec![true, false]);
    // wires without an input start as false
    assert_eq!(xor.evaluate(vec![true]), vec![false, true]);
}

#[test]
fn labels_xor_eq_zero() {
    let a = label(1);
    let b = label(2);
    let c = xor(a, b);
    for i in 0..16 {
        assert_eq!(c[i], a[i] ^ b[i]);
    }
    assert!(eq(xor(c, b), a));
    assert!(!eq(a, b));
    assert!(zero(xor(a, a)));
    assert!(!zero(a));
    assert!(zero([0u8; 16]));
    let mut last = [0u8; 16];
    last[15] = 1;
    assert!(!zero(last));
    assert!(!eq(last, [0u8; 16]));
}

#[test]
fn prf_hashes_labels_and_index() {
    let a = label(3);
    let b = label(4);
    let mut hasher = Sha256::new();
    hasher.update(a);
    hasher.update(b);
    hasher.update([0u8, 0, 1, 2]);
    let d = hasher.finalize();
    let (left, right) = prf(a, b, 258);
    for i in 0..16 {
        assert_eq!(left[i], d[i]);
        assert_eq!(right[i], d[16 - i]);
    }
    assert!(!eq(left, a));
    assert!(!eq(prf(a, b, 259).0, left));
}

#[test]
fn garbled_evaluation_agrees_with_plain_evaluation() {
    let c = sample_circuit();
    let garbled = yao_garble(&c);
    assert_eq!(garbled.e.len(), 3);
    assert_eq!(garbled.d.len(), 1);
    assert_eq!(garbled.f.len(), 6);
    for bits in 0..8 {
        let input = inputs_of(bits, 3);
        let x = yao_encode(&c, &garbled.e, &input);
        let evaluation = yao_evaluate(&c, &garbled.f, &x);
        assert!(evaluation.unmatched.is_empty());
        let (success, y) = yao_decode(&c, &garbled.d, &evaluation.z);
        assert!(success);
        assert_eq!(y, c.evaluate(input));
    }
}

#[test]
fn garbling_with_given_labels() {
    let c = Circuit {
        gates: vec![
            gate(GateKind::AND, vec![0, 1], 2),
            gate(GateKind::NOT, vec![2], 3),
        ],
        num_inputs: 2,
        num_outputs: 1,
        num_wires: 4,
    };
    let keys: Vec<Primitives> = (0..4).map(|i| [label(2 * i), label(2 * i + 1)]).collect();
    let garbled = yao_garble_with(&c, keys.clone(), &vec![1, 0]);
    assert_eq!(garbled.e, keys[..2].to_vec());
    // the labels of a negation are those of its input, swapped
    assert_eq!(garbled.d, vec![[keys[2][1], keys[2][0]]]);
    // the row for (true, false) stands at the place 2 + 1
    let (mask, tag) = prf(keys[0][1], keys[1][0], 2);
    assert_eq!(garbled.f[2][3], [xor(mask, keys[2][0]), tag]);
    // the row for (true, true) wraps round to the place 0
    let (mask, tag) = prf(keys[0][1], keys[1][1], 2);
    assert_eq!(garbled.f[2][0], [xor(mask, keys[2][1]), tag]);
    // gates without a table keep the zero table
    assert_eq!(garbled.f[3], [[[0u8; 16]; 2]; 4]);

    for bits in 0..4 {
        let input = inputs_of(bits, 2);
        let x = yao_encode(&c, &garbled.e, &input);
        assert_eq!(x[0], keys[0][input[0] as usize]);
        let evaluation = yao_evaluate(&c, &garbled.f, &x);
        let (success, y) = yao_decode(&c, &garbled.d, &evaluation.z);
        assert!(success);
        assert_eq!(y, vec![!(input[0] && input[1])]);
    }
}

#[test]
fn evaluation_reports_gates_without_a_match() {
    let c = Circuit {
        gates: vec![gate(GateKind::AND, vec![0, 1], 2)],
        num_inputs: 2,
        num_outputs: 1,
        num_wires: 3,
    };
    let keys: Vec<Primitives> = (0..3).map(|i| [label(2 * i), label(2 * i + 1)]).collect();
    let garbled = yao_garble_with(&c, keys.clone(), &vec![0]);
    // labels that the garbler never made
    let x = vec![label(100), label(101)];
    let evaluation = yao_evaluate(&c, &garbled.f, &x);
    assert_eq!(evaluation.unmatched, vec![2]);
    assert_eq!(evaluation.z, vec![[0u8; 16]]);
    let (success, y) = yao_decode(&c, &garbled.d, &evaluation.z);
    assert!(!success);
    assert_eq!(y, vec![false]);
}

#[test]
fn decoding_tells_the_two_labels_apart() {
    let c = Circuit {
        gates: vec![],
        num_inputs: 2,
        num_outputs: 2,
        num_wires: 2,
    };
    let d: Vec<Primitives> = vec![[label(1), label(2)], [label(3), label(4)]];
    assert_eq!(
        yao_decode(&c, &d, &vec![label(2), label(3)]),
        (true, vec![true, false])
    );
    assert_eq!(
        yao_decode(&c, &d, &vec![label(1), label(9)]),
        (false, vec![false, false])
    );
}
