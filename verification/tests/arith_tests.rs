use magic_pake::arith::{
    decode, encode, evaluate, garble, garble_with, hash, hash_wire, log2, lsb2, tau, Decoding,
    Encoding, NewCircuit, NewGate, NewGateKind, Wire,
};
use std::collections::HashMap;

fn garble_encode_eval_decode(c: &NewCircuit, x: &Vec<u64>) -> Vec<u64> {
    const SECURITY: u64 = 128;
    let g = garble(&c, SECURITY).unwrap();
    let x = encode(&g.e, x);
    let z = evaluate(c, &g.f, &x).unwrap();
    return decode(&g.d, &z).unwrap();
}

#[test]
fn encode_decode() {
    let id: usize = 0;
    let lambda = 8;
    let domain = 128;
    let mut map = HashMap::new();
    let delta = Wire::delta(domain, lambda);
    map.insert(domain, delta.clone());
    let wire = Wire::new(domain, lambda);
    let e = Encoding {
        wires: vec![wire.clone()],
        delta: map,
    };
    let hashes: Vec<u64> = (0..domain)
        .map(|k| hash(id as u64, k, &wire.add(&delta.mul(k))))
        .collect();
    let d = Decoding {
        domains: vec![domain],
        ids: vec![id],
        map: vec![hashes],
    };
    let input = vec![69];
    let x = encode(&e, &input);
    let y = decode(&d, &x).unwrap();
    assert_eq!(input, y)
}

#[test]
fn wire_arithmetic_is_residue_by_residue() {
    let a = Wire::from_values(10, 2, vec![3, 9, 10]);
    let b = Wire::from_values(10, 2, vec![8, 9, 0]);
    assert_eq!(a.add(&b).values(), &vec![1, 8, 0]);
    assert_eq!(a.sub(&b).values(), &vec![5, 0, 0]);
    assert_eq!(a.neg().values(), &vec![7, 1, 0]);
    assert_eq!(a.mul(7).values(), &vec![1, 3, 0]);
    assert_eq!(a.mul(u64::MAX).values(), &vec![5, 5, 0]);
    assert_eq!(a.add(&b).lambda(), 2);
    assert_eq!(a.add(&b).domain(), 10);
    assert_eq!(tau(&a), 10);
}

#[test]
fn sums_of_large_residues_do_not_wrap() {
    let m = u64::MAX - 1;
    let a = Wire::from_values(m, 0, vec![m - 1]);
    let b = Wire::from_values(m, 0, vec![m - 2]);
    assert_eq!(a.add(&b).values(), &vec![m - 3]);
    assert_eq!(a.mul(m - 1).values(), &vec![1]);
}

#[test]
fn wires_of_different_lengths_add_up_to_the_shorter() {
    let a = Wire::from_values(5, 1, vec![1, 2, 3]);
    let b = Wire::from_values(5, 1, vec![4, 4]);
    assert_eq!(a.add(&b).values(), &vec![0, 1]);
    assert_eq!(b.add(&a).values(), &vec![0, 1]);
}

#[test]
fn random_wires_have_the_shape_asked_for() {
    let w = Wire::new(7, 4);
    assert_eq!(w.values().len(), 5);
    assert!(w.values().iter().all(|v| *v <= 7));
    assert_eq!((w.lambda(), w.domain()), (4, 7));
    let d = Wire::delta(7, 4);
    assert_eq!(d.values().len(), 5);
    assert_eq!(d.values()[4], 1);
    assert_eq!(tau(&d), 1);
    let e = Wire::empty();
    assert_eq!((e.lambda(), e.domain(), e.values().len()), (0, 0, 0));
}

#[test]
fn hash_is_the_head_of_the_digest() {
    let w = Wire::from_values(3, 1, vec![2, 1]);
    let mut preimage = Vec::new();
    for n in [5u64, 6, 1, 3, 2, 1] {
        preimage.extend_from_slice(&n.to_be_bytes());
    }
    let d = ring::digest::digest(&ring::digest::SHA256, &preimage);
    let expected = u64::from_be_bytes(d.as_ref()[..8].try_into().unwrap());
    assert_eq!(hash(5, 6, &w), expected);
    assert!(hash(5, 7, &w) != expected);
}

#[test]
fn hash_wire_cuts_the_digest_into_residues() {
    let w = Wire::from_values(3, 1, vec![2, 1]);
    let target = Wire::from_values(1000, 3, vec![]);
    let mut preimage = Vec::new();
    for n in [1u64, 0, 1, 3, 2, 1] {
        preimage.extend_from_slice(&n.to_be_bytes());
    }
    let d = ring::digest::digest(&ring::digest::SHA256, &preimage);
    let d = d.as_ref();
    // a residue below 1000 takes ten bits, so two bytes
    let expected: Vec<u64> = (0..3)
        .map(|i| (d[2 * i] as u64 | (d[2 * i + 1] as u64) << 8) % 1000)
        .collect();
    let r = hash_wire(1, 0, &w, &target);
    assert_eq!(r.values(), &expected);
    assert_eq!((r.lambda(), r.domain()), (3, 1000));
}

#[test]
fn decode_fails_without_a_matching_hash() {
    let wire = Wire::from_values(4, 0, vec![1]);
    let d = Decoding {
        domains: vec![4],
        ids: vec![0],
        map: vec![(0..4).map(|k| hash(0, k, &wire).wrapping_add(1)).collect()],
    };
    let r = decode(&d, &vec![wire.clone()]);
    assert!(r.is_err());
    assert_eq!(r.unwrap_err().message(), "Error decoding result");
    // the least matching value is the one decoded
    let d = Decoding {
        domains: vec![4],
        ids: vec![0],
        map: vec![vec![0, hash(0, 1, &wire), hash(0, 2, &wire), 0]],
    };
    assert_eq!(decode(&d, &vec![wire]).unwrap(), vec![1]);
}

#[test]
fn small_helpers() {
    assert_eq!(log2(0), 0);
    assert_eq!(log2(1), 1);
    assert_eq!(log2(128), 8);
    assert_eq!(log2(255), 8);
    assert_eq!(log2(u64::MAX), 64);
    assert_eq!(lsb2(6), 0);
    assert_eq!(lsb2(7), 1);
}

#[test]
fn sum_circuit() {
    let domain = 128;
    let circuit = NewCircuit {
        gates: vec![NewGate {
            kind: NewGateKind::ADD,
            inputs: vec![0, 1],
            output: 2,
            domain: domain,
        }],
        num_inputs: 2,
        num_outputs: 1,
        num_wires: 3,
        input_domains: vec![domain, domain],
    };
    let inputs = vec![33, 66];
    let outputs = garble_encode_eval_decode(&circuit, &inputs);
    assert_eq!(outputs[0], 99);
}

#[test]
fn sum_multiple_circuit() {
    let domain = 128;
    let circuit = NewCircuit {
        gates: vec![NewGate {
            kind: NewGateKind::ADD,
            inputs: vec![0, 1, 2, 3, 4, 5, 6, 7, 8, 9],
            output: 10,
            domain: domain,
        }],
        num_inputs: 10,
        num_outputs: 1,
        num_wires: 11,
        input_domains: vec![domain; 10],
    };
    let inputs = vec![1, 1, 1, 1, 1, 1, 1, 1, 1, 1];
    let outputs = garble_encode_eval_decode(&circuit, &inputs);
    assert_eq!(outputs[0], 10, "Wrong result");
}

#[test]
fn mult_circuit() {
    let domain = 600;
    let circuit = NewCircuit {
        gates: vec![NewGate {
            kind: NewGateKind::MUL(9),
            inputs: vec![0],
            output: 1,
            domain: domain,
        }],
        num_inputs: 1,
        num_outputs: 1,
        num_wires: 2,
        input_domains: vec![domain, domain],
    };
    let inputs = vec![57];
    let outputs = garble_encode_eval_decode(&circuit, &inputs);
    assert_eq!(outputs[0], 9 * 57);
}

#[test]
fn proj_circuit_identity() {
    let target_domain = 8;
    let source_domain = 16;
    let phi = |x| x;
    let circuit = NewCircuit {
        gates: vec![NewGate {
            kind: NewGateKind::PROJ(target_domain, (0..=source_domain).map(phi).collect()),
            inputs: vec![0],
            output: 1,
            domain: source_domain,
        }],
        num_inputs: 1,
        num_outputs: 1,
        num_wires: 2,
        input_domains: vec![source_domain],
    };
    let input = vec![7];
    let output = garble_encode_eval_decode(&circuit, &input);
    assert_eq!(output[0], input[0]);
}

#[test]
fn proj_circuit_shl() {
    let target_domain = 64;
    let source_domain = 64;
    let phi = |x| (x * 2);
    let circuit = NewCircuit {
        gates: vec![NewGate {
            kind: NewGateKind::PROJ(target_domain, (0..=source_domain).map(phi).collect()),
            inputs: vec![0],
            output: 1,
            domain: source_domain,
        }],
        num_inputs: 1,
        num_outputs: 1,
        num_wires: 2,
        input_domains: vec![source_domain],
    };
    let input = vec![7];
    let output = garble_encode_eval_decode(&circuit, &input);
    assert_eq!(output[0], phi(input[0]));
}

#[test]
fn proj_circuit_shr() {
    let target_domain = 64;
    let source_domain = 64;
    let phi = |x| (x / 2);
    let circuit = NewCircuit {
        gates: vec![NewGate {
            kind: NewGateKind::PROJ(target_domain, (0..=source_domain).map(phi).collect()),
            inputs: vec![0],
            output: 1,
            domain: source_domain,
        }],
        num_inputs: 1,
        num_outputs: 1,
        num_wires: 2,
        input_domains: vec![source_domain],
    };
    let input = vec![7];
    let output = garble_encode_eval_decode(&circuit, &input);
    assert_eq!(output[0], phi(input[0]));
}

#[test]
fn circuits_that_cannot_be_garbled() {
    let gate = |kind, inputs, domain| NewGate { kind, inputs, output: 1, domain };
    let circuit = |g, input_domain| NewCircuit {
        gates: vec![g],
        num_inputs: 1,
        num_outputs: 1,
        num_wires: 2,
        input_domains: vec![input_domain],
    };
    // a gate that reads a wire that is not there yet
    assert!(garble(&circuit(gate(NewGateKind::MUL(2), vec![1], 8), 8), 128).is_none());
    // a gate without inputs
    assert!(garble(&circuit(gate(NewGateKind::ADD, vec![], 8), 8), 128).is_none());
    // an input whose domain no gate has
    assert!(garble(&circuit(gate(NewGateKind::MUL(2), vec![0], 8), 9), 128).is_none());
    // the domain 0
    assert!(garble(&circuit(gate(NewGateKind::MUL(2), vec![0], 0), 0), 128).is_none());
    // a table that is too short
    assert!(garble(&circuit(gate(NewGateKind::PROJ(8, vec![0, 1]), vec![0], 8), 8), 128).is_none());
    assert!(garble(&circuit(gate(NewGateKind::MUL(2), vec![0], 8), 8), 128).is_some());
}

#[test]
fn garbling_from_given_offsets_and_labels() {
    let circuit = NewCircuit {
        gates: vec![
            NewGate { kind: NewGateKind::MUL(3), inputs: vec![0], output: 2, domain: 5 },
            NewGate { kind: NewGateKind::ADD, inputs: vec![1, 2], output: 3, domain: 5 },
        ],
        num_inputs: 2,
        num_outputs: 1,
        num_wires: 4,
        input_domains: vec![5, 5],
    };
    let offset = Wire::from_values(5, 2, vec![4, 2, 1]);
    let a = Wire::from_values(5, 2, vec![1, 2, 3]);
    let b = Wire::from_values(5, 2, vec![0, 4, 4]);
    let mut delta = HashMap::new();
    delta.insert(5, offset.clone());
    let g = garble_with(&circuit, delta, vec![a.clone(), b.clone()]).unwrap();
    assert!(g.f.is_empty());
    assert_eq!(g.e.wires.len(), 2);
    assert_eq!(g.e.wires[1].values(), b.values());
    assert_eq!(g.d.ids, vec![3]);
    assert_eq!(g.d.domains, vec![5]);
    // the label of the output for 0 is b + 3 a = (3, 0, 3)
    let zero = Wire::from_values(5, 2, vec![3, 0, 3]);
    let expected: Vec<u64> = (0..5).map(|v| hash(3, v, &zero.add(&offset.mul(v)))).collect();
    assert_eq!(g.d.map, vec![expected]);

    // the labels of 2 and 4 walk through to the label of 4 + 3 * 2 = 0 modulo 5
    let x = encode(&g.e, &vec![2, 4]);
    let z = evaluate(&circuit, &g.f, &x).unwrap();
    assert_eq!(z.len(), 1);
    assert_eq!(z[0].values(), zero.add(&offset.mul(10)).values());
    assert_eq!(decode(&g.d, &z).unwrap(), vec![0]);
}

#[test]
fn garbling_fails_without_an_offset_or_a_label() {
    let circuit = NewCircuit {
        gates: vec![NewGate { kind: NewGateKind::MUL(3), inputs: vec![0], output: 1, domain: 5 }],
        num_inputs: 1,
        num_outputs: 1,
        num_wires: 2,
        input_domains: vec![5],
    };
    let a = Wire::from_values(5, 2, vec![1, 2, 3]);
    // no offset for the domain of the output
    assert!(garble_with(&circuit, HashMap::new(), vec![a.clone()]).is_none());
    // no label for the input
    let mut delta = HashMap::new();
    delta.insert(5, Wire::from_values(5, 2, vec![4, 2, 1]));
    assert!(garble_with(&circuit, delta, vec![]).is_none());
}

#[test]
fn walking_fails_where_a_wire_or_a_table_is_missing() {
    let a = Wire::from_values(5, 2, vec![1, 2, 3]);
    let gate = |kind, inputs, output| NewGate { kind, inputs, output, domain: 5 };
    let circuit = |g| NewCircuit {
        gates: vec![g],
        num_inputs: 1,
        num_outputs: 1,
        num_wires: 2,
        input_domains: vec![5],
    };
    let f = HashMap::new();
    let mul = circuit(gate(NewGateKind::MUL(2), vec![0], 1));
    assert_eq!(
        evaluate(&mul, &f, &vec![a.clone()]).unwrap()[0].values(),
        &vec![2, 4, 1]
    );
    // not one label per input
    assert!(evaluate(&mul, &f, &vec![]).is_none());
    // a gate that writes a wire that does not exist
    assert!(evaluate(&circuit(gate(NewGateKind::MUL(2), vec![0], 2)), &f, &vec![a.clone()]).is_none());
    // a gate that reads a wire that does not exist
    assert!(evaluate(&circuit(gate(NewGateKind::ADD, vec![0, 7], 1)), &f, &vec![a.clone()]).is_none());
    // a projection gate without a table
    assert!(evaluate(
        &circuit(gate(NewGateKind::PROJ(5, vec![0; 6]), vec![0], 1)),
        &f,
        &vec![a.clone()]
    )
    .is_none());
    // a sum of wires of two domains
    let two = NewCircuit {
        gates: vec![gate(NewGateKind::ADD, vec![0, 1], 2)],
        num_inputs: 2,
        num_outputs: 1,
        num_wires: 3,
        input_domains: vec![5, 7],
    };
    let b = Wire::from_values(7, 2, vec![1, 2, 3]);
    assert!(evaluate(&two, &f, &vec![a, b]).is_none());
}
