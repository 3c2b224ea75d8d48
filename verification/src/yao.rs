//! Garbling of boolean circuits with one pair of labels per wire.
//!
//! The garbler gives every wire two random labels, one for each value the
//! wire can take, and for each gate a table of four rows: the label of its
//! output for each combination of the values of its inputs, masked by a
//! hash of the labels of its inputs. Who holds one label per input can unmask
//! one row of each table and so walk through the circuit.

use crate::ot::primitives::{sha256, sha256_digest};
use crate::util::random_below;
use ring::rand::{SecureRandom, SystemRandom};
use vstd::prelude::*;

verus! {

/// The length of a label in bytes.
pub const SECURITY_BYTES: usize = 16;

/// A label.
pub type Primitive = [u8; 16];

/// The two labels of a wire: the first for `false`, the second for `true`.
pub type Primitives = [Primitive; 2];

/// What a gate computes.
#[derive(Clone, Copy, Debug, PartialEq, Eq, Structural)]
pub enum GateKind {
    NOT,
    AND,
    OR,
    XOR,
}

/// A gate: the wires it reads and the wire it writes.
pub struct Gate {
    pub kind: GateKind,
    pub output: usize,
    pub inputs: Vec<usize>,
}

/// A boolean circuit. The inputs take the first wires and the outputs are
/// the last wires; the gates are evaluated in order.
pub struct Circuit {
    pub gates: Vec<Gate>,
    pub num_inputs: usize,
    pub num_outputs: usize,
    pub num_wires: usize,
}

/// `SecureRandom::fill` on `SystemRandom`, twice: two labels of random
/// bytes. Where the system gives no random bytes a label stays zero.
#[verifier::external_body]
fn random_primitives() -> Primitives {
    let random = SystemRandom::new();
    let mut left = [0u8; 16];
    let _ = random.fill(&mut left);
    let mut right = [0u8; 16];
    let _ = random.fill(&mut right);
    [left, right]
}

/// Whether the wires that `gate` names exist among `num_wires` wires.
pub open spec fn gate_fits(gate: Gate, num_wires: usize) -> bool {
    &&& gate.output < num_wires
    &&& gate.inputs@.len() >= 1
    &&& gate.inputs@[0] < num_wires
    &&& gate.kind != GateKind::NOT ==> gate.inputs@.len() >= 2 && gate.inputs@[1] < num_wires
}

/// The value of a gate of kind `kind` on the inputs `left` and `right`; a
/// `NOT` gate reads `left` only.
pub open spec fn gate_value(kind: GateKind, left: bool, right: bool) -> bool {
    match kind {
        GateKind::NOT => !left,
        GateKind::AND => left && right,
        GateKind::XOR => left != right,
        GateKind::OR => left || right,
    }
}

/// The second wire that `gate` reads; for a `NOT` gate, its only one.
pub open spec fn second_input(gate: Gate) -> int {
    if gate.kind == GateKind::NOT {
        gate.inputs@[0] as int
    } else {
        gate.inputs@[1] as int
    }
}

/// The values of all wires once the first `upto` gates are evaluated on
/// `input`.
pub open spec fn plain_wires(c: &Circuit, input: Seq<bool>, upto: nat) -> Seq<bool>
    decreases upto,
{
    if upto == 0 {
        Seq::new(c.num_wires as nat, |i: int| i < input.len() && input[i])
    } else {
        let w = plain_wires(c, input, (upto - 1) as nat);
        let g = c.gates@[upto - 1];
        w.update(
            g.output as int,
            gate_value(g.kind, w[g.inputs@[0] as int], w[second_input(g)]),
        )
    }
}

impl Circuit {
    /// There are no more inputs or outputs than wires, and every gate
    /// names wires that exist.
    pub open spec fn wf(&self) -> bool {
        &&& self.num_inputs <= self.num_wires
        &&& self.num_outputs <= self.num_wires
        &&& forall|g: int|
            0 <= g < self.gates@.len() ==> gate_fits(#[trigger] self.gates@[g], self.num_wires)
    }

    /// The values of the outputs on `input`.
    pub fn evaluate(&self, input: Vec<bool>) -> (output: Vec<bool>)
        requires
            self.wf(),
            input@.len() <= self.num_wires,
        ensures
            output@ == plain_wires(self, input@, self.gates@.len()).subrange(
                self.num_wires - self.num_outputs,
                self.num_wires as int,
            ),
    {
        let mut wires: Vec<bool> = Vec::with_capacity(self.num_wires);
        let mut i: usize = 0;
        while i < self.num_wires
            invariant
                input@.len() <= self.num_wires,
                i <= self.num_wires,
                wires@.len() == i,
                forall|k: int| 0 <= k < i ==> wires@[k] == (k < input@.len() && input@[k]),
            decreases self.num_wires - i,
        {
            wires.push(i < input.len() && input[i]);
            i += 1;
        }
        assert(wires@ =~= plain_wires(self, input@, 0));
        let mut g: usize = 0;
        while g < self.gates.len()
            invariant
                self.wf(),
                g <= self.gates@.len(),
                wires@.len() == self.num_wires,
                wires@ == plain_wires(self, input@, g as nat),
            decreases self.gates@.len() - g,
        {
            let gate = &self.gates[g];
            assert(gate_fits(self.gates@[g as int], self.num_wires));
            let left = wires[gate.inputs[0]];
            let value = match gate.kind {
                GateKind::NOT => !left,
                GateKind::AND => left && wires[gate.inputs[1]],
                GateKind::XOR => left ^ wires[gate.inputs[1]],
                GateKind::OR => left || wires[gate.inputs[1]],
            };
            wires.set(gate.output, value);
            g += 1;
        }
        let mut output: Vec<bool> = Vec::with_capacity(self.num_outputs);
        let first = self.num_wires - self.num_outputs;
        let mut k: usize = first;
        while k < self.num_wires
            invariant
                first == self.num_wires - self.num_outputs,
                first <= k <= self.num_wires,
                wires@.len() == self.num_wires,
                output@ == wires@.subrange(first as int, k as int),
            decreases self.num_wires - k,
        {
            output.push(wires[k]);
            assert(wires@.subrange(first as int, k as int).push(wires@[k as int])
                =~= wires@.subrange(first as int, k + 1));
            k += 1;
        }
        output
    }
}

/// The byte-wise exclusive or of two labels.
pub open spec fn label_xor(left: Seq<u8>, right: Seq<u8>) -> Seq<u8> {
    Seq::new(left.len(), |i: int| left[i] ^ right[i])
}

/// The label of zero bytes.
pub open spec fn zero_label() -> Seq<u8> {
    Seq::new(16, |i: int| 0u8)
}

/// The byte-wise exclusive or of two labels.
pub fn xor(left: Primitive, right: Primitive) -> (result: Primitive)
    ensures
        result@ == label_xor(left@, right@),
{
    let mut result: Primitive = [0u8; 16];
    let mut i: usize = 0;
    while i < SECURITY_BYTES
        invariant
            i <= 16,
            forall|k: int| 0 <= k < i ==> result@[k] == left@[k] ^ right@[k],
        decreases 16 - i,
    {
        result[i] = left[i] ^ right[i];
        i += 1;
    }
    assert(result@ =~= label_xor(left@, right@));
    result
}

/// Whether two labels are equal.
pub fn eq(left: Primitive, right: Primitive) -> (r: bool)
    ensures
        r == (left@ == right@),
{
    let mut i: usize = 0;
    while i < SECURITY_BYTES
        invariant
            i <= 16,
            forall|k: int| 0 <= k < i ==> left@[k] == right@[k],
        decreases 16 - i,
    {
        if left[i] != right[i] {
            return false;
        }
        i += 1;
    }
    assert(left@ =~= right@);
    true
}

/// Whether every byte of a label is zero.
pub fn zero(p: Primitive) -> (r: bool)
    ensures
        r == (p@ == zero_label()),
{
    let mut i: usize = 0;
    while i < SECURITY_BYTES
        invariant
            i <= 16,
            forall|k: int| 0 <= k < i ==> p@[k] == 0,
        decreases 16 - i,
    {
        if p[i] != 0x00 {
            assert(zero_label()[i as int] == 0);
            return false;
        }
        i += 1;
    }
    assert(p@ =~= zero_label());
    true
}

/// The four bytes of `x`, the most significant first.
pub open spec fn be_bytes32(x: u32) -> Seq<u8> {
    Seq::new(4, |i: int| ((x >> ((24 - 8 * i) as u32)) & 0xff) as u8)
}

/// What is hashed for a gate: the two labels and the index of its output,
/// reduced to 32 bits, in big-endian bytes.
pub open spec fn prf_input(left: Seq<u8>, right: Seq<u8>, index: usize) -> Seq<u8> {
    left + right + be_bytes32(((index as int) % 0x1_0000_0000) as u32)
}

/// The mask of the label of an output: the first 16 bytes of the digest.
pub open spec fn prf_left(left: Seq<u8>, right: Seq<u8>, index: usize) -> Seq<u8> {
    sha256_digest(prf_input(left, right, index)).subrange(0, 16)
}

/// The tag by which a row is recognised: the bytes 16 down to 1 of the
/// digest.
pub open spec fn prf_right(left: Seq<u8>, right: Seq<u8>, index: usize) -> Seq<u8> {
    Seq::new(16, |i: int| sha256_digest(prf_input(left, right, index))[16 - i])
}

/// The mask and the tag for a gate whose inputs carry the labels `left`
/// and `right` and whose output is the wire `index`.
pub fn prf(left: Primitive, right: Primitive, index: usize) -> (r: (Primitive, Primitive))
    ensures
        r.0@ == prf_left(left@, right@, index),
        r.1@ == prf_right(left@, right@, index),
{
    let mut data: Vec<u8> = Vec::with_capacity(36);
    let mut i: usize = 0;
    while i < SECURITY_BYTES
        invariant
            i <= 16,
            data@ == left@.take(i as int),
        decreases 16 - i,
    {
        data.push(left[i]);
        assert(left@.take(i as int).push(left@[i as int]) =~= left@.take(i + 1));
        i += 1;
    }
    assert(left@.take(16) =~= left@);
    let mut i: usize = 0;
    while i < SECURITY_BYTES
        invariant
            i <= 16,
            data@ == left@ + right@.take(i as int),
        decreases 16 - i,
    {
        data.push(right[i]);
        assert((left@ + right@.take(i as int)).push(right@[i as int]) =~= left@ + right@.take(
            i + 1,
        ));
        i += 1;
    }
    assert(right@.take(16) =~= right@);
    let low: u32 = ((index as u64) % 0x1_0000_0000u64) as u32;
    let ghost tail = be_bytes32(low);
    let mut i: u32 = 0;
    while i < 4
        invariant
            i <= 4,
            tail == be_bytes32(low),
            data@ == left@ + right@ + tail.take(i as int),
        decreases 4 - i,
    {
        let shift: u32 = 24 - 8 * i;
        let byte: u32 = (low >> shift) & 0xff;
        assert(byte <= 0xff) by (bit_vector)
            requires
                byte == (low >> shift) & 0xff,
        ;
        data.push(byte as u8);
        assert((left@ + right@ + tail.take(i as int)).push(tail[i as int]) =~= left@ + right@
            + tail.take(i + 1));
        i += 1;
    }
    assert(tail.take(4) =~= tail);
    let d = sha256(data.as_slice());
    let mut l_result: Primitive = [0u8; 16];
    let mut r_result: Primitive = [0u8; 16];
    let mut i: usize = 0;
    while i < SECURITY_BYTES
        invariant
            i <= 16,
            forall|k: int| 0 <= k < i ==> l_result@[k] == d@[k] && r_result@[k] == d@[16 - k],
        decreases 16 - i,
    {
        l_result[i] = d[i];
        r_result[i] = d[16 - i];
        i += 1;
    }
    assert(l_result@ =~= prf_left(left@, right@, index));
    assert(r_result@ =~= prf_right(left@, right@, index));
    (l_result, r_result)
}

/// The two labels of a wire as a pair.
pub open spec fn pair_view(k: Primitives) -> (Seq<u8>, Seq<u8>) {
    (k@[0]@, k@[1]@)
}

/// The pairs of labels of a sequence of wires.
pub open spec fn pairs_view(keys: Seq<Primitives>) -> Seq<(Seq<u8>, Seq<u8>)> {
    Seq::new(keys.len(), |i: int| pair_view(keys[i]))
}

/// The rows of a table: of each row its masked label and its tag.
pub open spec fn table_view(table: [Primitives; 4]) -> Seq<(Seq<u8>, Seq<u8>)> {
    Seq::new(4, |j: int| pair_view(table@[j]))
}

/// The rows of a sequence of tables.
pub open spec fn tables_view(tables: Seq<[Primitives; 4]>) -> Seq<Seq<(Seq<u8>, Seq<u8>)>> {
    Seq::new(tables.len(), |i: int| table_view(tables[i]))
}

/// The views of a sequence of labels.
pub open spec fn labels_view(labels: Seq<Primitive>) -> Seq<Seq<u8>> {
    Seq::new(labels.len(), |i: int| labels[i]@)
}

/// The label of a pair for the value `bit`.
pub open spec fn pick(pair: (Seq<u8>, Seq<u8>), bit: bool) -> Seq<u8> {
    if bit {
        pair.1
    } else {
        pair.0
    }
}

/// The row of the table of `gate` for the values `left` and `right` of
/// its inputs:
/// the label of the output's value, masked, and the tag.
pub open spec fn garbled_row(keys: Seq<(Seq<u8>, Seq<u8>)>, gate: Gate, left: bool, right: bool) -> (
    Seq<u8>,
    Seq<u8>,
) {
    let a = pick(keys[gate.inputs@[0] as int], left);
    let b = pick(keys[gate.inputs@[1] as int], right);
    (
        label_xor(
            prf_left(a, b, gate.output),
            pick(keys[gate.output as int], gate_value(gate.kind, left, right)),
        ),
        prf_right(a, b, gate.output),
    )
}

/// The table of a gate: the rows for the four combinations of the inputs'
/// values, `(false, false)` first and `(true, true)` last, moved round by
/// `permutation` places.
pub open spec fn garbled_table(keys: Seq<(Seq<u8>, Seq<u8>)>, gate: Gate, permutation: int) -> Seq<
    (Seq<u8>, Seq<u8>),
> {
    Seq::new(
        4,
        |s: int|
            {
                let j = (s + 4 - permutation % 4) % 4;
                garbled_row(keys, gate, j >= 2, j % 2 == 1)
            },
    )
}

/// A table of zero labels.
pub open spec fn zero_table() -> Seq<(Seq<u8>, Seq<u8>)> {
    Seq::new(4, |j: int| (zero_label(), zero_label()))
}

/// The labels of all wires and the tables of all gates.
pub struct Garbling {
    pub keys: Seq<(Seq<u8>, Seq<u8>)>,
    pub tables: Seq<Seq<(Seq<u8>, Seq<u8>)>>,
}

/// The garbling of the first `upto` gates, from the labels `keys` and one
/// permutation per gate. A `NOT` gate gets no table: the labels of its
/// output are those of its input, swapped.
pub open spec fn garble_upto(
    c: &Circuit,
    keys: Seq<(Seq<u8>, Seq<u8>)>,
    permutations: Seq<usize>,
    upto: nat,
) -> Garbling
    decreases upto,
{
    if upto == 0 {
        Garbling { keys, tables: Seq::new(c.num_wires as nat, |i: int| zero_table()) }
    } else {
        let before = garble_upto(c, keys, permutations, (upto - 1) as nat);
        let g = c.gates@[upto - 1];
        if g.kind == GateKind::NOT {
            let input = before.keys[g.inputs@[0] as int];
            Garbling {
                keys: before.keys.update(g.output as int, (input.1, input.0)),
                tables: before.tables,
            }
        } else {
            Garbling {
                keys: before.keys,
                tables: before.tables.update(
                    g.output as int,
                    garbled_table(before.keys, g, permutations[upto - 1] as int),
                ),
            }
        }
    }
}

/// What the garbler hands out: the labels of the inputs, the labels of
/// the outputs, and the tables.
pub struct Garbled {
    pub e: Vec<Primitives>,
    pub d: Vec<Primitives>,
    pub f: Vec<[Primitives; 4]>,
}

/// Whether `garbled` is the garbling of `c` from the labels `keys` and the
/// permutations `permutations`: the labels of the inputs as they were
/// drawn, the labels of the outputs after the gates, and the tables.
pub open spec fn garbled_from(
    c: &Circuit,
    keys: Seq<Primitives>,
    permutations: Seq<usize>,
    garbled: Garbled,
) -> bool {
    let g = garble_upto(c, pairs_view(keys), permutations, c.gates@.len());
    &&& keys.len() == c.num_wires
    &&& permutations.len() == c.gates@.len()
    &&& forall|i: int| 0 <= i < permutations.len() ==> #[trigger] permutations[i] < 4
    &&& pairs_view(garbled.e@) == pairs_view(keys).subrange(0, c.num_inputs as int)
    &&& pairs_view(garbled.d@) == g.keys.subrange(
        c.num_wires - c.num_outputs,
        c.num_wires as int,
    )
    &&& tables_view(garbled.f@) == g.tables
}

/// Garbles `circuit` from the labels `keys`, one pair per wire, and the
/// permutations `permutations`, one per gate.
pub fn yao_garble_with(circuit: &Circuit, keys: Vec<Primitives>, permutations: &Vec<usize>) -> (garbled:
    Garbled)
    requires
        circuit.wf(),
        keys@.len() == circuit.num_wires,
        permutations@.len() == circuit.gates@.len(),
        forall|i: int| 0 <= i < permutations@.len() ==> #[trigger] permutations@[i] < 4,
    ensures
        garbled_from(circuit, keys@, permutations@, garbled),
{
    let mut k = keys;
    let mut e: Vec<Primitives> = Vec::with_capacity(circuit.num_inputs);
    let mut i: usize = 0;
    while i < circuit.num_inputs
        invariant
            circuit.num_inputs <= circuit.num_wires,
            k@ == keys@,
            k@.len() == circuit.num_wires,
            i <= circuit.num_inputs,
            e@ == k@.subrange(0, i as int),
        decreases circuit.num_inputs - i,
    {
        e.push(k[i]);
        assert(k@.subrange(0, i as int).push(k@[i as int]) =~= k@.subrange(0, i + 1));
        i += 1;
    }
    assert(pairs_view(e@) =~= pairs_view(keys@).subrange(0, circuit.num_inputs as int));
    let zero_row: Primitives = [[0u8; 16], [0u8; 16]];
    assert(pair_view(zero_row) == (zero_label(), zero_label())) by {
        assert(zero_row@[0]@ =~= zero_label());
        assert(zero_row@[1]@ =~= zero_label());
    }
    let mut f: Vec<[Primitives; 4]> = Vec::with_capacity(circuit.num_wires);
    let mut i: usize = 0;
    while i < circuit.num_wires
        invariant
            pair_view(zero_row) == (zero_label(), zero_label()),
            i <= circuit.num_wires,
            f@.len() == i,
            forall|t: int| 0 <= t < i ==> table_view(#[trigger] f@[t]) == zero_table(),
        decreases circuit.num_wires - i,
    {
        let table: [Primitives; 4] = [zero_row, zero_row, zero_row, zero_row];
        assert(table_view(table) =~= zero_table());
        f.push(table);
        i += 1;
    }
    assert(tables_view(f@) =~= garble_upto(circuit, pairs_view(keys@), permutations@, 0).tables);
    assert(pairs_view(k@) =~= garble_upto(circuit, pairs_view(keys@), permutations@, 0).keys);
    let mut g: usize = 0;
    while g < circuit.gates.len()
        invariant
            circuit.wf(),
            permutations@.len() == circuit.gates@.len(),
            forall|i: int| 0 <= i < permutations@.len() ==> #[trigger] permutations@[i] < 4,
            g <= circuit.gates@.len(),
            k@.len() == circuit.num_wires,
            f@.len() == circuit.num_wires,
            pairs_view(k@) == garble_upto(circuit, pairs_view(keys@), permutations@, g as nat).keys,
            tables_view(f@) == garble_upto(
                circuit,
                pairs_view(keys@),
                permutations@,
                g as nat,
            ).tables,
        decreases circuit.gates@.len() - g,
    {
        let gate = &circuit.gates[g];
        assert(gate_fits(circuit.gates@[g as int], circuit.num_wires));
        let ghost before = pairs_view(k@);
        if gate.kind == GateKind::NOT {
            let input = k[gate.inputs[0]];
            k.set(gate.output, [input[1], input[0]]);
            assert(pairs_view(k@) =~= before.update(
                gate.output as int,
                (before[gate.inputs@[0] as int].1, before[gate.inputs@[0] as int].0),
            ));
        } else {
            let permutation = permutations[g];
            let mut c: [Primitives; 4] = [zero_row, zero_row, zero_row, zero_row];
            let mut j: usize = 0;
            while j < 4
                invariant
                    gate_fits(*gate, circuit.num_wires),
                    gate.kind != GateKind::NOT,
                    k@.len() == circuit.num_wires,
                    before == pairs_view(k@),
                    permutation < 4,
                    j <= 4,
                    forall|t: int|
                        0 <= t < j ==> pair_view(#[trigger] c@[(t + permutation) % 4])
                            == garbled_row(before, *gate, t >= 2, t % 2 == 1),
                decreases 4 - j,
            {
                let left = j >= 2;
                let right = j % 2 == 1;
                let gate_value = match gate.kind {
                    GateKind::NOT => !left,
                    GateKind::AND => left && right,
                    GateKind::XOR => left ^ right,
                    GateKind::OR => left || right,
                };
                let out = k[gate.output];
                let garbled_value = if gate_value {
                    out[1]
                } else {
                    out[0]
                };
                let first = k[gate.inputs[0]];
                let second = k[gate.inputs[1]];
                let a = if left {
                    first[1]
                } else {
                    first[0]
                };
                let b = if right {
                    second[1]
                } else {
                    second[0]
                };
                let (g_left, g_right) = prf(a, b, gate.output);
                let ghost old_c = c;
                let row: Primitives = [xor(g_left, garbled_value), g_right];
                let slot = (j + permutation) % 4;
                c[slot] = row;
                proof {
                    assert(pair_view(row) == garbled_row(before, *gate, left, right));
                    assert forall|t: int| 0 <= t < j + 1 implies pair_view(
                        #[trigger] c@[(t + permutation) % 4],
                    ) == garbled_row(before, *gate, t >= 2, t % 2 == 1) by {
                        if t < j {
                            assert((t + permutation) % 4 != slot);
                            assert(c@[(t + permutation) % 4] == old_c@[(t + permutation) % 4]);
                        }
                    }
                }
                j += 1;
            }
            proof {
                let table = garbled_table(before, *gate, permutation as int);
                assert forall|s: int| 0 <= s < 4 implies table_view(c)[s] == table[s] by {
                    let t = (s + 4 - permutation % 4) % 4;
                    assert((t + permutation) % 4 == s);
                }
                assert(table_view(c) =~= table);
            }
            let ghost tables_before = tables_view(f@);
            f.set(gate.output, c);
            assert(tables_view(f@) =~= tables_before.update(gate.output as int, table_view(c)));
        }
        g += 1;
    }
    let mut d: Vec<Primitives> = Vec::with_capacity(circuit.num_outputs);
    let first = circuit.num_wires - circuit.num_outputs;
    let mut i: usize = first;
    while i < circuit.num_wires
        invariant
            first == circuit.num_wires - circuit.num_outputs,
            first <= i <= circuit.num_wires,
            k@.len() == circuit.num_wires,
            d@ == k@.subrange(first as int, i as int),
        decreases circuit.num_wires - i,
    {
        d.push(k[i]);
        assert(k@.subrange(first as int, i as int).push(k@[i as int]) =~= k@.subrange(
            first as int,
            i + 1,
        ));
        i += 1;
    }
    assert(pairs_view(d@) =~= pairs_view(k@).subrange(first as int, circuit.num_wires as int));
    Garbled { e, d, f }
}

/// Garbles `circuit` with fresh random labels and permutations.
pub fn yao_garble(circuit: &Circuit) -> (garbled: Garbled)
    requires
        circuit.wf(),
    ensures
        exists|keys: Seq<Primitives>, permutations: Seq<usize>| #[trigger]
            garbled_from(circuit, keys, permutations, garbled),
{
    let mut keys: Vec<Primitives> = Vec::with_capacity(circuit.num_wires);
    let mut i: usize = 0;
    while i < circuit.num_wires
        invariant
            i <= circuit.num_wires,
            keys@.len() == i,
        decreases circuit.num_wires - i,
    {
        keys.push(random_primitives());
        i += 1;
    }
    let mut permutations: Vec<usize> = Vec::with_capacity(circuit.gates.len());
    let mut g: usize = 0;
    while g < circuit.gates.len()
        invariant
            g <= circuit.gates@.len(),
            permutations@.len() == g,
            forall|i: int| 0 <= i < g ==> #[trigger] permutations@[i] < 4,
        decreases circuit.gates@.len() - g,
    {
        permutations.push(random_below(4) as usize);
        g += 1;
    }
    let ghost drawn = keys@;
    let garbled = yao_garble_with(circuit, keys, &permutations);
    assert(garbled_from(circuit, drawn, permutations@, garbled));
    garbled
}

/// The labels of the inputs `x`: of each input's pair the label for its
/// value.
pub fn yao_encode(circuit: &Circuit, e: &Vec<Primitives>, x: &Vec<bool>) -> (z: Vec<Primitive>)
    requires
        x@.len() == circuit.num_inputs,
        e@.len() == circuit.num_inputs,
    ensures
        z@.len() == circuit.num_inputs,
        forall|i: int| 0 <= i < z@.len() ==> (#[trigger] z@[i])@ == pick(pair_view(e@[i]), x@[i]),
{
    let mut z: Vec<Primitive> = Vec::with_capacity(circuit.num_inputs);
    let mut i: usize = 0;
    while i < circuit.num_inputs
        invariant
            x@.len() == circuit.num_inputs,
            e@.len() == circuit.num_inputs,
            i <= circuit.num_inputs,
            z@.len() == i,
            forall|k: int| 0 <= k < i ==> (#[trigger] z@[k])@ == pick(pair_view(e@[k]), x@[k]),
        decreases circuit.num_inputs - i,
    {
        let pair = e[i];
        let label = if x[i] {
            pair[1]
        } else {
            pair[0]
        };
        z.push(label);
        i += 1;
    }
    z
}

/// The first row from `from` on whose tag is `tag`.
pub open spec fn first_match(tag: Seq<u8>, table: Seq<(Seq<u8>, Seq<u8>)>, from: int) -> Option<int>
    decreases 4 - from,
{
    if from >= 4 {
        None
    } else if table[from].1 == tag {
        Some(from)
    } else {
        first_match(tag, table, from + 1)
    }
}

/// The labels on all wires once the first `upto` gates are evaluated on
/// the input labels `x`. A `NOT` gate hands its input's label on. Another
/// gate unmasks the first row of its table whose tag it computes from its
/// inputs' labels; where no row has that tag, the output keeps its label.
pub open spec fn garbled_wires(
    c: &Circuit,
    tables: Seq<Seq<(Seq<u8>, Seq<u8>)>>,
    x: Seq<Seq<u8>>,
    upto: nat,
) -> Seq<Seq<u8>>
    decreases upto,
{
    if upto == 0 {
        Seq::new(
            c.num_wires as nat,
            |i: int|
                if i < x.len() {
                    x[i]
                } else {
                    zero_label()
                },
        )
    } else {
        let w = garbled_wires(c, tables, x, (upto - 1) as nat);
        let g = c.gates@[upto - 1];
        if g.kind == GateKind::NOT {
            w.update(g.output as int, w[g.inputs@[0] as int])
        } else {
            let a = w[g.inputs@[0] as int];
            let b = w[g.inputs@[1] as int];
            match first_match(prf_right(a, b, g.output), tables[g.output as int], 0) {
                Some(j) => w.update(
                    g.output as int,
                    label_xor(prf_left(a, b, g.output), tables[g.output as int][j].0),
                ),
                None => w,
            }
        }
    }
}

/// The outputs of those among the first `upto` gates in whose table no row
/// had the tag computed.
pub open spec fn unmatched(
    c: &Circuit,
    tables: Seq<Seq<(Seq<u8>, Seq<u8>)>>,
    x: Seq<Seq<u8>>,
    upto: nat,
) -> Seq<usize>
    decreases upto,
{
    if upto == 0 {
        Seq::<usize>::empty()
    } else {
        let rest = unmatched(c, tables, x, (upto - 1) as nat);
        let w = garbled_wires(c, tables, x, (upto - 1) as nat);
        let g = c.gates@[upto - 1];
        if g.kind != GateKind::NOT && first_match(
            prf_right(w[g.inputs@[0] as int], w[g.inputs@[1] as int], g.output),
            tables[g.output as int],
            0,
        ) is None {
            rest.push(g.output)
        } else {
            rest
        }
    }
}

/// What an evaluation gives: the labels of the outputs, and the outputs of
/// the gates in whose table no row matched.
pub struct Evaluation {
    pub z: Vec<Primitive>,
    pub unmatched: Vec<usize>,
}

/// Two bytes are equal exactly when their exclusive or is zero.
proof fn lemma_xor_zero(a: u8, b: u8)
    ensures
        (a ^ b == 0) <==> a == b,
{
    assert((a ^ b == 0) <==> a == b) by (bit_vector);
}

/// Walks through the garbled circuit from the input labels `x`.
pub fn yao_evaluate(circuit: &Circuit, f: &Vec<[Primitives; 4]>, x: &Vec<Primitive>) -> (r:
    Evaluation)
    requires
        circuit.wf(),
        x@.len() == circuit.num_inputs,
        f@.len() == circuit.num_wires,
    ensures
        labels_view(r.z@) == garbled_wires(
            circuit,
            tables_view(f@),
            labels_view(x@),
            circuit.gates@.len(),
        ).subrange(circuit.num_wires - circuit.num_outputs, circuit.num_wires as int),
        r.unmatched@ == unmatched(
            circuit,
            tables_view(f@),
            labels_view(x@),
            circuit.gates@.len(),
        ),
{
    let ghost tables = tables_view(f@);
    let ghost input = labels_view(x@);
    let zero_row: Primitive = [0u8; 16];
    assert(zero_row@ =~= zero_label());
    let mut wire: Vec<Primitive> = Vec::with_capacity(circuit.num_wires);
    let mut i: usize = 0;
    while i < circuit.num_wires
        invariant
            circuit.num_inputs <= circuit.num_wires,
            x@.len() == circuit.num_inputs,
            input == labels_view(x@),
            zero_row@ == zero_label(),
            i <= circuit.num_wires,
            wire@.len() == i,
            forall|k: int|
                0 <= k < i ==> (#[trigger] wire@[k])@ == (if k < input.len() {
                    input[k]
                } else {
                    zero_label()
                }),
        decreases circuit.num_wires - i,
    {
        if i < circuit.num_inputs {
            wire.push(x[i]);
        } else {
            wire.push(zero_row);
        }
        i += 1;
    }
    assert(labels_view(wire@) =~= garbled_wires(circuit, tables, input, 0));
    let mut missing: Vec<usize> = Vec::new();
    let mut g: usize = 0;
    while g < circuit.gates.len()
        invariant
            circuit.wf(),
            f@.len() == circuit.num_wires,
            tables == tables_view(f@),
            g <= circuit.gates@.len(),
            wire@.len() == circuit.num_wires,
            labels_view(wire@) == garbled_wires(circuit, tables, input, g as nat),
            missing@ == unmatched(circuit, tables, input, g as nat),
        decreases circuit.gates@.len() - g,
    {
        let gate = &circuit.gates[g];
        assert(gate_fits(circuit.gates@[g as int], circuit.num_wires));
        let ghost before = labels_view(wire@);
        if gate.kind == GateKind::NOT {
            let label = wire[gate.inputs[0]];
            wire.set(gate.output, label);
            assert(labels_view(wire@) =~= before.update(
                gate.output as int,
                before[gate.inputs@[0] as int],
            ));
        } else {
            let (gate_left, gate_right) = prf(
                wire[gate.inputs[0]],
                wire[gate.inputs[1]],
                gate.output,
            );
            let table = f[gate.output];
            let ghost rows = tables[gate.output as int];
            assert(rows == table_view(table));
            let mut found = false;
            let mut j: usize = 0;
            while j < 4 && !found
                invariant
                    gate.output < circuit.num_wires,
                    wire@.len() == circuit.num_wires,
                    rows == table_view(table),
                    j <= 4,
                    !found ==> labels_view(wire@) == before,
                    !found ==> first_match(gate_right@, rows, 0) == first_match(
                        gate_right@,
                        rows,
                        j as int,
                    ),
                    found ==> first_match(gate_right@, rows, 0) is Some && labels_view(wire@)
                        == before.update(
                        gate.output as int,
                        label_xor(
                            gate_left@,
                            rows[first_match(gate_right@, rows, 0).unwrap()].0,
                        ),
                    ),
                decreases 4 - j + (if found { 0int } else { 1int }),
            {
                let c = table[j];
                assert(rows[j as int] == pair_view(c));
                let k = xor(gate_left, c[0]);
                let t = xor(gate_right, c[1]);
                proof {
                    if t@ == zero_label() {
                        assert forall|b: int| 0 <= b < 16 implies gate_right@[b] == c@[1]@[b] by {
                            assert(t@[b] == 0);
                            lemma_xor_zero(gate_right@[b], c@[1]@[b]);
                        }
                        assert(gate_right@ =~= c@[1]@);
                    } else {
                        if gate_right@ == c@[1]@ {
                            assert forall|b: int| 0 <= b < 16 implies t@[b] == 0 by {
                                lemma_xor_zero(gate_right@[b], c@[1]@[b]);
                            }
                            assert(t@ =~= zero_label());
                        }
                    }
                }
                if zero(t) {
                    let ghost labels = labels_view(wire@);
                    wire.set(gate.output, k);
                    found = true;
                    assert(labels_view(wire@) =~= labels.update(gate.output as int, k@));
                } else {
                    j += 1;
                }
            }
            if !found {
                missing.push(gate.output);
            }
        }
        g += 1;
    }
    let mut z: Vec<Primitive> = Vec::with_capacity(circuit.num_outputs);
    let first = circuit.num_wires - circuit.num_outputs;
    let mut i: usize = first;
    while i < circuit.num_wires
        invariant
            first == circuit.num_wires - circuit.num_outputs,
            first <= i <= circuit.num_wires,
            wire@.len() == circuit.num_wires,
            z@ == wire@.subrange(first as int, i as int),
        decreases circuit.num_wires - i,
    {
        z.push(wire[i]);
        assert(wire@.subrange(first as int, i as int).push(wire@[i as int]) =~= wire@.subrange(
            first as int,
            i + 1,
        ));
        i += 1;
    }
    assert(labels_view(z@) =~= labels_view(wire@).subrange(
        first as int,
        circuit.num_wires as int,
    ));
    Evaluation { z, unmatched: missing }
}

/// The values of the outputs with the labels `z`: `false` for the first
/// label of an output's pair, `true` for the second, and `false` again
/// for a label that is neither. The flag tells whether every label was one
/// of its pair.
pub fn yao_decode(circuit: &Circuit, d: &Vec<Primitives>, z: &Vec<Primitive>) -> (r: (
    bool,
    Vec<bool>,
))
    requires
        z@.len() == circuit.num_outputs,
        d@.len() == circuit.num_outputs,
    ensures
        r.1@.len() == circuit.num_outputs,
        forall|i: int|
            0 <= i < circuit.num_outputs ==> #[trigger] r.1@[i] == (z@[i]@ != pair_view(d@[i]).0
                && z@[i]@ == pair_view(d@[i]).1),
        r.0 <==> forall|i: int|
            0 <= i < circuit.num_outputs ==> (#[trigger] z@[i])@ == pair_view(d@[i]).0 || z@[i]@
                == pair_view(d@[i]).1,
{
    let mut success = true;
    let mut y: Vec<bool> = Vec::with_capacity(circuit.num_outputs);
    let mut i: usize = 0;
    while i < circuit.num_outputs
        invariant
            z@.len() == circuit.num_outputs,
            d@.len() == circuit.num_outputs,
            i <= circuit.num_outputs,
            y@.len() == i,
            forall|k: int|
                0 <= k < i ==> #[trigger] y@[k] == (z@[k]@ != pair_view(d@[k]).0 && z@[k]@
                    == pair_view(d@[k]).1),
            success <==> forall|k: int|
                0 <= k < i ==> (#[trigger] z@[k])@ == pair_view(d@[k]).0 || z@[k]@ == pair_view(
                    d@[k],
                ).1,
        decreases circuit.num_outputs - i,
    {
        let pair = d[i];
        if eq(pair[0], z[i]) {
            y.push(false);
        } else if eq(pair[1], z[i]) {
            y.push(true);
        } else {
            y.push(false);
            success = false;
        }
        i += 1;
    }
    (success, y)
}

} // verus!
