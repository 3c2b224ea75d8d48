//! Garbling of arithmetic circuits: wires that carry vectors of residues,
//! and the encoding of inputs and decoding of outputs.
//!
//! A [`Wire`] of domain `m` carries `lambda + 1` residues modulo `m`; wires
//! are added, subtracted and scaled residue by residue.

use crate::util::{be_bytes, bit_length, random_below, to_be_bytes};
use std::collections::HashMap;
use vstd::prelude::*;
use vstd::std_specs::bits::{axiom_u64_leading_zeros, u64_leading_zeros};

verus! {

broadcast use vstd::std_specs::hash::group_hash_axioms;

/// The SHA-256 digest of `data`, as `ring` computes it.
pub uninterp spec fn ring_sha256(data: Seq<u8>) -> Seq<u8>;

/// `ring::digest::digest` with the algorithm `SHA256`: the digest of
/// `data`, which is 32 bytes long. The outside function panics on data
/// whose length in bits does not fit in 64 bits.
#[verifier::external_body]
fn digest(data: &[u8]) -> (d: Vec<u8>)
    requires
        data@.len() < 0x2000_0000_0000_0000,
    ensures
        d@ == ring_sha256(data@),
        d@.len() == 32,
{
    ring::digest::digest(&ring::digest::SHA256, data).as_ref().to_vec()
}

/// What a wire holds.
pub struct WireModel {
    pub lambda: u64,
    pub values: Seq<u64>,
    pub domain: u64,
}

/// The sum of two wires, residue by residue, as long as the shorter.
pub open spec fn wire_add(a: WireModel, b: WireModel) -> WireModel {
    WireModel {
        lambda: a.lambda,
        domain: a.domain,
        values: Seq::new(
            if a.values.len() <= b.values.len() {
                a.values.len()
            } else {
                b.values.len()
            },
            |i: int| ((a.values[i] + b.values[i]) % (a.domain as int)) as u64,
        ),
    }
}

/// The difference of two wires, residue by residue, as long as the shorter.
pub open spec fn wire_sub(a: WireModel, b: WireModel) -> WireModel {
    WireModel {
        lambda: a.lambda,
        domain: a.domain,
        values: Seq::new(
            if a.values.len() <= b.values.len() {
                a.values.len()
            } else {
                b.values.len()
            },
            |i: int| ((a.values[i] + (a.domain - b.values[i])) % (a.domain as int)) as u64,
        ),
    }
}

/// The wire whose residues are the domain less those of `a`.
pub open spec fn wire_neg(a: WireModel) -> WireModel {
    WireModel {
        lambda: a.lambda,
        domain: a.domain,
        values: Seq::new(a.values.len(), |i: int| (a.domain - a.values[i]) as u64),
    }
}

/// The wire `a` scaled by `k`, residue by residue.
pub open spec fn wire_mul(a: WireModel, k: u64) -> WireModel {
    WireModel {
        lambda: a.lambda,
        domain: a.domain,
        values: Seq::new(a.values.len(), |i: int| ((a.values[i] * k) % (a.domain as int)) as u64),
    }
}

/// Whether no residue of `a` is above the domain.
pub open spec fn within_domain(a: WireModel) -> bool {
    forall|i: int| 0 <= i < a.values.len() ==> #[trigger] a.values[i] <= a.domain
}

/// The bytes of the residues, each as eight big-endian bytes.
pub open spec fn values_bytes(values: Seq<u64>) -> Seq<u8>
    decreases values.len(),
{
    if values.len() == 0 {
        Seq::<u8>::empty()
    } else {
        values_bytes(values.drop_last()) + be_bytes(values.last())
    }
}

/// What is hashed for a wire under the tweak `(a, b)`: the tweak, the
/// wire's `lambda` and domain, and its residues, each number as eight
/// big-endian bytes.
pub open spec fn wire_preimage(a: u64, b: u64, w: WireModel) -> Seq<u8> {
    be_bytes(a) + be_bytes(b) + be_bytes(w.lambda) + be_bytes(w.domain) + values_bytes(w.values)
}

/// Whether a wire is short enough to be hashed: the length of its preimage
/// in bits fits in 64 bits.
pub open spec fn hashable(w: WireModel) -> bool {
    32 + 8 * w.values.len() < 0x2000_0000_0000_0000
}

/// The preimage of a wire is 32 bytes and 8 more for each residue.
proof fn lemma_preimage_len(a: u64, b: u64, w: WireModel)
    ensures
        wire_preimage(a, b, w).len() == 32 + 8 * w.values.len(),
{
    lemma_values_bytes_len(w.values);
}

proof fn lemma_values_bytes_len(values: Seq<u64>)
    ensures
        values_bytes(values).len() == 8 * values.len(),
    decreases values.len(),
{
    if values.len() > 0 {
        lemma_values_bytes_len(values.drop_last());
    }
}

/// The number whose big-endian bytes are `bytes`.
pub open spec fn be_value(bytes: Seq<u8>) -> u64
    decreases bytes.len(),
{
    if bytes.len() == 0 {
        0
    } else {
        (be_value(bytes.drop_last()) << 8) | (bytes.last() as u64)
    }
}

/// The number whose little-endian bytes are `bytes`.
pub open spec fn le_value(bytes: Seq<u8>) -> u64
    decreases bytes.len(),
{
    if bytes.len() == 0 {
        0
    } else {
        le_value(bytes.drop_last()) | ((bytes.last() as u64) << ((8 * (bytes.len() - 1)) as u64))
    }
}

/// The hash of a wire under the tweak `(a, b)`: the first eight bytes of
/// the digest of its preimage, as a big-endian number.
pub open spec fn wire_hash(a: u64, b: u64, w: WireModel) -> u64 {
    be_value(ring_sha256(wire_preimage(a, b, w)).take(8))
}

/// The number of bytes that hold one residue of the domain `domain`.
pub open spec fn bytes_per_value(domain: u64) -> nat {
    (bit_length(domain as nat) + 7) / 8
}

/// The wire of the shape of `target` derived from the hash of `w` under
/// the tweak `(a, b)`: residue `i` is the number that the bytes
/// `i * bytes_per_value ..` of the digest form, little end first, reduced
/// modulo the domain.
pub open spec fn wire_from_hash(a: u64, b: u64, w: WireModel, target: WireModel) -> WireModel {
    let width = bytes_per_value(target.domain) as int;
    let d = ring_sha256(wire_preimage(a, b, w));
    WireModel {
        lambda: target.lambda,
        domain: target.domain,
        values: Seq::new(
            target.lambda as nat,
            |i: int| (le_value(d.subrange(i * width, i * width + width)) % target.domain) as u64,
        ),
    }
}

/// A vector of residues modulo a domain.
#[derive(Debug)]
pub struct Wire {
    lambda: u64,
    values: Vec<u64>,
    domain: u64,
}

impl View for Wire {
    type V = WireModel;

    closed spec fn view(&self) -> WireModel {
        WireModel { lambda: self.lambda, values: self.values@, domain: self.domain }
    }
}

impl Clone for Wire {
    fn clone(&self) -> (copy: Self)
        ensures
            copy@ == self@,
    {
        let mut values: Vec<u64> = Vec::with_capacity(self.values.len());
        let mut i: usize = 0;
        while i < self.values.len()
            invariant
                i <= self.values@.len(),
                values@ == self.values@.take(i as int),
            decreases self.values@.len() - i,
        {
            values.push(self.values[i]);
            assert(self.values@.take(i as int).push(self.values@[i as int])
                =~= self.values@.take(i + 1));
            i += 1;
        }
        assert(self.values@.take(self.values@.len() as int) =~= self.values@);
        Wire { lambda: self.lambda, values, domain: self.domain }
    }
}

/// The bytes that are hashed for `w` under the tweak `(a, b)`.
fn preimage(a: u64, b: u64, w: &Wire) -> (bytes: Vec<u8>)
    ensures
        bytes@ == wire_preimage(a, b, w@),
{
    let mut bytes = to_be_bytes(a);
    let mut next = to_be_bytes(b);
    bytes.append(&mut next);
    let mut next = to_be_bytes(w.lambda);
    bytes.append(&mut next);
    let mut next = to_be_bytes(w.domain);
    bytes.append(&mut next);
    let ghost head = bytes@;
    let mut i: usize = 0;
    assert(values_bytes(w.values@.take(0)) =~= Seq::<u8>::empty());
    assert(bytes@ =~= head + values_bytes(w.values@.take(0)));
    while i < w.values.len()
        invariant
            i <= w.values@.len(),
            bytes@ == head + values_bytes(w.values@.take(i as int)),
        decreases w.values@.len() - i,
    {
        let mut next = to_be_bytes(w.values[i]);
        bytes.append(&mut next);
        proof {
            let upto = w.values@.take(i + 1);
            assert(upto.drop_last() =~= w.values@.take(i as int));
            assert(upto.last() == w.values@[i as int]);
            assert(bytes@ =~= head + values_bytes(upto));
        }
        i += 1;
    }
    assert(w.values@.take(w.values@.len() as int) =~= w.values@);
    bytes
}

/// The hash of `w` under the tweak `(a, b)`.
pub fn hash(a: u64, b: u64, w: &Wire) -> (h: u64)
    requires
        hashable(w@),
    ensures
        h == wire_hash(a, b, w@),
{
    let bytes = preimage(a, b, w);
    proof {
        lemma_preimage_len(a, b, w@);
    }
    let d = digest(bytes.as_slice());
    let mut num: u64 = 0;
    let mut i: usize = 0;
    assert(d@.take(8).take(0) =~= Seq::<u8>::empty());
    while i < 8
        invariant
            d@.len() == 32,
            i <= 8,
            num == be_value(d@.take(8).take(i as int)),
        decreases 8 - i,
    {
        proof {
            let upto = d@.take(8).take(i + 1);
            assert(upto.drop_last() =~= d@.take(8).take(i as int));
            assert(upto.last() == d@[i as int]);
        }
        num = (num << 8) | (d[i] as u64);
        i += 1;
    }
    assert(d@.take(8).take(8) =~= d@.take(8));
    num
}

/// The number of binary digits of `x`.
pub fn log2(x: u64) -> (r: u64)
    ensures
        r == bit_length(x as nat),
        r <= 64,
{
    proof {
        axiom_u64_leading_zeros(x);
        lemma_leading_zeros(x);
    }
    64 - (x.leading_zeros() as u64)
}

proof fn lemma_leading_zeros(v: u64)
    ensures
        64 - u64_leading_zeros(v) == bit_length(v as nat),
    decreases v,
{
    reveal(u64_leading_zeros);
    if v != 0 {
        lemma_leading_zeros(v / 2);
    }
}

/// The lowest bit of `a`.
pub fn lsb2(a: u64) -> (r: u64)
    ensures
        r == a & 1,
        r <= 1,
{
    assert(a & 1 <= 1) by (bit_vector);
    a & 1
}

/// The last residue of a wire that carries `lambda + 1` residues: its
/// colour.
pub fn tau(w: &Wire) -> (r: u64)
    requires
        w@.lambda < w@.values.len(),
    ensures
        r == w@.values[w@.lambda as int],
{
    assert(w.lambda < w.values.len());
    w.values[w.lambda as usize]
}

/// The wire of the shape of `target` derived from the hash of `w` under
/// the tweak `(a, b)`. The residues of `target`, each in as many bytes as
/// its domain needs, must fit in the 32 bytes of a digest.
pub fn hash_wire(a: u64, b: u64, w: &Wire, target: &Wire) -> (r: Wire)
    requires
        hashable(w@),
        target@.lambda >= 1,
        target@.domain >= 1,
        target@.lambda * bytes_per_value(target@.domain) <= 32,
    ensures
        r@ == wire_from_hash(a, b, w@, target@),
        forall|i: int| 0 <= i < r@.values.len() ==> #[trigger] r@.values[i] < r@.domain,
{
    let bytes = preimage(a, b, w);
    proof {
        lemma_preimage_len(a, b, w@);
    }
    let d = digest(bytes.as_slice());
    let bits = log2(target.domain);
    let width: usize = ((bits + 7) / 8) as usize;
    assert(width == bytes_per_value(target.domain));
    assert(1 <= width <= 8) by {
        assert(bit_length(target.domain as nat) >= 1);
    }
    assert(target.lambda <= 32) by (nonlinear_arith)
        requires
            target.lambda * width <= 32,
            width >= 1,
    ;
    let count: usize = target.lambda as usize;
    let mut values: Vec<u64> = Vec::with_capacity(count);
    let mut k: usize = 0;
    while k < count
        invariant
            d@.len() == 32,
            d@ == ring_sha256(wire_preimage(a, b, w@)),
            1 <= width <= 8,
            width == bytes_per_value(target.domain),
            count == target.lambda,
            count * width <= 32,
            count <= 32,
            target.domain >= 1,
            k <= count,
            values@.len() == k,
            forall|i: int|
                0 <= i < k ==> #[trigger] values@[i] == (le_value(
                    d@.subrange(i * width, i * width + width),
                ) % target.domain) as u64,
        decreases count - k,
    {
        assert(0 <= k * width && k * width + width <= 32) by (nonlinear_arith)
            requires
                0 <= k,
                k + 1 <= count,
                count * width <= 32,
                width >= 1,
        ;
        let start: usize = k * width;
        let ghost piece = d@.subrange(start as int, start + width);
        let mut value: u64 = 0;
        let mut j: usize = 0;
        assert(piece.take(0) =~= Seq::<u8>::empty());
        while j < width
            invariant
                d@.len() == 32,
                start + width <= 32,
                width <= 8,
                piece == d@.subrange(start as int, start + width),
                j <= width,
                value == le_value(piece.take(j as int)),
            decreases width - j,
        {
            proof {
                let upto = piece.take(j + 1);
                assert(upto.drop_last() =~= piece.take(j as int));
                assert(upto.last() == d@[start + j]);
            }
            value = value | ((d[start + j] as u64) << ((8 * j) as u64));
            j += 1;
        }
        assert(piece.take(width as int) =~= piece);
        values.push(value % target.domain);
        k += 1;
    }
    let r = Wire { domain: target.domain, lambda: target.lambda, values };
    assert(r@.values =~= wire_from_hash(a, b, w@, target@).values);
    r
}

impl Wire {
    /// The wire of the domain 0 that carries nothing.
    pub fn empty() -> (w: Wire)
        ensures
            w@ == (WireModel { lambda: 0, values: Seq::<u64>::empty(), domain: 0 }),
    {
        Wire { domain: 0, lambda: 0, values: Vec::new() }
    }

    /// A wire of `lambda + 1` random residues, none above `domain`.
    pub fn new(domain: u64, lambda: u64) -> (w: Wire)
        requires
            domain < u64::MAX,
            lambda < usize::MAX,
        ensures
            w@.lambda == lambda,
            w@.domain == domain,
            w@.values.len() == lambda + 1,
            within_domain(w@),
    {
        let count: usize = (lambda + 1) as usize;
        let mut values: Vec<u64> = Vec::with_capacity(count);
        let mut i: usize = 0;
        while i < count
            invariant
                domain < u64::MAX,
                i <= count,
                values@.len() == i,
                forall|k: int| 0 <= k < i ==> #[trigger] values@[k] <= domain,
            decreases count - i,
        {
            values.push(random_below(domain + 1));
            i += 1;
        }
        Wire { values, lambda, domain }
    }

    /// A wire of `lambda` random residues, none above `domain`, followed
    /// by the residue 1: the offset between the labels of a domain.
    pub fn delta(domain: u64, lambda: u64) -> (w: Wire)
        requires
            1 <= domain < u64::MAX,
            lambda < usize::MAX,
        ensures
            w@.lambda == lambda,
            w@.domain == domain,
            w@.values.len() == lambda + 1,
            w@.values[lambda as int] == 1,
            within_domain(w@),
    {
        let count: usize = lambda as usize;
        let mut values: Vec<u64> = Vec::with_capacity(count + 1);
        let mut i: usize = 0;
        while i < count
            invariant
                domain < u64::MAX,
                i <= count,
                values@.len() == i,
                forall|k: int| 0 <= k < i ==> #[trigger] values@[k] <= domain,
            decreases count - i,
        {
            values.push(random_below(domain + 1));
            i += 1;
        }
        values.push(1);
        Wire { values, lambda, domain }
    }

    /// The wire that carries `values`.
    pub fn from_values(domain: u64, lambda: u64, values: Vec<u64>) -> (w: Wire)
        ensures
            w@ == (WireModel { lambda, values: values@, domain }),
    {
        Wire { values, lambda, domain }
    }

    /// The residues.
    pub fn values(&self) -> (values: &Vec<u64>)
        ensures
            values@ == self@.values,
    {
        &self.values
    }

    /// The number of residues less one.
    pub fn lambda(&self) -> (r: u64)
        ensures
            r == self@.lambda,
    {
        self.lambda
    }

    /// The domain of the residues.
    pub fn domain(&self) -> (r: u64)
        ensures
            r == self@.domain,
    {
        self.domain
    }

    /// The sum of two wires of one shape, residue by residue.
    pub fn add(&self, rhs: &Wire) -> (r: Wire)
        requires
            self@.lambda == rhs@.lambda,
            self@.domain == rhs@.domain,
            self@.domain > 0,
        ensures
            r@ == wire_add(self@, rhs@),
            forall|i: int| 0 <= i < r@.values.len() ==> #[trigger] r@.values[i] < r@.domain,
    {
        let domain = self.domain;
        let n = if self.values.len() <= rhs.values.len() {
            self.values.len()
        } else {
            rhs.values.len()
        };
        let mut values: Vec<u64> = Vec::with_capacity(n);
        let mut i: usize = 0;
        while i < n
            invariant
                domain == self.domain,
                domain > 0,
                n <= self.values@.len(),
                n <= rhs.values@.len(),
                i <= n,
                values@.len() == i,
                forall|k: int|
                    0 <= k < i ==> #[trigger] values@[k] == ((self.values@[k] + rhs.values@[k]) % (
                    domain as int)) as u64 && values@[k] < domain,
            decreases n - i,
        {
            let sum: u128 = self.values[i] as u128 + rhs.values[i] as u128;
            values.push((sum % (domain as u128)) as u64);
            i += 1;
        }
        let r = Wire { domain, values, lambda: self.lambda };
        assert(r@.values =~= wire_add(self@, rhs@).values);
        r
    }

    /// The difference of two wires of one shape, residue by residue.
    pub fn sub(&self, rhs: &Wire) -> (r: Wire)
        requires
            self@.lambda == rhs@.lambda,
            self@.domain == rhs@.domain,
            self@.domain > 0,
            within_domain(rhs@),
        ensures
            r@ == wire_sub(self@, rhs@),
            forall|i: int| 0 <= i < r@.values.len() ==> #[trigger] r@.values[i] < r@.domain,
    {
        let domain = self.domain;
        let n = if self.values.len() <= rhs.values.len() {
            self.values.len()
        } else {
            rhs.values.len()
        };
        let mut values: Vec<u64> = Vec::with_capacity(n);
        let mut i: usize = 0;
        while i < n
            invariant
                domain == self.domain,
                domain == rhs.domain,
                domain > 0,
                within_domain(rhs@),
                n <= self.values@.len(),
                n <= rhs.values@.len(),
                i <= n,
                values@.len() == i,
                forall|k: int|
                    0 <= k < i ==> #[trigger] values@[k] == ((self.values@[k] + (domain
                        - rhs.values@[k])) % (domain as int)) as u64 && values@[k] < domain,
            decreases n - i,
        {
            assert(rhs@.values[i as int] <= domain);
            let sum: u128 = self.values[i] as u128 + (domain - rhs.values[i]) as u128;
            values.push((sum % (domain as u128)) as u64);
            i += 1;
        }
        let r = Wire { domain, values, lambda: self.lambda };
        assert(r@.values =~= wire_sub(self@, rhs@).values);
        r
    }

    /// The wire whose residues are the domain less those of `self`.
    pub fn neg(&self) -> (r: Wire)
        requires
            within_domain(self@),
        ensures
            r@ == wire_neg(self@),
            within_domain(r@),
    {
        let domain = self.domain;
        let n = self.values.len();
        let mut values: Vec<u64> = Vec::with_capacity(n);
        let mut i: usize = 0;
        while i < n
            invariant
                domain == self.domain,
                within_domain(self@),
                n == self.values@.len(),
                i <= n,
                values@.len() == i,
                forall|k: int|
                    0 <= k < i ==> #[trigger] values@[k] == (domain - self.values@[k]) as u64
                        && values@[k] <= domain,
            decreases n - i,
        {
            assert(self@.values[i as int] <= domain);
            values.push(domain - self.values[i]);
            i += 1;
        }
        let r = Wire { domain, values, lambda: self.lambda };
        assert(r@.values =~= wire_neg(self@).values);
        r
    }

    /// The wire scaled by `rhs`, residue by residue.
    pub fn mul(&self, rhs: u64) -> (r: Wire)
        requires
            self@.domain > 0,
        ensures
            r@ == wire_mul(self@, rhs),
            forall|i: int| 0 <= i < r@.values.len() ==> #[trigger] r@.values[i] < r@.domain,
    {
        let domain = self.domain;
        let n = self.values.len();
        let mut values: Vec<u64> = Vec::with_capacity(n);
        let mut i: usize = 0;
        while i < n
            invariant
                domain == self.domain,
                domain > 0,
                n == self.values@.len(),
                i <= n,
                values@.len() == i,
                forall|k: int|
                    0 <= k < i ==> #[trigger] values@[k] == ((self.values@[k] * rhs) % (
                    domain as int)) as u64 && values@[k] < domain,
            decreases n - i,
        {
            let x = self.values[i];
            assert(x * rhs <= u64::MAX * u64::MAX) by (nonlinear_arith)
                requires
                    0 <= x <= u64::MAX,
                    0 <= rhs <= u64::MAX,
            ;
            let product: u128 = (x as u128) * (rhs as u128);
            values.push((product % (domain as u128)) as u64);
            i += 1;
        }
        let r = Wire { domain, values, lambda: self.lambda };
        assert(r@.values =~= wire_mul(self@, rhs).values);
        r
    }
}

/// What a gate computes.
pub enum NewGateKind {
    /// The sum of the inputs.
    ADD,
    /// The one input times a constant.
    MUL(u64),
    /// A function of the one input, with values in the given range; the
    /// table holds what it gives for each value that the input can take.
    PROJ(u64, Vec<u64>),
}

/// A gate of an arithmetic circuit.
pub struct NewGate {
    pub kind: NewGateKind,
    pub output: usize,
    pub inputs: Vec<usize>,
    pub domain: u64,
}

/// An arithmetic circuit: the inputs take the first wires, each gate the
/// next one, and the outputs are the last wires.
pub struct NewCircuit {
    pub num_wires: usize,
    pub num_inputs: usize,
    pub num_outputs: usize,
    pub gates: Vec<NewGate>,
    pub input_domains: Vec<u64>,
}

/// The labels of a circuit's inputs for the value 0, and for each domain
/// the offset between the labels of two values that differ by one.
pub struct Encoding {
    pub wires: Vec<Wire>,
    pub delta: HashMap<u64, Wire>,
}

/// For each output of a circuit the hashes of its labels, one per value of
/// its domain, with the output's wire and domain.
pub struct Decoding {
    pub map: Vec<Vec<u64>>,
    pub ids: Vec<usize>,
    pub domains: Vec<u64>,
}

/// No value of an output's domain has the hash of the label at hand.
#[derive(Debug)]
pub struct DecodeError {}

impl DecodeError {
    /// What went wrong, in words.
    pub fn message(&self) -> (s: String)
        ensures
            s@ == "Error decoding result"@,
    {
        String::from_str("Error decoding result")
    }
}

/// Whether `x` can be encoded under `e`: there is one value per input,
/// and every input's domain has an offset of the input's shape.
pub open spec fn encodable(e: &Encoding, x: Seq<u64>) -> bool {
    &&& e.wires@.len() == x.len()
    &&& forall|i: int|
        0 <= i < e.wires@.len() ==> {
            let w = (#[trigger] e.wires@[i])@;
            &&& w.domain > 0
            &&& e.delta@.contains_key(w.domain)
            &&& e.delta@[w.domain]@.lambda == w.lambda
            &&& e.delta@[w.domain]@.domain == w.domain
        }
}

/// The labels of the inputs `x`: for each input its label for 0 plus `x`
/// times the offset of its domain.
pub fn encode(e: &Encoding, x: &Vec<u64>) -> (z: Vec<Wire>)
    requires
        encodable(e, x@),
    ensures
        z@.len() == x@.len(),
        forall|i: int|
            0 <= i < z@.len() ==> (#[trigger] z@[i])@ == wire_add(
                e.wires@[i]@,
                wire_mul(e.delta@[e.wires@[i]@.domain]@, x@[i]),
            ),
{
    let n = e.wires.len();
    let mut z: Vec<Wire> = Vec::with_capacity(n);
    let mut i: usize = 0;
    while i < n
        invariant
            encodable(e, x@),
            n == e.wires@.len(),
            i <= n,
            z@.len() == i,
            forall|k: int|
                0 <= k < i ==> (#[trigger] z@[k])@ == wire_add(
                    e.wires@[k]@,
                    wire_mul(e.delta@[e.wires@[k]@.domain]@, x@[k]),
                ),
        decreases n - i,
    {
        let w = &e.wires[i];
        assert(e.wires@[i as int]@.domain > 0);
        let domain = w.domain();
        let offset = e.delta.get(&domain).unwrap();
        z.push(w.add(&offset.mul(x[i])));
        i += 1;
    }
    z
}

/// Whether `z` can be decoded under `decoding`: there is one label, one
/// wire and one domain per output, and one hash per value of each
/// output's domain.
pub open spec fn decodable(decoding: &Decoding, z: Seq<Wire>) -> bool {
    &&& decoding.map@.len() == z.len()
    &&& decoding.ids@.len() == z.len()
    &&& decoding.domains@.len() == z.len()
    &&& forall|i: int|
        0 <= i < z.len() ==> (#[trigger] decoding.map@[i])@.len() >= decoding.domains@[i]
    &&& forall|i: int| 0 <= i < z.len() ==> hashable((#[trigger] z[i])@)
}

/// Whether `k` is a value of output `i` whose hash is that of the label.
pub open spec fn matches_label(decoding: &Decoding, z: Seq<Wire>, i: int, k: u64) -> bool {
    k < decoding.domains@[i] && wire_hash(decoding.ids@[i] as u64, k, z[i]@) == decoding.map@[i]@[k as int]
}

/// Whether some value of output `i` has the hash of the label.
pub open spec fn has_value(decoding: &Decoding, z: Seq<Wire>, i: int) -> bool {
    exists|k: u64| #[trigger] matches_label(decoding, z, i, k)
}

/// The values of the outputs with the labels `z`: for each output the
/// least value of its domain whose hash is that of the label. Fails where
/// an output has no such value.
pub fn decode(decoding: &Decoding, z: &Vec<Wire>) -> (r: Result<Vec<u64>, DecodeError>)
    requires
        decodable(decoding, z@),
    ensures
        r is Ok <==> forall|i: int| 0 <= i < z@.len() ==> #[trigger] has_value(decoding, z@, i),
        r matches Ok(y) ==> y@.len() == z@.len() && forall|i: int|
            0 <= i < z@.len() ==> matches_label(decoding, z@, i, #[trigger] y@[i]) && forall|k: u64|
                k < y@[i] ==> !matches_label(decoding, z@, i, k),
{
    let n = decoding.map.len();
    let mut y: Vec<u64> = Vec::with_capacity(n);
    let mut i: usize = 0;
    while i < n
        invariant
            decodable(decoding, z@),
            n == z@.len(),
            i <= n,
            y@.len() == i,
            forall|j: int|
                0 <= j < i ==> matches_label(decoding, z@, j, #[trigger] y@[j]) && forall|k: u64|
                    k < y@[j] ==> !matches_label(decoding, z@, j, k),
        decreases n - i,
    {
        let id = decoding.ids[i] as u64;
        let h = &decoding.map[i];
        let domain = decoding.domains[i];
        assert(decoding.map@[i as int]@.len() >= domain);
        assert(domain <= h.len());
        let mut found: Option<u64> = None;
        let mut k: u64 = 0;
        while k < domain && found.is_none()
            invariant
                decodable(decoding, z@),
                i < n,
                n == z@.len(),
                id == decoding.ids@[i as int] as u64,
                h@ == decoding.map@[i as int]@,
                domain == decoding.domains@[i as int],
                usize::MAX >= h@.len() >= domain,
                k <= domain,
                found is None ==> forall|c: u64| c < k ==> !matches_label(decoding, z@, i as int, c),
                found matches Some(v) ==> matches_label(decoding, z@, i as int, v) && forall|c: u64|
                    c < v ==> !matches_label(decoding, z@, i as int, c),
            decreases domain - k + (if found is None { 1int } else { 0int }),
        {
            if hash(id, k, &z[i]) == h[k as usize] {
                found = Some(k);
            } else {
                k += 1;
            }
        }
        match found {
            Some(v) => {
                y.push(v);
            },
            None => {
                assert forall|c: u64| !matches_label(decoding, z@, i as int, c) by {}
                assert(!has_value(decoding, z@, i as int));
                return Err(DecodeError {  });
            },
        }
        i += 1;
    }
    assert forall|j: int| 0 <= j < z@.len() implies #[trigger] has_value(decoding, z@, j) by {
        assert(matches_label(decoding, z@, j, y@[j]));
    }
    Ok(y)
}

/// Whether no residue of `w` is above the domain.
pub fn is_within_domain(w: &Wire) -> (r: bool)
    ensures
        r == within_domain(w@),
{
    let mut i: usize = 0;
    while i < w.values.len()
        invariant
            i <= w.values@.len(),
            forall|k: int| 0 <= k < i ==> #[trigger] w@.values[k] <= w@.domain,
        decreases w.values@.len() - i,
    {
        if w.values[i] > w.domain {
            assert(w@.values[i as int] > w@.domain);
            return false;
        }
        i += 1;
    }
    true
}

/// Whether a wire is short enough to be hashed.
pub fn is_hashable(w: &Wire) -> (r: bool)
    ensures
        r == hashable(w@),
{
    w.values.len() < 0x1000_0000 || (w.values.len() as u64) < 0x0400_0000_0000_0000u64 - 4
}

/// The view of an optional wire.
pub open spec fn wire_option(o: Option<Wire>) -> Option<WireModel> {
    match o {
        Some(w) => Some(w@),
        None => None,
    }
}

/// The view of an optional reference to a wire.
pub open spec fn ref_option(o: Option<&Wire>) -> Option<WireModel> {
    match o {
        Some(w) => Some(w@),
        None => None,
    }
}

/// The views of a sequence of wires.
pub open spec fn models(wires: Seq<Wire>) -> Seq<WireModel> {
    Seq::new(wires.len(), |i: int| wires[i]@)
}

/// The views of an optional vector of wires.
pub open spec fn wires_option(o: Option<Vec<Wire>>) -> Option<Seq<WireModel>> {
    match o {
        Some(v) => Some(models(v@)),
        None => None,
    }
}

/// The views of the tables of the projection gates.
pub open spec fn tables_model(f: Map<usize, Vec<Wire>>) -> Map<usize, Seq<WireModel>> {
    Map::new(|k: usize| f.contains_key(k), |k: usize| models(f[k]@))
}

/// The wire at the place `i`, if there is one.
pub open spec fn wire_at(wires: Seq<WireModel>, i: int) -> Option<WireModel> {
    if 0 <= i < wires.len() {
        Some(wires[i])
    } else {
        None
    }
}

/// The offset of the domain `m`, if it has one.
pub open spec fn offset_of(delta: Map<u64, Wire>, m: u64) -> Option<WireModel> {
    if delta.contains_key(m) {
        Some(delta[m]@)
    } else {
        None
    }
}

/// What the empty wire holds.
pub open spec fn empty_model() -> WireModel {
    WireModel { lambda: 0, values: Seq::<u64>::empty(), domain: 0 }
}

/// The sum of two wires, where both are there and have one shape and a
/// domain.
pub open spec fn sum_model(a: Option<WireModel>, b: Option<WireModel>) -> Option<WireModel> {
    match (a, b) {
        (Some(a), Some(b)) => if a.lambda == b.lambda && a.domain == b.domain && a.domain > 0 {
            Some(wire_add(a, b))
        } else {
            None
        },
        _ => None,
    }
}

/// The difference of two wires, where both are there and have one shape
/// and a domain that no residue of the second is above.
pub open spec fn difference_model(a: Option<WireModel>, b: Option<WireModel>) -> Option<
    WireModel,
> {
    match (a, b) {
        (Some(a), Some(b)) => if a.lambda == b.lambda && a.domain == b.domain && a.domain > 0
            && within_domain(b) {
            Some(wire_sub(a, b))
        } else {
            None
        },
        _ => None,
    }
}

/// The wire scaled by `k`, where it is there and has a domain.
pub open spec fn scaled_model(a: Option<WireModel>, k: u64) -> Option<WireModel> {
    match a {
        Some(a) => if a.domain > 0 {
            Some(wire_mul(a, k))
        } else {
            None
        },
        None => None,
    }
}

/// Whether a wire of the shape of `target` can be derived from a digest:
/// it has a residue and a domain, and its residues fit in 32 bytes.
pub open spec fn derivable(target: WireModel) -> bool {
    &&& target.lambda >= 1
    &&& target.domain >= 1
    &&& target.lambda * bytes_per_value(target.domain) <= 32
}

/// The wire of the shape of `target` derived from the hash of `w` under
/// the tweak `(a, b)`, where both are there, `w` can be hashed and such a
/// wire derived.
pub open spec fn derived_model(a: u64, b: u64, w: Option<WireModel>, target: Option<WireModel>) -> Option<
    WireModel,
> {
    match (w, target) {
        (Some(w), Some(target)) => if hashable(w) && derivable(target) {
            Some(wire_from_hash(a, b, w, target))
        } else {
            None
        },
        _ => None,
    }
}

/// The sum of two wires, where both are there and fit each other.
fn sum_of(a: Option<&Wire>, b: Option<&Wire>) -> (r: Option<Wire>)
    ensures
        wire_option(r) == sum_model(ref_option(a), ref_option(b)),
{
    match (a, b) {
        (Some(a), Some(b)) => {
            if a.lambda == b.lambda && a.domain == b.domain && a.domain > 0 {
                Some(a.add(b))
            } else {
                None
            }
        },
        _ => None,
    }
}

/// The difference of two wires, where both are there and fit each other.
fn difference_of(a: Option<&Wire>, b: Option<&Wire>) -> (r: Option<Wire>)
    ensures
        wire_option(r) == difference_model(ref_option(a), ref_option(b)),
{
    match (a, b) {
        (Some(a), Some(b)) => {
            if a.lambda == b.lambda && a.domain == b.domain && a.domain > 0 && is_within_domain(
                b,
            ) {
                Some(a.sub(b))
            } else {
                None
            }
        },
        _ => None,
    }
}

/// The wire scaled by `k`, where it is there and has a domain.
fn scaled(a: Option<&Wire>, k: u64) -> (r: Option<Wire>)
    ensures
        wire_option(r) == scaled_model(ref_option(a), k),
{
    match a {
        Some(a) => {
            if a.domain > 0 {
                Some(a.mul(k))
            } else {
                None
            }
        },
        None => None,
    }
}

/// The wire of the shape of `target` derived from the hash of `w`, where
/// both are there, `w` can be hashed and such a wire derived.
fn derived(a: u64, b: u64, w: Option<&Wire>, target: Option<&Wire>) -> (r: Option<Wire>)
    ensures
        wire_option(r) == derived_model(a, b, ref_option(w), ref_option(target)),
{
    match (w, target) {
        (Some(w), Some(target)) => {
            if !is_hashable(w) || target.lambda < 1 || target.lambda > 32 || target.domain < 1 {
                assert(target.lambda > 32 ==> !derivable(target@)) by {
                    if target.lambda > 32 && target.domain >= 1 {
                        assert(bit_length(target.domain as nat) >= 1);
                        assert(target.lambda * bytes_per_value(target.domain) > 32)
                            by (nonlinear_arith)
                            requires
                                target.lambda > 32,
                                bytes_per_value(target.domain) >= 1,
                        ;
                    }
                }
                return None;
            }
            let width = (log2(target.domain) + 7) / 8;
            assert(target.lambda * width <= 32 * 8) by (nonlinear_arith)
                requires
                    target.lambda <= 32,
                    width <= 8,
            ;
            if target.lambda * width > 32 {
                return None;
            }
            Some(hash_wire(a, b, w, target))
        },
        _ => None,
    }
}

/// The sum of the wires that `inputs` names, the first `upto` of them,
/// where there is one at least and each is there and fits the sum before.
pub open spec fn sum_of_inputs(wires: Seq<WireModel>, inputs: Seq<usize>, upto: nat) -> Option<
    WireModel,
>
    decreases upto,
{
    if upto == 0 {
        None
    } else if upto == 1 {
        wire_at(wires, inputs[0] as int)
    } else {
        sum_model(
            sum_of_inputs(wires, inputs, (upto - 1) as nat),
            wire_at(wires, inputs[upto - 1] as int),
        )
    }
}

/// A sum that has failed stays failed.
proof fn lemma_sum_stays_none(wires: Seq<WireModel>, inputs: Seq<usize>, from: nat, upto: nat)
    requires
        1 <= from <= upto,
        sum_of_inputs(wires, inputs, from) is None,
    ensures
        sum_of_inputs(wires, inputs, upto) is None,
    decreases upto,
{
    if from < upto {
        lemma_sum_stays_none(wires, inputs, from, (upto - 1) as nat);
    }
}

/// The sum of the wires that `inputs` names.
fn sum_inputs(wires: &Vec<Wire>, inputs: &Vec<usize>) -> (r: Option<Wire>)
    ensures
        wire_option(r) == sum_of_inputs(models(wires@), inputs@, inputs@.len()),
{
    let ghost all = models(wires@);
    if inputs.len() == 0 {
        return None;
    }
    if inputs[0] >= wires.len() {
        proof {
            lemma_sum_stays_none(all, inputs@, 1, inputs@.len());
        }
        return None;
    }
    let mut sum = wires[inputs[0]].clone();
    let mut i: usize = 1;
    while i < inputs.len()
        invariant
            all == models(wires@),
            1 <= i <= inputs@.len(),
            Some(sum@) == sum_of_inputs(all, inputs@, i as nat),
        decreases inputs@.len() - i,
    {
        let x = inputs[i];
        let next = if x < wires.len() {
            sum_of(Some(&sum), Some(&wires[x]))
        } else {
            None
        };
        assert(wire_option(next) == sum_of_inputs(all, inputs@, (i + 1) as nat));
        match next {
            Some(s) => {
                sum = s;
            },
            None => {
                proof {
                    lemma_sum_stays_none(all, inputs@, (i + 1) as nat, inputs@.len());
                }
                return None;
            },
        }
        i += 1;
    }
    Some(sum)
}

/// The number of residues less one that a wire of the domain `m` carries
/// at the security level `k`: `k` over the digits of `m`, rounded up.
/// There is none for the domain 0, for a domain or a level near the
/// largest number, nor where a vector could not hold the residues.
pub open spec fn lambda_of(k: u64, m: u64) -> Option<u64> {
    let digits = bit_length(m as nat) as int;
    if 1 <= m < u64::MAX && k <= u64::MAX - 64 && (k + digits - 1) / digits < usize::MAX {
        Some(((k + digits - 1) / digits) as u64)
    } else {
        None
    }
}

/// The number of residues less one of a wire of the domain `m` at the
/// security level `k`.
fn residues(k: u64, m: u64) -> (r: Option<u64>)
    ensures
        r == lambda_of(k, m),
{
    if m < 1 || m == u64::MAX || k > u64::MAX - 64 {
        return None;
    }
    let digits = log2(m);
    assert(digits >= 1) by {
        assert(bit_length(m as nat) >= 1);
    }
    let lambda = (k + digits - 1) / digits;
    if lambda as u128 >= usize::MAX as u128 {
        return None;
    }
    Some(lambda)
}

/// Adds `m` to `domains` unless it is there already.
fn push_unique(domains: &mut Vec<u64>, m: u64)
    ensures
        final(domains)@ == (if old(domains)@.contains(m) {
            old(domains)@
        } else {
            old(domains)@.push(m)
        }),
        final(domains)@.contains(m),
        forall|x: u64| old(domains)@.contains(x) ==> final(domains)@.contains(x),
        forall|j: int|
            0 <= j < final(domains)@.len() ==> #[trigger] final(domains)@[j] == m || old(
                domains,
            )@.contains(final(domains)@[j]),
{
    let mut i: usize = 0;
    while i < domains.len()
        invariant
            domains@ == old(domains)@,
            i <= domains@.len(),
            forall|k: int| 0 <= k < i ==> domains@[k] != m,
        decreases domains@.len() - i,
    {
        if domains[i] == m {
            return ;
        }
        i += 1;
    }
    domains.push(m);
    proof {
        let before = old(domains)@;
        let after = domains@;
        assert(after[before.len() as int] == m);
        assert forall|x: u64| before.contains(x) implies after.contains(x) by {
            let j = choose|j: int| 0 <= j < before.len() && before[j] == x;
            assert(after[j] == x);
        }
        assert forall|j: int| 0 <= j < after.len() implies #[trigger] after[j] == m
            || before.contains(after[j]) by {
            if j < before.len() {
                assert(before[j] == after[j]);
            }
        }
    }
}

/// The label of a projection gate for the value 0: the negative of the
/// wire derived from the hash of the input's label for the value that its
/// colour `tau` stands for, plus the offset of the range times the
/// function's value there. `None` where an offset is missing, the domain
/// is 0 or too wide, the table of the function is too short, or the wires
/// do not fit each other.
pub open spec fn projection_label(
    output: u64,
    domain: u64,
    phi: Seq<u64>,
    delta_m: Option<WireModel>,
    delta_n: Option<WireModel>,
    input: WireModel,
) -> Option<WireModel> {
    if domain == 0 || domain > usize::MAX / 2 || delta_m is None || delta_n is None
        || input.lambda >= input.values.len() {
        None
    } else {
        let tau = input.values[input.lambda as int];
        if tau > domain || domain - tau >= phi.len() {
            None
        } else {
            let base = difference_model(Some(input), scaled_model(delta_m, tau));
            let hw = derived_model(output, 0, base, delta_n);
            match sum_model(hw, scaled_model(delta_n, phi[domain - tau])) {
                Some(w) => if within_domain(w) {
                    Some(wire_neg(w))
                } else {
                    None
                },
                None => None,
            }
        }
    }
}

/// The ciphertext of a projection gate for the value `x` of its input: the
/// label `w` of the output for 0 plus the offset of the range times the
/// function's value at `x`, masked by the wire derived from the hash of
/// the input's label for `x`.
pub open spec fn projection_row(
    output: u64,
    x: u64,
    phi: Seq<u64>,
    delta_m: Option<WireModel>,
    delta_n: Option<WireModel>,
    input: WireModel,
    w: WireModel,
) -> Option<WireModel> {
    if x >= phi.len() {
        None
    } else {
        let label = sum_model(Some(input), scaled_model(delta_m, x));
        let hw = derived_model(output, 0, label, Some(w));
        sum_model(sum_model(hw, Some(w)), scaled_model(delta_n, phi[x as int]))
    }
}

/// The table of a projection gate once the ciphertexts for the values
/// below `upto` are in: the ciphertext for `x` stands at the place
/// `(x + tau) % domain`, and the other places hold the empty wire.
pub open spec fn projection_table(
    output: u64,
    domain: u64,
    tau: u64,
    phi: Seq<u64>,
    delta_m: Option<WireModel>,
    delta_n: Option<WireModel>,
    input: WireModel,
    w: WireModel,
    upto: nat,
) -> Option<Seq<WireModel>>
    decreases upto,
{
    if upto == 0 {
        Some(Seq::new(domain as nat, |i: int| empty_model()))
    } else {
        match (
            projection_table(output, domain, tau, phi, delta_m, delta_n, input, w, (upto - 1) as nat),
            projection_row(output, (upto - 1) as u64, phi, delta_m, delta_n, input, w),
        ) {
            (Some(table), Some(row)) => Some(table.update((upto - 1 + tau) % (domain as int), row)),
            _ => None,
        }
    }
}

/// A table that has failed stays failed.
proof fn lemma_table_stays_none(
    output: u64,
    domain: u64,
    tau: u64,
    phi: Seq<u64>,
    delta_m: Option<WireModel>,
    delta_n: Option<WireModel>,
    input: WireModel,
    w: WireModel,
    from: nat,
    upto: nat,
)
    requires
        from <= upto,
        projection_table(output, domain, tau, phi, delta_m, delta_n, input, w, from) is None,
    ensures
        projection_table(output, domain, tau, phi, delta_m, delta_n, input, w, upto) is None,
    decreases upto,
{
    if from < upto {
        lemma_table_stays_none(
            output,
            domain,
            tau,
            phi,
            delta_m,
            delta_n,
            input,
            w,
            from,
            (upto - 1) as nat,
        );
    }
}

/// The label of a projection gate for the value 0, and its table.
pub open spec fn garbled_projection(
    output: u64,
    domain: u64,
    range: u64,
    phi: Seq<u64>,
    delta: Map<u64, Wire>,
    input: WireModel,
) -> Option<(WireModel, Seq<WireModel>)> {
    let delta_m = offset_of(delta, domain);
    let delta_n = offset_of(delta, range);
    match projection_label(output, domain, phi, delta_m, delta_n, input) {
        Some(w) => match projection_table(
            output,
            domain,
            input.values[input.lambda as int],
            phi,
            delta_m,
            delta_n,
            input,
            w,
            domain as nat,
        ) {
            Some(table) => Some((w, table)),
            None => None,
        },
        None => None,
    }
}

/// The view of what garbling a projection gate gives.
pub open spec fn projection_view(r: Option<(Wire, Vec<Wire>)>) -> Option<
    (WireModel, Seq<WireModel>),
> {
    match r {
        Some((w, table)) => Some((w@, models(table@))),
        None => None,
    }
}

/// What garbling a circuit gives: for each projection gate its table of
/// ciphertexts, the encoding of the inputs and the decoding of the outputs.
pub struct Garbled {
    pub f: HashMap<usize, Vec<Wire>>,
    pub e: Encoding,
    pub d: Decoding,
}

/// The ciphertext of a projection gate for the value `x` of its input.
fn garble_row(
    output: u64,
    x: u64,
    phi: &Vec<u64>,
    delta_m: Option<&Wire>,
    delta_n: Option<&Wire>,
    input: &Wire,
    w: &Wire,
) -> (r: Option<Wire>)
    ensures
        wire_option(r) == projection_row(
            output,
            x,
            phi@,
            ref_option(delta_m),
            ref_option(delta_n),
            input@,
            w@,
        ),
{
    if x as u128 >= phi.len() as u128 {
        return None;
    }
    let step = scaled(delta_m, x);
    let label = sum_of(Some(input), step.as_ref());
    let hw = derived(output, 0, label.as_ref(), Some(w));
    let masked = sum_of(hw.as_ref(), Some(w));
    let jump = scaled(delta_n, phi[x as usize]);
    sum_of(masked.as_ref(), jump.as_ref())
}

/// The label of a projection gate for the value 0, and its table: for each
/// value `x` of the input the label of the output for `phi[x]`, masked by
/// the hash of the input's label for `x`, at the place that the colour of
/// that label gives. `None` where the wires at hand do not have the shapes
/// this takes.
fn garble_projection(
    gate: &NewGate,
    range: u64,
    phi: &Vec<u64>,
    delta: &HashMap<u64, Wire>,
    input: &Wire,
) -> (r: Option<(Wire, Vec<Wire>)>)
    ensures
        projection_view(r) == garbled_projection(
            gate.output as u64,
            gate.domain,
            range,
            phi@,
            delta@,
            input@,
        ),
        r matches Some((w, table)) ==> table@.len() == gate.domain,
{
    let i = gate.output as u64;
    let domain = gate.domain;
    if domain == 0 || domain > usize::MAX as u64 / 2 {
        return None;
    }
    let delta_m = delta.get(&domain);
    let delta_n = delta.get(&range);
    assert(ref_option(delta_m) == offset_of(delta@, domain));
    assert(ref_option(delta_n) == offset_of(delta@, range));
    if delta_m.is_none() || delta_n.is_none() || input.lambda as u128 >= input.values.len()
        as u128 {
        return None;
    }
    let tau = tau(input);
    if tau > domain || (domain - tau) as u128 >= phi.len() as u128 {
        return None;
    }
    let shift = scaled(delta_m, tau);
    let base = difference_of(Some(input), shift.as_ref());
    let hw = derived(i, 0, base.as_ref(), delta_n);
    let jump = scaled(delta_n, phi[(domain - tau) as usize]);
    let w = match sum_of(hw.as_ref(), jump.as_ref()) {
        Some(w) => w,
        None => {
            return None;
        },
    };
    if !is_within_domain(&w) {
        return None;
    }
    let w = w.neg();
    assert(Some(w@) == projection_label(
        i,
        domain,
        phi@,
        ref_option(delta_m),
        ref_option(delta_n),
        input@,
    ));

    let mut table: Vec<Wire> = Vec::with_capacity(domain as usize);
    let mut k: u64 = 0;
    while k < domain
        invariant
            k <= domain,
            table@.len() == k,
            forall|j: int| 0 <= j < k ==> (#[trigger] table@[j])@ == empty_model(),
        decreases domain - k,
    {
        table.push(Wire::empty());
        k += 1;
    }
    assert(models(table@) =~= Seq::new(domain as nat, |i: int| empty_model()));
    let mut x: u64 = 0;
    while x < domain
        invariant
            i == gate.output as u64,
            domain == gate.domain,
            0 < domain <= usize::MAX / 2,
            input@.lambda < input@.values.len(),
            tau == input@.values[input@.lambda as int],
            tau <= domain,
            ref_option(delta_m) == offset_of(delta@, domain),
            ref_option(delta_n) == offset_of(delta@, range),
            Some(w@) == projection_label(
                i,
                domain,
                phi@,
                ref_option(delta_m),
                ref_option(delta_n),
                input@,
            ),
            x <= domain,
            table@.len() == domain,
            Some(models(table@)) == projection_table(
                i,
                domain,
                tau,
                phi@,
                ref_option(delta_m),
                ref_option(delta_n),
                input@,
                w@,
                x as nat,
            ),
        decreases domain - x,
    {
        let ghost before = models(table@);
        match garble_row(i, x, phi, delta_m, delta_n, input, &w) {
            Some(wx) => {
                table.set(((x + tau) % domain) as usize, wx);
                assert(models(table@) =~= before.update((x + tau) % (domain as int), wx@));
            },
            None => {
                proof {
                    assert(projection_table(
                        i,
                        domain,
                        tau,
                        phi@,
                        ref_option(delta_m),
                        ref_option(delta_n),
                        input@,
                        w@,
                        (x + 1) as nat,
                    ) is None);
                    lemma_table_stays_none(
                        i,
                        domain,
                        tau,
                        phi@,
                        ref_option(delta_m),
                        ref_option(delta_n),
                        input@,
                        w@,
                        (x + 1) as nat,
                        domain as nat,
                    );
                }
                return None;
            },
        }
        x += 1;
    }
    Some((w, table))
}

/// The label of a gate and, for a projection gate, its table: the sum of
/// the labels of the inputs, the label of the one input scaled, or the
/// label and table of a projection. `None` where it has no input,
/// reads a wire that is not there yet, or the wires do not fit.
pub open spec fn garbled_gate(gate: NewGate, delta: Map<u64, Wire>, wires: Seq<WireModel>) -> Option<
    (WireModel, Option<Seq<WireModel>>),
> {
    if gate.inputs@.len() == 0 || gate.inputs@[0] >= wires.len() {
        None
    } else {
        let first = wires[gate.inputs@[0] as int];
        match gate.kind {
            NewGateKind::ADD => match sum_of_inputs(wires, gate.inputs@, gate.inputs@.len()) {
                Some(w) => Some((w, None::<Seq<WireModel>>)),
                None => None,
            },
            NewGateKind::MUL(c) => match scaled_model(Some(first), c) {
                Some(w) => Some((w, None::<Seq<WireModel>>)),
                None => None,
            },
            NewGateKind::PROJ(range, phi) => match garbled_projection(
                gate.output as u64,
                gate.domain,
                range,
                phi@,
                delta,
                first,
            ) {
                Some(p) => Some((p.0, Some(p.1))),
                None => None,
            },
        }
    }
}

/// The labels of the wires so far, and the tables of the projection gates
/// so far.
#[verifier::ext_equal]
pub struct Labels {
    pub wires: Seq<WireModel>,
    pub tables: Map<usize, Seq<WireModel>>,
}

/// The labels and tables at hand.
pub open spec fn labels_of(wires: Seq<Wire>, f: Map<usize, Vec<Wire>>) -> Labels {
    Labels { wires: models(wires), tables: tables_model(f) }
}

/// The labels and tables once the first `upto` gates are garbled: each
/// gate adds its label as the next wire, and a projection gate puts its
/// table under its output.
pub open spec fn garbled_gates(c: &NewCircuit, delta: Map<u64, Wire>, start: Labels, upto: nat) -> Option<
    Labels,
>
    decreases upto,
{
    if upto == 0 {
        Some(start)
    } else {
        match garbled_gates(c, delta, start, (upto - 1) as nat) {
            Some(before) => {
                let gate = c.gates@[upto - 1];
                match garbled_gate(gate, delta, before.wires) {
                    Some((w, Some(table))) => Some(
                        Labels {
                            wires: before.wires.push(w),
                            tables: before.tables.insert(gate.output, table),
                        },
                    ),
                    Some((w, None)) => Some(
                        Labels { wires: before.wires.push(w), tables: before.tables },
                    ),
                    None => None,
                }
            },
            None => None,
        }
    }
}

/// Gates that have failed stay failed.
proof fn lemma_gates_stay_none(
    c: &NewCircuit,
    delta: Map<u64, Wire>,
    start: Labels,
    from: nat,
    upto: nat,
)
    requires
        from <= upto,
        garbled_gates(c, delta, start, from) is None,
    ensures
        garbled_gates(c, delta, start, upto) is None,
    decreases upto,
{
    if from < upto {
        lemma_gates_stay_none(c, delta, start, from, (upto - 1) as nat);
    }
}

/// The view of what garbling one gate gives.
pub open spec fn gate_view(r: Option<(Wire, Option<Vec<Wire>>)>) -> Option<
    (WireModel, Option<Seq<WireModel>>),
> {
    match r {
        Some((w, Some(table))) => Some((w@, Some(models(table@)))),
        Some((w, None)) => Some((w@, None::<Seq<WireModel>>)),
        None => None,
    }
}

/// The label of a gate and, for a projection gate, its table.
fn garble_gate(gate: &NewGate, delta: &HashMap<u64, Wire>, wires: &Vec<Wire>) -> (r: Option<
    (Wire, Option<Vec<Wire>>),
>)
    ensures
        gate_view(r) == garbled_gate(*gate, delta@, models(wires@)),
{
    if gate.inputs.len() == 0 || gate.inputs[0] >= wires.len() {
        return None;
    }
    let first = &wires[gate.inputs[0]];
    match &gate.kind {
        NewGateKind::ADD => match sum_inputs(wires, &gate.inputs) {
            Some(w) => Some((w, None)),
            None => None,
        },
        NewGateKind::MUL(c) => match scaled(Some(first), *c) {
            Some(w) => Some((w, None)),
            None => None,
        },
        NewGateKind::PROJ(range, phi) => match garble_projection(gate, *range, phi, delta, first) {
            Some((w, table)) => Some((w, Some(table))),
            None => None,
        },
    }
}

/// The labels that the gates of a circuit give, from the labels before
/// them: each gate adds its label to `wires`, and a projection gate puts
/// its table into `f`. The answer is `false` where a gate cannot be
/// garbled; `wires` and `f` then hold what the gates before it gave.
fn garble_gates(
    circuit: &NewCircuit,
    delta: &HashMap<u64, Wire>,
    wires: &mut Vec<Wire>,
    f: &mut HashMap<usize, Vec<Wire>>,
) -> (ok: bool)
    ensures
        ok <==> garbled_gates(
            circuit,
            delta@,
            labels_of(old(wires)@, old(f)@),
            circuit.gates@.len(),
        ) is Some,
        ok ==> Some(labels_of(final(wires)@, final(f)@)) == garbled_gates(
            circuit,
            delta@,
            labels_of(old(wires)@, old(f)@),
            circuit.gates@.len(),
        ),
        ok ==> final(wires)@.len() == old(wires)@.len() + circuit.gates@.len(),
{
    let ghost start = labels_of(wires@, f@);
    let ghost count = wires@.len();
    let mut g: usize = 0;
    while g < circuit.gates.len()
        invariant
            start == labels_of(old(wires)@, old(f)@),
            count == old(wires)@.len(),
            g <= circuit.gates@.len(),
            wires@.len() == count + g,
            Some(labels_of(wires@, f@)) == garbled_gates(circuit, delta@, start, g as nat),
        decreases circuit.gates@.len() - g,
    {
        let gate = &circuit.gates[g];
        let ghost before = labels_of(wires@, f@);
        match garble_gate(gate, delta, wires) {
            Some((w, Some(table))) => {
                let ghost label = w@;
                let ghost rows = models(table@);
                f.insert(gate.output, table);
                wires.push(w);
                assert(models(wires@) =~= before.wires.push(label));
                assert(tables_model(f@) =~= before.tables.insert(gate.output, rows));
            },
            Some((w, None)) => {
                let ghost label = w@;
                wires.push(w);
                assert(models(wires@) =~= before.wires.push(label));
            },
            None => {
                proof {
                    assert(garbled_gates(circuit, delta@, start, (g + 1) as nat) is None);
                    lemma_gates_stay_none(
                        circuit,
                        delta@,
                        start,
                        (g + 1) as nat,
                        circuit.gates@.len(),
                    );
                }
                return false;
            },
        }
        g += 1;
    }
    true
}

/// The hashes of the labels of an output for the values below `upto`: for
/// the value `v` the hash, under the tweak `(id, v)`, of the output's
/// label for 0 plus `v` times the offset.
pub open spec fn output_hashes(id: u64, wire: WireModel, offset: WireModel, upto: nat) -> Option<
    Seq<u64>,
>
    decreases upto,
{
    if upto == 0 {
        Some(Seq::<u64>::empty())
    } else {
        let v = (upto - 1) as u64;
        match (
            output_hashes(id, wire, offset, (upto - 1) as nat),
            sum_model(Some(wire), scaled_model(Some(offset), v)),
        ) {
            (Some(hashes), Some(label)) => if hashable(label) {
                Some(hashes.push(wire_hash(id, v, label)))
            } else {
                None
            },
            _ => None,
        }
    }
}

/// Hashes that have failed stay failed.
proof fn lemma_hashes_stay_none(id: u64, wire: WireModel, offset: WireModel, from: nat, upto: nat)
    requires
        from <= upto,
        output_hashes(id, wire, offset, from) is None,
    ensures
        output_hashes(id, wire, offset, upto) is None,
    decreases upto,
{
    if from < upto {
        lemma_hashes_stay_none(id, wire, offset, from, (upto - 1) as nat);
    }
}

/// The hashes of the labels of an output, one per value of its domain.
fn hash_labels(id: u64, wire: &Wire, offset: &Wire, domain: u64) -> (r: Option<Vec<u64>>)
    ensures
        r is Some <==> output_hashes(id, wire@, offset@, domain as nat) is Some,
        r matches Some(v) ==> Some(v@) == output_hashes(id, wire@, offset@, domain as nat)
            && v@.len() == domain,
{
    let mut values: Vec<u64> = Vec::new();
    let mut k: u64 = 0;
    while k < domain
        invariant
            k <= domain,
            values@.len() == k,
            Some(values@) == output_hashes(id, wire@, offset@, k as nat),
        decreases domain - k,
    {
        let step = scaled(Some(offset), k);
        let label = sum_of(Some(wire), step.as_ref());
        match label {
            Some(label) => {
                if !is_hashable(&label) {
                    proof {
                        lemma_hashes_stay_none(id, wire@, offset@, (k + 1) as nat, domain as nat);
                    }
                    return None;
                }
                values.push(hash(id, k, &label));
            },
            None => {
                proof {
                    lemma_hashes_stay_none(id, wire@, offset@, (k + 1) as nat, domain as nat);
                }
                return None;
            },
        }
        k += 1;
    }
    Some(values)
}

/// What a decoding holds.
pub struct DecodingModel {
    pub map: Seq<Seq<u64>>,
    pub ids: Seq<usize>,
    pub domains: Seq<u64>,
}

/// What the decoding `d` holds.
pub open spec fn decoding_model(d: Decoding) -> DecodingModel {
    DecodingModel {
        map: Seq::new(d.map@.len(), |i: int| d.map@[i]@),
        ids: d.ids@,
        domains: d.domains@,
    }
}

/// The domain in which a gate's output lies: the range of a projection
/// gate, the domain of another gate.
pub open spec fn output_domain(gate: NewGate) -> u64 {
    match gate.kind {
        NewGateKind::PROJ(range, _) => range,
        _ => gate.domain,
    }
}

/// The decoding made of the first `upto` gates: each gate whose output is
/// among the last `num_outputs` wires adds the hashes of its output's
/// labels, its output and the domain of its output.
pub open spec fn decoding_upto(
    c: &NewCircuit,
    delta: Map<u64, Wire>,
    wires: Seq<WireModel>,
    upto: nat,
) -> Option<DecodingModel>
    decreases upto,
{
    if upto == 0 {
        Some(
            DecodingModel {
                map: Seq::<Seq<u64>>::empty(),
                ids: Seq::<usize>::empty(),
                domains: Seq::<u64>::empty(),
            },
        )
    } else {
        match decoding_upto(c, delta, wires, (upto - 1) as nat) {
            Some(before) => {
                let gate = c.gates@[upto - 1];
                if c.num_wires - c.num_outputs <= gate.output < c.num_wires {
                    let domain = output_domain(gate);
                    match (wire_at(wires, gate.output as int), offset_of(delta, domain)) {
                        (Some(wire), Some(offset)) => match output_hashes(
                            gate.output as u64,
                            wire,
                            offset,
                            domain as nat,
                        ) {
                            Some(hashes) => Some(
                                DecodingModel {
                                    map: before.map.push(hashes),
                                    ids: before.ids.push(gate.output),
                                    domains: before.domains.push(domain),
                                },
                            ),
                            None => None,
                        },
                        _ => None,
                    }
                } else {
                    Some(before)
                }
            },
            None => None,
        }
    }
}

/// A decoding that has failed stays failed.
proof fn lemma_decoding_stays_none(
    c: &NewCircuit,
    delta: Map<u64, Wire>,
    wires: Seq<WireModel>,
    from: nat,
    upto: nat,
)
    requires
        from <= upto,
        decoding_upto(c, delta, wires, from) is None,
    ensures
        decoding_upto(c, delta, wires, upto) is None,
    decreases upto,
{
    if from < upto {
        lemma_decoding_stays_none(c, delta, wires, from, (upto - 1) as nat);
    }
}

/// The decoding of the outputs of a circuit with the labels `wires`;
/// `None` where there are more outputs than wires, an output has no label
/// or its domain no offset, or a label cannot be hashed.
pub open spec fn decoding_of(c: &NewCircuit, delta: Map<u64, Wire>, wires: Seq<WireModel>) -> Option<
    DecodingModel,
> {
    if c.num_outputs > c.num_wires {
        None
    } else {
        decoding_upto(c, delta, wires, c.gates@.len())
    }
}

/// The decoding of the outputs: for each gate whose output is among the
/// last wires, the hashes of the labels of its output, one per value.
fn garble_outputs(circuit: &NewCircuit, delta: &HashMap<u64, Wire>, wires: &Vec<Wire>) -> (r:
    Option<Decoding>)
    ensures
        r is Some <==> decoding_of(circuit, delta@, models(wires@)) is Some,
        r matches Some(d) ==> Some(decoding_model(d)) == decoding_of(
            circuit,
            delta@,
            models(wires@),
        ),
        r matches Some(d) ==> d.map@.len() == d.ids@.len() && d.map@.len() == d.domains@.len()
            && forall|i: int|
            0 <= i < d.map@.len() ==> (#[trigger] d.map@[i])@.len() == d.domains@[i],
{
    if circuit.num_outputs > circuit.num_wires {
        return None;
    }
    let ghost all = models(wires@);
    let first = circuit.num_wires - circuit.num_outputs;
    let mut map: Vec<Vec<u64>> = Vec::new();
    let mut ids: Vec<usize> = Vec::new();
    let mut domains: Vec<u64> = Vec::new();
    let mut g: usize = 0;
    assert(Seq::new(map@.len(), |i: int| map@[i]@) =~= Seq::<Seq<u64>>::empty());
    while g < circuit.gates.len()
        invariant
            all == models(wires@),
            circuit.num_outputs <= circuit.num_wires,
            first == circuit.num_wires - circuit.num_outputs,
            g <= circuit.gates@.len(),
            map@.len() == ids@.len(),
            map@.len() == domains@.len(),
            forall|i: int| 0 <= i < map@.len() ==> (#[trigger] map@[i])@.len() == domains@[i],
            Some(
                DecodingModel {
                    map: Seq::new(map@.len(), |i: int| map@[i]@),
                    ids: ids@,
                    domains: domains@,
                },
            ) == decoding_upto(circuit, delta@, all, g as nat),
        decreases circuit.gates@.len() - g,
    {
        let gate = &circuit.gates[g];
        if first <= gate.output && gate.output < circuit.num_wires {
            let id = gate.output;
            let domain = match &gate.kind {
                NewGateKind::PROJ(range, _) => *range,
                _ => gate.domain,
            };
            assert(domain == output_domain(*gate));
            let offset = delta.get(&domain);
            assert(ref_option(offset) == offset_of(delta@, domain));
            let hashes = if id < wires.len() {
                match offset {
                    Some(offset) => hash_labels(id as u64, &wires[id], offset, domain),
                    None => None,
                }
            } else {
                None
            };
            match hashes {
                Some(values) => {
                    let ghost before_map = Seq::new(map@.len(), |i: int| map@[i]@);
                    let ghost row = values@;
                    map.push(values);
                    ids.push(id);
                    domains.push(domain);
                    assert(Seq::new(map@.len(), |i: int| map@[i]@) =~= before_map.push(row));
                },
                None => {
                    proof {
                        assert(decoding_upto(circuit, delta@, all, (g + 1) as nat) is None);
                        lemma_decoding_stays_none(
                            circuit,
                            delta@,
                            all,
                            (g + 1) as nat,
                            circuit.gates@.len(),
                        );
                    }
                    return None;
                },
            }
        }
        g += 1;
    }
    let d = Decoding { map, ids, domains };
    assert(decoding_model(d).map =~= Seq::new(d.map@.len(), |i: int| d.map@[i]@));
    Some(d)
}

/// The tables of the projection gates and the decoding of the outputs
/// that garbling gives from the offsets `delta` and the labels `inputs` of
/// the inputs for 0; `None` where a gate or an output cannot be garbled.
pub open spec fn garbled_model(c: &NewCircuit, delta: Map<u64, Wire>, inputs: Seq<Wire>) -> Option<
    (Map<usize, Seq<WireModel>>, DecodingModel),
> {
    match garbled_gates(
        c,
        delta,
        Labels { wires: models(inputs), tables: Map::<usize, Seq<WireModel>>::empty() },
        c.gates@.len(),
    ) {
        Some(labels) => match decoding_of(c, delta, labels.wires) {
            Some(decoding) => Some((labels.tables, decoding)),
            None => None,
        },
        None => None,
    }
}

/// Garbles `circuit` from the offsets `delta`, one per domain, and the
/// labels `inputs` of the inputs for 0: derives the labels of the gates,
/// and makes the tables of the projection gates and the decoding of the
/// outputs. The offsets and the labels become the encoding. `None` where
/// a gate or an output cannot be garbled.
pub fn garble_with(circuit: &NewCircuit, delta: HashMap<u64, Wire>, inputs: Vec<Wire>) -> (r:
    Option<Garbled>)
    ensures
        r is Some <==> garbled_model(circuit, delta@, inputs@) is Some,
        r matches Some(g) ==> g.e.delta@ == delta@ && g.e.wires@ == inputs@ && Some(
            (tables_model(g.f@), decoding_model(g.d)),
        ) == garbled_model(circuit, delta@, inputs@),
        r matches Some(g) ==> g.d.map@.len() == g.d.ids@.len() && g.d.map@.len()
            == g.d.domains@.len() && forall|i: int|
            0 <= i < g.d.map@.len() ==> (#[trigger] g.d.map@[i])@.len() == g.d.domains@[i],
{
    let mut wires: Vec<Wire> = Vec::with_capacity(inputs.len());
    let mut i: usize = 0;
    while i < inputs.len()
        invariant
            i <= inputs@.len(),
            wires@.len() == i,
            forall|j: int| 0 <= j < i ==> (#[trigger] wires@[j])@ == inputs@[j]@,
        decreases inputs@.len() - i,
    {
        wires.push(inputs[i].clone());
        i += 1;
    }
    assert(models(wires@) =~= models(inputs@));
    let mut f: HashMap<usize, Vec<Wire>> = HashMap::new();
    assert(tables_model(f@) =~= Map::<usize, Seq<WireModel>>::empty());
    if !garble_gates(circuit, &delta, &mut wires, &mut f) {
        return None;
    }
    let d = match garble_outputs(circuit, &delta, &wires) {
        Some(d) => d,
        None => {
            return None;
        },
    };
    Some(Garbled { f, e: Encoding { wires: inputs, delta }, d })
}

/// Whether `gate` works in the domain `m` or projects into it.
pub open spec fn mentions(gate: NewGate, m: u64) -> bool {
    gate.domain == m || output_domain(gate) == m
}

/// Whether some gate of the circuit works in the domain `m` or projects
/// into it.
pub open spec fn is_domain(c: &NewCircuit, m: u64) -> bool {
    exists|g: int| 0 <= g < c.gates@.len() && #[trigger] mentions(c.gates@[g], m)
}

/// Whether offsets and labels can be drawn for the circuit at the security
/// level `k`: every domain of the circuit has a number of residues, and
/// every input has a domain of the circuit.
pub open spec fn drawable(c: &NewCircuit, k: u64) -> bool {
    &&& forall|m: u64| #[trigger] is_domain(c, m) ==> lambda_of(k, m) is Some
    &&& c.input_domains@.len() >= c.num_inputs
    &&& forall|i: int| 0 <= i < c.num_inputs ==> is_domain(c, #[trigger] c.input_domains@[i])
}

/// Whether `w` has the shape of a label of the domain `m` at the security
/// level `k`: as many residues as the level asks for and one more, none
/// of them above the domain.
pub open spec fn label_shaped(k: u64, m: u64, w: WireModel) -> bool {
    &&& lambda_of(k, m) == Some(w.lambda)
    &&& w.domain == m
    &&& w.values.len() == w.lambda + 1
    &&& within_domain(w)
}

/// Whether input `i` has a label of the shape of its domain, and its
/// domain an offset.
pub open spec fn input_drawn(
    c: &NewCircuit,
    k: u64,
    delta: Map<u64, Wire>,
    inputs: Seq<Wire>,
    i: int,
) -> bool {
    delta.contains_key(c.input_domains@[i]) && label_shaped(k, c.input_domains@[i], inputs[i]@)
}

/// Whether `delta` and `inputs` are offsets and labels as they are drawn
/// for the circuit at the security level `k`: one offset for each domain
/// of the circuit and for nothing else, each shaped like a label with the
/// last residue 1, and one label for each input, in the input's domain.
pub open spec fn drawn(c: &NewCircuit, k: u64, delta: Map<u64, Wire>, inputs: Seq<Wire>) -> bool {
    &&& forall|m: u64| #[trigger]
        delta.contains_key(m) ==> is_domain(c, m) && label_shaped(k, m, delta[m]@)
            && delta[m]@.values[delta[m]@.lambda as int] == 1
    &&& forall|m: u64| #[trigger] is_domain(c, m) ==> delta.contains_key(m)
    &&& c.input_domains@.len() >= c.num_inputs
    &&& inputs.len() == c.num_inputs
    &&& forall|i: int| 0 <= i < inputs.len() ==> #[trigger] input_drawn(c, k, delta, inputs, i)
}

/// Garbles `circuit` at the security level `k`: draws an offset for each
/// domain and a label for each input, and garbles the circuit from them as
/// [`garble_with`] does. `None` where nothing can be drawn, or where the
/// circuit cannot be garbled from what was drawn.
pub fn garble(circuit: &NewCircuit, k: u64) -> (r: Option<Garbled>)
    ensures
        r matches Some(g) ==> drawn(circuit, k, g.e.delta@, g.e.wires@) && Some(
            (tables_model(g.f@), decoding_model(g.d)),
        ) == garbled_model(circuit, g.e.delta@, g.e.wires@),
        r is None ==> !drawable(circuit, k) || exists|delta: Map<u64, Wire>, inputs: Seq<Wire>|
            drawn(circuit, k, delta, inputs) && (#[trigger] garbled_model(
                circuit,
                delta,
                inputs,
            )) is None,
        r matches Some(g) ==> g.e.wires@.len() == circuit.num_inputs && forall|x: Seq<u64>|
            x.len() == circuit.num_inputs ==> #[trigger] encodable(&g.e, x),
        r matches Some(g) ==> g.d.map@.len() == g.d.ids@.len() && g.d.map@.len()
            == g.d.domains@.len() && forall|i: int|
            0 <= i < g.d.map@.len() ==> (#[trigger] g.d.map@[i])@.len() == g.d.domains@[i],
{
    // 1. For each domain
    let mut domains: Vec<u64> = Vec::new();
    let mut g: usize = 0;
    while g < circuit.gates.len()
        invariant
            g <= circuit.gates@.len(),
            forall|h: int| 0 <= h < g ==> domains@.contains((#[trigger] circuit.gates@[h]).domain),
            forall|j: int| 0 <= j < domains@.len() ==> is_domain(circuit, #[trigger] domains@[j]),
        decreases circuit.gates@.len() - g,
    {
        let m = circuit.gates[g].domain;
        assert(mentions(circuit.gates@[g as int], m));
        push_unique(&mut domains, m);
        g += 1;
    }
    let mut g: usize = 0;
    while g < circuit.gates.len()
        invariant
            g <= circuit.gates@.len(),
            forall|h: int|
                0 <= h < circuit.gates@.len() ==> domains@.contains(
                    (#[trigger] circuit.gates@[h]).domain,
                ),
            forall|h: int|
                0 <= h < g ==> domains@.contains(output_domain(#[trigger] circuit.gates@[h])),
            forall|j: int| 0 <= j < domains@.len() ==> is_domain(circuit, #[trigger] domains@[j]),
        decreases circuit.gates@.len() - g,
    {
        match &circuit.gates[g].kind {
            NewGateKind::PROJ(range, _) => {
                assert(mentions(circuit.gates@[g as int], *range));
                push_unique(&mut domains, *range);
            },
            _ => {},
        }
        g += 1;
    }
    assert forall|m: u64| #[trigger] is_domain(circuit, m) implies domains@.contains(m) by {
        let h = choose|h: int| 0 <= h < circuit.gates@.len() && mentions(circuit.gates@[h], m);
        assert(domains@.contains(circuit.gates@[h].domain));
        assert(domains@.contains(output_domain(circuit.gates@[h])));
    }
    let mut delta: HashMap<u64, Wire> = HashMap::new();
    let mut i: usize = 0;
    while i < domains.len()
        invariant
            i <= domains@.len(),
            forall|j: int| 0 <= j < domains@.len() ==> is_domain(circuit, #[trigger] domains@[j]),
            forall|j: int| 0 <= j < i ==> delta@.contains_key(#[trigger] domains@[j]),
            forall|m: u64| #[trigger]
                delta@.contains_key(m) ==> is_domain(circuit, m) && label_shaped(
                    k,
                    m,
                    delta@[m]@,
                ) && delta@[m]@.values[delta@[m]@.lambda as int] == 1,
        decreases domains@.len() - i,
    {
        let m = domains[i];
        assert(is_domain(circuit, m));
        let l = match residues(k, m) {
            Some(l) => l,
            None => {
                return None;
            },
        };
        delta.insert(m, Wire::delta(m, l));
        i += 1;
    }
    assert forall|m: u64| #[trigger] is_domain(circuit, m) implies delta@.contains_key(m) by {
        let j = choose|j: int| 0 <= j < domains@.len() && domains@[j] == m;
        assert(delta@.contains_key(domains@[j]));
    }

    // 2. For each input
    if circuit.input_domains.len() < circuit.num_inputs {
        return None;
    }
    let mut inputs: Vec<Wire> = Vec::new();
    let mut i: usize = 0;
    while i < circuit.num_inputs
        invariant
            circuit.num_inputs <= circuit.input_domains@.len(),
            i <= circuit.num_inputs,
            inputs@.len() == i,
            forall|m: u64| #[trigger] is_domain(circuit, m) ==> delta@.contains_key(m),
            forall|m: u64| #[trigger]
                delta@.contains_key(m) ==> is_domain(circuit, m) && label_shaped(
                    k,
                    m,
                    delta@[m]@,
                ) && delta@[m]@.values[delta@[m]@.lambda as int] == 1,
            forall|j: int|
                0 <= j < i ==> #[trigger] input_drawn(circuit, k, delta@, inputs@, j),
        decreases circuit.num_inputs - i,
    {
        let m = circuit.input_domains[i];
        let l = match delta.get(&m) {
            Some(offset) => offset.lambda(),
            None => {
                assert(!is_domain(circuit, circuit.input_domains@[i as int]));
                return None;
            },
        };
        assert(delta@.contains_key(m));
        assert(label_shaped(k, m, delta@[m]@));
        let label = Wire::new(m, l);
        assert(label_shaped(k, m, label@));
        let ghost before = inputs@;
        inputs.push(label);
        assert forall|j: int| 0 <= j < i + 1 implies #[trigger] input_drawn(
            circuit,
            k,
            delta@,
            inputs@,
            j,
        ) by {
            if j < i {
                assert(input_drawn(circuit, k, delta@, before, j));
                assert(inputs@[j] == before[j]);
            }
        }
        i += 1;
    }

    // 3. The rest follows from what was drawn
    let ghost offsets = delta@;
    let ghost labels = inputs@;
    assert(drawn(circuit, k, offsets, labels));
    match garble_with(circuit, delta, inputs) {
        Some(garbled) => {
            assert forall|x: Seq<u64>| x.len() == circuit.num_inputs implies #[trigger] encodable(
                &garbled.e,
                x,
            ) by {
                assert forall|j: int| 0 <= j < garbled.e.wires@.len() implies {
                    let w = (#[trigger] garbled.e.wires@[j])@;
                    &&& w.domain > 0
                    &&& garbled.e.delta@.contains_key(w.domain)
                    &&& garbled.e.delta@[w.domain]@.lambda == w.lambda
                    &&& garbled.e.delta@[w.domain]@.domain == w.domain
                } by {
                    assert(input_drawn(circuit, k, offsets, labels, j));
                }
            }
            Some(garbled)
        },
        None => {
            assert(garbled_model(circuit, offsets, labels) is None);
            None
        },
    }
}

/// The label that a gate gives when the circuit is walked through: the
/// sum of the labels of its inputs, the label of its one input scaled, or,
/// at a projection gate, the ciphertext at the place that the colour of
/// the input's label gives, less the wire derived from the hash of that
/// label. `None` where it reads or writes a wire that does not
/// exist, finds no ciphertext, or the wires do not fit.
pub open spec fn evaluated_gate(
    gate: NewGate,
    tables: Map<usize, Seq<WireModel>>,
    wires: Seq<WireModel>,
) -> Option<WireModel> {
    if gate.output >= wires.len() || gate.inputs@.len() == 0 || gate.inputs@[0] >= wires.len() {
        None
    } else {
        let first = wires[gate.inputs@[0] as int];
        match gate.kind {
            NewGateKind::ADD => sum_of_inputs(wires, gate.inputs@, gate.inputs@.len()),
            NewGateKind::MUL(c) => scaled_model(Some(first), c),
            NewGateKind::PROJ(_, _) => if first.lambda >= first.values.len()
                || !tables.contains_key(gate.output) {
                None
            } else {
                let tau = first.values[first.lambda as int];
                let table = tables[gate.output];
                if tau >= table.len() {
                    None
                } else {
                    let cipher = table[tau as int];
                    difference_model(
                        Some(cipher),
                        derived_model(gate.output as u64, 0, Some(first), Some(cipher)),
                    )
                }
            },
        }
    }
}

/// The labels on all wires once the first `upto` gates are walked through
/// from the labels `x` of the inputs: the inputs take the first wires, the
/// other wires start empty, and each gate writes its label to its output.
pub open spec fn evaluated_upto(
    c: &NewCircuit,
    tables: Map<usize, Seq<WireModel>>,
    x: Seq<WireModel>,
    upto: nat,
) -> Option<Seq<WireModel>>
    decreases upto,
{
    if upto == 0 {
        Some(
            Seq::new(
                c.num_wires as nat,
                |i: int|
                    if i < c.num_inputs {
                        x[i]
                    } else {
                        empty_model()
                    },
            ),
        )
    } else {
        match evaluated_upto(c, tables, x, (upto - 1) as nat) {
            Some(wires) => {
                let gate = c.gates@[upto - 1];
                match evaluated_gate(gate, tables, wires) {
                    Some(w) => Some(wires.update(gate.output as int, w)),
                    None => None,
                }
            },
            None => None,
        }
    }
}

/// A walk that has failed stays failed.
proof fn lemma_walk_stays_none(
    c: &NewCircuit,
    tables: Map<usize, Seq<WireModel>>,
    x: Seq<WireModel>,
    from: nat,
    upto: nat,
)
    requires
        from <= upto,
        evaluated_upto(c, tables, x, from) is None,
    ensures
        evaluated_upto(c, tables, x, upto) is None,
    decreases upto,
{
    if from < upto {
        lemma_walk_stays_none(c, tables, x, from, (upto - 1) as nat);
    }
}

/// The labels of the outputs that walking through the garbled circuit
/// gives from the labels `x` of the inputs: the labels on the last
/// `num_outputs` wires after all gates. `None` where there is not one
/// label per input, there are more inputs or outputs than wires, or a
/// gate gives no label.
pub open spec fn evaluated(c: &NewCircuit, tables: Map<usize, Seq<WireModel>>, x: Seq<WireModel>) -> Option<
    Seq<WireModel>,
> {
    if x.len() != c.num_inputs || c.num_inputs > c.num_wires || c.num_outputs > c.num_wires {
        None
    } else {
        match evaluated_upto(c, tables, x, c.gates@.len()) {
            Some(wires) => Some(
                wires.subrange(c.num_wires - c.num_outputs, c.num_wires as int),
            ),
            None => None,
        }
    }
}

/// The label that a gate gives when the circuit is walked through.
fn evaluate_gate(gate: &NewGate, f: &HashMap<usize, Vec<Wire>>, wires: &Vec<Wire>) -> (r: Option<
    Wire,
>)
    ensures
        wire_option(r) == evaluated_gate(*gate, tables_model(f@), models(wires@)),
{
    if gate.output >= wires.len() || gate.inputs.len() == 0 || gate.inputs[0] >= wires.len() {
        return None;
    }
    let first = &wires[gate.inputs[0]];
    match &gate.kind {
        NewGateKind::ADD => sum_inputs(wires, &gate.inputs),
        NewGateKind::MUL(c) => scaled(Some(first), *c),
        NewGateKind::PROJ(_, _) => {
            if first.lambda as u128 >= first.values.len() as u128 {
                return None;
            }
            let tau = tau(first);
            let table = match f.get(&gate.output) {
                Some(table) => table,
                None => {
                    return None;
                },
            };
            assert(models(table@) == tables_model(f@)[gate.output]);
            if tau as u128 >= table.len() as u128 {
                return None;
            }
            let cipher = &table[tau as usize];
            let hw = derived(gate.output as u64, 0, Some(first), Some(cipher));
            difference_of(Some(cipher), hw.as_ref())
        },
    }
}

/// Walks through the garbled circuit from the labels `x` of the inputs:
/// sums and scales labels as the gates say, and at a projection gate
/// unmasks the ciphertext at the place that the colour of the input's
/// label gives. `None` where a gate reads a wire that does not exist or
/// whose shape does not fit, or finds no ciphertext.
pub fn evaluate(circuit: &NewCircuit, f: &HashMap<usize, Vec<Wire>>, x: &Vec<Wire>) -> (r: Option<
    Vec<Wire>,
>)
    ensures
        wires_option(r) == evaluated(circuit, tables_model(f@), models(x@)),
        r matches Some(z) ==> z@.len() == circuit.num_outputs,
{
    if x.len() != circuit.num_inputs || circuit.num_inputs > circuit.num_wires
        || circuit.num_outputs > circuit.num_wires {
        return None;
    }
    let ghost tables = tables_model(f@);
    let ghost labels = models(x@);
    let mut wires: Vec<Wire> = Vec::with_capacity(circuit.num_wires);
    let mut i: usize = 0;
    while i < circuit.num_wires
        invariant
            x@.len() == circuit.num_inputs,
            i <= circuit.num_wires,
            wires@.len() == i,
            forall|j: int|
                0 <= j < i ==> (#[trigger] wires@[j])@ == (if j < circuit.num_inputs {
                    x@[j]@
                } else {
                    empty_model()
                }),
        decreases circuit.num_wires - i,
    {
        if i < circuit.num_inputs {
            wires.push(x[i].clone());
        } else {
            wires.push(Wire::empty());
        }
        i += 1;
    }
    assert(models(wires@) =~= evaluated_upto(circuit, tables, labels, 0).unwrap());
    let mut g: usize = 0;
    while g < circuit.gates.len()
        invariant
            tables == tables_model(f@),
            labels == models(x@),
            x@.len() == circuit.num_inputs,
            circuit.num_inputs <= circuit.num_wires,
            circuit.num_outputs <= circuit.num_wires,
            g <= circuit.gates@.len(),
            wires@.len() == circuit.num_wires,
            Some(models(wires@)) == evaluated_upto(circuit, tables, labels, g as nat),
        decreases circuit.gates@.len() - g,
    {
        let gate = &circuit.gates[g];
        let ghost before = models(wires@);
        match evaluate_gate(gate, f, &wires) {
            Some(w) => {
                let ghost label = w@;
                wires.set(gate.output, w);
                assert(models(wires@) =~= before.update(gate.output as int, label));
            },
            None => {
                proof {
                    assert(evaluated_upto(circuit, tables, labels, (g + 1) as nat) is None);
                    lemma_walk_stays_none(
                        circuit,
                        tables,
                        labels,
                        (g + 1) as nat,
                        circuit.gates@.len(),
                    );
                }
                return None;
            },
        }
        g += 1;
    }
    let first = circuit.num_wires - circuit.num_outputs;
    let mut z: Vec<Wire> = Vec::with_capacity(circuit.num_outputs);
    let mut i: usize = first;
    while i < circuit.num_wires
        invariant
            first == circuit.num_wires - circuit.num_outputs,
            first <= i <= circuit.num_wires,
            wires@.len() == circuit.num_wires,
            z@.len() == i - first,
            forall|j: int| 0 <= j < i - first ==> (#[trigger] z@[j])@ == wires@[first + j]@,
        decreases circuit.num_wires - i,
    {
        z.push(wires[i].clone());
        i += 1;
    }
    assert(models(z@) =~= models(wires@).subrange(first as int, circuit.num_wires as int));
    Some(z)
}

} // verus!
