//! Oblivious-transfer extension with a consistency check.
//!
//! A few base transfers, in which the two parties swap roles, give the
//! sender one seed of each of [`COMP_SEC`] pairs that the receiver holds.
//! Both expand their seeds into the rows of bit matrices, the receiver
//! masks its choices with its rows, and the columns of the matrices then
//! give one pair of keys per transfer, of which the receiver knows the one
//! it chose. Before any key is used the sender checks, on random
//! challenges, that the receiver masked the same choices in every row.
//!
//! The functions here compute what each party sends from what it holds and
//! has received; moving the frames is left to the caller.

use crate::ot::bitmatrix::{
    bits_to_bytes, bytes_to_bits, constant_bits, has_shape, max_bits, transpose_bits, xor_bits,
    BitMatrix, BitVector,
};
use crate::ot::common::{
    array_rows, byte_rows, chosen, copy_bytes, nonce, nonce_bytes, open, opened, seals,
    validate_properties, Message, OTError, Payload, TransactionProperties,
};
use crate::ot::polynomial::{
    polynomial_acc, polynomial_eq, polynomial_mul, polynomial_new, polynomial_product,
};
use crate::ot::primitives::{
    aes_gcm_encrypt, chacha20_stream, prg_bytes, random_bytes, sealable, sha256_digest, Bytes32,
    Key256,
};
use crate::util::{
    be_bytes, hash, joined, slice_views, to_array, to_be_bytes, u8_vec_to_bool_vec,
};
use vstd::prelude::*;

verus! {

/// The computational security parameter: the number of base transfers, and
/// the width of the keys' preimages, in bits.
pub const COMP_SEC: usize = 256;

/// The statistical security parameter, in bits.
pub const STAT_SEC: usize = 128;

/// The number of transfers added to those asked for; they serve the check
/// and are never handed out.
pub const EXTRA: usize = 384;

/// Whether `n` transfers can be asked for: at least one block, a whole
/// number of blocks, and few enough for a row of `n + EXTRA` bits.
pub open spec fn valid_count(n: nat) -> bool {
    n >= 64 && n % 64 == 0 && n + 384 <= max_bits()
}

/// Whether the extension takes `messages`: a valid number of pairs, and
/// all messages of one length that is at least one block of 8 bytes, a
/// whole number of blocks, and within the cipher's limit.
pub open spec fn valid_messages(messages: Seq<(Seq<u8>, Seq<u8>)>) -> bool {
    &&& valid_count(messages.len())
    &&& messages[0].0.len() >= 8
    &&& messages[0].0.len() % 8 == 0
    &&& sealable(messages[0].0.len())
    &&& forall|i: int|
        0 <= i < messages.len() ==> (#[trigger] messages[i]).0.len() == messages[0].0.len()
            && messages[i].1.len() == messages[0].0.len()
}

/// Whether `seeds` are [`COMP_SEC`] seeds of 32 bytes each.
pub open spec fn valid_seeds(seeds: Seq<Seq<u8>>) -> bool {
    seeds.len() == 256 && forall|i: int| 0 <= i < seeds.len() ==> (#[trigger] seeds[i]).len() == 32
}

/// The row of `bits` bits that the generator gives from `seed`.
pub open spec fn expand_seed(seed: Seq<u8>, bits: nat) -> Seq<bool> {
    bytes_to_bits(chacha20_stream(seed, bits / 8))
}

/// The rows of `bits` bits each that the generator gives from `seeds`.
pub open spec fn expanded(seeds: Seq<Seq<u8>>, bits: nat) -> Seq<Seq<bool>> {
    Seq::new(seeds.len(), |i: int| expand_seed(seeds[i], bits))
}

/// The receiver's choices masked by its rows: row `i` is
/// `x + t0[i] + t1[i]`.
pub open spec fn masked(x: Seq<bool>, t0: Seq<Seq<bool>>, t1: Seq<Seq<bool>>) -> Seq<Seq<bool>> {
    Seq::new(t0.len(), |i: int| xor_bits(xor_bits(x, t0[i]), t1[i]))
}

/// The sender's rows: row `i` is `u[i] + t[i]` where bit `i` of `delta` is
/// set, else `t[i]`.
pub open spec fn correlated(delta: Seq<bool>, u: Seq<Seq<bool>>, t: Seq<Seq<bool>>) -> Seq<
    Seq<bool>,
> {
    Seq::new(
        t.len(),
        |i: int|
            if delta[i] {
                xor_bits(u[i], t[i])
            } else {
                t[i]
            },
    )
}

/// The sum of the products `a[j] * b[j]` over `j` below `upto`, as
/// polynomials of `width` terms.
pub open spec fn sum_of_products(a: Seq<Seq<bool>>, b: Seq<Seq<bool>>, width: nat, upto: nat) -> Seq<
    bool,
>
    decreases upto,
{
    if upto == 0 {
        constant_bits(width, false)
    } else {
        xor_bits(
            sum_of_products(a, b, width, (upto - 1) as nat),
            polynomial_product(a[upto - 1], b[upto - 1]),
        )
    }
}

/// The sum of the rows `rows[j]` over those `j` below `upto` that `select`
/// selects, as polynomials of `width` terms.
pub open spec fn sum_of_selected(rows: Seq<Seq<bool>>, select: Seq<bool>, width: nat, upto: nat) -> Seq<
    bool,
>
    decreases upto,
{
    if upto == 0 {
        constant_bits(width, false)
    } else {
        let rest = sum_of_selected(rows, select, width, (upto - 1) as nat);
        if select[upto - 1] {
            xor_bits(rest, rows[upto - 1])
        } else {
            rest
        }
    }
}

/// The identity that the sender checks: `t_sum == x_sum * delta + q_sum`,
/// where `q_sum` is the sum of the products of the sender's rows and the
/// challenges.
pub open spec fn consistent(
    q: Seq<Seq<bool>>,
    chi: Seq<Seq<bool>>,
    delta: Seq<bool>,
    x_sum: Seq<bool>,
    t_sum: Seq<bool>,
) -> bool {
    t_sum == xor_bits(
        polynomial_product(x_sum, delta),
        sum_of_products(q, chi, delta.len(), q.len()),
    )
}

/// The key of transfer `j` derived from `row`: the hash of the index, as
/// eight big-endian bytes, followed by the bytes of the row.
pub open spec fn derived_key(j: nat, row: Seq<bool>) -> Seq<u8> {
    sha256_digest(be_bytes(j as u64) + bits_to_bytes(row))
}

/// The two keys of the sender for transfer `j`: the first derived from its
/// row, the second from its row shifted by `delta`.
pub open spec fn sender_row_keys(j: nat, row: Seq<bool>, delta: Seq<bool>) -> (Seq<u8>, Seq<u8>) {
    (derived_key(j, row), derived_key(j, xor_bits(row, delta)))
}

/// The key of transfer `j` derived from `row`.
pub fn row_key(j: usize, row: &BitVector) -> (key: Key256)
    requires
        row@.len() % 8 == 0,
    ensures
        key@ == derived_key(j as nat, row@),
{
    let index = to_be_bytes(j as u64);
    let bytes = row.as_bytes();
    let parts: [&[u8]; 2] = [index.as_slice(), bytes.as_slice()];
    proof {
        let views = slice_views(parts@);
        assert(views.drop_last().drop_last() =~= Seq::<Seq<u8>>::empty());
        assert(joined(views.drop_last().drop_last()) =~= Seq::<u8>::empty());
        assert(views.drop_last().last() == index@);
        assert(joined(views.drop_last()) =~= index@);
        assert(views.last() == bytes@);
        assert(joined(views) =~= index@ + bytes@);
    }
    hash(parts.as_slice())
}

/// The seeds of a base transfer's payload as arrays; `None` unless there
/// are [`COMP_SEC`] of them, of 32 bytes each.
pub fn seeds_of(payload: &Payload) -> (seeds: Option<Vec<Bytes32>>)
    ensures
        seeds is Some <==> valid_seeds(byte_rows(payload@)),
        seeds matches Some(s) ==> array_rows(s@) == byte_rows(payload@),
{
    if payload.len() != COMP_SEC {
        return None;
    }
    let mut seeds: Vec<Bytes32> = Vec::with_capacity(COMP_SEC);
    let mut i: usize = 0;
    while i < COMP_SEC
        invariant
            payload@.len() == 256,
            i <= 256,
            seeds@.len() == i,
            forall|k: int| 0 <= k < i ==> (#[trigger] seeds@[k])@ == payload@[k]@,
            forall|k: int| 0 <= k < i ==> (#[trigger] byte_rows(payload@)[k]).len() == 32,
        decreases 256 - i,
    {
        if payload[i].len() != 32 {
            assert(byte_rows(payload@)[i as int].len() != 32);
            return None;
        }
        seeds.push(to_array(payload[i].as_slice()));
        i += 1;
    }
    assert(array_rows(seeds@) =~= byte_rows(payload@));
    Some(seeds)
}

/// Expands each seed into a row of `bits` bits.
pub fn expand(seeds: &Vec<Bytes32>, bits: usize) -> (rows: BitMatrix)
    requires
        seeds@.len() <= max_bits(),
        bits % 64 == 0,
        bits <= max_bits(),
    ensures
        rows@ == expanded(array_rows(seeds@), bits as nat),
        has_shape(rows@, seeds@.len(), bits as nat),
{
    let n = seeds.len();
    let mut rows: Vec<BitVector> = Vec::with_capacity(n);
    let mut i: usize = 0;
    while i < n
        invariant
            bits % 64 == 0,
            bits <= max_bits(),
            n == seeds@.len(),
            i <= n,
            rows@.len() == i,
            forall|k: int|
                0 <= k < i ==> (#[trigger] rows@[k])@ == expand_seed(seeds@[k]@, bits as nat)
                    && rows@[k]@.len() == bits,
        decreases n - i,
    {
        let stream = prg_bytes(&seeds[i], bits / 8);
        rows.push(BitVector::from_bytes(stream));
        i += 1;
    }
    let m = BitMatrix::new(rows);
    assert(m@ =~= expanded(array_rows(seeds@), bits as nat));
    assert forall|k: int| 0 <= k < m@.len() implies (#[trigger] m@[k]).len() == bits by {
        assert(m@[k] == rows@[k]@);
    }
    m
}

/// The sender's rows before transposition: row `i` is `u[i] + t[i]` where
/// bit `i` of `delta` is set, else `t[i]`.
pub fn correlate(delta: &BitVector, u: &BitMatrix, t: &BitMatrix) -> (q: BitMatrix)
    requires
        delta@.len() == t@.len(),
        u@.len() == t@.len(),
        forall|i: int| 0 <= i < t@.len() ==> (#[trigger] u@[i]).len() == t@[i].len(),
    ensures
        q@ == correlated(delta@, u@, t@),
{
    let n = t.num_rows();
    let mut rows: Vec<BitVector> = Vec::with_capacity(n);
    let mut i: usize = 0;
    while i < n
        invariant
            n == t@.len(),
            delta@.len() == n,
            u@.len() == n,
            forall|k: int| 0 <= k < n ==> (#[trigger] u@[k]).len() == t@[k].len(),
            i <= n,
            rows@.len() == i,
            forall|k: int|
                0 <= k < i ==> (#[trigger] rows@[k])@ == correlated(delta@, u@, t@)[k],
        decreases n - i,
    {
        let row = if delta.index(i) {
            assert(u@[i as int].len() == t@[i as int].len());
            u.index(i).clone().bitxor(t.index(i).clone())
        } else {
            t.index(i).clone()
        };
        rows.push(row);
        i += 1;
    }
    let q = BitMatrix::new(rows);
    assert(q@ =~= correlated(delta@, u@, t@));
    q
}

/// The sum of the products of the rows of `a` and of `b`, row by row, as
/// polynomials of [`COMP_SEC`] terms.
pub fn product_sum(a: &BitMatrix, b: &BitMatrix) -> (sum: BitVector)
    requires
        a@.len() == b@.len(),
        has_shape(a@, a@.len(), 256),
        has_shape(b@, b@.len(), 256),
    ensures
        sum@ == sum_of_products(a@, b@, 256, a@.len()),
        sum@.len() == 256,
{
    let n = a.num_rows();
    let mut sum = polynomial_new(COMP_SEC);
    let mut j: usize = 0;
    assert(sum@ =~= sum_of_products(a@, b@, 256, 0));
    while j < n
        invariant
            n == a@.len(),
            n == b@.len(),
            has_shape(a@, a@.len(), 256),
            has_shape(b@, b@.len(), 256),
            j <= n,
            sum@.len() == 256,
            sum@ == sum_of_products(a@, b@, 256, j as nat),
        decreases n - j,
    {
        assert(a@[j as int].len() == 256);
        assert(b@[j as int].len() == 256);
        polynomial_mul(&mut sum, a.index(j), b.index(j));
        j += 1;
    }
    sum
}

/// The sum of those rows of `rows` that `select` selects, as polynomials
/// of [`COMP_SEC`] terms.
pub fn selected_sum(rows: &BitMatrix, select: &[bool]) -> (sum: BitVector)
    requires
        rows@.len() == select@.len(),
        has_shape(rows@, rows@.len(), 256),
    ensures
        sum@ == sum_of_selected(rows@, select@, 256, rows@.len()),
        sum@.len() == 256,
{
    let n = rows.num_rows();
    let mut sum = polynomial_new(COMP_SEC);
    let mut j: usize = 0;
    assert(sum@ =~= sum_of_selected(rows@, select@, 256, 0));
    while j < n
        invariant
            n == rows@.len(),
            n == select@.len(),
            has_shape(rows@, rows@.len(), 256),
            j <= n,
            sum@.len() == 256,
            sum@ == sum_of_selected(rows@, select@, 256, j as nat),
        decreases n - j,
    {
        if select[j] {
            assert(rows@[j as int].len() == 256);
            polynomial_acc(&mut sum, rows.index(j));
        }
        j += 1;
    }
    sum
}

/// The sender's check: whether `t_sum == x_sum * delta + q_sum`, where
/// `q_sum` is the sum of the products of the rows of `q` and of `chi`.
pub fn check_consistency(
    q: &BitMatrix,
    chi: &BitMatrix,
    delta: &BitVector,
    x_sum: &BitVector,
    t_sum: &BitVector,
) -> (r: Result<(), OTError>)
    requires
        q@.len() == chi@.len(),
        has_shape(q@, q@.len(), 256),
        has_shape(chi@, chi@.len(), 256),
        delta@.len() == 256,
        x_sum@.len() == 256,
    ensures
        r is Ok <==> consistent(q@, chi@, delta@, x_sum@, t_sum@),
        r matches Err(e) ==> e == OTError::CheatDetected,
{
    let q_sum = product_sum(q, chi);
    let mut acc = polynomial_new(COMP_SEC);
    polynomial_mul(&mut acc, x_sum, delta);
    proof {
        let product = polynomial_product(x_sum@, delta@);
        assert(xor_bits(constant_bits(256, false), product) =~= product);
    }
    polynomial_acc(&mut acc, &q_sum);
    if polynomial_eq(t_sum, &acc) {
        Ok(())
    } else {
        Err(OTError::CheatDetected)
    }
}

/// Whether the extension takes `messages`.
pub fn check_messages(messages: &Message) -> (r: bool)
    ensures
        r == valid_messages(messages@),
{
    let n = messages.len();
    if !check_count(n) {
        return false;
    }
    let len = messages.0[0][0].len();
    assert(messages@[0].0.len() == len);
    if len < 8 || len % 8 != 0 || len as u64 >= 0x10_0000_0000u64 - 16 || len > isize::MAX as usize
        - 16 {
        return false;
    }
    let mut i: usize = 0;
    while i < n
        invariant
            n == messages@.len(),
            len == messages@[0].0.len(),
            i <= n,
            forall|k: int|
                0 <= k < i ==> (#[trigger] messages@[k]).0.len() == len && messages@[k].1.len()
                    == len,
        decreases n - i,
    {
        let pair = &messages.0[i];
        assert(messages@[i as int] == (pair@[0]@, pair@[1]@));
        if pair[0].len() != len || pair[1].len() != len {
            return false;
        }
        i += 1;
    }
    true
}

/// Whether `n` transfers can be asked for.
pub fn check_count(n: usize) -> (r: bool)
    ensures
        r == valid_count(n as nat),
{
    n >= 64 && n % 64 == 0 && n <= usize::MAX / 8 - 384
}

/// What the sender answers with: the ciphertexts of the first messages and
/// those of the second messages, both in the order of the pairs.
#[derive(Debug)]
pub struct Delivery {
    pub d0: Vec<Vec<u8>>,
    pub d1: Vec<Vec<u8>>,
}

/// The sending party of an extended transfer.
pub struct Sender {
    delta: Bytes32,
    messages: Message,
}

impl Sender {
    /// The sender's secret string of [`COMP_SEC`] bits, which are also its
    /// choices in the base transfers.
    pub closed spec fn delta(&self) -> Seq<bool> {
        bytes_to_bits(self.delta@)
    }

    /// The pairs of messages on offer.
    pub closed spec fn messages(&self) -> Seq<(Seq<u8>, Seq<u8>)> {
        self.messages@
    }

    /// The secret has [`COMP_SEC`] bits, and the extension takes the
    /// messages.
    pub open spec fn wf(&self) -> bool {
        self.delta().len() == 256 && valid_messages(self.messages())
    }

    /// The rows of the sender, one per transfer and per extra transfer:
    /// the columns of the matrix correlated with what the receiver sent.
    pub open spec fn rows(&self, seeds: Seq<Seq<u8>>, u: Seq<Seq<bool>>) -> Seq<Seq<bool>> {
        transpose_bits(
            correlated(
                self.delta(),
                u,
                expanded(seeds, (self.messages().len() + 384) as nat),
            ),
        )
    }

    /// Whether what the sender received has the sizes that the protocol
    /// fixes.
    pub open spec fn well_shaped(
        &self,
        seeds: Seq<Seq<u8>>,
        u: Seq<Seq<bool>>,
        chi: Seq<Seq<bool>>,
        x_sum: Seq<bool>,
        t_sum: Seq<bool>,
    ) -> bool {
        &&& valid_seeds(seeds)
        &&& has_shape(u, 256, (self.messages().len() + 384) as nat)
        &&& has_shape(chi, (self.messages().len() + 384) as nat, 256)
        &&& x_sum.len() == 256
        &&& t_sum.len() == 256
    }

    /// A sender for `messages` with a fresh random secret, unless the
    /// extension does not take the messages.
    pub fn new(messages: &Message) -> (r: Result<Sender, OTError>)
        ensures
            r is Ok <==> valid_messages(messages@),
            r matches Ok(sender) ==> sender.wf() && sender.messages() == messages@,
            r matches Err(e) ==> e == OTError::PreconditionViolation,
    {
        if !check_messages(messages) {
            return Err(OTError::PreconditionViolation);
        }
        let secret = random_bytes(32);
        Sender::with_delta(messages, to_array(secret.as_slice()))
    }

    /// A sender for `messages` with the given secret, unless the extension
    /// does not take the messages.
    pub fn with_delta(messages: &Message, delta: Bytes32) -> (r: Result<Sender, OTError>)
        ensures
            r is Ok <==> valid_messages(messages@),
            r matches Ok(sender) ==> sender.wf() && sender.messages() == messages@
                && sender.delta() == bytes_to_bits(delta@),
            r matches Err(e) ==> e == OTError::PreconditionViolation,
    {
        if !check_messages(messages) {
            return Err(OTError::PreconditionViolation);
        }
        Ok(Sender { delta, messages: messages.clone() })
    }

    /// The properties of the transfer, to hold against the receiver's.
    pub fn properties(&self) -> (p: TransactionProperties)
        ensures
            p.msg_size == self.messages().len(),
    {
        TransactionProperties { msg_size: self.messages.len() }
    }

    /// The sender's choices in the base transfers: the bits of its secret.
    pub fn choices(&self) -> (choices: Vec<bool>)
        ensures
            choices@ == self.delta(),
            choices@.len() == 256,
    {
        u8_vec_to_bool_vec(self.delta.as_slice())
    }

    /// Computes the sender's answer from the seeds that the base transfers
    /// gave it and from what the receiver sent: the masked matrix `u`, the
    /// challenges `chi` and the two sums of the check.
    ///
    /// Fails with `TransportFailure` where one of them has another size
    /// than the protocol fixes, and with `CheatDetected` where the check
    /// does not hold; no ciphertext is made then.
    pub fn exchange(
        &self,
        seeds: &Payload,
        u: &BitMatrix,
        chi: &BitMatrix,
        x_sum: &BitVector,
        t_sum: &BitVector,
    ) -> (r: Result<Delivery, OTError>)
        requires
            self.wf(),
        ensures
            r is Ok <==> self.well_shaped(byte_rows(seeds@), u@, chi@, x_sum@, t_sum@)
                && consistent(
                self.rows(byte_rows(seeds@), u@),
                chi@,
                self.delta(),
                x_sum@,
                t_sum@,
            ),
            r matches Ok(delivery) ==> delivery.d0@.len() == self.messages().len()
                && delivery.d1@.len() == self.messages().len() && forall|j: int|
                0 <= j < self.messages().len() ==> seals(
                    sender_row_keys(
                        j as nat,
                        self.rows(byte_rows(seeds@), u@)[j],
                        self.delta(),
                    ),
                    self.messages()[j],
                    ((#[trigger] delivery.d0@[j])@, delivery.d1@[j]@),
                ),
            r matches Err(e) ==> e == (if self.well_shaped(
                byte_rows(seeds@),
                u@,
                chi@,
                x_sum@,
                t_sum@,
            ) {
                OTError::CheatDetected
            } else {
                OTError::TransportFailure
            }),
    {
        let n = self.messages.len();
        let l = n + EXTRA;
        let seeds = match seeds_of(seeds) {
            Some(s) => s,
            None => {
                return Err(OTError::TransportFailure);
            },
        };
        if !u.is_shaped(COMP_SEC, l) || !chi.is_shaped(l, COMP_SEC) || x_sum.len() != COMP_SEC
            || t_sum.len() != COMP_SEC {
            return Err(OTError::TransportFailure);
        }
        let delta = BitVector::from_bytes(copy_bytes(self.delta.as_slice()));
        let t = expand(&seeds, l);
        assert forall|i: int| 0 <= i < t@.len() implies (#[trigger] u@[i]).len()
            == t@[i].len() by {
            assert(t@[i].len() == l);
        }
        let q = correlate(&delta, u, &t);
        assert forall|i: int| 0 <= i < q@.len() implies (#[trigger] q@[i]).len() == l by {
            assert(t@[i].len() == l);
            assert(u@[i].len() == l);
        }
        assert(q@[0].len() == l);
        let q = q.transpose();
        assert(q@ == self.rows(array_rows(seeds@), u@));
        assert(has_shape(q@, l as nat, 256));
        match check_consistency(&q, chi, &delta, x_sum, t_sum) {
            Ok(()) => {},
            Err(e) => {
                return Err(e);
            },
        }
        let nonce = nonce();
        let mut d0: Vec<Vec<u8>> = Vec::with_capacity(n);
        let mut d1: Vec<Vec<u8>> = Vec::with_capacity(n);
        let mut j: usize = 0;
        while j < n
            invariant
                self.wf(),
                n == self.messages().len(),
                l == n + 384,
                has_shape(q@, l as nat, 256),
                delta@ == self.delta(),
                delta@.len() == 256,
                nonce@ == nonce_bytes(),
                j <= n,
                d0@.len() == j,
                d1@.len() == j,
                forall|k: int|
                    0 <= k < j ==> seals(
                        sender_row_keys(k as nat, q@[k], delta@),
                        self.messages()[k],
                        ((#[trigger] d0@[k])@, d1@[k]@),
                    ),
            decreases n - j,
        {
            let row = q.index(j);
            assert(q@[j as int].len() == 256);
            let v0 = row_key(j, row);
            let other = row.clone().bitxor(delta.clone());
            let v1 = row_key(j, &other);
            let pair = &self.messages.0[j];
            assert(self.messages()[j as int] == (pair@[0]@, pair@[1]@));
            assert(self.messages()[j as int].0.len() == self.messages()[0].0.len());
            let c0 = aes_gcm_encrypt(&v0, &nonce, pair[0].as_slice()).unwrap();
            let c1 = aes_gcm_encrypt(&v1, &nonce, pair[1].as_slice()).unwrap();
            d0.push(c0);
            d1.push(c1);
            j += 1;
        }
        Ok(Delivery { d0, d1 })
    }
}

/// What the receiver sends after the base transfers: its masked matrix,
/// the challenges of the check, and the two sums that answer them.
#[derive(Debug)]
pub struct Extension {
    pub u: BitMatrix,
    pub chi: BitMatrix,
    pub x_sum: BitVector,
    pub t_sum: BitVector,
}

/// `count` fresh random seeds.
fn random_seeds(count: usize) -> (seeds: Vec<Bytes32>)
    ensures
        seeds@.len() == count,
{
    let mut seeds: Vec<Bytes32> = Vec::with_capacity(count);
    let mut i: usize = 0;
    while i < count
        invariant
            i <= count,
            seeds@.len() == i,
        decreases count - i,
    {
        let bytes = random_bytes(32);
        seeds.push(to_array(bytes.as_slice()));
        i += 1;
    }
    seeds
}

/// `count` fresh random rows of [`COMP_SEC`] bits each.
fn random_rows(count: usize) -> (rows: BitMatrix)
    requires
        count <= max_bits(),
    ensures
        has_shape(rows@, count as nat, 256),
{
    let mut rows: Vec<BitVector> = Vec::with_capacity(count);
    let mut i: usize = 0;
    while i < count
        invariant
            i <= count,
            rows@.len() == i,
            forall|k: int| 0 <= k < i ==> (#[trigger] rows@[k])@.len() == 256,
        decreases count - i,
    {
        rows.push(BitVector::from_bytes(random_bytes(32)));
        i += 1;
    }
    let m = BitMatrix::new(rows);
    assert forall|k: int| 0 <= k < m@.len() implies (#[trigger] m@[k]).len() == 256 by {
        assert(m@[k] == rows@[k]@);
    }
    m
}

/// The receiving party of an extended transfer.
pub struct Receiver {
    choices: Vec<bool>,
    bonus: Vec<bool>,
    seed0: Vec<Bytes32>,
    seed1: Vec<Bytes32>,
    chi: BitMatrix,
}

impl Receiver {
    /// The choices asked for.
    pub closed spec fn choices(&self) -> Seq<bool> {
        self.choices@
    }

    /// The choices followed by the random choices of the extra transfers.
    pub closed spec fn padded(&self) -> Seq<bool> {
        self.choices@ + self.bonus@
    }

    /// The first seed of each pair.
    pub closed spec fn seed0(&self) -> Seq<Seq<u8>> {
        array_rows(self.seed0@)
    }

    /// The second seed of each pair.
    pub closed spec fn seed1(&self) -> Seq<Seq<u8>> {
        array_rows(self.seed1@)
    }

    /// The challenges of the check, one per transfer and extra transfer.
    pub closed spec fn chi(&self) -> Seq<Seq<bool>> {
        self.chi@
    }

    /// The number of choices is valid, there are [`EXTRA`] extra choices
    /// and [`COMP_SEC`] pairs of seeds, and one challenge of [`COMP_SEC`]
    /// bits per transfer and extra transfer.
    pub open spec fn wf(&self) -> bool {
        &&& valid_count(self.choices().len())
        &&& self.padded().len() == self.choices().len() + 384
        &&& self.padded().take(self.choices().len() as int) == self.choices()
        &&& self.seed0().len() == 256
        &&& self.seed1().len() == 256
        &&& has_shape(self.chi(), self.padded().len(), 256)
    }

    /// The rows of the receiver, one per transfer and extra transfer: the
    /// columns of the matrix expanded from the first seeds.
    pub open spec fn rows(&self) -> Seq<Seq<bool>> {
        transpose_bits(expanded(self.seed0(), self.padded().len()))
    }

    /// A receiver for `choices` with fresh random seeds, extra choices and
    /// challenges, unless their number is not valid.
    pub fn new(choices: &[bool]) -> (r: Result<Receiver, OTError>)
        ensures
            r is Ok <==> valid_count(choices@.len()),
            r matches Ok(receiver) ==> receiver.wf() && receiver.choices() == choices@,
            r matches Err(e) ==> e == OTError::PreconditionViolation,
    {
        if !check_count(choices.len()) {
            return Err(OTError::PreconditionViolation);
        }
        let bonus = u8_vec_to_bool_vec(random_bytes(EXTRA / 8).as_slice());
        let seed0 = random_seeds(COMP_SEC);
        let seed1 = random_seeds(COMP_SEC);
        let chi = random_rows(choices.len() + EXTRA);
        Receiver::with_randomness(choices, bonus, seed0, seed1, chi)
    }

    /// A receiver for `choices` with the given extra choices, seeds and
    /// challenges, unless the number of choices is not valid.
    pub fn with_randomness(
        choices: &[bool],
        bonus: Vec<bool>,
        seed0: Vec<Bytes32>,
        seed1: Vec<Bytes32>,
        chi: BitMatrix,
    ) -> (r: Result<Receiver, OTError>)
        requires
            bonus@.len() == 384,
            seed0@.len() == 256,
            seed1@.len() == 256,
            has_shape(chi@, choices@.len() + 384, 256),
        ensures
            r is Ok <==> valid_count(choices@.len()),
            r matches Ok(receiver) ==> receiver.wf() && receiver.choices() == choices@
                && receiver.padded() == choices@ + bonus@ && receiver.seed0() == array_rows(
                seed0@,
            ) && receiver.seed1() == array_rows(seed1@) && receiver.chi() == chi@,
            r matches Err(e) ==> e == OTError::PreconditionViolation,
    {
        if !check_count(choices.len()) {
            return Err(OTError::PreconditionViolation);
        }
        let mut own: Vec<bool> = Vec::with_capacity(choices.len());
        let mut i: usize = 0;
        while i < choices.len()
            invariant
                i <= choices@.len(),
                own@ == choices@.take(i as int),
            decreases choices@.len() - i,
        {
            own.push(choices[i]);
            assert(choices@.take(i as int).push(choices@[i as int]) =~= choices@.take(i + 1));
            i += 1;
        }
        assert(choices@.take(choices@.len() as int) =~= choices@);
        assert((choices@ + bonus@).take(choices@.len() as int) =~= choices@);
        Ok(Receiver { choices: own, bonus, seed0, seed1, chi })
    }

    /// The properties of the transfer, to hold against the sender's.
    pub fn properties(&self) -> (p: TransactionProperties)
        ensures
            p.msg_size == self.choices().len(),
    {
        TransactionProperties { msg_size: self.choices.len() }
    }

    /// The receiver's messages in the base transfers: the pairs of seeds.
    pub fn seeds(&self) -> (m: Message)
        requires
            self.wf(),
        ensures
            m@.len() == 256,
            forall|i: int|
                0 <= i < 256 ==> #[trigger] m@[i] == (self.seed0()[i], self.seed1()[i]),
    {
        let mut pairs: Vec<[Vec<u8>; 2]> = Vec::with_capacity(COMP_SEC);
        let mut i: usize = 0;
        while i < COMP_SEC
            invariant
                self.seed0@.len() == 256,
                self.seed1@.len() == 256,
                i <= 256,
                pairs@.len() == i,
                forall|k: int|
                    0 <= k < i ==> (#[trigger] pairs@[k])@[0]@ == self.seed0@[k]@
                        && pairs@[k]@[1]@ == self.seed1@[k]@,
            decreases 256 - i,
        {
            let s0 = copy_bytes(self.seed0[i].as_slice());
            let s1 = copy_bytes(self.seed1[i].as_slice());
            pairs.push([s0, s1]);
            i += 1;
        }
        Message(pairs)
    }

    /// The choices and the extra choices, in one vector.
    fn padded_choices(&self) -> (padded: Vec<bool>)
        ensures
            padded@ == self.padded(),
    {
        let mut padded: Vec<bool> = Vec::new();
        let mut i: usize = 0;
        while i < self.choices.len()
            invariant
                i <= self.choices@.len(),
                padded@ == self.choices@.take(i as int),
            decreases self.choices@.len() - i,
        {
            padded.push(self.choices[i]);
            assert(self.choices@.take(i as int).push(self.choices@[i as int])
                =~= self.choices@.take(i + 1));
            i += 1;
        }
        assert(self.choices@.take(self.choices@.len() as int) =~= self.choices@);
        let mut k: usize = 0;
        while k < self.bonus.len()
            invariant
                k <= self.bonus@.len(),
                padded@ == self.choices@ + self.bonus@.take(k as int),
            decreases self.bonus@.len() - k,
        {
            padded.push(self.bonus[k]);
            assert((self.choices@ + self.bonus@.take(k as int)).push(self.bonus@[k as int])
                =~= self.choices@ + self.bonus@.take(k + 1));
            k += 1;
        }
        assert(self.bonus@.take(self.bonus@.len() as int) =~= self.bonus@);
        padded
    }

    /// Computes what the receiver sends after the base transfers: the
    /// choices masked by both expansions of each pair of seeds, the
    /// challenges, the sum of the challenges of the transfers whose choice
    /// is `true`, and the sum of the products of the receiver's rows and
    /// the challenges.
    pub fn extend(&self) -> (e: Extension)
        requires
            self.wf(),
        ensures
            e.u@ == masked(
                self.padded(),
                expanded(self.seed0(), self.padded().len()),
                expanded(self.seed1(), self.padded().len()),
            ),
            has_shape(e.u@, 256, self.padded().len()),
            has_shape(expanded(self.seed0(), self.padded().len()), 256, self.padded().len()),
            has_shape(expanded(self.seed1(), self.padded().len()), 256, self.padded().len()),
            e.chi@ == self.chi(),
            e.x_sum@ == sum_of_selected(self.chi(), self.padded(), 256, self.padded().len()),
            e.t_sum@ == sum_of_products(self.rows(), self.chi(), 256, self.padded().len()),
            e.x_sum@.len() == 256,
            e.t_sum@.len() == 256,
    {
        let padded = self.padded_choices();
        let l = padded.len();
        let x = BitVector::from_bits(padded.as_slice());
        let t0 = expand(&self.seed0, l);
        let t1 = expand(&self.seed1, l);
        let mut rows: Vec<BitVector> = Vec::with_capacity(COMP_SEC);
        let mut i: usize = 0;
        while i < COMP_SEC
            invariant
                x@ == self.padded(),
                x@.len() == l,
                has_shape(t0@, 256, l as nat),
                has_shape(t1@, 256, l as nat),
                i <= 256,
                rows@.len() == i,
                forall|k: int|
                    0 <= k < i ==> (#[trigger] rows@[k])@ == xor_bits(
                        xor_bits(x@, t0@[k]),
                        t1@[k],
                    ),
            decreases 256 - i,
        {
            let mut row = x.clone();
            assert(t0@[i as int].len() == l);
            assert(t1@[i as int].len() == l);
            row.bitxor_assign(t0.index(i));
            row.bitxor_assign(t1.index(i));
            rows.push(row);
            i += 1;
        }
        let u = BitMatrix::new(rows);
        assert(u@ =~= masked(self.padded(), t0@, t1@));
        assert forall|k: int| 0 <= k < u@.len() implies (#[trigger] u@[k]).len() == l by {
            assert(u@[k] == xor_bits(xor_bits(x@, t0@[k]), t1@[k]));
        }
        assert(t0@[0].len() == l);
        let t = t0.transpose();
        let x_sum = selected_sum(&self.chi, padded.as_slice());
        let t_sum = product_sum(&t, &self.chi);
        Extension { u, chi: self.chi.clone(), x_sum, t_sum }
    }

    /// Decrypts, of each pair of ciphertexts, the one that the choice
    /// selects, under the key derived from the receiver's row. Fails with
    /// `TransportFailure` where there is another number of ciphertexts
    /// than of choices, and with `DecodeFailure` where a selected
    /// ciphertext is too long for the cipher or does not decrypt.
    pub fn receive(&self, delivery: &Delivery) -> (r: Result<Payload, OTError>)
        requires
            self.wf(),
        ensures
            r is Ok <==> delivery.d0@.len() == self.choices().len() && delivery.d1@.len()
                == self.choices().len() && forall|j: int|
                0 <= j < self.choices().len() ==> (#[trigger] opened(
                    derived_key(j as nat, self.rows()[j]),
                    chosen((delivery.d0@[j]@, delivery.d1@[j]@), self.choices()[j]),
                )) is Some,
            r matches Ok(payload) ==> payload@.len() == self.choices().len() && forall|j: int|
                0 <= j < self.choices().len() ==> Some((#[trigger] payload@[j])@) == opened(
                    derived_key(j as nat, self.rows()[j]),
                    chosen((delivery.d0@[j]@, delivery.d1@[j]@), self.choices()[j]),
                ),
            r matches Err(e) ==> e == (if delivery.d0@.len() == self.choices().len()
                && delivery.d1@.len() == self.choices().len() {
                OTError::DecodeFailure
            } else {
                OTError::TransportFailure
            }),
    {
        let n = self.choices.len();
        if delivery.d0.len() != n || delivery.d1.len() != n {
            return Err(OTError::TransportFailure);
        }
        let l = n + EXTRA;
        let t0 = expand(&self.seed0, l);
        assert(t0@[0].len() == l);
        let t = t0.transpose();
        let mut payload: Vec<Vec<u8>> = Vec::with_capacity(n);
        let mut j: usize = 0;
        while j < n
            invariant
                self.wf(),
                n == self.choices().len(),
                delivery.d0@.len() == n,
                delivery.d1@.len() == n,
                t@ == self.rows(),
                has_shape(t@, (n + 384) as nat, 256),
                j <= n,
                payload@.len() == j,
                forall|k: int|
                    0 <= k < j ==> Some((#[trigger] payload@[k])@) == opened(
                        derived_key(k as nat, self.rows()[k]),
                        chosen((delivery.d0@[k]@, delivery.d1@[k]@), self.choices()[k]),
                    ),
            decreases n - j,
        {
            assert(t@[j as int].len() == 256);
            let key = row_key(j, t.index(j));
            let ciphertext = if self.choices[j] {
                &delivery.d1[j]
            } else {
                &delivery.d0[j]
            };
            match open(&key, ciphertext.as_slice()) {
                Some(m) => {
                    payload.push(m);
                },
                None => {
                    let ghost at: int = j as int;
                    assert(opened(
                        derived_key(at as nat, self.rows()[at]),
                        chosen((delivery.d0@[at]@, delivery.d1@[at]@), self.choices()[at]),
                    ) is None);
                    return Err(OTError::DecodeFailure);
                },
            }
            j += 1;
        }
        assert forall|k: int| 0 <= k < n implies (#[trigger] opened(
            derived_key(k as nat, self.rows()[k]),
            chosen((delivery.d0@[k]@, delivery.d1@[k]@), self.choices()[k]),
        )) is Some by {
            assert(Some(payload@[k]@) == opened(
                derived_key(k as nat, self.rows()[k]),
                chosen((delivery.d0@[k]@, delivery.d1@[k]@), self.choices()[k]),
            ));
        }
        Ok(payload)
    }
}

/// Of each pair of seeds the one that `delta` selects: what the base
/// transfers give the sender when both parties follow them.
pub open spec fn selected_seeds(seed0: Seq<Seq<u8>>, seed1: Seq<Seq<u8>>, delta: Seq<bool>) -> Seq<
    Seq<u8>,
> {
    Seq::new(seed0.len(), |i: int| chosen((seed0[i], seed1[i]), delta[i]))
}

/// Of each pair of rows the one that `delta` selects.
pub open spec fn selected_rows(t0: Seq<Seq<bool>>, t1: Seq<Seq<bool>>, delta: Seq<bool>) -> Seq<
    Seq<bool>,
> {
    Seq::new(
        t0.len(),
        |i: int|
            if delta[i] {
                t1[i]
            } else {
                t0[i]
            },
    )
}

/// The row of the sender for a transfer whose row at the receiver is `t`:
/// `t` itself where the choice is `false`, `t + delta` where it is `true`.
pub open spec fn shifted(t: Seq<bool>, delta: Seq<bool>, choice: bool) -> Seq<bool> {
    if choice {
        xor_bits(t, delta)
    } else {
        t
    }
}

/// The correlation that the extension rests on. Let the receiver mask its
/// choices `x` with the rows `t0` and `t1`, and let the sender hold, of
/// each pair of rows, the one that its secret `delta` selects. Then the
/// sender's row of a transfer is the receiver's where the choice is
/// `false`, and differs from it by `delta` where the choice is `true`.
pub proof fn lemma_rows_correlate(
    x: Seq<bool>,
    delta: Seq<bool>,
    t0: Seq<Seq<bool>>,
    t1: Seq<Seq<bool>>,
)
    requires
        x.len() >= 1,
        delta.len() >= 1,
        has_shape(t0, delta.len(), x.len()),
        has_shape(t1, delta.len(), x.len()),
    ensures
        has_shape(transpose_bits(t0), x.len(), delta.len()),
        has_shape(
            transpose_bits(correlated(delta, masked(x, t0, t1), selected_rows(t0, t1, delta))),
            x.len(),
            delta.len(),
        ),
        forall|j: int|
            0 <= j < x.len() ==> (#[trigger] transpose_bits(
                correlated(delta, masked(x, t0, t1), selected_rows(t0, t1, delta)),
            )[j]) == shifted(transpose_bits(t0)[j], delta, x[j]),
{
    let u = masked(x, t0, t1);
    let big_q = correlated(delta, u, selected_rows(t0, t1, delta));
    let q = transpose_bits(big_q);
    let t = transpose_bits(t0);
    assert(t0[0].len() == x.len());
    assert(big_q[0].len() == x.len()) by {
        assert(t1[0].len() == x.len());
    }
    assert forall|j: int| 0 <= j < x.len() implies #[trigger] q[j] == shifted(
        t[j],
        delta,
        x[j],
    ) by {
        assert forall|i: int| 0 <= i < delta.len() implies q[j][i] == shifted(
            t[j],
            delta,
            x[j],
        )[i] by {
            assert(t0[i].len() == x.len());
            assert(t1[i].len() == x.len());
            assert(q[j][i] == big_q[i][j]);
            assert(t[j][i] == t0[i][j]);
            assert(u[i] == xor_bits(xor_bits(x, t0[i]), t1[i]));
        }
        assert(q[j] =~= shifted(t[j], delta, x[j]));
    }
}

/// The sums of the check are polynomials of `width` terms.
pub proof fn lemma_sum_lengths(
    a: Seq<Seq<bool>>,
    b: Seq<Seq<bool>>,
    select: Seq<bool>,
    width: nat,
    upto: nat,
)
    ensures
        sum_of_products(a, b, width, upto).len() == width,
        sum_of_selected(a, select, width, upto).len() == width,
    decreases upto,
{
    if upto > 0 {
        lemma_sum_lengths(a, b, select, width, (upto - 1) as nat);
    }
}

/// Where each row of `q` is the row of `t`, shifted by `delta` for the
/// transfers that `x` selects, the sum of the products of `q` with the
/// challenges is that of `t`, plus `delta` times the sum of the selected
/// challenges.
proof fn lemma_check_sums(
    q: Seq<Seq<bool>>,
    t: Seq<Seq<bool>>,
    chi: Seq<Seq<bool>>,
    x: Seq<bool>,
    delta: Seq<bool>,
    upto: nat,
)
    requires
        upto <= x.len(),
        has_shape(q, x.len(), delta.len()),
        has_shape(t, x.len(), delta.len()),
        has_shape(chi, x.len(), delta.len()),
        forall|j: int| 0 <= j < x.len() ==> (#[trigger] q[j]) == shifted(t[j], delta, x[j]),
    ensures
        sum_of_products(q, chi, delta.len(), upto) == xor_bits(
            sum_of_products(t, chi, delta.len(), upto),
            polynomial_product(sum_of_selected(chi, x, delta.len(), upto), delta),
        ),
    decreases upto,
{
    let w = delta.len();
    lemma_sum_lengths(q, chi, x, w, upto);
    lemma_sum_lengths(t, chi, x, w, upto);
    lemma_sum_lengths(chi, chi, x, w, upto);
    if upto == 0 {
        crate::ot::polynomial::lemma_product_zero(delta, w);
        assert(sum_of_products(q, chi, w, 0) =~= xor_bits(
            sum_of_products(t, chi, w, 0),
            polynomial_product(sum_of_selected(chi, x, w, 0), delta),
        ));
    } else {
        let j = (upto - 1) as nat;
        lemma_check_sums(q, t, chi, x, delta, j);
        lemma_sum_lengths(q, chi, x, w, j);
        lemma_sum_lengths(t, chi, x, w, j);
        lemma_sum_lengths(chi, chi, x, w, j);
        let selected = sum_of_selected(chi, x, w, j);
        let before = polynomial_product(selected, delta);
        let own = polynomial_product(t[j as int], chi[j as int]);
        assert(q[j as int] == shifted(t[j as int], delta, x[j as int]));
        assert(t[j as int].len() == w);
        assert(chi[j as int].len() == w);
        if x[j as int] {
            let cross = polynomial_product(delta, chi[j as int]);
            crate::ot::polynomial::lemma_product_distributes_left(
                t[j as int],
                delta,
                chi[j as int],
            );
            crate::ot::polynomial::lemma_product_distributes_left(selected, chi[j as int], delta);
            crate::ot::polynomial::lemma_product_commutes(chi[j as int], delta);
            assert(polynomial_product(q[j as int], chi[j as int]) == xor_bits(own, cross));
            assert(polynomial_product(sum_of_selected(chi, x, w, upto), delta) == xor_bits(
                before,
                cross,
            ));
            assert(xor_bits(
                xor_bits(sum_of_products(t, chi, w, j), before),
                xor_bits(own, cross),
            ) =~= xor_bits(
                xor_bits(sum_of_products(t, chi, w, j), own),
                xor_bits(before, cross),
            ));
        } else {
            assert(xor_bits(xor_bits(sum_of_products(t, chi, w, j), before), own) =~= xor_bits(
                xor_bits(sum_of_products(t, chi, w, j), own),
                before,
            ));
        }
    }
}

/// The check holds of an honest receiver. Where each row of the sender is
/// the row of the receiver, shifted by `delta` for the transfers whose
/// choice is `true`, the sums that the receiver computes from its own rows
/// and choices satisfy the identity that the sender checks.
pub proof fn lemma_honest_check_holds(
    q: Seq<Seq<bool>>,
    t: Seq<Seq<bool>>,
    chi: Seq<Seq<bool>>,
    x: Seq<bool>,
    delta: Seq<bool>,
)
    requires
        has_shape(q, x.len(), delta.len()),
        has_shape(t, x.len(), delta.len()),
        has_shape(chi, x.len(), delta.len()),
        forall|j: int| 0 <= j < x.len() ==> (#[trigger] q[j]) == shifted(t[j], delta, x[j]),
    ensures
        consistent(
            q,
            chi,
            delta,
            sum_of_selected(chi, x, delta.len(), x.len()),
            sum_of_products(t, chi, delta.len(), x.len()),
        ),
{
    let w = delta.len();
    lemma_check_sums(q, t, chi, x, delta, x.len());
    lemma_sum_lengths(t, chi, x, w, x.len());
    lemma_sum_lengths(chi, chi, x, w, x.len());
    let x_sum = sum_of_selected(chi, x, w, x.len());
    let t_sum = sum_of_products(t, chi, w, x.len());
    let product = polynomial_product(x_sum, delta);
    assert(t_sum =~= xor_bits(product, xor_bits(t_sum, product)));
}

/// Expanding the seeds that `delta` selects gives the rows that `delta`
/// selects.
proof fn lemma_expand_selected(
    seed0: Seq<Seq<u8>>,
    seed1: Seq<Seq<u8>>,
    delta: Seq<bool>,
    bits: nat,
)
    requires
        seed0.len() == seed1.len(),
    ensures
        expanded(selected_seeds(seed0, seed1, delta), bits) == selected_rows(
            expanded(seed0, bits),
            expanded(seed1, bits),
            delta,
        ),
{
    assert(expanded(selected_seeds(seed0, seed1, delta), bits) =~= selected_rows(
        expanded(seed0, bits),
        expanded(seed1, bits),
        delta,
    ));
}

/// An extended transfer between two honest parties passes the check and
/// gives the receiver the key of each message it chose.
///
/// The receiver holds `choices`, the extra choices `bonus`, the pairs of
/// seeds `seed0` and `seed1` and the challenges `chi`; the sender holds
/// `delta` and, from the base transfers, of each pair of seeds the one
/// that `delta` selects. Then the sums that the receiver sends satisfy the
/// sender's check, and for each transfer the row from which the sender
/// derives the key of the chosen message is the row from which the
/// receiver derives its key.
pub proof fn lemma_extension_keys_agree(
    choices: Seq<bool>,
    bonus: Seq<bool>,
    delta: Seq<bool>,
    seed0: Seq<Seq<u8>>,
    seed1: Seq<Seq<u8>>,
    chi: Seq<Seq<bool>>,
)
    requires
        delta.len() == 256,
        seed0.len() == 256,
        seed1.len() == 256,
        bonus.len() == 384,
        has_shape(chi, choices.len() + 384, 256),
        has_shape(expanded(seed0, choices.len() + 384), 256, choices.len() + 384),
        has_shape(expanded(seed1, choices.len() + 384), 256, choices.len() + 384),
    ensures
        ({
            let l = choices.len() + 384;
            let padded = choices + bonus;
            let t = transpose_bits(expanded(seed0, l));
            let u = masked(padded, expanded(seed0, l), expanded(seed1, l));
            let q = transpose_bits(
                correlated(delta, u, expanded(selected_seeds(seed0, seed1, delta), l)),
            );
            &&& consistent(
                q,
                chi,
                delta,
                sum_of_selected(chi, padded, 256, l),
                sum_of_products(t, chi, 256, l),
            )
            &&& forall|j: int|
                0 <= j < choices.len() ==> shifted(#[trigger] q[j], delta, choices[j]) == t[j]
        }),
{
    let l = choices.len() + 384;
    let padded = choices + bonus;
    let t0 = expanded(seed0, l);
    let t1 = expanded(seed1, l);
    let t = transpose_bits(t0);
    let u = masked(padded, t0, t1);
    let q = transpose_bits(correlated(delta, u, expanded(selected_seeds(seed0, seed1, delta), l)));
    lemma_expand_selected(seed0, seed1, delta, l);
    lemma_rows_correlate(padded, delta, t0, t1);
    lemma_honest_check_holds(q, t, chi, padded, delta);
    assert forall|j: int| 0 <= j < choices.len() implies shifted(
        #[trigger] q[j],
        delta,
        choices[j],
    ) == t[j] by {
        assert(padded[j] == choices[j]);
        assert(q[j] == shifted(t[j], delta, padded[j]));
        assert(t[j].len() == 256);
        assert(xor_bits(xor_bits(t[j], delta), delta) =~= t[j]);
    }
}

/// An extended transfer between two honest parties gives the receiver
/// the messages it chose.
///
/// With the parties' data as in [`lemma_extension_keys_agree`], let the
/// sender seal each pair of `messages` under the keys derived from its
/// rows, as [`Sender::exchange`] does, into `d0` and `d1`. Then every
/// ciphertext that the receiver selects opens, under the key that the
/// receiver derives from its own row, to the message that its choice
/// selects.
pub proof fn lemma_extension_delivers(
    messages: Seq<(Seq<u8>, Seq<u8>)>,
    choices: Seq<bool>,
    bonus: Seq<bool>,
    delta: Seq<bool>,
    seed0: Seq<Seq<u8>>,
    seed1: Seq<Seq<u8>>,
    chi: Seq<Seq<bool>>,
    d0: Seq<Seq<u8>>,
    d1: Seq<Seq<u8>>,
)
    requires
        messages.len() == choices.len(),
        d0.len() == choices.len(),
        d1.len() == choices.len(),
        delta.len() == 256,
        seed0.len() == 256,
        seed1.len() == 256,
        bonus.len() == 384,
        has_shape(chi, choices.len() + 384, 256),
        has_shape(expanded(seed0, choices.len() + 384), 256, choices.len() + 384),
        has_shape(expanded(seed1, choices.len() + 384), 256, choices.len() + 384),
        ({
            let l = choices.len() + 384;
            let u = masked(choices + bonus, expanded(seed0, l), expanded(seed1, l));
            let q = transpose_bits(
                correlated(delta, u, expanded(selected_seeds(seed0, seed1, delta), l)),
            );
            forall|j: int|
                0 <= j < choices.len() ==> seals(
                    sender_row_keys(j as nat, q[j], delta),
                    messages[j],
                    (#[trigger] d0[j], d1[j]),
                )
        }),
    ensures
        ({
            let t = transpose_bits(expanded(seed0, choices.len() + 384));
            forall|j: int|
                0 <= j < choices.len() ==> opened(
                    derived_key(j as nat, #[trigger] t[j]),
                    chosen((d0[j], d1[j]), choices[j]),
                ) == Some(chosen(messages[j], choices[j]))
        }),
{
    let l = choices.len() + 384;
    let t = transpose_bits(expanded(seed0, l));
    let u = masked(choices + bonus, expanded(seed0, l), expanded(seed1, l));
    let q = transpose_bits(correlated(delta, u, expanded(selected_seeds(seed0, seed1, delta), l)));
    lemma_extension_keys_agree(choices, bonus, delta, seed0, seed1, chi);
    assert forall|j: int| 0 <= j < choices.len() implies opened(
        derived_key(j as nat, #[trigger] t[j]),
        chosen((d0[j], d1[j]), choices[j]),
    ) == Some(chosen(messages[j], choices[j])) by {
        assert(shifted(q[j], delta, choices[j]) == t[j]);
        assert(seals(sender_row_keys(j as nat, q[j], delta), messages[j], (d0[j], d1[j])));
    }
}

/// Of each pair of seeds a copy of the one that `picks` selects.
fn pick_seeds(seed0: &Vec<Bytes32>, seed1: &Vec<Bytes32>, picks: &Vec<bool>) -> (seeds: Payload)
    requires
        seed0@.len() == seed1@.len(),
        seed0@.len() == picks@.len(),
    ensures
        byte_rows(seeds@) == selected_seeds(array_rows(seed0@), array_rows(seed1@), picks@),
{
    let n = seed0.len();
    let mut seeds: Vec<Vec<u8>> = Vec::with_capacity(n);
    let mut i: usize = 0;
    while i < n
        invariant
            n == seed0@.len(),
            n == seed1@.len(),
            n == picks@.len(),
            i <= n,
            seeds@.len() == i,
            forall|k: int|
                0 <= k < i ==> (#[trigger] seeds@[k])@ == chosen(
                    (seed0@[k]@, seed1@[k]@),
                    picks@[k],
                ),
        decreases n - i,
    {
        if picks[i] {
            seeds.push(copy_bytes(seed1[i].as_slice()));
        } else {
            seeds.push(copy_bytes(seed0[i].as_slice()));
        }
        i += 1;
    }
    assert(byte_rows(seeds@) =~= selected_seeds(
        array_rows(seed0@),
        array_rows(seed1@),
        picks@,
    ));
    seeds
}

/// Runs both parties of an extended transfer in one place, after base
/// transfers that gave the sender, of each pair of seeds, the one that
/// its secret selects.
///
/// Whatever the sender's secret `delta` and the receiver's extra choices,
/// seeds and challenges are, the check passes, every selected ciphertext
/// opens, and the receiver ends up with exactly the messages it chose.
/// The run fails only where the extension does not take the messages or
/// the number of choices, or where there are not as many pairs of
/// messages as choices.
pub fn honest_exchange(
    messages: &Message,
    choices: &[bool],
    delta: Bytes32,
    bonus: Vec<bool>,
    seed0: Vec<Bytes32>,
    seed1: Vec<Bytes32>,
    chi: BitMatrix,
) -> (r: Result<Payload, OTError>)
    requires
        bonus@.len() == 384,
        seed0@.len() == 256,
        seed1@.len() == 256,
        has_shape(chi@, choices@.len() + 384, 256),
    ensures
        r is Ok <==> valid_messages(messages@) && valid_count(choices@.len()) && messages@.len()
            == choices@.len(),
        r matches Ok(payload) ==> payload@.len() == choices@.len() && forall|j: int|
            0 <= j < choices@.len() ==> (#[trigger] payload@[j])@ == chosen(
                messages@[j],
                choices@[j],
            ),
        r matches Err(e) ==> e == (if valid_messages(messages@) && valid_count(choices@.len()) {
            OTError::TransactionMismatch
        } else {
            OTError::PreconditionViolation
        }),
{
    let ghost s0 = array_rows(seed0@);
    let ghost s1 = array_rows(seed1@);
    let ghost extra = bonus@;
    let ghost challenges = chi@;
    let sender = Sender::with_delta(messages, delta)?;
    let seeds = pick_seeds(&seed0, &seed1, &sender.choices());
    let receiver = Receiver::with_randomness(choices, bonus, seed0, seed1, chi)?;
    validate_properties(&sender.properties(), &receiver.properties())?;
    let e = receiver.extend();
    proof {
        lemma_extension_keys_agree(choices@, extra, sender.delta(), s0, s1, challenges);
    }
    let delivery = match sender.exchange(&seeds, &e.u, &e.chi, &e.x_sum, &e.t_sum) {
        Ok(d) => d,
        Err(e) => {
            proof {
                assert(false);
            }
            return Err(e);
        },
    };
    proof {
        lemma_extension_delivers(
            messages@,
            choices@,
            extra,
            sender.delta(),
            s0,
            s1,
            challenges,
            byte_rows(delivery.d0@),
            byte_rows(delivery.d1@),
        );
    }
    match receiver.receive(&delivery) {
        Ok(payload) => Ok(payload),
        Err(e) => {
            proof {
                assert(false);
            }
            Err(e)
        },
    }
}

} // verus!
