//! Polynomials over GF(2), cut off at a fixed number of terms.
//!
//! A polynomial is a [`BitVector`]: bit `i` is the coefficient of `x^i`.
//! Sums are bit-wise exclusive or; products are ordinary polynomial products
//! with the terms from `x^len` on dropped.

use crate::ot::bitmatrix::{constant_bits, max_bits, xor_bits, BitVector};
use vstd::prelude::*;

verus! {

/// A polynomial with coefficients in GF(2).
pub type Polynomial = BitVector;

/// The sum, over `i` below `upto`, of the products `a[i] * b[k - i]`.
pub open spec fn convolution(a: Seq<bool>, b: Seq<bool>, k: int, upto: int) -> bool
    decreases upto,
{
    if upto <= 0 {
        false
    } else {
        convolution(a, b, k, upto - 1) != (a[upto - 1] && b[k - (upto - 1)])
    }
}

/// The product of `a` and `b`, cut off at the length of `a`: coefficient `k`
/// is the sum of `a[i] * b[k - i]` over `i` from 0 to `k`.
pub open spec fn polynomial_product(a: Seq<bool>, b: Seq<bool>) -> Seq<bool> {
    Seq::new(a.len(), |k: int| convolution(a, b, k, k + 1))
}

/// How many terms of coefficient `k` the first `i` shifts have added.
spec fn terms_done(i: int, k: int) -> int {
    if i <= k {
        i
    } else {
        k + 1
    }
}

/// The zero polynomial of `size / 8` bytes.
pub fn polynomial_new(size: usize) -> (p: Polynomial)
    requires
        (size / 8) % 8 == 0,
        size <= max_bits(),
    ensures
        p@ == constant_bits((size / 8 * 8) as nat, false),
{
    BitVector::zeros(size)
}

/// Clears every coefficient.
pub fn polynomial_zero(p: &mut Polynomial)
    ensures
        final(p)@ == constant_bits(old(p)@.len(), false),
{
    let copy = p.clone();
    p.bitxor_assign(&copy);
    assert(p@ =~= constant_bits(old(p)@.len(), false));
}

/// Adds `a` to `dst`.
pub fn polynomial_acc(dst: &mut Polynomial, a: &Polynomial)
    requires
        old(dst)@.len() == a@.len(),
    ensures
        final(dst)@ == xor_bits(old(dst)@, a@),
{
    dst.bitxor_assign(a);
}

/// Whether `a` and `b` have the same length and the same coefficients.
pub fn polynomial_eq(a: &Polynomial, b: &Polynomial) -> (r: bool)
    ensures
        r == (a@ == b@),
{
    a == b
}

/// Adds the product of `a` and `b` to `dst`, by shifting `b` to each set
/// coefficient of `a` in turn.
pub fn polynomial_mul(dst: &mut Polynomial, a: &Polynomial, b: &Polynomial)
    requires
        old(dst)@.len() == a@.len(),
        a@.len() == b@.len(),
    ensures
        final(dst)@ == xor_bits(old(dst)@, polynomial_product(a@, b@)),
{
    let n = a.len();
    let mut i: usize = 0;
    while i < n
        invariant
            n == a@.len(),
            n == b@.len(),
            dst@.len() == n,
            i <= n,
            forall|k: int|
                0 <= k < n ==> #[trigger] dst@[k] == (old(dst)@[k] != convolution(
                    a@,
                    b@,
                    k,
                    terms_done(i as int, k),
                )),
        decreases n - i,
    {
        if a.index(i) {
            dst.xor_shifted(b, i);
        }
        i += 1;
    }
    assert(dst@ =~= xor_bits(old(dst)@, polynomial_product(a@, b@)));
}

/// The partial sums of a product split over a sum in the right factor.
proof fn lemma_convolution_right(a: Seq<bool>, b: Seq<bool>, c: Seq<bool>, k: int, upto: int)
    requires
        b.len() == c.len(),
        0 <= upto <= k + 1 <= b.len(),
    ensures
        convolution(a, xor_bits(b, c), k, upto) == (convolution(a, b, k, upto) != convolution(
            a,
            c,
            k,
            upto,
        )),
    decreases upto,
{
    if upto > 0 {
        lemma_convolution_right(a, b, c, k, upto - 1);
    }
}

/// The partial sums of a product split over a sum in the left factor.
proof fn lemma_convolution_left(a: Seq<bool>, b: Seq<bool>, c: Seq<bool>, k: int, upto: int)
    requires
        a.len() == b.len(),
        0 <= upto <= a.len(),
    ensures
        convolution(xor_bits(a, b), c, k, upto) == (convolution(a, c, k, upto) != convolution(
            b,
            c,
            k,
            upto,
        )),
    decreases upto,
{
    if upto > 0 {
        lemma_convolution_left(a, b, c, k, upto - 1);
    }
}

/// The sum of `a[i] * b[k - i]` over `i` from `from` to `k - from`: the
/// middle part of coefficient `k`, which reads the same from both ends.
spec fn convolution_from(a: Seq<bool>, b: Seq<bool>, k: int, from: int, upto: int) -> bool
    decreases upto - from,
{
    if upto <= from {
        false
    } else {
        convolution_from(a, b, k, from, upto - 1) != (a[upto - 1] && b[k - (upto - 1)])
    }
}

proof fn lemma_convolution_from_zero(a: Seq<bool>, b: Seq<bool>, k: int, upto: int)
    requires
        0 <= upto,
    ensures
        convolution_from(a, b, k, 0, upto) == convolution(a, b, k, upto),
    decreases upto,
{
    if upto > 0 {
        lemma_convolution_from_zero(a, b, k, upto - 1);
    }
}

/// Taking the first term off a partial sum.
proof fn lemma_convolution_from_first(a: Seq<bool>, b: Seq<bool>, k: int, from: int, upto: int)
    requires
        from < upto,
    ensures
        convolution_from(a, b, k, from, upto) == ((a[from] && b[k - from]) != convolution_from(
            a,
            b,
            k,
            from + 1,
            upto,
        )),
    decreases upto - from,
{
    if upto - 1 > from {
        lemma_convolution_from_first(a, b, k, from, upto - 1);
        assert(convolution_from(a, b, k, from + 1, upto) == (convolution_from(
            a,
            b,
            k,
            from + 1,
            upto - 1,
        ) != (a[upto - 1] && b[k - (upto - 1)])));
    } else {
        assert(!convolution_from(a, b, k, from, from));
        assert(!convolution_from(a, b, k, from + 1, upto));
    }
}

/// The terms `from .. upto` of coefficient `k` of `a * b` are the terms
/// `k + 1 - upto .. k + 1 - from` of coefficient `k` of `b * a`.
proof fn lemma_convolution_mirror(a: Seq<bool>, b: Seq<bool>, k: int, from: int, upto: int)
    requires
        0 <= from <= upto <= k + 1,
    ensures
        convolution_from(a, b, k, from, upto) == convolution_from(
            b,
            a,
            k,
            k + 1 - upto,
            k + 1 - from,
        ),
    decreases upto - from,
{
    if from < upto {
        lemma_convolution_mirror(a, b, k, from, upto - 1);
        lemma_convolution_from_first(b, a, k, k + 1 - upto, k + 1 - from);
    }
}

/// The product is linear in its right factor:
/// `a * (b + c) == a * b + a * c`.
pub proof fn lemma_product_distributes_right(a: Seq<bool>, b: Seq<bool>, c: Seq<bool>)
    requires
        a.len() == b.len(),
        b.len() == c.len(),
    ensures
        polynomial_product(a, xor_bits(b, c)) == xor_bits(
            polynomial_product(a, b),
            polynomial_product(a, c),
        ),
{
    assert forall|k: int| 0 <= k < a.len() implies polynomial_product(a, xor_bits(b, c))[k]
        == xor_bits(polynomial_product(a, b), polynomial_product(a, c))[k] by {
        lemma_convolution_right(a, b, c, k, k + 1);
    }
    assert(polynomial_product(a, xor_bits(b, c)) =~= xor_bits(
        polynomial_product(a, b),
        polynomial_product(a, c),
    ));
}

/// The product is linear in its left factor:
/// `(a + b) * c == a * c + b * c`.
pub proof fn lemma_product_distributes_left(a: Seq<bool>, b: Seq<bool>, c: Seq<bool>)
    requires
        a.len() == b.len(),
        b.len() == c.len(),
    ensures
        polynomial_product(xor_bits(a, b), c) == xor_bits(
            polynomial_product(a, c),
            polynomial_product(b, c),
        ),
{
    assert forall|k: int| 0 <= k < a.len() implies polynomial_product(xor_bits(a, b), c)[k]
        == xor_bits(polynomial_product(a, c), polynomial_product(b, c))[k] by {
        lemma_convolution_left(a, b, c, k, k + 1);
    }
    assert(polynomial_product(xor_bits(a, b), c) =~= xor_bits(
        polynomial_product(a, c),
        polynomial_product(b, c),
    ));
}

/// The product does not depend on the order of its factors.
pub proof fn lemma_product_commutes(a: Seq<bool>, b: Seq<bool>)
    requires
        a.len() == b.len(),
    ensures
        polynomial_product(a, b) == polynomial_product(b, a),
{
    assert forall|k: int| 0 <= k < a.len() implies polynomial_product(a, b)[k]
        == polynomial_product(b, a)[k] by {
        lemma_convolution_from_zero(a, b, k, k + 1);
        lemma_convolution_from_zero(b, a, k, k + 1);
        lemma_convolution_mirror(a, b, k, 0, k + 1);
    }
    assert(polynomial_product(a, b) =~= polynomial_product(b, a));
}

/// The product with the zero polynomial is zero.
pub proof fn lemma_product_zero(a: Seq<bool>, len: nat)
    requires
        a.len() == len,
    ensures
        polynomial_product(a, constant_bits(len, false)) == constant_bits(len, false),
        polynomial_product(constant_bits(len, false), a) == constant_bits(len, false),
{
    let z = constant_bits(len, false);
    assert forall|k: int| 0 <= k < len implies !polynomial_product(a, z)[k]
        && !polynomial_product(z, a)[k] by {
        lemma_convolution_zero(a, len, k, k + 1);
    }
    assert(polynomial_product(a, z) =~= z);
    assert(polynomial_product(z, a) =~= z);
}

proof fn lemma_convolution_zero(a: Seq<bool>, len: nat, k: int, upto: int)
    requires
        0 <= upto <= k + 1 <= len,
    ensures
        !convolution(a, constant_bits(len, false), k, upto),
        !convolution(constant_bits(len, false), a, k, upto),
    decreases upto,
{
    if upto > 0 {
        lemma_convolution_zero(a, len, k, upto - 1);
    }
}

/// Addition does not depend on the order of its operands.
pub proof fn lemma_xor_commutes(a: Seq<bool>, b: Seq<bool>)
    requires
        a.len() == b.len(),
    ensures
        xor_bits(a, b) == xor_bits(b, a),
{
    assert(xor_bits(a, b) =~= xor_bits(b, a));
}

/// Addition does not depend on how its operands are grouped.
pub proof fn lemma_xor_associates(a: Seq<bool>, b: Seq<bool>, c: Seq<bool>)
    requires
        a.len() == b.len(),
        b.len() == c.len(),
    ensures
        xor_bits(xor_bits(a, b), c) == xor_bits(a, xor_bits(b, c)),
{
    assert(xor_bits(xor_bits(a, b), c) =~= xor_bits(a, xor_bits(b, c)));
}

/// Zero is neutral for addition, and every polynomial is its own negative.
pub proof fn lemma_xor_zero(a: Seq<bool>)
    ensures
        xor_bits(a, constant_bits(a.len(), false)) == a,
        xor_bits(constant_bits(a.len(), false), a) == a,
        xor_bits(a, a) == constant_bits(a.len(), false),
{
    assert(xor_bits(a, constant_bits(a.len(), false)) =~= a);
    assert(xor_bits(constant_bits(a.len(), false), a) =~= a);
    assert(xor_bits(a, a) =~= constant_bits(a.len(), false));
}

} // verus!
