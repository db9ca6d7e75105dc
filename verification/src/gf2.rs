//! Polynomials over the field of two elements, packed one coefficient per bit.
//!
//! Bit `i` of a word is the coefficient of `x^i`. Addition of polynomials is the
//! bitwise exclusive or of their words.
use vstd::prelude::*;
use vstd::arithmetic::power::pow;
use vstd::arithmetic::power2::{lemma2_to64, lemma_pow2};

verus! {

/// The word with exactly the `n` lowest bits set.
pub open spec fn low_mask(n: u64) -> u64 {
    !(!0u64 << n)
}

/// One step of the carry-less product: adds `b * x^i` to `acc` when `i < n` and
/// the coefficient of `x^i` in `a` is one.
pub open spec fn product_step(acc: u64, a: u64, b: u64, n: u64, i: u64) -> u64 {
    if i < n && (a >> i) & 1 == 1 {
        acc ^ (b << i)
    } else {
        acc
    }
}

/// The product of the polynomial made of the `n` lowest coefficients of `a` with
/// the polynomial `b`, truncated to the width of the word.
pub open spec fn carryless_product(a: u64, b: u64, n: nat) -> u64
    decreases n,
{
    if n == 0 {
        0
    } else {
        let i = (n - 1) as u64;
        let low = carryless_product(a, b, (n - 1) as nat);
        if (a >> i) & 1 == 1 {
            low ^ (b << i)
        } else {
            low
        }
    }
}

/// The carry-less product for at most ten coefficients of `a`, written out
/// without recursion.
pub open spec fn carryless_product_unrolled(a: u64, b: u64, n: u64) -> u64 {
    let r0 = product_step(0, a, b, n, 0);
    let r1 = product_step(r0, a, b, n, 1);
    let r2 = product_step(r1, a, b, n, 2);
    let r3 = product_step(r2, a, b, n, 3);
    let r4 = product_step(r3, a, b, n, 4);
    let r5 = product_step(r4, a, b, n, 5);
    let r6 = product_step(r5, a, b, n, 6);
    let r7 = product_step(r6, a, b, n, 7);
    let r8 = product_step(r7, a, b, n, 8);
    product_step(r8, a, b, n, 9)
}

/// For at most ten coefficients the two forms of the carry-less product agree.
pub proof fn lemma_carryless_product_unrolled(a: u64, b: u64, n: u64)
    requires
        n <= 10,
    ensures
        carryless_product(a, b, n as nat) == carryless_product_unrolled(a, b, n),
{
    reveal_with_fuel(carryless_product, 11);
}

/// The low part `t` of the reduction polynomial `x^n + t` of degree `n`.
pub open spec fn reduction_tail(n: u64) -> u64 {
    if n == 1 {
        0b1
    } else if n == 5 {
        0b101
    } else if n == 8 {
        0b11011
    } else if n == 10 {
        0b1001
    } else {
        0b11
    }
}

/// Replaces the part of `v` above degree `n` by its product with the reduction
/// tail, which leaves the residue class of `v` unchanged.
pub open spec fn fold(v: u64, n: u64) -> u64 {
    (v & low_mask(n)) ^ carryless_product(v >> n, reduction_tail(n), n as nat)
}

/// The same step with the carry-less product written out.
pub open spec fn fold_unrolled(v: u64, n: u64) -> u64 {
    (v & low_mask(n)) ^ carryless_product_unrolled(v >> n, reduction_tail(n), n)
}

proof fn lemma_fold_unrolled_decreases(v: u64, n: u64)
    by (bit_vector)
    requires
        1 <= n <= 10,
        v >> n != 0,
    ensures
        fold_unrolled(v, n) < v,
{
}

/// A word with a coefficient at or above `x^n` gets smaller when it is folded.
pub proof fn lemma_fold_decreases(v: u64, n: u64)
    requires
        1 <= n <= 10,
        v >> n != 0,
    ensures
        fold(v, n) < v,
{
    lemma_carryless_product_unrolled(v >> n, reduction_tail(n), n);
    lemma_fold_unrolled_decreases(v, n);
}

/// The representative of degree below `n` that iterated folding reaches from `v`.
pub open spec fn reduce(v: u64, n: u64) -> u64
    decreases v,
    via reduce_decreases
{
    if 1 <= n <= 10 && v >> n != 0 {
        reduce(fold(v, n), n)
    } else {
        v
    }
}

#[via_fn]
proof fn reduce_decreases(v: u64, n: u64) {
    if 1 <= n <= 10 && v >> n != 0 {
        lemma_fold_decreases(v, n);
    }
}

/// Iterated folding ends below degree `n`.
pub proof fn lemma_reduce_bounded(v: u64, n: u64)
    requires
        1 <= n <= 10,
    ensures
        reduce(v, n) >> n == 0,
    decreases v,
{
    if v >> n != 0 {
        lemma_fold_decreases(v, n);
        lemma_reduce_bounded(fold(v, n), n);
    }
}

/// The product of `a` and `b` in the extension field of degree `n`: their
/// carry-less product, reduced.
pub open spec fn product(a: u64, b: u64, n: u64) -> u64 {
    reduce(carryless_product(a, b, n as nat), n)
}

proof fn lemma_unrolled_facts(a: u64, n: u64)
    by (bit_vector)
    requires
        1 <= n <= 10,
        a >> n == 0,
    ensures
        carryless_product_unrolled(a, 1, n) == a,
        carryless_product_unrolled(a, 0, n) == 0,
        carryless_product_unrolled(0, a, n) == 0,
        carryless_product_unrolled(1, a, n) == a,
        0u64 >> n == 0,
        1u64 >> n == 0,
{
}

/// Multiplying by the constant polynomial one changes nothing, and multiplying
/// by zero gives zero, on either side.
pub proof fn lemma_product_units(a: u64, n: u64)
    requires
        1 <= n <= 10,
        a >> n == 0,
    ensures
        product(a, 1, n) == a,
        product(1, a, n) == a,
        product(a, 0, n) == 0,
        product(0, a, n) == 0,
{
    lemma_unrolled_facts(a, n);
    lemma_carryless_product_unrolled(a, 1, n);
    lemma_carryless_product_unrolled(a, 0, n);
    lemma_carryless_product_unrolled(1, a, n);
    lemma_carryless_product_unrolled(0, a, n);
}

proof fn lemma_power_of_two_table(n: u64)
    by (bit_vector)
    requires
        n <= 10,
    ensures
        1u64 << n == (if n == 0 {
            1u64
        } else if n == 1 {
            2u64
        } else if n == 2 {
            4u64
        } else if n == 3 {
            8u64
        } else if n == 4 {
            16u64
        } else if n == 5 {
            32u64
        } else if n == 6 {
            64u64
        } else if n == 7 {
            128u64
        } else if n == 8 {
            256u64
        } else if n == 9 {
            512u64
        } else {
            1024u64
        }),
{
}

/// A field of degree `n` has `2^n` elements, and the words below `2^n` are
/// those without a bit at or above position `n`.
pub proof fn lemma_cardinality(n: u64)
    requires
        n <= 10,
    ensures
        (1u64 << n) == pow(2, n as nat),
        1 <= (1u64 << n) <= 1024,
        low_mask(n) + 1 == (1u64 << n),
        forall|v: u64| v >> n == 0 <==> v < (1u64 << n),
{
    lemma_power_of_two_table(n);
    lemma2_to64();
    lemma_pow2(n as nat);
    assert(low_mask(n) + 1 == (1u64 << n)) by (bit_vector)
        requires
            n <= 10,
    ;
    assert forall|v: u64| v >> n == 0 <==> v < (1u64 << n) by {
        assert(v >> n == 0 <==> v < (1u64 << n)) by (bit_vector)
            requires
                n <= 10,
        ;
    }
}

/// Facts on words below `2^n` that the field operations rest on.
pub proof fn lemma_word_facts(a: u64, n: u64)
    by (bit_vector)
    requires
        1 <= n <= 10,
        a >> n == 0,
    ensures
        a < 0x400,
        (0u64 ^ a) ^ a == 0,
        0u64 >> n == 0,
        1u64 >> n == 0,
        low_mask(n) >> n == 0,
        low_mask(n) == (1u64 << n) - 1,
        1 <= low_mask(n) < 0x400,
        a <= low_mask(n),
        a != low_mask(n) ==> (a + 1) as u64 >> n == 0,
        forall|b: u64| b >> n == 0 ==> #[trigger] (a ^ b) >> n == 0,
{
}

/// The word that one step of the reduction makes of `v`: `v` itself where no
/// coefficient is left at or above `x^n`.
pub open spec fn fold_once(v: u64, n: u64) -> u64 {
    if v >> n != 0 {
        fold_unrolled(v, n)
    } else {
        v
    }
}

#[verifier::rlimit(100)]
proof fn lemma_nonzero_chain(a: u64, b: u64, n: u64, p: u64, f1: u64, f2: u64)
    by (bit_vector)
    requires
        1 <= n <= 10,
        a >> n == 0,
        b >> n == 0,
        a != 0,
        b != 0,
        p == carryless_product_unrolled(a, b, n),
        f1 == fold_once(p, n),
        f2 == fold_once(f1, n),
    ensures
        f2 != 0,
        f2 >> n == 0,
{
}

/// The product of two field elements other than zero is not zero: the
/// reduction polynomial of every degree from one to ten is irreducible.
pub proof fn lemma_no_zero_divisors(a: u64, b: u64, n: u64)
    requires
        1 <= n <= 10,
        a >> n == 0,
        b >> n == 0,
        a != 0,
        b != 0,
    ensures
        product(a, b, n) != 0,
{
    let p = carryless_product(a, b, n as nat);
    lemma_carryless_product_unrolled(a, b, n);
    let f1 = fold_once(p, n);
    lemma_carryless_product_unrolled(p >> n, reduction_tail(n), n);
    let f2 = fold_once(f1, n);
    lemma_carryless_product_unrolled(f1 >> n, reduction_tail(n), n);
    lemma_nonzero_chain(a, b, n, p, f1, f2);
    reveal_with_fuel(reduce, 3);
    assert(reduce(p, n) == f2);
}

} // verus!
