//! Polynomials over the field of three elements, packed two bits per coefficient.
//!
//! Lane `k` of a word, its bits `2k` and `2k + 1`, holds the coefficient of
//! `x^k` as the number 0, 1 or 2. A word is reduced when no lane holds 3.
use vstd::prelude::*;
use vstd::arithmetic::power::pow;

verus! {

/// The lower bit of every lane.
pub const LOW_BITS: u64 = 0x5555_5555_5555_5555;

/// The upper bit of every lane.
pub const HIGH_BITS: u64 = 0xAAAA_AAAA_AAAA_AAAA;

/// The coefficient of `x^k` in the word `v`.
pub open spec fn lane(v: u64, k: u64) -> u64 {
    (v >> ((2 * k) as u64)) & 3
}

/// No lane of `v` holds the number 3.
pub open spec fn reduced(v: u64) -> bool {
    v & (v >> 1) & LOW_BITS == 0
}

/// The word with exactly the `n` lowest lanes filled with ones.
pub open spec fn low_mask(n: u64) -> u64 {
    !(!0u64 << ((2 * n) as u64))
}

/// The word whose lanes are the sums modulo three of the lanes of `a` and of `b`.
pub open spec fn lane_sum(a: u64, b: u64) -> u64 {
    let both = a & b;
    let two = (both & LOW_BITS) << 1;
    let one = (both & HIGH_BITS) >> 1;
    let mixed = (((a & HIGH_BITS) >> 1) & b) | (((b & HIGH_BITS) >> 1) & a);
    ((mixed | (mixed << 1)) ^ (a ^ b)) | two | one
}

/// The same sum, computed from the complements of the operands.
pub open spec fn lane_sum_fast(a: u64, b: u64) -> u64 {
    let a0 = ((HIGH_BITS & !a) >> 1) & !a;
    let b0 = ((HIGH_BITS & !b) >> 1) & !b;
    !(((a0 << 1 | a0) | (b0 << 1 | b0)) ^ (a | b))
}

/// In every lane, `lane_sum` is the sum modulo three, and it is reduced.
pub proof fn lemma_lane_sum(a: u64, b: u64, k: u64)
    by (bit_vector)
    requires
        reduced(a),
        reduced(b),
        k < 32,
    ensures
        lane(lane_sum(a, b), k) == (lane(a, k) + lane(b, k)) % 3,
        reduced(lane_sum(a, b)),
{
}

/// On reduced words the fast form agrees with `lane_sum`.
pub proof fn lemma_lane_sum_fast(a: u64, b: u64)
    by (bit_vector)
    requires
        reduced(a),
        reduced(b),
    ensures
        lane_sum_fast(a, b) == lane_sum(a, b),
{
}

/// One step of the carry-less product: adds to `acc` the product of `b * x^i`
/// with the coefficient of `x^i` in `a`, when `i < n`.
pub open spec fn product_step(acc: u64, a: u64, b: u64, n: u64, i: u64) -> u64 {
    let shifted = b << ((2 * i) as u64);
    if i < n && lane(a, i) == 1 {
        lane_sum(acc, shifted)
    } else if i < n && lane(a, i) == 2 {
        lane_sum(lane_sum(acc, shifted), shifted)
    } else {
        acc
    }
}

/// The product of the polynomial made of the `n` lowest coefficients of `a` with
/// the polynomial `b`, truncated to the width of the word.
pub open spec fn carryless_product(a: u64, b: u64, n: nat) -> u64
    decreases n,
{
    if n == 0 {
        0
    } else {
        product_step(carryless_product(a, b, (n - 1) as nat), a, b, n as u64, (n - 1) as u64)
    }
}

proof fn lemma_product_prefix(a: u64, b: u64, n: u64, m: u64)
    requires
        1 <= n <= m,
    ensures
        carryless_product(a, b, n as nat) == product_step(
            carryless_product(a, b, (n - 1) as nat),
            a,
            b,
            m,
            (n - 1) as u64,
        ),
{
}

/// The polynomial `t` of the reduction rule `x^n = t` for the field of degree `n`.
pub open spec fn reduction_tail(n: u64) -> u64 {
    if n == 1 {
        0b0001
    } else if n == 2 {
        0b0010
    } else if n == 3 || n == 5 {
        0b0110
    } else {
        0b1001
    }
}

/// Replaces the part of `v` above degree `n` by its product with the reduction
/// tail, which leaves the residue class of `v` unchanged.
pub open spec fn fold(v: u64, n: u64) -> u64 {
    lane_sum(
        v & low_mask(n),
        carryless_product((v >> ((2 * n) as u64)), reduction_tail(n), n as nat),
    )
}

proof fn lemma_fold_chain_decreases(
    v: u64,
    n: u64,
    r0: u64,
    r1: u64,
    r2: u64,
    r3: u64,
    r4: u64,
    r5: u64,
)
    by (bit_vector)
    requires
        1 <= n <= 6,
        v >> ((2 * n) as u64) != 0,
        r0 == product_step(0, v >> ((2 * n) as u64), reduction_tail(n), n, 0),
        r1 == product_step(r0, v >> ((2 * n) as u64), reduction_tail(n), n, 1),
        r2 == product_step(r1, v >> ((2 * n) as u64), reduction_tail(n), n, 2),
        r3 == product_step(r2, v >> ((2 * n) as u64), reduction_tail(n), n, 3),
        r4 == product_step(r3, v >> ((2 * n) as u64), reduction_tail(n), n, 4),
        r5 == product_step(r4, v >> ((2 * n) as u64), reduction_tail(n), n, 5),
    ensures
        lane_sum(v & low_mask(n), r5) < v,
{
}

/// The carry-less product with at most six coefficients of `a`, as the last of
/// six steps.
proof fn lemma_product_chain(a: u64, b: u64, n: u64) -> (r: (u64, u64, u64, u64, u64, u64))
    requires
        n <= 6,
    ensures
        r.0 == product_step(0, a, b, n, 0),
        r.1 == product_step(r.0, a, b, n, 1),
        r.2 == product_step(r.1, a, b, n, 2),
        r.3 == product_step(r.2, a, b, n, 3),
        r.4 == product_step(r.3, a, b, n, 4),
        r.5 == product_step(r.4, a, b, n, 5),
        r.5 == carryless_product(a, b, n as nat),
{
    let r0 = product_step(0, a, b, n, 0);
    let r1 = product_step(r0, a, b, n, 1);
    let r2 = product_step(r1, a, b, n, 2);
    let r3 = product_step(r2, a, b, n, 3);
    let r4 = product_step(r3, a, b, n, 4);
    let r5 = product_step(r4, a, b, n, 5);
    if n >= 1 {
        lemma_product_prefix(a, b, 1, n);
    }
    if n >= 2 {
        lemma_product_prefix(a, b, 2, n);
    }
    if n >= 3 {
        lemma_product_prefix(a, b, 3, n);
    }
    if n >= 4 {
        lemma_product_prefix(a, b, 4, n);
    }
    if n >= 5 {
        lemma_product_prefix(a, b, 5, n);
    }
    if n >= 6 {
        lemma_product_prefix(a, b, 6, n);
    }
    (r0, r1, r2, r3, r4, r5)
}

/// A word with a coefficient at or above `x^n` gets smaller when it is folded.
pub proof fn lemma_fold_decreases(v: u64, n: u64)
    requires
        1 <= n <= 6,
        v >> ((2 * n) as u64) != 0,
    ensures
        fold(v, n) < v,
{
    let r = lemma_product_chain(v >> ((2 * n) as u64), reduction_tail(n), n);
    lemma_fold_chain_decreases(v, n, r.0, r.1, r.2, r.3, r.4, r.5);
}

/// The representative of degree below `n` that iterated folding reaches from `v`.
pub open spec fn reduce(v: u64, n: u64) -> u64
    decreases v,
    via reduce_decreases
{
    if 1 <= n <= 6 && v >> ((2 * n) as u64) != 0 {
        reduce(fold(v, n), n)
    } else {
        v
    }
}

#[via_fn]
proof fn reduce_decreases(v: u64, n: u64) {
    if 1 <= n <= 6 && v >> ((2 * n) as u64) != 0 {
        lemma_fold_decreases(v, n);
    }
}

/// The product of `a` and `b` in the extension field of degree `n`: their
/// carry-less product, reduced.
pub open spec fn product(a: u64, b: u64, n: u64) -> u64 {
    reduce(carryless_product(a, b, n as nat), n)
}

/// A step of the carry-less product keeps words reduced.
proof fn lemma_product_step_reduced(acc: u64, a: u64, b: u64, n: u64, i: u64)
    by (bit_vector)
    requires
        reduced(acc),
        reduced(b),
        i < 32,
    ensures
        reduced(product_step(acc, a, b, n, i)),
{
}

/// The carry-less product of a word with a reduced word is reduced.
pub proof fn lemma_carryless_product_reduced(a: u64, b: u64, n: nat)
    requires
        reduced(b),
        n <= 32,
    ensures
        reduced(carryless_product(a, b, n)),
    decreases n,
{
    if n == 0 {
        assert(reduced(0)) by (bit_vector);
    } else {
        lemma_carryless_product_reduced(a, b, (n - 1) as nat);
        lemma_product_step_reduced(
            carryless_product(a, b, (n - 1) as nat),
            a,
            b,
            n as u64,
            (n - 1) as u64,
        );
    }
}

/// Facts on pairs of field elements of degree `n` that the operations rest on.
pub proof fn lemma_word_facts(a: u64, b: u64, n: u64)
    by (bit_vector)
    requires
        1 <= n <= 6,
        reduced(a),
        a >> ((2 * n) as u64) == 0,
        reduced(b),
        b >> ((2 * n) as u64) == 0,
    ensures
        a < 0x1000,
        reduced(lane_sum(a, b)),
        lane_sum(a, b) >> ((2 * n) as u64) == 0,
        lane_sum(a, b) < 0x1000,
        lane_sum(lane_sum(lane_sum(0, a), a), a) == 0,
        lane_sum(0, a) == a,
        lane_sum(a, 0) == a,
        reduced(a & low_mask(n)),
{
}

/// Facts on the constants of the field of degree `n`.
pub proof fn lemma_constants(n: u64)
    by (bit_vector)
    requires
        1 <= n <= 6,
    ensures
        reduced(0) && reduced(1) && reduced(reduction_tail(n)),
        0u64 >> ((2 * n) as u64) == 0,
        1u64 >> ((2 * n) as u64) == 0,
        reduced(HIGH_BITS & low_mask(n)),
        (HIGH_BITS & low_mask(n)) >> ((2 * n) as u64) == 0,
        HIGH_BITS & low_mask(n) == 0xAAAA & low_mask(n),
        HIGH_BITS & low_mask(n) < 0x1000,
{
}

/// Folding keeps words reduced.
proof fn lemma_fold_reduced(v: u64, n: u64)
    requires
        1 <= n <= 6,
        reduced(v),
    ensures
        reduced(fold(v, n)),
{
    let high = v >> ((2 * n) as u64);
    let tail = reduction_tail(n);
    lemma_constants(n);
    lemma_carryless_product_reduced(high, tail, n as nat);
    let c = carryless_product(high, tail, n as nat);
    let low = v & low_mask(n);
    assert(reduced(low)) by (bit_vector)
        requires
            reduced(v),
            low == v & low_mask(n),
            1 <= n <= 6,
    ;
    lemma_lane_sum(low, c, 0);
}

/// Iterated folding of a reduced word ends in a field element of degree `n`.
pub proof fn lemma_reduce_bounded(v: u64, n: u64)
    requires
        1 <= n <= 6,
        reduced(v),
    ensures
        reduce(v, n) >> ((2 * n) as u64) == 0,
        reduced(reduce(v, n)),
    decreases v,
{
    if v >> ((2 * n) as u64) != 0 {
        lemma_fold_decreases(v, n);
        lemma_fold_reduced(v, n);
        lemma_reduce_bounded(fold(v, n), n);
    }
}

/// The product of two field elements is a field element.
pub proof fn lemma_product_closed(a: u64, b: u64, n: u64)
    requires
        1 <= n <= 6,
        reduced(b),
    ensures
        product(a, b, n) >> ((2 * n) as u64) == 0,
        reduced(product(a, b, n)),
        product(a, b, n) < 0x1000,
{
    lemma_carryless_product_reduced(a, b, n as nat);
    lemma_reduce_bounded(carryless_product(a, b, n as nat), n);
    lemma_constants(n);
    lemma_word_facts(product(a, b, n), 0, n);
}

proof fn lemma_unit_step(a: u64, n: u64, i: u64)
    by (bit_vector)
    requires
        reduced(a),
        i < n <= 6,
    ensures
        product_step(a & low_mask(i), a, 1, n, i) == a & low_mask((i + 1) as u64),
        product_step(0, a, 0, n, i) == 0,
        a & low_mask(0) == 0,
        a >> ((2 * n) as u64) == 0 ==> a & low_mask(n) == a,
{
}

proof fn lemma_unit_products(a: u64, n: u64, k: nat)
    requires
        reduced(a),
        k <= n <= 6,
        1 <= n,
    ensures
        carryless_product(a, 1, k) == a & low_mask(k as u64),
        carryless_product(a, 0, k) == 0,
    decreases k,
{
    if k == 0 {
        lemma_unit_step(a, n, 0);
    } else {
        lemma_unit_products(a, n, (k - 1) as nat);
        lemma_unit_step(a, n, (k - 1) as u64);
        lemma_product_prefix(a, 1, k as u64, n);
        lemma_product_prefix(a, 0, k as u64, n);
    }
}

/// Multiplying a field element by the constant polynomial one changes
/// nothing, and multiplying it by zero gives zero.
pub proof fn lemma_product_units(a: u64, n: u64)
    requires
        1 <= n <= 6,
        reduced(a),
        a >> ((2 * n) as u64) == 0,
    ensures
        product(a, 1, n) == a,
        product(a, 0, n) == 0,
{
    lemma_unit_products(a, n, n as nat);
    lemma_unit_step(a, n, 0);
    lemma_constants(n);
}

/// The number of elements of the field of degree `n`.
pub open spec fn cardinality(n: u64) -> u64 {
    if n == 0 {
        1
    } else if n == 1 {
        3
    } else if n == 2 {
        9
    } else if n == 3 {
        27
    } else if n == 4 {
        81
    } else if n == 5 {
        243
    } else {
        729
    }
}

/// The number whose digits in base three are the lanes of `v`, for a word of
/// at most six lanes.
pub open spec fn ternary_value(v: u64) -> int {
    lane(v, 0) + 3 * lane(v, 1) + 9 * lane(v, 2) + 27 * lane(v, 3) + 81 * lane(v, 4) + 243
        * lane(v, 5)
}

/// The word that follows `e` when the lanes are read as the digits of a
/// number in base three.
pub open spec fn successor(e: u16) -> u16 {
    let t: u16 = ((e ^ 0xAAAA) | 0x5555) >> 1;
    let d: u16 = if e >= t {
        (e - t) as u16
    } else {
        (e + 0x10000 - t) as u16
    };
    d & t
}

/// The word of `n` lanes that are all two is the last in base three, and
/// every other word of `n` lanes is followed by the word that is one larger.
pub proof fn lemma_successor(e: u16, n: u64)
    by (bit_vector)
    requires
        1 <= n <= 6,
        reduced(e as u64),
        (e as u64) >> ((2 * n) as u64) == 0,
    ensures
        ternary_value(e as u64) < cardinality(n),
        ternary_value(HIGH_BITS & low_mask(n)) + 1 == cardinality(n),
        ternary_value(0) == 0,
        e as u64 != HIGH_BITS & low_mask(n) ==> reduced(successor(e) as u64) && (successor(e) as u64)
            >> ((2 * n) as u64) == 0 && ternary_value(successor(e) as u64) == ternary_value(
            e as u64,
        ) + 1,
{
}

/// Words of six lanes with the same value in base three are equal.
pub proof fn lemma_ternary_value_injective(a: u64, b: u64)
    by (bit_vector)
    requires
        reduced(a),
        reduced(b),
        a >> 12 == 0,
        b >> 12 == 0,
        ternary_value(a) == ternary_value(b),
    ensures
        a == b,
{
}

/// The tabulated number of elements is the power of three.
pub proof fn lemma_cardinality(n: u64)
    requires
        n <= 6,
    ensures
        cardinality(n) == pow(3, n as nat),
{
    reveal_with_fuel(pow, 8);
}

/// The sum of reduced words does not depend on the order or the grouping.
pub proof fn lemma_sum_laws(a: u64, b: u64, c: u64)
    by (bit_vector)
    requires
        reduced(a),
        reduced(b),
        reduced(c),
    ensures
        lane_sum(a, b) == lane_sum(b, a),
        lane_sum(lane_sum(a, b), c) == lane_sum(a, lane_sum(b, c)),
{
}

} // verus!
