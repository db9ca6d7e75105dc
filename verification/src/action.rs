//! The action of the linear changes of variables on the forms of a degree:
//! the image of every basis monomial under every matrix, as a packed form, and
//! the image of a form as the sum of the images of its terms.
use vstd::prelude::*;
use vstd::arithmetic::div_mod::lemma_div_denominator;
use crate::gf3::lane_sum;
use crate::matrices::Matrix;
use crate::polynomials::{
    basis, basis_index, basis_size, is_form, lemma_basis, lemma_basis_rows_index,
    max_width, with_coefficient, Polynomial, Term,
};

verus! {

/// The coefficient of `x^a y^b z^(d - a - b)` in the form of degree `d` with
/// the coefficients `v`; zero where there is no such monomial.
pub open spec fn form_coefficient(v: Seq<u8>, d: nat, a: int, b: int) -> int {
    if 0 <= a && 0 <= b && a + b <= d {
        v[basis_index(d, a as nat, b as nat) as int] as int
    } else {
        0
    }
}

/// The coefficient, modulo `q`, of the monomial `t` of degree `d + 1` in the
/// product of the form `v` of degree `d` with the linear form
/// `l.0 x + l.1 y + l.2 z`.
pub open spec fn times_linear_entry(v: Seq<u8>, d: nat, l: (u8, u8, u8), q: nat, t: Term) -> u8 {
    ((l.0 * form_coefficient(v, d, t.x_deg - 1, t.y_deg as int) + l.1 * form_coefficient(
        v,
        d,
        t.x_deg as int,
        t.y_deg - 1,
    ) + l.2 * form_coefficient(v, d, t.x_deg as int, t.y_deg as int)) % (q as int)) as u8
}

/// The product of the form `v` of degree `d` with the linear form
/// `l.0 x + l.1 y + l.2 z`, with coefficients modulo `q`.
pub open spec fn times_linear(v: Seq<u8>, d: nat, l: (u8, u8, u8), q: nat) -> Seq<u8> {
    Seq::new(basis_size(d + 1), |j: int| times_linear_entry(v, d, l, q, basis(d + 1)[j]))
}

/// The linear form that replaces the variable of factor `k` of the monomial
/// `t`, whose factors are first those `x`, then those `y`, then those `z`.
pub open spec fn factor(m: Matrix, t: Term, k: nat) -> (u8, u8, u8) {
    if k < t.x_deg {
        (m.a, m.b, m.c)
    } else if k < t.x_deg + t.y_deg {
        (m.d, m.e, m.f)
    } else {
        (m.g, m.h, m.i)
    }
}

/// The product of the linear forms that replace the first `k` factors of the
/// monomial `t`, a form of degree `k`.
pub open spec fn partial_product(m: Matrix, t: Term, q: nat, k: nat) -> Seq<u8>
    decreases k,
{
    if k == 0 {
        seq![1u8]
    } else {
        times_linear(partial_product(m, t, q, (k - 1) as nat), (k - 1) as nat, factor(m, t, (k - 1) as nat), q)
    }
}

/// The image of the monomial `t` under the change of variables `m`: the
/// product of powers of the three linear forms, with coefficients modulo `q`.
pub open spec fn transformed(m: Matrix, t: Term, q: nat) -> Seq<u8> {
    partial_product(m, t, q, (t.x_deg + t.y_deg + t.z_deg) as nat)
}

/// The word that holds the first `n` of the coefficients `v`.
pub open spec fn packed(v: Seq<u8>, q: nat, n: nat) -> u64
    decreases n,
{
    if n == 0 {
        0
    } else {
        with_coefficient(packed(v, q, (n - 1) as nat), v[n - 1] as nat, (n - 1) as nat, q)
    }
}

/// The image of basis monomial `j` of degree `d` under `m`, as a packed form.
pub open spec fn image_of_basis(m: Matrix, d: nat, j: int, q: nat) -> Polynomial {
    Polynomial { bits: packed(transformed(m, basis(d)[j], q), q, basis_size(d)) }
}

/// The sum of `acc` and `c` times the form `image`.
pub open spec fn combine(acc: u64, c: nat, image: u64, q: nat) -> u64 {
    if q == 2 {
        if c == 1 {
            acc ^ image
        } else {
            acc
        }
    } else {
        if c == 1 {
            lane_sum(acc, image)
        } else if c == 2 {
            lane_sum(lane_sum(acc, image), image)
        } else {
            acc
        }
    }
}

/// The sum of the images `row` of the first `n` basis monomials, each taken
/// as many times as its coefficient in the form `p` says.
pub open spec fn act(row: Seq<Polynomial>, p: Polynomial, q: nat, n: nat) -> u64
    decreases n,
{
    if n == 0 {
        0
    } else {
        combine(act(row, p, q, (n - 1) as nat), p.coefficient((n - 1) as nat, q), row[n - 1].bits, q)
    }
}

/// The place of the monomial `x^a y^b z^(d - a - b)` in the basis of degree `d`.
pub fn index_of(d: u8, a: u8, b: u8) -> (j: usize)
    requires
        a + b <= d,
    ensures
        j == basis_index(d as nat, a as nat, b as nat),
        j < basis_size(d as nat),
{
    let x = a as u32;
    let w = 2 * (d as u32) + 3 - x;
    assert(x * w <= 255 * 513) by (nonlinear_arith)
        requires
            x <= 255,
            w <= 513,
    ;
    proof {
        lemma_basis_rows_index(d as nat, (d + 1) as nat);
        lemma_basis(d as nat);
    }
    (x * w / 2 + b as u32) as usize
}

/// The product of the form `v` of degree `d` with the linear form
/// `l.0 x + l.1 y + l.2 z`; `next_basis` is the basis of degree `d + 1`.
fn multiply_by_linear(
    v: &Vec<u8>,
    d: u8,
    l: (u8, u8, u8),
    field_order: u8,
    next_basis: &Vec<Term>,
) -> (r: Vec<u8>)
    requires
        d < 255,
        field_order != 0,
        v.len() == basis_size(d as nat),
        next_basis@ == basis((d + 1) as nat),
    ensures
        r@ == times_linear(v@, d as nat, l, field_order as nat),
        forall|j: int| 0 <= j < r.len() ==> #[trigger] r[j] < field_order,
{
    let ghost q = field_order as nat;
    proof {
        lemma_basis((d + 1) as nat);
    }
    let mut r: Vec<u8> = Vec::new();
    let mut j: usize = 0;
    while j < next_basis.len()
        invariant
            d < 255,
            field_order != 0,
            q == field_order,
            v.len() == basis_size(d as nat),
            next_basis@ == basis((d + 1) as nat),
            next_basis.len() == basis_size((d + 1) as nat),
            forall|k: int|
                0 <= k < next_basis.len() ==> (#[trigger] next_basis[k]).x_deg + next_basis[k].y_deg
                    + next_basis[k].z_deg == d + 1,
            j <= next_basis.len(),
            r.len() == j,
            forall|k: int|
                0 <= k < j ==> #[trigger] r[k] == times_linear_entry(
                    v@,
                    d as nat,
                    l,
                    q,
                    next_basis[k],
                ),
            forall|k: int| 0 <= k < j ==> #[trigger] r[k] < field_order,
        decreases next_basis.len() - j,
    {
        let t = next_basis[j];
        let mut sum: u32 = 0;
        if t.x_deg >= 1 {
            let c = v[index_of(d, t.x_deg - 1, t.y_deg)] as u32;
            let f = l.0 as u32;
            assert(f * c <= 65025) by (nonlinear_arith)
                requires
                    f <= 255,
                    c <= 255,
            ;
            sum = sum + f * c;
        }
        if t.y_deg >= 1 {
            let c = v[index_of(d, t.x_deg, t.y_deg - 1)] as u32;
            let f = l.1 as u32;
            assert(f * c <= 65025) by (nonlinear_arith)
                requires
                    f <= 255,
                    c <= 255,
            ;
            sum = sum + f * c;
        }
        if t.z_deg >= 1 {
            let c = v[index_of(d, t.x_deg, t.y_deg)] as u32;
            let f = l.2 as u32;
            assert(f * c <= 65025) by (nonlinear_arith)
                requires
                    f <= 255,
                    c <= 255,
            ;
            sum = sum + f * c;
        }
        proof {
            let cx = form_coefficient(v@, d as nat, t.x_deg - 1, t.y_deg as int);
            let cy = form_coefficient(v@, d as nat, t.x_deg as int, t.y_deg - 1);
            let cz = form_coefficient(v@, d as nat, t.x_deg as int, t.y_deg as int);
            assert(t.x_deg + t.y_deg + t.z_deg == d + 1);
            assert(sum == l.0 * cx + l.1 * cy + l.2 * cz) by (nonlinear_arith)
                requires
                    sum == (if t.x_deg >= 1 {
                        l.0 * cx
                    } else {
                        0
                    }) + (if t.y_deg >= 1 {
                        l.1 * cy
                    } else {
                        0
                    }) + (if t.z_deg >= 1 {
                        l.2 * cz
                    } else {
                        0
                    }),
                    t.x_deg == 0 ==> cx == 0,
                    t.y_deg == 0 ==> cy == 0,
                    t.z_deg == 0 ==> cz == 0,
            ;
        }
        r.push((sum % (field_order as u32)) as u8);
        j += 1;
    }
    proof {
        assert(r@ =~= times_linear(v@, d as nat, l, q));
    }
    r
}

/// The bases of the degrees up to `degree`.
fn bases_up_to(degree: u8) -> (bases: Vec<Vec<Term>>)
    ensures
        bases.len() == degree + 1,
        forall|d: int| 0 <= d <= degree ==> (#[trigger] bases[d])@ == basis(d as nat),
{
    let mut bases: Vec<Vec<Term>> = Vec::new();
    let mut d: u8 = 0;
    while d < degree
        invariant
            d <= degree,
            bases.len() == d,
            forall|k: int| 0 <= k < d ==> (#[trigger] bases[k])@ == basis(k as nat),
        decreases degree - d,
    {
        bases.push(Polynomial::generate_default_lut(d));
        d += 1;
    }
    bases.push(Polynomial::generate_default_lut(degree));
    bases
}

/// The coefficients of the image of the monomial `t` under the change of
/// variables `m`; `bases` holds the bases of the degrees up to that of `t`.
fn transform_term(m: Matrix, t: Term, field_order: u8, bases: &Vec<Vec<Term>>) -> (r: Vec<u8>)
    requires
        field_order >= 2,
        t.x_deg + t.y_deg + t.z_deg < bases.len() <= 256,
        forall|d: int| 0 <= d < bases.len() ==> (#[trigger] bases[d])@ == basis(d as nat),
    ensures
        r@ == transformed(m, t, field_order as nat),
        r.len() == basis_size((t.x_deg + t.y_deg + t.z_deg) as nat),
        forall|j: int| 0 <= j < r.len() ==> #[trigger] r[j] < field_order,
{
    let ghost q = field_order as nat;
    let degree: u16 = t.x_deg as u16 + t.y_deg as u16 + t.z_deg as u16;
    let mut v: Vec<u8> = Vec::new();
    v.push(1);
    proof {
        assert(basis_size(0) == 1) by (nonlinear_arith);
        assert(v@ =~= partial_product(m, t, q, 0));
    }
    let mut k: u16 = 0;
    while k < degree
        invariant
            field_order >= 2,
            q == field_order,
            degree == t.x_deg + t.y_deg + t.z_deg,
            degree < bases.len() <= 256,
            forall|d: int| 0 <= d < bases.len() ==> (#[trigger] bases[d])@ == basis(d as nat),
            k <= degree,
            v@ == partial_product(m, t, q, k as nat),
            v.len() == basis_size(k as nat),
            forall|j: int| 0 <= j < v.len() ==> #[trigger] v[j] < field_order,
        decreases degree - k,
    {
        let l = if k < t.x_deg as u16 {
            (m.a, m.b, m.c)
        } else if k < t.x_deg as u16 + t.y_deg as u16 {
            (m.d, m.e, m.f)
        } else {
            (m.g, m.h, m.i)
        };
        proof {
            lemma_basis((k + 1) as nat);
        }
        v = multiply_by_linear(&v, k as u8, l, field_order, &bases[(k + 1) as usize]);
        k += 1;
    }
    v
}

/// Packing coefficients below `q` gives a form with those coefficients.
pub proof fn lemma_packed(v: Seq<u8>, q: nat, n: nat)
    requires
        q == 2 || q == 3,
        n <= v.len(),
        n <= max_width(q),
        forall|j: int| 0 <= j < v.len() ==> #[trigger] v[j] < q,
    ensures
        is_form(Polynomial { bits: packed(v, q, n) }, n, q),
        forall|j: int|
            0 <= j < n ==> (Polynomial { bits: packed(v, q, n) }).coefficient(j as nat, q)
                == #[trigger] v[j],
    decreases n,
{
    if n > 0 {
        let m = (n - 1) as nat;
        lemma_packed(v, q, m);
        let low = packed(v, q, m);
        let c = v[m as int] as u64;
        let bits = packed(v, q, n);
        if q == 2 {
            lemma_pack_step_2(low, c, m as u64);
            assert forall|j: int| 0 <= j < n implies (Polynomial { bits }).coefficient(j as nat, q)
                == #[trigger] v[j] by {
                if j < m {
                    lemma_pack_other_2(low, c, m as u64, j as u64);
                    assert((Polynomial { bits: low }).coefficient(j as nat, q) == v[j]);
                }
            }
        } else {
            lemma_pack_step_3(low, c, m as u64);
            assert forall|j: int| 0 <= j < n implies (Polynomial { bits }).coefficient(j as nat, q)
                == #[trigger] v[j] by {
                if j < m {
                    lemma_pack_other_3(low, c, m as u64, j as u64);
                    assert((Polynomial { bits: low }).coefficient(j as nat, q) == v[j]);
                }
            }
        }
    } else {
        assert(0u64 >> 0 == 0 && 0u64 & (0u64 >> 1) & 0x5555_5555_5555_5555 == 0) by (bit_vector);
    }
}

proof fn lemma_pack_step_2(low: u64, c: u64, m: u64)
    by (bit_vector)
    requires
        m < 64,
        c <= 1,
        low >> m == 0,
    ensures
        m == 63 || (low | (c << m)) >> ((m + 1) as u64) == 0,
        ((low | (c << m)) >> m) & 1 == c,
{
}

proof fn lemma_pack_other_2(low: u64, c: u64, m: u64, j: u64)
    by (bit_vector)
    requires
        j < m < 64,
    ensures
        ((low | (c << m)) >> j) & 1 == (low >> j) & 1,
{
}

proof fn lemma_pack_step_3(low: u64, c: u64, m: u64)
    by (bit_vector)
    requires
        m < 32,
        c <= 2,
        low >> ((2 * m) as u64) == 0,
        low & (low >> 1) & 0x5555_5555_5555_5555 == 0,
    ensures
        m == 31 || (low | (c << ((2 * m) as u64))) >> ((2 * m + 2) as u64) == 0,
        ((low | (c << ((2 * m) as u64))) >> ((2 * m) as u64)) & 3 == c,
        (low | (c << ((2 * m) as u64))) & ((low | (c << ((2 * m) as u64))) >> 1)
            & 0x5555_5555_5555_5555 == 0,
{
}

proof fn lemma_pack_other_3(low: u64, c: u64, m: u64, j: u64)
    by (bit_vector)
    requires
        j < m < 32,
        c <= 3,
    ensures
        ((low | (c << ((2 * m) as u64))) >> ((2 * j) as u64)) & 3 == (low >> ((2 * j) as u64)) & 3,
{
}

/// The form with the coefficients `v`.
pub fn pack(v: &Vec<u8>, field_order: u8) -> (p: Polynomial)
    requires
        field_order == 2 || field_order == 3,
        v.len() <= max_width(field_order as nat),
        forall|j: int| 0 <= j < v.len() ==> #[trigger] v[j] < field_order,
    ensures
        p.bits == packed(v@, field_order as nat, v.len() as nat),
        is_form(p, v.len() as nat, field_order as nat),
        forall|j: int|
            0 <= j < v.len() ==> p.coefficient(j as nat, field_order as nat) == #[trigger] v[j],
{
    let ghost q = field_order as nat;
    let mut bits: u64 = 0;
    let mut j: usize = 0;
    while j < v.len()
        invariant
            q == field_order,
            q == 2 || q == 3,
            v.len() <= max_width(q),
            j <= v.len(),
            bits == packed(v@, q, j as nat),
        decreases v.len() - j,
    {
        if field_order == 2 {
            bits = bits | ((v[j] as u64) << j);
        } else {
            bits = bits | ((v[j] as u64) << (2 * j));
        }
        j += 1;
    }
    proof {
        lemma_packed(v@, q, v.len() as nat);
    }
    Polynomial { bits }
}

/// Whether `table` holds, for every one of the `matrices`, the images of the
/// basis monomials of degree `d` as forms.
pub open spec fn is_action_table(
    table: Seq<Vec<Polynomial>>,
    matrices: Seq<Matrix>,
    d: nat,
    q: nat,
) -> bool {
    &&& table.len() == matrices.len()
    &&& forall|k: int| 0 <= k < table.len() ==> (#[trigger] table[k]).len() == basis_size(d)
    &&& forall|k: int, j: int|
        0 <= k < table.len() && 0 <= j < basis_size(d) ==> #[trigger] table[k][j]
            == image_of_basis(matrices[k], d, j, q)
}

/// Whether every row of `table` holds `n` forms in `n` coefficients.
pub open spec fn is_table_of_forms(table: Seq<Vec<Polynomial>>, n: nat, q: nat) -> bool {
    &&& forall|k: int| 0 <= k < table.len() ==> (#[trigger] table[k]).len() == n
    &&& forall|k: int, j: int|
        0 <= k < table.len() && 0 <= j < n ==> is_form(#[trigger] table[k][j], n, q)
}

/// For every one of the `matrices`, the images of the basis monomials of the
/// given degree under that change of variables.
pub fn action_table(degree: u8, field_order: u8, matrices: &Vec<Matrix>) -> (table: Vec<
    Vec<Polynomial>,
>)
    requires
        field_order == 2 || field_order == 3,
        basis_size(degree as nat) <= max_width(field_order as nat),
    ensures
        is_action_table(table@, matrices@, degree as nat, field_order as nat),
        is_table_of_forms(table@, basis_size(degree as nat), field_order as nat),
{
    let ghost q = field_order as nat;
    let ghost d = degree as nat;
    let bases = bases_up_to(degree);
    let lut = Polynomial::generate_default_lut(degree);
    let mut table: Vec<Vec<Polynomial>> = Vec::new();
    let mut k: usize = 0;
    while k < matrices.len()
        invariant
            q == field_order,
            d == degree,
            q == 2 || q == 3,
            basis_size(d) <= max_width(q),
            bases.len() == degree + 1,
            forall|e: int| 0 <= e <= degree ==> (#[trigger] bases[e])@ == basis(e as nat),
            lut@ == basis(d),
            lut.len() == basis_size(d),
            forall|j: int|
                0 <= j < lut.len() ==> (#[trigger] lut[j]).x_deg + lut[j].y_deg + lut[j].z_deg
                    == degree,
            k <= matrices.len(),
            is_action_table(table@, matrices@.take(k as int), d, q),
            is_table_of_forms(table@, basis_size(d), q),
        decreases matrices.len() - k,
    {
        let m = matrices[k];
        let mut row: Vec<Polynomial> = Vec::new();
        let mut j: usize = 0;
        while j < lut.len()
            invariant
                q == field_order,
                d == degree,
                q == 2 || q == 3,
                basis_size(d) <= max_width(q),
                bases.len() == degree + 1,
                forall|e: int| 0 <= e <= degree ==> (#[trigger] bases[e])@ == basis(e as nat),
                lut@ == basis(d),
                lut.len() == basis_size(d),
                forall|j: int|
                    0 <= j < lut.len() ==> (#[trigger] lut[j]).x_deg + lut[j].y_deg + lut[j].z_deg
                        == degree,
                j <= lut.len(),
                row.len() == j,
                forall|i: int| 0 <= i < j ==> #[trigger] row[i] == image_of_basis(m, d, i, q),
                forall|i: int| 0 <= i < j ==> is_form(#[trigger] row[i], basis_size(d), q),
            decreases lut.len() - j,
        {
            let coefficients = transform_term(m, lut[j], field_order, &bases);
            row.push(pack(&coefficients, field_order));
            j += 1;
        }
        let ghost before = table@;
        table.push(row);
        proof {
            assert(matrices@.take(k as int + 1) =~= matrices@.take(k as int).push(m));
        }
        k += 1;
    }
    proof {
        assert(matrices@.take(k as int) =~= matrices@);
    }
    table
}

/// The product of the numbers from one to `n`.
pub open spec fn spec_factorial(n: nat) -> nat
    decreases n,
{
    if n == 0 {
        1
    } else {
        n * spec_factorial((n - 1) as nat)
    }
}

/// The factorials up to that of twenty fit into a word, and they grow.
pub proof fn lemma_factorial_bound(n: nat)
    requires
        n <= 20,
    ensures
        1 <= spec_factorial(n) <= 2432902008176640000,
    decreases 20 - n,
{
    if n == 20 {
        reveal_with_fuel(spec_factorial, 21);
        assert(spec_factorial(10) == 3628800);
        assert(spec_factorial(15) == 1307674368000);
        assert(spec_factorial(20) == 2432902008176640000);
    } else {
        lemma_factorial_bound(n + 1);
        let f = spec_factorial(n);
        assert(spec_factorial(n + 1) == (n + 1) * f);
        assert(f >= 1 && f <= (n + 1) * f) by (nonlinear_arith)
            requires
                (n + 1) * f >= 1,
                f >= 0,
        ;
    }
}

/// The number of ways to sort `m` things into three heaps of `k1`, `k2` and
/// `k3` things, where these add up to `m`: the factorial of `m` divided by the
/// product of the three factorials.
pub open spec fn multinomial(m: nat, k1: nat, k2: nat, k3: nat) -> nat {
    spec_factorial(m) / (spec_factorial(k1) * spec_factorial(k2) * spec_factorial(k3))
}

/// The product of the numbers from one to `n`.
pub fn factorial(n: u8) -> (f: u64)
    requires
        n <= 20,
    ensures
        f == spec_factorial(n as nat),
        f >= 1,
{
    let mut f: u64 = 1;
    let mut i: u8 = 0;
    while i < n
        invariant
            i <= n <= 20,
            f == spec_factorial(i as nat),
        decreases n - i,
    {
        proof {
            lemma_factorial_bound((i + 1) as nat);
            assert(f * (i + 1) == (i + 1) * f) by (nonlinear_arith);
        }
        i += 1;
        f = f * (i as u64);
    }
    proof {
        lemma_factorial_bound(n as nat);
    }
    f
}

/// The multinomial coefficient of `m` over `k1`, `k2` and `k3`, modulo `q`,
/// from the exact factorials.
pub fn binomial_mod_q(m: u8, k1: u8, k2: u8, k3: u8, q: u8) -> (r: u8)
    requires
        m <= 20,
        k1 <= 20,
        k2 <= 20,
        k3 <= 20,
        q != 0,
    ensures
        r == multinomial(m as nat, k1 as nat, k2 as nat, k3 as nat) % (q as nat),
{
    let top = factorial(m);
    let f1 = factorial(k1);
    let f2 = factorial(k2);
    let f3 = factorial(k3);
    proof {
        lemma_div_denominator(top as int, f1 as int, f2 as int);
        assert(f1 * f2 >= 1) by (nonlinear_arith)
            requires
                f1 >= 1,
                f2 >= 1,
        ;
        lemma_div_denominator(top as int, f1 * f2, f3 as int);
    }
    ((top / f1 / f2 / f3) % (q as u64)) as u8
}

} // verus!
