//! The sweep through all forms of a degree that sorts them into classes under
//! the linear changes of variables, and hands out one form and the number of
//! forms for every class.
use vstd::prelude::*;
use vstd::arithmetic::div_mod::{
    lemma_fundamental_div_mod_converse, lemma_mod_breakdown, lemma_small_mod,
};
use crate::action::{act, combine, lemma_packed, pack, packed};
use crate::algebraic_types::IsoPolynomial;
use crate::field_extensions::F3_i;
use crate::gf3::lane_sum;
use crate::matrices::{pgl3_size, spec_pgl3_size};
use crate::polynomials::{
    is_form, lemma_low_bits_2, lemma_low_bits_3, low_coefficients, max_width, Polynomial,
};
use crate::smoothness::total_size;

verus! {

/// The number of forms with `m` coefficients over a prime field of `q`
/// elements: `q` to the power `m`.
pub open spec fn forms_count(q: nat, m: nat) -> nat
    decreases m,
{
    if m == 0 {
        1
    } else {
        q * forms_count(q, (m - 1) as nat)
    }
}

/// The number of coefficients of the form, among the first `n`, that are not
/// zero.
pub open spec fn spec_weight(p: Polynomial, q: nat, n: nat) -> nat
    decreases n,
{
    if n == 0 {
        0
    } else {
        spec_weight(p, q, (n - 1) as nat) + if p.coefficient((n - 1) as nat, q) != 0 {
            1nat
        } else {
            0nat
        }
    }
}

/// Whether `p` comes before `r` in the order that picks the form that stands
/// for a class: fewer coefficients that are not zero, and among forms with
/// equally many the smaller word.
pub open spec fn canonically_smaller(p: Polynomial, r: Polynomial, q: nat) -> bool {
    let wp = spec_weight(p, q, max_width(q));
    let wr = spec_weight(r, q, max_width(q));
    wp < wr || (wp == wr && p.bits < r.bits)
}

/// The number that the coefficients of the form from place `j` up to place `m`
/// stand for as digits in base `q`, the coefficient at place `j` counting the
/// units.
pub open spec fn form_index(p: Polynomial, q: nat, m: nat, j: nat) -> nat
    decreases m - j,
{
    if j >= m {
        0
    } else {
        p.coefficient(j, q) + q * form_index(p, q, m, j + 1)
    }
}

/// The `n` lowest digits of `i` in base `q`, the units first.
pub open spec fn digits_of(i: nat, q: nat, n: nat) -> Seq<u8>
    decreases n,
{
    if n == 0 {
        Seq::empty()
    } else {
        seq![(i % q) as u8] + digits_of(i / q, q, (n - 1) as nat)
    }
}

/// The form at place `i` of the enumeration of the forms with `m`
/// coefficients: its coefficients are the digits of `i` in base `q`.
pub open spec fn form_of_index(i: nat, q: nat, m: nat) -> Polynomial {
    Polynomial { bits: packed(digits_of(i, q, m), q, m) }
}

/// The number of marks among the first `n` places of `v`.
pub open spec fn marked(v: Seq<bool>, n: nat) -> nat
    decreases n,
{
    if n == 0 {
        0
    } else {
        marked(v, (n - 1) as nat) + if v[n - 1] {
            1nat
        } else {
            0nat
        }
    }
}

/// The image of the form `start` under matrix `k` of the table.
pub open spec fn image(table: Seq<Vec<Polynomial>>, q: nat, m: nat, start: Polynomial, k: int) -> Polynomial {
    Polynomial { bits: act(table[k]@, start, q, m) }
}

/// The state of a class after the images of its first form `start`, which
/// stands at place `idx`, under the first `k` matrices have been looked at:
/// the marks, the number of forms newly marked, and the form that comes
/// first among them. `before` holds the marks at the start of the class.
pub open spec fn class_after(
    table: Seq<Vec<Polynomial>>,
    q: nat,
    m: nat,
    start: Polynomial,
    idx: int,
    before: Seq<bool>,
    k: nat,
) -> (Seq<bool>, nat, Polynomial)
    decreases k,
{
    if k == 0 {
        (before.update(idx, true), 1, start)
    } else {
        let (v, size, rep) = class_after(table, q, m, start, idx, before, (k - 1) as nat);
        let found = image(table, q, m, start, k - 1);
        let i = form_index(found, q, m, 0) as int;
        if v[i] {
            (v, size, rep)
        } else {
            (
                v.update(i, true),
                size + 1,
                if canonically_smaller(found, rep, q) {
                    found
                } else {
                    rep
                },
            )
        }
    }
}

/// The state of the sweep after the places below `p` have been passed: the
/// marks, and a record for every class met. The zero form is marked from the
/// start and belongs to no class.
pub open spec fn sweep(table: Seq<Vec<Polynomial>>, q: nat, m: nat, p: nat) -> (
    Seq<bool>,
    Seq<IsoPolynomial>,
)
    decreases p,
{
    if p <= 1 {
        (Seq::new(forms_count(q, m), |i: int| i == 0), Seq::empty())
    } else {
        let (v, records) = sweep(table, q, m, (p - 1) as nat);
        if v[p - 1] {
            (v, records)
        } else {
            let class = class_after(
                table,
                q,
                m,
                form_of_index((p - 1) as nat, q, m),
                p - 1,
                v,
                table.len(),
            );
            (class.0, records.push(IsoPolynomial { representative: class.2, size: class.1 as u32 }))
        }
    }
}

/// The records of the classes of all forms with `m` coefficients other than
/// zero, in the order in which the sweep meets the classes.
pub open spec fn orbit_records(table: Seq<Vec<Polynomial>>, q: nat, m: nat) -> Seq<IsoPolynomial> {
    sweep(table, q, m, forms_count(q, m)).1
}

/// Why the sweep gave no list of classes.
#[derive(Debug, Copy, Clone, PartialEq, Eq, Structural)]
pub enum OrbitError {
    /// Over the field of two elements, the size of a class does not divide
    /// the number of changes of variables.
    SizeViolation,
}

/// The number of forms grows with the number of coefficients and is positive.
pub proof fn lemma_forms_count(q: nat, j: nat, m: nat)
    requires
        q >= 1,
        j <= m,
    ensures
        1 <= forms_count(q, j) <= forms_count(q, m),
    decreases m,
{
    if j < m {
        lemma_forms_count(q, j, (m - 1) as nat);
        let c = forms_count(q, (m - 1) as nat);
        assert(q * c >= c) by (nonlinear_arith)
            requires
                q >= 1,
                c >= 0,
        ;
    } else if m > 0 {
        lemma_forms_count(q, (j - 1) as nat, (m - 1) as nat);
        let c = forms_count(q, (m - 1) as nat);
        assert(q * c >= c) by (nonlinear_arith)
            requires
                q >= 1,
                c >= 0,
        ;
    }
}

proof fn lemma_coefficient_bound(bits: u64, j: u64)
    by (bit_vector)
    requires
        j < 64,
    ensures
        (bits >> j) & 1 <= 1,
        j < 32 && bits & (bits >> 1) & 0x5555_5555_5555_5555 == 0 ==> (bits >> ((2 * j) as u64)) & 3
            <= 2,
{
}

/// Every coefficient of a form is below `q`.
pub proof fn lemma_form_coefficients(p: Polynomial, n: nat, q: nat, j: nat)
    requires
        is_form(p, n, q),
    ensures
        p.coefficient(j, q) < q,
{
    if j < 64 {
        lemma_coefficient_bound(p.bits, j as u64);
    }
}

/// The place of a form is below the number of forms.
pub proof fn lemma_form_index_bound(p: Polynomial, q: nat, m: nat, j: nat)
    requires
        is_form(p, m, q),
        j <= m,
    ensures
        form_index(p, q, m, j) < forms_count(q, (m - j) as nat),
    decreases m - j,
{
    if j < m {
        lemma_form_index_bound(p, q, m, j + 1);
        lemma_form_coefficients(p, m, q, j);
        let c = p.coefficient(j, q);
        let x = form_index(p, q, m, j + 1);
        let n = forms_count(q, (m - j - 1) as nat);
        assert(c + q * x < q * n) by (nonlinear_arith)
            requires
                c < q,
                x < n,
        ;
    }
}

/// Setting a mark that was not set raises the number of marks by one, and
/// setting one that was set changes nothing.
pub proof fn lemma_marked_update(v: Seq<bool>, i: int, n: nat)
    requires
        0 <= i < v.len(),
        n <= v.len(),
    ensures
        marked(v.update(i, true), n) == marked(v, n) + if i < n && !v[i] {
            1nat
        } else {
            0nat
        },
    decreases n,
{
    if n > 0 {
        lemma_marked_update(v, i, (n - 1) as nat);
    }
}

/// Where every place is marked, there are as many marks as places.
pub proof fn lemma_marked_all(v: Seq<bool>, n: nat)
    requires
        n <= v.len(),
        forall|i: int| 0 <= i < n ==> v[i],
    ensures
        marked(v, n) == n,
    decreases n,
{
    if n > 0 {
        lemma_marked_all(v, (n - 1) as nat);
    }
}

/// Where only place zero is marked, there is one mark.
proof fn lemma_marked_first(v: Seq<bool>, n: nat)
    requires
        1 <= n <= v.len(),
        forall|i: int| 0 <= i < n ==> v[i] == (i == 0),
    ensures
        marked(v, n) == 1,
    decreases n,
{
    if n > 1 {
        lemma_marked_first(v, (n - 1) as nat);
    } else {
        assert(marked(v, 0) == 0);
    }
}

proof fn lemma_combine_form(acc: u64, found: u64, n: u64)
    by (bit_vector)
    requires
        n <= 64,
    ensures
        n < 64 && acc >> n == 0 && found >> n == 0 ==> (acc ^ found) >> n == 0,
        0u64 >> 0 == 0,
        0u64 & (0u64 >> 1) & 0x5555_5555_5555_5555 == 0,
        n < 64 ==> 0u64 >> n == 0,
        ({
            let s = lane_sum(acc, found);
            acc & (acc >> 1) & 0x5555_5555_5555_5555 == 0 && found & (found >> 1)
                & 0x5555_5555_5555_5555 == 0 ==> s & (s >> 1) & 0x5555_5555_5555_5555 == 0 && (n
                < 64 && n % 2 == 0 && acc >> n == 0 && found >> n == 0 ==> s >> n == 0)
        }),
{
}

/// The sum of a form and a multiple of a form is a form.
pub proof fn lemma_combine(acc: u64, c: nat, found: u64, q: nat, n: nat)
    requires
        q == 2 || q == 3,
        is_form(Polynomial { bits: acc }, n, q),
        is_form(Polynomial { bits: found }, n, q),
    ensures
        is_form(Polynomial { bits: combine(acc, c, found, q) }, n, q),
{
    let w: u64 = if q == 2 {
        n as u64
    } else {
        (2 * n) as u64
    };
    lemma_combine_form(acc, found, w);
    if q == 3 && c == 2 {
        lemma_combine_form(lane_sum(acc, found), found, w);
    }
}

/// The image of a form under a row of forms is a form.
pub proof fn lemma_act_form(row: Seq<Polynomial>, p: Polynomial, q: nat, m: nat, n: nat)
    requires
        q == 2 || q == 3,
        m <= max_width(q),
        n <= row.len(),
        forall|j: int| 0 <= j < row.len() ==> is_form(#[trigger] row[j], m, q),
    ensures
        is_form(Polynomial { bits: act(row, p, q, n) }, m, q),
    decreases n,
{
    if n == 0 {
        let w: u64 = if q == 2 {
            m as u64
        } else {
            (2 * m) as u64
        };
        lemma_combine_form(0, 0, w);
    } else {
        lemma_act_form(row, p, q, m, (n - 1) as nat);
        lemma_combine(
            act(row, p, q, (n - 1) as nat),
            p.coefficient((n - 1) as nat, q),
            row[n - 1].bits,
            q,
            m,
        );
    }
}

/// The image of the form `p` under the change of variables whose images of the
/// basis monomials `row` holds: the sum of those images, each taken as many
/// times as the coefficient of `p` says.
pub fn apply_matrix(row: &Vec<Polynomial>, p: Polynomial, field_order: u8) -> (r: Polynomial)
    requires
        field_order == 2 || field_order == 3,
    ensures
        r.bits == act(row@, p, field_order as nat, row.len() as nat),
{
    let ghost q = field_order as nat;
    let mut bits: u64 = 0;
    let mut j: usize = 0;
    while j < row.len()
        invariant
            q == field_order,
            q == 2 || q == 3,
            j <= row.len(),
            bits == act(row@, p, q, j as nat),
        decreases row.len() - j,
    {
        let c = p.coefficient_at(j, field_order);
        let found = row[j].bits;
        if field_order == 2 {
            if c == 1 {
                bits = bits ^ found;
            }
        } else {
            if c == 1 {
                bits = F3_i::<1>::internal_add(bits, found);
            } else if c == 2 {
                bits = F3_i::<1>::internal_add(bits, found);
                bits = F3_i::<1>::internal_add(bits, found);
            }
        }
        j += 1;
    }
    Polynomial { bits }
}

/// The number of coefficients of the form that are not zero.
pub fn weight(p: Polynomial, field_order: u8) -> (w: u32)
    ensures
        w == spec_weight(p, field_order as nat, max_width(field_order as nat)),
{
    let width: usize = if field_order == 3 {
        32
    } else {
        64
    };
    let mut w: u32 = 0;
    let mut j: usize = 0;
    while j < width
        invariant
            width == max_width(field_order as nat),
            j <= width <= 64,
            w <= j,
            w == spec_weight(p, field_order as nat, j as nat),
        decreases width - j,
    {
        if p.coefficient_at(j, field_order) != 0 {
            w += 1;
        }
        j += 1;
    }
    w
}

/// Whether `p` comes before `r` in the order that picks the form that stands
/// for a class.
pub fn is_canonically_smaller(p: Polynomial, r: Polynomial, field_order: u8) -> (b: bool)
    ensures
        b == canonically_smaller(p, r, field_order as nat),
{
    let wp = weight(p, field_order);
    let wr = weight(r, field_order);
    wp < wr || (wp == wr && p.bits < r.bits)
}

/// The place of the form in the enumeration of the forms with `m` coefficients.
pub fn index_of_form(p: Polynomial, m: usize, field_order: u8) -> (i: usize)
    requires
        field_order == 2 || field_order == 3,
        is_form(p, m as nat, field_order as nat),
        forms_count(field_order as nat, m as nat) <= usize::MAX,
    ensures
        i == form_index(p, field_order as nat, m as nat, 0),
        i < forms_count(field_order as nat, m as nat),
{
    let ghost q = field_order as nat;
    let mut i: usize = 0;
    let mut j: usize = m;
    while j > 0
        invariant
            q == field_order,
            q == 2 || q == 3,
            is_form(p, m as nat, q),
            forms_count(q, m as nat) <= usize::MAX,
            j <= m,
            i == form_index(p, q, m as nat, j as nat),
        decreases j,
    {
        j -= 1;
        let c = p.coefficient_at(j, field_order);
        proof {
            lemma_form_index_bound(p, q, m as nat, j as nat);
            lemma_forms_count(q, (m - j) as nat, m as nat);
            assert(i * q + c == c + q * i) by (nonlinear_arith);
        }
        i = i * (field_order as usize) + c as usize;
    }
    proof {
        lemma_form_index_bound(p, q, m as nat, 0);
    }
    i
}

/// The form at place `i` of the enumeration of the forms with `m` coefficients.
pub fn form_at_index(i: usize, m: usize, field_order: u8) -> (p: Polynomial)
    requires
        field_order == 2 || field_order == 3,
        m <= max_width(field_order as nat),
    ensures
        p == form_of_index(i as nat, field_order as nat, m as nat),
        is_form(p, m as nat, field_order as nat),
{
    let ghost q = field_order as nat;
    let mut digits: Vec<u8> = Vec::new();
    let mut rest: usize = i;
    let mut j: usize = 0;
    while j < m
        invariant
            q == field_order,
            q == 2 || q == 3,
            j <= m,
            digits.len() == j,
            digits@ + digits_of(rest as nat, q, (m - j) as nat) == digits_of(i as nat, q, m as nat),
            forall|k: int| 0 <= k < j ==> #[trigger] digits[k] < field_order,
        decreases m - j,
    {
        let ghost before = digits@;
        digits.push((rest % (field_order as usize)) as u8);
        proof {
            assert(digits@ + digits_of((rest / (field_order as usize)) as nat, q, (m - j - 1) as nat)
                =~= before + digits_of(rest as nat, q, (m - j) as nat));
        }
        rest = rest / (field_order as usize);
        j += 1;
    }
    proof {
        assert(digits@ =~= digits_of(i as nat, q, m as nat));
    }
    pack(&digits, field_order)
}

/// Marks the class of the form `start`, which stands at the unmarked place
/// `idx`: the form itself and its images under all matrices of the table.
/// Returns the number of forms newly marked and the form that comes first
/// among them.
fn sweep_class(
    table: &Vec<Vec<Polynomial>>,
    m: usize,
    field_order: u8,
    start: Polynomial,
    idx: usize,
    visited: &mut Vec<bool>,
) -> (r: (u32, Polynomial))
    requires
        field_order == 2 || field_order == 3,
        m <= max_width(field_order as nat),
        crate::action::is_table_of_forms(table@, m as nat, field_order as nat),
        old(visited).len() == forms_count(field_order as nat, m as nat),
        idx < old(visited).len(),
        !old(visited)[idx as int],
        table.len() < u32::MAX,
    ensures
        (final(visited)@, r.0 as nat, r.1) == class_after(
            table@,
            field_order as nat,
            m as nat,
            start,
            idx as int,
            old(visited)@,
            table.len() as nat,
        ),
        final(visited).len() == old(visited).len(),
        marked(final(visited)@, final(visited).len() as nat) == marked(
            old(visited)@,
            old(visited).len() as nat,
        ) + r.0,
        forall|i: int| 0 <= i < old(visited).len() && old(visited)[i] ==> final(visited)[i],
        final(visited)[idx as int],
        1 <= r.0 <= table.len() + 1,
{
    let ghost q = field_order as nat;
    let ghost before = visited@;
    let ghost total = visited.len() as nat;
    proof {
        lemma_marked_update(before, idx as int, total);
    }
    visited.set(idx, true);
    let mut size: u32 = 1;
    let mut rep = start;
    let mut k: usize = 0;
    while k < table.len()
        invariant
            q == field_order,
            q == 2 || q == 3,
            m <= max_width(q),
            crate::action::is_table_of_forms(table@, m as nat, q),
            total == forms_count(q, m as nat),
            total <= usize::MAX,
            visited.len() == total,
            before.len() == total,
            idx < total,
            table.len() < u32::MAX,
            k <= table.len(),
            1 <= size <= k + 1,
            (visited@, size as nat, rep) == class_after(
                table@,
                q,
                m as nat,
                start,
                idx as int,
                before,
                k as nat,
            ),
            marked(visited@, total) == marked(before, total) + size,
            forall|i: int| 0 <= i < total && before[i] ==> visited[i],
            visited[idx as int],
        decreases table.len() - k,
    {
        let found = apply_matrix(&table[k], start, field_order);
        proof {
            lemma_act_form(table[k as int]@, start, q, m as nat, m as nat);
            assert(found == image(table@, q, m as nat, start, k as int));
        }
        let i = index_of_form(found, m, field_order);
        if !visited[i] {
            proof {
                lemma_marked_update(visited@, i as int, total);
            }
            visited.set(i, true);
            size += 1;
            if is_canonically_smaller(found, rep, field_order) {
                rep = found;
            }
        }
        k += 1;
    }
    (size, rep)
}

/// What holds while the sweep runs: the sizes of the classes that it has met
/// add up to the number of marked forms other than zero, every place that it
/// has passed is marked, and every class is stood for by a form other than
/// zero and has a form at least.
pub open spec fn sweep_invariant(
    v: Seq<bool>,
    records: Seq<IsoPolynomial>,
    q: nat,
    m: nat,
    p: nat,
) -> bool {
    &&& v.len() == forms_count(q, m)
    &&& marked(v, v.len()) == 1 + total_size(records)
    &&& forall|i: int| 0 <= i < p && i < v.len() ==> v[i]
    &&& forall|k: int|
        0 <= k < records.len() ==> {
            &&& (#[trigger] records[k]).size >= 1
            &&& is_form(records[k].representative, m, q)
            &&& records[k].representative.bits != 0
        }
}

/// Sorts all forms with `m` coefficients other than zero into classes: two
/// forms are in one class when a matrix of the table takes the first form of
/// the class to them. For every class, in the order of their first forms, the
/// result holds the form that comes first in the class and the number of its
/// forms. Over the field of two elements the sweep fails when the size of a
/// class does not divide the number of changes of variables.
pub fn reduce_orbits(table: &Vec<Vec<Polynomial>>, m: usize, field_order: u8) -> (r: Result<
    Vec<IsoPolynomial>,
    OrbitError,
>)
    requires
        field_order == 2 || field_order == 3,
        m <= max_width(field_order as nat),
        crate::action::is_table_of_forms(table@, m as nat, field_order as nat),
        forms_count(field_order as nat, m as nat) <= usize::MAX,
        table.len() < u32::MAX,
    ensures
        match r {
            Ok(records) => {
                &&& records@ == orbit_records(table@, field_order as nat, m as nat)
                &&& total_size(records@) + 1 == forms_count(field_order as nat, m as nat)
                &&& forall|k: int|
                    0 <= k < records.len() ==> {
                        &&& (#[trigger] records[k]).size >= 1
                        &&& is_form(records[k].representative, m as nat, field_order as nat)
                        &&& records[k].representative.bits != 0
                    }
                &&& field_order == 2 ==> forall|k: int|
                    0 <= k < records.len() ==> (#[trigger] records[k]).size >= 1 && spec_pgl3_size(
                        2,
                    ) % (records[k].size as nat) == 0
            },
            Err(e) => {
                &&& field_order == 2
                &&& exists|k: int|
                    0 <= k < orbit_records(table@, 2, m as nat).len() && (#[trigger] orbit_records(
                        table@,
                        2,
                        m as nat,
                    )[k]).size >= 1 && spec_pgl3_size(2) % (orbit_records(
                        table@,
                        2,
                        m as nat,
                    )[k].size as nat) != 0
            },
        },
{
    let ghost q = field_order as nat;
    let mut total: usize = 1;
    let mut j: usize = 0;
    while j < m
        invariant
            q == field_order,
            q == 2 || q == 3,
            j <= m,
            total == forms_count(q, j as nat),
            forms_count(q, m as nat) <= usize::MAX,
        decreases m - j,
    {
        proof {
            lemma_forms_count(q, (j + 1) as nat, m as nat);
            assert(total * q == q * forms_count(q, j as nat)) by (nonlinear_arith)
                requires
                    total == forms_count(q, j as nat),
            ;
        }
        total = total * (field_order as usize);
        j += 1;
    }
    proof {
        lemma_forms_count(q, 0, m as nat);
    }
    let mut visited: Vec<bool> = Vec::new();
    visited.push(true);
    let mut n: usize = 1;
    while n < total
        invariant
            1 <= n <= total,
            visited.len() == n,
            forall|i: int| 0 <= i < n ==> visited[i] == (i == 0),
        decreases total - n,
    {
        visited.push(false);
        n += 1;
    }
    let mut records: Vec<IsoPolynomial> = Vec::new();
    let mut p: usize = 1;
    proof {
        assert(visited@ =~= sweep(table@, q, m as nat, 1).0);
    }
    while p < total
        invariant
            q == field_order,
            q == 2 || q == 3,
            m <= max_width(q),
            crate::action::is_table_of_forms(table@, m as nat, q),
            total == forms_count(q, m as nat),
            table.len() < u32::MAX,
            1 <= p <= total,
            visited.len() == total,
            (visited@, records@) == sweep(table@, q, m as nat, p as nat),
        decreases total - p,
    {
        if !visited[p] {
            let start = form_at_index(p, m, field_order);
            let ghost before = records@;
            let (size, rep) = sweep_class(table, m, field_order, start, p, &mut visited);
            records.push(IsoPolynomial { representative: rep, size });
            proof {
                assert(records@.drop_last() =~= before);
            }
        }
        p += 1;
    }
    proof {
        lemma_sweep(table@, q, m as nat, total as nat);
        lemma_orbit_sizes(table@, q, m as nat);
    }
    if field_order == 2 {
        let order = pgl3_size(2);
        let mut k: usize = 0;
        while k < records.len()
            invariant
                field_order == 2,
                order == spec_pgl3_size(2),
                k <= records.len(),
                records@ == orbit_records(table@, 2, m as nat),
                forall|i: int| 0 <= i < records.len() ==> (#[trigger] records[i]).size >= 1,
                forall|i: int|
                    0 <= i < k ==> spec_pgl3_size(2) % ((#[trigger] records[i]).size as nat) == 0,
            decreases records.len() - k,
        {
            if order % records[k].size != 0 {
                proof {
                    let found = orbit_records(table@, 2, m as nat);
                    assert(found[k as int].size >= 1 && spec_pgl3_size(2) % (found[k as int].size
                        as nat) != 0);
                }
                return Err(OrbitError::SizeViolation);
            }
            k += 1;
        }
    }
    Ok(records)
}

/// The digits of a number in base `q` are below `q`.
pub proof fn lemma_digits_of(i: nat, q: nat, n: nat)
    requires
        2 <= q <= 255,
    ensures
        digits_of(i, q, n).len() == n,
        forall|j: int| 0 <= j < n ==> #[trigger] digits_of(i, q, n)[j] < q,
        n >= 1 ==> digits_of(i, q, n)[0] == i % q,
        forall|j: int|
            1 <= j < n ==> #[trigger] digits_of(i, q, n)[j] == digits_of(i / q, q, (n - 1) as nat)[j
                - 1],
    decreases n,
{
    if n > 0 {
        lemma_digits_of(i / q, q, (n - 1) as nat);
    }
}

/// A form whose coefficients from place `j` on are the digits of `r` stands,
/// read from place `j` on, for `r` modulo the number of such forms.
proof fn lemma_index_of_digits(p: Polynomial, r: nat, q: nat, m: nat, j: nat)
    requires
        2 <= q <= 255,
        j <= m,
        forall|k: int|
            0 <= k < m - j ==> p.coefficient((j + k) as nat, q) == #[trigger] digits_of(
                r,
                q,
                (m - j) as nat,
            )[k],
    ensures
        form_index(p, q, m, j) == r % forms_count(q, (m - j) as nat),
    decreases m - j,
{
    let n = (m - j) as nat;
    lemma_forms_count(q, 0, n);
    if j < m {
        lemma_digits_of(r, q, n);
        let rest = digits_of(r / q, q, (n - 1) as nat);
        assert forall|k: int| 0 <= k < m - (j + 1) implies p.coefficient((j + 1 + k) as nat, q)
            == #[trigger] rest[k] by {
            assert(digits_of(r, q, n)[k + 1] == rest[k]);
            assert(p.coefficient((j + (k + 1)) as nat, q) == digits_of(r, q, n)[k + 1]);
        }
        lemma_index_of_digits(p, r / q, q, m, j + 1);
        assert(p.coefficient((j + 0) as nat, q) == digits_of(r, q, n)[0]);
        let c = forms_count(q, (n - 1) as nat);
        lemma_forms_count(q, 0, (n - 1) as nat);
        lemma_mod_breakdown(r as int, q as int, c as int);
    } else {
        assert(r % 1 == 0);
    }
}

/// The form at a place below the number of forms stands at that place.
pub proof fn lemma_index_of_form_at(i: nat, q: nat, m: nat)
    requires
        q == 2 || q == 3,
        m <= max_width(q),
        i < forms_count(q, m),
    ensures
        form_index(form_of_index(i, q, m), q, m, 0) == i,
        is_form(form_of_index(i, q, m), m, q),
{
    let d = digits_of(i, q, m);
    lemma_digits_of(i, q, m);
    lemma_packed(d, q, m);
    lemma_index_of_digits(form_of_index(i, q, m), i, q, m, 0);
    lemma_small_mod(i, forms_count(q, m));
}

/// The digits of the place of a form are its coefficients.
proof fn lemma_digits_of_index(p: Polynomial, q: nat, m: nat, j: nat)
    requires
        q == 2 || q == 3,
        is_form(p, m, q),
        j <= m,
    ensures
        forall|k: int|
            0 <= k < m - j ==> #[trigger] digits_of(form_index(p, q, m, j), q, (m - j) as nat)[k]
                == p.coefficient((j + k) as nat, q),
    decreases m - j,
{
    if j < m {
        let n = (m - j) as nat;
        let r = form_index(p, q, m, j);
        let c = p.coefficient(j, q);
        let rest = form_index(p, q, m, j + 1);
        lemma_form_coefficients(p, m, q, j);
        assert(r == rest * q + c) by (nonlinear_arith)
            requires
                r == c + q * rest,
        ;
        lemma_fundamental_div_mod_converse(r as int, q as int, rest as int, c as int);
        lemma_digits_of(r, q, n);
        lemma_digits_of_index(p, q, m, j + 1);
        assert forall|k: int| 0 <= k < m - j implies #[trigger] digits_of(r, q, n)[k]
            == p.coefficient((j + k) as nat, q) by {
            if k >= 1 {
                assert(digits_of(r, q, n)[k] == digits_of(rest, q, (n - 1) as nat)[k - 1]);
                assert(digits_of(rest, q, (m - (j + 1)) as nat)[k - 1] == p.coefficient(
                    (j + 1 + (k - 1)) as nat,
                    q,
                ));
            }
        }
    }
}

/// Forms with the same coefficients are the same form.
pub proof fn lemma_forms_equal(a: Polynomial, b: Polynomial, q: nat, m: nat)
    requires
        q == 2 || q == 3,
        is_form(a, m, q),
        is_form(b, m, q),
        forall|j: nat| j < m ==> a.coefficient(j, q) == b.coefficient(j, q),
    ensures
        a == b,
{
    lemma_low_equal(a, b, q, m, m);
    if q == 2 {
        if m < 64 {
            lemma_low_bits_2(a.bits, m as u64);
            lemma_low_bits_2(b.bits, m as u64);
        }
    } else {
        if m < 32 {
            lemma_low_bits_3(a.bits, m as u64);
            lemma_low_bits_3(b.bits, m as u64);
        }
    }
}

proof fn lemma_low_equal(a: Polynomial, b: Polynomial, q: nat, m: nat, n: nat)
    requires
        q == 2 || q == 3,
        is_form(a, m, q),
        is_form(b, m, q),
        n <= m,
        forall|j: nat| j < m ==> a.coefficient(j, q) == b.coefficient(j, q),
    ensures
        low_coefficients(a.bits, n, q) == low_coefficients(b.bits, n, q),
    decreases n,
{
    if n == 0 {
        lemma_low_bits_2(a.bits, 0);
        lemma_low_bits_2(b.bits, 0);
    } else {
        let k = (n - 1) as nat;
        lemma_low_equal(a, b, q, m, k);
        assert(a.coefficient(k, q) == b.coefficient(k, q));
        if q == 2 {
            lemma_low_bits_2(a.bits, k as u64);
            lemma_low_bits_2(b.bits, k as u64);
        } else {
            lemma_low_bits_3(a.bits, k as u64);
            lemma_low_bits_3(b.bits, k as u64);
        }
    }
}

/// A form is the form at its place, so that forms at the same place are equal.
pub proof fn lemma_form_at_index_of(p: Polynomial, q: nat, m: nat)
    requires
        q == 2 || q == 3,
        m <= max_width(q),
        is_form(p, m, q),
    ensures
        form_of_index(form_index(p, q, m, 0), q, m) == p,
{
    let i = form_index(p, q, m, 0);
    let d = digits_of(i, q, m);
    lemma_digits_of(i, q, m);
    lemma_packed(d, q, m);
    lemma_digits_of_index(p, q, m, 0);
    let found = form_of_index(i, q, m);
    assert forall|j: nat| j < m implies found.coefficient(j, q) == p.coefficient(j, q) by {
        assert(found.coefficient(j, q) == d[j as int]);
        assert(digits_of(form_index(p, q, m, 0), q, (m - 0) as nat)[j as int] == p.coefficient(
            (0 + j) as nat,
            q,
        ));
    }
    lemma_forms_equal(found, p, q, m);
}

/// Whether `x` is the first form `start` of a class or its image under one of
/// the first `k` matrices of the table.
pub open spec fn is_candidate(
    table: Seq<Vec<Polynomial>>,
    q: nat,
    m: nat,
    start: Polynomial,
    k: nat,
    x: Polynomial,
) -> bool {
    x == start || exists|j: int| 0 <= j < k && x == #[trigger] image(table, q, m, start, j)
}

/// What the state of a class says, without the steps that lead to it. After
/// the first `k` matrices, the marks are those from before the class and those
/// of the first form and its images; the size is the number of new marks; and
/// the form that stands for the class is one of the newly marked forms, with
/// no newly marked form before it in the order of the forms.
pub proof fn lemma_class_after(
    table: Seq<Vec<Polynomial>>,
    q: nat,
    m: nat,
    start: Polynomial,
    before: Seq<bool>,
    k: nat,
)
    requires
        q == 2 || q == 3,
        m <= max_width(q),
        crate::action::is_table_of_forms(table, m, q),
        before.len() == forms_count(q, m),
        is_form(start, m, q),
        !before[form_index(start, q, m, 0) as int],
        k <= table.len(),
    ensures
        ({
            let (v, size, rep) = class_after(
                table,
                q,
                m,
                start,
                form_index(start, q, m, 0) as int,
                before,
                k,
            );
            &&& v.len() == before.len()
            &&& forall|i: int| 0 <= i < v.len() && before[i] ==> #[trigger] v[i]
            &&& forall|x: Polynomial| #[trigger]
                is_candidate(table, q, m, start, k, x) ==> is_form(x, m, q) && form_index(
                    x,
                    q,
                    m,
                    0,
                ) < v.len() && v[form_index(x, q, m, 0) as int]
            &&& forall|i: int|
                0 <= i < v.len() && #[trigger] v[i] && !before[i] ==> is_candidate(
                    table,
                    q,
                    m,
                    start,
                    k,
                    form_of_index(i as nat, q, m),
                )
            &&& marked(v, v.len()) == marked(before, before.len()) + size
            &&& 1 <= size <= k + 1
            &&& is_candidate(table, q, m, start, k, rep)
            &&& !before[form_index(rep, q, m, 0) as int]
            &&& forall|x: Polynomial| #[trigger]
                is_candidate(table, q, m, start, k, x) && !before[form_index(x, q, m, 0) as int]
                    ==> !canonically_smaller(x, rep, q)
        }),
    decreases k,
{
    let idx = form_index(start, q, m, 0) as int;
    let total = before.len();
    lemma_form_index_bound(start, q, m, 0);
    if k == 0 {
        let v = before.update(idx, true);
        lemma_marked_update(before, idx, total);
        lemma_form_at_index_of(start, q, m);
        assert forall|i: int| 0 <= i < v.len() && #[trigger] v[i] && !before[i] implies is_candidate(
            table,
            q,
            m,
            start,
            k,
            form_of_index(i as nat, q, m),
        ) by {
            assert(i == idx);
        }
    } else {
        let j = (k - 1) as nat;
        lemma_class_after(table, q, m, start, before, j);
        let (v, size, rep) = class_after(table, q, m, start, idx, before, j);
        let found = image(table, q, m, start, j as int);
        lemma_act_form(table[j as int]@, start, q, m, m);
        lemma_form_index_bound(found, q, m, 0);
        lemma_form_at_index_of(found, q, m);
        let i = form_index(found, q, m, 0) as int;
        let (w, size2, rep2) = class_after(table, q, m, start, idx, before, k);
        assert(is_candidate(table, q, m, start, k, found));
        assert forall|x: Polynomial| #[trigger]
            is_candidate(table, q, m, start, k, x) implies is_candidate(table, q, m, start, j, x)
            || x == found by {
            if x != start {
                let t = choose|t: int| 0 <= t < k && x == #[trigger] image(table, q, m, start, t);
                if t < j {
                    assert(is_candidate(table, q, m, start, j, x));
                }
            }
        }
        assert forall|x: Polynomial| #[trigger]
            is_candidate(table, q, m, start, j, x) implies is_candidate(table, q, m, start, k, x) by {
            if x != start {
                let t = choose|t: int| 0 <= t < j && x == #[trigger] image(table, q, m, start, t);
                assert(0 <= t < k && x == image(table, q, m, start, t));
            }
        }
        assert forall|x: Polynomial| #[trigger]
            is_candidate(table, q, m, start, k, x) implies is_form(x, m, q) && form_index(
            x,
            q,
            m,
            0,
        ) < w.len() && w[form_index(x, q, m, 0) as int] by {
            if x != found {
                assert(is_candidate(table, q, m, start, j, x));
                assert(v[form_index(x, q, m, 0) as int]);
            }
        }
        if v[i] {
            if !before[i] {
                assert(is_candidate(table, q, m, start, j, form_of_index(i as nat, q, m)));
                assert(is_candidate(table, q, m, start, j, found));
            }
        } else {
            lemma_marked_update(v, i, total);
            assert forall|n: int| 0 <= n < w.len() && #[trigger] w[n] && !before[n] implies is_candidate(
                table,
                q,
                m,
                start,
                k,
                form_of_index(n as nat, q, m),
            ) by {
                if n != i {
                    assert(v[n]);
                    assert(is_candidate(table, q, m, start, j, form_of_index(n as nat, q, m)));
                }
            }
            assert(is_candidate(table, q, m, start, j, rep));
        }
    }
}

/// The form zero stands at place zero.
pub proof fn lemma_zero_index(p: Polynomial, q: nat, m: nat, j: nat)
    requires
        p.bits == 0,
        j <= m,
    ensures
        form_index(p, q, m, j) == 0,
    decreases m - j,
{
    if j < m {
        lemma_zero_index(p, q, m, j + 1);
        assert(q * 0 == 0) by (nonlinear_arith);
        if j < 64 {
            let k = j as u64;
            assert((0u64 >> k) & 1 == 0 && (k < 32 ==> (0u64 >> ((2 * k) as u64)) & 3 == 0))
                by (bit_vector)
                requires
                    k < 64,
            ;
        }
    }
}

/// What holds while the sweep runs holds after every place.
pub proof fn lemma_sweep(table: Seq<Vec<Polynomial>>, q: nat, m: nat, p: nat)
    requires
        q == 2 || q == 3,
        m <= max_width(q),
        crate::action::is_table_of_forms(table, m, q),
        table.len() < u32::MAX,
        1 <= p <= forms_count(q, m),
    ensures
        sweep_invariant(sweep(table, q, m, p).0, sweep(table, q, m, p).1, q, m, p),
    decreases p,
{
    let total = forms_count(q, m);
    if p == 1 {
        lemma_marked_first(sweep(table, q, m, 1).0, total);
    } else {
        let at = (p - 1) as nat;
        lemma_sweep(table, q, m, at);
        let (v, records) = sweep(table, q, m, at);
        if !v[at as int] {
            let start = form_of_index(at, q, m);
            lemma_index_of_form_at(at, q, m);
            lemma_class_after(table, q, m, start, v, table.len());
            let class = class_after(table, q, m, start, at as int, v, table.len());
            let record = IsoPolynomial { representative: class.2, size: class.1 as u32 };
            assert(records.push(record).drop_last() =~= records);
            assert(class.0[at as int]) by {
                assert(is_candidate(table, q, m, start, table.len(), start));
            }
            assert(is_form(class.2, m, q));
            assert(v[0]);
            if class.2.bits == 0 {
                lemma_zero_index(class.2, q, m, 0);
            }
        }
    }
}

/// The sizes of the classes of the forms with `m` coefficients add up to the
/// number of these forms other than zero: every form other than zero is
/// counted in one class and in one only.
pub proof fn lemma_orbit_sizes(table: Seq<Vec<Polynomial>>, q: nat, m: nat)
    requires
        q == 2 || q == 3,
        m <= max_width(q),
        crate::action::is_table_of_forms(table, m, q),
        table.len() < u32::MAX,
    ensures
        total_size(orbit_records(table, q, m)) + 1 == forms_count(q, m),
{
    let total = forms_count(q, m);
    lemma_forms_count(q, 0, m);
    lemma_sweep(table, q, m, total);
    lemma_marked_all(sweep(table, q, m, total).0, total);
}

} // verus!
