//! Ternary forms of a fixed degree: the terms of the monomial basis and of its
//! derivatives, and forms packed into a word as vectors of coefficients.
use vstd::prelude::*;
use crate::field_extensions::{
    add_times, lemma_projective_point_wf, point_count, power, projective_point, scalar_multiple,
    F2_i, F3_i, FieldSpec, FieldTraits, ProjectivePointIterator,
};
use crate::text::{
    chars_of, decimal, digit_char, digit_of, digit_str, digit_value, is_digit, is_space,
    is_space_char, push_decimal,
};
use crate::algebraic_types::Lookup;

verus! {

/// A form in the monomial basis: the coefficient of basis monomial `j` stands
/// in bit `j` over the field of two elements, and in the bits `2j` and `2j + 1`
/// over the field of three elements.
#[derive(Debug, Copy, Clone, PartialEq, Eq, Structural)]
pub struct Polynomial {
    pub bits: u64,
}

/// The verdict on one point of a curve.
#[derive(Debug, Copy, Clone, PartialEq, Eq, Structural)]
pub enum Singularity {
    Singular,
    NonSingular,
}

/// The sum of the first `j` entries of `row`, each taken as many times as the
/// coefficient of `poly` at its place says, over a prime field of `q` elements.
pub open spec fn weighted_sum<T: FieldSpec>(poly: Polynomial, row: Seq<T>, q: nat, j: nat) -> T
    decreases j,
{
    if j == 0 {
        T::spec_zero()
    } else {
        add_times(
            weighted_sum(poly, row, q, (j - 1) as nat),
            row[j - 1],
            poly.coefficient((j - 1) as nat, q),
        )
    }
}

/// The value of the form `poly` on a row that holds the values of the basis
/// monomials: the sum over the row, weighted by the coefficients.
pub open spec fn form_value<T: FieldSpec>(poly: Polynomial, row: Seq<T>) -> T {
    weighted_sum(poly, row, T::characteristic(), row.len())
}

/// Whether the form vanishes at point `p` of the tables.
pub open spec fn vanishes_at<T: FieldSpec>(poly: Polynomial, lookup: &Lookup<T>, p: int) -> bool {
    form_value(poly, lookup.normal[p]@) == T::spec_zero()
}

/// Whether the form and its three derivatives vanish at point `p` of the tables.
pub open spec fn singular_at<T: FieldSpec>(poly: Polynomial, lookup: &Lookup<T>, p: int) -> bool {
    &&& vanishes_at(poly, lookup, p)
    &&& form_value(poly, lookup.part_x[p]@) == T::spec_zero()
    &&& form_value(poly, lookup.part_y[p]@) == T::spec_zero()
    &&& form_value(poly, lookup.part_z[p]@) == T::spec_zero()
}

/// The number of points among the first `p` of the tables at which the form
/// vanishes.
pub open spec fn zeros_before<T: FieldSpec>(poly: Polynomial, lookup: &Lookup<T>, p: nat) -> nat
    decreases p,
{
    if p == 0 {
        0
    } else {
        zeros_before(poly, lookup, (p - 1) as nat) + if vanishes_at(poly, lookup, p - 1) {
            1nat
        } else {
            0nat
        }
    }
}

/// The verdict on the curve of the form over the field of the tables: `None`
/// when the curve has a singular point, else the number of its points.
pub open spec fn level_verdict<T: FieldSpec>(poly: Polynomial, lookup: &Lookup<T>) -> Option<nat> {
    if exists|p: int| 0 <= p < lookup.normal.len() && singular_at(poly, lookup, p) {
        None
    } else {
        Some(zeros_before(poly, lookup, lookup.normal.len() as nat))
    }
}

/// The number of zeros among the first `p` points is at most `p`.
pub proof fn lemma_zeros_before_bound<T: FieldSpec>(poly: Polynomial, lookup: &Lookup<T>, p: nat)
    ensures
        zeros_before(poly, lookup, p) <= p,
    decreases p,
{
    if p > 0 {
        lemma_zeros_before_bound(poly, lookup, (p - 1) as nat);
    }
}

/// The largest number of basis monomials whose coefficients fit into a word,
/// over a prime field of `q` elements.
pub open spec fn max_width(q: nat) -> nat {
    if q == 3 {
        32
    } else {
        64
    }
}

/// The text of the term `t` with coefficient `c`: the coefficient, an
/// underscore and the three exponents.
pub open spec fn term_text(c: nat, t: Term) -> Seq<char> {
    seq![digit_char(c), '_'] + t.spec_str()
}

/// The texts that basis monomial `j` contributes to the text of `poly`: none
/// where the coefficient is zero or the entry of `lut` is the zero term.
pub open spec fn term_pieces(poly: Polynomial, lut: Seq<Term>, q: nat, j: int) -> Seq<Seq<char>> {
    let c = poly.coefficient(j as nat, q);
    if lut[j].constant == 0 {
        Seq::empty()
    } else if q == 2 {
        if c == 1 {
            seq![term_text(1, lut[j])]
        } else {
            Seq::empty()
        }
    } else if q == 3 {
        if c == 1 {
            seq![term_text(1, lut[j])]
        } else if c == 2 {
            seq![term_text(2, lut[j])]
        } else if c == 3 {
            seq![term_text(1, lut[j]), term_text(2, lut[j])]
        } else {
            Seq::empty()
        }
    } else {
        Seq::empty()
    }
}

/// The texts of the terms of `poly` among the first `n` basis monomials.
pub open spec fn pieces(poly: Polynomial, lut: Seq<Term>, q: nat, n: nat) -> Seq<Seq<char>>
    decreases n,
{
    if n == 0 {
        Seq::empty()
    } else {
        pieces(poly, lut, q, (n - 1) as nat) + term_pieces(poly, lut, q, n - 1)
    }
}

/// The texts `ps` with one blank between neighbours.
pub open spec fn join(ps: Seq<Seq<char>>) -> Seq<char>
    decreases ps.len(),
{
    if ps.len() == 0 {
        Seq::empty()
    } else if ps.len() == 1 {
        ps[0]
    } else {
        join(ps.drop_last()) + seq![' '] + ps.last()
    }
}

/// Joining one more text puts a blank before it unless it is the first.
pub proof fn lemma_join_push(ps: Seq<Seq<char>>, x: Seq<char>)
    ensures
        join(ps.push(x)) == if ps.len() == 0 {
            x
        } else {
            join(ps) + seq![' '] + x
        },
{
    assert(ps.push(x).drop_last() =~= ps);
}

/// Why a text is not the text of a form, of a record or of a list of classes.
#[derive(Debug, Copy, Clone, PartialEq, Eq, Structural)]
pub enum ParseError {
    /// A term is not a digit, an underscore and three digits.
    MalformedTerm,
    /// The coefficient of a term is not a nonzero element of the prime field.
    InvalidConstant,
    /// A monomial occurs a second time.
    RepeatedTerm,
    /// A line of a list of classes is not a form, a bar and a size.
    MalformedRecord,
    /// A list of classes has fewer than three lines.
    MissingHeader,
    /// The third line of a list of classes is not a degree, a bar and a field
    /// order.
    MalformedHeader,
    /// The list of classes is one of forms of another degree.
    DegreeMismatch,
    /// The list of classes is one of forms over another prime field.
    FieldOrderMismatch,
}

/// The place where the run of characters other than white space that holds
/// place `i` ends.
pub open spec fn token_end(s: Seq<char>, i: int) -> int
    decreases s.len() - i,
{
    if i < 0 || i >= s.len() || is_space(s[i]) {
        i
    } else {
        token_end(s, i + 1)
    }
}

/// A run of characters ends at or after its start and within the text.
pub proof fn lemma_token_end(s: Seq<char>, i: int)
    requires
        0 <= i <= s.len(),
    ensures
        i <= token_end(s, i) <= s.len(),
        i < s.len() && !is_space(s[i]) ==> i < token_end(s, i),
        forall|k: int| i <= k < token_end(s, i) ==> !is_space(#[trigger] s[k]),
        token_end(s, i) < s.len() ==> is_space(s[token_end(s, i)]),
    decreases s.len() - i,
{
    if i < s.len() && !is_space(s[i]) {
        lemma_token_end(s, i + 1);
    }
}

/// The coefficient and the monomial that the text `tok` of one term stands for.
pub open spec fn parse_term(tok: Seq<char>, q: nat) -> Result<(nat, Term), ParseError> {
    if tok.len() != 5 || !is_digit(tok[0]) || tok[1] != '_' || !is_digit(tok[2]) || !is_digit(
        tok[3],
    ) || !is_digit(tok[4]) {
        Err(ParseError::MalformedTerm)
    } else if !(digit_value(tok[0]) == 1 || (q == 3 && digit_value(tok[0]) == 2)) {
        Err(ParseError::InvalidConstant)
    } else {
        Ok(
            (
                digit_value(tok[0]),
                Term {
                    x_deg: digit_value(tok[2]) as u8,
                    y_deg: digit_value(tok[3]) as u8,
                    z_deg: digit_value(tok[4]) as u8,
                    constant: 1,
                },
            ),
        )
    }
}

/// The word `bits` with the coefficient `c` at place `j`, over a prime field of
/// `q` elements.
pub open spec fn with_coefficient(bits: u64, c: nat, j: nat, q: nat) -> u64 {
    if q == 2 {
        bits | ((c as u64) << (j as u64))
    } else {
        bits | ((c as u64) << ((2 * j) as u64))
    }
}

/// The form `bits` after the coefficient `c` has been entered at every one of
/// the first `n` places of `lut` whose monomial has the exponents of `t`; an
/// error where such a place holds a coefficient already.
pub open spec fn place_term(bits: u64, c: nat, t: Term, lut: Seq<Term>, q: nat, n: nat) -> Result<
    u64,
    ParseError,
>
    decreases n,
{
    if n == 0 {
        Ok(bits)
    } else {
        match place_term(bits, c, t, lut, q, (n - 1) as nat) {
            Err(e) => Err(e),
            Ok(b) => if t.spec_is_similar(lut[n - 1]) {
                if (Polynomial { bits: b }).coefficient((n - 1) as nat, q) != 0 {
                    Err(ParseError::RepeatedTerm)
                } else {
                    Ok(with_coefficient(b, c, (n - 1) as nat, q))
                }
            } else {
                Ok(b)
            },
        }
    }
}

/// The form that the text `s` from place `i` on adds to the form `bits`: the
/// terms stand between white space, and each one enters its coefficient.
pub open spec fn parse_from(s: Seq<char>, i: int, bits: u64, lut: Seq<Term>, q: nat) -> Result<
    u64,
    ParseError,
>
    decreases s.len() - i,
    via parse_from_decreases
{
    if i < 0 || i >= s.len() {
        Ok(bits)
    } else if is_space(s[i]) {
        parse_from(s, i + 1, bits, lut, q)
    } else {
        let j = token_end(s, i);
        match parse_term(s.subrange(i, j), q) {
            Err(e) => Err(e),
            Ok((c, t)) => match place_term(bits, c, t, lut, q, lut.len()) {
                Err(e) => Err(e),
                Ok(b) => parse_from(s, j, b, lut, q),
            },
        }
    }
}

#[via_fn]
proof fn parse_from_decreases(s: Seq<char>, i: int, bits: u64, lut: Seq<Term>, q: nat) {
    if 0 <= i < s.len() && !is_space(s[i]) {
        lemma_token_end(s, i);
    }
}

/// The basis monomial `x^a y^b z^(d - a - b)` of degree `d`.
pub open spec fn basis_term(d: nat, a: nat, b: nat) -> Term {
    Term { x_deg: a as u8, y_deg: b as u8, z_deg: (d - a - b) as u8, constant: 1 }
}

/// The basis monomials of degree `d` with `x^a`, by rising exponent of `y`.
pub open spec fn basis_row(d: nat, a: nat) -> Seq<Term> {
    Seq::new((d + 1 - a) as nat, |b: int| basis_term(d, a, b as nat))
}

/// The basis monomials of degree `d` whose exponent of `x` is below `a`, by
/// rising exponent of `x` and then of `y`.
pub open spec fn basis_rows(d: nat, a: nat) -> Seq<Term>
    decreases a,
{
    if a == 0 {
        Seq::empty()
    } else {
        basis_rows(d, (a - 1) as nat) + basis_row(d, (a - 1) as nat)
    }
}

/// The monomial basis of the forms of degree `d`: all monomials of degree `d`
/// with coefficient one, by rising exponent of `x` and then of `y`.
pub open spec fn basis(d: nat) -> Seq<Term> {
    basis_rows(d, d + 1)
}

/// The number of monomials of degree `d` in three variables.
pub open spec fn basis_size(d: nat) -> nat {
    ((d + 2) * (d + 1) / 2) as nat
}

/// The rows below `a` hold `a * (2d + 3 - a) / 2` monomials, each of degree `d`
/// with coefficient one and an exponent of `x` below `a`.
pub proof fn lemma_basis_rows(d: nat, a: nat)
    requires
        a <= d + 1,
        d <= 255,
    ensures
        2 * basis_rows(d, a).len() == a * (2 * d + 3 - a),
        forall|j: int|
            0 <= j < basis_rows(d, a).len() ==> {
                let t = #[trigger] basis_rows(d, a)[j];
                &&& t.constant == 1
                &&& t.x_deg < a
                &&& t.x_deg + t.y_deg + t.z_deg == d
            },
    decreases a,
{
    if a > 0 {
        lemma_basis_rows(d, (a - 1) as nat);
        assert(a * (2 * d + 3 - a) == (a - 1) * (2 * d + 3 - (a - 1)) + 2 * (d + 1 - (a - 1)))
            by (nonlinear_arith);
    }
}

/// The place of the monomial `x^a y^b z^(d - a - b)` in the basis of degree `d`.
pub open spec fn basis_index(d: nat, a: nat, b: nat) -> nat {
    (a * (2 * d + 3 - a) / 2 + b) as nat
}

/// Every monomial of the rows below `a` stands at its place, and every place
/// holds the monomial that belongs there.
pub proof fn lemma_basis_rows_index(d: nat, a: nat)
    requires
        a <= d + 1,
        d <= 255,
    ensures
        forall|j: int|
            0 <= j < basis_rows(d, a).len() ==> basis_index(
                d,
                (#[trigger] basis_rows(d, a)[j]).x_deg as nat,
                basis_rows(d, a)[j].y_deg as nat,
            ) == j,
        forall|x: nat, y: nat|
            x < a && x + y <= d ==> basis_index(d, x, y) < basis_rows(d, a).len() && basis_rows(
                d,
                a,
            )[#[trigger] basis_index(d, x, y) as int] == basis_term(d, x, y),
    decreases a,
{
    if a > 0 {
        let m = (a - 1) as nat;
        lemma_basis_rows_index(d, m);
        lemma_basis_rows(d, m);
        lemma_basis_rows(d, a);
        let rows = basis_rows(d, a);
        let before = basis_rows(d, m);
        let row = basis_row(d, m);
        assert(2 * before.len() == m * (2 * d + 3 - m));
        assert(basis_index(d, m, 0) == before.len()) by {
            assert((2 * before.len()) / 2 == before.len());
        }
        assert forall|j: int| 0 <= j < rows.len() implies basis_index(
            d,
            (#[trigger] rows[j]).x_deg as nat,
            rows[j].y_deg as nat,
        ) == j by {
            if j >= before.len() {
                let b = j - before.len();
                assert(rows[j] == row[b]);
            } else {
                assert(rows[j] == before[j]);
            }
        }
        assert forall|x: nat, y: nat| x < a && x + y <= d implies basis_index(d, x, y)
            < rows.len() && rows[#[trigger] basis_index(d, x, y) as int] == basis_term(
            d,
            x,
            y,
        ) by {
            if x == m {
                assert(rows[before.len() as int + y as int] == row[y as int]);
            } else {
                assert(rows[basis_index(d, x, y) as int] == before[basis_index(d, x, y) as int]);
            }
        }
    }
}

/// The basis of degree `d` has `(d + 2)(d + 1) / 2` monomials, each of degree
/// `d` with coefficient one.
pub proof fn lemma_basis(d: nat)
    requires
        d <= 255,
    ensures
        basis(d).len() == basis_size(d),
        forall|j: int|
            0 <= j < basis(d).len() ==> {
                let t = #[trigger] basis(d)[j];
                &&& t.constant == 1
                &&& t.x_deg + t.y_deg + t.z_deg == d
            },
{
    lemma_basis_rows(d, d + 1);
    assert((d + 1) * (2 * d + 3 - (d + 1)) == (d + 2) * (d + 1)) by (nonlinear_arith);
}

/// Whether `poly` is a form in a basis of `n` monomials over a prime field of
/// `q` elements: no bit is set beyond coefficient `n`, and every coefficient is
/// below `q`.
pub open spec fn is_form(poly: Polynomial, n: nat, q: nat) -> bool {
    if q == 2 {
        n <= 64 && (n == 64 || poly.bits >> (n as u64) == 0)
    } else {
        &&& q == 3
        &&& n <= 32
        &&& n == 32 || poly.bits >> ((2 * n) as u64) == 0
        &&& poly.bits & (poly.bits >> 1) & 0x5555_5555_5555_5555 == 0
    }
}

/// The coefficients of `bits` below place `n`, the others set to zero.
pub open spec fn low_coefficients(bits: u64, n: nat, q: nat) -> u64 {
    if q == 2 {
        if n >= 64 {
            bits
        } else {
            bits & !(!0u64 << (n as u64))
        }
    } else {
        if n >= 32 {
            bits
        } else {
            bits & !(!0u64 << ((2 * n) as u64))
        }
    }
}

/// How the coefficients below place `n + 1` arise from those below place `n`,
/// over the field of two elements.
pub proof fn lemma_low_bits_2(bits: u64, n: u64)
    by (bit_vector)
    requires
        n < 64,
    ensures
        ({
            let low = bits & !(!0u64 << n);
            let next = if n == 63 {
                bits
            } else {
                bits & !(!0u64 << ((n + 1) as u64))
            };
            let c = (bits >> n) & 1;
            &&& (low >> n) & 1 == 0
            &&& c <= 1
            &&& c == 0 ==> next == low
            &&& c == 1 ==> next == low | (1u64 << n)
        }),
        bits & !(!0u64 << 0) == 0,
        bits >> n == 0 ==> bits & !(!0u64 << n) == bits,
{
}

/// How the coefficients below place `n + 1` arise from those below place `n`,
/// over the field of three elements.
pub proof fn lemma_low_bits_3(bits: u64, n: u64)
    by (bit_vector)
    requires
        n < 32,
        bits & (bits >> 1) & 0x5555_5555_5555_5555 == 0,
    ensures
        ({
            let low = bits & !(!0u64 << ((2 * n) as u64));
            let next = if n == 31 {
                bits
            } else {
                bits & !(!0u64 << ((2 * n + 2) as u64))
            };
            let c = (bits >> ((2 * n) as u64)) & 3;
            &&& (low >> ((2 * n) as u64)) & 3 == 0
            &&& c <= 2
            &&& c == 0 ==> next == low
            &&& c == 1 ==> next == low | (1u64 << ((2 * n) as u64))
            &&& c == 2 ==> next == low | (2u64 << ((2 * n) as u64))
        }),
        bits & !(!0u64 << 0) == 0,
        bits >> ((2 * n) as u64) == 0 ==> bits & !(!0u64 << ((2 * n) as u64)) == bits,
{
}

/// Appends the text of the term `t` with coefficient `c` to the texts joined
/// in `out`; `first` says that none is there yet.
fn push_term(out: &mut String, first: bool, Ghost(before): Ghost<Seq<Seq<char>>>, c: u8, t: Term)
    requires
        old(out)@ == join(before),
        first == (before.len() == 0),
        c < 10,
    ensures
        final(out)@ == join(before.push(term_text(c as nat, t))),
{
    proof {
        reveal_strlit(" ");
        reveal_strlit("_");
        lemma_join_push(before, term_text(c as nat, t));
    }
    if !first {
        out.append(" ");
    }
    out.append(digit_str(c));
    out.append("_");
    let text = t.str();
    out.append(text.as_str());
    proof {
        if first {
            assert(join(before) =~= Seq::<char>::empty());
            assert(final(out)@ =~= term_text(c as nat, t));
        } else {
            assert(final(out)@ =~= join(before) + seq![' '] + term_text(c as nat, t));
        }
    }
}

/// Reads the term that stands in `chars` from place `i` up to place `j`.
fn read_term(chars: &Vec<char>, i: usize, j: usize, field_order: u8) -> (r: Result<
    (u8, Term),
    ParseError,
>)
    requires
        i <= j <= chars.len(),
    ensures
        match parse_term(chars@.subrange(i as int, j as int), field_order as nat) {
            Ok((c, t)) => r == Ok::<(u8, Term), ParseError>((c as u8, t)) && (c == 1 || c == 2),
            Err(e) => r == Err::<(u8, Term), ParseError>(e),
        },
{
    let ghost tok = chars@.subrange(i as int, j as int);
    if j - i != 5 {
        return Err(ParseError::MalformedTerm);
    }
    assert(tok[0] == chars@[i as int] && tok[1] == chars@[i + 1] && tok[2] == chars@[i + 2]
        && tok[3] == chars@[i + 3] && tok[4] == chars@[i + 4]);
    let constant = digit_of(chars[i]);
    let x = digit_of(chars[i + 2]);
    let y = digit_of(chars[i + 3]);
    let z = digit_of(chars[i + 4]);
    if constant.is_none() || chars[i + 1] != '_' || x.is_none() || y.is_none() || z.is_none() {
        return Err(ParseError::MalformedTerm);
    }
    let constant = constant.unwrap();
    if !(constant == 1 || (field_order == 3 && constant == 2)) {
        return Err(ParseError::InvalidConstant);
    }
    Ok((constant, Term { x_deg: x.unwrap(), y_deg: y.unwrap(), z_deg: z.unwrap(), constant: 1 }))
}

/// Enters the coefficient `c` into `bits` at every place of `lut` whose
/// monomial has the exponents of `t`.
fn enter_term(bits: u64, c: u8, t: Term, lut: &Vec<Term>, field_order: u8) -> (r: Result<
    u64,
    ParseError,
>)
    requires
        field_order == 2 || field_order == 3,
        lut.len() <= max_width(field_order as nat),
    ensures
        r == place_term(bits, c as nat, t, lut@, field_order as nat, lut.len() as nat),
{
    let ghost q = field_order as nat;
    let mut poly = bits;
    let mut index: usize = 0;
    while index < lut.len()
        invariant
            q == field_order,
            q == 2 || q == 3,
            lut.len() <= max_width(q),
            index <= lut.len(),
            place_term(bits, c as nat, t, lut@, q, index as nat) == Ok::<u64, ParseError>(poly),
        decreases lut.len() - index,
    {
        if t.is_similar(lut[index]) {
            if (Polynomial { bits: poly }).coefficient_at(index, field_order) != 0 {
                proof {
                    lemma_place_term_fails(bits, c as nat, t, lut@, q, index as nat + 1, lut.len() as nat);
                }
                return Err(ParseError::RepeatedTerm);
            }
            if field_order == 2 {
                poly = poly | ((c as u64) << index);
            } else {
                poly = poly | ((c as u64) << (2 * index));
            }
        }
        index += 1;
    }
    Ok(poly)
}

/// Once a monomial was found a second time, the places that follow do not
/// mend it.
proof fn lemma_place_term_fails(bits: u64, c: nat, t: Term, lut: Seq<Term>, q: nat, k: nat, n: nat)
    requires
        k <= n,
        place_term(bits, c, t, lut, q, k).is_err(),
    ensures
        place_term(bits, c, t, lut, q, n) == place_term(bits, c, t, lut, q, k),
    decreases n - k,
{
    if k < n {
        lemma_place_term_fails(bits, c, t, lut, q, k, (n - 1) as nat);
    }
}

impl Polynomial {
    /// The coefficient of basis monomial `j`, over a prime field of `q` elements.
    pub open spec fn coefficient(self, j: nat, q: nat) -> nat {
        if q == 2 && j < 64 {
            ((self.bits >> (j as u64)) & 1) as nat
        } else if q == 3 && j < 32 {
            ((self.bits >> ((2 * j) as u64)) & 3) as nat
        } else {
            0
        }
    }

    /// The text of the form: its terms in the order of the basis `lut`, with
    /// one blank between neighbours.
    pub open spec fn spec_str(self, lut: Seq<Term>, q: nat) -> Seq<char> {
        join(pieces(self, lut, q, lut.len()))
    }

    /// The form that the text `s` stands for in the basis `lut`.
    pub open spec fn spec_from_string(s: Seq<char>, lut: Seq<Term>, q: nat) -> Result<
        Polynomial,
        ParseError,
    > {
        match parse_from(s, 0, 0, lut, q) {
            Ok(bits) => Ok(Polynomial { bits }),
            Err(e) => Err(e),
        }
    }

    /// The form with the given word of coefficients.
    pub fn new(bits: u64) -> (p: Polynomial)
        ensures
            p.bits == bits,
    {
        Polynomial { bits: bits }
    }

    /// The text of the form in the basis `lut`, over a prime field of
    /// `field_order` elements.
    pub fn str(&self, lut: &Vec<Term>, field_order: u8) -> (s: String)
        ensures
            s@ == self.spec_str(lut@, field_order as nat),
    {
        let mut poly_str = String::new();
        let mut empty = true;
        let mut i: usize = 0;
        let ghost q = field_order as nat;
        proof {
            assert(poly_str@ =~= join(pieces(*self, lut@, q, 0)));
        }
        while i < lut.len()
            invariant
                i <= lut.len(),
                q == field_order,
                poly_str@ == join(pieces(*self, lut@, q, i as nat)),
                empty == (pieces(*self, lut@, q, i as nat).len() == 0),
            decreases lut.len() - i,
        {
            let c = self.coefficient_at(i, field_order);
            let ghost before = pieces(*self, lut@, q, i as nat);
            if lut[i].constant != 0 {
                if field_order == 2 {
                    if c == 1 {
                        push_term(&mut poly_str, empty, Ghost(before), 1, lut[i]);
                        empty = false;
                    }
                } else if field_order == 3 {
                    if c == 1 || c == 3 {
                        push_term(&mut poly_str, empty, Ghost(before), 1, lut[i]);
                        empty = false;
                    }
                    if c == 2 || c == 3 {
                        let ghost so_far = if c == 3 {
                            before.push(term_text(1, lut[i as int]))
                        } else {
                            before
                        };
                        push_term(&mut poly_str, empty, Ghost(so_far), 2, lut[i]);
                        empty = false;
                    }
                }
            }
            proof {
                let tp = term_pieces(*self, lut@, q, i as int);
                if tp.len() == 0 {
                    assert(before + tp =~= before);
                } else if tp.len() == 1 {
                    assert(before + tp =~= before.push(tp[0]));
                } else {
                    assert(before + tp =~= before.push(tp[0]).push(tp[1]));
                }
            }
            i += 1;
        }
        poly_str
    }

    /// Reads a form from its text in the basis `lut`: terms of the shape
    /// coefficient, underscore, three exponents, with white space between them.
    /// A term whose monomial is not in `lut` is passed over.
    pub fn from_string(input: &str, lut: &Vec<Term>, field_order: u8) -> (r: Result<
        Polynomial,
        ParseError,
    >)
        requires
            field_order == 2 || field_order == 3,
            lut.len() <= max_width(field_order as nat),
        ensures
            r == Polynomial::spec_from_string(input@, lut@, field_order as nat),
    {
        let chars = chars_of(input);
        Polynomial::from_chars(&chars, lut, field_order)
    }

    /// Reads a form from the characters of its text, as `from_string` does.
    pub fn from_chars(chars: &Vec<char>, lut: &Vec<Term>, field_order: u8) -> (r: Result<
        Polynomial,
        ParseError,
    >)
        requires
            field_order == 2 || field_order == 3,
            lut.len() <= max_width(field_order as nat),
        ensures
            r == Polynomial::spec_from_string(chars@, lut@, field_order as nat),
    {
        let ghost s = chars@;
        let ghost q = field_order as nat;
        let mut poly: u64 = 0;
        let mut i: usize = 0;
        while i < chars.len()
            invariant
                s == chars@,
                q == field_order,
                q == 2 || q == 3,
                lut.len() <= max_width(q),
                i <= chars.len(),
                parse_from(s, i as int, poly, lut@, q) == parse_from(s, 0, 0, lut@, q),
            decreases chars.len() - i,
        {
            if is_space_char(chars[i]) {
                i += 1;
            } else {
                let mut j: usize = i + 1;
                while j < chars.len() && !is_space_char(chars[j])
                    invariant
                        s == chars@,
                        i < j <= chars.len(),
                        token_end(s, j as int) == token_end(s, i as int),
                    decreases chars.len() - j,
                {
                    j += 1;
                }
                proof {
                    lemma_token_end(s, i as int);
                    assert(token_end(s, i as int) == j);
                }
                match read_term(chars, i, j, field_order) {
                    Err(e) => {
                        return Err(e);
                    },
                    Ok((c, t)) => {
                        match enter_term(poly, c, t, lut, field_order) {
                            Err(e) => {
                                return Err(e);
                            },
                            Ok(b) => {
                                poly = b;
                            },
                        }
                    },
                }
                i = j;
            }
        }
        Ok(Polynomial { bits: poly })
    }

    /// The coefficient of basis monomial `j`.
    pub fn coefficient_at(self, j: usize, field_order: u8) -> (c: u8)
        ensures
            c == self.coefficient(j as nat, field_order as nat),
            c <= 3,
    {
        let bits = self.bits;
        if field_order == 2 && j < 64 {
            let c = (bits >> j) & 1;
            assert(c <= 1) by (bit_vector)
                requires
                    c == (bits >> j) & 1,
            ;
            c as u8
        } else if field_order == 3 && j < 32 {
            let c = (bits >> (2 * j)) & 3;
            assert(c <= 3) by (bit_vector)
                requires
                    c == (bits >> (2 * j)) & 3,
            ;
            c as u8
        } else {
            0
        }
    }

    /// The value of the form on row `index` of a table of values of the basis
    /// monomials, over any of the fields.
    pub fn evaluate<T: FieldTraits>(self, index: usize, lut: &Vec<Vec<T>>) -> (r: T)
        requires
            T::supported(),
            index < lut.len(),
            forall|j: int| 0 <= j < lut[index as int].len() ==> (#[trigger] lut[index as int][j]).wf(),
        ensures
            r == form_value(self, lut[index as int]@),
            r.wf(),
    {
        proof {
            T::lemma_enumeration();
        }
        let q = T::field_order();
        let index_lut = &lut[index];
        let mut res = T::zero();
        let mut i: usize = 0;
        while i < index_lut.len()
            invariant
                i <= index_lut.len(),
                q == T::characteristic(),
                forall|j: int| 0 <= j < index_lut.len() ==> (#[trigger] index_lut[j]).wf(),
                res.wf(),
                res == weighted_sum(self, index_lut@, q as nat, i as nat),
            decreases index_lut.len() - i,
        {
            let c = self.coefficient_at(i, q);
            let ghost before = res;
            let mut k: u8 = 0;
            while k < c
                invariant
                    k <= c,
                    i < index_lut.len(),
                    index_lut[i as int].wf(),
                    res.wf(),
                    res == add_times(before, index_lut[i as int], k as nat),
                decreases c - k,
            {
                res = res.add(index_lut[i]);
                k += 1;
            }
            i += 1;
        }
        res
    }

    /// The value of the form on row `index` of a table over the field of `2^N`
    /// elements.
    pub fn evaluate_f2<const N: u8>(self, index: usize, lut: &Vec<Vec<F2_i<N>>>) -> (r: F2_i<N>)
        requires
            F2_i::<N>::supported(),
            index < lut.len(),
            forall|j: int| 0 <= j < lut[index as int].len() ==> (#[trigger] lut[index as int][j]).wf(),
        ensures
            r == form_value(self, lut[index as int]@),
            r.wf(),
    {
        self.evaluate(index, lut)
    }

    /// The value of the form on row `index` of a table over the field of `3^N`
    /// elements.
    pub fn evaluate_f3<const N: u8>(self, index: usize, lut: &Vec<Vec<F3_i<N>>>) -> (r: F3_i<N>)
        requires
            F3_i::<N>::supported(),
            index < lut.len(),
            forall|j: int| 0 <= j < lut[index as int].len() ==> (#[trigger] lut[index as int][j]).wf(),
        ensures
            r == form_value(self, lut[index as int]@),
            r.wf(),
    {
        self.evaluate(index, lut)
    }

    /// Looks at point `index` of the tables: counts it when the form vanishes
    /// there, and finds it singular when the three derivatives vanish there too.
    pub fn has_singularity_point<T: FieldTraits>(
        self,
        index: usize,
        lookup: &Lookup<T>,
        count: &mut usize,
    ) -> (r: Singularity)
        requires
            lookup.wf(),
            index < lookup.normal.len(),
            *old(count) < usize::MAX,
        ensures
            *final(count) == *old(count) + if vanishes_at(self, lookup, index as int) {
                1int
            } else {
                0int
            },
            (r == Singularity::Singular) == singular_at(self, lookup, index as int),
    {
        if self.evaluate(index, &lookup.normal).is_zero() {
            *count += 1;
            if self.evaluate(index, &lookup.part_x).is_zero() {
                if self.evaluate(index, &lookup.part_y).is_zero() {
                    if self.evaluate(index, &lookup.part_z).is_zero() {
                        return Singularity::Singular;
                    }
                }
            }
        }
        Singularity::NonSingular
    }

    /// Walks through all points of the projective plane: `None` when the curve
    /// of the form has a singular point over the field of the tables, else the
    /// number of points of the curve over that field.
    pub fn has_singularity<T: FieldTraits>(self, lookup: &Lookup<T>) -> (r: Option<usize>)
        requires
            lookup.wf(),
        ensures
            r.is_none() == (exists|p: int|
                0 <= p < lookup.normal.len() && singular_at(self, lookup, p)),
            r.is_some() ==> r.unwrap() == zeros_before(self, lookup, lookup.normal.len() as nat),
            r.is_none() == level_verdict(self, lookup).is_none(),
            r.is_some() ==> r.unwrap() == level_verdict(self, lookup).unwrap(),
    {
        let mut points_on_curve: usize = 0;
        let mut index: usize = 0;
        let mut it = ProjectivePointIterator::<T>::new();
        loop
            invariant
                lookup.wf(),
                it.wf(),
                index == it.position(),
                index <= lookup.normal.len(),
                points_on_curve == zeros_before(self, lookup, index as nat),
                forall|p: int| 0 <= p < index ==> !singular_at(self, lookup, p),
            ensures
                index == lookup.normal.len(),
                points_on_curve == zeros_before(self, lookup, index as nat),
                forall|p: int| 0 <= p < index ==> !singular_at(self, lookup, p),
            decreases lookup.normal.len() - index,
        {
            proof {
                lemma_zeros_before_bound(self, lookup, index as nat);
            }
            match it.next() {
                Some(_) => {
                    let verdict = self.has_singularity_point(index, lookup, &mut points_on_curve);
                    if verdict == Singularity::Singular {
                        return None;
                    }
                    index += 1;
                },
                None => {
                    break ;
                },
            }
        }
        Some(points_on_curve)
    }

    /// The monomial basis of the forms of the given degree.
    pub fn generate_default_lut(degree: u8) -> (lut: Vec<Term>)
        ensures
            lut@ == basis(degree as nat),
            lut.len() == basis_size(degree as nat),
            forall|j: int|
                0 <= j < lut.len() ==> (#[trigger] lut[j]).constant == 1 && lut[j].x_deg
                    + lut[j].y_deg + lut[j].z_deg == degree,
    {
        let d: u16 = degree as u16;
        let mut lut: Vec<Term> = Vec::new();
        let mut a: u16 = 0;
        while a <= d
            invariant
                d == degree,
                a <= d + 1,
                lut@ == basis_rows(d as nat, a as nat),
            decreases d + 1 - a,
        {
            let mut b: u16 = 0;
            while b <= d - a
                invariant
                    d == degree,
                    a <= d,
                    b <= d - a + 1,
                    lut@ == basis_rows(d as nat, a as nat) + basis_row(d as nat, a as nat).take(
                        b as int,
                    ),
                decreases d - a + 1 - b,
            {
                let c = d - b - a;
                lut.push(Term { x_deg: a as u8, y_deg: b as u8, z_deg: c as u8, constant: 1 });
                proof {
                    let row = basis_row(d as nat, a as nat);
                    assert(row.take(b as int + 1) =~= row.take(b as int).push(row[b as int]));
                    assert(lut@ =~= basis_rows(d as nat, a as nat) + row.take(b as int + 1));
                }
                b += 1;
            }
            proof {
                let row = basis_row(d as nat, a as nat);
                assert(row.take(b as int) =~= row);
            }
            a += 1;
        }
        proof {
            lemma_basis(degree as nat);
        }
        lut
    }

    /// The derivatives of the terms of `default_lut` by `x`, by `y` and by `z`,
    /// with the coefficients reduced modulo `field_order`.
    pub fn generate_derative_luts(default_lut: &Vec<Term>, field_order: u8) -> (luts: (
        Vec<Term>,
        Vec<Term>,
        Vec<Term>,
    ))
        requires
            field_order != 0,
        ensures
            luts.0.len() == default_lut.len(),
            luts.1.len() == default_lut.len(),
            luts.2.len() == default_lut.len(),
            forall|j: int|
                0 <= j < default_lut.len() ==> {
                    &&& #[trigger] luts.0[j] == term_derivative(
                        default_lut[j],
                        0,
                        field_order as int,
                    )
                    &&& luts.1[j] == term_derivative(default_lut[j], 1, field_order as int)
                    &&& luts.2[j] == term_derivative(default_lut[j], 2, field_order as int)
                },
    {
        let mut lut_x: Vec<Term> = Vec::new();
        let mut lut_y: Vec<Term> = Vec::new();
        let mut lut_z: Vec<Term> = Vec::new();
        let mut i: usize = 0;
        while i < default_lut.len()
            invariant
                field_order != 0,
                i <= default_lut.len(),
                lut_x.len() == i,
                lut_y.len() == i,
                lut_z.len() == i,
                forall|j: int|
                    0 <= j < i ==> {
                        &&& #[trigger] lut_x[j] == term_derivative(
                            default_lut[j],
                            0,
                            field_order as int,
                        )
                        &&& lut_y[j] == term_derivative(default_lut[j], 1, field_order as int)
                        &&& lut_z[j] == term_derivative(default_lut[j], 2, field_order as int)
                    },
            decreases default_lut.len() - i,
        {
            let (x, y, z) = default_lut[i].generate_derivatives(field_order);
            lut_x.push(x);
            lut_y.push(y);
            lut_z.push(z);
            i += 1;
        }
        (lut_x, lut_y, lut_z)
    }
}

/// The term `constant * x^x_deg * y^y_deg * z^z_deg`.
#[derive(Debug, Copy, Clone, PartialEq, Eq, Hash, Structural)]
pub struct Term {
    pub x_deg: u8,
    pub y_deg: u8,
    pub z_deg: u8,
    pub constant: u8,
}

/// The value of the term `t` at the point `p`: the product of the powers of
/// the coordinates, added up as many times as the coefficient says.
pub open spec fn term_value<T: FieldSpec>(t: Term, p: (T, T, T)) -> T {
    scalar_multiple(
        power(p.0, t.x_deg as nat).spec_mul(power(p.1, t.y_deg as nat)).spec_mul(
            power(p.2, t.z_deg as nat),
        ),
        t.constant as nat,
    )
}

/// The derivative of the term `t` by the variable `var` (0 for `x`, 1 for `y`,
/// otherwise `z`), with the coefficient reduced modulo `q`: the zero term where
/// the variable does not occur.
pub open spec fn term_derivative(t: Term, var: int, q: int) -> Term {
    let deg = if var == 0 {
        t.x_deg
    } else if var == 1 {
        t.y_deg
    } else {
        t.z_deg
    };
    if deg == 0 {
        Term { x_deg: 0, y_deg: 0, z_deg: 0, constant: 0 }
    } else {
        let constant = ((t.constant * deg) % q) as u8;
        if var == 0 {
            Term { x_deg: (deg - 1) as u8, y_deg: t.y_deg, z_deg: t.z_deg, constant }
        } else if var == 1 {
            Term { x_deg: t.x_deg, y_deg: (deg - 1) as u8, z_deg: t.z_deg, constant }
        } else {
            Term { x_deg: t.x_deg, y_deg: t.y_deg, z_deg: (deg - 1) as u8, constant }
        }
    }
}

impl Term {
    /// The three exponents as decimal numerals, one after the other.
    pub open spec fn spec_str(self) -> Seq<char> {
        decimal(self.x_deg as nat) + decimal(self.y_deg as nat) + decimal(self.z_deg as nat)
    }

    /// Whether the two terms have the same exponents.
    pub open spec fn spec_is_similar(self, term: Term) -> bool {
        self.x_deg == term.x_deg && self.y_deg == term.y_deg && self.z_deg == term.z_deg
    }

    /// The term with exponents and coefficient zero.
    pub fn zero() -> (t: Term)
        ensures
            t == (Term { x_deg: 0, y_deg: 0, z_deg: 0, constant: 0 }),
    {
        Term { x_deg: 0, y_deg: 0, z_deg: 0, constant: 0 }
    }

    /// The value of the term at the point `(x, y, z)` over any of the fields.
    pub fn evaluate<T: FieldTraits>(self, x: T, y: T, z: T) -> (r: T)
        requires
            x.wf(),
            y.wf(),
            z.wf(),
        ensures
            r == term_value(self, (x, y, z)),
            r.wf(),
    {
        proof {
            T::lemma_index(x, x);
            T::lemma_enumeration();
        }
        if self.constant == 0 {
            T::zero()
        } else {
            let m = x.mul_ntimes(self.x_deg).mul(y.mul_ntimes(self.y_deg)).mul(
                z.mul_ntimes(self.z_deg),
            );
            proof {
                T::lemma_add_zero(m);
                reveal_with_fuel(add_times, 2);
            }
            let mut res = m;
            let mut k: u8 = 1;
            while k < self.constant
                invariant
                    1 <= k <= self.constant,
                    m.wf(),
                    res.wf(),
                    res == scalar_multiple(m, k as nat),
                decreases self.constant - k,
            {
                res = res.add(m);
                k += 1;
            }
            res
        }
    }

    /// The value of the term at a point over the field of `2^N` elements.
    pub fn evaluate_f2<const N: u8>(self, x: F2_i<N>, y: F2_i<N>, z: F2_i<N>) -> (r: F2_i<N>)
        requires
            x.wf(),
            y.wf(),
            z.wf(),
        ensures
            r == term_value(self, (x, y, z)),
            r.wf(),
    {
        self.evaluate(x, y, z)
    }

    /// The value of the term at a point over the field of `3^N` elements.
    pub fn evaluate_f3<const N: u8>(self, x: F3_i<N>, y: F3_i<N>, z: F3_i<N>) -> (r: F3_i<N>)
        requires
            x.wf(),
            y.wf(),
            z.wf(),
        ensures
            r == term_value(self, (x, y, z)),
            r.wf(),
    {
        self.evaluate(x, y, z)
    }

    /// The exponents of the term as text.
    pub fn str(self) -> (s: String)
        ensures
            s@ == self.spec_str(),
    {
        let mut s = String::new();
        push_decimal(&mut s, self.x_deg as u64);
        push_decimal(&mut s, self.y_deg as u64);
        push_decimal(&mut s, self.z_deg as u64);
        proof {
            assert(s@ =~= self.spec_str());
        }
        s
    }

    fn derivative_of(self, var: u8, field_order: u8) -> (t: Term)
        requires
            field_order != 0,
        ensures
            t == term_derivative(self, var as int, field_order as int),
    {
        let deg = if var == 0 {
            self.x_deg
        } else if var == 1 {
            self.y_deg
        } else {
            self.z_deg
        };
        if deg == 0 {
            Term::zero()
        } else {
            let c = self.constant as u32;
            let d = deg as u32;
            assert(c * d <= 65025) by (nonlinear_arith)
                requires
                    c <= 255,
                    d <= 255,
            ;
            let constant = ((c * d) % (field_order as u32)) as u8;
            let mut t = self;
            t.constant = constant;
            if var == 0 {
                t.x_deg = deg - 1;
            } else if var == 1 {
                t.y_deg = deg - 1;
            } else {
                t.z_deg = deg - 1;
            }
            t
        }
    }

    /// The derivatives of the term by `x`, by `y` and by `z`, with the
    /// coefficients reduced modulo `field_order`.
    pub fn generate_derivatives(self, field_order: u8) -> (d: (Term, Term, Term))
        requires
            field_order != 0,
        ensures
            d.0 == term_derivative(self, 0, field_order as int),
            d.1 == term_derivative(self, 1, field_order as int),
            d.2 == term_derivative(self, 2, field_order as int),
    {
        (
            self.derivative_of(0, field_order),
            self.derivative_of(1, field_order),
            self.derivative_of(2, field_order),
        )
    }

    /// The values of the term at all points of the projective plane over the
    /// field, in the order of the enumeration of the points.
    pub fn generate_precalculated_points<T: FieldTraits>(self) -> (results: Vec<T>)
        requires
            T::supported(),
        ensures
            results.len() == point_count::<T>(),
            forall|p: int|
                0 <= p < results.len() ==> #[trigger] results[p] == term_value(
                    self,
                    projective_point::<T>(p as nat),
                ),
            forall|p: int| 0 <= p < results.len() ==> (#[trigger] results[p]).wf(),
    {
        let mut results: Vec<T> = Vec::new();
        let mut it = ProjectivePointIterator::<T>::new();
        loop
            invariant
                T::supported(),
                it.wf(),
                results.len() == it.position(),
                it.position() <= point_count::<T>(),
                forall|p: int|
                    0 <= p < results.len() ==> #[trigger] results[p] == term_value(
                        self,
                        projective_point::<T>(p as nat),
                    ),
                forall|p: int| 0 <= p < results.len() ==> (#[trigger] results[p]).wf(),
            ensures
                results.len() == point_count::<T>(),
                forall|p: int|
                    0 <= p < results.len() ==> #[trigger] results[p] == term_value(
                        self,
                        projective_point::<T>(p as nat),
                    ),
                forall|p: int| 0 <= p < results.len() ==> (#[trigger] results[p]).wf(),
            decreases point_count::<T>() - it.position(),
        {
            let ghost pos = it.position();
            match it.next() {
                Some((x, y, z)) => {
                    proof {
                        lemma_projective_point_wf::<T>(pos);
                        it.lemma_position_bound();
                    }
                    let result = self.evaluate(x, y, z);
                    results.push(result);
                },
                None => {
                    break ;
                },
            }
        }
        results
    }

    /// For every point of the projective plane over the field, in the order of
    /// the enumeration, the values of all `terms` at that point.
    pub fn generate_points_for_multiple<T: FieldTraits>(terms: &Vec<Term>) -> (table: Vec<Vec<T>>)
        requires
            T::supported(),
            terms.len() > 0,
        ensures
            table.len() == point_count::<T>(),
            forall|p: int| 0 <= p < table.len() ==> (#[trigger] table[p]).len() == terms.len(),
            forall|p: int, j: int|
                0 <= p < table.len() && 0 <= j < terms.len() ==> #[trigger] table[p][j]
                    == term_value(terms[j], projective_point::<T>(p as nat)),
            forall|p: int, j: int|
                0 <= p < table.len() && 0 <= j < terms.len() ==> (#[trigger] table[p][j]).wf(),
    {
        let mut resultant_terms: Vec<Vec<T>> = Vec::new();
        let mut i: usize = 0;
        while i < terms.len()
            invariant
                T::supported(),
                i <= terms.len(),
                resultant_terms.len() == i,
                forall|j: int|
                    0 <= j < i ==> (#[trigger] resultant_terms[j]).len() == point_count::<T>(),
                forall|j: int, p: int|
                    0 <= j < i && 0 <= p < point_count::<T>() ==> #[trigger] resultant_terms[j][p]
                        == term_value(terms[j], projective_point::<T>(p as nat)),
                forall|j: int, p: int|
                    0 <= j < i && 0 <= p < point_count::<T>() ==> (
                    #[trigger] resultant_terms[j][p]).wf(),
            decreases terms.len() - i,
        {
            let column = terms[i].generate_precalculated_points::<T>();
            resultant_terms.push(column);
            i += 1;
        }
        transpose(resultant_terms)
    }

    /// Whether the two terms have the same exponents.
    pub fn is_similar(&self, term: Term) -> (r: bool)
        ensures
            r == self.spec_is_similar(term),
    {
        self.x_deg == term.x_deg && self.y_deg == term.y_deg && self.z_deg == term.z_deg
    }
}

/// The table with rows and columns exchanged: entry `j` of row `i` of the
/// result is entry `i` of row `j` of `v`. The rows of `v` are read up to the
/// length of its first row.
pub fn transpose<T: Copy>(v: Vec<Vec<T>>) -> (r: Vec<Vec<T>>)
    requires
        v.len() > 0,
        forall|j: int| 0 <= j < v.len() ==> (#[trigger] v[j]).len() >= v[0].len(),
    ensures
        r.len() == v[0].len(),
        forall|i: int| 0 <= i < r.len() ==> (#[trigger] r[i]).len() == v.len(),
        forall|i: int, j: int| 0 <= i < r.len() && 0 <= j < v.len() ==> #[trigger] r[i][j] == v[j][i],
{
    let len = v[0].len();
    let mut r: Vec<Vec<T>> = Vec::new();
    let mut i: usize = 0;
    while i < len
        invariant
            len == v[0].len(),
            v.len() > 0,
            forall|j: int| 0 <= j < v.len() ==> (#[trigger] v[j]).len() >= len,
            i <= len,
            r.len() == i,
            forall|k: int| 0 <= k < i ==> (#[trigger] r[k]).len() == v.len(),
            forall|k: int, j: int| 0 <= k < i && 0 <= j < v.len() ==> #[trigger] r[k][j] == v[j][k],
        decreases len - i,
    {
        let mut row: Vec<T> = Vec::new();
        let mut j: usize = 0;
        while j < v.len()
            invariant
                i < len,
                forall|j: int| 0 <= j < v.len() ==> (#[trigger] v[j]).len() >= len,
                j <= v.len(),
                row.len() == j,
                forall|k: int| 0 <= k < j ==> #[trigger] row[k] == v[k][i as int],
            decreases v.len() - j,
        {
            row.push(v[j][i]);
            j += 1;
        }
        r.push(row);
        i += 1;
    }
    r
}

} // verus!
