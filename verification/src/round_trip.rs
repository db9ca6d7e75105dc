//! Reading back what was written: the text of a form stands for that form, the
//! line of a class for that class, and the text of a list of classes for that
//! list.
use vstd::prelude::*;
use crate::algebraic_types::IsoPolynomial;
use crate::polynomials::{
    basis, basis_index, is_form, join, lemma_basis, lemma_basis_rows_index, lemma_join_push,
    lemma_low_bits_2, lemma_low_bits_3, lemma_token_end, low_coefficients, max_width, parse_from,
    parse_term, pieces, place_term, term_pieces, term_text, token_end, with_coefficient,
    ParseError, Polynomial, Term,
};
use crate::records::{
    find, first_word, header_lines, is_ascii_space, lemma_find, lines_from, number_of,
    orbit_list_text, parse_header, parse_orbit_list, parse_record, parse_records, record_lines,
    record_text, second_field, strip_return, unlines, word_end, word_start,
};
use crate::text::{
    decimal, digit_char, is_digit, is_space, lemma_decimal_value, lemma_digit_char,
};

verus! {

/// Whether the terms of `lut` can be told apart in a text: none is the zero
/// term, every exponent is a single digit, and no two have the same exponents.
pub open spec fn is_text_basis(lut: Seq<Term>) -> bool {
    &&& forall|j: int|
        0 <= j < lut.len() ==> {
            &&& (#[trigger] lut[j]).constant != 0
            &&& lut[j].x_deg <= 9
            &&& lut[j].y_deg <= 9
            &&& lut[j].z_deg <= 9
        }
    &&& forall|j: int, k: int|
        0 <= j < lut.len() && 0 <= k < lut.len() && j != k ==> !(#[trigger] lut[j]).spec_is_similar(
            #[trigger] lut[k],
        )
}

/// A term that matches only place `n` of the basis is entered there.
proof fn lemma_place_unique(bits: u64, c: nat, t: Term, lut: Seq<Term>, q: nat, n: int, m: nat)
    requires
        0 <= n < lut.len(),
        m <= lut.len(),
        t.spec_is_similar(lut[n]),
        forall|j: int| 0 <= j < lut.len() && j != n ==> !t.spec_is_similar(#[trigger] lut[j]),
        (Polynomial { bits }).coefficient(n as nat, q) == 0,
    ensures
        place_term(bits, c, t, lut, q, m) == Ok::<u64, ParseError>(
            if m > n {
                with_coefficient(bits, c, n as nat, q)
            } else {
                bits
            },
        ),
    decreases m,
{
    if m > 0 {
        lemma_place_unique(bits, c, t, lut, q, n, (m - 1) as nat);
    }
}

/// Reading goes through a text and then through what follows it, where what
/// follows starts with white space or is empty.
proof fn lemma_parse_concat(a: Seq<char>, b: Seq<char>, i: int, bits: u64, lut: Seq<Term>, q: nat)
    requires
        0 <= i <= a.len(),
        b.len() == 0 || is_space(b[0]),
    ensures
        parse_from(a + b, i, bits, lut, q) == match parse_from(a, i, bits, lut, q) {
            Ok(r) => parse_from(a + b, a.len() as int, r, lut, q),
            Err(e) => Err(e),
        },
    decreases a.len() - i,
{
    let s = a + b;
    if i < a.len() {
        assert(s[i] == a[i]);
        if is_space(a[i]) {
            lemma_parse_concat(a, b, i + 1, bits, lut, q);
        } else {
            lemma_token_end(a, i);
            let j = token_end(a, i);
            lemma_token_end_concat(a, b, i);
            assert(s.subrange(i, j) =~= a.subrange(i, j));
            match parse_term(a.subrange(i, j), q) {
                Err(e) => {},
                Ok((c, t)) => match place_term(bits, c, t, lut, q, lut.len()) {
                    Err(e) => {},
                    Ok(r) => {
                        lemma_parse_concat(a, b, j, r, lut, q);
                    },
                },
            }
        }
    } else {
        if b.len() == 0 {
            assert(s =~= a);
        }
    }
}

/// A run of characters in a text ends where it ends when white space follows
/// the text.
proof fn lemma_token_end_concat(a: Seq<char>, b: Seq<char>, i: int)
    requires
        0 <= i <= a.len(),
        b.len() == 0 || is_space(b[0]),
    ensures
        token_end(a + b, i) == token_end(a, i),
    decreases a.len() - i,
{
    let s = a + b;
    if i < a.len() {
        assert(s[i] == a[i]);
        if !is_space(a[i]) {
            lemma_token_end_concat(a, b, i + 1);
        }
    } else {
        if b.len() > 0 {
            assert(s[i] == b[0]);
        }
    }
}

/// The text of a term of a basis in the sense of `is_text_basis` has five
/// characters, none of them white space, and stands for the term.
proof fn lemma_term_text(c: nat, t: Term, q: nat)
    requires
        c == 1 || (q == 3 && c == 2),
        t.constant != 0,
        t.x_deg <= 9,
        t.y_deg <= 9,
        t.z_deg <= 9,
    ensures
        term_text(c, t).len() == 5,
        forall|k: int| 0 <= k < 5 ==> !is_space(#[trigger] term_text(c, t)[k]),
        parse_term(term_text(c, t), q) == Ok::<(nat, Term), ParseError>(
            (c, Term { x_deg: t.x_deg, y_deg: t.y_deg, z_deg: t.z_deg, constant: 1 }),
        ),
{
    let x = term_text(c, t);
    lemma_digit_char(c);
    lemma_digit_char(t.x_deg as nat);
    lemma_digit_char(t.y_deg as nat);
    lemma_digit_char(t.z_deg as nat);
    assert(x =~= seq![
        digit_char(c),
        '_',
        digit_char(t.x_deg as nat),
        digit_char(t.y_deg as nat),
        digit_char(t.z_deg as nat),
    ]);
}

/// Reading the text `x` of a term after white space enters the term.
proof fn lemma_parse_one(x: Seq<char>, lead: Seq<char>, c: nat, t: Term, bits: u64, lut: Seq<Term>, q: nat)
    requires
        x.len() == 5,
        forall|k: int| 0 <= k < 5 ==> !is_space(#[trigger] x[k]),
        parse_term(x, q) == Ok::<(nat, Term), ParseError>((c, t)),
        lead.len() <= 1,
        forall|k: int| 0 <= k < lead.len() ==> is_space(#[trigger] lead[k]),
    ensures
        parse_from(lead + x, 0, bits, lut, q) == place_term(bits, c, t, lut, q, lut.len()),
{
    let s = lead + x;
    let i = lead.len() as int;
    if lead.len() == 1 {
        assert(s[0] == lead[0]);
    }
    assert(forall|k: int| 0 <= k < 5 ==> s[i + k] == x[k]);
    assert(!is_space(s[i]));
    assert(token_end(s, i) == i + 5) by {
        reveal_with_fuel(token_end, 7);
        assert(!is_space(s[i + 1]) && !is_space(s[i + 2]) && !is_space(s[i + 3]) && !is_space(
            s[i + 4],
        ));
    }
    assert(s.subrange(i, i + 5) =~= x);
    assert(parse_from(s, i, bits, lut, q) == match place_term(bits, c, t, lut, q, lut.len()) {
        Err(e) => Err(e),
        Ok(b) => parse_from(s, i + 5, b, lut, q),
    });
}

/// Reading the texts joined so far and then the text `x` of one more term
/// enters that term into the form read so far.
proof fn lemma_parse_appended(
    before: Seq<Seq<char>>,
    x: Seq<char>,
    c: nat,
    t: Term,
    low: u64,
    lut: Seq<Term>,
    q: nat,
)
    requires
        parse_from(join(before), 0, 0, lut, q) == Ok::<u64, ParseError>(low),
        x.len() == 5,
        forall|k: int| 0 <= k < 5 ==> !is_space(#[trigger] x[k]),
        parse_term(x, q) == Ok::<(nat, Term), ParseError>((c, t)),
    ensures
        parse_from(join(before.push(x)), 0, 0, lut, q) == place_term(low, c, t, lut, q, lut.len()),
{
    lemma_join_push(before, x);
    let a = join(before);
    if before.len() == 0 {
        assert(a =~= Seq::<char>::empty());
        assert(Seq::<char>::empty() + x =~= x);
        lemma_parse_one(x, Seq::<char>::empty(), c, t, low, lut, q);
        assert(parse_from(a, 0, 0, lut, q) == Ok::<u64, ParseError>(0));
    } else {
        let b = seq![' '] + x;
        assert(a + seq![' '] + x =~= a + b);
        lemma_parse_concat(a, b, 0, 0, lut, q);
        lemma_parse_shift(a, b, 0, low, lut, q);
        lemma_parse_one(x, seq![' '], c, t, low, lut, q);
    }
}

/// The term that the text of basis monomial `m` stands for is entered at
/// place `m` and nowhere else.
proof fn lemma_entered(poly: Polynomial, lut: Seq<Term>, q: nat, m: nat)
    requires
        q == 2 || q == 3,
        lut.len() <= max_width(q),
        is_text_basis(lut),
        is_form(poly, lut.len(), q),
        m < lut.len(),
        poly.coefficient(m, q) != 0,
    ensures
        place_term(
            low_coefficients(poly.bits, m, q),
            poly.coefficient(m, q),
            Term {
                x_deg: lut[m as int].x_deg,
                y_deg: lut[m as int].y_deg,
                z_deg: lut[m as int].z_deg,
                constant: 1,
            },
            lut,
            q,
            lut.len(),
        ) == Ok::<u64, ParseError>(low_coefficients(poly.bits, m + 1, q)),
        poly.coefficient(m, q) == 1 || (q == 3 && poly.coefficient(m, q) == 2),
{
    let bits = poly.bits;
    let t = lut[m as int];
    let read = Term { x_deg: t.x_deg, y_deg: t.y_deg, z_deg: t.z_deg, constant: 1 };
    let low = low_coefficients(bits, m, q);
    let c = poly.coefficient(m, q);
    if q == 2 {
        lemma_low_bits_2(bits, m as u64);
    } else {
        lemma_low_bits_3(bits, m as u64);
    }
    assert(read.spec_is_similar(lut[m as int]));
    assert forall|j: int| 0 <= j < lut.len() && j != m implies !read.spec_is_similar(
        #[trigger] lut[j],
    ) by {
        if read.spec_is_similar(lut[j]) {
            assert(lut[j].spec_is_similar(lut[m as int]));
        }
    }
    lemma_place_unique(low, c, read, lut, q, m as int, lut.len());
}

/// The text of the terms of a form among the first `n` basis monomials stands
/// for the coefficients of the form below place `n`.
proof fn lemma_parse_pieces(poly: Polynomial, lut: Seq<Term>, q: nat, n: nat)
    requires
        q == 2 || q == 3,
        lut.len() <= max_width(q),
        is_text_basis(lut),
        is_form(poly, lut.len(), q),
        n <= lut.len(),
    ensures
        parse_from(join(pieces(poly, lut, q, n)), 0, 0, lut, q) == Ok::<u64, ParseError>(
            low_coefficients(poly.bits, n, q),
        ),
    decreases n,
{
    let bits = poly.bits;
    if n == 0 {
        lemma_low_bits_2(bits, 0);
        if q == 3 {
            lemma_low_bits_3(bits, 0);
        }
        assert(join(pieces(poly, lut, q, 0)) =~= Seq::<char>::empty());
    } else {
        let m = (n - 1) as nat;
        lemma_parse_pieces(poly, lut, q, m);
        let before = pieces(poly, lut, q, m);
        let tp = term_pieces(poly, lut, q, m as int);
        let c = poly.coefficient(m, q);
        if c == 0 {
            if q == 2 {
                lemma_low_bits_2(bits, m as u64);
            } else {
                lemma_low_bits_3(bits, m as u64);
            }
            assert(before + tp =~= before);
        } else {
            let t = lut[m as int];
            let x = term_text(c, t);
            let read = Term { x_deg: t.x_deg, y_deg: t.y_deg, z_deg: t.z_deg, constant: 1 };
            lemma_entered(poly, lut, q, m);
            assert(before + tp =~= before.push(x));
            lemma_term_text(c, t, q);
            lemma_parse_appended(before, x, c, read, low_coefficients(bits, m, q), lut, q);
        }
    }
}

/// Reading from a place in the second of two texts does not look at the first.
proof fn lemma_parse_shift(a: Seq<char>, b: Seq<char>, i: int, bits: u64, lut: Seq<Term>, q: nat)
    requires
        0 <= i <= b.len(),
    ensures
        parse_from(a + b, a.len() + i, bits, lut, q) == parse_from(b, i, bits, lut, q),
    decreases b.len() - i,
{
    let s = a + b;
    let k = a.len() as int;
    if i < b.len() {
        assert(s[k + i] == b[i]);
        if is_space(b[i]) {
            lemma_parse_shift(a, b, i + 1, bits, lut, q);
        } else {
            lemma_token_end(b, i);
            lemma_token_end_shift(a, b, i);
            let j = token_end(b, i);
            assert(s.subrange(k + i, k + j) =~= b.subrange(i, j));
            match parse_term(b.subrange(i, j), q) {
                Err(e) => {},
                Ok((c, t)) => match place_term(bits, c, t, lut, q, lut.len()) {
                    Err(e) => {},
                    Ok(r) => {
                        lemma_parse_shift(a, b, j, r, lut, q);
                    },
                },
            }
        }
    }
}

/// A run of characters in the second of two texts ends where it ends in that
/// text alone.
proof fn lemma_token_end_shift(a: Seq<char>, b: Seq<char>, i: int)
    requires
        0 <= i <= b.len(),
    ensures
        token_end(a + b, a.len() + i) == a.len() + token_end(b, i),
    decreases b.len() - i,
{
    let s = a + b;
    if i < b.len() {
        assert(s[a.len() + i] == b[i]);
        if !is_space(b[i]) {
            lemma_token_end_shift(a, b, i + 1);
        }
    }
}

/// Writing a form and reading the text back gives the form: for every form
/// `poly` in a basis `lut` whose terms can be told apart in a text,
/// `from_string` of the text that `str` writes returns `poly`.
pub proof fn lemma_from_string_of_str(poly: Polynomial, lut: Seq<Term>, q: nat)
    requires
        q == 2 || q == 3,
        lut.len() <= max_width(q),
        is_text_basis(lut),
        is_form(poly, lut.len(), q),
    ensures
        Polynomial::spec_from_string(poly.spec_str(lut, q), lut, q) == Ok::<
            Polynomial,
            ParseError,
        >(poly),
{
    lemma_parse_pieces(poly, lut, q, lut.len());
    let bits = poly.bits;
    let n = lut.len();
    if q == 2 {
        if n < 64 {
            lemma_low_bits_2(bits, n as u64);
        }
    } else {
        if n < 32 {
            lemma_low_bits_3(bits, n as u64);
        }
    }
}

/// The monomial basis of a degree up to nine can be told apart in a text.
pub proof fn lemma_basis_is_text_basis(d: nat)
    requires
        d <= 9,
    ensures
        is_text_basis(basis(d)),
{
    lemma_basis(d);
    lemma_basis_rows_index(d, d + 1);
    let lut = basis(d);
    assert forall|j: int, k: int|
        0 <= j < lut.len() && 0 <= k < lut.len() && j != k implies !(#[trigger] lut[j]).spec_is_similar(
        #[trigger] lut[k],
    ) by {
        if lut[j].spec_is_similar(lut[k]) {
            assert(basis_index(d, lut[j].x_deg as nat, lut[j].y_deg as nat) == j);
            assert(basis_index(d, lut[k].x_deg as nat, lut[k].y_deg as nat) == k);
        }
    }
}

/// Whether `s` holds nothing but digits, underscores and blanks.
pub open spec fn is_plain(s: Seq<char>) -> bool {
    forall|k: int| 0 <= k < s.len() ==> is_digit(#[trigger] s[k]) || s[k] == '_' || s[k] == ' '
}

/// The text of a term holds nothing but digits and an underscore.
proof fn lemma_term_text_plain(c: nat, t: Term)
    requires
        c < 10,
    ensures
        is_plain(term_text(c, t)),
        term_text(c, t).len() >= 5,
{
    lemma_digit_char(c);
    lemma_decimal_value(t.x_deg as nat);
    lemma_decimal_value(t.y_deg as nat);
    lemma_decimal_value(t.z_deg as nat);
    let x = term_text(c, t);
    let a = decimal(t.x_deg as nat);
    let b = decimal(t.y_deg as nat);
    let d = decimal(t.z_deg as nat);
    assert forall|k: int| 0 <= k < x.len() implies is_digit(#[trigger] x[k]) || x[k] == '_' || x[k]
        == ' ' by {
        if k < 2 {
        } else if k < 2 + a.len() {
            assert(x[k] == a[k - 2]);
        } else if k < 2 + a.len() + b.len() {
            assert(x[k] == b[k - 2 - a.len()]);
        } else {
            assert(x[k] == d[k - 2 - a.len() - b.len()]);
        }
    }
}

/// The text of a form holds nothing but digits, underscores and blanks.
proof fn lemma_pieces_plain(poly: Polynomial, lut: Seq<Term>, q: nat, n: nat)
    requires
        n <= lut.len(),
    ensures
        is_plain(join(pieces(poly, lut, q, n))),
    decreases n,
{
    if n == 0 {
        assert(join(pieces(poly, lut, q, 0)) =~= Seq::<char>::empty());
    } else {
        let m = (n - 1) as nat;
        lemma_pieces_plain(poly, lut, q, m);
        let before = pieces(poly, lut, q, m);
        let tp = term_pieces(poly, lut, q, m as int);
        let t = lut[m as int];
        lemma_term_text_plain(1, t);
        lemma_term_text_plain(2, t);
        if tp.len() == 0 {
            assert(before + tp =~= before);
        } else if tp.len() == 1 {
            assert(before + tp =~= before.push(tp[0]));
            lemma_join_push(before, tp[0]);
        } else {
            assert(before + tp =~= before.push(tp[0]).push(tp[1]));
            lemma_join_push(before, tp[0]);
            lemma_join_push(before.push(tp[0]), tp[1]);
        }
    }
}

/// Where no place from `i` on holds `c`, `find` gives the length.
proof fn lemma_find_absent(s: Seq<char>, c: char, i: int)
    requires
        0 <= i <= s.len(),
        forall|k: int| i <= k < s.len() ==> #[trigger] s[k] != c,
    ensures
        find(s, c, i) == s.len(),
    decreases s.len() - i,
{
    if i < s.len() {
        lemma_find_absent(s, c, i + 1);
    }
}

/// Where place `j` is the first from `i` on that holds `c`, `find` gives `j`.
proof fn lemma_find_at(s: Seq<char>, c: char, i: int, j: int)
    requires
        0 <= i <= j < s.len(),
        s[j] == c,
        forall|k: int| i <= k < j ==> #[trigger] s[k] != c,
    ensures
        find(s, c, i) == j,
    decreases j - i,
{
    if i < j {
        lemma_find_at(s, c, i + 1, j);
    }
}

/// A word between at most one blank before it and a blank or nothing after
/// it is the first word.
proof fn lemma_first_word(lead: Seq<char>, w: Seq<char>, trail: Seq<char>)
    requires
        lead.len() <= 1,
        forall|k: int| 0 <= k < lead.len() ==> is_ascii_space(#[trigger] lead[k]),
        w.len() >= 1,
        forall|k: int| 0 <= k < w.len() ==> !is_ascii_space(#[trigger] w[k]),
        trail.len() == 0 || is_ascii_space(trail[0]),
    ensures
        first_word(lead + w + trail) == w,
{
    let s = lead + w + trail;
    let a = lead.len() as int;
    if a == 1 {
        assert(s[0] == lead[0]);
    }
    assert(s[a] == w[0]);
    assert(word_start(s, 0) == a) by {
        reveal_with_fuel(word_start, 3);
        assert(!is_ascii_space(s[a]));
    }
    assert forall|k: int| a <= k < a + w.len() implies !is_ascii_space(#[trigger] s[k]) by {
        assert(s[k] == w[k - a]);
    }
    if trail.len() > 0 {
        assert(s[a + w.len()] == trail[0]);
    }
    lemma_word_end(s, a, a + w.len());
    assert(s.subrange(a, a + w.len()) =~= w);
}

/// A run without white space that ends at white space or at the end of the
/// text is a word.
proof fn lemma_word_end(s: Seq<char>, i: int, j: int)
    requires
        0 <= i <= j <= s.len(),
        forall|k: int| i <= k < j ==> !is_ascii_space(#[trigger] s[k]),
        j == s.len() || is_ascii_space(s[j]),
    ensures
        word_end(s, i) == j,
    decreases j - i,
{
    if i < j {
        lemma_word_end(s, i + 1, j);
    }
}

/// The decimal numeral of a number up to `max` is read as that number.
proof fn lemma_number_of_decimal(n: nat, max: nat)
    requires
        n <= max,
    ensures
        number_of(decimal(n), max) == Some(n),
        forall|k: int| 0 <= k < decimal(n).len() ==> !is_ascii_space(#[trigger] decimal(n)[k]),
        forall|k: int| 0 <= k < decimal(n).len() ==> #[trigger] decimal(n)[k] != '|',
        forall|k: int| 0 <= k < decimal(n).len() ==> #[trigger] decimal(n)[k] != '\n',
        decimal(n).len() >= 1,
        decimal(n).last() != '\r',
{
    lemma_decimal_value(n);
    let s = decimal(n);
    assert forall|k: int| 0 <= k < s.len() implies !is_ascii_space(#[trigger] s[k]) && s[k] != '|'
        && s[k] != '\n' by {
        assert(is_digit(s[k]));
    }
    assert(is_digit(s[s.len() - 1]));
}

/// The line of a class is read as that class: for every form in a basis whose
/// terms can be told apart in a text and every size, `read_record` of the
/// line that `write_record` writes returns the form with the size.
pub proof fn lemma_record_of_text(iso: IsoPolynomial, lut: Seq<Term>, q: nat)
    requires
        q == 2 || q == 3,
        lut.len() <= max_width(q),
        is_text_basis(lut),
        is_form(iso.representative, lut.len(), q),
    ensures
        parse_record(record_text(iso, lut, q), lut, q) == Ok::<IsoPolynomial, ParseError>(iso),
        forall|k: int|
            0 <= k < record_text(iso, lut, q).len() ==> #[trigger] record_text(iso, lut, q)[k]
                != '\n',
        record_text(iso, lut, q).len() >= 1,
        record_text(iso, lut, q).last() != '\r',
{
    let form = iso.representative.spec_str(lut, q);
    let size = decimal(iso.size as nat);
    let line = record_text(iso, lut, q);
    let bar = form.len() as int + 1;
    lemma_pieces_plain(iso.representative, lut, q, lut.len());
    lemma_number_of_decimal(iso.size as nat, u32::MAX as nat);
    assert(line.len() == form.len() + 3 + size.len());
    assert forall|k: int| 0 <= k < line.len() implies (k < form.len() ==> line[k] == form[k]) && (k
        >= form.len() + 3 ==> #[trigger] line[k] == size[k - form.len() - 3]) by {}
    assert(line[form.len() as int] == ' ' && line[bar] == '|' && line[bar + 1] == ' ');
    assert forall|k: int| 0 <= k < bar implies #[trigger] line[k] != '|' by {
        if k < form.len() {
            assert(is_digit(form[k]) || form[k] == '_' || form[k] == ' ');
        }
    }
    lemma_find_at(line, '|', 0, bar);
    assert forall|k: int| bar + 1 <= k < line.len() implies #[trigger] line[k] != '|' by {
        if k >= form.len() + 3 {
            assert(line[k] == size[k - form.len() - 3]);
        }
    }
    lemma_find_absent(line, '|', bar + 1);
    let field = second_field(line);
    assert(field =~= seq![' '] + size + Seq::<char>::empty());
    lemma_first_word(seq![' '], size, Seq::<char>::empty());
    let head = line.subrange(0, bar);
    assert(head =~= form + seq![' ']);
    lemma_from_string_of_str(iso.representative, lut, q);
    lemma_parse_concat(form, seq![' '], 0, 0, lut, q);
    lemma_parse_shift(form, seq![' '], 0, iso.representative.bits, lut, q);
    assert(parse_from(seq![' '], 0, iso.representative.bits, lut, q) == Ok::<u64, ParseError>(
        iso.representative.bits,
    )) by {
        reveal_with_fuel(parse_from, 3);
    }
    assert forall|k: int| 0 <= k < line.len() implies #[trigger] line[k] != '\n' by {
        if k < form.len() {
            assert(is_digit(form[k]) || form[k] == '_' || form[k] == ' ');
        } else if k >= form.len() + 3 {
            assert(line[k] == size[k - form.len() - 3]);
        }
    }
    assert(line.last() == size.last());
}

/// The third line of a list of classes is read as the degree and the field
/// order that were written.
pub proof fn lemma_header_of_text(d: nat, q: nat)
    requires
        d <= u32::MAX,
        q <= u32::MAX,
    ensures
        parse_header(header_lines(d, q)[2]) == Ok::<(nat, nat), ParseError>((d, q)),
{
    let first = decimal(d);
    let second = decimal(q);
    let line = header_lines(d, q)[2];
    let bar = first.len() as int + 1;
    lemma_number_of_decimal(d, u32::MAX as nat);
    lemma_number_of_decimal(q, u32::MAX as nat);
    assert(line.len() == first.len() + 3 + second.len());
    assert forall|k: int| 0 <= k < line.len() implies (k < first.len() ==> line[k] == first[k])
        && (k >= first.len() + 3 ==> #[trigger] line[k] == second[k - first.len() - 3]) by {}
    assert(line[first.len() as int] == ' ' && line[bar] == '|' && line[bar + 1] == ' ');
    assert forall|k: int| 0 <= k < bar implies #[trigger] line[k] != '|' by {
        if k < first.len() {
            assert(line[k] == first[k]);
        }
    }
    lemma_find_at(line, '|', 0, bar);
    assert forall|k: int| bar + 1 <= k < line.len() implies #[trigger] line[k] != '|' by {
        if k >= first.len() + 3 {
            assert(line[k] == second[k - first.len() - 3]);
        }
    }
    lemma_find_absent(line, '|', bar + 1);
    assert(second_field(line) =~= seq![' '] + second + Seq::<char>::empty());
    lemma_first_word(seq![' '], second, Seq::<char>::empty());
    assert(line.subrange(0, bar) =~= Seq::<char>::empty() + first + seq![' ']);
    lemma_first_word(Seq::<char>::empty(), first, seq![' ']);
}

/// Whether a line comes back from a text as it went in: it holds no line
/// feed and does not end in a carriage return.
pub open spec fn is_line(line: Seq<char>) -> bool {
    &&& forall|k: int| 0 <= k < line.len() ==> #[trigger] line[k] != '\n'
    &&& line.len() == 0 || line.last() != '\r'
}

/// The lines of a text from a place in its second part on are those of the
/// second part.
proof fn lemma_lines_shift(a: Seq<char>, b: Seq<char>, i: int)
    requires
        0 <= i <= b.len(),
    ensures
        lines_from(a + b, a.len() + i) == lines_from(b, i),
    decreases b.len() - i,
{
    let s = a + b;
    let k = a.len() as int;
    if i < b.len() {
        lemma_find_shift(a, b, '\n', i);
        lemma_find(b, '\n', i);
        let e = find(b, '\n', i);
        assert(s.subrange(k + i, k + e) =~= b.subrange(i, e));
        if e < b.len() {
            lemma_lines_shift(a, b, e + 1);
        }
    }
}

/// The place of a character in the second part of a text, counted in the
/// whole text.
proof fn lemma_find_shift(a: Seq<char>, b: Seq<char>, c: char, i: int)
    requires
        0 <= i <= b.len(),
    ensures
        find(a + b, c, a.len() + i) == a.len() + find(b, c, i),
    decreases b.len() - i,
{
    let s = a + b;
    if i < b.len() {
        assert(s[a.len() + i] == b[i]);
        if b[i] != c {
            lemma_find_shift(a, b, c, i + 1);
        }
    }
}

/// The lines of a text that ends in a line feed, followed by a second text,
/// are the lines of the two.
proof fn lemma_lines_concat(a: Seq<char>, b: Seq<char>, i: int)
    requires
        0 <= i <= a.len(),
        a.len() == 0 || a.last() == '\n',
    ensures
        lines_from(a + b, i) == lines_from(a, i) + lines_from(b, 0),
    decreases a.len() - i,
{
    let s = a + b;
    if i < a.len() {
        lemma_find(a, '\n', i);
        let e = find(a, '\n', i);
        assert(e < a.len()) by {
            if e >= a.len() {
                assert(a[a.len() - 1] != '\n');
            }
        }
        assert forall|k: int| i <= k < e implies #[trigger] s[k] != '\n' by {
            assert(s[k] == a[k]);
        }
        assert(s[e] == a[e]);
        lemma_find_at(s, '\n', i, e);
        assert(s.subrange(i, e) =~= a.subrange(i, e));
        lemma_lines_concat(a, b, e + 1);
        assert(lines_from(s, i) =~= lines_from(a, i) + lines_from(b, 0));
    } else {
        lemma_lines_shift(a, b, 0);
        assert(lines_from(a, i) + lines_from(b, 0) =~= lines_from(b, 0));
    }
}

/// A text made of lines, each with a line feed at its end, has these lines.
pub proof fn lemma_lines_of_unlines(ls: Seq<Seq<char>>)
    requires
        forall|k: int| 0 <= k < ls.len() ==> is_line(#[trigger] ls[k]),
    ensures
        lines_from(unlines(ls), 0) == ls,
        ls.len() > 0 ==> unlines(ls).last() == '\n',
    decreases ls.len(),
{
    if ls.len() == 0 {
    } else {
        let before = ls.drop_last();
        let line = ls.last();
        lemma_lines_of_unlines(before);
        let a = unlines(before);
        let b = line + seq!['\n'];
        assert(unlines(ls) =~= a + b);
        lemma_lines_concat(a, b, 0);
        assert forall|k: int| 0 <= k < line.len() implies #[trigger] b[k] != '\n' by {
            assert(b[k] == line[k]);
        }
        assert(b[line.len() as int] == '\n');
        lemma_find_at(b, '\n', 0, line.len() as int);
        assert(b.subrange(0, line.len() as int) =~= line);
        assert(strip_return(line, true) == line);
        assert(lines_from(b, 0) =~= seq![line]) by {
            assert(lines_from(b, line.len() as int + 1) =~= Seq::<Seq<char>>::empty());
        }
        assert(before + seq![line] =~= ls);
    }
}

/// The lines of classes from line `k` on are read as these classes.
proof fn lemma_parse_records(
    ls: Seq<Seq<char>>,
    orbits: Seq<IsoPolynomial>,
    lut: Seq<Term>,
    q: nat,
    k: int,
)
    requires
        q == 2 || q == 3,
        lut.len() <= max_width(q),
        is_text_basis(lut),
        forall|j: int| 0 <= j < orbits.len() ==> is_form((#[trigger] orbits[j]).representative, lut.len(), q),
        ls.len() == 4 + orbits.len(),
        forall|j: int| 0 <= j < orbits.len() ==> #[trigger] ls[4 + j] == record_text(orbits[j], lut, q),
        4 <= k <= ls.len(),
    ensures
        parse_records(ls, k, lut, q, orbits.take(k - 4)) == Ok::<Seq<IsoPolynomial>, ParseError>(
            orbits,
        ),
    decreases ls.len() - k,
{
    if k < ls.len() {
        let j = k - 4;
        assert(ls[4 + j] == record_text(orbits[j], lut, q));
        lemma_record_of_text(orbits[j], lut, q);
        assert(orbits.take(j).push(orbits[j]) =~= orbits.take(j + 1));
        lemma_parse_records(ls, orbits, lut, q, k + 1);
    } else {
        assert(orbits.take(k - 4) =~= orbits);
    }
}

/// Writing a list of classes and reading the text back gives the list: for
/// every list of classes of forms in a basis whose terms can be told apart in
/// a text, `read_orbit_list` of the text that `write_orbit_list` writes
/// returns the same forms with the same sizes.
pub proof fn lemma_orbit_list_of_text(orbits: Seq<IsoPolynomial>, d: nat, q: nat, lut: Seq<Term>)
    requires
        q == 2 || q == 3,
        d <= u32::MAX,
        lut.len() <= max_width(q),
        is_text_basis(lut),
        forall|j: int| 0 <= j < orbits.len() ==> is_form((#[trigger] orbits[j]).representative, lut.len(), q),
    ensures
        parse_orbit_list(orbit_list_text(orbits, d, q, lut), d, q, lut) == Ok::<
            Seq<IsoPolynomial>,
            ParseError,
        >(orbits),
{
    let head = header_lines(d, q);
    let ls = head + record_lines(orbits, lut, q);
    reveal_strlit("# Classes of ternary forms under linear changes of the variables");
    reveal_strlit("# Homogeneous Degree | Field Order");
    reveal_strlit("# Constant_(xpower)(ypower)(zpower) ... | Isomorphism Class size");
    lemma_number_of_decimal(d, u32::MAX as nat);
    lemma_number_of_decimal(q, u32::MAX as nat);
    let third = head[2];
    assert(is_line(third)) by {
        let first = decimal(d);
        let second = decimal(q);
        assert forall|k: int| 0 <= k < third.len() implies #[trigger] third[k] != '\n' by {
            if k < first.len() {
                assert(third[k] == first[k]);
            } else if k >= first.len() + 3 {
                assert(third[k] == second[k - first.len() - 3]);
            }
        }
        assert(third.last() == second.last());
    }
    assert(is_line(head[0]));
    assert(is_line(head[1]));
    assert(is_line(head[3]));
    assert forall|k: int| 0 <= k < ls.len() implies is_line(#[trigger] ls[k]) by {
        if k >= 4 {
            assert(ls[k] == record_text(orbits[k - 4], lut, q));
            lemma_record_of_text(orbits[k - 4], lut, q);
        } else {
            assert(ls[k] == head[k]);
        }
    }
    lemma_lines_of_unlines(ls);
    assert(ls[2] == head[2]);
    lemma_header_of_text(d, q);
    assert forall|j: int| 0 <= j < orbits.len() implies #[trigger] ls[4 + j] == record_text(
        orbits[j],
        lut,
        q,
    ) by {}
    lemma_parse_records(ls, orbits, lut, q, 4);
    assert(orbits.take(0) =~= Seq::<IsoPolynomial>::empty());
}

} // verus!
