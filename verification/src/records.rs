//! The text of a list of classes of forms, which the search for singular
//! points reads, and the text of the records that it writes.
use vstd::prelude::*;
use crate::algebraic_types::{IsoPolynomial, PolynomialResult};
use crate::polynomials::{max_width, parse_from, ParseError, Polynomial, Term};
use crate::text::{all_digits, chars_of, decimal, decimal_value, digit_of, is_digit, push_decimal};

verus! {

/// Whether `c` is white space of the ASCII character set.
pub open spec fn is_ascii_space(c: char) -> bool {
    c == ' ' || c == '\t' || c == '\n' || c == '\x0C' || c == '\r'
}

/// The first place at or after `i` that holds the character `c`, or the
/// length of `s` where there is none.
pub open spec fn find(s: Seq<char>, c: char, i: int) -> int
    decreases s.len() - i,
{
    if i < 0 || i >= s.len() || s[i] == c {
        i
    } else {
        find(s, c, i + 1)
    }
}

/// The first place at or after `i` that holds no white space, or the length
/// of `s`.
pub open spec fn word_start(s: Seq<char>, i: int) -> int
    decreases s.len() - i,
{
    if i < 0 || i >= s.len() || !is_ascii_space(s[i]) {
        i
    } else {
        word_start(s, i + 1)
    }
}

/// The first place at or after `i` that holds white space, or the length of
/// `s`.
pub open spec fn word_end(s: Seq<char>, i: int) -> int
    decreases s.len() - i,
{
    if i < 0 || i >= s.len() || is_ascii_space(s[i]) {
        i
    } else {
        word_end(s, i + 1)
    }
}

/// The first run of characters other than white space in `s`; empty where `s`
/// holds nothing but white space.
pub open spec fn first_word(s: Seq<char>) -> Seq<char> {
    let a = word_start(s, 0);
    s.subrange(a, word_end(s, a))
}

/// The number up to `max` that the decimal numeral `w` stands for.
pub open spec fn number_of(w: Seq<char>, max: nat) -> Option<nat> {
    if w.len() >= 1 && all_digits(w) && decimal_value(w) <= max {
        Some(decimal_value(w))
    } else {
        None
    }
}

/// The part of `s` between the first bar and the second, or the end.
pub open spec fn second_field(s: Seq<char>) -> Seq<char> {
    let bar = find(s, '|', 0);
    s.subrange(bar + 1, find(s, '|', bar + 1))
}

/// The class that a line of a list of classes stands for: the text of a form,
/// a bar, and the size as the first word after the bar.
pub open spec fn parse_record(line: Seq<char>, lut: Seq<Term>, q: nat) -> Result<
    IsoPolynomial,
    ParseError,
> {
    let bar = find(line, '|', 0);
    if bar >= line.len() {
        Err(ParseError::MalformedRecord)
    } else {
        match number_of(first_word(second_field(line)), u32::MAX as nat) {
            None => Err(ParseError::MalformedRecord),
            Some(size) => match parse_from(line.subrange(0, bar), 0, 0, lut, q) {
                Err(e) => Err(e),
                Ok(bits) => Ok(
                    IsoPolynomial { representative: Polynomial { bits }, size: size as u32 },
                ),
            },
        }
    }
}

/// The degree and the field order that the third line of a list of classes
/// names: the first word before the bar and the first word after it.
pub open spec fn parse_header(line: Seq<char>) -> Result<(nat, nat), ParseError> {
    let bar = find(line, '|', 0);
    if bar >= line.len() {
        Err(ParseError::MalformedHeader)
    } else {
        match (
            number_of(first_word(line.subrange(0, bar)), u32::MAX as nat),
            number_of(first_word(second_field(line)), u32::MAX as nat),
        ) {
            (Some(d), Some(q)) => Ok((d, q)),
            _ => Err(ParseError::MalformedHeader),
        }
    }
}

/// The line without its last character where that is a carriage return and
/// a line feed followed the line.
pub open spec fn strip_return(line: Seq<char>, fed: bool) -> Seq<char> {
    if fed && line.len() > 0 && line.last() == '\r' {
        line.drop_last()
    } else {
        line
    }
}

/// The lines of `s` from place `i` on: the runs between line feeds, each
/// without a carriage return before its line feed.
pub open spec fn lines_from(s: Seq<char>, i: int) -> Seq<Seq<char>>
    decreases s.len() - i,
    via lines_from_decreases
{
    if i < 0 || i >= s.len() {
        Seq::empty()
    } else {
        let e = find(s, '\n', i);
        let line = strip_return(s.subrange(i, e), e < s.len());
        if e >= s.len() {
            seq![line]
        } else {
            seq![line] + lines_from(s, e + 1)
        }
    }
}

#[via_fn]
proof fn lines_from_decreases(s: Seq<char>, i: int) {
    if 0 <= i < s.len() {
        lemma_find(s, '\n', i);
    }
}

/// The place that `find` gives lies between the start and the end, holds the
/// character where it lies before the end, and no place before it does.
pub proof fn lemma_find(s: Seq<char>, c: char, i: int)
    requires
        0 <= i <= s.len(),
    ensures
        i <= find(s, c, i) <= s.len(),
        find(s, c, i) < s.len() ==> s[find(s, c, i)] == c,
        forall|k: int| i <= k < find(s, c, i) ==> #[trigger] s[k] != c,
    decreases s.len() - i,
{
    if i < s.len() && s[i] != c {
        lemma_find(s, c, i + 1);
    }
}

/// The classes that the lines of `ls` from line `k` on stand for, after the
/// classes `done`.
pub open spec fn parse_records(
    ls: Seq<Seq<char>>,
    k: int,
    lut: Seq<Term>,
    q: nat,
    done: Seq<IsoPolynomial>,
) -> Result<Seq<IsoPolynomial>, ParseError>
    decreases ls.len() - k,
{
    if k < 0 || k >= ls.len() {
        Ok(done)
    } else {
        match parse_record(ls[k], lut, q) {
            Err(e) => Err(e),
            Ok(iso) => parse_records(ls, k + 1, lut, q, done.push(iso)),
        }
    }
}

/// The classes that the text `s` of a list of classes stands for: the third
/// line names the degree `d` and the field order `q`, and every line after the
/// fourth is a record.
pub open spec fn parse_orbit_list(s: Seq<char>, d: nat, q: nat, lut: Seq<Term>) -> Result<
    Seq<IsoPolynomial>,
    ParseError,
> {
    let ls = lines_from(s, 0);
    if ls.len() < 3 {
        Err(ParseError::MissingHeader)
    } else {
        match parse_header(ls[2]) {
            Err(e) => Err(e),
            Ok((degree, order)) => if degree != d {
                Err(ParseError::DegreeMismatch)
            } else if order != q {
                Err(ParseError::FieldOrderMismatch)
            } else {
                parse_records(ls, 4, lut, q, Seq::empty())
            },
        }
    }
}

/// The first place at or after `from` that holds `c`.
fn find_char(chars: &Vec<char>, c: char, from: usize) -> (i: usize)
    requires
        from <= chars.len(),
    ensures
        i == find(chars@, c, from as int),
        from <= i <= chars.len(),
{
    let mut i = from;
    while i < chars.len() && chars[i] != c
        invariant
            from <= i <= chars.len(),
            find(chars@, c, i as int) == find(chars@, c, from as int),
        decreases chars.len() - i,
    {
        i += 1;
    }
    i
}

/// The characters from place `a` up to place `b`.
fn subvec(chars: &Vec<char>, a: usize, b: usize) -> (r: Vec<char>)
    requires
        a <= b <= chars.len(),
    ensures
        r@ == chars@.subrange(a as int, b as int),
{
    let mut r: Vec<char> = Vec::new();
    let mut i = a;
    while i < b
        invariant
            a <= i <= b <= chars.len(),
            r@ == chars@.subrange(a as int, i as int),
        decreases b - i,
    {
        r.push(chars[i]);
        proof {
            assert(r@ =~= chars@.subrange(a as int, i + 1));
        }
        i += 1;
    }
    proof {
        assert(r@ =~= chars@.subrange(a as int, b as int));
    }
    r
}

fn is_ascii_space_char(c: char) -> (r: bool)
    ensures
        r == is_ascii_space(c),
{
    c == ' ' || c == '\t' || c == '\n' || c == '\x0C' || c == '\r'
}

/// The value of the digits of a prefix is at most that of the whole.
proof fn lemma_decimal_value_prefix(s: Seq<char>, k: int)
    requires
        0 <= k <= s.len(),
    ensures
        decimal_value(s.take(k)) <= decimal_value(s),
    decreases s.len() - k,
{
    if k < s.len() {
        lemma_decimal_value_prefix(s.drop_last(), k);
        assert(s.drop_last().take(k) =~= s.take(k));
    } else {
        assert(s.take(k) =~= s);
    }
}

/// The number up to `max` that the first word of `chars` stands for.
fn read_number(chars: &Vec<char>, max: u64) -> (r: Option<u64>)
    requires
        max <= u64::MAX / 16,
    ensures
        match number_of(first_word(chars@), max as nat) {
            Some(n) => r == Some(n as u64),
            None => r.is_none(),
        },
{
    let ghost s = chars@;
    let mut a: usize = 0;
    while a < chars.len() && is_ascii_space_char(chars[a])
        invariant
            s == chars@,
            a <= chars.len(),
            word_start(s, a as int) == word_start(s, 0),
        decreases chars.len() - a,
    {
        a += 1;
    }
    let mut b: usize = a;
    while b < chars.len() && !is_ascii_space_char(chars[b])
        invariant
            s == chars@,
            a <= b <= chars.len(),
            word_end(s, b as int) == word_end(s, a as int),
        decreases chars.len() - b,
    {
        b += 1;
    }
    let ghost w = s.subrange(a as int, b as int);
    assert(w == first_word(s));
    if a == b {
        return None;
    }
    let mut value: u64 = 0;
    let mut i: usize = a;
    while i < b
        invariant
            s == chars@,
            w == s.subrange(a as int, b as int),
            w == first_word(chars@),
            a <= i <= b <= chars.len(),
            max <= u64::MAX / 16,
            value <= max,
            all_digits(w.take(i - a)),
            value == decimal_value(w.take(i - a)),
        decreases b - i,
    {
        let ghost done = w.take(i - a);
        let ghost next = w.take(i - a + 1);
        proof {
            assert(next.drop_last() =~= done);
            assert(next.last() == chars@[i as int]);
            lemma_decimal_value_prefix(w, i - a + 1);
        }
        match digit_of(chars[i]) {
            None => {
                proof {
                    assert(!is_digit(w[i - a]));
                    assert(!all_digits(w));
                }
                return None;
            },
            Some(d) => {
                value = value * 10 + d as u64;
                proof {
                    assert(value == decimal_value(next));
                }
                if value > max {
                    return None;
                }
                proof {
                    assert forall|k: int| 0 <= k < next.len() implies is_digit(#[trigger] next[k]) by {
                        if k < done.len() {
                            assert(next[k] == done[k]);
                        }
                    }
                }
            },
        }
        i += 1;
    }
    proof {
        assert(w.take(b - a) =~= w);
    }
    Some(value)
}

/// Reads a class from the characters of a line of a list of classes.
pub fn read_record(line: &Vec<char>, lut: &Vec<Term>, field_order: u8) -> (r: Result<
    IsoPolynomial,
    ParseError,
>)
    requires
        field_order == 2 || field_order == 3,
        lut.len() <= max_width(field_order as nat),
    ensures
        r == parse_record(line@, lut@, field_order as nat),
{
    let bar = find_char(line, '|', 0);
    if bar >= line.len() {
        return Err(ParseError::MalformedRecord);
    }
    let next = find_char(line, '|', bar + 1);
    let field = subvec(line, bar + 1, next);
    match read_number(&field, 0xFFFF_FFFF) {
        None => Err(ParseError::MalformedRecord),
        Some(size) => {
            let form = subvec(line, 0, bar);
            match Polynomial::from_chars(&form, lut, field_order) {
                Err(e) => Err(e),
                Ok(representative) => Ok(IsoPolynomial { representative, size: size as u32 }),
            }
        },
    }
}

/// Reads the degree and the field order from the characters of the third line
/// of a list of classes.
pub fn read_header(line: &Vec<char>) -> (r: Result<(u64, u64), ParseError>)
    ensures
        match parse_header(line@) {
            Ok((d, q)) => r == Ok::<(u64, u64), ParseError>((d as u64, q as u64)) && d <= u32::MAX
                && q <= u32::MAX,
            Err(e) => r == Err::<(u64, u64), ParseError>(e),
        },
{
    let bar = find_char(line, '|', 0);
    if bar >= line.len() {
        return Err(ParseError::MalformedHeader);
    }
    let next = find_char(line, '|', bar + 1);
    let first = subvec(line, 0, bar);
    let second = subvec(line, bar + 1, next);
    match (read_number(&first, 0xFFFF_FFFF), read_number(&second, 0xFFFF_FFFF)) {
        (Some(d), Some(q)) => Ok((d, q)),
        _ => Err(ParseError::MalformedHeader),
    }
}

/// The texts of the lines.
pub open spec fn views(ls: Seq<Vec<char>>) -> Seq<Seq<char>> {
    Seq::new(ls.len(), |i: int| ls[i]@)
}

/// The lines of a text: the runs between line feeds, each without a
/// carriage return before its line feed.
pub fn split_lines(chars: &Vec<char>) -> (lines: Vec<Vec<char>>)
    ensures
        views(lines@) == lines_from(chars@, 0),
{
    let ghost s = chars@;
    let mut lines: Vec<Vec<char>> = Vec::new();
    let mut i: usize = 0;
    proof {
        assert(views(lines@) + lines_from(s, 0) =~= lines_from(s, 0));
    }
    while i < chars.len()
        invariant_except_break
            views(lines@) + lines_from(s, i as int) == lines_from(s, 0),
        invariant
            s == chars@,
            i <= chars.len(),
        ensures
            views(lines@) == lines_from(s, 0),
        decreases chars.len() - i,
    {
        let e = find_char(chars, '\n', i);
        let mut line = subvec(chars, i, e);
        if e < chars.len() && line.len() > 0 && line[line.len() - 1] == '\r' {
            line.pop();
        }
        let ghost before = views(lines@);
        let ghost text = line@;
        lines.push(line);
        proof {
            assert(text =~= strip_return(s.subrange(i as int, e as int), e < s.len()));
            assert(views(lines@) =~= before + seq![text]);
        }
        if e >= chars.len() {
            proof {
                assert(views(lines@) =~= lines_from(s, 0));
            }
            break ;
        }
        proof {
            assert(views(lines@) + lines_from(s, e + 1) =~= before + lines_from(s, i as int));
        }
        i = e + 1;
        proof {
            if i >= chars.len() {
                assert(views(lines@) + lines_from(s, i as int) =~= views(lines@));
            }
        }
    }
    lines
}

/// Reads a list of classes of forms of the given degree over the prime field
/// of `field_order` elements: two lines that are passed over, a line with the
/// degree and the field order, one more line that is passed over, and a
/// record on every further line.
pub fn read_orbit_list(input: &str, degree: u8, field_order: u8, lut: &Vec<Term>) -> (r: Result<
    Vec<IsoPolynomial>,
    ParseError,
>)
    requires
        field_order == 2 || field_order == 3,
        lut.len() <= max_width(field_order as nat),
    ensures
        match parse_orbit_list(input@, degree as nat, field_order as nat, lut@) {
            Ok(orbits) => r.is_ok() && r.unwrap()@ == orbits,
            Err(e) => r == Err::<Vec<IsoPolynomial>, ParseError>(e),
        },
{
    let chars = chars_of(input);
    let lines = split_lines(&chars);
    let ghost ls = views(lines@);
    if lines.len() < 3 {
        return Err(ParseError::MissingHeader);
    }
    assert(ls[2] == lines[2]@);
    match read_header(&lines[2]) {
        Err(e) => {
            return Err(e);
        },
        Ok((d, q)) => {
            if d != degree as u64 {
                return Err(ParseError::DegreeMismatch);
            }
            if q != field_order as u64 {
                return Err(ParseError::FieldOrderMismatch);
            }
        },
    }
    let mut orbits: Vec<IsoPolynomial> = Vec::new();
    let mut k: usize = 4;
    if lines.len() < 4 {
        return Ok(orbits);
    }
    while k < lines.len()
        invariant
            ls == views(lines@),
            field_order == 2 || field_order == 3,
            lut.len() <= max_width(field_order as nat),
            4 <= k <= lines.len(),
            parse_records(ls, k as int, lut@, field_order as nat, orbits@) == parse_records(
                ls,
                4,
                lut@,
                field_order as nat,
                Seq::empty(),
            ),
            parse_orbit_list(input@, degree as nat, field_order as nat, lut@) == parse_records(
                ls,
                4,
                lut@,
                field_order as nat,
                Seq::empty(),
            ),
        decreases lines.len() - k,
    {
        assert(ls[k as int] == lines[k as int]@);
        match read_record(&lines[k], lut, field_order) {
            Err(e) => {
                return Err(e);
            },
            Ok(iso) => {
                orbits.push(iso);
            },
        }
        k += 1;
    }
    Ok(orbits)
}

/// The line of a class in a list of classes: the form, a bar and the size.
pub open spec fn record_text(iso: IsoPolynomial, lut: Seq<Term>, q: nat) -> Seq<char> {
    iso.representative.spec_str(lut, q) + seq![' ', '|', ' '] + decimal(iso.size as nat)
}

/// The text of the lines, each with a line feed at its end.
pub open spec fn unlines(ls: Seq<Seq<char>>) -> Seq<char>
    decreases ls.len(),
{
    if ls.len() == 0 {
        Seq::empty()
    } else {
        unlines(ls.drop_last()) + ls.last() + seq!['\n']
    }
}

/// The four lines that head a list of classes of forms of degree `d` over the
/// prime field of `q` elements.
pub open spec fn header_lines(d: nat, q: nat) -> Seq<Seq<char>> {
    seq![
        "# Classes of ternary forms under linear changes of the variables"@,
        "# Homogeneous Degree | Field Order"@,
        decimal(d) + seq![' ', '|', ' '] + decimal(q),
        "# Constant_(xpower)(ypower)(zpower) ... | Isomorphism Class size"@,
    ]
}

/// The lines of the classes.
pub open spec fn record_lines(orbits: Seq<IsoPolynomial>, lut: Seq<Term>, q: nat) -> Seq<Seq<char>> {
    Seq::new(orbits.len(), |k: int| record_text(orbits[k], lut, q))
}

/// The text of a list of classes: the head, and a line for every class.
pub open spec fn orbit_list_text(orbits: Seq<IsoPolynomial>, d: nat, q: nat, lut: Seq<Term>) -> Seq<
    char,
> {
    unlines(header_lines(d, q) + record_lines(orbits, lut, q))
}

/// Writes the line of a class in a list of classes.
pub fn write_record(iso: &IsoPolynomial, lut: &Vec<Term>, field_order: u8) -> (s: String)
    ensures
        s@ == record_text(*iso, lut@, field_order as nat),
{
    proof {
        reveal_strlit(" | ");
    }
    let mut s = iso.representative.str(lut, field_order);
    s.append(" | ");
    push_decimal(&mut s, iso.size as u64);
    proof {
        assert(s@ =~= record_text(*iso, lut@, field_order as nat));
    }
    s
}

/// Appends a line and a line feed to the lines written so far.
fn push_line(out: &mut String, Ghost(before): Ghost<Seq<Seq<char>>>, line: &str)
    requires
        old(out)@ == unlines(before),
    ensures
        final(out)@ == unlines(before.push(line@)),
{
    out.append(line);
    out.append("\n");
    proof {
        reveal_strlit("\n");
        assert(before.push(line@).drop_last() =~= before);
        assert(final(out)@ =~= unlines(before) + line@ + seq!['\n']);
    }
}

/// Writes a list of classes of forms of the given degree over the prime field
/// of `field_order` elements, in the form that `read_orbit_list` reads.
pub fn write_orbit_list(orbits: &Vec<IsoPolynomial>, degree: u8, field_order: u8, lut: &Vec<Term>) -> (s: String)
    ensures
        s@ == orbit_list_text(orbits@, degree as nat, field_order as nat, lut@),
{
    let ghost d = degree as nat;
    let ghost q = field_order as nat;
    let ghost head = header_lines(d, q);
    let mut s = String::new();
    let mut third = String::new();
    push_decimal(&mut third, degree as u64);
    third.append(" | ");
    push_decimal(&mut third, field_order as u64);
    proof {
        reveal_strlit(" | ");
        assert(third@ =~= head[2]);
        assert(s@ =~= unlines(Seq::empty()));
    }
    let ghost none = Seq::<Seq<char>>::empty();
    let ghost one = none.push(head[0]);
    let ghost two = one.push(head[1]);
    let ghost three = two.push(head[2]);
    push_line(
        &mut s,
        Ghost(none),
        "# Classes of ternary forms under linear changes of the variables",
    );
    push_line(&mut s, Ghost(one), "# Homogeneous Degree | Field Order");
    push_line(&mut s, Ghost(two), third.as_str());
    push_line(
        &mut s,
        Ghost(three),
        "# Constant_(xpower)(ypower)(zpower) ... | Isomorphism Class size",
    );
    proof {
        assert(three.push(head[3]) =~= head);
        assert(head + record_lines(orbits@.take(0), lut@, q) =~= head);
    }
    let mut k: usize = 0;
    while k < orbits.len()
        invariant
            k <= orbits.len(),
            head == header_lines(d, q),
            q == field_order,
            s@ == unlines(head + record_lines(orbits@.take(k as int), lut@, q)),
        decreases orbits.len() - k,
    {
        let line = write_record(&orbits[k], lut, field_order);
        let ghost before = head + record_lines(orbits@.take(k as int), lut@, q);
        push_line(&mut s, Ghost(before), line.as_str());
        proof {
            assert(before.push(line@) =~= head + record_lines(orbits@.take(k + 1), lut@, q));
        }
        k += 1;
    }
    proof {
        assert(orbits@.take(k as int) =~= orbits@);
    }
    s
}

/// The lines of the first `n` records, with a line feed between neighbours.
pub open spec fn results_lines(
    results: Seq<PolynomialResult>,
    normal: Seq<Term>,
    q: nat,
    n: nat,
) -> Seq<char>
    decreases n,
{
    if n == 0 {
        Seq::empty()
    } else if n == 1 {
        results[0].spec_to_string(normal, q)
    } else {
        results_lines(results, normal, q, (n - 1) as nat) + seq!['\n'] + results[n
            - 1].spec_to_string(normal, q)
    }
}

/// The text of the records of the classes with smooth curves: a line that
/// names the columns, then a line for every record.
pub open spec fn results_text(results: Seq<PolynomialResult>, normal: Seq<Term>, q: nat) -> Seq<
    char,
> {
    "# Smooth polynomial representative (CONSTANT_(xpower)(ypower)(zpower)) | isomorphism class | points defined over k_i\n"@
        + results_lines(results, normal, q, results.len())
}

/// Writes the records of the classes with smooth curves.
pub fn write_results(results: &Vec<PolynomialResult>, normal: &Vec<Term>, field_order: u8) -> (s: String)
    ensures
        s@ == results_text(results@, normal@, field_order as nat),
{
    let mut s = String::new();
    s.append(
        "# Smooth polynomial representative (CONSTANT_(xpower)(ypower)(zpower)) | isomorphism class | points defined over k_i\n",
    );
    let ghost head = s@;
    let mut k: usize = 0;
    proof {
        assert(s@ =~= head + results_lines(results@, normal@, field_order as nat, 0));
    }
    while k < results.len()
        invariant
            k <= results.len(),
            s@ == head + results_lines(results@, normal@, field_order as nat, k as nat),
        decreases results.len() - k,
    {
        if k > 0 {
            s.append("\n");
        }
        let line = results[k].to_string(normal, field_order);
        s.append(line.as_str());
        proof {
            reveal_strlit("\n");
            assert(s@ =~= head + results_lines(results@, normal@, field_order as nat, (k + 1) as nat));
        }
        k += 1;
    }
    s
}

} // verus!
