use plane_curves::algebraic_types::{IsoPolynomial, PolynomialResult};
use plane_curves::polynomials::{ParseError, Polynomial};
use plane_curves::records::{
    read_header, read_orbit_list, read_record, split_lines, write_orbit_list, write_record, write_results,
};
use plane_curves::smoothness::{add_counts, make_chunks, max_field_ext, CustomChunk};

fn chars(s: &str) -> Vec<char> {
    s.chars().collect()
}

const LIST: &str = "# comment\n# Homogeneous Degree | Field Order\n2 | 2\n# legend\n1_002 | 7\n1_011 | 21\n1_002 1_011 1_020 | 7\n1_020 1_101 | 28\n";

#[test]
fn list_of_classes_is_read() {
    let lut = Polynomial::generate_default_lut(2);
    let orbits = read_orbit_list(LIST, 2, 2, &lut).unwrap();
    assert_eq!(
        orbits,
        vec![
            IsoPolynomial { representative: Polynomial::new(0b000001), size: 7 },
            IsoPolynomial { representative: Polynomial::new(0b000010), size: 21 },
            IsoPolynomial { representative: Polynomial::new(0b000111), size: 7 },
            IsoPolynomial { representative: Polynomial::new(0b001100), size: 28 }
        ]
    );
}

#[test]
fn list_of_classes_with_carriage_returns_and_without_a_last_line_feed() {
    let lut = Polynomial::generate_default_lut(2);
    let text = "a\r\nb\r\n 2|2 \r\nc\r\n1_002|7\r\n1_011 | 21 and more | 5";
    let orbits = read_orbit_list(text, 2, 2, &lut).unwrap();
    assert_eq!(
        orbits,
        vec![
            IsoPolynomial { representative: Polynomial::new(0b000001), size: 7 },
            IsoPolynomial { representative: Polynomial::new(0b000010), size: 21 }
        ]
    );
    assert_eq!(read_orbit_list("\n\n2|3", 2, 3, &lut), Ok(vec![]));
    assert_eq!(read_orbit_list("\n\n2|3\n", 2, 3, &lut), Ok(vec![]));
    assert_eq!(read_orbit_list("\n\n2|3\n\n", 2, 3, &lut), Ok(vec![]));
}

#[test]
fn lists_of_classes_that_are_refused() {
    let lut = Polynomial::generate_default_lut(2);
    assert_eq!(read_orbit_list("", 2, 2, &lut), Err(ParseError::MissingHeader));
    assert_eq!(read_orbit_list("# a\n# b\n", 2, 2, &lut), Err(ParseError::MissingHeader));
    assert_eq!(read_orbit_list("# a\n# b\n2 2\n", 2, 2, &lut), Err(ParseError::MalformedHeader));
    assert_eq!(read_orbit_list("# a\n# b\n | 2\n", 2, 2, &lut), Err(ParseError::MalformedHeader));
    assert_eq!(read_orbit_list("# a\n# b\ntwo | 2\n", 2, 2, &lut), Err(ParseError::MalformedHeader));
    assert_eq!(read_orbit_list("# a\n# b\n2 | 99999999999\n", 2, 2, &lut), Err(ParseError::MalformedHeader));
    assert_eq!(read_orbit_list(LIST, 3, 2, &lut), Err(ParseError::DegreeMismatch));
    assert_eq!(read_orbit_list(LIST, 2, 3, &lut), Err(ParseError::FieldOrderMismatch));
    assert_eq!(read_orbit_list(LIST, 3, 3, &lut), Err(ParseError::DegreeMismatch));
    let head = "# a\n# b\n2 | 2\n# c\n";
    assert_eq!(read_orbit_list(&format!("{head}1_002 7\n"), 2, 2, &lut), Err(ParseError::MalformedRecord));
    assert_eq!(read_orbit_list(&format!("{head}1_002 | \n"), 2, 2, &lut), Err(ParseError::MalformedRecord));
    assert_eq!(read_orbit_list(&format!("{head}1_002 | -7\n"), 2, 2, &lut), Err(ParseError::MalformedRecord));
    assert_eq!(read_orbit_list(&format!("{head}1_002 | 4294967296\n"), 2, 2, &lut), Err(ParseError::MalformedRecord));
    assert_eq!(read_orbit_list(&format!("{head}1_002 | 7\n\n"), 2, 2, &lut), Err(ParseError::MalformedRecord));
    assert_eq!(read_orbit_list(&format!("{head}1_02 | 7\n"), 2, 2, &lut), Err(ParseError::MalformedTerm));
    assert_eq!(read_orbit_list(&format!("{head}2_002 | 7\n"), 2, 2, &lut), Err(ParseError::InvalidConstant));
    assert_eq!(read_orbit_list(&format!("{head}1_002 1_002 | 7\n"), 2, 2, &lut), Err(ParseError::RepeatedTerm));
    // a size that is no number counts before a form that is none
    assert_eq!(read_orbit_list(&format!("{head}1_02 | x\n"), 2, 2, &lut), Err(ParseError::MalformedRecord));
}

#[test]
fn record_and_header_lines() {
    let lut = Polynomial::generate_default_lut(2);
    assert_eq!(
        read_record(&chars("1_020 1_101 | 28"), &lut, 2),
        Ok(IsoPolynomial { representative: Polynomial::new(0b001100), size: 28 })
    );
    assert_eq!(
        read_record(&chars(" | 0004294967295"), &lut, 3),
        Ok(IsoPolynomial { representative: Polynomial::new(0), size: 4294967295 })
    );
    assert_eq!(read_record(&chars("|"), &lut, 3), Err(ParseError::MalformedRecord));
    assert_eq!(read_header(&chars("5 | 3")), Ok((5, 3)));
    assert_eq!(read_header(&chars("\t12  rest|\u{c}4294967295 | 7")), Ok((12, 4294967295)));
    assert_eq!(read_header(&chars("5 | 4294967296")), Err(ParseError::MalformedHeader));
    assert_eq!(read_header(&chars("5")), Err(ParseError::MalformedHeader));
}

#[test]
fn lines_of_a_text() {
    let lines: Vec<String> = split_lines(&chars("a\nb\r\n\nc\r")).iter().map(|l| l.iter().collect()).collect();
    assert_eq!(lines, vec!["a", "b", "", "c\r"]);
    let text = "one\r\ntwo\n\n\rthree\n";
    let lines: Vec<String> = split_lines(&chars(text)).iter().map(|l| l.iter().collect()).collect();
    assert_eq!(lines, text.lines().collect::<Vec<&str>>());
    assert!(split_lines(&chars("")).is_empty());
    assert_eq!(split_lines(&chars("\n")), vec![Vec::<char>::new()]);
}

#[test]
fn list_of_classes_is_read_back_as_it_was_written() {
    for (degree, q) in [(2u8, 2u8), (3, 3)] {
        let lut = Polynomial::generate_default_lut(degree);
        let width = if q == 2 { 1 } else { 2 };
        let orbits: Vec<IsoPolynomial> = (0..40u64)
            .map(|k| {
                let mut bits = 0;
                for j in 0..lut.len() {
                    bits |= ((k * 7 + j as u64 * (k + 1)) % q as u64) << (width * j);
                }
                IsoPolynomial { representative: Polynomial::new(bits), size: (k * k * 100_000_007 % 4_294_967_296) as u32 }
            })
            .collect();
        let text = write_orbit_list(&orbits, degree, q, &lut);
        assert_eq!(read_orbit_list(&text, degree, q, &lut), Ok(orbits));
    }
    let lut = Polynomial::generate_default_lut(2);
    assert_eq!(read_orbit_list(&write_orbit_list(&vec![], 2, 2, &lut), 2, 2, &lut), Ok(vec![]));
}

#[test]
fn written_list_of_classes() {
    let lut = Polynomial::generate_default_lut(2);
    let orbits = vec![
        IsoPolynomial { representative: Polynomial::new(0b000001), size: 7 },
        IsoPolynomial { representative: Polynomial::new(0b001100), size: 28 },
    ];
    assert_eq!(
        write_orbit_list(&orbits, 2, 2, &lut),
        "# Classes of ternary forms under linear changes of the variables\n# Homogeneous Degree | Field Order\n2 | 2\n# Constant_(xpower)(ypower)(zpower) ... | Isomorphism Class size\n1_002 | 7\n1_020 1_101 | 28\n"
    );
    assert_eq!(write_record(&orbits[1], &lut, 2), "1_020 1_101 | 28");
}

#[test]
fn written_records_of_the_smooth_classes() {
    let lut = Polynomial::generate_default_lut(2);
    let iso = IsoPolynomial { representative: Polynomial::new(0b001100), size: 28 };
    let other = IsoPolynomial { representative: Polynomial::new(0b000001), size: 7 };
    let results = vec![PolynomialResult::new(iso, vec![3, 5]), PolynomialResult::new(other, vec![3, 9])];
    assert_eq!(
        write_results(&results, &lut, 2),
        "# Smooth polynomial representative (CONSTANT_(xpower)(ypower)(zpower)) | isomorphism class | points defined over k_i\n1_020 1_101 | 28 | [3, 5]\n1_002 | 7 | [3, 9]"
    );
    assert_eq!(
        write_results(&vec![], &lut, 2),
        "# Smooth polynomial representative (CONSTANT_(xpower)(ypower)(zpower)) | isomorphism class | points defined over k_i\n"
    );
}

#[test]
fn chunks_cover_the_list() {
    assert_eq!(
        make_chunks(10, 4),
        vec![CustomChunk { start: 0, end: 4 }, CustomChunk { start: 4, end: 8 }, CustomChunk { start: 8, end: 10 }]
    );
    assert_eq!(make_chunks(8, 4), vec![CustomChunk { start: 0, end: 4 }, CustomChunk { start: 4, end: 8 }]);
    assert_eq!(make_chunks(3, 1024), vec![CustomChunk { start: 0, end: 3 }]);
    assert!(make_chunks(0, 5).is_empty());
    assert_eq!(
        make_chunks(usize::MAX, usize::MAX - 1),
        vec![CustomChunk { start: 0, end: usize::MAX - 1 }, CustomChunk { start: usize::MAX - 1, end: usize::MAX }]
    );
}

#[test]
fn counts_of_the_chunks_are_added() {
    let mut smooth = vec![1, 2, 3];
    add_counts(&mut smooth, &vec![10, 0, 5]);
    assert_eq!(smooth, vec![11, 2, 8]);
    let mut none: Vec<usize> = vec![];
    add_counts(&mut none, &vec![]);
    assert!(none.is_empty());
}

#[test]
fn number_of_fields_for_a_degree() {
    let levels: Vec<usize> = (1u8..=7).map(max_field_ext).collect();
    assert_eq!(levels, vec![1, 1, 2, 3, 4, 6, 10]);
}
