use plane_curves::algebraic_types::{IsoPolynomial, Lookup, PolynomialResult};
use plane_curves::field_extensions::{F2_i, F3_i, FieldTraits};
use plane_curves::polynomials::{transpose, ParseError, Polynomial, Singularity, Term};

fn exponents(lut: &Vec<Term>) -> Vec<String> {
    lut.iter().map(|t| t.str()).collect()
}

#[test]
fn basis_is_ordered_by_the_exponents_of_x_and_then_of_y() {
    let lut = Polynomial::generate_default_lut(2);
    assert_eq!(exponents(&lut), vec!["002", "011", "020", "101", "110", "200"]);
    assert!(lut.iter().all(|t| t.constant == 1));
    assert_eq!(Polynomial::generate_default_lut(0), vec![Term { x_deg: 0, y_deg: 0, z_deg: 0, constant: 1 }]);
}

#[test]
fn basis_has_the_number_of_monomials_of_its_degree() {
    for d in 0u8..=12 {
        let lut = Polynomial::generate_default_lut(d);
        assert_eq!(lut.len(), (d as usize + 2) * (d as usize + 1) / 2);
        assert!(lut.iter().all(|t| t.x_deg + t.y_deg + t.z_deg == d && t.constant == 1));
    }
    assert_eq!(Polynomial::generate_default_lut(255).len(), 32896);
}

#[test]
fn basis_is_the_same_every_time() {
    assert_eq!(Polynomial::generate_default_lut(5), Polynomial::generate_default_lut(5));
}

#[test]
fn derivatives_of_a_term() {
    let t = Term { x_deg: 2, y_deg: 0, z_deg: 1, constant: 1 };
    let (x, y, z) = t.generate_derivatives(3);
    assert_eq!(x, Term { x_deg: 1, y_deg: 0, z_deg: 1, constant: 2 });
    assert_eq!(y, Term::zero());
    assert_eq!(z, Term { x_deg: 2, y_deg: 0, z_deg: 0, constant: 1 });
    let (x, _, _) = t.generate_derivatives(2);
    assert_eq!(x, Term { x_deg: 1, y_deg: 0, z_deg: 1, constant: 0 });
    let big = Term { x_deg: 255, y_deg: 0, z_deg: 0, constant: 255 };
    assert_eq!(big.generate_derivatives(7).0, Term { x_deg: 254, y_deg: 0, z_deg: 0, constant: 2 });
}

#[test]
fn derivatives_of_the_basis() {
    let lut = Polynomial::generate_default_lut(3);
    let (x, y, z) = Polynomial::generate_derative_luts(&lut, 3);
    assert_eq!(x.len(), 10);
    assert_eq!(y.len(), 10);
    assert_eq!(z.len(), 10);
    for j in 0..10 {
        let (dx, dy, dz) = lut[j].generate_derivatives(3);
        assert_eq!((x[j], y[j], z[j]), (dx, dy, dz));
    }
    // the derivative of x^3 by x vanishes over the field of three elements
    assert_eq!(x[9], Term { x_deg: 2, y_deg: 0, z_deg: 0, constant: 0 });
    assert_eq!(z[0], Term { x_deg: 0, y_deg: 0, z_deg: 2, constant: 0 });
    assert_eq!(z[1], Term { x_deg: 0, y_deg: 1, z_deg: 1, constant: 2 });
}

#[test]
fn terms_with_the_same_exponents_are_similar() {
    let a = Term { x_deg: 1, y_deg: 2, z_deg: 0, constant: 1 };
    assert!(a.is_similar(Term { x_deg: 1, y_deg: 2, z_deg: 0, constant: 2 }));
    assert!(!a.is_similar(Term { x_deg: 2, y_deg: 1, z_deg: 0, constant: 1 }));
}

#[test]
fn value_of_a_term() {
    let xy = Term { x_deg: 1, y_deg: 1, z_deg: 0, constant: 1 };
    let p = (F2_i::<2>::new(2), F2_i::<2>::new(3), F2_i::<2>::new(1));
    assert_eq!(xy.evaluate_f2(p.0, p.1, p.2).element, 1);
    let x2z = Term { x_deg: 2, y_deg: 0, z_deg: 1, constant: 1 };
    assert_eq!(x2z.evaluate_f2(F2_i::<2>::new(3), F2_i::<2>::new(1), F2_i::<2>::new(2)).element, 3);
    assert_eq!(Term::zero().evaluate_f2(p.0, p.1, p.2).element, 0);
    // twice x at x = 2 is 1 over the field of three elements
    let two_x = Term { x_deg: 1, y_deg: 0, z_deg: 0, constant: 2 };
    let one = F3_i::<1>::new(1);
    assert_eq!(two_x.evaluate_f3(F3_i::<1>::new(2), one, one).element, 1);
    assert_eq!(two_x.evaluate(F3_i::<1>::new(1), one, one).element, 2);
}

#[test]
fn tables_of_the_conics_over_the_field_of_two_elements() {
    let lut = Polynomial::generate_default_lut(2);
    let (x, _, _) = Polynomial::generate_derative_luts(&lut, 2);
    let normal: Vec<Vec<u16>> = Term::generate_points_for_multiple::<F2_i<1>>(&lut)
        .iter()
        .map(|row| row.iter().map(|e| e.element).collect())
        .collect();
    assert_eq!(
        normal,
        vec![
            vec![0, 0, 0, 0, 0, 1],
            vec![0, 0, 1, 0, 0, 0],
            vec![0, 0, 1, 0, 1, 1],
            vec![1, 0, 0, 0, 0, 0],
            vec![1, 0, 0, 1, 0, 1],
            vec![1, 1, 1, 0, 0, 0],
            vec![1, 1, 1, 1, 1, 1]
        ]
    );
    let part_x: Vec<Vec<u16>> = Term::generate_points_for_multiple::<F2_i<1>>(&x)
        .iter()
        .map(|row| row.iter().map(|e| e.element).collect())
        .collect();
    assert_eq!(part_x[1], vec![0, 0, 0, 0, 1, 0]);
    assert_eq!(part_x[6], vec![0, 0, 0, 1, 1, 0]);
    let column = lut[4].generate_precalculated_points::<F2_i<1>>();
    let column: Vec<u16> = column.iter().map(|e| e.element).collect();
    assert_eq!(column, vec![0, 0, 1, 0, 0, 0, 1]);
}

#[test]
fn transposed_table() {
    let t = transpose(vec![vec![1, 2, 3], vec![4, 5, 6]]);
    assert_eq!(t, vec![vec![1, 4], vec![2, 5], vec![3, 6]]);
    let t = transpose(vec![vec![1, 2], vec![4, 5, 6]]);
    assert_eq!(t, vec![vec![1, 4], vec![2, 5]]);
    let empty: Vec<Vec<u8>> = transpose(vec![vec![], vec![]]);
    assert!(empty.is_empty());
}

#[test]
fn text_of_a_form() {
    let lut = Polynomial::generate_default_lut(2);
    assert_eq!(Polynomial::new(0b101101).str(&lut, 2), "1_002 1_020 1_101 1_200");
    assert_eq!(Polynomial::new(0).str(&lut, 2), "");
    assert_eq!(Polynomial::new(0b100000).str(&lut, 2), "1_200");
    assert_eq!(Polynomial::new(0x609).str(&lut, 3), "1_002 2_011 2_110 1_200");
    assert_eq!(Polynomial::new(0b11).str(&lut, 3), "1_002 2_002");
    assert_eq!(Polynomial::new(0b101101).str(&lut, 5), "");
    let (x, _, _) = Polynomial::generate_derative_luts(&lut, 2);
    // the zero terms of a table of derivatives are left out
    assert_eq!(Polynomial::new(0b111111).str(&x, 2), "1_001 1_010");
}

#[test]
fn form_of_a_text() {
    let lut = Polynomial::generate_default_lut(2);
    assert_eq!(Polynomial::from_string("1_002 1_020 1_101 1_200", &lut, 2), Ok(Polynomial::new(0b101101)));
    assert_eq!(Polynomial::from_string("  1_200\t1_002 \n", &lut, 2), Ok(Polynomial::new(0b100001)));
    assert_eq!(Polynomial::from_string("", &lut, 2), Ok(Polynomial::new(0)));
    assert_eq!(Polynomial::from_string("1_002 2_011 2_110 1_200", &lut, 3), Ok(Polynomial::new(0x609)));
    // a monomial of another degree is passed over
    assert_eq!(Polynomial::from_string("1_111 1_200", &lut, 2), Ok(Polynomial::new(0b100000)));
    assert_eq!(Polynomial::from_string("1_200\u{2003}1_002", &lut, 2), Ok(Polynomial::new(0b100001)));
}

#[test]
fn texts_that_are_no_forms() {
    let lut = Polynomial::generate_default_lut(2);
    assert_eq!(Polynomial::from_string("1_20", &lut, 2), Err(ParseError::MalformedTerm));
    assert_eq!(Polynomial::from_string("1_2000", &lut, 2), Err(ParseError::MalformedTerm));
    assert_eq!(Polynomial::from_string("1-200", &lut, 2), Err(ParseError::MalformedTerm));
    assert_eq!(Polynomial::from_string("x_200", &lut, 2), Err(ParseError::MalformedTerm));
    assert_eq!(Polynomial::from_string("1_2a0", &lut, 2), Err(ParseError::MalformedTerm));
    assert_eq!(Polynomial::from_string("1_200 |", &lut, 2), Err(ParseError::MalformedTerm));
    assert_eq!(Polynomial::from_string("2_200", &lut, 2), Err(ParseError::InvalidConstant));
    assert_eq!(Polynomial::from_string("0_200", &lut, 3), Err(ParseError::InvalidConstant));
    assert_eq!(Polynomial::from_string("3_200", &lut, 3), Err(ParseError::InvalidConstant));
    assert_eq!(Polynomial::from_string("1_200 1_200", &lut, 2), Err(ParseError::RepeatedTerm));
    assert_eq!(Polynomial::from_string("1_200 2_200", &lut, 3), Err(ParseError::RepeatedTerm));
    // the first fault decides
    assert_eq!(Polynomial::from_string("2_200 1_20", &lut, 2), Err(ParseError::InvalidConstant));
}

#[test]
fn every_form_is_read_back_from_its_text() {
    let lut = Polynomial::generate_default_lut(3);
    for bits in 0u64..1024 {
        let p = Polynomial::new(bits);
        assert_eq!(Polynomial::from_string(&p.str(&lut, 2), &lut, 2), Ok(p));
    }
    let lut = Polynomial::generate_default_lut(2);
    for index in 0u64..729 {
        let mut bits = 0;
        let mut rest = index;
        for j in 0..6 {
            bits |= (rest % 3) << (2 * j);
            rest /= 3;
        }
        let p = Polynomial::new(bits);
        assert_eq!(Polynomial::from_string(&p.str(&lut, 3), &lut, 3), Ok(p));
    }
}

#[test]
fn coefficients_of_a_form() {
    let p = Polynomial::new(0x609);
    let c: Vec<u8> = (0..6).map(|j| p.coefficient_at(j, 3)).collect();
    assert_eq!(c, vec![1, 2, 0, 0, 2, 1]);
    let c: Vec<u8> = (0..6).map(|j| Polynomial::new(0b101101).coefficient_at(j, 2)).collect();
    assert_eq!(c, vec![1, 0, 1, 1, 0, 1]);
    assert_eq!(Polynomial::new(u64::MAX).coefficient_at(64, 2), 0);
    assert_eq!(Polynomial::new(u64::MAX).coefficient_at(32, 3), 0);
    assert_eq!(Polynomial::new(u64::MAX).coefficient_at(3, 5), 0);
}

#[test]
fn value_of_a_form_on_a_row_of_a_table() {
    let lut = Polynomial::generate_default_lut(2);
    let table = Term::generate_points_for_multiple::<F2_i<2>>(&lut);
    // x^2 + y z at the points (1, 1, 1), (3, 3, 1), (0, 1, 0) and (1, 0, 0)
    let p = Polynomial::new(0b100010);
    assert_eq!(p.evaluate_f2(10, &table).element, 0);
    assert_eq!(p.evaluate_f2(20, &table).element, 1);
    assert_eq!(p.evaluate_f2(1, &table).element, 0);
    assert_eq!(p.evaluate_f2(0, &table).element, 1);
    let table = Term::generate_points_for_multiple::<F3_i<1>>(&lut);
    // z^2 + 2 x^2 at (1, 0, 1), which is point 5, and 2 z^2 at (0, 0, 1)
    assert_eq!(Polynomial::new(0b10_00_00_00_00_01).evaluate_f3(5, &table).element, 0);
    assert_eq!(Polynomial::new(0b10).evaluate_f3(4, &table).element, 2);
    assert_eq!(Polynomial::new(0b10).evaluate(4, &table).element, 2);
}

#[test]
fn singular_and_smooth_conics() {
    let lut = Polynomial::generate_default_lut(2);
    let (x, y, z) = Polynomial::generate_derative_luts(&lut, 2);
    let lookup = Lookup::<F2_i<1>>::create(&lut, &x, &y, &z);
    assert_eq!(lookup.normal.len(), 7);
    assert_eq!(lookup.part_z[0].len(), 6);
    // y^2 + x z is smooth with three points
    let smooth = Polynomial::from_string("1_020 1_101", &lut, 2).unwrap();
    assert_eq!(smooth.has_singularity(&lookup), Some(3));
    // x y is a pair of lines that meet in (0, 0, 1)
    let lines = Polynomial::from_string("1_110", &lut, 2).unwrap();
    assert_eq!(lines.has_singularity(&lookup), None);
    let mut count = 0;
    assert_eq!(lines.has_singularity_point(3, &lookup, &mut count), Singularity::Singular);
    assert_eq!(count, 1);
    assert_eq!(lines.has_singularity_point(1, &lookup, &mut count), Singularity::NonSingular);
    assert_eq!(count, 2);
    assert_eq!(lines.has_singularity_point(6, &lookup, &mut count), Singularity::NonSingular);
    assert_eq!(count, 2);
    // x^2 is singular along the line x = 0 in characteristic two
    let double = Polynomial::from_string("1_200", &lut, 2).unwrap();
    assert_eq!(double.has_singularity(&lookup), None);
}

#[test]
fn conic_that_is_singular_only_over_the_extension() {
    let lut = Polynomial::generate_default_lut(2);
    let (x, y, z) = Polynomial::generate_derative_luts(&lut, 2);
    let prime = Lookup::<F2_i<1>>::create(&lut, &x, &y, &z);
    let square = Lookup::<F2_i<2>>::create(&lut, &x, &y, &z);
    // x^2 + x y + y^2 has its only point (0, 0, 1) over the field of two elements
    let conjugate_lines = Polynomial::from_string("1_200 1_110 1_020", &lut, 2).unwrap();
    assert_eq!(conjugate_lines.has_singularity(&prime), None);
    assert_eq!(conjugate_lines.has_singularity(&square), None);
    assert_eq!(square.normal.len(), 21);
}

#[test]
fn record_of_a_class() {
    let lut = Polynomial::generate_default_lut(2);
    let iso = IsoPolynomial { representative: Polynomial::new(0b001100), size: 28 };
    assert_eq!(iso.deconstruct(), (Polynomial::new(0b001100), 28));
    let result = PolynomialResult::new(iso, vec![3, 5, 9]);
    assert_eq!(result.to_string(&lut, 2), "1_020 1_101 | 28 | [3, 5, 9]");
    assert_eq!(PolynomialResult::new(iso, vec![]).to_string(&lut, 2), "1_020 1_101 | 28 | []");
    assert_eq!(PolynomialResult::new(iso, vec![12]).to_string(&lut, 2), "1_020 1_101 | 28 | [12]");
    assert_eq!(result.poly, iso);
    assert_eq!(result.points_on_curve, vec![3, 5, 9]);
}

#[test]
fn orders_of_the_prime_fields() {
    assert_eq!(F2_i::<3>::field_order(), 2);
    assert_eq!(F3_i::<3>::field_order(), 3);
}
