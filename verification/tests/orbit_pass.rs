use plane_curves::action::{action_table, binomial_mod_q, factorial, index_of, pack};
use plane_curves::algebraic_types::Lookup;
use plane_curves::field_extensions::{F2_i, F3_i};
use plane_curves::matrices::{generate_matrices, pgl3_size, Matrix};
use plane_curves::orbits::{
    apply_matrix, form_at_index, index_of_form, is_canonically_smaller, reduce_orbits, weight,
};
use plane_curves::polynomials::{Polynomial, Term};

fn entries(m: &Matrix) -> [u8; 9] {
    [m.a, m.b, m.c, m.d, m.e, m.f, m.g, m.h, m.i]
}

fn product(m: &Matrix, n: &Matrix, q: u8) -> [u8; 9] {
    let (x, y) = (entries(m), entries(n));
    let mut r = [0u8; 9];
    for i in 0..3 {
        for j in 0..3 {
            let mut s = 0;
            for k in 0..3 {
                s += x[3 * i + k] * y[3 * k + j];
            }
            r[3 * i + j] = s % q;
        }
    }
    r
}

fn texts(row: &Vec<Polynomial>, lut: &Vec<Term>, q: u8) -> Vec<String> {
    row.iter().map(|p| p.str(lut, q)).collect()
}

#[test]
fn matrices_over_the_field_of_two_elements() {
    let matrices = generate_matrices(2);
    assert_eq!(matrices.len(), 168);
    assert_eq!(pgl3_size(2), 168);
    assert_eq!(entries(&matrices[0]), [0, 0, 1, 0, 1, 0, 1, 0, 0]);
    assert_eq!(entries(&matrices[1]), [0, 0, 1, 0, 1, 0, 1, 0, 1]);
    assert_eq!(entries(&matrices[167]), [1, 1, 1, 1, 1, 0, 1, 0, 1]);
    assert!(matrices.iter().all(|m| m.determinant() % 2 != 0 && m.stands_for_class(2)));
    assert!(matrices.windows(2).all(|w| entries(&w[0]) < entries(&w[1])));
}

#[test]
fn matrices_over_the_field_of_three_elements() {
    let matrices = generate_matrices(3);
    assert_eq!(matrices.len(), 5616);
    assert_eq!(pgl3_size(3), 5616);
    assert_eq!(pgl3_size(5), 0);
    assert_eq!(entries(&matrices[0]), [0, 0, 1, 0, 1, 0, 1, 0, 0]);
    assert_eq!(entries(&matrices[5615]), [1, 2, 2, 2, 2, 2, 2, 2, 1]);
    assert!(matrices.iter().all(|m| m.determinant() % 3 != 0 && m.leading_entry() == 1));
}

#[test]
fn determinant_and_leading_entry() {
    let m = Matrix { a: 2, b: 0, c: 1, d: 1, e: 1, f: 0, g: 0, h: 2, i: 1 };
    assert_eq!(m.determinant(), 4);
    assert!(!m.stands_for_class(2));
    assert!(!m.stands_for_class(3));
    let id = Matrix { a: 1, b: 0, c: 0, d: 0, e: 1, f: 0, g: 0, h: 0, i: 1 };
    assert_eq!(id.determinant(), 1);
    assert!(id.stands_for_class(3));
    let negative = Matrix { a: 0, b: 1, c: 0, d: 1, e: 0, f: 0, g: 0, h: 0, i: 1 };
    assert_eq!(negative.determinant(), -1);
    assert!(negative.stands_for_class(2));
    let twice = Matrix { a: 0, b: 2, c: 0, d: 1, e: 0, f: 0, g: 0, h: 0, i: 1 };
    assert_eq!(twice.leading_entry(), 2);
    assert!(!twice.stands_for_class(3));
    let biggest = Matrix { a: 255, b: 0, c: 0, d: 0, e: 255, f: 0, g: 0, h: 0, i: 255 };
    assert_eq!(biggest.determinant(), 16581375);
    let zero = Matrix { a: 0, b: 0, c: 0, d: 0, e: 0, f: 0, g: 0, h: 0, i: 0 };
    assert_eq!(zero.leading_entry(), 0);
}

#[test]
fn images_of_the_basis_monomials() {
    let lut = Polynomial::generate_default_lut(2);
    let matrices = generate_matrices(2);
    let table = action_table(2, 2, &matrices);
    assert_eq!(table.len(), 168);
    assert_eq!(entries(&matrices[5]), [0, 0, 1, 0, 1, 1, 1, 0, 1]);
    assert_eq!(
        texts(&table[5], &lut, 2),
        vec!["1_002 1_200", "1_002 1_011 1_101 1_110", "1_002 1_020", "1_002 1_101", "1_002 1_011", "1_002"]
    );
    let matrices = generate_matrices(3);
    let table = action_table(2, 3, &matrices);
    assert_eq!(entries(&matrices[100]), [0, 0, 1, 0, 2, 2, 2, 0, 1]);
    assert_eq!(
        texts(&table[100], &lut, 3),
        vec![
            "1_002 1_101 1_200",
            "2_002 2_011 1_101 1_110",
            "1_002 2_011 1_020",
            "1_002 2_101",
            "2_002 2_011",
            "1_002"
        ]
    );
}

#[test]
fn image_of_a_form() {
    let lut = Polynomial::generate_default_lut(2);
    let table = action_table(2, 2, &generate_matrices(2));
    let image = apply_matrix(&table[5], Polynomial::new(0b101101), 2);
    assert_eq!(image.str(&lut, 2), "1_020 1_101 1_200");
    let table = action_table(2, 3, &generate_matrices(3));
    let image = apply_matrix(&table[100], Polynomial::new(0x609), 3);
    assert_eq!(image.str(&lut, 3), "1_002 2_011 2_110 1_200");
    assert_eq!(apply_matrix(&table[100], Polynomial::new(0), 3), Polynomial::new(0));
}

#[test]
fn power_of_the_sum_of_the_variables_has_multinomial_coefficients() {
    let all_ones = vec![Matrix { a: 1, b: 1, c: 1, d: 0, e: 1, f: 0, g: 0, h: 0, i: 1 }];
    for (degree, q) in [(4u8, 3u8), (6, 3), (5, 2), (9, 2)] {
        let lut = Polynomial::generate_default_lut(degree);
        let table = action_table(degree, q, &all_ones);
        // the last basis monomial is the power of x
        let image = table[0][lut.len() - 1];
        for (j, t) in lut.iter().enumerate() {
            assert_eq!(image.coefficient_at(j, q), binomial_mod_q(degree, t.x_deg, t.y_deg, t.z_deg, q));
        }
    }
}

#[test]
fn multinomial_coefficients() {
    assert_eq!(binomial_mod_q(4, 2, 1, 1, 3), 0);
    assert_eq!(binomial_mod_q(4, 2, 1, 1, 5), 2);
    assert_eq!(binomial_mod_q(6, 2, 2, 2, 2), 0);
    assert_eq!(binomial_mod_q(6, 2, 2, 2, 7), 6);
    assert_eq!(binomial_mod_q(5, 5, 0, 0, 2), 1);
    assert_eq!(binomial_mod_q(20, 10, 5, 5, 3), 0);
    assert_eq!(binomial_mod_q(20, 10, 5, 5, 255), (46558512u64 % 255) as u8);
    assert_eq!(factorial(0), 1);
    assert_eq!(factorial(5), 120);
    assert_eq!(factorial(20), 2432902008176640000);
}

#[test]
fn places_in_the_basis() {
    for d in 0u8..=9 {
        let lut = Polynomial::generate_default_lut(d);
        for (j, t) in lut.iter().enumerate() {
            assert_eq!(index_of(d, t.x_deg, t.y_deg), j);
        }
    }
    assert_eq!(index_of(255, 255, 0), 32895);
}

#[test]
fn packed_coefficients() {
    assert_eq!(pack(&vec![1, 2, 0, 0, 2, 1], 3), Polynomial::new(0x609));
    assert_eq!(pack(&vec![1, 0, 1, 1, 0, 1], 2), Polynomial::new(0b101101));
    assert_eq!(pack(&vec![], 2), Polynomial::new(0));
    assert_eq!(pack(&vec![1; 64], 2), Polynomial::new(u64::MAX));
    assert_eq!(pack(&vec![2; 32], 3), Polynomial::new(0xAAAA_AAAA_AAAA_AAAA));
}

#[test]
fn places_of_the_forms() {
    assert_eq!(index_of_form(Polynomial::new(0x609), 6, 3), 412);
    assert_eq!(form_at_index(500, 6, 3), Polynomial::new(0x816));
    assert_eq!(form_at_index(412, 6, 3), Polynomial::new(0x609));
    for i in 0..729 {
        assert_eq!(index_of_form(form_at_index(i, 6, 3), 6, 3), i);
    }
    for i in 0..1024 {
        assert_eq!(form_at_index(i, 10, 2), Polynomial::new(i as u64));
        assert_eq!(index_of_form(Polynomial::new(i as u64), 10, 2), i);
    }
    assert_eq!(form_at_index(5, 0, 2), Polynomial::new(0));
}

#[test]
fn order_of_the_forms_of_a_class() {
    assert_eq!(weight(Polynomial::new(0b101101), 2), 4);
    assert_eq!(weight(Polynomial::new(0x609), 3), 4);
    assert_eq!(weight(Polynomial::new(u64::MAX), 2), 64);
    assert_eq!(weight(Polynomial::new(0), 3), 0);
    // fewer terms come first, whatever the words
    assert!(is_canonically_smaller(Polynomial::new(0b100000), Polynomial::new(0b000011), 2));
    assert!(!is_canonically_smaller(Polynomial::new(0b000011), Polynomial::new(0b100000), 2));
    // among equally many terms the smaller word comes first
    assert!(is_canonically_smaller(Polynomial::new(0b0101), Polynomial::new(0b0110), 2));
    assert!(!is_canonically_smaller(Polynomial::new(0b0110), Polynomial::new(0b0110), 2));
    // over the field of three elements a coefficient two counts once
    assert!(is_canonically_smaller(Polynomial::new(0b10_00), Polynomial::new(0b01_01), 3));
    assert!(is_canonically_smaller(Polynomial::new(0b01_00), Polynomial::new(0b10_00), 3));
}

#[test]
fn classes_of_the_conics_over_the_field_of_two_elements() {
    let lut = Polynomial::generate_default_lut(2);
    let table = action_table(2, 2, &generate_matrices(2));
    let orbits = reduce_orbits(&table, 6, 2).unwrap();
    let found: Vec<(String, u32)> = orbits.iter().map(|o| (o.representative.str(&lut, 2), o.size)).collect();
    assert_eq!(
        found,
        vec![
            ("1_002".to_string(), 7),
            ("1_011".to_string(), 21),
            ("1_002 1_011 1_020".to_string(), 7),
            ("1_020 1_101".to_string(), 28)
        ]
    );
}

#[test]
fn classes_of_the_conics_over_the_field_of_three_elements() {
    let lut = Polynomial::generate_default_lut(2);
    let table = action_table(2, 3, &generate_matrices(3));
    let orbits = reduce_orbits(&table, 6, 3).unwrap();
    let found: Vec<(String, u32)> = orbits.iter().map(|o| (o.representative.str(&lut, 3), o.size)).collect();
    assert_eq!(
        found,
        vec![
            ("1_002".to_string(), 13),
            ("2_002".to_string(), 13),
            ("1_011".to_string(), 156),
            ("1_002 1_020".to_string(), 78),
            ("1_020 1_101".to_string(), 234),
            ("2_020 1_101".to_string(), 234)
        ]
    );
    let lut = Polynomial::generate_default_lut(1);
    let table = action_table(1, 3, &generate_matrices(3));
    let orbits = reduce_orbits(&table, 3, 3).unwrap();
    assert_eq!(orbits.len(), 1);
    assert_eq!((orbits[0].representative.str(&lut, 3), orbits[0].size), ("1_001".to_string(), 26));
}

#[test]
fn sizes_of_the_classes_add_up_to_the_number_of_forms() {
    for (degree, q, forms) in [(1u8, 2u8, 8u32), (2, 2, 64), (3, 2, 1024), (1, 3, 27), (2, 3, 729)] {
        let lut = Polynomial::generate_default_lut(degree);
        let table = action_table(degree, q, &generate_matrices(q));
        let orbits = reduce_orbits(&table, lut.len(), q).unwrap();
        assert_eq!(orbits.iter().map(|o| o.size).sum::<u32>(), forms - 1);
    }
}

#[test]
fn sizes_of_the_classes_divide_the_number_of_matrices_over_the_field_of_two_elements() {
    for degree in 1u8..=4 {
        let lut = Polynomial::generate_default_lut(degree);
        let table = action_table(degree, 2, &generate_matrices(2));
        let orbits = reduce_orbits(&table, lut.len(), 2).unwrap();
        assert!(orbits.iter().all(|o| 168 % o.size == 0));
    }
}

#[test]
fn sweep_with_a_table_that_is_no_group_fails_over_the_field_of_two_elements() {
    let lut = Polynomial::generate_default_lut(2);
    let matrices = generate_matrices(2);
    let few: Vec<Matrix> = matrices[0..4].to_vec();
    let table = action_table(2, 2, &few);
    assert!(reduce_orbits(&table, lut.len(), 2).is_err());
    let none: Vec<Matrix> = Vec::new();
    let table = action_table(2, 2, &none);
    // without matrices every form is a class of its own
    assert_eq!(reduce_orbits(&table, lut.len(), 2).unwrap().len(), 63);
}

#[test]
fn change_of_variables_and_its_inverse_give_the_form_back() {
    for (degree, q) in [(2u8, 2u8), (3, 2), (2, 3)] {
        let matrices = generate_matrices(q);
        let table = action_table(degree, q, &matrices);
        let lut = Polynomial::generate_default_lut(degree);
        let forms: usize = (q as usize).pow(lut.len() as u32);
        let step = if q == 2 { 1 } else { 7 };
        for k in (0..matrices.len()).step_by(step) {
            let inverse = matrices
                .iter()
                .position(|n| {
                    let p = product(&matrices[k], n, q);
                    p[1] == 0 && p[2] == 0 && p[3] == 0 && p[5] == 0 && p[6] == 0 && p[7] == 0
                        && p[0] != 0 && p[0] == p[4] && p[4] == p[8]
                })
                .unwrap();
            let scale = product(&matrices[k], &matrices[inverse], q)[0];
            for i in (1..forms).step_by(37) {
                let form = form_at_index(i, lut.len(), q);
                let there = apply_matrix(&table[k], form, q);
                let back = apply_matrix(&table[inverse], there, q);
                // the two matrices multiply to a multiple of the unit matrix
                let factor = if degree % 2 == 1 { scale } else { 1 };
                let mut expected = Polynomial::new(0);
                for j in 0..lut.len() {
                    let c = (form.coefficient_at(j, q) * factor) % q;
                    expected = Polynomial::new(expected.bits | ((c as u64) << (if q == 2 { j } else { 2 * j })));
                }
                assert_eq!(back, expected);
            }
        }
    }
}

#[test]
fn forms_of_one_class_have_the_same_verdict_and_the_same_numbers_of_points() {
    let lut = Polynomial::generate_default_lut(3);
    let (x, y, z) = Polynomial::generate_derative_luts(&lut, 2);
    let one = Lookup::<F2_i<1>>::create(&lut, &x, &y, &z);
    let two = Lookup::<F2_i<2>>::create(&lut, &x, &y, &z);
    let three = Lookup::<F2_i<3>>::create(&lut, &x, &y, &z);
    let table = action_table(3, 2, &generate_matrices(2));
    let orbits = reduce_orbits(&table, lut.len(), 2).unwrap();
    for orbit in orbits.iter() {
        let r = orbit.representative;
        let verdict = (r.has_singularity(&one), r.has_singularity(&two), r.has_singularity(&three));
        for row in table.iter() {
            let image = apply_matrix(row, r, 2);
            assert_eq!(
                (image.has_singularity(&one), image.has_singularity(&two), image.has_singularity(&three)),
                verdict
            );
        }
    }
    let lut = Polynomial::generate_default_lut(2);
    let (x, y, z) = Polynomial::generate_derative_luts(&lut, 3);
    let one = Lookup::<F3_i<1>>::create(&lut, &x, &y, &z);
    let two = Lookup::<F3_i<2>>::create(&lut, &x, &y, &z);
    let table = action_table(2, 3, &generate_matrices(3));
    for orbit in reduce_orbits(&table, lut.len(), 3).unwrap().iter() {
        let r = orbit.representative;
        let verdict = (r.has_singularity(&one), r.has_singularity(&two));
        for row in table.iter().step_by(5) {
            let image = apply_matrix(row, r, 3);
            assert_eq!((image.has_singularity(&one), image.has_singularity(&two)), verdict);
        }
    }
}

#[test]
fn numbers_of_points_of_smooth_curves_meet_the_hasse_weil_bound() {
    for degree in 1u8..=4 {
        let lut = Polynomial::generate_default_lut(degree);
        let (x, y, z) = Polynomial::generate_derative_luts(&lut, 2);
        let one = Lookup::<F2_i<1>>::create(&lut, &x, &y, &z);
        let two = Lookup::<F2_i<2>>::create(&lut, &x, &y, &z);
        let three = Lookup::<F2_i<3>>::create(&lut, &x, &y, &z);
        let four = Lookup::<F2_i<4>>::create(&lut, &x, &y, &z);
        let table = action_table(degree, 2, &generate_matrices(2));
        let twice_genus = (degree as i64 - 1) * (degree as i64 - 2);
        for orbit in reduce_orbits(&table, lut.len(), 2).unwrap().iter() {
            let r = orbit.representative;
            let counts =
                [r.has_singularity(&one), r.has_singularity(&two), r.has_singularity(&three), r.has_singularity(&four)];
            if counts.iter().all(|c| c.is_some()) {
                for (n, count) in counts.iter().enumerate() {
                    let field = 1i64 << (n + 1);
                    let distance = count.unwrap() as i64 - (field + 1);
                    assert!(distance * distance <= twice_genus * twice_genus * field);
                }
            }
        }
    }
}
