use plane_curves::action::action_table;
use plane_curves::algebraic_types::{IsoPolynomial, Lookup, PolynomialResult};
use plane_curves::field_extensions::{F2_i, F3_i};
use plane_curves::matrices::generate_matrices;
use plane_curves::orbits::reduce_orbits;
use plane_curves::polynomials::{Polynomial, Term};
use plane_curves::smoothness::is_smooth;

fn orbits_of(degree: u8, field_order: u8) -> (Vec<Term>, Vec<IsoPolynomial>) {
    let normal = Polynomial::generate_default_lut(degree);
    let matrices = generate_matrices(field_order);
    let table = action_table(degree, field_order, &matrices);
    let orbits = reduce_orbits(&table, normal.len(), field_order).unwrap();
    (normal, orbits)
}

fn lines(results: &Vec<PolynomialResult>, normal: &Vec<Term>, field_order: u8) -> Vec<String> {
    results.iter().map(|r| r.to_string(normal, field_order)).collect()
}

#[test]
fn lines_over_f2_form_one_smooth_orbit() {
    let (normal, orbits) = orbits_of(1, 2);
    let (x, y, z) = Polynomial::generate_derative_luts(&normal, 2);
    let tables = Lookup::<F2_i<1>>::create(&normal, &x, &y, &z);
    let (smooth, results) = is_smooth(&orbits, 0, orbits.len(), &tables);
    assert_eq!(orbits.len(), 1);
    assert_eq!(smooth, vec![7]);
    assert_eq!(lines(&results, &normal, 2), vec!["1_001 | 7 | [3]".to_string()]);
}

#[test]
fn smooth_conics_over_f2_form_one_orbit_of_size_28() {
    let (normal, orbits) = orbits_of(2, 2);
    let (x, y, z) = Polynomial::generate_derative_luts(&normal, 2);
    let tables = Lookup::<F2_i<1>>::create(&normal, &x, &y, &z);
    let (smooth, results) = is_smooth(&orbits, 0, orbits.len(), &tables);
    assert_eq!(orbits.len(), 4);
    assert_eq!(orbits.iter().map(|o| o.size).sum::<u32>(), 63);
    assert_eq!(smooth, vec![28]);
    assert_eq!(lines(&results, &normal, 2), vec!["1_020 1_101 | 28 | [3]".to_string()]);
}

#[test]
fn smooth_cubics_over_f2_have_one_to_five_points() {
    let (normal, orbits) = orbits_of(3, 2);
    let (x, y, z) = Polynomial::generate_derative_luts(&normal, 2);
    let tables = (
        Lookup::<F2_i<1>>::create(&normal, &x, &y, &z),
        (Lookup::<F2_i<2>>::create(&normal, &x, &y, &z), Lookup::<F2_i<3>>::create(&normal, &x, &y, &z)),
    );
    let (smooth, results) = is_smooth(&orbits, 0, orbits.len(), &tables);
    assert_eq!(orbits.len(), 21);
    assert_eq!(smooth, vec![372, 344, 336]);
    assert_eq!(
        lines(&results, &normal, 2),
        vec![
            "1_030 1_102 1_201 | 28 | [3, 9, 9]".to_string(),
            "1_012 1_030 1_102 1_201 | 42 | [5, 5, 5]".to_string(),
            "1_003 1_012 1_030 1_102 1_201 | 42 | [1, 5, 13]".to_string(),
            "1_003 1_030 1_111 1_201 | 84 | [4, 8, 4]".to_string(),
            "1_003 1_021 1_030 1_111 1_201 | 84 | [2, 8, 14]".to_string(),
            "1_012 1_120 1_201 | 56 | [3, 9, 9]".to_string(),
        ]
    );
    let mut counts: Vec<Vec<usize>> = results.iter().map(|r| r.points_on_curve.clone()).collect();
    counts.sort();
    counts.dedup();
    assert_eq!(counts.len(), 5);
    let over_f2: Vec<usize> = counts.iter().map(|c| c[0]).collect();
    assert_eq!(over_f2, vec![1, 2, 3, 4, 5]);
}

#[test]
fn smooth_quartics_over_f2_meet_the_hasse_weil_bound() {
    let (normal, orbits) = orbits_of(4, 2);
    let (x, y, z) = Polynomial::generate_derative_luts(&normal, 2);
    let tables = (
        Lookup::<F2_i<1>>::create(&normal, &x, &y, &z),
        (Lookup::<F2_i<2>>::create(&normal, &x, &y, &z), Lookup::<F2_i<3>>::create(&normal, &x, &y, &z)),
    );
    let (smooth, results) = is_smooth(&orbits, 0, orbits.len(), &tables);
    assert_eq!(orbits.len(), 279);
    assert_eq!(orbits.iter().map(|o| o.size).sum::<u32>(), 32767);
    assert_eq!(smooth, vec![12593, 11578, 10962]);
    assert_eq!(results.len(), 79);
    for r in results.iter() {
        let points = r.points_on_curve[0] as i64;
        assert!((points - 3).abs() <= 6);
    }
}

#[test]
fn smooth_cubics_over_f3_are_counted() {
    let (normal, orbits) = orbits_of(3, 3);
    let (x, y, z) = Polynomial::generate_derative_luts(&normal, 3);
    let tables = (
        Lookup::<F3_i<1>>::create(&normal, &x, &y, &z),
        (Lookup::<F3_i<2>>::create(&normal, &x, &y, &z), Lookup::<F3_i<3>>::create(&normal, &x, &y, &z)),
    );
    let (smooth, results) = is_smooth(&orbits, 0, orbits.len(), &tables);
    assert_eq!(orbits.len(), 35);
    assert_eq!(orbits.iter().map(|o| o.size).sum::<u32>(), 59048);
    assert_eq!(smooth, vec![35388, 33984, 33696]);
    assert_eq!(smooth[2] % 234, 0);
    assert_eq!(results.len(), 13);
    let total: u32 = results.iter().map(|r| r.poly.size).sum();
    assert_eq!(total, 33696);
    assert_eq!(
        lines(&results, &normal, 3)[0..3].to_vec(),
        vec![
            "1_012 1_030 1_201 | 5616 | [4, 16, 28]".to_string(),
            "2_012 1_030 1_201 | 1872 | [4, 16, 28]".to_string(),
            "1_003 2_012 1_030 1_201 | 1872 | [1, 7, 28]".to_string(),
        ]
    );
}

#[test]
fn chunks_give_the_same_counts_and_records_as_the_whole_list() {
    let (normal, orbits) = orbits_of(3, 2);
    let (x, y, z) = Polynomial::generate_derative_luts(&normal, 2);
    let tables =
        (Lookup::<F2_i<1>>::create(&normal, &x, &y, &z), Lookup::<F2_i<2>>::create(&normal, &x, &y, &z));
    let (whole_counts, whole_results) = is_smooth(&orbits, 0, orbits.len(), &tables);
    let mut counts = vec![0, 0];
    let mut results = Vec::new();
    for chunk in plane_curves::smoothness::make_chunks(orbits.len(), 4) {
        let (count, mut result) = is_smooth(&orbits, chunk.start, chunk.end, &tables);
        plane_curves::smoothness::add_counts(&mut counts, &count);
        results.append(&mut result);
    }
    assert_eq!(counts, whole_counts);
    assert_eq!(results, whole_results);
    assert_eq!(whole_counts, vec![372, 344]);
    // places past the end of the list are passed over, and an empty range gives nothing
    let (count, result) = is_smooth(&orbits, 19, 1000, &tables);
    assert_eq!(result.len() <= 2, true);
    assert_eq!(count.len(), 2);
    let (count, result) = is_smooth(&orbits, 30, 40, &tables);
    assert_eq!((count, result.len()), (vec![0, 0], 0));
    let (count, result) = is_smooth(&orbits, 5, 5, &tables);
    assert_eq!((count, result.len()), (vec![0, 0], 0));
}

#[test]
fn smooth_classes_from_a_list_that_was_written_and_read() {
    let (normal, orbits) = orbits_of(2, 3);
    let text = plane_curves::records::write_orbit_list(&orbits, 2, 3, &normal);
    let read = plane_curves::records::read_orbit_list(&text, 2, 3, &normal).unwrap();
    assert_eq!(read, orbits);
    let (x, y, z) = Polynomial::generate_derative_luts(&normal, 3);
    let tables = Lookup::<F3_i<1>>::create(&normal, &x, &y, &z);
    let (smooth, results) = is_smooth(&read, 0, read.len(), &tables);
    assert_eq!(smooth, vec![468]);
    assert_eq!(
        plane_curves::records::write_results(&results, &normal, 3),
        "# Smooth polynomial representative (CONSTANT_(xpower)(ypower)(zpower)) | isomorphism class | points defined over k_i\n1_020 1_101 | 234 | [4]\n2_020 1_101 | 234 | [4]"
    );
}
