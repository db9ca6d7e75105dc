use plane_curves::field_extensions::{F2_i, F3_i, FieldTraits, ProjectivePointIterator};

fn elements<T: FieldTraits>() -> Vec<T> {
    let mut all = vec![T::zero()];
    let mut current = T::zero();
    while let Some(next) = current.next() {
        all.push(next);
        current = next;
    }
    all
}

fn check_field_laws<T: FieldTraits + PartialEq + std::fmt::Debug>(cardinality: usize) {
    let all = elements::<T>();
    assert_eq!(all.len(), cardinality);
    for (i, a) in all.iter().enumerate() {
        for b in all[..i].iter() {
            assert_ne!(a, b);
        }
    }
    assert_eq!(*all.last().unwrap(), T::max());
    for a in all.iter() {
        let mut sum = T::zero();
        for _ in 0..T::field_order() {
            sum = sum.add(*a);
        }
        assert_eq!(sum, T::zero());
        assert_eq!(a.mul(T::one()), *a);
        assert_eq!(T::one().mul(*a), *a);
        assert_eq!(a.mul(T::zero()), T::zero());
        assert_eq!(a.add(T::zero()), *a);
        if !a.is_zero() {
            let mut power = T::one();
            for _ in 0..cardinality - 1 {
                power = power.mul(*a);
            }
            assert_eq!(power, T::one());
        }
    }
}

#[test]
fn f2_product_in_degree_three() {
    // x * x^2 = x^3 = x + 1 in the field of eight elements
    let a = F2_i::<3>::new(0b010);
    let b = F2_i::<3>::new(0b100);
    assert_eq!((a * b).element, 0b011);
}

#[test]
fn f2_known_products() {
    assert_eq!((F2_i::<8>::new(0x53) * F2_i::<8>::new(0xCA)).element, 0x01);
    assert_eq!((F2_i::<10>::new(1023) * F2_i::<10>::new(1023)).element, 698);
    assert_eq!((F2_i::<10>::new(512) * F2_i::<10>::new(2)).element, 9);
    assert_eq!((F2_i::<5>::new(16) * F2_i::<5>::new(2)).element, 0b101);
    assert_eq!((F2_i::<1>::new(1) * F2_i::<1>::new(1)).element, 1);
}

#[test]
fn f2_sum_is_exclusive_or() {
    assert_eq!((F2_i::<4>::new(0b1100) + F2_i::<4>::new(0b1010)).element, 0b0110);
}

#[test]
fn f3_sum_wraps_in_each_lane() {
    // (2 + x) + (2 + 2x) = 1 + 0x
    let a = F3_i::<2>::new(0b0110);
    let b = F3_i::<2>::new(0b1010);
    assert_eq!((a + b).element, 0b0001);
    assert_eq!(FieldTraits::add(a, b).element, 0b0001);
}

#[test]
fn f3_internal_add_is_the_sum_modulo_three_in_every_lane() {
    for a in 0u64..3 {
        for b in 0u64..3 {
            for lane in [0u32, 7, 8, 20, 31] {
                let sum = F3_i::<1>::internal_add(a << (2 * lane), b << (2 * lane));
                assert_eq!(sum, ((a + b) % 3) << (2 * lane));
            }
        }
    }
    assert_eq!(F3_i::<3>::internal_add(0b100110, 0b011001), 0);
}

#[test]
fn f3_known_products() {
    assert_eq!((F3_i::<2>::new(0b0100) * F3_i::<2>::new(0b0100)).element, 2);
    assert_eq!((F3_i::<2>::new(0b0101) * F3_i::<2>::new(0b0110)).element, 1);
    assert_eq!((F3_i::<3>::new(0b010000) * F3_i::<3>::new(0b000100)).element, 0b110);
    assert_eq!((F3_i::<4>::new(0b10000101) * F3_i::<4>::new(0b01000010)).element, 0b100100);
    assert_eq!((F3_i::<6>::new(1 << 10) * F3_i::<6>::new(0b0100)).element, 0b1001);
    assert_eq!((F3_i::<6>::new(0xAAA) * F3_i::<6>::new(0xAAA)).element, 0b100100100100);
}

#[test]
fn f3_elements_follow_the_ternary_odometer() {
    let all: Vec<u16> = elements::<F3_i<2>>().iter().map(|e| e.element).collect();
    assert_eq!(all, vec![0, 1, 2, 4, 5, 6, 8, 9, 10]);
    assert_eq!(F3_i::<2>::max().element, 0b1010);
    assert_eq!(F3_i::<6>::max().element, 0xAAA);
    assert!(F3_i::<2>::new(0b1010).next().is_none());
}

#[test]
fn f2_elements_follow_the_integers() {
    let all: Vec<u16> = elements::<F2_i<3>>().iter().map(|e| e.element).collect();
    assert_eq!(all, vec![0, 1, 2, 3, 4, 5, 6, 7]);
    assert_eq!(F2_i::<10>::max().element, 1023);
    assert!(F2_i::<3>::new(7).next().is_none());
    assert!(F2_i::<3>::new(0).is_zero());
    assert!(!F2_i::<3>::new(4).is_zero());
}

#[test]
fn field_laws_hold_in_every_binary_field() {
    check_field_laws::<F2_i<1>>(2);
    check_field_laws::<F2_i<2>>(4);
    check_field_laws::<F2_i<3>>(8);
    check_field_laws::<F2_i<4>>(16);
    check_field_laws::<F2_i<5>>(32);
    check_field_laws::<F2_i<6>>(64);
    check_field_laws::<F2_i<7>>(128);
    check_field_laws::<F2_i<8>>(256);
}

#[test]
fn field_laws_hold_in_the_largest_binary_fields() {
    check_field_laws::<F2_i<9>>(512);
    check_field_laws::<F2_i<10>>(1024);
}

#[test]
fn field_laws_hold_in_every_ternary_field() {
    check_field_laws::<F3_i<1>>(3);
    check_field_laws::<F3_i<2>>(9);
    check_field_laws::<F3_i<3>>(27);
    check_field_laws::<F3_i<4>>(81);
    check_field_laws::<F3_i<5>>(243);
    check_field_laws::<F3_i<6>>(729);
}

#[test]
fn power_with_exponent_zero_is_one_also_of_zero() {
    assert_eq!(F2_i::<4>::new(0).mul_ntimes(0).element, 1);
    assert_eq!(F3_i::<3>::new(0).mul_ntimes(0).element, 1);
    assert_eq!(F2_i::<4>::new(0).mul_ntimes(3).element, 0);
    // x^4 = x + 1 in the field of sixteen elements
    assert_eq!(F2_i::<4>::new(2).mul_ntimes(4).element, 0b0011);
    // x^3 = x + 2 in the field of twenty-seven elements
    assert_eq!(F3_i::<3>::new(0b0100).mul_ntimes(3).element, 0b0110);
}

#[test]
fn projective_points_over_the_prime_field_of_two() {
    let mut it = F2_i::<1>::iterate_over_points();
    let mut points = Vec::new();
    while let Some((x, y, z)) = it.next() {
        points.push((x.element, y.element, z.element));
    }
    assert_eq!(
        points,
        vec![(1, 0, 0), (0, 1, 0), (1, 1, 0), (0, 0, 1), (1, 0, 1), (0, 1, 1), (1, 1, 1)]
    );
    assert!(it.next().is_none());
}

#[test]
fn projective_points_over_the_prime_field_of_three() {
    let mut it = ProjectivePointIterator::<F3_i<1>>::new();
    let mut points = Vec::new();
    while let Some((x, y, z)) = it.next() {
        points.push((x.element, y.element, z.element));
    }
    assert_eq!(
        points,
        vec![
            (1, 0, 0),
            (0, 1, 0),
            (1, 1, 0),
            (2, 1, 0),
            (0, 0, 1),
            (1, 0, 1),
            (2, 0, 1),
            (0, 1, 1),
            (1, 1, 1),
            (2, 1, 1),
            (0, 2, 1),
            (1, 2, 1),
            (2, 2, 1)
        ]
    );
}

#[test]
fn projective_planes_have_the_right_number_of_points() {
    let mut count = 0;
    let mut it = F2_i::<3>::iterate_over_points();
    while it.next().is_some() {
        count += 1;
    }
    assert_eq!(count, 73);
    let mut count = 0;
    let mut it = F3_i::<2>::iterate_over_points();
    while it.next().is_some() {
        count += 1;
    }
    assert_eq!(count, 91);
}

#[test]
fn field_elements_as_text() {
    assert_eq!(F2_i::<3>::new(0b110).str(), "x^2 + x^1 + 0");
    assert_eq!(F2_i::<3>::new(0b001).str(), "1");
    assert_eq!(F2_i::<10>::new(0b1000000001).str(), "x^9 + 1");
    assert_eq!(F3_i::<3>::new(0b100001).str(), "201 (3)");
    assert_eq!(F3_i::<1>::new(0).str(), "0 (1)");
}
