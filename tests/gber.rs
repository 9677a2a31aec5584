use snic::common_types::{BaseInt, InputInt};
use snic::common_utilities::integer_log;
use snic::gber::{Decomposition, Term};

fn exponent_counts_below_base(d: &Decomposition) -> bool {
    d.component_powers
        .iter()
        .all(|p| (d.component_powers.iter().filter(|q| *q == p).count() as BaseInt) < d.base)
}

#[test]
fn decompose_7_in_base_3() {
    let d = Decomposition::new(7, 3).unwrap();
    assert_eq!(d.base, 3);
    assert_eq!(d.component_powers, vec![1, 1]);
    assert_eq!(d.remainder, 1);
    assert_eq!(d.stream_all_components(), vec![3, 3]);
}

#[test]
fn decompose_10_in_base_2() {
    let d = Decomposition::new(10, 2).unwrap();
    assert_eq!(d.component_powers, vec![3, 1]);
    assert_eq!(d.remainder, 0);
    assert_eq!(d.calculate_components(), vec![8, 2]);
}

#[test]
fn decompose_below_base_has_no_components() {
    let d = Decomposition::new(4, 10).unwrap();
    assert_eq!(d.component_powers, Vec::<u8>::new());
    assert_eq!(d.remainder, 4);
    let zero = Decomposition::new(0, 2).unwrap();
    assert_eq!(zero.component_powers, Vec::<u8>::new());
    assert_eq!(zero.remainder, 0);
    assert_eq!(zero.to_decimal(), 0);
}

#[test]
fn decompositions_compare_by_value() {
    assert_eq!(Decomposition::new(7, 3).unwrap(), Decomposition::new(7, 3).unwrap());
    assert_ne!(Decomposition::new(7, 3).unwrap(), Decomposition::new(8, 3).unwrap());
}

#[test]
fn decompose_rejects_small_bases() {
    assert!(Decomposition::new(10, 1).is_err());
    assert!(Decomposition::new(10, 0).is_err());
}

#[test]
fn decompose_round_trip() {
    for base in [2 as BaseInt, 3, 7, 10, 255, 65535] {
        for n in [0 as InputInt, 1, 2, 9, 100, 999, 1000, 65535, 123_456_789, InputInt::MAX] {
            let d = Decomposition::new(n, base).unwrap();
            assert_eq!(d.to_decimal(), n);
            assert!(d.remainder < base);
            assert!(exponent_counts_below_base(&d));
            assert!(d.component_powers.windows(2).all(|w| w[0] >= w[1]));
        }
    }
}

#[test]
fn decompose_largest_input() {
    let d = Decomposition::new(InputInt::MAX, BaseInt::MAX - 1).unwrap();
    assert_eq!(d.to_decimal(), InputInt::MAX);
    let d2 = Decomposition::new(InputInt::MAX, 2).unwrap();
    assert_eq!(d2.component_powers, (1..32).rev().collect::<Vec<u8>>());
    assert_eq!(d2.remainder, 1);
}

#[test]
fn single_component_values() {
    let d = Decomposition::new(100, 10).unwrap();
    assert_eq!(d.calculate_single_component(0), 1);
    assert_eq!(d.calculate_single_component(2), 100);
    assert_eq!(d.component_powers, vec![2]);
}

#[test]
fn term_value_and_components() {
    let term = Term { coefficient: 2, exponent: 2 };
    assert_eq!(term.calculate_value(3), 18);
    assert_eq!(term.calculate_components(3), vec![9, 9]);
    let empty = Term { coefficient: 0, exponent: 40 };
    assert_eq!(empty.calculate_value(3), 0);
    assert_eq!(Term { coefficient: 0, exponent: 1 }.calculate_components(2), Vec::<InputInt>::new());
}

#[test]
fn integer_log_exact_values() {
    assert_eq!(integer_log(1, 2), 0);
    assert_eq!(integer_log(7, 2), 2);
    assert_eq!(integer_log(8, 2), 3);
    assert_eq!(integer_log(999, 10), 2);
    assert_eq!(integer_log(1000, 10), 3);
    assert_eq!(integer_log(InputInt::MAX, 2), 31);
    assert_eq!(integer_log(InputInt::MAX, 65535), 2);
    assert_eq!(integer_log(243, 3), 5);
    assert_eq!(integer_log(242, 3), 4);
}
