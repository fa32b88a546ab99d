use modular_inverse::gcd::gcd;
use modular_inverse::inverse::{modular_multiplicative_inverse, InverseError};

#[test]
fn inverse_of_three_modulo_five_is_two() {
    assert_eq!(modular_multiplicative_inverse(3, 5), Ok(2));
}

#[test]
fn inverse_of_seven_modulo_twenty_six_is_fifteen() {
    assert_eq!(modular_multiplicative_inverse(7, 26), Ok(15));
}

#[test]
fn inverse_modulo_one_is_zero() {
    for a in [0u64, 1, 2, 3, 100, u64::MAX] {
        assert_eq!(modular_multiplicative_inverse(a, 1), Ok(0));
    }
}

#[test]
fn four_has_no_inverse_modulo_eight() {
    assert_eq!(
        modular_multiplicative_inverse(4, 8),
        Err(InverseError::NonInvertible { a: 4, b: 8 })
    );
}

#[test]
fn zero_has_no_inverse_modulo_more_than_one() {
    assert_eq!(
        modular_multiplicative_inverse(0, 5),
        Err(InverseError::NonInvertible { a: 0, b: 5 })
    );
    assert_eq!(
        modular_multiplicative_inverse(0, 2),
        Err(InverseError::NonInvertible { a: 0, b: 2 })
    );
}

#[test]
fn a_multiple_of_the_modulus_has_no_inverse() {
    assert_eq!(
        modular_multiplicative_inverse(26, 13),
        Err(InverseError::NonInvertible { a: 26, b: 13 })
    );
}

#[test]
fn inverse_times_number_leaves_one() {
    for b in 1u64..80 {
        for a in 0u64..160 {
            match modular_multiplicative_inverse(a, b) {
                Ok(x) => {
                    assert!(x < b);
                    assert_eq!((a * x) % b, 1 % b);
                    assert_eq!(gcd(a, b), 1);
                }
                Err(e) => {
                    assert_eq!(e, InverseError::NonInvertible { a, b });
                    assert_ne!(gcd(a, b), 1);
                    for x in 0..b {
                        assert_ne!((a * x) % b, 1 % b);
                    }
                }
            }
        }
    }
}

#[test]
fn inverse_of_a_number_above_the_modulus() {
    assert_eq!(modular_multiplicative_inverse(8, 5), Ok(2));
    assert_eq!(modular_multiplicative_inverse(10, 3), Ok(1));
    assert_eq!(modular_multiplicative_inverse(u64::MAX, 2), Ok(1));
}

#[test]
fn inverse_of_one_is_one() {
    for b in [2u64, 3, 10, 1 << 32, u64::MAX] {
        assert_eq!(modular_multiplicative_inverse(1, b), Ok(1));
    }
}

#[test]
fn inverse_of_modulus_minus_one_is_itself() {
    for b in [2u64, 3, 10, 97, 1 << 32, (1 << 63) + 1, u64::MAX] {
        assert_eq!(modular_multiplicative_inverse(b - 1, b), Ok(b - 1));
    }
}

#[test]
fn inverse_with_the_largest_modulus() {
    assert_eq!(modular_multiplicative_inverse(2, u64::MAX), Ok(1 << 63));
    let a: u64 = 0x1234_5678_9abc_def1;
    let b: u64 = u64::MAX;
    match modular_multiplicative_inverse(a, b) {
        Ok(x) => {
            assert!(x < b);
            assert_eq!((a as u128 * x as u128) % (b as u128), 1);
        }
        Err(_) => assert_ne!(gcd(a, b), 1),
    }
}

#[test]
fn inverse_modulo_a_large_prime() {
    let p: u64 = 18_446_744_073_709_551_557;
    for a in [2u64, 3, 12345, 1 << 63, p - 2, p + 1] {
        let x = modular_multiplicative_inverse(a, p).unwrap();
        assert!(x < p);
        assert_eq!((a as u128 * x as u128) % (p as u128), 1);
    }
}

#[test]
fn inverse_of_the_inverse_is_the_number() {
    for b in 2u64..60 {
        for a in 1..b {
            if let Ok(x) = modular_multiplicative_inverse(a, b) {
                assert_eq!(modular_multiplicative_inverse(x, b), Ok(a));
            }
        }
    }
}

#[test]
fn computing_twice_gives_the_same() {
    for (a, b) in [(3u64, 5u64), (7, 26), (4, 8), (0, 1), (0, 9), (u64::MAX - 1, u64::MAX)] {
        let first = modular_multiplicative_inverse(a, b);
        let second = modular_multiplicative_inverse(a, b);
        let third = modular_multiplicative_inverse(a, b);
        assert_eq!(first, second);
        assert_eq!(second, third);
    }
}

#[test]
fn failure_names_both_numbers() {
    let InverseError::NonInvertible { a, b } = modular_multiplicative_inverse(6, 9).unwrap_err();
    assert_eq!((a, b), (6, 9));
}
