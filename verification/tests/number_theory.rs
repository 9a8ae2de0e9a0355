use galois::{
    divisors, euler_phi, factor_prime_power, is_prime, is_primitive_root, mobius, next_prime,
    prev_prime,
};

#[test]
fn divisors_of_12() {
    assert_eq!(divisors(12), vec![1, 2, 3, 4, 6, 12]);
}

#[test]
fn totient() {
    assert_eq!(euler_phi(12), 4);
    assert_eq!(mobius(6), 1);
}

#[test]
fn factor_243() {
    assert_eq!(factor_prime_power(243).unwrap(), (3, 5));
}

#[test]
fn factor_prime_field() {
    assert_eq!(factor_prime_power(17).unwrap(), (17, 1));
}

#[test]
fn primes() {
    assert_eq!(next_prime(10), 11);
    assert_eq!(prev_prime(10), Some(7));
    assert!(is_prime(97));
    assert!(!is_prime(99));
}

#[test]
fn primitive_root_mod_11() {
    assert!(is_primitive_root(2, 11));
    assert!(!is_primitive_root(3, 11));
}
