use stella::{compute_modular_inverses, generate_primes, is_prime_fermat, primorial, Uint};

fn naive_primes(limit: usize) -> Vec<usize> {
    let mut r = Vec::new();
    for n in 2..=limit {
        let mut prime = true;
        let mut d = 2;
        while d < n {
            if n % d == 0 {
                prime = false;
                break;
            }
            d += 1;
        }
        if prime {
            r.push(n);
        }
    }
    r
}

#[test]
fn generate_primes_matches_trial_division() {
    assert_eq!(generate_primes(1000), naive_primes(1000));
}

#[test]
fn generate_primes_small_limits() {
    assert_eq!(generate_primes(0), Vec::<usize>::new());
    assert_eq!(generate_primes(1), Vec::<usize>::new());
    assert_eq!(generate_primes(2), vec![2]);
    assert_eq!(generate_primes(3), vec![2, 3]);
}

#[test]
fn generate_primes_includes_limit_when_prime() {
    let table = generate_primes(97);
    assert_eq!(*table.last().unwrap(), 97);
    let table = generate_primes(98);
    assert_eq!(*table.last().unwrap(), 97);
}

#[test]
fn primorial_of_five_is_two_three_five_seven() {
    let table = generate_primes(20);
    let p = primorial(&table, 5);
    assert_eq!(p.to_usize(), Some(210));
}

#[test]
fn primorial_degenerate_numbers() {
    let table = generate_primes(20);
    assert_eq!(primorial(&table, 0).to_usize(), Some(1));
    assert_eq!(primorial(&table, 1).to_usize(), Some(1));
    assert_eq!(primorial(&table, 2).to_usize(), Some(2));
}

#[test]
fn modular_inverses_invert_the_primorial() {
    let table = generate_primes(100);
    let p = primorial(&table, 5);
    assert_eq!(p.to_usize(), Some(210));
    let inv = compute_modular_inverses(&p, &table);
    assert_eq!(inv.len(), table.len());
    for (i, &m) in table.iter().enumerate() {
        if 210 % m == 0 {
            assert_eq!(inv[i], 0, "divisor {} of the primorial must store 0", m);
        } else {
            assert!(inv[i] > 0 && inv[i] < m);
            assert_eq!((210 * inv[i]) % m, 1, "bad inverse at modulus {}", m);
        }
    }
}

#[test]
fn fermat_accepts_odd_primes() {
    for n in [3u64, 5, 7, 97, 1031, 2141] {
        assert!(is_prime_fermat(&Uint::from_u64(n)), "{} should pass", n);
    }
}

#[test]
fn fermat_rejects_ordinary_composites() {
    for n in [4u64, 9, 15, 21, 100, 1001] {
        assert!(!is_prime_fermat(&Uint::from_u64(n)), "{} should fail", n);
    }
}

#[test]
fn fermat_passes_base_two_pseudoprime() {
    // 561 is composite (3 * 11 * 17) but a base-2 pseudoprime: the test is
    // a probable-prime filter, not a primality proof.
    assert!(is_prime_fermat(&Uint::from_u64(561)));
}

#[test]
fn fermat_rejects_one_and_two() {
    assert!(!is_prime_fermat(&Uint::from_u64(1)));
    // 2^(2-1) = 2 = 0 (mod 2), so 2 itself does not pass the base-2 test.
    assert!(!is_prime_fermat(&Uint::from_u64(2)));
}

#[test]
fn uint_round_trips_machine_values() {
    assert_eq!(Uint::zero().to_usize(), Some(0));
    assert_eq!(Uint::from_u64(0).to_usize(), Some(0));
    assert_eq!(Uint::from_u64(1).to_usize(), Some(1));
    assert_eq!(Uint::from_usize(usize::MAX).to_usize(), Some(usize::MAX));
    let big = Uint::from_u128((usize::MAX as u128) + 1);
    assert_eq!(big.to_usize(), None);
}
