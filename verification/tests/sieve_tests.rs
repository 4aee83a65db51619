use stella::{
    check_candidate, compute_modular_inverses, generate_primes, primorial, sieve_segment, Sieve,
    Uint,
};

// A sieve setting small enough to cross-check by exhaustive trial
// division: primorial number 4 gives P = 30, and sieving runs over the
// table primes from index 4 on.
fn small_tables() -> (Vec<usize>, Vec<usize>, Uint) {
    let primes = generate_primes(50);
    let p = primorial(&primes, 4);
    assert_eq!(p.to_usize(), Some(30));
    let inv = compute_modular_inverses(&p, &primes);
    (primes, inv, p)
}

fn eliminated_by_hand(
    primes: &[usize],
    inv: &[usize],
    n_start: usize,
    pattern: &[usize],
    b: u64,
    pval: u64,
    j: u64,
) -> bool {
    for i in n_start..primes.len() {
        if inv[i] == 0 {
            continue;
        }
        for &o in pattern {
            if (b + j * pval + o as u64) % primes[i] as u64 == 0 {
                return true;
            }
        }
    }
    false
}

#[test]
fn sieve_survivors_match_trial_division() {
    let (primes, inv, p) = small_tables();
    let pattern = vec![0usize, 2];
    let b: u64 = 1031;
    let width: usize = 200;
    let mut sieve = Sieve::new();
    let survivors = sieve_segment(
        &primes,
        &inv,
        4,
        &pattern,
        &Uint::from_u64(b),
        &p,
        width,
        &mut sieve,
    );
    for w in survivors.windows(2) {
        assert!(w[0] < w[1], "survivors must increase");
    }
    for j in 0..width {
        let hit = eliminated_by_hand(&primes, &inv, 4, &pattern, b, 30, j as u64);
        assert_eq!(
            survivors.contains(&j),
            !hit,
            "factor {} wrongly classified",
            j
        );
    }
}

#[test]
fn sieve_doubling_width_keeps_survivors() {
    let (primes, inv, p) = small_tables();
    let pattern = vec![0usize, 4, 6];
    let b = Uint::from_u64(977);
    let mut sieve = Sieve::new();
    let narrow = sieve_segment(&primes, &inv, 4, &pattern, &b, &p, 128, &mut sieve);
    let wide = sieve_segment(&primes, &inv, 4, &pattern, &b, &p, 256, &mut sieve);
    for j in 0..128usize {
        assert_eq!(narrow.contains(&j), wide.contains(&j));
    }
}

#[test]
fn sieve_empty_width_yields_nothing() {
    let (primes, inv, p) = small_tables();
    let pattern = vec![0usize];
    let mut sieve = Sieve::new();
    let survivors = sieve_segment(
        &primes,
        &inv,
        4,
        &pattern,
        &Uint::from_u64(7),
        &p,
        0,
        &mut sieve,
    );
    assert!(survivors.is_empty());
}

#[test]
fn chain_collects_full_pattern() {
    // 11, 13, 17 are all prime.
    let found = check_candidate(
        &Uint::from_u64(11),
        &vec![0usize, 2, 6],
        &vec![true, true, true],
        3,
    );
    assert_eq!(found, vec![0, 2, 6]);
}

#[test]
fn chain_required_position_aborts() {
    // 11, 13 prime; 15 composite at a required position ends the walk
    // before 17 is ever looked at.
    let found = check_candidate(
        &Uint::from_u64(11),
        &vec![0usize, 2, 4, 6],
        &vec![true, true, true, true],
        2,
    );
    assert_eq!(found, vec![0, 2]);
}

#[test]
fn chain_optional_position_recovers() {
    // 5, 7 prime, 9 composite but optional, 11 prime: with k_min = 3 the
    // walk tolerates the failure because three primes are still reachable.
    let found = check_candidate(
        &Uint::from_u64(5),
        &vec![0usize, 2, 4, 6],
        &vec![true, true, false, false],
        3,
    );
    assert_eq!(found, vec![0, 2, 6]);
}

#[test]
fn chain_optional_position_gives_up_when_short() {
    // Same walk with k_min = 4: after 9 fails only two positions remain
    // beyond it, 2 + 1 < 4, so the candidate is abandoned.
    let found = check_candidate(
        &Uint::from_u64(5),
        &vec![0usize, 2, 4, 6],
        &vec![true, true, false, false],
        4,
    );
    assert_eq!(found, vec![0, 2]);
}

#[test]
fn chain_single_zero_pattern_is_fermat() {
    let yes = check_candidate(&Uint::from_u64(211), &vec![0usize], &vec![true], 1);
    assert_eq!(yes, vec![0]);
    let no = check_candidate(&Uint::from_u64(221), &vec![0usize], &vec![true], 1);
    assert!(no.is_empty());
}
