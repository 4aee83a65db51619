use stella::{
    default_primorial_offset, generate_primes, Job, JobError, JobWarning, Params, Stella, Uint,
};

fn twin_params() -> Params {
    // P = 2 * 3 * 5 = 30; the offset 11 keeps both twin positions coprime
    // to the primorial (11 and 13 mod 30).
    Params {
        workers: 1,
        constellation_pattern: vec![0, 2],
        prime_table_limit: 50,
        primorial_number: 4,
        primorial_offset: 11,
        sieve_size: 64,
    }
}

fn twin_job(id: usize, clear: bool) -> Job {
    // target_min 1000 and forty primorials of range: candidates are
    // 1031 + 30 f for f below 40.
    Job {
        id,
        clear_previous_jobs: clear,
        pattern: vec![0, 2],
        target_min: Uint::from_u64(1000),
        target_max: Uint::from_u64(1000 + 40 * 30),
        k_min: 2,
        pattern_min: vec![true, true],
    }
}

fn run_to_completion(engine: &mut Stella, worker_id: usize) {
    let mut guard = 0usize;
    while engine.step(worker_id) {
        guard += 1;
        assert!(guard < 100000, "engine did not drain its queue");
    }
}

fn collect_tuples(engine: &mut Stella) -> Vec<(usize, Vec<usize>, usize)> {
    let mut r = Vec::new();
    while let Some(out) = engine.pop_output() {
        r.push((out.n.to_usize().unwrap(), out.pattern, out.job_id));
    }
    r.sort();
    r
}

#[test]
fn set_params_fills_defaults() {
    let mut engine = Stella::new();
    engine.set_params(Params {
        workers: 3,
        ..Default::default()
    });
    let p = engine.params();
    assert_eq!(p.workers, 3);
    assert_eq!(p.constellation_pattern, vec![0, 2, 6, 8, 12, 18, 20]);
    assert_eq!(p.prime_table_limit, 16777216);
    assert_eq!(p.primorial_number, 120);
    assert_eq!(p.primorial_offset, 380284918609481);
    assert_eq!(p.sieve_size, 1 << 25);
}

#[test]
fn set_params_rounds_sieve_to_words() {
    let mut engine = Stella::new();
    engine.set_params(Params {
        sieve_size: 1000,
        primorial_offset: 11,
        constellation_pattern: vec![0, 2],
        ..Default::default()
    });
    assert_eq!(engine.params().sieve_size, 960);
}

#[test]
fn default_offset_table_entries() {
    assert_eq!(default_primorial_offset(&vec![0]), Some(380284918609481));
    assert_eq!(
        default_primorial_offset(&vec![0, 4, 6, 10, 12, 16]),
        Some(1091257)
    );
    assert_eq!(
        default_primorial_offset(&vec![0, 6, 10, 12, 16, 22, 24, 30, 34, 36, 40, 42]),
        Some(1418575498567)
    );
    assert_eq!(default_primorial_offset(&vec![0, 8]), None);
}

#[test]
fn init_builds_tables() {
    let mut engine = Stella::new();
    engine.set_params(twin_params());
    engine.init();
    let stats = engine.stats();
    assert_eq!(stats.prime_table_size, generate_primes(50).len());
    assert_eq!(stats.tuple_counts, vec![0, 0, 0]);
    assert_eq!(engine.primorial().to_usize(), Some(30));
}

#[test]
fn inverse_table_is_complete_past_the_primorial_number() {
    let mut engine = Stella::new();
    engine.set_params(twin_params());
    engine.init();
    assert!(engine.inverses_complete());
}

#[test]
fn add_job_rejects_inverted_range() {
    let mut engine = Stella::new();
    engine.set_params(twin_params());
    engine.init();
    let mut job = twin_job(1, false);
    job.target_min = Uint::from_u64(500);
    job.target_max = Uint::from_u64(400);
    let (warnings, errors) = engine.add_job(job);
    assert!(warnings.is_empty());
    assert_eq!(errors, vec![JobError::EmptyRange]);
}

#[test]
fn add_job_rejects_point_range() {
    // An equal lower and upper target leaves no whole primorial of room,
    // so the factor limit is zero.
    let mut engine = Stella::new();
    engine.set_params(twin_params());
    engine.init();
    let mut job = twin_job(1, false);
    job.target_min = Uint::from_u64(1000);
    job.target_max = Uint::from_u64(1000);
    let (warnings, errors) = engine.add_job(job);
    assert!(warnings.is_empty());
    assert_eq!(errors, vec![JobError::PrimorialTooLarge]);
}

#[test]
fn add_job_rejects_mismatched_mask_and_long_k_min() {
    let mut engine = Stella::new();
    engine.set_params(twin_params());
    engine.init();
    let mut job = twin_job(1, false);
    job.pattern_min = vec![true];
    job.k_min = 3;
    let (_, errors) = engine.add_job(job);
    assert_eq!(
        errors,
        vec![
            JobError::PatternLengthMismatch,
            JobError::KMinExceedsPattern
        ]
    );
}

#[test]
fn add_job_rejects_duplicate_id_and_keeps_first_job() {
    let mut engine = Stella::new();
    engine.set_params(twin_params());
    engine.init();
    let (w1, e1) = engine.add_job(twin_job(7, false));
    assert!(w1.is_empty() && e1.is_empty());
    let (_, e2) = engine.add_job(twin_job(7, false));
    assert_eq!(e2, vec![JobError::DuplicateId]);
    run_to_completion(&mut engine, 0);
    let tuples = collect_tuples(&mut engine);
    // The first job still ran, exactly once.
    assert!(!tuples.is_empty());
    assert!(tuples.iter().all(|t| t.2 == 7));
}

#[test]
fn add_job_warns_when_factor_count_overflows() {
    let mut engine = Stella::new();
    engine.set_params(Params {
        constellation_pattern: vec![0],
        prime_table_limit: 10,
        // P = 2: a range of 2^128 primorials cannot be counted in usize.
        primorial_number: 2,
        primorial_offset: 1,
        sieve_size: 64,
        workers: 1,
    });
    engine.init();
    let job = Job {
        id: 1,
        clear_previous_jobs: false,
        pattern: vec![0],
        target_min: Uint::from_u64(0),
        target_max: Uint::from_u128(u128::MAX),
        k_min: 1,
        pattern_min: vec![true],
    };
    let (warnings, errors) = engine.add_job(job);
    assert!(errors.is_empty());
    assert_eq!(warnings, vec![JobWarning::FactorLimitClamped]);
}

#[test]
fn twin_search_finds_exactly_the_twins() {
    let mut engine = Stella::new();
    engine.set_params(twin_params());
    engine.init();
    let (warnings, errors) = engine.add_job(twin_job(1, true));
    assert!(warnings.is_empty() && errors.is_empty());
    run_to_completion(&mut engine, 0);
    let tuples = collect_tuples(&mut engine);
    let expected: Vec<usize> = vec![
        1031, 1061, 1091, 1151, 1301, 1451, 1481, 1721, 1871, 1931, 2081, 2111, 2141,
    ];
    let ns: Vec<usize> = tuples.iter().map(|t| t.0).collect();
    assert_eq!(ns, expected);
    for t in &tuples {
        assert_eq!(t.1, vec![0, 2]);
        assert_eq!(t.2, 1);
    }
    let stats = engine.stats();
    assert!(stats.candidates_tested > 0);
    assert_eq!(stats.tuple_counts.len(), 3);
    assert_eq!(stats.tuple_counts[2], 13);
}

#[test]
fn one_primorial_of_range_examines_one_candidate() {
    // P = 210 with a prime table that ends below the primorial number:
    // nothing sieves, and a range of exactly one primorial admits exactly
    // the factor zero, so exactly one candidate is examined.
    let mut engine = Stella::new();
    engine.set_params(Params {
        constellation_pattern: vec![0],
        prime_table_limit: 10,
        primorial_number: 5,
        primorial_offset: 1,
        sieve_size: 64,
        workers: 1,
    });
    engine.init();
    assert_eq!(engine.primorial().to_usize(), Some(210));
    let job = Job {
        id: 1,
        clear_previous_jobs: false,
        pattern: vec![0],
        target_min: Uint::from_u64(0),
        target_max: Uint::from_u64(210),
        k_min: 1,
        pattern_min: vec![true],
    };
    let (warnings, errors) = engine.add_job(job);
    assert!(warnings.is_empty() && errors.is_empty());
    run_to_completion(&mut engine, 0);
    let stats = engine.stats();
    assert_eq!(stats.tuple_counts[0], 1);
    assert_eq!(stats.candidates_tested, 1);
    // The single candidate is 211, which is prime.
    let tuples = collect_tuples(&mut engine);
    assert_eq!(tuples, vec![(211, vec![0], 1)]);
}

#[test]
fn single_offset_pattern_reports_every_probable_prime() {
    // Candidates 211 + 210 f for f below 50; the outputs are exactly the
    // base-2 probable primes among them, which here are the 24 primes and
    // the pseudoprime 5461.
    let mut engine = Stella::new();
    engine.set_params(Params {
        constellation_pattern: vec![0],
        prime_table_limit: 10,
        primorial_number: 5,
        primorial_offset: 1,
        sieve_size: 64,
        workers: 1,
    });
    engine.init();
    let job = Job {
        id: 1,
        clear_previous_jobs: false,
        pattern: vec![0],
        target_min: Uint::from_u64(0),
        target_max: Uint::from_u64(210 * 50),
        k_min: 1,
        pattern_min: vec![true],
    };
    let (_, errors) = engine.add_job(job);
    assert!(errors.is_empty());
    run_to_completion(&mut engine, 0);
    let ns: Vec<usize> = collect_tuples(&mut engine).iter().map(|t| t.0).collect();
    let expected: Vec<usize> = vec![
        211, 421, 631, 1051, 1471, 2311, 2521, 2731, 3361, 3571, 4201, 4621, 4831, 5461, 5881,
        6091, 6301, 7351, 7561, 8191, 8821, 9241, 9661, 9871, 10501,
    ];
    assert_eq!(ns, expected);
}

#[test]
fn clearing_jobs_drops_pending_work() {
    let mut engine = Stella::new();
    engine.set_params(twin_params());
    engine.init();
    let (_, e1) = engine.add_job(twin_job(1, false));
    assert!(e1.is_empty());
    // Replace job 1 before any of its tasks ran: its queued work is
    // discarded at pickup, so every output belongs to job 2.
    let (_, e2) = engine.add_job(twin_job(2, true));
    assert!(e2.is_empty());
    run_to_completion(&mut engine, 0);
    let tuples = collect_tuples(&mut engine);
    assert!(!tuples.is_empty());
    assert!(tuples.iter().all(|t| t.2 == 2));
}

#[test]
fn segment_size_does_not_change_results() {
    // The same job over two hundred factors, run once with four small
    // segments and once with a single wide one: the outputs agree, and the
    // multi-segment run spans every segment boundary.
    let wide_range = |id: usize| Job {
        id,
        clear_previous_jobs: true,
        pattern: vec![0, 2],
        target_min: Uint::from_u64(1000),
        target_max: Uint::from_u64(1000 + 200 * 30),
        k_min: 2,
        pattern_min: vec![true, true],
    };
    let mut narrow = Stella::new();
    narrow.set_params(twin_params());
    narrow.init();
    narrow.add_job(wide_range(1));
    run_to_completion(&mut narrow, 0);
    let a = collect_tuples(&mut narrow);

    let mut wide = Stella::new();
    wide.set_params(Params {
        sieve_size: 6400,
        ..twin_params()
    });
    wide.init();
    wide.add_job(wide_range(1));
    run_to_completion(&mut wide, 0);
    let b = collect_tuples(&mut wide);

    assert_eq!(a, b);
    let ns: Vec<usize> = a.iter().map(|t| t.0).collect();
    let expected: Vec<usize> = vec![
        1031, 1061, 1091, 1151, 1301, 1451, 1481, 1721, 1871, 1931, 2081, 2111, 2141, 2381, 2591,
        2711, 2801, 3251, 3371, 3461, 3581, 3671, 3821, 3851, 4001, 4091, 4241, 4271, 4421, 4481,
        4721, 4931, 5021, 5231, 5441, 5501, 5651, 5741, 6131, 6551, 6701, 6761, 6791,
    ];
    assert_eq!(ns, expected);
}

#[test]
fn identical_engines_agree() {
    let mut first = Stella::new();
    first.set_params(twin_params());
    first.init();
    first.add_job(twin_job(1, true));
    run_to_completion(&mut first, 0);
    let a = collect_tuples(&mut first);

    let mut second = Stella::new();
    second.set_params(twin_params());
    second.init();
    second.add_job(twin_job(1, true));
    // A different worker id must not change what is found.
    run_to_completion(&mut second, 5);
    let b = collect_tuples(&mut second);
    assert_eq!(a, b);
}

#[test]
fn pop_output_on_empty_engine() {
    let mut engine = Stella::new();
    assert!(engine.pop_output().is_none());
    assert!(!engine.step(0));
}

#[test]
fn tiny_prime_table_generates_no_candidates() {
    // A prime table limit below 2 gives an empty table; the engine still
    // accepts jobs, but with a primorial of 1 and a pattern position per
    // candidate every factor is sieved away or tested without effect.
    let mut engine = Stella::new();
    engine.set_params(Params {
        constellation_pattern: vec![0],
        prime_table_limit: 1,
        primorial_number: 1,
        primorial_offset: 1,
        sieve_size: 64,
        workers: 1,
    });
    engine.init();
    let stats = engine.stats();
    assert_eq!(stats.prime_table_size, 0);
    assert_eq!(engine.primorial().to_usize(), Some(1));
}
