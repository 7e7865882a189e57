use frobenius::FrobeniusError;
use frobenius::bignum::Big;
use frobenius::roundrobin::round_robin;
use frobenius::sieve::dp_frobenius;
use frobenius::solver::FrobeniusSolver;
use rand::RngExt;

fn coins(values: &[i64]) -> Vec<Big> {
    values.iter().map(|&v| Big::from_i64(v)).collect()
}

fn gcd_u64(a: u64, b: u64) -> u64 {
    if b == 0 { a } else { gcd_u64(b, a % b) }
}

#[test]
fn single_coin() {
    let mut solver = FrobeniusSolver::new(false);
    assert_eq!(solver.solve(coins(&[5])), Ok(Big::from_i64(4)));
    assert_eq!(solver.solve(coins(&[1])), Ok(Big::from_i64(-1)));
    assert_eq!(solver.solve(coins(&[2])), Ok(Big::from_i64(1)));
}

#[test]
fn two_coins_order_independent() {
    let mut solver = FrobeniusSolver::new(false);
    assert_eq!(solver.solve(coins(&[3, 5])), Ok(Big::from_i64(7)));
    assert_eq!(solver.solve(coins(&[5, 3])), Ok(Big::from_i64(7)));
}

#[test]
fn known_multi_coin_cases() {
    let mut solver = FrobeniusSolver::new(false);
    assert_eq!(solver.solve(coins(&[3, 5, 7])), Ok(Big::from_i64(4)));
    assert_eq!(solver.solve(coins(&[6, 9, 20])), Ok(Big::from_i64(43)));
    // five consecutive odd coins: 42 is the last gap (40 and 42 are not
    // sums; 44 = 4*11 and everything beyond is), confirmed by brute force
    assert_eq!(
        solver.solve(coins(&[11, 13, 15, 17, 19])),
        Ok(Big::from_i64(heaviest_gap(&[11, 13, 15, 17, 19])))
    );
    assert_eq!(heaviest_gap(&[11, 13, 15, 17, 19]), 42);
    assert_eq!(
        solver.solve(coins(&[31, 41, 59, 26, 53])),
        Ok(Big::from_i64(heaviest_gap(&[31, 41, 59, 26, 53])))
    );
}

#[test]
fn non_coprime_reports_gcd() {
    let mut solver = FrobeniusSolver::new(false);
    assert_eq!(
        solver.solve(coins(&[2, 4])),
        Err(FrobeniusError::NonCoprime(Big::from_i64(2)))
    );
    assert_eq!(
        solver.solve(coins(&[6, 9, 21])),
        Err(FrobeniusError::NonCoprime(Big::from_i64(3)))
    );
}

#[test]
fn empty_and_degenerate_input() {
    let mut solver = FrobeniusSolver::new(false);
    assert_eq!(solver.solve(coins(&[])), Err(FrobeniusError::EmptyInput));
    assert_eq!(
        solver.solve(coins(&[0, -3])),
        Err(FrobeniusError::EmptyInput)
    );
    assert_eq!(solver.solve(coins(&[0, -3, 5])), Ok(Big::from_i64(4)));
    assert_eq!(solver.solve(coins(&[5])), Ok(Big::from_i64(4)));
}

#[test]
fn repeated_solve_hits_the_cache() {
    let mut solver = FrobeniusSolver::new(false);
    let first = solver.solve(coins(&[5, 3]));
    assert_eq!(solver.cache.len(), 1);
    let second = solver.solve(coins(&[3, 5]));
    assert_eq!(first, second);
    // the reordered set normalized to the same key: nothing was re-run
    assert_eq!(solver.cache.len(), 1);
    let third = solver.solve(coins(&[3, 5, 0, -7]));
    assert_eq!(first, third);
    assert_eq!(solver.cache.len(), 1);
}

#[test]
fn value_too_large_for_round_robin() {
    let mut solver = FrobeniusSolver::new(false);
    // three consecutive integers are coprime, but the smallest is over the
    // residue-table ceiling
    assert_eq!(
        solver.solve(coins(&[10_000_019, 10_000_020, 10_000_021])),
        Err(FrobeniusError::ValueTooLarge)
    );
    // a coin beyond u64 range
    let huge = Big {
        negative: false,
        limbs: vec![0, 0, 1],
    };
    let mut set = coins(&[3, 5]);
    set.push(huge);
    assert_eq!(solver.solve(set), Err(FrobeniusError::ValueTooLarge));
}

#[test]
fn sieve_bound_exceeded() {
    // with 1 among the coins the derived bound is negative
    assert_eq!(
        dp_frobenius(&coins(&[1, 2, 3])),
        Err(FrobeniusError::BoundExceeded)
    );
    // two large coprime values push the bound over the ceiling
    assert_eq!(
        dp_frobenius(&coins(&[99_989, 99_991, 100_003])),
        Err(FrobeniusError::BoundExceeded)
    );
}

#[test]
fn round_robin_unresolved_at_round_cap() {
    // relaxation needs about 10000 rounds here, far over the cap
    assert_eq!(
        round_robin(&coins(&[20001, 20003])),
        Err(FrobeniusError::Unresolved)
    );
}

#[test]
fn cross_algorithm_agreement_on_random_sets() {
    let mut rng = rand::rng();
    let mut solver = FrobeniusSolver::new(false);
    let mut tried = 0;
    while tried < 20 {
        let size = rng.random_range(3..=5usize);
        let vals: Vec<u64> = (0..size).map(|_| rng.random_range(2..1000u64)).collect();
        let g = vals.iter().fold(0u64, |acc, &v| gcd_u64(acc, v));
        if g != 1 {
            continue;
        }
        tried += 1;
        let set: Vec<Big> = vals.iter().map(|&v| Big::from_i64(v as i64)).collect();
        match solver.benchmark(set) {
            Ok((rr, Some(dp))) => assert_eq!(rr, dp),
            Ok((_, None)) => {}
            Err(e) => panic!("benchmark failed: {:?}", e),
        }
    }
}

#[test]
fn benchmark_on_known_set() {
    let mut solver = FrobeniusSolver::new(false);
    let result = solver.benchmark(coins(&[6, 9, 20])).unwrap();
    assert_eq!(result.0, Big::from_i64(43));
    assert_eq!(result.1, Some(Big::from_i64(43)));
}

#[test]
fn benchmark_two_coins_uses_the_closed_form() {
    // a two-coin set is out of the sieve's domain: the comparator answers
    // with the closed form instead, and the two strategies agree
    let mut solver = FrobeniusSolver::new(false);
    let result = solver.benchmark(coins(&[4, 5])).unwrap();
    assert_eq!(result.0, Big::from_i64(11));
    assert_eq!(result.1, Some(Big::from_i64(11)));
}

/// Brute-force reachability up to a limit: `true` at `n` iff `n` is a sum
/// of the given coins.
fn reachable_table(vals: &[u64], limit: usize) -> Vec<bool> {
    let mut table = vec![false; limit + 1];
    table[0] = true;
    for i in 1..=limit {
        for &c in vals {
            let c = c as usize;
            if c <= i && table[i - c] {
                table[i] = true;
            }
        }
    }
    table
}

#[test]
fn frobenius_number_characterization() {
    let mut solver = FrobeniusSolver::new(false);
    let result = solver.solve(coins(&[3, 5, 7])).unwrap();
    assert_eq!(result, Big::from_i64(4));
    let table = reachable_table(&[3, 5, 7], 100);
    assert!(!table[4]);
    for n in 5..=100 {
        assert!(table[n]);
    }
}

fn heaviest_gap(vals: &[u64]) -> i64 {
    // the largest unreachable value, by brute force over a generous range
    let limit = 10_000usize;
    let table = reachable_table(vals, limit);
    let mut f: i64 = -1;
    for n in 0..=limit {
        if !table[n] {
            f = n as i64;
        }
    }
    f
}

#[test]
fn solver_construction_clamps_threads() {
    let s = FrobeniusSolver::new(true);
    assert!(s.verbose);
    assert!(1 <= s.thread_count && s.thread_count <= 8);
    assert_eq!(FrobeniusSolver::with_threads(false, 0).thread_count, 1);
    assert_eq!(FrobeniusSolver::with_threads(false, 99).thread_count, 8);
    assert_eq!(FrobeniusSolver::with_threads(false, 4).thread_count, 4);
}

#[test]
fn known_cases_self_check_reports_the_bad_entry() {
    // the classic table expects 96 for the five odd coins, but the largest
    // value that is not a sum of them is 42, so the self-check fails
    let mut solver = FrobeniusSolver::new(false);
    assert!(!solver.test_known_cases());
}
