use prime_index::{prime_list, prime_list_range};

fn is_prime_slow(n: usize) -> bool {
    if n < 2 {
        return false;
    }
    let mut d = 2;
    while d * d <= n {
        if n % d == 0 {
            return false;
        }
        d += 1;
    }
    true
}

fn primes_slow(lo: usize, hi: usize) -> Vec<usize> {
    (lo..hi).filter(|n| is_prime_slow(*n)).collect()
}

#[test]
fn base_sieve_of_sixteen() {
    assert_eq!(prime_list(16), vec![2, 3, 5, 7, 11, 13]);
}

#[test]
fn base_sieve_of_tiny_bounds() {
    assert_eq!(prime_list(0), Vec::<usize>::new());
    assert_eq!(prime_list(1), Vec::<usize>::new());
    assert_eq!(prime_list(2), vec![2]);
    assert_eq!(prime_list(3), vec![2, 3]);
    assert_eq!(prime_list(4), vec![2, 3]);
}

#[test]
fn base_sieve_includes_a_prime_bound() {
    assert_eq!(prime_list(13), vec![2, 3, 5, 7, 11, 13]);
    assert_eq!(prime_list(12), vec![2, 3, 5, 7, 11]);
}

#[test]
fn base_sieve_is_strictly_increasing_and_all_prime() {
    let primes = prime_list(10_000);
    assert_eq!(primes.len(), 1229);
    for pair in primes.windows(2) {
        assert!(pair[0] < pair[1]);
    }
    for p in &primes {
        assert!(is_prime_slow(*p));
    }
}

#[test]
fn base_sieve_misses_no_prime() {
    assert_eq!(prime_list(5000), primes_slow(0, 5001));
}

#[test]
fn base_sieve_keeps_squares_of_primes_out() {
    let primes = prime_list(121);
    for square in [4, 9, 25, 49, 121] {
        assert!(!primes.contains(&square));
    }
    assert_eq!(primes.last(), Some(&113));
}

#[test]
fn window_from_zero_equals_base_list() {
    for bound in [1usize, 2, 3, 4, 9, 16, 25, 100, 1024] {
        let base = prime_list(bound);
        assert_eq!(prime_list_range(&base, bound, 0, bound + 1), base);
    }
}

#[test]
fn window_from_zero_leaves_out_zero_and_one() {
    let base = prime_list(16);
    assert_eq!(prime_list_range(&base, 16, 0, 16), vec![2, 3, 5, 7, 11, 13]);
    assert_eq!(prime_list_range(&base, 16, 0, 2), Vec::<usize>::new());
    assert_eq!(prime_list_range(&base, 16, 1, 1), Vec::<usize>::new());
    assert_eq!(prime_list_range(&base, 16, 0, 3), vec![2]);
}

#[test]
fn window_keeps_a_marking_prime_that_lies_in_it() {
    let base = prime_list(16);
    assert_eq!(prime_list_range(&base, 16, 2, 1), vec![2]);
    assert_eq!(prime_list_range(&base, 16, 3, 1), vec![3]);
    assert_eq!(prime_list_range(&base, 16, 2, 9), vec![2, 3, 5, 7]);
    assert_eq!(prime_list_range(&base, 16, 3, 20), vec![3, 5, 7, 11, 13, 17, 19]);
    assert_eq!(prime_list_range(&base, 16, 13, 1), vec![13]);
}

#[test]
fn window_of_second_block() {
    let base = prime_list(16);
    assert_eq!(prime_list_range(&base, 16, 16, 16), vec![17, 19, 23, 29, 31]);
}

#[test]
fn empty_window_is_empty() {
    let base = prime_list(16);
    assert_eq!(prime_list_range(&base, 16, 0, 0), Vec::<usize>::new());
    assert_eq!(prime_list_range(&base, 16, 100, 0), Vec::<usize>::new());
}

#[test]
fn window_without_primes() {
    let base = prime_list(16);
    assert_eq!(prime_list_range(&base, 16, 24, 5), Vec::<usize>::new());
    assert_eq!(prime_list_range(&base, 16, 114, 13), Vec::<usize>::new());
}

#[test]
fn every_covered_window_matches_trial_division() {
    let bound = 16;
    let base = prime_list(bound);
    let reach = (bound + 1) * (bound + 1);
    for begin in 0..reach {
        for size in 0..=(reach - begin) {
            assert_eq!(
                prime_list_range(&base, bound, begin, size),
                primes_slow(begin, begin + size),
                "window {} + {}",
                begin,
                size
            );
        }
    }
}

#[test]
fn window_far_from_the_origin() {
    let bound = 1024;
    let base = prime_list(bound);
    let begin = 1_000_000;
    assert_eq!(prime_list_range(&base, bound, begin, 1000), primes_slow(begin, begin + 1000));
    let last = (bound + 1) * (bound + 1);
    assert_eq!(prime_list_range(&base, bound, last - 500, 500), primes_slow(last - 500, last));
}

#[test]
fn window_beyond_the_reach_of_the_small_primes() {
    // with the primes up to 4 only, 25 and 35 pass the sieve
    let base = prime_list(4);
    assert_eq!(base, vec![2, 3]);
    assert_eq!(prime_list_range(&base, 4, 20, 17), vec![23, 25, 29, 31, 35]);
}

#[test]
fn marking_stops_at_the_first_square_that_reaches_the_end() {
    // 3 * 3 = 9 is the end of the window, so only 2 marks: 3 is not used
    let base = prime_list(16);
    assert_eq!(prime_list_range(&base, 16, 5, 4), vec![5, 7]);
    // the end of the window is 10 > 9, so 3 marks 9
    assert_eq!(prime_list_range(&base, 16, 5, 5), vec![5, 7]);
    // with the primes up to 2 alone, 9 passes a window that ends at 10
    let two = prime_list(2);
    assert_eq!(prime_list_range(&two, 2, 5, 5), vec![5, 7, 9]);
}
