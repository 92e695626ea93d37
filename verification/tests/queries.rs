use prime_index::{answer_nth_prime, Answer, PrimeError, PrimeIndex, N, SQRTN};

fn trial_division(n: usize) -> bool {
    if n < 2 {
        return false;
    }
    let mut d = 2;
    while d * d <= n {
        if n % d == 0 {
            return false;
        }
        d += 1;
    }
    true
}

fn true_counts(width: usize, blocks: usize) -> Vec<usize> {
    (0..blocks)
        .map(|i| (i * width..(i + 1) * width).filter(|n| trial_division(*n)).count())
        .collect()
}

fn small_index() -> PrimeIndex {
    PrimeIndex::new(4, vec![6, 5]).unwrap()
}

#[test]
fn default_block_is_a_square() {
    assert_eq!(SQRTN, 4096);
    assert_eq!(N, SQRTN * SQRTN);
}

#[test]
fn small_index_holds_what_it_was_built_from() {
    let index = small_index();
    assert_eq!(index.width(), 16);
    assert_eq!(index.base_primes(), &vec![2, 3, 5, 7, 11, 13]);
    assert_eq!(index.counts(), &vec![6, 5]);
    assert_eq!(index.partial_sums(), &vec![0, 6, 11]);
    assert_eq!(index.total_primes(), 11);
    assert_eq!(index.total_range(), 32);
}

#[test]
fn small_index_scenario() {
    let index = small_index();
    assert_eq!(index.nth_prime(6), 13);
    assert_eq!(index.nth_prime(7), 17);
    assert_eq!(index.prime_count(16), 6);
    assert_eq!(index.prime_count(20), 8);
}

#[test]
fn boundaries() {
    let index = small_index();
    assert_eq!(index.nth_prime(1), 2);
    assert_eq!(index.prime_count(0), 0);
    assert_eq!(index.prime_count(1), 0);
    assert_eq!(index.prime_count(2), 1);
}

#[test]
fn last_rank_and_end_of_range() {
    let index = small_index();
    assert_eq!(index.nth_prime(11), 31);
    assert_eq!(index.prime_count(31), 11);
    assert_eq!(index.prime_count(32), 11);
    assert_eq!(index.prime_count(15), 6);
    assert_eq!(index.prime_count(17), 7);
}

#[test]
fn every_rank_of_the_small_index() {
    let index = small_index();
    let expected = [2, 3, 5, 7, 11, 13, 17, 19, 23, 29, 31];
    for (i, p) in expected.iter().enumerate() {
        assert_eq!(index.nth_prime(i + 1), *p);
    }
}

#[test]
fn rank_of_the_nth_prime_is_n() {
    let index = small_index();
    for x in 1..=index.total_primes() {
        assert_eq!(index.prime_count(index.nth_prime(x)), x);
    }
}

#[test]
fn count_rises_by_one_exactly_at_primes() {
    let index = small_index();
    for p in 1..=index.total_range() {
        let step = index.prime_count(p) - index.prime_count(p - 1);
        assert_eq!(step, if trial_division(p) { 1 } else { 0 }, "at {}", p);
    }
}

#[test]
fn count_never_decreases() {
    let index = small_index();
    let mut before = 0;
    for x in 0..=index.total_range() {
        let now = index.prime_count(x);
        assert!(before <= now);
        before = now;
    }
}

#[test]
fn larger_index_against_trial_division() {
    let width = 100;
    let blocks = 60;
    let index = PrimeIndex::new(10, true_counts(width, blocks)).unwrap();
    assert_eq!(index.total_range(), 6000);
    let mut rank = 0;
    for x in 0..=index.total_range() {
        if trial_division(x) {
            rank += 1;
            assert_eq!(index.nth_prime(rank), x);
        }
        assert_eq!(index.prime_count(x), rank);
    }
    assert_eq!(index.total_primes(), rank);
    assert_eq!(rank, 783);
}

#[test]
fn widest_table_that_the_small_primes_reach() {
    // blocks of width 16: the primes up to 16 reach 17 * 17 - 1 = 18 * 16
    let index = PrimeIndex::new(4, true_counts(16, 18)).unwrap();
    assert_eq!(index.total_range(), 288);
    assert_eq!(index.total_primes(), 61);
    assert_eq!(index.nth_prime(61), 283);
    assert_eq!(index.prime_count(288), 61);
    assert!(index.table_matches());
    assert!(PrimeIndex::new(4, true_counts(16, 19)).is_none());
}

#[test]
fn unsupported_configurations_are_refused() {
    assert!(PrimeIndex::new(0, Vec::new()).is_none());
    assert!(PrimeIndex::new(0, vec![0]).is_none());
    assert!(PrimeIndex::new(usize::MAX, Vec::new()).is_none());
    assert!(PrimeIndex::new(1, vec![0, 0, 1, 1]).is_none());
    assert!(PrimeIndex::new(4, vec![usize::MAX, 1]).is_none());
}

#[test]
fn smallest_blocks() {
    // blocks of width 1: [0, 1), [1, 2), [2, 3)
    let index = PrimeIndex::new(1, vec![0, 0, 1]).unwrap();
    assert_eq!(index.base_primes(), &Vec::<usize>::new());
    assert_eq!(index.total_primes(), 1);
    assert_eq!(index.total_range(), 3);
    assert_eq!(index.nth_prime(1), 2);
    assert_eq!(index.prime_count(1), 0);
    assert_eq!(index.prime_count(2), 1);
    assert_eq!(index.prime_count(3), 2);
}

#[test]
fn index_without_blocks() {
    let index = PrimeIndex::new(4, Vec::new()).unwrap();
    assert_eq!(index.total_primes(), 0);
    assert_eq!(index.total_range(), 0);
    assert_eq!(index.prime_count(0), 0);
    assert_eq!(index.lookup_nth_prime(1), Err(PrimeError::OutOfRange));
    assert!(index.table_matches());
}

#[test]
fn sieve_of_each_block_agrees_with_the_table() {
    let index = small_index();
    assert!(index.block_matches(0));
    assert!(index.block_matches(1));
    assert!(index.table_matches());
    let base = index.base_primes();
    for row in 0..2 {
        let found = prime_index::prime_list_range(base, 16, row * 16, 16);
        assert_eq!(found.len(), index.counts()[row]);
    }
}

#[test]
fn a_wrong_table_is_found_out() {
    let index = PrimeIndex::new(4, vec![6, 4]).unwrap();
    assert!(index.block_matches(0));
    assert!(!index.block_matches(1));
    assert!(!index.table_matches());
    let index = PrimeIndex::new(4, vec![7, 5]).unwrap();
    assert!(!index.block_matches(0));
    assert!(index.block_matches(1));
    assert!(!index.table_matches());
}

#[test]
fn lookup_checks_the_rank() {
    let index = small_index();
    assert_eq!(index.lookup_nth_prime(0), Err(PrimeError::OutOfRange));
    assert_eq!(index.lookup_nth_prime(1), Ok(2));
    assert_eq!(index.lookup_nth_prime(11), Ok(31));
    assert_eq!(index.lookup_nth_prime(12), Err(PrimeError::OutOfRange));
    assert_eq!(index.lookup_nth_prime(usize::MAX), Err(PrimeError::OutOfRange));
}

#[test]
fn lookup_checks_the_upper_bound() {
    let index = small_index();
    assert_eq!(index.lookup_prime_count(0), Ok(0));
    assert_eq!(index.lookup_prime_count(32), Ok(11));
    assert_eq!(index.lookup_prime_count(33), Err(PrimeError::OutOfRange));
}

#[test]
fn answer_to_a_single_rank() {
    let index = small_index();
    assert_eq!(answer_nth_prime(&index, Some(&vec![b"7".to_vec()])), Answer::Found(17));
    assert_eq!(answer_nth_prime(&index, Some(&vec![b"+1".to_vec()])), Answer::Found(2));
    assert_eq!(answer_nth_prime(&index, Some(&vec![b"011".to_vec()])), Answer::Found(31));
}

#[test]
fn answer_without_the_parameter() {
    let index = small_index();
    assert_eq!(answer_nth_prime(&index, None), Answer::MissingParameter);
}

#[test]
fn answer_to_no_or_several_values() {
    let index = small_index();
    assert_eq!(answer_nth_prime(&index, Some(&Vec::new())), Answer::NotSingle);
    let two = vec![b"1".to_vec(), b"2".to_vec()];
    assert_eq!(answer_nth_prime(&index, Some(&two)), Answer::NotSingle);
}

#[test]
fn answer_to_text_that_is_no_number() {
    let index = small_index();
    for text in ["", "seven", "-1", "7 ", "1.0"] {
        let given = vec![text.as_bytes().to_vec()];
        assert_eq!(answer_nth_prime(&index, Some(&given)), Answer::NotANumber);
    }
}

#[test]
fn answer_to_a_rank_out_of_range() {
    let index = small_index();
    assert_eq!(answer_nth_prime(&index, Some(&vec![b"0".to_vec()])), Answer::Zero);
    assert_eq!(answer_nth_prime(&index, Some(&vec![b"12".to_vec()])), Answer::TooLarge(12));
    assert_eq!(answer_nth_prime(&index, Some(&vec![b"11".to_vec()])), Answer::Found(31));
}

#[test]
fn answer_from_an_index_without_blocks() {
    let index = PrimeIndex::new(4, Vec::new()).unwrap();
    assert_eq!(answer_nth_prime(&index, Some(&vec![b"0".to_vec()])), Answer::Zero);
    assert_eq!(answer_nth_prime(&index, Some(&vec![b"1".to_vec()])), Answer::TooLarge(1));
}
