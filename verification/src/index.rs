//! The prime index: the small primes, the block-count table and its
//! cumulative counts, built once and then only read, and the two queries
//! answered from them.

use vstd::prelude::*;
use crate::base_sieve::prime_list;
use crate::error::PrimeError;
use crate::primality::{
    as_ints, is_prime, lemma_as_ints_elements, lemma_prime_pi_injective, lemma_primes_in_members,
    lemma_primes_in_rank, lemma_primes_in_split, nth_prime_of, prime_pi, primes_in,
};
use crate::segmented::{covers, lemma_survivors_are_primes, prime_list_range, survivors_in};
use crate::table::{build_prefix_sum, prefix_sums, sum_to};

verus! {

/// The side of the default block: blocks are `SQRTN * SQRTN` wide.
pub const SQRTN: usize = 4096;

/// The default block width.
pub const N: usize = 16777216;

/// The immutable state behind every query.
pub struct PrimeIndex {
    sqrt: usize,
    width: usize,
    base: Vec<usize>,
    counts: Vec<usize>,
    sums: Vec<usize>,
}

/// What a `PrimeIndex` holds, as mathematical values.
pub struct IndexView {
    /// The side of a block; the block width is its square.
    pub sqrt: int,
    /// The block width.
    pub width: int,
    /// The small primes, ascending.
    pub base: Seq<usize>,
    /// The number of primes recorded for each block.
    pub counts: Seq<usize>,
    /// The cumulative counts, one entry more than `counts`.
    pub sums: Seq<usize>,
}

/// Every recorded count is the true number of primes of its block
/// `[i * width, (i + 1) * width)`.
pub open spec fn exact_counts(counts: Seq<usize>, width: int) -> bool {
    forall|i: int|
        0 <= i < counts.len() ==> #[trigger] counts[i] == primes_in(i * width, (i + 1) * width).len()
}

/// A block side and a table that an index can be built from: the block is
/// not empty, the covered range and the total count fit the machine word
/// with one to spare, and the small primes reach the end of the last block.
pub open spec fn supported(sqrt: int, counts: Seq<usize>) -> bool {
    &&& sqrt >= 1
    &&& counts.len() * (sqrt * sqrt) < usize::MAX
    &&& sqrt * sqrt < usize::MAX
    &&& covers(sqrt * sqrt, counts.len() * (sqrt * sqrt) + 1)
    &&& sum_to(counts, counts.len() as int) <= usize::MAX
}

/// With exact counts, the cumulative count before block `i` is the number
/// of primes below the block's start.
pub proof fn lemma_exact_prefix(counts: Seq<usize>, width: int, i: int)
    requires
        width >= 0,
        exact_counts(counts, width),
        0 <= i <= counts.len(),
    ensures
        sum_to(counts, i) == primes_in(0, i * width).len(),
    decreases i,
{
    if i > 0 {
        lemma_exact_prefix(counts, width, i - 1);
        assert(0 <= (i - 1) * width <= i * width) by (nonlinear_arith)
            requires
                width >= 0,
                i >= 1,
        ;
        lemma_primes_in_split(0, (i - 1) * width, i * width);
        assert(counts[i - 1] == primes_in((i - 1) * width, (i - 1 + 1) * width).len());
    } else {
        assert(i * width == 0);
    }
}

/// The small primes that reach the end of a range reach every end before it.
proof fn lemma_covers_earlier(bound: int, end: int, earlier: int)
    requires
        covers(bound, end),
        earlier <= end,
    ensures
        covers(bound, earlier),
{
}

/// The rank of the `x`-th prime is `x`: for every rank that the table
/// covers, the `x`-th prime exists, lies inside the covered range, and
/// exactly `x` primes do not exceed it.
pub proof fn lemma_rank_of_nth_prime(index: &PrimeIndex, x: int)
    requires
        index.wf(),
        index.table_exact(),
        1 <= x <= index.spec_total_primes(),
    ensures
        is_prime(nth_prime_of(x)),
        0 <= nth_prime_of(x) < index.spec_total_range(),
        prime_pi(nth_prime_of(x)) == x,
{
    let m = index@.counts.len() as int;
    let w = index@.width;
    index.lemma_wf_facts();
    lemma_exact_prefix(index@.counts, w, m);
    let covered = primes_in(0, m * w);
    let v = covered[x - 1];
    lemma_primes_in_members(0, m * w);
    lemma_primes_in_rank(0, m * w, x - 1);
    assert(is_prime(v) && prime_pi(v) == x);
    lemma_prime_pi_injective(v, nth_prime_of(x));
}

/// The table and the sieve never disagree: with exact counts, the sieve of
/// block `row` yields as many values as the table records for it.
pub proof fn lemma_block_sieve_matches_table(index: &PrimeIndex, row: int)
    requires
        index.wf(),
        index.table_exact(),
        0 <= row < index@.counts.len(),
    ensures
        survivors_in(
            index@.width,
            row * index@.width + index@.width,
            row * index@.width,
            row * index@.width + index@.width,
        ).len() == index@.counts[row],
{
    let m = index@.counts.len() as int;
    let w = index@.width;
    index.lemma_wf_facts();
    assert(0 <= row * w && row * w + w == (row + 1) * w && (row + 1) * w <= m * w)
        by (nonlinear_arith)
        requires
            0 <= row < m,
            w >= 0,
    ;
    lemma_covers_earlier(w, m * w + 1, (row + 1) * w);
    lemma_survivors_are_primes(w, (row + 1) * w, row * w, (row + 1) * w);
}

impl View for PrimeIndex {
    type V = IndexView;

    closed spec fn view(&self) -> IndexView {
        IndexView {
            sqrt: self.sqrt as int,
            width: self.width as int,
            base: self.base@,
            counts: self.counts@,
            sums: self.sums@,
        }
    }
}

impl PrimeIndex {
    /// The index is consistent: the block width is the square of its side,
    /// the small primes are exactly the primes up to the block width, the
    /// cumulative counts are those of the table, and the table is one that
    /// an index can be built from.
    pub open spec fn wf(&self) -> bool {
        &&& self@.width == self@.sqrt * self@.sqrt
        &&& supported(self@.sqrt, self@.counts)
        &&& as_ints(self@.base) == primes_in(0, self@.width + 1)
        &&& as_ints(self@.sums) == prefix_sums(self@.counts)
    }

    /// The table tells the truth: each count is the number of primes of its
    /// block.
    pub open spec fn table_exact(&self) -> bool {
        exact_counts(self@.counts, self@.width)
    }

    /// The number of primes that the table covers.
    pub open spec fn spec_total_primes(&self) -> int {
        sum_to(self@.counts, self@.counts.len() as int)
    }

    /// The end of the range that the table covers.
    pub open spec fn spec_total_range(&self) -> int {
        self@.counts.len() * self@.width
    }

    /// What a consistent index holds, place by place.
    proof fn lemma_wf_facts(&self)
        requires
            self.wf(),
        ensures
            self@.sqrt >= 1,
            self@.width >= 1,
            self@.sums.len() == self@.counts.len() + 1,
            forall|i: int|
                0 <= i <= self@.counts.len() ==> #[trigger] self@.sums[i] as int == sum_to(
                    self@.counts,
                    i,
                ),
            self@.base.len() == primes_in(0, self@.width + 1).len(),
            forall|k: int|
                0 <= k < self@.base.len() ==> #[trigger] self@.base[k] as int == primes_in(
                    0,
                    self@.width + 1,
                )[k],
    {
        let w = self@.width;
        let r = self@.sqrt;
        assert(w >= 1) by (nonlinear_arith)
            requires
                w == r * r,
                r >= 1,
        ;
        lemma_as_ints_elements(self@.sums, prefix_sums(self@.counts));
        lemma_as_ints_elements(self@.base, primes_in(0, w + 1));
    }

    /// Builds the index for blocks of width `sqrt * sqrt` from the table of
    /// their prime counts: sieves the small primes and derives the
    /// cumulative counts.
    ///
    /// Returns `None` exactly when the block side and the table are not
    /// `supported`.
    pub fn new(sqrt: usize, counts: Vec<usize>) -> (index: Option<PrimeIndex>)
        ensures
            match index {
                Some(ix) => {
                    &&& ix.wf()
                    &&& ix@.sqrt == sqrt
                    &&& ix@.counts == counts@
                },
                None => !supported(sqrt as int, counts@),
            },
    {
        if sqrt == 0 {
            return None;
        }
        let width: usize = match sqrt.checked_mul(sqrt) {
            Some(w) => w,
            None => {
                return None;
            },
        };
        if width == usize::MAX {
            return None;
        }
        let m: usize = counts.len();
        assert(width >= 1) by (nonlinear_arith)
            requires
                width == sqrt * sqrt,
                sqrt >= 1,
        ;
        let range: usize = match m.checked_mul(width) {
            Some(r) => r,
            None => {
                return None;
            },
        };
        if range == usize::MAX {
            return None;
        }
        proof {
            // the small primes reach `m * width` exactly when `m <= width + 2`
            assert(covers(width as int, m * width + 1) <==> m <= width + 2) by (nonlinear_arith)
                requires
                    width >= 1,
                    m >= 0,
            {
                assert((width + 1) * (width + 1) == (width + 2) * width + 1);
                if m <= width + 2 {
                    assert(m * width <= (width + 2) * width);
                } else {
                    assert(m * width >= (width + 3) * width);
                }
            }
        }
        if m > width && m - width > 2 {
            return None;
        }
        let sums: Vec<usize> = match build_prefix_sum(&counts) {
            Some(s) => s,
            None => {
                return None;
            },
        };
        proof {
            assert(as_ints(sums@)[m as int] == prefix_sums(counts@)[m as int]);
        }
        let base: Vec<usize> = prime_list(width);
        Some(PrimeIndex { sqrt, width, base, counts, sums })
    }

    /// The block width.
    pub fn width(&self) -> (w: usize)
        ensures
            w == self@.width,
    {
        self.width
    }

    /// The small primes: every prime up to the block width, ascending.
    pub fn base_primes(&self) -> (base: &Vec<usize>)
        ensures
            base@ == self@.base,
    {
        &self.base
    }

    /// The table of block counts.
    pub fn counts(&self) -> (counts: &Vec<usize>)
        ensures
            counts@ == self@.counts,
    {
        &self.counts
    }

    /// The cumulative counts.
    pub fn partial_sums(&self) -> (sums: &Vec<usize>)
        ensures
            sums@ == self@.sums,
    {
        &self.sums
    }

    /// The number of primes that the table covers: the greatest rank that
    /// `nth_prime` answers.
    pub fn total_primes(&self) -> (total: usize)
        requires
            self.wf(),
        ensures
            total == self.spec_total_primes(),
    {
        proof {
            self.lemma_wf_facts();
        }
        self.sums[self.counts.len()]
    }

    /// The end of the range that the table covers: the greatest argument
    /// that `prime_count` answers.
    pub fn total_range(&self) -> (total: usize)
        requires
            self.wf(),
        ensures
            total == self.spec_total_range(),
    {
        proof {
            self.lemma_wf_facts();
        }
        self.counts.len() * self.width
    }

    /// The index of the block that holds the `x`-th prime: the one whose
    /// cumulative counts straddle `x`.
    fn locate(&self, x: usize) -> (lo: usize)
        requires
            self.wf(),
            1 <= x <= self.spec_total_primes(),
        ensures
            lo < self@.counts.len(),
            self@.sums[lo as int] < x <= self@.sums[lo + 1],
    {
        let m: usize = self.counts.len();
        proof {
            self.lemma_wf_facts();
        }
        let mut lo: usize = 0;
        let mut hi: usize = m;
        while hi - lo > 1
            invariant
                lo < hi <= m,
                m + 1 == self.sums.len(),
                self.sums[lo as int] < x <= self.sums[hi as int],
            decreases hi - lo,
        {
            let mid: usize = lo + (hi - lo) / 2;
            if x > self.sums[mid] {
                lo = mid;
            } else {
                hi = mid;
            }
        }
        lo
    }

    /// The `x`-th prime, counting from 1.
    ///
    /// The result is the prime that exactly `x` primes do not exceed, and it
    /// lies inside the range that the table covers.
    pub fn nth_prime(&self, x: usize) -> (p: usize)
        requires
            self.wf(),
            self.table_exact(),
            1 <= x <= self.spec_total_primes(),
        ensures
            is_prime(p as int),
            prime_pi(p as int) == x,
            p == nth_prime_of(x as int),
            p < self.spec_total_range(),
    {
        let lo: usize = self.locate(x);
        let ghost m = self.counts@.len() as int;
        let ghost w = self.width as int;
        proof {
            self.lemma_wf_facts();
            lemma_exact_prefix(self.counts@, w, lo as int);
            assert(self.counts@[lo as int] == primes_in(lo * w, (lo + 1) * w).len());
            assert(0 <= lo * w && lo * w + w == (lo + 1) * w && (lo + 1) * w <= m * w && w * lo
                == lo * w) by (nonlinear_arith)
                requires
                    0 <= lo < m,
                    w >= 1,
            ;
        }
        let p: usize = if lo > 0 {
            let begin: usize = self.width * lo;
            proof {
                lemma_covers_earlier(w, m * w + 1, begin + w);
            }
            let found: Vec<usize> = prime_list_range(&self.base, self.width, begin, self.width);
            let rem: usize = x - self.sums[lo];
            let p: usize = found[rem - 1];
            proof {
                let block = primes_in(begin as int, begin + w);
                lemma_as_ints_elements(found@, block);
                lemma_primes_in_members(begin as int, begin + w);
                lemma_primes_in_rank(begin as int, begin + w, rem - 1);
                lemma_primes_in_split(0, begin as int, p + 1);
            }
            p
        } else {
            proof {
                lemma_primes_in_split(0, w, w + 1);
                let low = primes_in(0, w);
                let all = primes_in(0, w + 1);
                assert(lo * w == 0 && (lo + 1) * w == w) by (nonlinear_arith)
                    requires
                        lo == 0,
                ;
                assert(low.len() == self.counts@[0]);
                assert(all[x - 1] == low[x - 1]);
                lemma_primes_in_members(0, w);
                lemma_primes_in_rank(0, w, x - 1);
            }
            self.base[x - 1]
        };
        proof {
            let q = choose|q: int| is_prime(q) && prime_pi(q) == x;
            lemma_prime_pi_injective(p as int, q);
        }
        p
    }

    /// The number of primes that do not exceed `x`.
    pub fn prime_count(&self, x: usize) -> (count: usize)
        requires
            self.wf(),
            self.table_exact(),
            x <= self.spec_total_range(),
        ensures
            count == prime_pi(x as int),
    {
        let ghost m = self.counts@.len() as int;
        let ghost w = self.width as int;
        proof {
            self.lemma_wf_facts();
        }
        let row: usize = x / self.width;
        let col: usize = x % self.width;
        proof {
            vstd::arithmetic::div_mod::lemma_fundamental_div_mod(x as int, w);
            assert(row <= m && 0 <= row * w) by (nonlinear_arith)
                requires
                    x == w * row + col,
                    0 <= col < w,
                    x <= m * w,
                    row >= 0,
                    m >= 0,
            ;
            assert(w * row == row * w) by (nonlinear_arith);
            lemma_exact_prefix(self.counts@, w, row as int);
            lemma_covers_earlier(w, m * w + 1, x + 1);
            lemma_primes_in_split(0, row * w, x + 1);
            lemma_primes_in_members(0, x + 1);
        }
        let begin: usize = row * self.width;
        let found: Vec<usize> = prime_list_range(&self.base, self.width, begin, col + 1);
        proof {
            lemma_as_ints_elements(found@, primes_in(begin as int, x + 1));
        }
        self.sums[row] + found.len()
    }

    /// Whether the table's count for block `row` is the number of primes
    /// that a sieve of the block finds.
    pub fn block_matches(&self, row: usize) -> (same: bool)
        requires
            self.wf(),
            row < self@.counts.len(),
        ensures
            same == (self@.counts[row as int] == primes_in(
                row * self@.width,
                (row + 1) * self@.width,
            ).len()),
    {
        let ghost m = self.counts@.len() as int;
        let ghost w = self.width as int;
        proof {
            self.lemma_wf_facts();
            assert(0 <= row * w && row * w + w == (row + 1) * w && (row + 1) * w <= m * w)
                by (nonlinear_arith)
                requires
                    0 <= row < m,
                    w >= 0,
            ;
            lemma_covers_earlier(w, m * w + 1, (row + 1) * w);
        }
        let begin: usize = row * self.width;
        let found: Vec<usize> = prime_list_range(&self.base, self.width, begin, self.width);
        proof {
            lemma_as_ints_elements(found@, primes_in(begin as int, begin + w));
        }
        found.len() == self.counts[row]
    }

    /// Whether the whole table tells the truth, found by sieving every
    /// block.
    pub fn table_matches(&self) -> (same: bool)
        requires
            self.wf(),
        ensures
            same == self.table_exact(),
    {
        let m: usize = self.counts.len();
        let mut row: usize = 0;
        while row < m
            invariant
                row <= m,
                m == self.counts.len(),
                self.wf(),
                forall|i: int|
                    0 <= i < row ==> #[trigger] self@.counts[i] == primes_in(
                        i * self@.width,
                        (i + 1) * self@.width,
                    ).len(),
            decreases m - row,
        {
            if !self.block_matches(row) {
                return false;
            }
            row += 1;
        }
        true
    }

    /// The `x`-th prime, for any `x`: `nth_prime` guarded by a test of its
    /// domain.
    ///
    /// Fails with `OutOfRange` exactly when `x` is zero or exceeds the number
    /// of primes that the table covers.
    pub fn lookup_nth_prime(&self, x: usize) -> (answer: Result<usize, PrimeError>)
        requires
            self.wf(),
            self.table_exact(),
        ensures
            match answer {
                Ok(p) => {
                    &&& 1 <= x <= self.spec_total_primes()
                    &&& p == nth_prime_of(x as int)
                    &&& is_prime(p as int)
                    &&& prime_pi(p as int) == x
                    &&& p < self.spec_total_range()
                },
                Err(e) => e == PrimeError::OutOfRange && !(1 <= x <= self.spec_total_primes()),
            },
    {
        if x == 0 || x > self.total_primes() {
            Err(PrimeError::OutOfRange)
        } else {
            Ok(self.nth_prime(x))
        }
    }

    /// The number of primes up to `x`, for any `x`: `prime_count` guarded by
    /// a test of its domain.
    ///
    /// Fails with `OutOfRange` exactly when `x` exceeds the range that the
    /// table covers.
    pub fn lookup_prime_count(&self, x: usize) -> (answer: Result<usize, PrimeError>)
        requires
            self.wf(),
            self.table_exact(),
        ensures
            match answer {
                Ok(count) => x <= self.spec_total_range() && count == prime_pi(x as int),
                Err(e) => e == PrimeError::OutOfRange && x > self.spec_total_range(),
            },
    {
        if x > self.total_range() {
            Err(PrimeError::OutOfRange)
        } else {
            Ok(self.prime_count(x))
        }
    }
}

} // verus!
