//! The sieve of Eratosthenes over `0..=n`: the list of small primes that
//! answers low ranks directly and seeds every windowed sieve.

use vstd::prelude::*;
use vstd::arithmetic::div_mod::{lemma_fundamental_div_mod, lemma_mod_multiples_basic};
use crate::primality::{
    as_ints, is_prime, lemma_as_ints_elements, lemma_divides_transitive,
    lemma_no_multiple_between, lemma_primes_in_members, lemma_small_prime_factor, primes_in,
};

verus! {

/// `m` is at least 2 and has no proper divisor `d` with `2 <= d < limit`.
pub open spec fn no_factor_below(m: int, limit: int) -> bool {
    m >= 2 && forall|d: int| 2 <= d < limit && d < m ==> #[trigger] (m % d) != 0
}

/// The integers `n` with `lo <= n < hi` that `keep` holds of, ascending.
pub open spec fn select_in(lo: int, hi: int, keep: spec_fn(int) -> bool) -> Seq<int>
    decreases hi - lo,
{
    if hi <= lo {
        Seq::empty()
    } else if keep(hi - 1) {
        select_in(lo, hi - 1, keep).push(hi - 1)
    } else {
        select_in(lo, hi - 1, keep)
    }
}

/// Selecting by a predicate that agrees with primality on the range gives
/// the primes of the range.
pub proof fn lemma_select_primes(lo: int, hi: int, keep: spec_fn(int) -> bool)
    requires
        forall|n: int| lo <= n < hi ==> #[trigger] keep(n) == is_prime(n),
    ensures
        select_in(lo, hi, keep) == primes_in(lo, hi),
    decreases hi - lo,
{
    if hi > lo {
        lemma_select_primes(lo, hi - 1, keep);
    }
}

/// For `i >= 1`, `i <= n / i` says that the square of `i` is at most `n`.
pub proof fn lemma_square_by_division(i: int, n: int)
    requires
        i >= 1,
        n >= 0,
    ensures
        (i <= n / i) <==> (i * i <= n),
{
    lemma_fundamental_div_mod(n, i);
    let q = n / i;
    let r = n % i;
    assert(0 <= r < i);
    assert((i <= q) <==> (i * i <= n)) by (nonlinear_arith)
        requires
            i >= 1,
            n == i * q + r,
            0 <= r < i,
    ;
}

/// Gathers `begin + j` for every offset `j` whose flag is set and whose
/// value is at least 2, in ascending order.
pub(crate) fn collect_flagged(flags: &Vec<bool>, begin: usize, Ghost(keep): Ghost<
    spec_fn(int) -> bool,
>) -> (out: Vec<usize>)
    requires
        begin + flags.len() <= usize::MAX,
        forall|j: int|
            0 <= j < flags.len() ==> keep(begin + j) == (#[trigger] flags[j] && begin + j >= 2),
    ensures
        as_ints(out@) == select_in(begin as int, begin + flags.len(), keep),
{
    let mut out: Vec<usize> = Vec::new();
    let mut j: usize = 0;
    assert(as_ints(out@) =~= select_in(begin as int, begin as int, keep));
    while j < flags.len()
        invariant
            j <= flags.len(),
            begin + flags.len() <= usize::MAX,
            forall|j: int|
                0 <= j < flags.len() ==> keep(begin + j) == (#[trigger] flags[j] && begin + j
                    >= 2),
            as_ints(out@) == select_in(begin as int, begin + j, keep),
        decreases flags.len() - j,
    {
        let value: usize = begin + j;
        if flags[j] && value >= 2 {
            let ghost before = out@;
            out.push(value);
            assert(as_ints(out@) =~= as_ints(before).push(value as int));
        }
        j += 1;
    }
    out
}

/// Clears the flag of every multiple of `i` from `i * i` up to `n`.
fn strike_multiples(flags: &mut Vec<bool>, n: usize, i: usize)
    requires
        old(flags).len() == n + 1,
        n < usize::MAX,
        2 <= i,
        i * i <= n,
    ensures
        final(flags).len() == n + 1,
        forall|m: int|
            0 <= m <= n ==> #[trigger] final(flags)[m] == (old(flags)[m] && !(m % (i as int) == 0
                && i * i <= m)),
{
    let mut j: usize = i * i;
    let ghost mut k: int = i as int;
    loop
        invariant_except_break
            flags.len() == n + 1,
            n < usize::MAX,
            2 <= i,
            i * i <= j <= n,
            j == k * i,
            forall|m: int|
                0 <= m <= n ==> #[trigger] flags[m] == (old(flags)[m] && !(m % (i as int) == 0
                    && i * i <= m < j)),
        ensures
            flags.len() == n + 1,
            forall|m: int|
                0 <= m <= n ==> #[trigger] flags[m] == (old(flags)[m] && !(m % (i as int) == 0
                    && i * i <= m)),
        decreases n - j,
    {
        let ghost before = flags@;
        flags.set(j, false);
        proof {
            lemma_mod_multiples_basic(k, i as int);
            assert((k + 1) * i == j + i) by (nonlinear_arith)
                requires
                    j == k * i,
            ;
            assert forall|m: int| j < m < j + i implies #[trigger] (m % (i as int)) != 0 by {
                lemma_no_multiple_between(i as int, k, m);
            }
            assert forall|m: int| 0 <= m <= n implies #[trigger] flags[m] == (old(flags)[m] && !(m
                % (i as int) == 0 && i * i <= m < j + i)) by {
                assert(before[m] == (old(flags)[m] && !(m % (i as int) == 0 && i * i <= m < j)));
            }
        }
        if n - j < i {
            break ;
        }
        j += i;
        proof {
            k = k + 1;
        }
    }
}

/// The primes not exceeding `n`, in ascending order.
///
/// The result is exactly the ascending sequence of primes in `0..=n`: every
/// element is prime, the elements strictly increase, and no prime up to `n`
/// is missing.
pub fn prime_list(n: usize) -> (primes: Vec<usize>)
    requires
        n < usize::MAX,
    ensures
        as_ints(primes@) == primes_in(0, n + 1),
        forall|k: int|
            0 <= k < primes.len() ==> is_prime(#[trigger] primes[k] as int) && primes[k] <= n,
        forall|j: int, k: int|
            0 <= j < k < primes.len() ==> #[trigger] primes[j] < #[trigger] primes[k],
        forall|p: int|
            is_prime(p) && p <= n ==> exists|k: int| 0 <= k < primes.len() && primes[k] == p,
{
    let mut flags: Vec<bool> = vec![true; n + 1];
    flags.set(0, false);
    if n >= 1 {
        flags.set(1, false);
    }
    let mut i: usize = 2;
    while i <= n / i
        invariant
            2 <= i <= n + 2,
            n < usize::MAX,
            flags.len() == n + 1,
            forall|m: int| 0 <= m <= n ==> #[trigger] flags[m] == no_factor_below(m, i as int),
        decreases n + 2 - i,
    {
        proof {
            lemma_square_by_division(i as int, n as int);
            assert(i <= n) by (nonlinear_arith)
                requires
                    i * i <= n,
                    i >= 2,
            ;
        }
        let ghost before = flags@;
        if flags[i] {
            strike_multiples(&mut flags, n, i);
        }
        proof {
            assert forall|m: int| 0 <= m <= n implies #[trigger] flags[m] == no_factor_below(
                m,
                i + 1,
            ) by {
                lemma_sieve_step(before, n as int, i as int, m);
            }
        }
        i += 1;
    }
    proof {
        lemma_square_by_division(i as int, n as int);
        assert forall|m: int| 0 <= m <= n implies #[trigger] flags[m] == is_prime(m) by {
            if m >= 2 && !is_prime(m) {
                let p = lemma_small_prime_factor(m);
                assert(p < i && p < m) by (nonlinear_arith)
                    requires
                        p * p <= m,
                        m <= n,
                        n < i * i,
                        p >= 2,
                        i >= 2,
                ;
            }
        }
    }
    let ghost keep = |m: int| is_prime(m);
    let primes = collect_flagged(&flags, 0, Ghost(keep));
    proof {
        lemma_select_primes(0, n + 1, keep);
        lemma_primes_in_members(0, n + 1);
        let s = primes_in(0, n + 1);
        lemma_as_ints_elements(primes@, s);
        assert forall|p: int| is_prime(p) && p <= n implies exists|k: int|
            0 <= k < primes.len() && primes[k] == p by {
            assert(s.contains(p));
            let k = choose|k: int| 0 <= k < s.len() && s[k] == p;
            assert(primes[k] == p);
        }
    }
    primes
}

/// One round of the sieve: once every multiple of `i` from `i * i` on has
/// been struck (where `i` itself was still flagged), the flags describe the
/// numbers with no factor below `i + 1`.
proof fn lemma_sieve_step(before: Seq<bool>, n: int, i: int, m: int)
    requires
        2 <= i,
        i * i <= n,
        0 <= m <= n,
        before.len() == n + 1,
        forall|t: int| 0 <= t <= n ==> #[trigger] before[t] == no_factor_below(t, i),
    ensures
        before[i] ==> (before[m] && !(m % i == 0 && i * i <= m)) == no_factor_below(m, i + 1),
        !before[i] ==> before[m] == no_factor_below(m, i + 1),
{
    assert(i <= n) by (nonlinear_arith)
        requires
            i * i <= n,
            i >= 2,
    ;
    assert(before[m] == no_factor_below(m, i));
    assert(before[i] == no_factor_below(i, i));
    if no_factor_below(m, i) && i < m && m % i == 0 {
        if before[i] {
            // the cofactor of `i` in `m` is no smaller than `i`
            lemma_fundamental_div_mod(m, i);
            let q = m / i;
            assert(q >= 2) by (nonlinear_arith)
                requires
                    m == i * q,
                    i < m,
                    i >= 2,
            ;
            lemma_mod_multiples_basic(i, q);
            assert(m % q == 0);
            assert(q < m) by (nonlinear_arith)
                requires
                    m == i * q,
                    q >= 2,
                    i >= 2,
            ;
            assert(q >= i);
            assert(i * i <= m) by (nonlinear_arith)
                requires
                    m == i * q,
                    q >= i,
                    i >= 2,
            ;
        } else {
            let d = choose|d: int| 2 <= d < i && d < i && #[trigger] (i % d) == 0;
            lemma_divides_transitive(d, i, m);
            assert(false);
        }
    }
    if i * i <= m {
        assert(i < m) by (nonlinear_arith)
            requires
                i * i <= m,
                i >= 2,
        ;
    }
    if no_factor_below(m, i) && !(i < m && m % i == 0) {
        assert(no_factor_below(m, i + 1));
    }
}

} // verus!
