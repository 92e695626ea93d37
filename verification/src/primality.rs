//! The mathematical model: primality, the ascending sequence of primes in a
//! half-open range, the prime-counting function, and the facts about them
//! that the sieves and the queries rest on.

use vstd::prelude::*;
use vstd::arithmetic::div_mod::{lemma_fundamental_div_mod, lemma_mod_multiples_basic};

verus! {

/// `n` is prime: at least 2, with no divisor strictly between 1 and itself.
pub open spec fn is_prime(n: int) -> bool {
    n >= 2 && forall|d: int| 2 <= d < n ==> #[trigger] (n % d) != 0
}

/// The primes `p` with `lo <= p < hi`, in ascending order.
pub open spec fn primes_in(lo: int, hi: int) -> Seq<int>
    decreases hi - lo,
{
    if hi <= lo {
        Seq::empty()
    } else if is_prime(hi - 1) {
        primes_in(lo, hi - 1).push(hi - 1)
    } else {
        primes_in(lo, hi - 1)
    }
}

/// The number of primes `p` with `p <= x`.
pub open spec fn prime_pi(x: int) -> nat {
    primes_in(0, x + 1).len()
}

/// The `x`-th prime, counting from 1: the prime that exactly `x` primes do
/// not exceed.
pub open spec fn nth_prime_of(x: int) -> int {
    choose|v: int| is_prime(v) && prime_pi(v) == x
}

/// The mathematical value of each element of a sequence of machine integers.
pub open spec fn as_ints(s: Seq<usize>) -> Seq<int> {
    s.map_values(|x: usize| x as int)
}

/// A sequence of machine integers whose values form `t` has the length of
/// `t` and, place by place, its elements.
pub proof fn lemma_as_ints_elements(s: Seq<usize>, t: Seq<int>)
    requires
        as_ints(s) == t,
    ensures
        s.len() == t.len(),
        forall|i: int| 0 <= i < s.len() ==> #[trigger] s[i] as int == t[i],
{
    assert(as_ints(s).len() == s.len());
    assert forall|i: int| 0 <= i < s.len() implies #[trigger] s[i] as int == t[i] by {
        assert(as_ints(s)[i] == s[i] as int);
    }
}

/// Between two consecutive multiples of `i` there is no multiple of `i`.
pub proof fn lemma_no_multiple_between(i: int, k: int, m: int)
    requires
        i > 0,
        k * i < m < (k + 1) * i,
    ensures
        m % i != 0,
{
    lemma_fundamental_div_mod(m, i);
    if m % i == 0 {
        let q = m / i;
        assert(false) by (nonlinear_arith)
            requires
                i > 0,
                m == i * q,
                k * i < m < (k + 1) * i,
        ;
    }
}

/// Divisibility is transitive.
pub proof fn lemma_divides_transitive(a: int, b: int, c: int)
    requires
        a > 0,
        b > 0,
        b % a == 0,
        c % b == 0,
    ensures
        c % a == 0,
{
    lemma_fundamental_div_mod(b, a);
    lemma_fundamental_div_mod(c, b);
    let k = b / a;
    let l = c / b;
    assert(c == (l * k) * a) by (nonlinear_arith)
        requires
            b == a * k,
            c == b * l,
    ;
    lemma_mod_multiples_basic(l * k, a);
}

/// A composite number has a prime factor whose square does not exceed it.
pub proof fn lemma_small_prime_factor(n: int) -> (p: int)
    requires
        n >= 2,
        !is_prime(n),
    ensures
        is_prime(p),
        p * p <= n,
        n % p == 0,
    decreases n,
{
    let d = choose|d: int| 2 <= d < n && #[trigger] (n % d) == 0;
    let e = n / d;
    lemma_fundamental_div_mod(n, d);
    assert(n == d * e);
    assert(2 <= e < n) by (nonlinear_arith)
        requires
            n == d * e,
            2 <= d < n,
    ;
    lemma_mod_multiples_basic(d, e);
    assert(n % e == 0);
    let a = if d <= e { d } else { e };
    assert(a * a <= n) by (nonlinear_arith)
        requires
            n == d * e,
            2 <= d,
            2 <= e,
            a == d || a == e,
            a <= d,
            a <= e,
    ;
    if is_prime(a) {
        a
    } else {
        let p = lemma_small_prime_factor(a);
        lemma_divides_transitive(p, a, n);
        p
    }
}

/// What `primes_in` holds: only primes of the range, each of them, in
/// strictly ascending order.
pub proof fn lemma_primes_in_members(lo: int, hi: int)
    ensures
        forall|k: int|
            0 <= k < primes_in(lo, hi).len() ==> lo <= #[trigger] primes_in(lo, hi)[k] < hi
                && is_prime(primes_in(lo, hi)[k]),
        forall|j: int, k: int|
            0 <= j < k < primes_in(lo, hi).len() ==> #[trigger] primes_in(lo, hi)[j]
                < #[trigger] primes_in(lo, hi)[k],
        forall|n: int| lo <= n < hi && is_prime(n) ==> primes_in(lo, hi).contains(n),
        hi <= lo ==> primes_in(lo, hi).len() == 0,
        lo <= hi ==> primes_in(lo, hi).len() <= hi - lo,
    decreases hi - lo,
{
    if hi > lo {
        lemma_primes_in_members(lo, hi - 1);
        let prev = primes_in(lo, hi - 1);
        let cur = primes_in(lo, hi);
        assert forall|n: int| lo <= n < hi && is_prime(n) implies cur.contains(n) by {
            if n == hi - 1 {
                assert(cur[cur.len() - 1] == n);
            } else {
                assert(prev.contains(n));
                let k = choose|k: int| 0 <= k < prev.len() && prev[k] == n;
                assert(cur[k] == n);
            }
        }
    }
}

/// The primes of a range are those of its lower part followed by those of
/// its upper part.
pub proof fn lemma_primes_in_split(lo: int, mid: int, hi: int)
    requires
        lo <= mid <= hi,
    ensures
        primes_in(lo, hi) == primes_in(lo, mid) + primes_in(mid, hi),
    decreases hi - mid,
{
    if hi > mid {
        lemma_primes_in_split(lo, mid, hi - 1);
    }
    assert(primes_in(lo, hi) =~= primes_in(lo, mid) + primes_in(mid, hi));
}

/// The element at position `k` of the primes of a range that starts at `lo`
/// is the last of exactly `k + 1` primes from `lo` on.
pub proof fn lemma_primes_in_rank(lo: int, hi: int, k: int)
    requires
        0 <= k < primes_in(lo, hi).len(),
    ensures
        primes_in(lo, primes_in(lo, hi)[k] + 1).len() == k + 1,
    decreases hi - lo,
{
    if hi > lo {
        let prev = primes_in(lo, hi - 1);
        if is_prime(hi - 1) && k == prev.len() {
            assert(primes_in(lo, hi)[k] == hi - 1);
        } else {
            lemma_primes_in_rank(lo, hi - 1, k);
        }
    }
}

/// The prime-counting function never decreases.
pub proof fn lemma_prime_pi_monotone(a: int, b: int)
    requires
        a <= b,
    ensures
        prime_pi(a) <= prime_pi(b),
{
    if a + 1 >= 0 {
        lemma_primes_in_split(0, a + 1, b + 1);
    } else {
        lemma_primes_in_members(0, a + 1);
    }
}

/// The prime-counting function rises by one exactly at the primes.
pub proof fn lemma_prime_pi_step(p: int)
    ensures
        prime_pi(p) - prime_pi(p - 1) == if is_prime(p) { 1int } else { 0int },
{
    lemma_primes_in_members(0, p);
}

/// A prime is determined by how many primes do not exceed it.
pub proof fn lemma_prime_pi_injective(v: int, w: int)
    requires
        is_prime(v),
        is_prime(w),
        prime_pi(v) == prime_pi(w),
    ensures
        v == w,
{
    if v < w {
        lemma_prime_pi_step(w);
        lemma_prime_pi_monotone(v, w - 1);
    } else if w < v {
        lemma_prime_pi_step(v);
        lemma_prime_pi_monotone(w, v - 1);
    }
}

} // verus!
