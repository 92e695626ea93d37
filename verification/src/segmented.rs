//! The windowed sieve: the primes of `[begin, begin + size)` recovered from
//! the list of small primes alone, in space proportional to `size`.

use vstd::prelude::*;
use vstd::arithmetic::div_mod::{lemma_fundamental_div_mod, lemma_small_mod};
use crate::base_sieve::{collect_flagged, lemma_square_by_division, select_in};
use crate::primality::{
    as_ints, is_prime, lemma_as_ints_elements, lemma_no_multiple_between,
    lemma_primes_in_members, lemma_small_prime_factor, primes_in,
};

verus! {

/// `n` passes a sieve of the window that ends before `end`, marked with the
/// primes up to `bound`: it is at least 2, and no such prime whose square is
/// below `end` divides it, `n` itself aside.
pub open spec fn survives(bound: int, end: int, n: int) -> bool {
    n >= 2 && forall|p: int|
        is_prime(p) && p <= bound && p * p < end && p != n ==> #[trigger] (n % p) != 0
}

/// The integers of `[lo, hi)` that pass the sieve of a window ending before
/// `end`, ascending.
pub open spec fn survivors_in(bound: int, end: int, lo: int, hi: int) -> Seq<int>
    decreases hi - lo,
{
    if hi <= lo {
        Seq::empty()
    } else if survives(bound, end, hi - 1) {
        survivors_in(bound, end, lo, hi - 1).push(hi - 1)
    } else {
        survivors_in(bound, end, lo, hi - 1)
    }
}

/// The small primes reach far enough for a window that ends before `end`:
/// every composite below `end` has a prime factor among them.
pub open spec fn covers(bound: int, end: int) -> bool {
    end <= (bound + 1) * (bound + 1)
}

/// Within reach of the small primes, passing the sieve is being prime.
pub proof fn lemma_survives_iff_prime(bound: int, end: int, n: int)
    requires
        bound >= 0,
        n < end,
        covers(bound, end),
    ensures
        survives(bound, end, n) == is_prime(n),
{
    if survives(bound, end, n) && !is_prime(n) {
        let p = lemma_small_prime_factor(n);
        assert(p <= bound && p != n && p * p < end) by (nonlinear_arith)
            requires
                p >= 2,
                p * p <= n,
                n < end,
                end <= (bound + 1) * (bound + 1),
                bound >= 0,
        ;
        assert(n % p != 0);
    }
    if is_prime(n) {
        assert forall|p: int|
            is_prime(p) && p <= bound && p * p < end && p != n implies #[trigger] (n % p) != 0 by {
            if p > n {
                lemma_small_mod(n as nat, p as nat);
            }
        }
    }
}

/// Within reach of the small primes, the sieve of a window yields exactly
/// the primes of the window.
pub proof fn lemma_survivors_are_primes(bound: int, end: int, lo: int, hi: int)
    requires
        bound >= 0,
        hi <= end,
        covers(bound, end),
    ensures
        survivors_in(bound, end, lo, hi) == primes_in(lo, hi),
    decreases hi - lo,
{
    if hi > lo {
        lemma_survivors_are_primes(bound, end, lo, hi - 1);
        lemma_survives_iff_prime(bound, end, hi - 1);
    }
}

/// The two sieves agree: the window `[0, bound + 1)`, sieved with the primes
/// up to `bound`, yields exactly those primes.
pub proof fn lemma_full_window_is_base_list(bound: int)
    requires
        bound >= 0,
    ensures
        covers(bound, bound + 1),
        survivors_in(bound, bound + 1, 0, bound + 1) == primes_in(0, bound + 1),
{
    assert(bound + 1 <= (bound + 1) * (bound + 1)) by (nonlinear_arith)
        requires
            bound >= 0,
    ;
    lemma_survivors_are_primes(bound, bound + 1, 0, bound + 1);
}

/// Selecting by a predicate that agrees with `survives` on the range gives
/// the survivors of the range.
proof fn lemma_select_survivors(bound: int, end: int, lo: int, hi: int, keep: spec_fn(int) -> bool)
    requires
        forall|n: int| lo <= n < hi ==> #[trigger] keep(n) == survives(bound, end, n),
    ensures
        select_in(lo, hi, keep) == survivors_in(bound, end, lo, hi),
    decreases hi - lo,
{
    if hi > lo {
        lemma_select_survivors(bound, end, lo, hi - 1, keep);
    }
}

/// None of the first `upto` marking primes divides `n`, `n` itself aside.
spec fn unmarked(base: Seq<usize>, upto: int, n: int) -> bool {
    forall|s: int| 0 <= s < upto ==> !(n % (#[trigger] base[s] as int) == 0 && n != base[s])
}

/// Clears the flag of every offset in the window whose value is a multiple
/// of `i`, except where that value is `i` itself.
fn strike_window(flags: &mut Vec<bool>, begin: usize, i: usize)
    requires
        begin + old(flags).len() <= usize::MAX,
        i >= 1,
    ensures
        final(flags).len() == old(flags).len(),
        forall|m: int|
            0 <= m < old(flags).len() ==> #[trigger] final(flags)[m] == (old(flags)[m] && !((begin
                + m) % (i as int) == 0 && begin + m != i)),
{
    let size: usize = flags.len();
    let r: usize = begin % i;
    let mut j: usize = (i - r) % i;
    let ghost mut k: int = if r == 0 { begin as int / i as int } else { begin as int / i as int + 1 };
    proof {
        lemma_fundamental_div_mod(begin as int, i as int);
        let q = begin as int / i as int;
        if r == 0 {
            vstd::arithmetic::div_mod::lemma_mod_self_0(i as int);
        } else {
            lemma_small_mod((i - r) as nat, i as nat);
        }
        assert(begin + j == k * i && (k - 1) * i < begin) by (nonlinear_arith)
            requires
                begin == i * q + r,
                0 <= r < i,
                r == 0 ==> j == 0 && k == q,
                r != 0 ==> j == i - r && k == q + 1,
        ;
        assert forall|v: int| begin <= v < begin + j implies #[trigger] (v % (i as int)) != 0 by {
            lemma_no_multiple_between(i as int, k - 1, v);
        }
    }
    while j < size
        invariant_except_break
            flags.len() == size,
            size == old(flags).len(),
            begin + size <= usize::MAX,
            i >= 1,
            begin + j == k * i,
            forall|m: int|
                0 <= m < size ==> #[trigger] flags[m] == (old(flags)[m] && !((begin + m) % (
                i as int) == 0 && begin + m != i && m < j)),
        ensures
            flags.len() == size,
            forall|m: int|
                0 <= m < size ==> #[trigger] flags[m] == (old(flags)[m] && !((begin + m) % (
                i as int) == 0 && begin + m != i)),
        decreases size - j,
    {
        let ghost before = flags@;
        if begin + j != i {
            flags.set(j, false);
        }
        proof {
            assert((k + 1) * i == begin + j + i) by (nonlinear_arith)
                requires
                    begin + j == k * i,
            ;
            assert forall|v: int| begin + j < v < begin + j + i implies #[trigger] (v % (
            i as int)) != 0 by {
                lemma_no_multiple_between(i as int, k, v);
            }
            assert forall|m: int| 0 <= m < size implies #[trigger] flags[m] == (old(flags)[m] && !(
            (begin + m) % (i as int) == 0 && begin + m != i && m < j + i)) by {
                assert(before[m] == (old(flags)[m] && !((begin + m) % (i as int) == 0 && begin + m
                    != i && m < j)));
                if m == j {
                    vstd::arithmetic::div_mod::lemma_mod_multiples_basic(k, i as int);
                }
            }
        }
        if size - j <= i {
            break ;
        }
        j += i;
        proof {
            k = k + 1;
        }
    }
}

/// The primes of the window `[begin, begin + size)`, in ascending order,
/// sieved with `base`, the ascending list of all primes up to `bound`.
///
/// Marking stops at the first small prime whose square reaches the end of
/// the window. A value is never struck as a multiple of itself, and 0 and 1
/// are never reported. The result is therefore exactly the sequence of
/// `survives` over the window; wherever the small primes reach the window's
/// end (`covers`), that is exactly the primes of the window.
pub fn prime_list_range(base: &Vec<usize>, bound: usize, begin: usize, size: usize) -> (found: Vec<
    usize,
>)
    requires
        as_ints(base@) == primes_in(0, bound + 1),
        begin + size <= usize::MAX,
    ensures
        as_ints(found@) == survivors_in(bound as int, begin + size, begin as int, begin + size),
        covers(bound as int, begin + size) ==> as_ints(found@) == primes_in(
            begin as int,
            begin + size,
        ),
        found.len() <= size,
{
    let end: usize = begin + size;
    let mut flags: Vec<bool> = vec![true; size];
    let mut t: usize = 0;
    proof {
        lemma_primes_in_members(0, bound + 1);
        lemma_as_ints_elements(base@, primes_in(0, bound + 1));
    }
    while t < base.len() && size > 0
        invariant_except_break
            t <= base.len(),
        invariant
            flags.len() == size,
            end == begin + size,
            forall|s: int|
                0 <= s < base.len() ==> is_prime(#[trigger] base[s] as int) && base[s] <= bound,
            forall|s: int| 0 <= s < t ==> (#[trigger] base[s]) * base[s] < end,
            forall|j: int| 0 <= j < size ==> #[trigger] flags[j] == unmarked(base@, t as int, begin + j),
        ensures
            t <= base.len(),
            size > 0 && t < base.len() ==> base[t as int] * base[t as int] >= end,
        decreases base.len() - t,
    {
        let i: usize = base[t];
        assert(is_prime(i as int));
        proof {
            lemma_square_by_division(i as int, end - 1);
        }
        if i > (end - 1) / i {
            break ;
        }
        let ghost before = flags@;
        strike_window(&mut flags, begin, i);
        proof {
            assert forall|j: int| 0 <= j < size implies #[trigger] flags[j] == unmarked(
                base@,
                t + 1,
                begin + j,
            ) by {
                assert(before[j] == unmarked(base@, t as int, begin + j));
            }
        }
        t += 1;
    }
    let ghost keep = |n: int| survives(bound as int, end as int, n);
    proof {
        let reach = primes_in(0, bound + 1);
        assert forall|j: int| 0 <= j < size implies keep(begin + j) == (#[trigger] flags[j] && begin
            + j >= 2) by {
            let n = begin + j;
            assert(flags[j] == unmarked(base@, t as int, n));
            if unmarked(base@, t as int, n) && n >= 2 {
                assert forall|p: int|
                    is_prime(p) && p <= bound && p * p < end && p != n implies #[trigger] (n % p)
                    != 0 by {
                    assert(reach.contains(p));
                    let s = choose|s: int| 0 <= s < reach.len() && reach[s] == p;
                    if s >= t {
                        let b = base[t as int] as int;
                        assert(b <= p);
                        assert(false) by (nonlinear_arith)
                            requires
                                2 <= b <= p,
                                b * b >= end,
                                p * p < end,
                        ;
                    }
                    assert(base[s] == p);
                }
            }
            if survives(bound as int, end as int, n) {
                assert forall|s: int| 0 <= s < t implies !(n % (#[trigger] base[s] as int) == 0 && n
                    != base[s]) by {
                    assert(is_prime(base[s] as int));
                    assert(base[s] * base[s] < end);
                }
            }
        }
    }
    let found = collect_flagged(&flags, begin, Ghost(keep));
    proof {
        lemma_select_survivors(bound as int, end as int, begin as int, end as int, keep);
        if covers(bound as int, end as int) {
            lemma_survivors_are_primes(bound as int, end as int, begin as int, end as int);
        }
        lemma_survivors_len(bound as int, end as int, begin as int, end as int);
    }
    found
}

/// A window never yields more values than it holds.
proof fn lemma_survivors_len(bound: int, end: int, lo: int, hi: int)
    requires
        lo <= hi,
    ensures
        survivors_in(bound, end, lo, hi).len() <= hi - lo,
    decreases hi - lo,
{
    if hi > lo {
        lemma_survivors_len(bound, end, lo, hi - 1);
    }
}

} // verus!
