//! The prime table and the primorial. `generate_primes` is a bit-packed
//! sieve of Eratosthenes over the odd numbers, proved to return exactly the
//! primes up to its limit, in increasing order.

use vstd::prelude::*;
use vstd::arithmetic::power::pow;
use crate::bitset::{bit_get, word_bit_get, word_bit_set, zero_words};
use crate::uint::{Uint, uint_modinv, uint_modpow, uint_mul, uint_sub};

verus! {

/// Primality over the mathematical integers.
pub open spec fn is_prime(n: int) -> bool {
    n >= 2 && forall|d: int| 2 <= d < n ==> #[trigger] (n % d) != 0
}

/// The increasing sequence of all primes up to `l`.
pub open spec fn primes_upto(l: int) -> Seq<int>
    decreases
            (if l < 2 {
                0
            } else {
                l
            }),
{
    if l < 2 {
        Seq::empty()
    } else if is_prime(l) {
        primes_upto(l - 1).push(l)
    } else {
        primes_upto(l - 1)
    }
}

/// Divisibility carries over a chain: if `a` divides `b` and `b` divides
/// `c`, then `a` divides `c`.
pub proof fn lemma_divides_transitive(a: int, b: int, c: int)
    requires
        1 <= a,
        1 <= b,
        b % a == 0,
        c % b == 0,
    ensures
        c % a == 0,
{
    let k = b / a;
    let l = c / b;
    vstd::arithmetic::div_mod::lemma_fundamental_div_mod(b, a);
    vstd::arithmetic::div_mod::lemma_fundamental_div_mod(c, b);
    assert(c == a * (k * l)) by (nonlinear_arith)
        requires
            b == a * k && c == b * l,
    ;
    vstd::arithmetic::div_mod::lemma_mod_multiples_basic(k * l, a);
    assert((a * (k * l)) % a == ((k * l) * a) % a) by (nonlinear_arith);
}

/// Every composite number has a prime factor no larger than its square
/// root.
pub proof fn lemma_composite_has_small_prime_factor(n: int)
    requires
        n >= 2,
        !is_prime(n),
    ensures
        exists|d: int| is_prime(d) && d * d <= n && #[trigger] (n % d) == 0,
    decreases n,
{
    assert(exists|d: int| 2 <= d < n && #[trigger] (n % d) == 0);
    let d0 = choose|d: int| 2 <= d < n && #[trigger] (n % d) == 0;
    let e = n / d0;
    vstd::arithmetic::div_mod::lemma_fundamental_div_mod(n, d0);
    assert(n == d0 * e);
    assert(e >= 2) by (nonlinear_arith)
        requires
            n == d0 * e && 2 <= d0 < n,
    ;
    let g = if d0 <= e {
        d0
    } else {
        e
    };
    assert(g * g <= n) by (nonlinear_arith)
        requires
            n == d0 * e && 2 <= d0 && 2 <= e && g <= d0 && g <= e && g >= 2,
    ;
    assert(g < n) by (nonlinear_arith)
        requires
            g * g <= n && g >= 2,
    ;
    if g == d0 {
        assert(n % g == 0);
    } else {
        vstd::arithmetic::div_mod::lemma_mod_multiples_basic(d0, e);
        assert(n % g == 0);
    }
    if is_prime(g) {
        assert(is_prime(g) && g * g <= n && n % g == 0);
    } else {
        lemma_composite_has_small_prime_factor(g);
        let q = choose|d: int| is_prime(d) && d * d <= g && #[trigger] (g % d) == 0;
        lemma_divides_transitive(q, g, n);
        assert(q * q <= n) by (nonlinear_arith)
            requires
                q * q <= g && g * g <= n && g >= 2 && q >= 2,
        ;
        assert(is_prime(q) && q * q <= n && n % q == 0);
    }
}

/// A prime other than 2 is odd.
pub proof fn lemma_odd_prime(n: int)
    requires
        is_prime(n),
        n != 2,
    ensures
        n % 2 == 1,
{
    assert(n % 2 != 0);
}

/// A divisor of an odd number is odd.
pub proof fn lemma_divisor_of_odd_is_odd(n: int, d: int)
    requires
        n % 2 == 1,
        n % d == 0,
        d >= 1,
    ensures
        d % 2 == 1,
{
    if d % 2 == 0 {
        let k = n / d;
        vstd::arithmetic::div_mod::lemma_fundamental_div_mod(n, d);
        let h = d / 2;
        vstd::arithmetic::div_mod::lemma_fundamental_div_mod(d, 2);
        assert(n == 2 * (h * k)) by (nonlinear_arith)
            requires
                n == d * k && d == 2 * h,
        ;
        vstd::arithmetic::div_mod::lemma_mod_multiples_basic(h * k, 2);
        assert((2 * (h * k)) % 2 == ((h * k) * 2) % 2) by (nonlinear_arith);
        assert(false);
    }
}

/// An odd number dividing twice a value divides the value itself.
pub proof fn lemma_odd_divides_double(f: int, t: int)
    requires
        f % 2 == 1,
        f >= 1,
        (2 * t) % f == 0,
        t >= 0,
    ensures
        t % f == 0,
{
    let s = (2 * t) / f;
    vstd::arithmetic::div_mod::lemma_fundamental_div_mod(2 * t, f);
    assert(2 * t == f * s);
    if s % 2 == 0 {
        let h = s / 2;
        vstd::arithmetic::div_mod::lemma_fundamental_div_mod(s, 2);
        assert(t == f * h) by (nonlinear_arith)
            requires
                2 * t == f * s && s == 2 * h,
        ;
        vstd::arithmetic::div_mod::lemma_mod_multiples_basic(h, f);
        assert((f * h) % f == (h * f) % f) by (nonlinear_arith);
    } else {
        vstd::arithmetic::div_mod::lemma_mul_mod_noop_general(f, s, 2);
        assert((f * s) % 2 == ((f % 2) * (s % 2)) % 2);
        assert(((f % 2) * (s % 2)) % 2 == 1) by (nonlinear_arith)
            requires
                f % 2 == 1 && s % 2 == 1,
        ;
        vstd::arithmetic::div_mod::lemma_mod_multiples_basic(t, 2);
        assert((2 * t) % 2 == (t * 2) % 2) by (nonlinear_arith);
        assert(false);
    }
}

/// Every mark in the table sits at an odd composite: bit `m` stands for
/// the number `2m + 1`.
pub open spec fn marks_sound(c: Seq<u64>, limit: int) -> bool {
    forall|m: int|
        0 <= m < c.len() * 64 && #[trigger] bit_get(c, m) ==> 1 <= m <= limit / 2 && !is_prime(
            2 * m + 1,
        )
}

/// Every odd number up to `limit` with a prime factor below `f` that is at
/// most its square root is marked.
pub open spec fn marks_complete_upto(c: Seq<u64>, limit: int, f: int) -> bool {
    forall|n: int, d: int|
        3 <= n <= limit && n % 2 == 1 && is_prime(d) && d < f && d * d <= n && #[trigger] (n % d)
            == 0 ==> bit_get(c, n / 2)
}

/// Generates all primes from 2 to `limit` inclusive, in increasing order,
/// with a sieve of Eratosthenes packed as one bit per odd number.
pub fn generate_primes(limit: usize) -> (r: Vec<usize>)
    ensures
        forall|i: int| 0 <= i < r@.len() ==> is_prime(#[trigger] r@[i] as int) && r@[i] <= limit,
        forall|i: int, j: int| 0 <= i < j < r@.len() ==> r@[i] < r@[j],
        forall|n: int| 2 <= n <= limit && is_prime(n) ==> r@.map_values(|x: usize| x as int).contains(n),
        r@.map_values(|x: usize| x as int) == primes_upto(limit as int),
{
    if limit < 2 {
        let r: Vec<usize> = Vec::new();
        proof {
            assert(r@.map_values(|x: usize| x as int) =~= Seq::<int>::empty());
        }
        return r;
    }
    let n_words = limit / 128 + 1;
    proof {
        lemma_half_fits(limit as int);
    }
    let mut composite = zero_words(n_words);
    let mut f: usize = 3;
    let mut fsq: u128 = 9;
    proof {
        assert forall|m: int| 0 <= m < composite@.len() * 64 && #[trigger] bit_get(composite@, m)
            implies 1 <= m <= limit as int / 2 && !is_prime(2 * m + 1) by {
            let sh = (m % 64) as u64;
            assert((composite@[m / 64] >> sh) & 1 == ((0u64 >> sh) & 1));
            assert((0u64 >> sh) & 1 == 0) by (bit_vector);
        }
    }
    while fsq <= limit as u128
        invariant
            2 <= limit,
            n_words == limit as int / 128 + 1,
            composite@.len() == n_words,
            limit as int / 2 < n_words * 64,
            3 <= f,
            f % 2 == 1,
            f <= limit + 2,
            fsq == (f as int) * (f as int),
            marks_sound(composite@, limit as int),
            marks_complete_upto(composite@, limit as int, f as int),
        decreases limit + 2 - f,
    {
        proof {
            assert(f * f <= limit);
            assert(3 * f <= f * f) by (nonlinear_arith)
                requires
                    f >= 3,
            ;
        }
        if !word_bit_get(&composite, f / 2) {
            proof {
                lemma_unmarked_is_prime(composite@, limit as int, f as int);
            }
            proof {
                assert(3 * f <= limit);
            }
            let mut m: usize = (f * f) / 2;
            let ghost start = ((f * f) / 2) as int;
            proof {
                vstd::arithmetic::div_mod::lemma_mul_mod_noop_general(f as int, f as int, 2);
                assert(((f as int % 2) * (f as int % 2)) % 2 == 1);
                vstd::arithmetic::div_mod::lemma_fundamental_div_mod((f * f) as int, 2);
                assert(2 * start + 1 == f * f);
                vstd::arithmetic::div_mod::lemma_mod_self_0(f as int);
                vstd::arithmetic::div_mod::lemma_mod_multiples_basic(f as int, f as int);
                vstd::arithmetic::div_mod::lemma_small_mod(0, f as nat);
            }
            while m <= limit / 2
                invariant
                    2 <= limit,
                    n_words == limit as int / 128 + 1,
                    composite@.len() == n_words,
                    limit as int / 2 < n_words * 64,
                    3 <= f <= limit,
                    3 * f <= limit,
                    f % 2 == 1,
                    is_prime(f as int),
                    2 * start + 1 == f * f,
                    start <= m,
                    (m - start) % (f as int) == 0,
                    m <= limit as int / 2 + f,
                    marks_sound(composite@, limit as int),
                    marks_complete_upto(composite@, limit as int, f as int),
                    forall|j: int|
                        start <= j < m && j <= limit as int / 2 && #[trigger] ((j - start) % (
                        f as int)) == 0 ==> bit_get(composite@, j),
                decreases limit as int / 2 + f - m,
            {
                let ghost before = composite@;
                word_bit_set(&mut composite, m);
                proof {
                    lemma_mark_is_composite(f as int, start, m as int);
                    assert forall|m2: int|
                        0 <= m2 < composite@.len() * 64 && #[trigger] bit_get(composite@, m2)
                        implies 1 <= m2 <= limit as int / 2 && !is_prime(2 * m2 + 1) by {
                        if m2 != m as int {
                            assert(bit_get(before, m2));
                        }
                    }
                    assert forall|n: int, d: int|
                        3 <= n <= limit as int && n % 2 == 1 && is_prime(d) && d < f as int && d * d
                            <= n && #[trigger] (n % d) == 0 implies bit_get(composite@, n / 2) by {
                        assert(bit_get(before, n / 2));
                        assert(0 <= n / 2 < before.len() * 64);
                    }
                }
                proof {
                    vstd::arithmetic::div_mod::lemma_mod_add_multiples_vanish(
                        m as int - start,
                        f as int,
                    );
                    vstd::arithmetic::div_mod::lemma_fundamental_div_mod(limit as int, 2);
                    assert(m + f <= limit) by (nonlinear_arith)
                        requires
                            2 * m <= limit as int && 3 * f <= limit as int,
                    ;
                    assert forall|j: int|
                        start <= j < m + f && j <= limit as int / 2 && #[trigger] ((j - start) % (
                        f as int)) == 0 implies bit_get(composite@, j) by {
                        if j < m as int {
                            assert(bit_get(composite@, j));
                        } else if j == m as int {
                            assert(bit_get(composite@, j));
                        } else {
                            vstd::arithmetic::div_mod::lemma_sub_mod_noop(
                                j - start,
                                m as int - start,
                                f as int,
                            );
                            vstd::arithmetic::div_mod::lemma_small_mod(0, f as nat);
                            vstd::arithmetic::div_mod::lemma_small_mod(
                                (j - m as int) as nat,
                                f as nat,
                            );
                            assert((j - m as int) % (f as int) == 0);
                            assert(false);
                        }
                    }
                }
                m = m + f;
            }
            proof {
                lemma_complete_step(composite@, limit as int, f as int, start, m as int);
            }
        } else {
            proof {
                assert(bit_get(composite@, f as int / 2));
                assert(2 * (f as int / 2) + 1 == f) by {
                    vstd::arithmetic::div_mod::lemma_fundamental_div_mod(f as int, 2);
                }
                assert(!is_prime(f as int));
                lemma_complete_skip(composite@, limit as int, f as int);
            }
        }
        proof {
            assert(f + 2 <= f * f) by (nonlinear_arith)
                requires
                    f >= 3,
            ;
            assert((f as int + 2) * (f as int + 2) == fsq + 4 * (f as int) + 4) by (nonlinear_arith)
                requires
                    fsq == (f as int) * (f as int),
            ;
        }
        fsq = fsq + 4 * (f as u128) + 4;
        f = f + 2;
    }
    proof {
        assert(f * f > limit);
    }
    let mut r: Vec<usize> = Vec::new();
    r.push(2);
    let mut i: usize = 1;
    proof {
        assert(is_prime(2));
        assert(r@.map_values(|x: usize| x as int)[0] == 2);
        assert(r@.map_values(|x: usize| x as int).contains(2));
    }
    while i <= (limit - 1) / 2
        invariant
            2 <= limit,
            composite@.len() * 64 > limit as int / 2,
            1 <= i,
            i <= limit as int / 2 + 1,
            f * f > limit,
            f % 2 == 1,
            3 <= f,
            marks_sound(composite@, limit as int),
            marks_complete_upto(composite@, limit as int, f as int),
            r@.len() >= 1,
            r@[0] == 2,
            forall|t: int| 0 <= t < r@.len() ==> is_prime(#[trigger] r@[t] as int) && r@[t] <= limit,
            forall|t: int| 0 <= t < r@.len() ==> r@[t] < 2 * i + 1,
            forall|a: int, b: int| 0 <= a < b < r@.len() ==> r@[a] < r@[b],
            forall|n: int|
                2 <= n <= limit && n < 2 * i + 1 && is_prime(n) ==> r@.map_values(
                    |x: usize| x as int,
                ).contains(n),
        decreases limit as int / 2 + 1 - i,
    {
        proof {
            assert(2 * i + 1 <= limit) by {
                vstd::arithmetic::div_mod::lemma_fundamental_div_mod((limit - 1) as int, 2);
            }
        }
        if !word_bit_get(&composite, i) {
            proof {
                lemma_survivor_is_prime(composite@, limit as int, f as int, i as int);
            }
            let ghost old_r = r@;
            r.push(2 * i + 1);
            proof {
                assert(r@ == old_r.push((2 * i + 1) as usize));
                assert forall|n: int|
                    2 <= n <= limit && n < 2 * i + 3 && is_prime(n) implies r@.map_values(
                    |x: usize| x as int,
                ).contains(n) by {
                    lemma_collect_step(old_r, r@, (2 * i + 1) as usize, limit as int, i as int, n);
                }
            }
        } else {
            proof {
                assert(bit_get(composite@, i as int));
                assert(!is_prime(2 * i + 1));
                assert forall|n: int|
                    2 <= n <= limit && n < 2 * i + 3 && is_prime(n) implies r@.map_values(
                    |x: usize| x as int,
                ).contains(n) by {
                    if n >= 2 * i + 1 {
                        assert(n == 2 * i + 1 || n == 2 * i + 2);
                        if n == 2 * i + 2 {
                            lemma_odd_prime(n);
                            assert(false);
                        }
                        assert(false);
                    }
                }
            }
        }
        i = i + 1;
    }
    proof {
        assert forall|n: int| 2 <= n <= limit && is_prime(n) implies r@.map_values(
            |x: usize| x as int,
        ).contains(n) by {
            if n % 2 == 1 {
                assert(n / 2 < i) by {
                    vstd::arithmetic::div_mod::lemma_fundamental_div_mod(n, 2);
                }
                assert(n < 2 * i + 1);
            } else {
                if n != 2 {
                    lemma_odd_prime(n);
                }
                assert(n < 2 * i + 1);
            }
        }
        let rm = r@.map_values(|x: usize| x as int);
        assert forall|t: int| 0 <= t < rm.len() implies is_prime(#[trigger] rm[t]) && rm[t]
            <= limit as int by {
            assert(rm[t] == r@[t] as int);
        }
        assert forall|t: int, u: int| 0 <= t < u < rm.len() implies rm[t] < rm[u] by {
            assert(r@[t] < r@[u]);
        }
        lemma_prime_seq_unique(rm, limit as int);
    }
    r
}

/// Bit `limit / 2` fits in a table of `limit / 128 + 1` words.
proof fn lemma_half_fits(limit: int)
    requires
        limit >= 0,
    ensures
        limit / 2 < (limit / 128 + 1) * 64,
{
    let q = limit / 128;
    vstd::arithmetic::div_mod::lemma_fundamental_div_mod(limit, 128);
    vstd::arithmetic::div_mod::lemma_fundamental_div_mod(limit, 2);
    assert(limit / 2 * 2 <= limit);
    assert(limit < (q + 1) * 128) by (nonlinear_arith)
        requires
            limit == 128 * q + limit % 128 && limit % 128 < 128,
    ;
    assert(limit / 2 < (q + 1) * 64) by (nonlinear_arith)
        requires
            limit / 2 * 2 <= limit && limit < (q + 1) * 128,
    ;
}

/// In the sieve's outer loop, a number whose bit is still clear is prime:
/// any composite would already carry a mark from a smaller prime factor.
proof fn lemma_unmarked_is_prime(c: Seq<u64>, limit: int, f: int)
    requires
        3 <= f,
        f * f <= limit,
        f % 2 == 1,
        limit / 2 < c.len() * 64,
        marks_complete_upto(c, limit, f),
        !bit_get(c, f / 2),
    ensures
        is_prime(f),
{
    if !is_prime(f) {
        lemma_composite_has_small_prime_factor(f);
        let d = choose|d: int| is_prime(d) && d * d <= f && #[trigger] (f % d) == 0;
        assert(d < f) by (nonlinear_arith)
            requires
                d * d <= f && d >= 2,
        ;
        assert(f <= limit) by (nonlinear_arith)
            requires
                3 <= f && f * f <= limit,
        ;
        assert(bit_get(c, f / 2));
        assert(false);
    }
}

/// A number marked by the inner loop is an odd multiple of `f` at or above
/// `f` squared, hence composite.
proof fn lemma_mark_is_composite(f: int, start: int, m: int)
    requires
        3 <= f,
        2 * start + 1 == f * f,
        start <= m,
        (m - start) % f == 0,
    ensures
        1 <= m,
        !is_prime(2 * m + 1),
        (2 * m + 1) % f == 0,
{
    let k = (m - start) / f;
    vstd::arithmetic::div_mod::lemma_fundamental_div_mod(m - start, f);
    assert(m - start == f * k);
    assert(k >= 0) by (nonlinear_arith)
        requires
            m - start == f * k && m - start >= 0 && f >= 3,
    ;
    assert(2 * m + 1 == f * (f + 2 * k)) by (nonlinear_arith)
        requires
            2 * start + 1 == f * f && m - start == f * k,
    ;
    vstd::arithmetic::div_mod::lemma_mod_multiples_basic(f + 2 * k, f);
    assert((f * (f + 2 * k)) % f == ((f + 2 * k) * f) % f) by (nonlinear_arith);
    assert((2 * m + 1) % f == 0);
    assert(f < 2 * m + 1) by (nonlinear_arith)
        requires
            2 * m + 1 == f * (f + 2 * k) && f >= 3 && k >= 0,
    ;
    assert(start >= 4) by (nonlinear_arith)
        requires
            2 * start + 1 == f * f && f >= 3,
    ;
    assert(!is_prime(2 * m + 1));
}

/// After the inner loop has run for a prime `f`, every odd multiple of `f`
/// in range carries a mark, which extends completeness to `f + 2`.
proof fn lemma_complete_step(c: Seq<u64>, limit: int, f: int, start: int, m: int)
    requires
        3 <= f <= limit,
        f % 2 == 1,
        is_prime(f),
        2 * start + 1 == f * f,
        m > limit / 2,
        start <= m,
        marks_complete_upto(c, limit, f),
        forall|j: int|
            start <= j < m && j <= limit / 2 && #[trigger] ((j - start) % f) == 0 ==> bit_get(c, j),
    ensures
        marks_complete_upto(c, limit, f + 2),
{
    assert forall|n: int, d: int|
        3 <= n <= limit && n % 2 == 1 && is_prime(d) && d < f + 2 && d * d <= n && #[trigger] (n
            % d) == 0 implies bit_get(c, n / 2) by {
        if d < f {
            assert(bit_get(c, n / 2));
        } else if d == f + 1 {
            lemma_divisor_of_odd_is_odd(n, d);
            assert(false);
        } else {
            assert(d == f);
            let j = n / 2;
            vstd::arithmetic::div_mod::lemma_fundamental_div_mod(n, 2);
            assert(n == 2 * j + 1);
            assert(j >= start) by (nonlinear_arith)
                requires
                    2 * start + 1 == f * f && f * f <= n && n == 2 * j + 1,
            ;
            vstd::arithmetic::div_mod::lemma_mod_multiples_basic(f, f);
            vstd::arithmetic::div_mod::lemma_sub_mod_noop(n, f * f, f);
            vstd::arithmetic::div_mod::lemma_small_mod(0, f as nat);
            assert((n - f * f) % f == 0);
            assert(2 * (j - start) == n - f * f);
            lemma_odd_divides_double(f, j - start);
            assert(j <= limit / 2) by {
                vstd::arithmetic::div_mod::lemma_div_is_ordered(n, limit, 2);
            }
            assert(bit_get(c, j));
        }
    }
}

/// When `f` itself is marked it is composite, so no new prime factor
/// appears and completeness extends to `f + 2` unchanged.
proof fn lemma_complete_skip(c: Seq<u64>, limit: int, f: int)
    requires
        3 <= f,
        f % 2 == 1,
        !is_prime(f),
        marks_complete_upto(c, limit, f),
    ensures
        marks_complete_upto(c, limit, f + 2),
{
    assert forall|n: int, d: int|
        3 <= n <= limit && n % 2 == 1 && is_prime(d) && d < f + 2 && d * d <= n && #[trigger] (n
            % d) == 0 implies bit_get(c, n / 2) by {
        if d == f + 1 {
            lemma_divisor_of_odd_is_odd(n, d);
            assert(false);
        } else if d == f {
            assert(false);
        } else {
            assert(d < f);
            assert(bit_get(c, n / 2));
        }
    }
}

/// After the outer loop, an odd number whose bit is clear is prime.
proof fn lemma_survivor_is_prime(c: Seq<u64>, limit: int, f: int, i: int)
    requires
        1 <= i,
        3 <= f,
        2 * i + 1 <= limit,
        f * f > limit,
        marks_complete_upto(c, limit, f),
        limit / 2 < c.len() * 64,
        !bit_get(c, i),
    ensures
        is_prime(2 * i + 1),
{
    let n = 2 * i + 1;
    if !is_prime(n) {
        lemma_composite_has_small_prime_factor(n);
        let d = choose|d: int| is_prime(d) && d * d <= n && #[trigger] (n % d) == 0;
        assert(d < f) by (nonlinear_arith)
            requires
                d * d <= n && n <= limit && limit < f * f && d >= 2 && f >= 1,
        ;
        assert(n / 2 == i) by {
            vstd::arithmetic::div_mod::lemma_fundamental_div_mod(n, 2);
        }
        assert(bit_get(c, i));
        assert(false);
    }
}

/// Pushing the next surviving odd number onto the table keeps it complete
/// for every prime seen so far.
proof fn lemma_collect_step(old_r: Seq<usize>, new_r: Seq<usize>, v: usize, limit: int, i: int, n: int)
    requires
        new_r == old_r.push(v),
        v as int == 2 * i + 1,
        1 <= i,
        2 * i + 1 <= limit,
        2 <= n <= limit,
        n < 2 * i + 3,
        is_prime(n),
        forall|t: int|
            2 <= t <= limit && t < 2 * i + 1 && is_prime(t) ==> old_r.map_values(
                |x: usize| x as int,
            ).contains(t),
    ensures
        new_r.map_values(|x: usize| x as int).contains(n),
{
    let om = old_r.map_values(|x: usize| x as int);
    let nm = new_r.map_values(|x: usize| x as int);
    assert(nm.len() == om.len() + 1);
    assert forall|t: int| 0 <= t < nm.len() implies nm[t] == om.push(2 * i + 1)[t] by {
        if t < om.len() {
            assert(new_r[t] == old_r[t]);
        } else {
            assert(new_r[t] == v);
        }
    }
    assert(nm =~= om.push(2 * i + 1));
    if n < 2 * i + 1 {
        assert(om.contains(n));
        let t = choose|t: int| 0 <= t < om.len() && om[t] == n;
        assert(nm[t] == n);
        assert(nm.contains(n));
    } else if n == 2 * i + 1 {
        assert(nm[nm.len() - 1] == n);
        assert(nm.contains(n));
    } else {
        assert(n == 2 * i + 2);
        lemma_odd_prime(n);
        assert(false);
    }
}


/// A strictly increasing sequence that consists of primes up to `l` and
/// contains every such prime is the sequence of primes up to `l`.
pub proof fn lemma_prime_seq_unique(s: Seq<int>, l: int)
    requires
        forall|i: int| 0 <= i < s.len() ==> is_prime(#[trigger] s[i]) && s[i] <= l,
        forall|i: int, j: int| 0 <= i < j < s.len() ==> s[i] < s[j],
        forall|n: int| 2 <= n <= l && is_prime(n) ==> s.contains(n),
    ensures
        s == primes_upto(l),
    decreases
            (if l < 2 {
                0
            } else {
                l
            }),
{
    if l < 2 {
        if s.len() > 0 {
            assert(is_prime(s[0]) && s[0] <= l);
            assert(false);
        }
        assert(s =~= Seq::<int>::empty());
    } else if is_prime(l) {
        assert(s.contains(l));
        let k = choose|k: int| 0 <= k < s.len() && s[k] == l;
        if k < s.len() - 1 {
            assert(s[k] < s[s.len() - 1]);
            assert(s[s.len() - 1] <= l);
            assert(false);
        }
        let t = s.drop_last();
        assert forall|i: int| 0 <= i < t.len() implies is_prime(#[trigger] t[i]) && t[i] <= l - 1 by {
            assert(t[i] == s[i]);
            assert(s[i] < s[s.len() - 1]);
        }
        assert forall|n: int| 2 <= n <= l - 1 && is_prime(n) implies t.contains(n) by {
            assert(s.contains(n));
            let j = choose|j: int| 0 <= j < s.len() && s[j] == n;
            assert(j < s.len() - 1);
            assert(t[j] == n);
        }
        lemma_prime_seq_unique(t, l - 1);
        assert(s =~= t.push(l));
    } else {
        assert forall|i: int| 0 <= i < s.len() implies is_prime(#[trigger] s[i]) && s[i] <= l - 1 by {
            if s[i] == l {
                assert(false);
            }
        }
        assert forall|n: int| 2 <= n <= l - 1 && is_prime(n) implies s.contains(n) by {
            assert(2 <= n <= l);
        }
        lemma_prime_seq_unique(s, l - 1);
    }
}

/// The product of the first `n` entries of a prime table.
pub open spec fn prod_prefix(s: Seq<usize>, n: int) -> nat
    decreases n,
{
    if n <= 0 || n > s.len() {
        1
    } else {
        (prod_prefix(s, n - 1) * s[n - 1]) as nat
    }
}

/// Multiplies the first `primorial_number - 1` primes of the table; the
/// one-based convention of the primorial number is kept.
pub fn primorial(primes: &Vec<usize>, primorial_number: usize) -> (r: Uint)
    requires
        primorial_number == 0 || primorial_number - 1 <= primes@.len(),
    ensures
        r@ == prod_prefix(primes@, primorial_number as int - 1),
{
    let mut p = Uint::from_u64(1);
    let mut i: usize = 1;
    while i < primorial_number
        invariant
            1 <= i,
            primorial_number == 0 ==> i == 1,
            primorial_number == 0 || i <= primorial_number,
            primorial_number == 0 || primorial_number - 1 <= primes@.len(),
            p@ == prod_prefix(primes@, i as int - 1),
        decreases primorial_number - i,
    {
        let factor = Uint::from_usize(primes[i - 1]);
        p = uint_mul(&p, &factor);
        i = i + 1;
    }
    proof {
        if primorial_number == 0 {
            assert(prod_prefix(primes@, -1) == 1);
            assert(prod_prefix(primes@, 0) == 1);
        }
    }
    p
}

/// A product of positive factors is positive.
pub proof fn lemma_prod_prefix_pos(s: Seq<usize>, n: int)
    requires
        forall|i: int| 0 <= i < s.len() ==> #[trigger] s[i] >= 1,
    ensures
        prod_prefix(s, n) >= 1,
    decreases
            (if n <= 0 {
                0
            } else {
                n
            }),
{
    if n <= 0 || n > s.len() {
    } else {
        lemma_prod_prefix_pos(s, n - 1);
        assert(prod_prefix(s, n - 1) * s[n - 1] >= 1) by (nonlinear_arith)
            requires
                prod_prefix(s, n - 1) >= 1 && s[n - 1] >= 1,
        ;
    }
}

/// Whether `a` has a multiplicative inverse modulo `m`.
pub open spec fn has_inverse(a: nat, m: nat) -> bool {
    exists|y: nat| y < m && #[trigger] (((a * y) as int) % (m as int)) == 1
}

/// What one entry of the inverse table promises: the inverse of `a` modulo
/// `m` where one exists, and the sentinel 0 where none does.
pub open spec fn inverse_ok(a: nat, m: usize, x: usize) -> bool {
    if has_inverse(a, m as nat) {
        x < m && ((a * x) as int) % (m as int) == 1
    } else {
        x == 0
    }
}

/// Computes the modular inverse of `a` for each modulus of the table,
/// storing 0 where the inverse does not exist.
pub fn compute_modular_inverses(a: &Uint, moduli: &Vec<usize>) -> (r: Vec<usize>)
    requires
        forall|i: int| 0 <= i < moduli@.len() ==> moduli@[i] >= 2,
    ensures
        r@.len() == moduli@.len(),
        forall|i: int| 0 <= i < r@.len() ==> inverse_ok(a@, moduli@[i], #[trigger] r@[i]),
{
    let mut r: Vec<usize> = Vec::new();
    let mut i: usize = 0;
    while i < moduli.len()
        invariant
            0 <= i <= moduli@.len(),
            r@.len() == i,
            forall|t: int| 0 <= t < moduli@.len() ==> moduli@[t] >= 2,
            forall|t: int| 0 <= t < i ==> inverse_ok(a@, moduli@[t], #[trigger] r@[t]),
        decreases moduli@.len() - i,
    {
        let m = Uint::from_usize(moduli[i]);
        match uint_modinv(a, &m) {
            Some(x) => {
                match x.to_usize() {
                    Some(v) => {
                        proof {
                            assert(((a@ * x@) as int) % (moduli@[i as int] as int) == 1);
                            assert(has_inverse(a@, moduli@[i as int] as nat));
                        }
                        r.push(v);
                    },
                    None => {
                        proof {
                            assert(false);
                        }
                        r.push(0);
                    },
                }
            },
            None => {
                proof {
                    if has_inverse(a@, moduli@[i as int] as nat) {
                        let y = choose|y: nat|
                            y < moduli@[i as int] && #[trigger] (((a@ * y) as int) % (
                            moduli@[i as int] as int)) == 1;
                        assert(false);
                    }
                }
                r.push(0);
            },
        }
        i = i + 1;
    }
    r
}


/// The greatest common divisor, by Euclid's recursion.
pub open spec fn gcd(a: int, b: int) -> int
    decreases b,
{
    if b <= 0 {
        a
    } else {
        gcd(b, a % b)
    }
}

/// The greatest common divisor is at least 1 and divides both arguments.
pub proof fn lemma_gcd_divides(a: int, b: int)
    requires
        a >= 1,
        b >= 0,
    ensures
        gcd(a, b) >= 1,
        a % gcd(a, b) == 0,
        b % gcd(a, b) == 0,
    decreases b,
{
    if b == 0 {
        vstd::arithmetic::div_mod::lemma_mod_self_0(a);
        vstd::arithmetic::div_mod::lemma_small_mod(0, a as nat);
    } else {
        vstd::arithmetic::div_mod::lemma_mod_bound(a, b);
        lemma_gcd_divides(b, a % b);
        let g = gcd(b, a % b);
        let q = a / b;
        vstd::arithmetic::div_mod::lemma_fundamental_div_mod(a, b);
        vstd::arithmetic::div_mod::lemma_mul_mod_noop_left(b, q, g);
        assert(((b % g) * q) % g == (b * q) % g);
        vstd::arithmetic::div_mod::lemma_small_mod(0, g as nat);
        assert((0 * q) % g == 0) by (nonlinear_arith)
            requires
                g >= 1,
        ;
        vstd::arithmetic::div_mod::lemma_add_mod_noop(b * q, a % b, g);
        assert(a % g == 0);
    }
}

/// Bezout's identity: some integer combination of the two arguments gives
/// their greatest common divisor.
pub proof fn lemma_bezout(a: int, b: int)
    requires
        a >= 1,
        b >= 0,
    ensures
        exists|x: int, y: int| #[trigger] (a * x + b * y) == gcd(a, b),
    decreases b,
{
    if b == 0 {
        assert(a * 1 + b * 0 == gcd(a, b)) by (nonlinear_arith)
            requires
                gcd(a, b) == a,
        ;
    } else {
        vstd::arithmetic::div_mod::lemma_mod_bound(a, b);
        lemma_bezout(b, a % b);
        let (x2, y2) = choose|x2: int, y2: int| #[trigger] (b * x2 + (a % b) * y2) == gcd(b, a % b);
        let q = a / b;
        vstd::arithmetic::div_mod::lemma_fundamental_div_mod(a, b);
        assert(a * y2 + b * (x2 - q * y2) == b * x2 + (a - b * q) * y2) by (nonlinear_arith);
        assert(a * y2 + b * (x2 - q * y2) == gcd(a, b));
    }
}

/// An argument coprime to the modulus has a multiplicative inverse.
pub proof fn lemma_coprime_has_inverse(a: nat, m: nat)
    requires
        a >= 1,
        m >= 2,
        gcd(a as int, m as int) == 1,
    ensures
        has_inverse(a, m),
{
    lemma_bezout(a as int, m as int);
    let (x, y) = choose|x: int, y: int| #[trigger] (a as int * x + m as int * y) == gcd(
        a as int,
        m as int,
    );
    let xm = x % (m as int);
    vstd::arithmetic::div_mod::lemma_mod_bound(x, m as int);
    vstd::arithmetic::div_mod::lemma_mul_mod_noop_right(a as int, x, m as int);
    assert((a as int * xm) % (m as int) == (a as int * x) % (m as int));
    assert(a as int * x == 1 - m as int * y);
    vstd::arithmetic::div_mod::lemma_mod_multiples_vanish(-y, 1, m as int);
    assert((m as int * (-y) + 1) % (m as int) == 1int % (m as int));
    assert(m as int * (-y) + 1 == 1 - m as int * y) by (nonlinear_arith);
    vstd::arithmetic::div_mod::lemma_small_mod(1, m);
    assert((a as int * xm) % (m as int) == 1);
    assert(((a * (xm as nat)) as int) % (m as int) == 1) by (nonlinear_arith)
        requires
            xm >= 0 && (a as int * xm) % (m as int) == 1 && a >= 1,
    ;
    assert(has_inverse(a, m));
}

/// The divisibility facts of a linear combination: a common divisor of
/// both terms divides the sum.
proof fn lemma_divides_linear(g: int, a: int, b: int, x: int, y: int)
    requires
        g >= 1,
        a % g == 0,
        b % g == 0,
    ensures
        (a * x + b * y) % g == 0,
{
    let qa = a / g;
    let qb = b / g;
    vstd::arithmetic::div_mod::lemma_fundamental_div_mod(a, g);
    vstd::arithmetic::div_mod::lemma_fundamental_div_mod(b, g);
    assert(a * x + b * y == (qa * x + qb * y) * g) by (nonlinear_arith)
        requires
            a == g * qa && b == g * qb,
    ;
    vstd::arithmetic::div_mod::lemma_mod_multiples_basic(qa * x + qb * y, g);
}

/// An argument has a multiplicative inverse exactly when it is coprime to
/// the modulus.
pub proof fn lemma_has_inverse_iff_coprime(a: nat, m: nat)
    requires
        a >= 1,
        m >= 2,
    ensures
        has_inverse(a, m) <==> gcd(a as int, m as int) == 1,
{
    if gcd(a as int, m as int) == 1 {
        lemma_coprime_has_inverse(a, m);
    }
    if has_inverse(a, m) {
        let x = choose|y: nat|
            y < m && #[trigger] (((a * y) as int) % (m as int)) == 1;
        lemma_gcd_divides(a as int, m as int);
        let g = gcd(a as int, m as int);
        let q = (a * x) as int / (m as int);
        vstd::arithmetic::div_mod::lemma_fundamental_div_mod((a * x) as int, m as int);
        assert((a * x) as int == m as int * q + 1);
        lemma_divides_linear(g, a as int, m as int, x as int, -q);
        assert(a as int * (x as int) + m as int * (-q) == 1) by (nonlinear_arith)
            requires
                (a * x) as int == m as int * q + 1,
        ;
        assert(1int % g == 0);
        lemma_divisor_at_most(1, g);
    }
}

/// A divisor of a positive number is no larger than it.
pub proof fn lemma_divisor_at_most(n: int, d: int)
    requires
        n >= 1,
        d >= 1,
        n % d == 0,
    ensures
        d <= n,
{
    let q = n / d;
    vstd::arithmetic::div_mod::lemma_fundamental_div_mod(n, d);
    assert(q >= 1) by (nonlinear_arith)
        requires
            n == d * q && n >= 1 && d >= 1,
    ;
    assert(d * q >= d) by (nonlinear_arith)
        requires
            d >= 1 && q >= 1,
    ;
}

/// A prime has no divisors besides 1 and itself.
pub proof fn lemma_divisor_of_prime(p: int, d: int)
    requires
        is_prime(p),
        d >= 1,
        p % d == 0,
    ensures
        d == 1 || d == p,
{
    lemma_divisor_at_most(p, d);
    if 2 <= d < p {
        assert(p % d != 0);
    }
}

/// Euclid's lemma: a prime dividing a product divides one of the factors.
pub proof fn lemma_euclid(p: int, a: int, b: int)
    requires
        is_prime(p),
        a >= 1,
        b >= 1,
        (a * b) % p == 0,
    ensures
        a % p == 0 || b % p == 0,
{
    lemma_gcd_divides(a, p);
    let g = gcd(a, p);
    lemma_divisor_of_prime(p, g);
    if g == p {
        assert(a % p == 0);
    } else {
        lemma_bezout(a, p);
        let (x, y) = choose|x: int, y: int| #[trigger] (a * x + p * y) == gcd(a, p);
        let k = (a * b) / p;
        vstd::arithmetic::div_mod::lemma_fundamental_div_mod(a * b, p);
        assert(a * b == p * k);
        assert(b == p * (k * x + b * y)) by (nonlinear_arith)
            requires
                a * x + p * y == 1 && a * b == p * k,
        ;
        vstd::arithmetic::div_mod::lemma_mod_multiples_basic(k * x + b * y, p);
        assert((p * (k * x + b * y)) % p == ((k * x + b * y) * p) % p) by (nonlinear_arith);
    }
}

/// A prime dividing a product of table entries divides one of them.
pub proof fn lemma_prime_divides_product(s: Seq<usize>, n: int, p: int)
    requires
        is_prime(p),
        forall|i: int| 0 <= i < s.len() ==> #[trigger] s[i] >= 1,
        (prod_prefix(s, n) as int) % p == 0,
    ensures
        exists|i: int| 0 <= i < n && i < s.len() && (#[trigger] s[i] as int) % p == 0,
    decreases
            (if n <= 0 {
                0
            } else {
                n
            }),
{
    if n <= 0 || n > s.len() {
        vstd::arithmetic::div_mod::lemma_small_mod(1, p as nat);
        assert(false);
    } else {
        lemma_prod_prefix_pos(s, n - 1);
        lemma_euclid(p, prod_prefix(s, n - 1) as int, s[n - 1] as int);
        if (prod_prefix(s, n - 1) as int) % p == 0 {
            lemma_prime_divides_product(s, n - 1, p);
        } else {
            assert((s[n - 1] as int) % p == 0);
        }
    }
}

/// A prime larger than every factor of a product is coprime to it.
pub proof fn lemma_prime_coprime_to_product(s: Seq<usize>, n: int, p: int)
    requires
        is_prime(p),
        forall|i: int| 0 <= i < s.len() ==> 1 <= #[trigger] s[i],
        forall|i: int| 0 <= i < n && i < s.len() ==> (#[trigger] s[i] as int) < p,
    ensures
        gcd(prod_prefix(s, n) as int, p) == 1,
{
    lemma_prod_prefix_pos(s, n);
    let pr = prod_prefix(s, n) as int;
    lemma_gcd_divides(pr, p);
    let g = gcd(pr, p);
    lemma_divisor_of_prime(p, g);
    if g == p {
        lemma_prime_divides_product(s, n, p);
        let i = choose|i: int| 0 <= i < n && i < s.len() && (#[trigger] s[i] as int) % p == 0;
        lemma_divisor_at_most(s[i] as int, p);
        assert(false);
    }
}

/// The Fermat test in base 2: `n` is a probable prime when
/// `2^(n-1) = 1 (mod n)`.
pub open spec fn fermat_prp(n: nat) -> bool {
    pow(2, (n - 1) as nat) % (n as int) == 1
}

/// Runs the base-2 Fermat test. Composites can pass it; callers are
/// expected to confirm results with a stronger test.
pub fn is_prime_fermat(n: &Uint) -> (r: bool)
    requires
        n@ >= 1,
    ensures
        r == fermat_prp(n@),
{
    let one = Uint::from_u64(1);
    let e = uint_sub(n, &one);
    let two = Uint::from_u64(2);
    let p = uint_modpow(&two, &e, n);
    match p.to_usize() {
        Some(v) => v == 1,
        None => false,
    }
}

} // verus!
