//! The segmented wheel sieve. Candidates have the form `b + j * P` where
//! `b` is the first candidate of a segment and `j` runs over the segment's
//! factors; a factor is eliminated when some table prime at or past the
//! primorial number divides `b + j * P + o` for a pattern offset `o`. For
//! each prime and offset the kernel computes the first factor hit, using
//! the precomputed modular inverse of `P`, then steps by the prime; it is
//! proved to eliminate exactly the factors the definition above names.

use vstd::prelude::*;
use crate::bitset::{bit_get, word_bit_get, word_bit_set, zero_words};
use crate::uint::{Uint, uint_add, uint_rem};

verus! {

/// Scratch storage for sieving, reused from one segment to the next.
pub struct Sieve {
    factors_eliminated: Vec<u64>,
}

impl Sieve {
    /// An empty sieve; each segment allocates its bit table anew.
    pub fn new() -> (r: Sieve)
        ensures
            r.words() == Seq::<u64>::empty(),
    {
        Sieve { factors_eliminated: Vec::new() }
    }

    /// The bit table held at the moment.
    pub closed spec fn words(&self) -> Seq<u64> {
        self.factors_eliminated@
    }
}

/// The inverse table matches the prime table: each entry is 0 or a genuine
/// inverse of `pval` modulo its prime.
pub open spec fn table_inverses_ok(primes: Seq<usize>, inv: Seq<usize>, pval: nat) -> bool {
    &&& inv.len() == primes.len()
    &&& forall|i: int| 0 <= i < primes.len() ==> #[trigger] primes[i] >= 2
    &&& forall|i: int|
        0 <= i < inv.len() ==> #[trigger] inv[i] == 0 || (inv[i] < primes[i] && ((pval * inv[i]) as int)
            % (primes[i] as int) == 1)
}

/// Prime `pr` divides the pattern position `o` of the candidate `b + j * pval`.
pub open spec fn hits(b: nat, pval: nat, o: nat, pr: nat, j: nat) -> bool {
    ((b + j * pval + o) as int) % (pr as int) == 0
}

/// Factor `j` is eliminated: some table prime at or past `n_start`, with a
/// recorded inverse, hits some pattern position of its candidate.
pub open spec fn eliminated(
    primes: Seq<usize>,
    inv: Seq<usize>,
    n_start: int,
    pattern: Seq<usize>,
    b: nat,
    pval: nat,
    j: nat,
) -> bool {
    exists|i: int, l: int|
        n_start <= i < primes.len() && 0 <= l < pattern.len() && inv[i] != 0 && #[trigger] hits(
            b,
            pval,
            pattern[l] as nat,
            primes[i] as nat,
            j,
        )
}

/// The part of `eliminated` seen after the sieve has processed all pairs
/// lexicographically before prime index `i`, pattern position `l`.
pub open spec fn eliminated_upto(
    primes: Seq<usize>,
    inv: Seq<usize>,
    n_start: int,
    pattern: Seq<usize>,
    b: nat,
    pval: nat,
    j: nat,
    i: int,
    l: int,
) -> bool {
    exists|i2: int, l2: int|
        n_start <= i2 < primes.len() && 0 <= l2 < pattern.len() && (i2 < i || (i2 == i && l2 < l))
            && inv[i2] != 0 && #[trigger] hits(b, pval, pattern[l2] as nat, primes[i2] as nat, j)
}

/// The first factor hit by a prime characterizes every hit factor: with
/// `c` the residue of `b + o` and `fp0 = (pr - c) * inv mod pr`, the prime
/// divides `b + j * pval + o` exactly for the `j` congruent to `fp0`.
pub proof fn lemma_first_hit(b: int, pval: int, o: int, m: int, iv: int, c: int, fp0: int, j: int)
    requires
        b >= 0,
        pval >= 0,
        o >= 0,
        j >= 0,
        m >= 2,
        1 <= iv < m,
        (pval * iv) % m == 1,
        c == (b + o) % m,
        fp0 == ((m - c) * iv) % m,
    ensures
        ((b + j * pval + o) % m == 0) <==> (j % m == fp0),
{
    let x = b + o;
    vstd::arithmetic::div_mod::lemma_mod_bound(x, m);
    // Claim A: (x + j*pval) % m == 0  <==>  (j*pval) % m == (m - c) % m
    assert(((x + j * pval) % m == 0) <==> ((j * pval) % m == (m - c) % m)) by {
        vstd::arithmetic::div_mod::lemma_mod_add_multiples_vanish(-c, m);
        assert((m - c) % m == (-c) % m);
        if (x + j * pval) % m == 0 {
            vstd::arithmetic::div_mod::lemma_sub_mod_noop(x + j * pval, x, m);
            vstd::arithmetic::div_mod::lemma_mod_bound(x + j * pval, m);
            vstd::arithmetic::div_mod::lemma_mod_bound(j * pval, m);
            assert((((x + j * pval) % m) - (x % m)) % m == (j * pval) % m);
            assert((0 - c) % m == (j * pval) % m);
        }
        if (j * pval) % m == (m - c) % m {
            vstd::arithmetic::div_mod::lemma_add_mod_noop(x, j * pval, m);
            assert((c + (j * pval) % m) % m == (x + j * pval) % m);
            if c == 0 {
                vstd::arithmetic::div_mod::lemma_mod_self_0(m);
                vstd::arithmetic::div_mod::lemma_small_mod(0, m as nat);
            } else {
                vstd::arithmetic::div_mod::lemma_small_mod((m - c) as nat, m as nat);
                vstd::arithmetic::div_mod::lemma_mod_self_0(m);
                assert((c + (m - c)) % m == 0);
            }
        }
    }
    // Claim B: (j*pval) % m == (m - c) % m  <==>  j % m == fp0
    assert(((j * pval) % m == (m - c) % m) <==> (j % m == fp0)) by {
        if (j * pval) % m == (m - c) % m {
            lemma_recover_through_inverse(j, pval, iv, m);
            assert((((j * pval) % m) * iv) % m == j % m);
            vstd::arithmetic::div_mod::lemma_mul_mod_noop_left(m - c, iv, m);
            assert((((m - c) % m) * iv) % m == ((m - c) * iv) % m);
        }
        if j % m == fp0 {
            vstd::arithmetic::div_mod::lemma_mul_mod_noop_left(j, pval, m);
            assert(((j % m) * pval) % m == (j * pval) % m);
            vstd::arithmetic::div_mod::lemma_mul_mod_noop_left((m - c) * iv, pval, m);
            assert(((((m - c) * iv) % m) * pval) % m == (((m - c) * iv) * pval) % m);
            assert(((m - c) * iv) * pval == (m - c) * (pval * iv)) by (nonlinear_arith);
            vstd::arithmetic::div_mod::lemma_mul_mod_noop_right(m - c, pval * iv, m);
            assert(((m - c) * ((pval * iv) % m)) % m == ((m - c) * (pval * iv)) % m);
            assert((m - c) * 1 == m - c);
        }
    }
}

/// Multiplying by `pval` and then by its inverse gives back the residue.
proof fn lemma_recover_through_inverse(y: int, pval: int, iv: int, m: int)
    requires
        m >= 2,
        (pval * iv) % m == 1,
    ensures
        (((y * pval) % m) * iv) % m == y % m,
{
    vstd::arithmetic::div_mod::lemma_mul_mod_noop_left(y * pval, iv, m);
    assert((((y * pval) % m) * iv) % m == ((y * pval) * iv) % m);
    assert((y * pval) * iv == y * (pval * iv)) by (nonlinear_arith);
    vstd::arithmetic::div_mod::lemma_mul_mod_noop_right(y, pval * iv, m);
    assert((y * ((pval * iv) % m)) % m == (y * (pval * iv)) % m);
    assert(y * 1 == y);
}

/// A number congruent to `fp0` modulo `pr` is at least `fp0`.
proof fn lemma_congruent_at_least(fp0: int, pr: int, width: int)
    requires
        0 <= fp0 < pr,
    ensures
        forall|k: int| 0 <= k < width && #[trigger] (k % pr) == fp0 ==> k >= fp0,
{
    assert forall|k: int| 0 <= k < width && #[trigger] (k % pr) == fp0 implies k >= fp0 by {
        vstd::arithmetic::div_mod::lemma_fundamental_div_mod(k, pr);
        vstd::arithmetic::div_mod::lemma_div_pos_is_pos(k, pr);
        assert(pr * (k / pr) >= 0) by (nonlinear_arith)
            requires
                pr >= 1 && k / pr >= 0,
        ;
    }
}

/// Sets every bit at positions congruent to `fp0` modulo `pr`, from `fp0`
/// up to `width`, and no other bit below `width`.
fn mark_multiples(words: &mut Vec<u64>, fp0: usize, pr: usize, width: usize)
    requires
        width <= old(words)@.len() * 64,
        fp0 < pr,
        pr >= 1,
        pr + width <= usize::MAX,
    ensures
        final(words)@.len() == old(words)@.len(),
        forall|k: int|
            0 <= k < width ==> #[trigger] bit_get(final(words)@, k) == (bit_get(old(words)@, k)
                || k % (pr as int) == fp0 as int),
{
    let ghost w0 = words@;
    let mut fp = fp0;
    proof {
        vstd::arithmetic::div_mod::lemma_small_mod(0, pr as nat);
        lemma_congruent_at_least(fp0 as int, pr as int, width as int);
    }
    while fp < width
        invariant
            words@.len() == w0.len(),
            width <= w0.len() * 64,
            fp0 < pr,
            pr + width <= usize::MAX,
            fp0 <= fp,
            fp <= width + pr,
            (fp - fp0) % (pr as int) == 0,
            forall|k: int|
                0 <= k < width ==> #[trigger] bit_get(words@, k) == (bit_get(w0, k) || (k % (
                pr as int) == fp0 as int && k < fp)),
        decreases width + pr - fp,
    {
        let ghost before = words@;
        word_bit_set(words, fp);
        proof {
            lemma_congruent_at_least(fp0 as int, pr as int, width as int);
            let q = (fp - fp0) / (pr as int);
            vstd::arithmetic::div_mod::lemma_fundamental_div_mod(fp as int - fp0 as int, pr as int);
            vstd::arithmetic::div_mod::lemma_mod_multiples_vanish(q, fp0 as int, pr as int);
            vstd::arithmetic::div_mod::lemma_small_mod(fp0 as nat, pr as nat);
            assert(fp as int % (pr as int) == fp0 as int);
            vstd::arithmetic::div_mod::lemma_mod_add_multiples_vanish(
                fp as int - fp0 as int,
                pr as int,
            );
            assert forall|k: int|
                0 <= k < width implies #[trigger] bit_get(words@, k) == (bit_get(w0, k) || (k % (
            pr as int) == fp0 as int && k < fp + pr)) by {
                if k < fp as int {
                    assert(bit_get(words@, k) == (bit_get(before, k) || k == fp as int));
                } else if k == fp as int {
                    assert(bit_get(words@, k));
                } else {
                    assert(bit_get(words@, k) == bit_get(before, k));
                    if k % (pr as int) == fp0 as int && k < fp + pr {
                        vstd::arithmetic::div_mod::lemma_sub_mod_noop(k, fp as int, pr as int);
                        vstd::arithmetic::div_mod::lemma_small_mod(0, pr as nat);
                        vstd::arithmetic::div_mod::lemma_small_mod(
                            (k - fp as int) as nat,
                            pr as nat,
                        );
                        assert(false);
                    }
                }
            }
        }
        fp = fp + pr;
    }
}

/// Before any pair is processed, nothing is eliminated.
proof fn lemma_upto_none(
    primes: Seq<usize>,
    inv: Seq<usize>,
    n_start: int,
    pattern: Seq<usize>,
    b: nat,
    pval: nat,
    j: nat,
)
    ensures
        !eliminated_upto(primes, inv, n_start, pattern, b, pval, j, n_start, 0),
{
}

/// Processing one pair adds its hits to the eliminated set.
proof fn lemma_upto_l_step(
    primes: Seq<usize>,
    inv: Seq<usize>,
    n_start: int,
    pattern: Seq<usize>,
    b: nat,
    pval: nat,
    j: nat,
    i: int,
    l: int,
)
    requires
        n_start <= i < primes.len(),
        0 <= l < pattern.len(),
    ensures
        eliminated_upto(primes, inv, n_start, pattern, b, pval, j, i, l + 1) == (eliminated_upto(
            primes,
            inv,
            n_start,
            pattern,
            b,
            pval,
            j,
            i,
            l,
        ) || (inv[i] != 0 && hits(b, pval, pattern[l] as nat, primes[i] as nat, j))),
{
    if eliminated_upto(primes, inv, n_start, pattern, b, pval, j, i, l + 1) {
        let (i2, l2) = choose|i2: int, l2: int|
            n_start <= i2 < primes.len() && 0 <= l2 < pattern.len() && (i2 < i || (i2 == i && l2 < l
                + 1)) && inv[i2] != 0 && #[trigger] hits(
                b,
                pval,
                pattern[l2] as nat,
                primes[i2] as nat,
                j,
            );
        if i2 < i || (i2 == i && l2 < l) {
            assert(eliminated_upto(primes, inv, n_start, pattern, b, pval, j, i, l));
        } else {
            assert(i2 == i && l2 == l);
        }
    }
    if eliminated_upto(primes, inv, n_start, pattern, b, pval, j, i, l) {
        let (i2, l2) = choose|i2: int, l2: int|
            n_start <= i2 < primes.len() && 0 <= l2 < pattern.len() && (i2 < i || (i2 == i && l2
                < l)) && inv[i2] != 0 && #[trigger] hits(
                b,
                pval,
                pattern[l2] as nat,
                primes[i2] as nat,
                j,
            );
        assert(eliminated_upto(primes, inv, n_start, pattern, b, pval, j, i, l + 1));
    }
    if inv[i] != 0 && hits(b, pval, pattern[l] as nat, primes[i] as nat, j) {
        assert(eliminated_upto(primes, inv, n_start, pattern, b, pval, j, i, l + 1));
    }
}

/// Finishing a prime's pattern positions moves the bound to the next prime.
proof fn lemma_upto_i_step(
    primes: Seq<usize>,
    inv: Seq<usize>,
    n_start: int,
    pattern: Seq<usize>,
    b: nat,
    pval: nat,
    j: nat,
    i: int,
)
    ensures
        eliminated_upto(primes, inv, n_start, pattern, b, pval, j, i, pattern.len() as int)
            == eliminated_upto(primes, inv, n_start, pattern, b, pval, j, i + 1, 0),
{
    if eliminated_upto(primes, inv, n_start, pattern, b, pval, j, i, pattern.len() as int) {
        let (i2, l2) = choose|i2: int, l2: int|
            n_start <= i2 < primes.len() && 0 <= l2 < pattern.len() && (i2 < i || (i2 == i && l2
                < pattern.len())) && inv[i2] != 0 && #[trigger] hits(
                b,
                pval,
                pattern[l2] as nat,
                primes[i2] as nat,
                j,
            );
        assert(eliminated_upto(primes, inv, n_start, pattern, b, pval, j, i + 1, 0));
    }
    if eliminated_upto(primes, inv, n_start, pattern, b, pval, j, i + 1, 0) {
        let (i2, l2) = choose|i2: int, l2: int|
            n_start <= i2 < primes.len() && 0 <= l2 < pattern.len() && (i2 < i + 1 || (i2 == i + 1
                && l2 < 0)) && inv[i2] != 0 && #[trigger] hits(
                b,
                pval,
                pattern[l2] as nat,
                primes[i2] as nat,
                j,
            );
        assert(eliminated_upto(primes, inv, n_start, pattern, b, pval, j, i, pattern.len() as int));
    }
}

/// Once every prime is processed, the bound form is the full definition.
proof fn lemma_upto_full(
    primes: Seq<usize>,
    inv: Seq<usize>,
    n_start: int,
    pattern: Seq<usize>,
    b: nat,
    pval: nat,
    j: nat,
    i: int,
)
    requires
        i >= primes.len(),
    ensures
        eliminated_upto(primes, inv, n_start, pattern, b, pval, j, i, 0) == eliminated(
            primes,
            inv,
            n_start,
            pattern,
            b,
            pval,
            j,
        ),
{
    if eliminated_upto(primes, inv, n_start, pattern, b, pval, j, i, 0) {
        let (i2, l2) = choose|i2: int, l2: int|
            n_start <= i2 < primes.len() && 0 <= l2 < pattern.len() && (i2 < i || (i2 == i && l2
                < 0)) && inv[i2] != 0 && #[trigger] hits(
                b,
                pval,
                pattern[l2] as nat,
                primes[i2] as nat,
                j,
            );
        assert(eliminated(primes, inv, n_start, pattern, b, pval, j));
    }
    if eliminated(primes, inv, n_start, pattern, b, pval, j) {
        let (i2, l2) = choose|i2: int, l2: int|
            n_start <= i2 < primes.len() && 0 <= l2 < pattern.len() && inv[i2] != 0
                && #[trigger] hits(b, pval, pattern[l2] as nat, primes[i2] as nat, j);
        assert(eliminated_upto(primes, inv, n_start, pattern, b, pval, j, i, 0));
    }
}

/// Sieves one segment of `width` factors whose first candidate is `b`,
/// returning the surviving factors in increasing order: exactly those not
/// hit by any table prime at or past `n_start` at any pattern position.
pub fn sieve_segment(
    primes: &Vec<usize>,
    inv: &Vec<usize>,
    n_start: usize,
    pattern: &Vec<usize>,
    b: &Uint,
    p: &Uint,
    width: usize,
    sieve: &mut Sieve,
) -> (survivors: Vec<usize>)
    requires
        table_inverses_ok(primes@, inv@, p@),
        forall|i: int| 0 <= i < primes@.len() ==> #[trigger] primes@[i] + width <= usize::MAX,
    ensures
        forall|t: int, u: int| 0 <= t < u < survivors@.len() ==> survivors@[t] < survivors@[u],
        forall|t: int| 0 <= t < survivors@.len() ==> #[trigger] survivors@[t] < width,
        forall|x: usize|
            x < width ==> (survivors@.contains(x) <==> !eliminated(
                primes@,
                inv@,
                n_start as int,
                pattern@,
                b@,
                p@,
                x as nat,
            )),
{
    let n_words = width / 64 + 1;
    proof {
        vstd::arithmetic::div_mod::lemma_fundamental_div_mod(width as int, 64);
    }
    sieve.factors_eliminated = zero_words(n_words);
    let mut i: usize = n_start;
    proof {
        assert forall|k: usize| k < width implies !bit_get(sieve.factors_eliminated@, k as int) by {
            let sh = (k as int % 64) as u64;
            assert((0u64 >> sh) & 1 == 0) by (bit_vector);
        }
        if n_start >= primes@.len() {
            assert forall|k: usize| k < width implies #[trigger] bit_get(
                sieve.factors_eliminated@,
                k as int,
            ) == eliminated_upto(
                primes@,
                inv@,
                n_start as int,
                pattern@,
                b@,
                p@,
                k as nat,
                i as int,
                0,
            ) by {
                lemma_upto_none(primes@, inv@, n_start as int, pattern@, b@, p@, k as nat);
            }
        }
    }
    while i < primes.len()
        invariant
            table_inverses_ok(primes@, inv@, p@),
            forall|t: int| 0 <= t < primes@.len() ==> #[trigger] primes@[t] + width <= usize::MAX,
            n_start <= i,
            i <= primes@.len() || i == n_start,
            width < sieve.factors_eliminated@.len() * 64,
            forall|k: usize|
                k < width ==> (#[trigger] bit_get(sieve.factors_eliminated@, k as int)
                    == eliminated_upto(
                    primes@,
                    inv@,
                    n_start as int,
                    pattern@,
                    b@,
                    p@,
                    k as nat,
                    i as int,
                    0,
                )),
        decreases primes@.len() - i,
    {
        let pr = primes[i];
        let iv = inv[i];
        let mut l: usize = 0;
        while l < pattern.len()
            invariant
                table_inverses_ok(primes@, inv@, p@),
                forall|t: int|
                    0 <= t < primes@.len() ==> #[trigger] primes@[t] + width <= usize::MAX,
                n_start <= i < primes@.len(),
                pr == primes@[i as int],
                iv == inv@[i as int],
                l <= pattern@.len(),
                width < sieve.factors_eliminated@.len() * 64,
                forall|k: usize|
                    k < width ==> (#[trigger] bit_get(sieve.factors_eliminated@, k as int)
                        == eliminated_upto(
                        primes@,
                        inv@,
                        n_start as int,
                        pattern@,
                        b@,
                        p@,
                        k as nat,
                        i as int,
                        l as int,
                    )),
            decreases pattern@.len() - l,
        {
            if iv != 0 {
                let o = pattern[l];
                let bl = uint_add(b, &Uint::from_usize(o));
                let pru = Uint::from_usize(pr);
                let rem = uint_rem(&bl, &pru);
                proof {
                    vstd::arithmetic::div_mod::lemma_mod_bound((b@ + o) as int, pr as int);
                }
                let c = match rem.to_usize() {
                    Some(c) => c,
                    None => {
                        proof {
                            assert(false);
                        }
                        0
                    },
                };
                proof {
                    assert(((pr - c) as u128) * (iv as u128) < 0x100000000000000000000000000000000)
                        by (nonlinear_arith)
                        requires
                            (pr - c) as u128 <= 0xffffffffffffffffu128 && (iv as u128)
                                <= 0xffffffffffffffffu128,
                    ;
                }
                let prod: u128 = ((pr - c) as u128) * (iv as u128);
                let fp0u: u128 = prod % (pr as u128);
                proof {
                    vstd::arithmetic::div_mod::lemma_mod_bound(prod as int, pr as int);
                }
                let fp0: usize = fp0u as usize;
                let ghost before = sieve.factors_eliminated@;
                mark_multiples(&mut sieve.factors_eliminated, fp0, pr, width);
                proof {
                    assert forall|k: usize|
                        k < width implies #[trigger] bit_get(sieve.factors_eliminated@, k as int)
                        == eliminated_upto(
                        primes@,
                        inv@,
                        n_start as int,
                        pattern@,
                        b@,
                        p@,
                        k as nat,
                        i as int,
                        l as int + 1,
                    ) by {
                        lemma_first_hit(
                            b@ as int,
                            p@ as int,
                            o as int,
                            pr as int,
                            iv as int,
                            c as int,
                            fp0 as int,
                            k as int,
                        );
                        lemma_upto_l_step(
                            primes@,
                            inv@,
                            n_start as int,
                            pattern@,
                            b@,
                            p@,
                            k as nat,
                            i as int,
                            l as int,
                        );
                        assert(bit_get(sieve.factors_eliminated@, k as int) == (bit_get(
                            before,
                            k as int,
                        ) || k as int % (pr as int) == fp0 as int));
                        assert(hits(b@, p@, o as nat, pr as nat, k as nat) == (((b@ + k as nat * p@
                            + o) as int) % (pr as int) == 0));
                    }
                }
            } else {
                proof {
                    assert forall|k: usize|
                        k < width implies #[trigger] bit_get(sieve.factors_eliminated@, k as int)
                        == eliminated_upto(
                        primes@,
                        inv@,
                        n_start as int,
                        pattern@,
                        b@,
                        p@,
                        k as nat,
                        i as int,
                        l as int + 1,
                    ) by {
                        lemma_upto_l_step(
                            primes@,
                            inv@,
                            n_start as int,
                            pattern@,
                            b@,
                            p@,
                            k as nat,
                            i as int,
                            l as int,
                        );
                    }
                }
            }
            l = l + 1;
        }
        proof {
            assert forall|k: usize|
                k < width implies #[trigger] bit_get(sieve.factors_eliminated@, k as int)
                == eliminated_upto(
                primes@,
                inv@,
                n_start as int,
                pattern@,
                b@,
                p@,
                k as nat,
                i as int + 1,
                0,
            ) by {
                lemma_upto_i_step(
                    primes@,
                    inv@,
                    n_start as int,
                    pattern@,
                    b@,
                    p@,
                    k as nat,
                    i as int,
                );
            }
        }
        i = i + 1;
    }
    proof {
        assert forall|k: usize| k < width implies #[trigger] bit_get(
            sieve.factors_eliminated@,
            k as int,
        ) == eliminated(primes@, inv@, n_start as int, pattern@, b@, p@, k as nat) by {
            lemma_upto_full(
                primes@,
                inv@,
                n_start as int,
                pattern@,
                b@,
                p@,
                k as nat,
                i as int,
            );
        }
    }
    let mut survivors: Vec<usize> = Vec::new();
    let mut j: usize = 0;
    while j < width
        invariant
            width < sieve.factors_eliminated@.len() * 64,
            j <= width,
            forall|k: usize|
                k < width ==> (#[trigger] bit_get(sieve.factors_eliminated@, k as int)
                    == eliminated(primes@, inv@, n_start as int, pattern@, b@, p@, k as nat)),
            forall|t: int| 0 <= t < survivors@.len() ==> #[trigger] survivors@[t] < j,
            forall|t: int, u: int| 0 <= t < u < survivors@.len() ==> survivors@[t] < survivors@[u],
            forall|x: usize|
                x < j ==> (survivors@.contains(x) <==> !eliminated(
                    primes@,
                    inv@,
                    n_start as int,
                    pattern@,
                    b@,
                    p@,
                    x as nat,
                )),
        decreases width - j,
    {
        let ghost old_s = survivors@;
        if !word_bit_get(&sieve.factors_eliminated, j) {
            survivors.push(j);
            proof {
                assert forall|x: usize| x < j + 1 implies (survivors@.contains(x)
                    <==> !eliminated(
                    primes@,
                    inv@,
                    n_start as int,
                    pattern@,
                    b@,
                    p@,
                    x as nat,
                )) by {
                    if x == j {
                        assert(survivors@[survivors@.len() - 1] == j);
                        assert(survivors@.contains(x));
                    } else {
                        if survivors@.contains(x) {
                            let t = choose|t: int|
                                0 <= t < survivors@.len() && survivors@[t] == x;
                            if t == survivors@.len() - 1 {
                                assert(false);
                            }
                            assert(old_s[t] == x);
                            assert(old_s.contains(x));
                        }
                        if old_s.contains(x) {
                            let t = choose|t: int| 0 <= t < old_s.len() && old_s[t] == x;
                            assert(survivors@[t] == x);
                            assert(survivors@.contains(x));
                        }
                    }
                }
            }
        } else {
            proof {
                assert forall|x: usize| x < j + 1 implies (survivors@.contains(x)
                    <==> !eliminated(
                    primes@,
                    inv@,
                    n_start as int,
                    pattern@,
                    b@,
                    p@,
                    x as nat,
                )) by {
                    if x == j {
                        if survivors@.contains(x) {
                            let t = choose|t: int|
                                0 <= t < survivors@.len() && survivors@[t] == x;
                            assert(survivors@[t] < j);
                            assert(false);
                        }
                    }
                }
            }
        }
        j = j + 1;
    }
    survivors
}

/// A factor the sieve eliminates carries a witness: a table prime at or
/// past the primorial number divides one of its pattern positions.
pub proof fn lemma_eliminated_has_witness(
    primes: Seq<usize>,
    inv: Seq<usize>,
    n_start: int,
    pattern: Seq<usize>,
    b: nat,
    pval: nat,
    j: nat,
)
    requires
        eliminated(primes, inv, n_start, pattern, b, pval, j),
    ensures
        exists|i: int, l: int|
            n_start <= i < primes.len() && 0 <= l < pattern.len() && #[trigger] hits(
                b,
                pval,
                pattern[l] as nat,
                primes[i] as nat,
                j,
            ),
{
    let (i2, l2) = choose|i2: int, l2: int|
        n_start <= i2 < primes.len() && 0 <= l2 < pattern.len() && inv[i2] != 0 && #[trigger] hits(
            b,
            pval,
            pattern[l2] as nat,
            primes[i2] as nat,
            j,
        );
    assert(hits(b, pval, pattern[l2] as nat, primes[i2] as nat, j));
}

/// A factor the sieve does not eliminate is divisible at no pattern
/// position by any table prime at or past the primorial number, provided
/// each of those primes has an inverse recorded.
pub proof fn lemma_survivor_has_no_witness(
    primes: Seq<usize>,
    inv: Seq<usize>,
    n_start: int,
    pattern: Seq<usize>,
    b: nat,
    pval: nat,
    j: nat,
)
    requires
        !eliminated(primes, inv, n_start, pattern, b, pval, j),
        inv.len() == primes.len(),
        forall|i: int| n_start <= i < inv.len() ==> #[trigger] inv[i] != 0,
    ensures
        forall|i: int, l: int|
            n_start <= i < primes.len() && 0 <= l < pattern.len() ==> !hits(
                b,
                pval,
                pattern[l] as nat,
                primes[i] as nat,
                j,
            ),
{
    assert forall|i: int, l: int|
        n_start <= i < primes.len() && 0 <= l < pattern.len() implies !hits(
        b,
        pval,
        pattern[l] as nat,
        primes[i] as nat,
        j,
    ) by {
        if hits(b, pval, pattern[l] as nat, primes[i] as nat, j) {
            assert(inv[i] != 0);
            assert(eliminated(primes, inv, n_start, pattern, b, pval, j));
            assert(false);
        }
    }
}

/// Which factors survive does not depend on the sieve width: two segment
/// runs over the same tables agree on every factor both of them cover.
pub proof fn lemma_survivors_independent_of_width(
    s1: Seq<usize>,
    s2: Seq<usize>,
    primes: Seq<usize>,
    inv: Seq<usize>,
    n_start: int,
    pattern: Seq<usize>,
    b: nat,
    pval: nat,
    w1: usize,
    w2: usize,
    j: usize,
)
    requires
        w1 <= w2,
        j < w1,
        forall|x: usize|
            x < w1 ==> (s1.contains(x) <==> !eliminated(primes, inv, n_start, pattern, b, pval, x as nat)),
        forall|x: usize|
            x < w2 ==> (s2.contains(x) <==> !eliminated(primes, inv, n_start, pattern, b, pval, x as nat)),
    ensures
        s1.contains(j) <==> s2.contains(j),
{
}

} // verus!
