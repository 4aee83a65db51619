//! The candidate check. A candidate `n` is walked along the pattern
//! offsets; each position is Fermat-tested, required positions abort the
//! walk on failure, and optional positions only abort once too few
//! positions remain to reach the minimum tuple length. `chain_result` is
//! the walk's meaning, and `check_candidate` is proved to compute it.

use vstd::prelude::*;
use crate::primes::{fermat_prp, is_prime_fermat};
use crate::uint::{Uint, uint_add};

verus! {

/// The offsets found from position `l` on, with `k` primes already found.
pub open spec fn chain_from(
    n: nat,
    pattern: Seq<usize>,
    pattern_min: Seq<bool>,
    k_min: int,
    l: int,
    k: int,
) -> Seq<usize>
    decreases pattern.len() - l,
{
    if l < 0 || l >= pattern.len() {
        Seq::empty()
    } else if fermat_prp((n + pattern[l]) as nat) {
        seq![pattern[l]] + chain_from(n, pattern, pattern_min, k_min, l + 1, k + 1)
    } else if pattern_min[l] {
        Seq::empty()
    } else if k + (pattern.len() - l - 1) >= k_min {
        chain_from(n, pattern, pattern_min, k_min, l + 1, k)
    } else {
        Seq::empty()
    }
}

/// The offsets at which the candidate `n` passes the Fermat test, walked
/// from the first position with nothing found yet.
pub open spec fn chain_result(
    n: nat,
    pattern: Seq<usize>,
    pattern_min: Seq<bool>,
    k_min: int,
) -> Seq<usize> {
    chain_from(n, pattern, pattern_min, k_min, 0, 0)
}

/// Every offset the walk reports passed the Fermat test and comes from the
/// pattern.
pub proof fn lemma_chain_all_prp(
    n: nat,
    pattern: Seq<usize>,
    pattern_min: Seq<bool>,
    k_min: int,
    l: int,
    k: int,
    t: int,
)
    requires
        0 <= t < chain_from(n, pattern, pattern_min, k_min, l, k).len(),
    ensures
        fermat_prp((n + chain_from(n, pattern, pattern_min, k_min, l, k)[t]) as nat),
        pattern.contains(chain_from(n, pattern, pattern_min, k_min, l, k)[t]),
    decreases pattern.len() - l,
{
    let c = chain_from(n, pattern, pattern_min, k_min, l, k);
    if l < 0 || l >= pattern.len() {
    } else if fermat_prp((n + pattern[l]) as nat) {
        let rest = chain_from(n, pattern, pattern_min, k_min, l + 1, k + 1);
        if t == 0 {
            assert(c[0] == pattern[l]);
        } else {
            assert(c[t] == rest[t - 1]);
            lemma_chain_all_prp(n, pattern, pattern_min, k_min, l + 1, k + 1, t - 1);
        }
    } else if pattern_min[l] {
    } else if k + (pattern.len() - l - 1) >= k_min {
        lemma_chain_all_prp(n, pattern, pattern_min, k_min, l + 1, k, t);
    } else {
    }
}

/// With every position required, the walk reports exactly the longest
/// prefix of the pattern that passes the Fermat test.
pub proof fn lemma_all_required_is_prefix(
    n: nat,
    pattern: Seq<usize>,
    pattern_min: Seq<bool>,
    k_min: int,
    l: int,
    k: int,
)
    requires
        0 <= l <= pattern.len(),
        pattern_min.len() == pattern.len(),
        forall|t: int| 0 <= t < pattern_min.len() ==> #[trigger] pattern_min[t],
    ensures
        ({
            let c = chain_from(n, pattern, pattern_min, k_min, l, k);
            &&& c.len() + l <= pattern.len()
            &&& forall|t: int| 0 <= t < c.len() ==> c[t] == pattern[l + t]
            &&& (c.len() + l == pattern.len() || !fermat_prp((n + pattern[l + c.len()]) as nat))
        }),
    decreases pattern.len() - l,
{
    let c = chain_from(n, pattern, pattern_min, k_min, l, k);
    if l < pattern.len() && fermat_prp((n + pattern[l]) as nat) {
        lemma_all_required_is_prefix(n, pattern, pattern_min, k_min, l + 1, k + 1);
        let rest = chain_from(n, pattern, pattern_min, k_min, l + 1, k + 1);
        assert forall|t: int| 0 <= t < c.len() implies c[t] == pattern[l + t] by {
            if t == 0 {
            } else {
                assert(c[t] == rest[t - 1]);
            }
        }
    }
}

/// With no position required and no minimum length, the walk reports every
/// offset that passes the Fermat test.
pub proof fn lemma_none_required_keeps_all(
    n: nat,
    pattern: Seq<usize>,
    pattern_min: Seq<bool>,
    k_min: int,
    l: int,
    k: int,
)
    requires
        0 <= l <= pattern.len(),
        pattern_min.len() == pattern.len(),
        forall|t: int| 0 <= t < pattern_min.len() ==> !(#[trigger] pattern_min[t]),
        k_min <= k,
    ensures
        forall|t: int|
            l <= t < pattern.len() && fermat_prp((n + pattern[t]) as nat) ==> chain_from(
                n,
                pattern,
                pattern_min,
                k_min,
                l,
                k,
            ).contains(#[trigger] pattern[t]),
    decreases pattern.len() - l,
{
    let c = chain_from(n, pattern, pattern_min, k_min, l, k);
    if l < pattern.len() {
        if fermat_prp((n + pattern[l]) as nat) {
            lemma_none_required_keeps_all(n, pattern, pattern_min, k_min, l + 1, k + 1);
            let rest = chain_from(n, pattern, pattern_min, k_min, l + 1, k + 1);
            assert forall|t: int|
                l <= t < pattern.len() && fermat_prp((n + pattern[t]) as nat) implies c.contains(
                #[trigger] pattern[t],
            ) by {
                if t == l {
                    assert(c[0] == pattern[l]);
                } else {
                    assert(rest.contains(pattern[t]));
                    let u = choose|u: int| 0 <= u < rest.len() && rest[u] == pattern[t];
                    assert(c[u + 1] == pattern[t]);
                }
            }
        } else {
            lemma_none_required_keeps_all(n, pattern, pattern_min, k_min, l + 1, k);
        }
    }
}

/// For the single-offset pattern `(0)` with one prime required, a
/// candidate is reported exactly when it passes the Fermat test.
pub proof fn lemma_single_zero_pattern(n: nat, pattern: Seq<usize>, pattern_min: Seq<bool>)
    requires
        pattern == seq![0usize],
        pattern_min.len() == 1,
    ensures
        chain_result(n, pattern, pattern_min, 1).len() >= 1 <==> fermat_prp(n),
{
    assert(pattern[0] == 0usize);
    assert((n + pattern[0]) as nat == n);
    if fermat_prp(n) {
        assert(chain_result(n, pattern, pattern_min, 1) == seq![0usize] + chain_from(
            n,
            pattern,
            pattern_min,
            1,
            1,
            1,
        ));
    } else {
        if pattern_min[0] {
            assert(chain_result(n, pattern, pattern_min, 1).len() == 0);
        } else {
            assert(0 + (pattern.len() - 0 - 1) < 1);
            assert(chain_result(n, pattern, pattern_min, 1).len() == 0);
        }
    }
}

/// Walks the pattern positions of the candidate `n` and returns the
/// offsets that passed the Fermat test, stopping early as the pattern's
/// required positions and the minimum tuple length dictate.
pub fn check_candidate(
    n: &Uint,
    pattern: &Vec<usize>,
    pattern_min: &Vec<bool>,
    k_min: usize,
) -> (found: Vec<usize>)
    requires
        pattern@.len() == pattern_min@.len(),
        n@ >= 1,
    ensures
        found@ == chain_result(n@, pattern@, pattern_min@, k_min as int),
{
    let ghost goal = chain_result(n@, pattern@, pattern_min@, k_min as int);
    let mut found: Vec<usize> = Vec::new();
    let mut l: usize = 0;
    while l < pattern.len()
        invariant_except_break
            l <= pattern@.len(),
            found@.len() <= l,
            pattern@.len() == pattern_min@.len(),
            n@ >= 1,
            goal == chain_result(n@, pattern@, pattern_min@, k_min as int),
            goal == found@ + chain_from(
                n@,
                pattern@,
                pattern_min@,
                k_min as int,
                l as int,
                found@.len() as int,
            ),
        ensures
            goal == found@,
        decreases pattern@.len() - l,
    {
        let ghost old_found = found@;
        let ghost rest = chain_from(
            n@,
            pattern@,
            pattern_min@,
            k_min as int,
            l as int,
            found@.len() as int,
        );
        let o = pattern[l];
        let cand = uint_add(n, &Uint::from_usize(o));
        if is_prime_fermat(&cand) {
            found.push(o);
            proof {
                let next = chain_from(
                    n@,
                    pattern@,
                    pattern_min@,
                    k_min as int,
                    l as int + 1,
                    old_found.len() as int + 1,
                );
                assert(rest == seq![o] + next);
                assert(old_found + (seq![o] + next) =~= (old_found.push(o)) + next);
            }
        } else if pattern_min[l] {
            proof {
                assert(rest =~= Seq::<usize>::empty());
                assert(old_found + rest =~= old_found);
            }
            break ;
        } else {
            if found.len() + (pattern.len() - l - 1) >= k_min {
                proof {
                    assert(rest == chain_from(
                        n@,
                        pattern@,
                        pattern_min@,
                        k_min as int,
                        l as int + 1,
                        found@.len() as int,
                    ));
                }
            } else {
                proof {
                    assert(rest =~= Seq::<usize>::empty());
                    assert(old_found + rest =~= old_found);
                }
                break ;
            }
        }
        l = l + 1;
    }
    found
}

} // verus!
