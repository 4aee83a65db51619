//! The table of default primorial offsets: for each constellation pattern
//! in the published list, the residue modulo the primorial that keeps every
//! pattern position coprime to the primorial.

use vstd::prelude::*;

verus! {

/// The tabulated primorial offset of a pattern, where the pattern has one.
pub open spec fn spec_default_offset(p: Seq<usize>) -> Option<u128> {
    if p == seq![0usize] {
        Some(380284918609481u128)
    } else if p == seq![0usize, 2] {
        Some(380284918609481u128)
    } else if p == seq![0usize, 2, 6] {
        Some(380284918609481u128)
    } else if p == seq![0usize, 4, 6] {
        Some(1418575498573u128)
    } else if p == seq![0usize, 2, 6, 8] {
        Some(380284918609481u128)
    } else if p == seq![0usize, 2, 6, 8, 12] {
        Some(380284918609481u128)
    } else if p == seq![0usize, 4, 6, 10, 12] {
        Some(1418575498597u128)
    } else if p == seq![0usize, 4, 6, 10, 12, 16] {
        Some(1091257u128)
    } else if p == seq![0usize, 2, 6, 8, 12, 18, 20] {
        Some(380284918609481u128)
    } else if p == seq![0usize, 2, 8, 12, 14, 18, 20] {
        Some(1418575498589u128)
    } else if p == seq![0usize, 2, 6, 8, 12, 18, 20, 26] {
        Some(380284918609481u128)
    } else if p == seq![0usize, 2, 6, 12, 14, 20, 24, 26] {
        Some(1418575498577u128)
    } else if p == seq![0usize, 6, 8, 14, 18, 20, 24, 26] {
        Some(1418575498583u128)
    } else if p == seq![0usize, 2, 6, 8, 12, 18, 20, 26, 30] {
        Some(380284918609481u128)
    } else if p == seq![0usize, 2, 6, 12, 14, 20, 24, 26, 30] {
        Some(1418575498577u128)
    } else if p == seq![0usize, 4, 6, 10, 16, 18, 24, 28, 30] {
        Some(1418575498573u128)
    } else if p == seq![0usize, 4, 10, 12, 18, 22, 24, 28, 30] {
        Some(1418575498579u128)
    } else if p == seq![0usize, 2, 6, 8, 12, 18, 20, 26, 30, 32] {
        Some(380284918609481u128)
    } else if p == seq![0usize, 2, 6, 12, 14, 20, 24, 26, 30, 32] {
        Some(1418575498577u128)
    } else if p == seq![0usize, 2, 6, 8, 12, 18, 20, 26, 30, 32, 36] {
        Some(380284918609481u128)
    } else if p == seq![0usize, 4, 6, 10, 16, 18, 24, 28, 30, 34, 36] {
        Some(1418575498573u128)
    } else if p == seq![0usize, 2, 6, 8, 12, 18, 20, 26, 30, 32, 36, 42] {
        Some(380284918609481u128)
    } else if p == seq![0usize, 6, 10, 12, 16, 22, 24, 30, 34, 36, 40, 42] {
        Some(1418575498567u128)
    } else {
        None
    }
}

/// Whether two vectors hold the same numbers in the same order.
fn vec_eq_usize(a: &Vec<usize>, b: &Vec<usize>) -> (r: bool)
    ensures
        r == (a@ == b@),
{
    if a.len() != b.len() {
        proof {
            assert(a@ !~= b@);
        }
        return false;
    }
    let mut i: usize = 0;
    while i < a.len()
        invariant
            i <= a@.len(),
            a@.len() == b@.len(),
            forall|t: int| 0 <= t < i ==> a@[t] == b@[t],
        decreases a@.len() - i,
    {
        if a[i] != b[i] {
            proof {
                assert(a@ !~= b@);
            }
            return false;
        }
        i = i + 1;
    }
    proof {
        assert(a@ =~= b@);
    }
    true
}

/// Looks a pattern up in the table of default primorial offsets.
pub fn default_primorial_offset(pattern: &Vec<usize>) -> (r: Option<u128>)
    ensures
        r == spec_default_offset(pattern@),
{
    let t0: Vec<usize> = vec![0usize];
    if vec_eq_usize(pattern, &t0) {
        proof {
            assert(t0@ =~= seq![0usize]);
        }
        return Some(380284918609481u128);
    }
    proof {
        assert(t0@ =~= seq![0usize]);
    }
    let t1: Vec<usize> = vec![0usize, 2usize];
    if vec_eq_usize(pattern, &t1) {
        proof {
            assert(t1@ =~= seq![0usize, 2usize]);
        }
        return Some(380284918609481u128);
    }
    proof {
        assert(t1@ =~= seq![0usize, 2usize]);
    }
    let t2: Vec<usize> = vec![0usize, 2usize, 6usize];
    if vec_eq_usize(pattern, &t2) {
        proof {
            assert(t2@ =~= seq![0usize, 2usize, 6usize]);
        }
        return Some(380284918609481u128);
    }
    proof {
        assert(t2@ =~= seq![0usize, 2usize, 6usize]);
    }
    let t3: Vec<usize> = vec![0usize, 4usize, 6usize];
    if vec_eq_usize(pattern, &t3) {
        proof {
            assert(t3@ =~= seq![0usize, 4usize, 6usize]);
        }
        return Some(1418575498573u128);
    }
    proof {
        assert(t3@ =~= seq![0usize, 4usize, 6usize]);
    }
    let t4: Vec<usize> = vec![0usize, 2usize, 6usize, 8usize];
    if vec_eq_usize(pattern, &t4) {
        proof {
            assert(t4@ =~= seq![0usize, 2usize, 6usize, 8usize]);
        }
        return Some(380284918609481u128);
    }
    proof {
        assert(t4@ =~= seq![0usize, 2usize, 6usize, 8usize]);
    }
    let t5: Vec<usize> = vec![0usize, 2usize, 6usize, 8usize, 12usize];
    if vec_eq_usize(pattern, &t5) {
        proof {
            assert(t5@ =~= seq![0usize, 2usize, 6usize, 8usize, 12usize]);
        }
        return Some(380284918609481u128);
    }
    proof {
        assert(t5@ =~= seq![0usize, 2usize, 6usize, 8usize, 12usize]);
    }
    let t6: Vec<usize> = vec![0usize, 4usize, 6usize, 10usize, 12usize];
    if vec_eq_usize(pattern, &t6) {
        proof {
            assert(t6@ =~= seq![0usize, 4usize, 6usize, 10usize, 12usize]);
        }
        return Some(1418575498597u128);
    }
    proof {
        assert(t6@ =~= seq![0usize, 4usize, 6usize, 10usize, 12usize]);
    }
    let t7: Vec<usize> = vec![0usize, 4usize, 6usize, 10usize, 12usize, 16usize];
    if vec_eq_usize(pattern, &t7) {
        proof {
            assert(t7@ =~= seq![0usize, 4usize, 6usize, 10usize, 12usize, 16usize]);
        }
        return Some(1091257u128);
    }
    proof {
        assert(t7@ =~= seq![0usize, 4usize, 6usize, 10usize, 12usize, 16usize]);
    }
    let t8: Vec<usize> = vec![0usize, 2usize, 6usize, 8usize, 12usize, 18usize, 20usize];
    if vec_eq_usize(pattern, &t8) {
        proof {
            assert(t8@ =~= seq![0usize, 2usize, 6usize, 8usize, 12usize, 18usize, 20usize]);
        }
        return Some(380284918609481u128);
    }
    proof {
        assert(t8@ =~= seq![0usize, 2usize, 6usize, 8usize, 12usize, 18usize, 20usize]);
    }
    let t9: Vec<usize> = vec![0usize, 2usize, 8usize, 12usize, 14usize, 18usize, 20usize];
    if vec_eq_usize(pattern, &t9) {
        proof {
            assert(t9@ =~= seq![0usize, 2usize, 8usize, 12usize, 14usize, 18usize, 20usize]);
        }
        return Some(1418575498589u128);
    }
    proof {
        assert(t9@ =~= seq![0usize, 2usize, 8usize, 12usize, 14usize, 18usize, 20usize]);
    }
    let t10: Vec<usize> = vec![0usize, 2usize, 6usize, 8usize, 12usize, 18usize, 20usize, 26usize];
    if vec_eq_usize(pattern, &t10) {
        proof {
            assert(t10@ =~= seq![0usize, 2usize, 6usize, 8usize, 12usize, 18usize, 20usize, 26usize]);
        }
        return Some(380284918609481u128);
    }
    proof {
        assert(t10@ =~= seq![0usize, 2usize, 6usize, 8usize, 12usize, 18usize, 20usize, 26usize]);
    }
    let t11: Vec<usize> = vec![0usize, 2usize, 6usize, 12usize, 14usize, 20usize, 24usize, 26usize];
    if vec_eq_usize(pattern, &t11) {
        proof {
            assert(t11@ =~= seq![0usize, 2usize, 6usize, 12usize, 14usize, 20usize, 24usize, 26usize]);
        }
        return Some(1418575498577u128);
    }
    proof {
        assert(t11@ =~= seq![0usize, 2usize, 6usize, 12usize, 14usize, 20usize, 24usize, 26usize]);
    }
    let t12: Vec<usize> = vec![0usize, 6usize, 8usize, 14usize, 18usize, 20usize, 24usize, 26usize];
    if vec_eq_usize(pattern, &t12) {
        proof {
            assert(t12@ =~= seq![0usize, 6usize, 8usize, 14usize, 18usize, 20usize, 24usize, 26usize]);
        }
        return Some(1418575498583u128);
    }
    proof {
        assert(t12@ =~= seq![0usize, 6usize, 8usize, 14usize, 18usize, 20usize, 24usize, 26usize]);
    }
    let t13: Vec<usize> = vec![0usize, 2usize, 6usize, 8usize, 12usize, 18usize, 20usize, 26usize, 30usize];
    if vec_eq_usize(pattern, &t13) {
        proof {
            assert(t13@ =~= seq![0usize, 2usize, 6usize, 8usize, 12usize, 18usize, 20usize, 26usize, 30usize]);
        }
        return Some(380284918609481u128);
    }
    proof {
        assert(t13@ =~= seq![0usize, 2usize, 6usize, 8usize, 12usize, 18usize, 20usize, 26usize, 30usize]);
    }
    let t14: Vec<usize> = vec![0usize, 2usize, 6usize, 12usize, 14usize, 20usize, 24usize, 26usize, 30usize];
    if vec_eq_usize(pattern, &t14) {
        proof {
            assert(t14@ =~= seq![0usize, 2usize, 6usize, 12usize, 14usize, 20usize, 24usize, 26usize, 30usize]);
        }
        return Some(1418575498577u128);
    }
    proof {
        assert(t14@ =~= seq![0usize, 2usize, 6usize, 12usize, 14usize, 20usize, 24usize, 26usize, 30usize]);
    }
    let t15: Vec<usize> = vec![0usize, 4usize, 6usize, 10usize, 16usize, 18usize, 24usize, 28usize, 30usize];
    if vec_eq_usize(pattern, &t15) {
        proof {
            assert(t15@ =~= seq![0usize, 4usize, 6usize, 10usize, 16usize, 18usize, 24usize, 28usize, 30usize]);
        }
        return Some(1418575498573u128);
    }
    proof {
        assert(t15@ =~= seq![0usize, 4usize, 6usize, 10usize, 16usize, 18usize, 24usize, 28usize, 30usize]);
    }
    let t16: Vec<usize> = vec![0usize, 4usize, 10usize, 12usize, 18usize, 22usize, 24usize, 28usize, 30usize];
    if vec_eq_usize(pattern, &t16) {
        proof {
            assert(t16@ =~= seq![0usize, 4usize, 10usize, 12usize, 18usize, 22usize, 24usize, 28usize, 30usize]);
        }
        return Some(1418575498579u128);
    }
    proof {
        assert(t16@ =~= seq![0usize, 4usize, 10usize, 12usize, 18usize, 22usize, 24usize, 28usize, 30usize]);
    }
    let t17: Vec<usize> = vec![0usize, 2usize, 6usize, 8usize, 12usize, 18usize, 20usize, 26usize, 30usize, 32usize];
    if vec_eq_usize(pattern, &t17) {
        proof {
            assert(t17@ =~= seq![0usize, 2usize, 6usize, 8usize, 12usize, 18usize, 20usize, 26usize, 30usize, 32usize]);
        }
        return Some(380284918609481u128);
    }
    proof {
        assert(t17@ =~= seq![0usize, 2usize, 6usize, 8usize, 12usize, 18usize, 20usize, 26usize, 30usize, 32usize]);
    }
    let t18: Vec<usize> = vec![0usize, 2usize, 6usize, 12usize, 14usize, 20usize, 24usize, 26usize, 30usize, 32usize];
    if vec_eq_usize(pattern, &t18) {
        proof {
            assert(t18@ =~= seq![0usize, 2usize, 6usize, 12usize, 14usize, 20usize, 24usize, 26usize, 30usize, 32usize]);
        }
        return Some(1418575498577u128);
    }
    proof {
        assert(t18@ =~= seq![0usize, 2usize, 6usize, 12usize, 14usize, 20usize, 24usize, 26usize, 30usize, 32usize]);
    }
    let t19: Vec<usize> = vec![0usize, 2usize, 6usize, 8usize, 12usize, 18usize, 20usize, 26usize, 30usize, 32usize, 36usize];
    if vec_eq_usize(pattern, &t19) {
        proof {
            assert(t19@ =~= seq![0usize, 2usize, 6usize, 8usize, 12usize, 18usize, 20usize, 26usize, 30usize, 32usize, 36usize]);
        }
        return Some(380284918609481u128);
    }
    proof {
        assert(t19@ =~= seq![0usize, 2usize, 6usize, 8usize, 12usize, 18usize, 20usize, 26usize, 30usize, 32usize, 36usize]);
    }
    let t20: Vec<usize> = vec![0usize, 4usize, 6usize, 10usize, 16usize, 18usize, 24usize, 28usize, 30usize, 34usize, 36usize];
    if vec_eq_usize(pattern, &t20) {
        proof {
            assert(t20@ =~= seq![0usize, 4usize, 6usize, 10usize, 16usize, 18usize, 24usize, 28usize, 30usize, 34usize, 36usize]);
        }
        return Some(1418575498573u128);
    }
    proof {
        assert(t20@ =~= seq![0usize, 4usize, 6usize, 10usize, 16usize, 18usize, 24usize, 28usize, 30usize, 34usize, 36usize]);
    }
    let t21: Vec<usize> = vec![0usize, 2usize, 6usize, 8usize, 12usize, 18usize, 20usize, 26usize, 30usize, 32usize, 36usize, 42usize];
    if vec_eq_usize(pattern, &t21) {
        proof {
            assert(t21@ =~= seq![0usize, 2usize, 6usize, 8usize, 12usize, 18usize, 20usize, 26usize, 30usize, 32usize, 36usize, 42usize]);
        }
        return Some(380284918609481u128);
    }
    proof {
        assert(t21@ =~= seq![0usize, 2usize, 6usize, 8usize, 12usize, 18usize, 20usize, 26usize, 30usize, 32usize, 36usize, 42usize]);
    }
    let t22: Vec<usize> = vec![0usize, 6usize, 10usize, 12usize, 16usize, 22usize, 24usize, 30usize, 34usize, 36usize, 40usize, 42usize];
    if vec_eq_usize(pattern, &t22) {
        proof {
            assert(t22@ =~= seq![0usize, 6usize, 10usize, 12usize, 16usize, 22usize, 24usize, 30usize, 34usize, 36usize, 40usize, 42usize]);
        }
        return Some(1418575498567u128);
    }
    proof {
        assert(t22@ =~= seq![0usize, 6usize, 10usize, 12usize, 16usize, 22usize, 24usize, 30usize, 34usize, 36usize, 40usize, 42usize]);
    }
    None
}

} // verus!
