//! Bit-packed boolean tables. Both sieves in this crate mark numbers in a
//! `Vec<u64>` treated as one long bit string; this module gives the bit
//! operations their meaning.

use vstd::prelude::*;

verus! {

/// Whether bit `j` is set in the table, reading each word least significant
/// bit first.
pub open spec fn bit_get(words: Seq<u64>, j: int) -> bool {
    (words[j / 64] >> ((j % 64) as u64)) & 1 == 1
}

/// Setting one bit of a word leaves every other bit of that word alone.
proof fn lemma_word_or_bit(w: u64, s: u64, k: u64)
    requires
        s < 64,
        k < 64,
    ensures
        ((w | (1u64 << s)) >> k) & 1 == if k == s {
            1u64
        } else {
            (w >> k) & 1
        },
{
    assert(((w | (1u64 << s)) >> k) & 1 == if k == s {
        1u64
    } else {
        (w >> k) & 1
    }) by (bit_vector)
        requires
            s < 64 && k < 64,
    ;
}

/// A fresh table of `n` words, all bits clear.
pub fn zero_words(n: usize) -> (r: Vec<u64>)
    ensures
        r@.len() == n,
        forall|i: int| 0 <= i < n ==> r@[i] == 0,
{
    let mut r: Vec<u64> = Vec::new();
    let mut i: usize = 0;
    while i < n
        invariant
            0 <= i <= n,
            r@.len() == i,
            forall|t: int| 0 <= t < i ==> r@[t] == 0,
        decreases n - i,
    {
        r.push(0);
        i = i + 1;
    }
    r
}

/// Reads bit `j` of the table.
pub fn word_bit_get(words: &Vec<u64>, j: usize) -> (r: bool)
    requires
        j < words@.len() * 64,
    ensures
        r == bit_get(words@, j as int),
{
    proof {
        lemma_bit_index_bounds(words@.len() as int, j as int);
    }
    (words[j / 64] >> ((j % 64) as u64)) & 1 == 1
}

/// Sets bit `j` of the table and changes nothing else.
pub fn word_bit_set(words: &mut Vec<u64>, j: usize)
    requires
        j < old(words)@.len() * 64,
    ensures
        final(words)@.len() == old(words)@.len(),
        forall|k: int|
            0 <= k < old(words)@.len() * 64 ==> #[trigger] bit_get(final(words)@, k) == (bit_get(
                old(words)@,
                k,
            ) || k == j),
{
    proof {
        lemma_bit_index_bounds(words@.len() as int, j as int);
    }
    let w = words[j / 64];
    let nw = w | (1u64 << ((j % 64) as u64));
    let ghost before = words@;
    words.set(j / 64, nw);
    proof {
        assert forall|k: int| 0 <= k < before.len() * 64 implies bit_get(words@, k) == (bit_get(
            before,
            k,
        ) || k == j) by {
            lemma_bit_index_bounds(before.len() as int, k);
            if k / 64 == j / 64 {
                lemma_word_or_bit(before[k / 64], (j % 64) as u64, (k % 64) as u64);
                if k % 64 == j % 64 {
                    vstd::arithmetic::div_mod::lemma_fundamental_div_mod(k, 64);
                    vstd::arithmetic::div_mod::lemma_fundamental_div_mod(j as int, 64);
                    assert(k == j);
                } else {
                    assert(k != j);
                }
            } else {
                assert(k != j);
                assert(words@[k / 64] == before[k / 64]);
            }
        }
    }
}

/// A bit index below the table's size has its word index and bit offset in
/// range.
proof fn lemma_bit_index_bounds(len: int, j: int)
    requires
        0 <= j < len * 64,
    ensures
        0 <= j / 64 < len,
        0 <= j % 64 < 64,
{
    assert(0 <= j / 64 && 0 <= j % 64 < 64);
    assert(j / 64 < len) by (nonlinear_arith)
        requires
            0 <= j < len * 64,
    ;
}

} // verus!
