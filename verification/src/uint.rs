//! Arbitrary-precision unsigned integers, modelled as little-endian byte
//! strings. The search works with numbers far beyond machine range (targets
//! around 2^1024), so the heavy arithmetic is delegated to `num_bigint`
//! through trusted wrappers whose contracts speak about the byte-string
//! value; everything else about `Uint` is verified.

use vstd::prelude::*;
use vstd::arithmetic::power::pow;

verus! {

/// The value of a little-endian byte string, in base 256.
pub open spec fn le_val(s: Seq<u8>) -> nat
    decreases s.len(),
{
    if s.len() == 0 {
        0
    } else {
        (s[0] + 256 * le_val(s.drop_first())) as nat
    }
}

/// An unsigned big integer. The bytes are least-significant first; trailing
/// zero bytes are permitted and do not change the value.
pub struct Uint {
    bytes: Vec<u8>,
}

impl View for Uint {
    type V = nat;

    closed spec fn view(&self) -> nat {
        le_val(self.bytes@)
    }
}

/// Appending a byte adds its value at the next power of 256.
pub proof fn lemma_le_val_push(s: Seq<u8>, b: u8)
    ensures
        le_val(s.push(b)) == le_val(s) + b * pow(256, s.len()),
    decreases s.len(),
{
    vstd::arithmetic::power::lemma_pow_positive(256, s.len());
    if s.len() == 0 {
        assert(s.push(b).drop_first() =~= Seq::<u8>::empty());
        assert(le_val(Seq::<u8>::empty()) == 0);
        assert(s.push(b)[0] == b);
        assert(le_val(s.push(b)) == b);
        vstd::arithmetic::power::lemma_pow0(256);
    } else {
        assert(s.push(b).drop_first() =~= s.drop_first().push(b));
        lemma_le_val_push(s.drop_first(), b);
        assert(le_val(s.push(b)) == s[0] + 256 * (le_val(s.drop_first()) + b * pow(
            256,
            s.drop_first().len(),
        )));
        assert(256 * (le_val(s.drop_first()) + b * pow(256, (s.len() - 1) as nat)) == 256 * le_val(
            s.drop_first(),
        ) + b * (256 * pow(256, (s.len() - 1) as nat))) by (nonlinear_arith);
        assert(pow(256, s.len()) == 256 * pow(256, (s.len() - 1) as nat)) by {
            lemma_pow256_step(s.len());
        }
    }
}

/// A byte string of zeros has value zero.
pub proof fn lemma_le_val_all_zero(s: Seq<u8>)
    requires
        forall|i: int| 0 <= i < s.len() ==> s[i] == 0,
    ensures
        le_val(s) == 0,
    decreases s.len(),
{
    if s.len() > 0 {
        lemma_le_val_all_zero(s.drop_first());
    }
}

/// A little-endian byte string splits at any position `k` into a low part
/// and a high part scaled by 256^k.
pub proof fn lemma_le_val_split(s: Seq<u8>, k: int)
    requires
        0 <= k <= s.len(),
    ensures
        le_val(s) == le_val(s.take(k)) + pow(256, k as nat) * le_val(s.skip(k)),
    decreases k,
{
    if k == 0 {
        assert(s.take(0) =~= Seq::<u8>::empty());
        assert(s.skip(0) =~= s);
        vstd::arithmetic::power::lemma_pow0(256);
    } else {
        lemma_le_val_split(s.drop_first(), k - 1);
        assert(s.take(k).drop_first() =~= s.drop_first().take(k - 1));
        assert(s.skip(k) =~= s.drop_first().skip(k - 1));
        let lo = le_val(s.drop_first().take(k - 1));
        let hi = le_val(s.drop_first().skip(k - 1));
        let pk1 = pow(256, (k - 1) as nat);
        assert(le_val(s.drop_first()) == lo + pk1 * hi);
        assert(le_val(s) == s[0] + 256 * (lo + pk1 * hi));
        assert(le_val(s.take(k)) == s[0] + 256 * lo) by {
            assert(s.take(k).len() == k);
            assert(s.take(k)[0] == s[0]);
        }
        assert(256 * (lo + pk1 * hi) == 256 * lo + (256 * pk1) * hi) by (nonlinear_arith);
        assert(pow(256, k as nat) == 256 * pk1) by {
            lemma_pow256_step(k as nat);
        }
    }
}

/// The value of a byte string is below 256 to the power of its length.
pub proof fn lemma_le_val_bound(s: Seq<u8>)
    ensures
        le_val(s) < pow(256, s.len()),
    decreases s.len(),
{
    vstd::arithmetic::power::lemma_pow_positive(256, s.len());
    if s.len() > 0 {
        lemma_le_val_bound(s.drop_first());
        let t = le_val(s.drop_first());
        let pk1 = pow(256, (s.len() - 1) as nat);
        assert(s[0] + 256 * t <= 255 + 256 * (pk1 - 1)) by (nonlinear_arith)
            requires
                s[0] <= 255 && t <= pk1 - 1,
        ;
        assert(pow(256, s.len()) == 256 * pk1) by {
            lemma_pow256_step(s.len());
        }
    }
}

/// A nonzero byte forces the value at least as high as its weight.
pub proof fn lemma_le_val_lower_bound(s: Seq<u8>, i: int)
    requires
        0 <= i < s.len(),
    ensures
        le_val(s) >= s[i] * pow(256, i as nat),
{
    lemma_le_val_split(s, i);
    let hi = le_val(s.skip(i));
    assert(s.skip(i).len() > 0);
    assert(s.skip(i)[0] == s[i]);
    assert(hi >= s[i]);
    let p = pow(256, i as nat);
    vstd::arithmetic::power::lemma_pow_positive(256, i as nat);
    assert(p * hi >= s[i] * p) by (nonlinear_arith)
        requires
            p >= 1 && hi >= s[i] && s[i] >= 0,
    ;
}

impl Uint {
    /// The zero value.
    pub fn zero() -> (r: Uint)
        ensures
            r@ == 0,
    {
        Uint { bytes: Vec::new() }
    }

    /// Builds the big integer equal to a machine `u128`.
    pub fn from_u128(v: u128) -> (r: Uint)
        ensures
            r@ == v,
    {
        let mut bytes: Vec<u8> = Vec::new();
        let mut rest: u128 = v;
        proof {
            vstd::arithmetic::power::lemma_pow0(256);
        }
        while rest > 0
            invariant
                le_val(bytes@) + rest * pow(256, bytes@.len()) == v,
            decreases rest,
        {
            let ghost old_bytes = bytes@;
            let ghost old_rest = rest;
            let b: u8 = (rest % 256) as u8;
            bytes.push(b);
            rest = rest / 256;
            proof {
                lemma_le_val_push(old_bytes, b);
                let p = pow(256, old_bytes.len());
                lemma_pow256_step(old_bytes.len() + 1);
                assert(old_rest == 256 * (old_rest / 256) + old_rest % 256) by {
                    vstd::arithmetic::div_mod::lemma_fundamental_div_mod(old_rest as int, 256);
                }
                assert((b + 256 * rest) * p == b * p + rest * (256 * p)) by (nonlinear_arith);
            }
        }
        proof {
            vstd::arithmetic::power::lemma_pow_positive(256, bytes@.len());
            assert(rest * pow(256, bytes@.len()) == 0) by (nonlinear_arith)
                requires
                    rest == 0,
            ;
        }
        Uint { bytes }
    }

    /// Builds the big integer with the given little-endian bytes.
    pub fn from_le_bytes(bytes: Vec<u8>) -> (r: Uint)
        ensures
            r@ == le_val(bytes@),
    {
        Uint { bytes }
    }

    /// Builds the big integer equal to a machine `u64`.
    pub fn from_u64(v: u64) -> (r: Uint)
        ensures
            r@ == v,
    {
        Uint::from_u128(v as u128)
    }

    /// Builds the big integer equal to a machine `usize`.
    pub fn from_usize(v: usize) -> (r: Uint)
        ensures
            r@ == v,
    {
        Uint::from_u128(v as u128)
    }

    /// Converts back to a machine `usize` when the value fits.
    pub fn to_usize(&self) -> (r: Option<usize>)
        ensures
            match r {
                Some(x) => x == self@ && self@ <= usize::MAX,
                None => self@ > usize::MAX,
            },
    {
        let n = self.bytes.len();
        let mut acc: u128 = 0;
        let mut p: u128 = 1;
        let mut i: usize = 0;
        proof {
            vstd::arithmetic::power::lemma_pow0(256);
            assert(self.bytes@.take(0) =~= Seq::<u8>::empty());
        }
        let low = if n < 16 {
            n
        } else {
            16
        };
        while i < low
            invariant
                0 <= i <= low,
                low == if n < 16 {
                    n as int
                } else {
                    16
                },
                n == self.bytes@.len(),
                i < 16 ==> p == pow(256, i as nat),
                acc == le_val(self.bytes@.take(i as int)),
            decreases low - i,
        {
            proof {
                lemma_le_val_bound(self.bytes@.take(i as int));
                lemma_le_val_push(self.bytes@.take(i as int), self.bytes@[i as int]);
                assert(self.bytes@.take(i as int).push(self.bytes@[i as int]) =~= self.bytes@.take(
                    i + 1,
                ));
                lemma_pow256_le_16(i as nat + 1);
                lemma_pow256_step(i as nat + 1);
                vstd::arithmetic::power::lemma_pow_positive(256, i as nat);
                assert(acc + self.bytes@[i as int] * pow(256, i as nat) < pow(256, i as nat + 1))
                    by (nonlinear_arith)
                    requires
                        acc < pow(256, i as nat) && self.bytes@[i as int] <= 255 && pow(
                            256,
                            i as nat + 1,
                        ) == 256 * pow(256, i as nat),
                ;
            }
            acc = acc + (self.bytes[i] as u128) * p;
            if i + 1 < 16 {
                proof {
                    lemma_pow256_step(i as nat + 1);
                    vstd::arithmetic::power::lemma_pow_increases(256, i as nat + 1, 15);
                    lemma_pow256_exact();
                }
                p = p * 256;
            }
            i = i + 1;
        }
        if n >= 16 {
            let mut j: usize = 16;
            while j < n
                invariant
                    16 <= j <= n,
                    n == self.bytes@.len(),
                    acc == le_val(self.bytes@.take(16)),
                    forall|t: int| 16 <= t < j ==> self.bytes@[t] == 0,
                decreases n - j,
            {
                if self.bytes[j] != 0 {
                    proof {
                        lemma_le_val_lower_bound(self.bytes@, j as int);
                        lemma_pow256_ge_16(j as nat);
                        vstd::arithmetic::power::lemma_pow_positive(256, j as nat);
                        assert(self.bytes@[j as int] * pow(256, j as nat) >= pow(256, j as nat))
                            by (nonlinear_arith)
                            requires
                                self.bytes@[j as int] >= 1 && pow(256, j as nat) >= 1,
                        ;
                    }
                    return None;
                }
                j = j + 1;
            }
            proof {
                lemma_le_val_split(self.bytes@, 16);
                lemma_le_val_all_zero(self.bytes@.skip(16));
                assert(pow(256, 16) * 0 == 0);
            }
        } else {
            proof {
                assert(self.bytes@.take(n as int) =~= self.bytes@);
            }
        }
        proof {
            assert(self@ == acc);
        }
        if acc <= usize::MAX as u128 {
            Some(acc as usize)
        } else {
            None
        }
    }

    /// An identical copy.
    pub fn duplicate(&self) -> (r: Uint)
        ensures
            r@ == self@,
    {
        let mut bytes: Vec<u8> = Vec::new();
        let mut i: usize = 0;
        while i < self.bytes.len()
            invariant
                0 <= i <= self.bytes@.len(),
                bytes@ =~= self.bytes@.take(i as int),
            decreases self.bytes@.len() - i,
        {
            bytes.push(self.bytes[i]);
            i = i + 1;
        }
        proof {
            assert(bytes@ =~= self.bytes@);
        }
        Uint { bytes }
    }
}

/// 256^k stays within a `u128` while k is at most 16.
proof fn lemma_pow256_le_16(k: nat)
    requires
        k <= 16,
    ensures
        pow(256, k) <= 0x100000000000000000000000000000000,
{
    vstd::arithmetic::power::lemma_pow_increases(256, k, 16);
    lemma_pow256_exact();
}

/// 256^16 is exactly one more than `u128::MAX`.
proof fn lemma_pow256_exact()
    ensures
        pow(256, 15) == 0x1000000000000000000000000000000,
        pow(256, 16) == 0x100000000000000000000000000000000,
{
    reveal_with_fuel(pow, 17);
}

/// 256^k is beyond `u128` range from k = 16 on.
proof fn lemma_pow256_ge_16(k: nat)
    requires
        k >= 16,
    ensures
        pow(256, k) >= 0x100000000000000000000000000000000,
{
    vstd::arithmetic::power::lemma_pow_increases(256, 16, k);
    lemma_pow256_exact();
}

/// One unfolding step of `pow` at base 256.
proof fn lemma_pow256_step(k: nat)
    requires
        k >= 1,
    ensures
        pow(256, k) == 256 * pow(256, (k - 1) as nat),
{
    reveal(pow);
}

/// Relies on `num_bigint::BigUint` addition; `from_bytes_le` and
/// `to_bytes_le` convert between the value and little-endian base-256 digits.
#[verifier::external_body]
pub(crate) fn uint_add(a: &Uint, b: &Uint) -> (r: Uint)
    ensures
        r@ == a@ + b@,
{
    let x = num_bigint::BigUint::from_bytes_le(&a.bytes);
    let y = num_bigint::BigUint::from_bytes_le(&b.bytes);
    Uint { bytes: (x + y).to_bytes_le() }
}

/// Relies on `num_bigint::BigUint` subtraction, which requires the
/// subtrahend not to exceed the minuend.
#[verifier::external_body]
pub(crate) fn uint_sub(a: &Uint, b: &Uint) -> (r: Uint)
    requires
        b@ <= a@,
    ensures
        r@ == a@ - b@,
{
    let x = num_bigint::BigUint::from_bytes_le(&a.bytes);
    let y = num_bigint::BigUint::from_bytes_le(&b.bytes);
    Uint { bytes: (x - y).to_bytes_le() }
}

/// Relies on `num_bigint::BigUint` multiplication.
#[verifier::external_body]
pub(crate) fn uint_mul(a: &Uint, b: &Uint) -> (r: Uint)
    ensures
        r@ == a@ * b@,
{
    let x = num_bigint::BigUint::from_bytes_le(&a.bytes);
    let y = num_bigint::BigUint::from_bytes_le(&b.bytes);
    Uint { bytes: (x * y).to_bytes_le() }
}

/// Relies on `num_bigint::BigUint` Euclidean division, which requires a
/// nonzero divisor.
#[verifier::external_body]
pub(crate) fn uint_div(a: &Uint, b: &Uint) -> (r: Uint)
    requires
        b@ >= 1,
    ensures
        r@ == a@ / b@,
{
    let x = num_bigint::BigUint::from_bytes_le(&a.bytes);
    let y = num_bigint::BigUint::from_bytes_le(&b.bytes);
    Uint { bytes: (x / y).to_bytes_le() }
}

/// Relies on `num_bigint::BigUint` remainder, which requires a nonzero
/// divisor.
#[verifier::external_body]
pub(crate) fn uint_rem(a: &Uint, b: &Uint) -> (r: Uint)
    requires
        b@ >= 1,
    ensures
        r@ == a@ % b@,
{
    let x = num_bigint::BigUint::from_bytes_le(&a.bytes);
    let y = num_bigint::BigUint::from_bytes_le(&b.bytes);
    Uint { bytes: (x % y).to_bytes_le() }
}

/// Relies on `num_bigint::BigUint::modpow`, documented to return
/// `(self ^ exponent) % modulus` and to panic only on a zero modulus.
#[verifier::external_body]
pub(crate) fn uint_modpow(b: &Uint, e: &Uint, m: &Uint) -> (r: Uint)
    requires
        m@ >= 1,
    ensures
        r@ == pow(b@ as int, e@) % (m@ as int),
{
    let base = num_bigint::BigUint::from_bytes_le(&b.bytes);
    let expo = num_bigint::BigUint::from_bytes_le(&e.bytes);
    let modu = num_bigint::BigUint::from_bytes_le(&m.bytes);
    Uint { bytes: base.modpow(&expo, &modu).to_bytes_le() }
}

/// Relies on `num_bigint::BigUint::modinv`, documented to solve
/// `self * x = 1 (mod modulus)` for `x` in `[0, modulus)` exactly when
/// `gcd(self, modulus) == 1`, and to panic only on a zero modulus.
#[verifier::external_body]
pub(crate) fn uint_modinv(a: &Uint, m: &Uint) -> (r: Option<Uint>)
    requires
        m@ >= 2,
    ensures
        match r {
            Some(x) => x@ < m@ && ((a@ * x@) as int) % (m@ as int) == 1,
            None => forall|x: nat| x < m@ ==> #[trigger] (((a@ * x) as int) % (m@ as int)) != 1,
        },
{
    let base = num_bigint::BigUint::from_bytes_le(&a.bytes);
    let modu = num_bigint::BigUint::from_bytes_le(&m.bytes);
    base.modinv(&modu).map(|x| Uint { bytes: x.to_bytes_le() })
}

/// Relies on the `Ord` implementation of `num_bigint::BigUint`, which
/// orders by numeric value.
#[verifier::external_body]
pub(crate) fn uint_lt(a: &Uint, b: &Uint) -> (r: bool)
    ensures
        r == (a@ < b@),
{
    let x = num_bigint::BigUint::from_bytes_le(&a.bytes);
    let y = num_bigint::BigUint::from_bytes_le(&b.bytes);
    x < y
}

} // verus!
