//! A compact 64-bit encoding of dyadic rationals in the half-open range
//! (0, 1], together with checked multiplication and a diagnostic rendering.
//!
//! Every `u64` word is a valid value. Let `exponent(w)` be the 1-based
//! position of the most significant set bit (0 for the all-zero word), and
//! let `numerator(w)` be the odd integer built from the bits strictly below
//! that leading bit. The word `w` then stands for the rational
//! `numerator(w) / 2^exponent(w)`. The all-zero word decodes, by convention,
//! to numerator 1 and exponent 0, that is, to the value one.

use vstd::prelude::*;

pub mod render;

use vstd::arithmetic::power2::{
    pow2, lemma_pow2_unfold, lemma_pow2_adds, lemma_pow2_strictly_increases, lemma_pow2_pos,
    lemma2_to64, lemma2_to64_rest,
};
use vstd::arithmetic::div_mod::{
    lemma_fundamental_div_mod, lemma_small_mod, lemma_mod_multiples_vanish,
    lemma_mod_multiples_basic, lemma_mod_division_less_than_divisor,
};
use vstd::arithmetic::mul::lemma_mul_upper_bound;
use vstd::bits::{
    lemma_u64_shl_is_mul, lemma_u64_pow2_no_overflow, lemma_u64_low_bits_mask_is_mod,
    low_bits_mask,
};
use vstd::std_specs::bits::{u64_leading_zeros, axiom_u64_leading_zeros};

verus! {

/// A dyadic rational in (0, 1]: an odd numerator divided by a power of two,
/// both packed into a single raw 64-bit word.
#[derive(Clone, Copy, PartialEq, Eq, Structural)]
pub struct Dyadra(pub u64);

/// The encoded denominator exponent of a raw word: the 1-based position of
/// its most significant set bit, or 0 when the word is all zero.
pub open spec fn exponent(w: u64) -> nat {
    (64 - u64_leading_zeros(w)) as nat
}

/// The encoded numerator of a raw word: the bits strictly below the leading
/// one, doubled, plus one. The all-zero word decodes to numerator 1.
pub open spec fn numerator(w: u64) -> nat {
    if w == 0 {
        1
    } else {
        2 * (w as nat % pow2((exponent(w) - 1) as nat)) + 1
    }
}

/// The exponent is a bit position in [0, 64], it is 0 exactly on the zero
/// word, and on a nonzero word it brackets the word between two adjacent
/// powers of two.
pub proof fn lemma_exponent_bounds(w: u64)
    ensures
        exponent(w) <= 64,
        w == 0 <==> exponent(w) == 0,
        w != 0 ==> pow2((exponent(w) - 1) as nat) <= w < pow2(exponent(w)),
    decreases w,
{
    axiom_u64_leading_zeros(w);
    reveal(u64_leading_zeros);
    if w != 0 {
        axiom_u64_leading_zeros((w / 2) as u64);
        lemma_exponent_bounds((w / 2) as u64);
        let e = exponent(w);
        assert(exponent(w) == exponent((w / 2) as u64) + 1);
        lemma_fundamental_div_mod(w as int, 2);
        if w == 1 {
            assert(pow2(0) == 1 && pow2(1) == 2) by {
                lemma2_to64();
            }
        } else {
            let ep = exponent((w / 2) as u64);
            lemma_pow2_unfold(e);
            lemma_pow2_unfold((e - 1) as nat);
            assert(pow2((ep - 1) as nat) <= w / 2 < pow2(ep));
            assert(pow2((e - 1) as nat) == 2 * pow2((ep - 1) as nat));
            assert(pow2(e) == 2 * pow2(ep));
        }
    }
}

/// A nonzero word bracketed between `pow2(e - 1)` and `pow2(e)` has
/// exponent exactly `e`: the leading-bit position is unique.
pub proof fn lemma_exponent_unique(w: u64, e: nat)
    requires
        1 <= e <= 64,
        pow2((e - 1) as nat) <= w < pow2(e),
    ensures
        exponent(w) == e,
{
    lemma_pow2_pos((e - 1) as nat);
    lemma_exponent_bounds(w);
    let e1 = exponent(w);
    if e1 < e {
        if e1 < e - 1 {
            lemma_pow2_strictly_increases(e1, (e - 1) as nat);
        }
        assert(w < pow2(e1) && pow2(e1) <= pow2((e - 1) as nat));
        assert(false);
    }
    if e1 > e {
        lemma_pow2_strictly_increases(e, e1);
        assert(pow2(e) <= pow2((e1 - 1) as nat) || e == e1 - 1) by {
            if e < e1 - 1 {
                lemma_pow2_strictly_increases(e, (e1 - 1) as nat);
            }
        }
        assert(pow2((e1 - 1) as nat) <= w);
        assert(false);
    }
}

/// The decoded numerator of any raw word is odd.
pub proof fn lemma_numerator_odd(w: u64)
    ensures
        numerator(w) % 2 == 1,
{
    if w != 0 {
        let x = w as nat % pow2((exponent(w) - 1) as nat);
        let n = numerator(w);
        assert(n == 2 * x + 1);
        assert(n % 2 == 1) by (nonlinear_arith)
            requires
                n == 2 * x + 1,
        ;
    }
}

/// The numerator stays below `pow2(exponent)` on a nonzero word, and is
/// exactly 1 (equal to `pow2(0)`) on the zero word; so the decoded value
/// always lies in (0, 1].
pub proof fn lemma_numerator_bound(w: u64)
    ensures
        numerator(w) <= pow2(exponent(w)),
        w != 0 ==> numerator(w) < pow2(exponent(w)),
        w == 0 ==> numerator(w) == 1 && exponent(w) == 0,
{
    lemma_exponent_bounds(w);
    if w == 0 {
        assert(pow2(0) == 1) by {
            lemma2_to64();
        }
    } else {
        let e = exponent(w);
        let p = pow2((e - 1) as nat);
        lemma_pow2_pos((e - 1) as nat);
        lemma_mod_division_less_than_divisor(w as int, p as int);
        lemma_pow2_unfold(e);
        assert(pow2(e) == 2 * p);
    }
}

/// Unless both words are zero, the product of the two decoded numerators
/// stays strictly below `pow2` of the summed exponents. This is the bound
/// that keeps the reconstructed mantissa of a product from colliding with
/// its newly placed leading-one bit.
pub proof fn lemma_numerator_product_bound(w1: u64, w2: u64)
    requires
        exponent(w1) + exponent(w2) >= 1,
    ensures
        numerator(w1) * numerator(w2) < pow2((exponent(w1) + exponent(w2)) as nat),
{
    let e1 = exponent(w1);
    let e2 = exponent(w2);
    let m1 = numerator(w1);
    let m2 = numerator(w2);
    lemma_numerator_bound(w1);
    lemma_numerator_bound(w2);
    lemma_exponent_bounds(w1);
    lemma_exponent_bounds(w2);
    lemma_pow2_adds(e1, e2);
    lemma_pow2_pos(e1);
    lemma_pow2_pos(e2);
    if w1 == 0 {
        assert(pow2(0) == 1) by {
            lemma2_to64();
        }
        assert(m1 * m2 == m2);
        assert(pow2((e1 + e2) as nat) == pow2(e2));
    } else if w2 == 0 {
        assert(pow2(0) == 1) by {
            lemma2_to64();
        }
        assert(m1 * m2 == m1);
        assert(pow2((e1 + e2) as nat) == pow2(e1));
    } else {
        lemma_mul_upper_bound(m1 as int, pow2(e1) - 1, m2 as int, pow2(e2) - 1);
        assert((pow2(e1) - 1) * (pow2(e2) - 1) < pow2(e1) * pow2(e2)) by (nonlinear_arith)
            requires
                pow2(e1) >= 1,
                pow2(e2) >= 1,
        ;
    }
}

/// The product of two odd integers is odd.
proof fn lemma_odd_product(m1: int, m2: int)
    requires
        m1 % 2 == 1,
        m2 % 2 == 1,
    ensures
        (m1 * m2) % 2 == 1,
{
    let a = m1 / 2;
    let b = m2 / 2;
    lemma_fundamental_div_mod(m1, 2);
    lemma_fundamental_div_mod(m2, 2);
    assert(m1 * m2 == 2 * (2 * a * b + a + b) + 1) by (nonlinear_arith)
        requires
            m1 == 2 * a + 1,
            m2 == 2 * b + 1,
    ;
    lemma_mod_multiples_vanish(2 * a * b + a + b, 1, 2);
}

/// Decoding the all-zero raw word yields numerator 1 over exponent 0:
/// by convention, the value one.
pub proof fn lemma_zero_word_decodes_to_one()
    ensures
        exponent(0u64) == 0,
        numerator(0u64) == 1,
{
    lemma_exponent_bounds(0u64);
}

/// A raw word with a single set bit at 0-based position `k` decodes to
/// numerator 1 over exponent `k + 1`: the value `2^-(k+1)`.
pub proof fn lemma_single_bit_decodes(k: u64)
    requires
        k < 64,
    ensures
        exponent(1u64 << k) == k + 1,
        numerator(1u64 << k) == 1,
{
    lemma_u64_pow2_no_overflow(k as nat);
    lemma_u64_shl_is_mul(1u64, k);
    let w = 1u64 << k;
    lemma_pow2_unfold((k + 1) as nat);
    lemma_pow2_pos(k as nat);
    lemma_exponent_unique(w, (k + 1) as nat);
    lemma_mod_multiples_basic(1, pow2(k as nat) as int);
    assert(w as nat % pow2(k as nat) == 0);
}

/// The encoding is unique: two raw words that decode to the same exponent
/// and the same numerator are the same word.
pub proof fn lemma_encoding_injective(w1: u64, w2: u64)
    requires
        exponent(w1) == exponent(w2),
        numerator(w1) == numerator(w2),
    ensures
        w1 == w2,
{
    lemma_exponent_bounds(w1);
    lemma_exponent_bounds(w2);
    if w1 != 0 && w2 != 0 {
        let e = exponent(w1);
        let p = pow2((e - 1) as nat);
        lemma_pow2_pos((e - 1) as nat);
        lemma_pow2_unfold(e);
        lemma_offset_from_leading_bit(w1);
        lemma_offset_from_leading_bit(w2);
    }
}

/// On a nonzero word, the bits strictly below the leading one are the
/// word minus the leading bit itself: `w % pow2(e - 1) == w - pow2(e - 1)`.
proof fn lemma_offset_from_leading_bit(w: u64)
    requires
        w != 0,
    ensures
        w as nat % pow2((exponent(w) - 1) as nat) == w - pow2((exponent(w) - 1) as nat),
{
    lemma_exponent_bounds(w);
    let e = exponent(w);
    let p = pow2((e - 1) as nat);
    lemma_pow2_pos((e - 1) as nat);
    lemma_pow2_unfold(e);
    lemma_mod_multiples_vanish(1, w - p, p as int);
    lemma_small_mod((w - p) as nat, p);
}

impl Dyadra {
    /// The largest representable value: the all-zero word, which decodes
    /// to the value one.
    pub fn max() -> (r: Self)
        ensures
            r.0 == 0,
            exponent(r.0) == 0,
            numerator(r.0) == 1,
    {
        proof {
            lemma_zero_word_decodes_to_one();
        }
        Dyadra(0)
    }

    /// The smallest representable positive value: only the top bit set,
    /// which decodes to numerator 1 over exponent 64, that is, `2^-64`.
    pub fn min() -> (r: Self)
        ensures
            r.0 == 0x8000000000000000,
            exponent(r.0) == 64,
            numerator(r.0) == 1,
    {
        proof {
            lemma_single_bit_decodes(63);
            assert(1u64 << 63u64 == 0x8000000000000000) by (bit_vector);
        }
        Dyadra(0x8000000000000000)
    }

    /// The 1-based position of the most significant set bit of the raw
    /// word, or 0 for the zero word; this is the denominator exponent.
    pub fn leading_one(self) -> (r: u64)
        ensures
            r == exponent(self.0),
            r <= 64,
    {
        proof {
            axiom_u64_leading_zeros(self.0);
        }
        let lz: u32 = self.0.leading_zeros();
        64 - lz as u64
    }

    /// The decoded odd numerator: the bits of the raw word strictly below
    /// the leading one, shifted up by one, with the low bit set.
    pub fn mantissa(self) -> (r: u64)
        ensures
            r == numerator(self.0),
            r % 2 == 1,
    {
        let i = self.leading_one();
        proof {
            lemma_exponent_bounds(self.0);
        }
        if i == 0 {
            1
        } else {
            let shift = i - 1;
            proof {
                lemma_u64_pow2_no_overflow(shift as nat);
                lemma_u64_shl_is_mul(1u64, shift);
                lemma_u64_low_bits_mask_is_mod(self.0, shift as nat);
                if shift < 63 {
                    lemma_pow2_strictly_increases(shift as nat, 63);
                }
                assert(pow2(63) == 0x8000000000000000) by {
                    lemma2_to64_rest();
                }
            }
            let mask = (1u64 << shift) - 1;
            assert(mask == low_bits_mask(shift as nat));
            let bits = self.0 & mask;
            assert(bits < pow2(shift as nat));
            2 * bits + 1
        }
    }

    /// Multiplies two encoded rationals `m1/2^e1` and `m2/2^e2` into
    /// `(m1*m2)/2^(e1+e2)`, re-normalized into the encoding, or returns
    /// `None` exactly when the combined denominator exponent `e1 + e2`
    /// does not fit the 64-bit word. The reconstructed mantissa bits are
    /// proved never to collide with the leading-one bit of the result.
    #[must_use]
    pub fn checked_mul(self, rhs: Self) -> (r: Option<Self>)
        ensures
            r is Some <==> exponent(self.0) + exponent(rhs.0) < 64,
            match r {
                Some(p) => exponent(p.0) == exponent(self.0) + exponent(rhs.0)
                    && numerator(p.0) == numerator(self.0) * numerator(rhs.0),
                None => true,
            },
    {
        let i1 = self.leading_one();
        let i2 = rhs.leading_one();
        let i_product = i1 + i2;
        if i_product >= 64 {
            return None;
        }
        let ghost e1 = exponent(self.0);
        let ghost e2 = exponent(rhs.0);
        let ghost ip = (e1 + e2) as nat;
        let m1 = self.mantissa();
        let m2 = rhs.mantissa();
        proof {
            lemma_numerator_bound(self.0);
            lemma_numerator_bound(rhs.0);
            lemma_pow2_adds(e1, e2);
            lemma_mul_upper_bound(m1 as int, pow2(e1) as int, m2 as int, pow2(e2) as int);
            if ip < 63 {
                lemma_pow2_strictly_increases(ip, 63);
            }
            assert(pow2(63) == 0x8000000000000000) by {
                lemma2_to64_rest();
            }
        }
        let mantissa_product = m1 * m2;
        let mantissa_bits = mantissa_product / 2;
        if i_product == 0 {
            proof {
                lemma_exponent_bounds(self.0);
                lemma_exponent_bounds(rhs.0);
                assert(self.0 == 0 && rhs.0 == 0);
                assert(numerator(self.0) * numerator(rhs.0) == 1nat * 1nat);
            }
            Some(Dyadra(0))
        } else {
            proof {
                lemma_numerator_product_bound(self.0, rhs.0);
                lemma_numerator_odd(self.0);
                lemma_numerator_odd(rhs.0);
                lemma_odd_product(m1 as int, m2 as int);
                assert(mantissa_product % 2 == 1);
                lemma_fundamental_div_mod(mantissa_product as int, 2);
                lemma_pow2_unfold(ip);
                assert(mantissa_bits < pow2((ip - 1) as nat));
                lemma_u64_pow2_no_overflow((ip - 1) as nat);
                lemma_u64_shl_is_mul(1u64, (i_product - 1) as u64);
            }
            let high_bit = 1u64 << (i_product - 1);
            let word = high_bit + mantissa_bits;
            proof {
                lemma_exponent_unique(word, ip);
                lemma_pow2_pos((ip - 1) as nat);
                lemma_mod_multiples_vanish(1, mantissa_bits as int, pow2((ip - 1) as nat) as int);
                lemma_small_mod(mantissa_bits as nat, pow2((ip - 1) as nat));
                assert(exponent(word) == exponent(self.0) + exponent(rhs.0));
                assert(numerator(word) == numerator(self.0) * numerator(rhs.0));
            }
            Some(Dyadra(word))
        }
    }

    /// The multiplication operator: a thin convenience over `checked_mul`
    /// for callers that have already ruled out exponent overflow. An input
    /// pair whose combined exponent does not fit is a caller error, so it
    /// is excluded up front rather than handled at run time.
    pub fn mul(self, rhs: Self) -> (r: Self)
        requires
            exponent(self.0) + exponent(rhs.0) < 64,
        ensures
            exponent(r.0) == exponent(self.0) + exponent(rhs.0),
            numerator(r.0) == numerator(self.0) * numerator(rhs.0),
    {
        self.checked_mul(rhs).unwrap()
    }
}

} // verus!
