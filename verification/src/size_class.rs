//! Size-class indexing: mapping a byte length to the exponent of the
//! smallest power of two that covers it, and back.

use vstd::prelude::*;

verus! {

use vstd::arithmetic::power2::{
    pow2,
    lemma_pow2_unfold,
    lemma_pow2_strictly_increases,
    lemma2_to64,
};
use vstd::bits::lemma_usize_shl_is_mul;
use vstd::layout::unsigned_int_max_values;

/// Bytes reserved at the head of every block for the embedded "next" field.
pub const META_SIZE: usize = 8;

/// The size class of a positive length `x`: the exponent of the smallest
/// power of two that is at least `x`.
pub open spec fn class_of(x: nat) -> nat
    decreases x,
{
    if x <= 1 {
        0
    } else {
        1 + class_of((x + 1) / 2)
    }
}

/// `k` is a correct size class for `x`: `2^k` covers `x` and is minimal.
pub open spec fn is_class_of(x: nat, k: nat) -> bool {
    &&& x <= pow2(k)
    &&& (k == 0 || pow2((k - 1) as nat) < x)
}

/// `pow2` grows monotonically.
pub proof fn lemma_pow2_le(e1: nat, e2: nat)
    requires
        e1 <= e2,
    ensures
        pow2(e1) <= pow2(e2),
{
    if e1 < e2 {
        lemma_pow2_strictly_increases(e1, e2);
    }
}

/// The machine word is 32 or 64 bits wide.
pub proof fn lemma_word_bits()
    ensures
        usize::BITS == 32 || usize::BITS == 64,
{
}

/// An exponent whose power fits in a machine word lies below the word width.
pub proof fn lemma_exp_in_word(k: nat)
    requires
        pow2(k) <= usize::MAX,
    ensures
        k < usize::BITS,
{
    unsigned_int_max_values();
    if k >= usize::BITS {
        lemma_pow2_le(usize::BITS as nat, k);
        assert(false);
    }
}

/// `class_of` indeed yields the minimal covering exponent.
pub proof fn lemma_class_of_correct(x: nat)
    requires
        x >= 1,
    ensures
        is_class_of(x, class_of(x)),
    decreases x,
{
    if x <= 1 {
        assert(pow2(0) == 1) by { lemma2_to64(); };
    } else {
        let y = (x + 1) / 2;
        lemma_class_of_correct(y);
        let c = class_of(y);
        lemma_pow2_unfold(c + 1);
        assert(pow2(c + 1) == 2 * pow2(c));
        assert(2 * y >= x);
        if c == 0 {
            assert(pow2(0) == 1) by { lemma2_to64(); };
        } else {
            assert(pow2((c - 1) as nat) < y);
            lemma_pow2_unfold(c);
            assert(pow2(c) == 2 * pow2((c - 1) as nat));
            assert(pow2(c) <= 2 * (y - 1));
            assert(2 * y <= x + 1);
        }
    }
}

/// No two distinct exponents can both be the size class of the same `x`.
pub proof fn lemma_class_of_unique(x: nat, k: nat)
    requires
        x >= 1,
        is_class_of(x, k),
    ensures
        k == class_of(x),
{
    lemma_class_of_correct(x);
    let c = class_of(x);
    if k < c {
        lemma_pow2_le(k, (c - 1) as nat);
        assert(false);
    } else if c < k {
        lemma_pow2_le(c, (k - 1) as nat);
        assert(false);
    }
}

/// The size class is monotone in the length.
pub proof fn lemma_class_of_monotone(x1: nat, x2: nat)
    requires
        1 <= x1 <= x2,
    ensures
        class_of(x1) <= class_of(x2),
{
    lemma_class_of_correct(x1);
    lemma_class_of_correct(x2);
    if class_of(x2) < class_of(x1) {
        lemma_pow2_le(class_of(x2), (class_of(x1) - 1) as nat);
        assert(false);
    }
}

/// A power of two is its own class.
pub proof fn lemma_class_of_pow2(k: nat)
    ensures
        class_of(pow2(k)) == k,
{
    vstd::arithmetic::power2::lemma_pow2_pos(k);
    if k > 0 {
        lemma_pow2_strictly_increases((k - 1) as nat, k);
    }
    lemma_class_of_unique(pow2(k), k);
}

/// `2^k`, computed by a left shift.
pub fn pow2_usize(k: usize) -> (r: usize)
    requires
        pow2(k as nat) <= usize::MAX,
    ensures
        r == pow2(k as nat),
{
    proof {
        lemma_exp_in_word(k as nat);
        lemma_usize_shl_is_mul(1usize, k);
    }
    1usize << k
}

/// Exponent of the smallest power of two that is at least `x`.
///
/// This is the single source of truth for how a requested length is
/// bucketed and how a stored block length is classified again on free.
pub fn get_idx(x: usize) -> (k: usize)
    requires
        1 <= x,
        x <= pow2((usize::BITS - 1) as nat),
    ensures
        k == class_of(x as nat),
        k < usize::BITS,
        pow2(k as nat) <= usize::MAX,
{
    let mut k: usize = 0;
    let mut p: usize = 1;
    proof {
        assert(pow2(0) == 1) by { lemma2_to64(); };
        unsigned_int_max_values();
    }
    while p < x
        invariant
            1 <= p,
            k < usize::BITS,
            p == pow2(k as nat),
            k == 0 || pow2((k - 1) as nat) < x,
            1 <= x <= pow2((usize::BITS - 1) as nat),
            usize::MAX + 1 == pow2(usize::BITS as nat),
        decreases 2 * x - p,
    {
        proof {
            lemma_word_bits();
            lemma_pow2_unfold(k as nat + 1);
            lemma_pow2_unfold(usize::BITS as nat);
            assert(p * 2 <= 2 * pow2((usize::BITS - 1) as nat) - 2);
            lemma_exp_in_word(k as nat + 1);
        }
        p = p * 2;
        k = k + 1;
    }
    proof {
        lemma_class_of_unique(x as nat, k as nat);
        if k as nat > usize::BITS - 1 {
            lemma_pow2_le((usize::BITS - 1) as nat, (k - 1) as nat);
            assert(false);
        }
        lemma_pow2_le(k as nat, (usize::BITS - 1) as nat);
        lemma_pow2_strictly_increases((usize::BITS - 1) as nat, usize::BITS as nat);
    }
    k
}

/// `k` is the floor class of `x`: the exponent of the largest power of two
/// that fits inside `x`.
pub open spec fn is_floor_class_of(x: nat, k: nat) -> bool {
    pow2(k) <= x < pow2(k + 1)
}

/// Exponent of the largest power of two that is at most `x`; used by
/// initialization to round an arena size down to a whole power of two.
pub fn floor_idx(x: usize) -> (k: usize)
    requires
        1 <= x,
    ensures
        is_floor_class_of(x as nat, k as nat),
        k < usize::BITS,
        pow2(k as nat) <= usize::MAX,
{
    let mut k: usize = 0;
    let mut p: usize = 1;
    proof {
        assert(pow2(0) == 1) by { lemma2_to64(); };
    }
    while p <= x / 2
        invariant
            1 <= p,
            k < usize::BITS,
            p == pow2(k as nat),
            p <= x,
        decreases x - p,
    {
        proof {
            lemma_word_bits();
            lemma_pow2_unfold(k as nat + 1);
            lemma_exp_in_word(k as nat + 1);
        }
        p = p * 2;
        k = k + 1;
    }
    proof {
        lemma_pow2_unfold(k as nat + 1);
        lemma_exp_in_word(k as nat);
    }
    k
}

} // verus!
