//! Binary-counter arithmetic on the leaf count: the bits of the count say
//! which frontier slots are occupied, and the run of low set bits says how
//! far an insertion carries upward.

use vstd::prelude::*;
use vstd::arithmetic::power2::{pow2, lemma_pow2_unfold, lemma_pow2_adds, lemma2_to64, lemma2_to64_rest};

verus! {

/// Bit `i` (0-indexed from the least significant end) of `n`.
pub open spec fn bit_at(n: nat, i: nat) -> bool
    decreases i,
{
    if i == 0 {
        n % 2 == 1
    } else {
        bit_at(n / 2, (i - 1) as nat)
    }
}

/// The number of consecutive set bits of `n` starting at bit 0.  An
/// increment of `n` clears exactly this many low bits and sets the next one.
pub open spec fn trailing_ones(n: nat) -> nat
    decreases n,
{
    if n % 2 == 1 {
        trailing_ones(n / 2) + 1
    } else {
        0
    }
}

/// The number of binary digits of `n` (zero for `n == 0`).
pub open spec fn bit_len(n: nat) -> nat
    decreases n,
{
    if n == 0 {
        0
    } else {
        bit_len(n / 2) + 1
    }
}

/// The run of low set bits never extends past the highest digit.
pub proof fn lemma_trailing_ones_le_bit_len(n: nat)
    ensures
        trailing_ones(n) <= bit_len(n),
    decreases n,
{
    if n % 2 == 1 {
        lemma_trailing_ones_le_bit_len(n / 2);
    }
}

/// Bits at or above the digit count are clear.
pub proof fn lemma_bit_at_ge_len(n: nat, i: nat)
    requires
        i >= bit_len(n),
    ensures
        !bit_at(n, i),
    decreases i,
{
    if i == 0 {
        assert(n == 0);
    } else {
        lemma_bit_at_ge_len(n / 2, (i - 1) as nat);
    }
}

/// How an increment changes bit `i`: the low run of ones is cleared, the
/// next bit is set, everything above is untouched.
pub proof fn lemma_increment_bit(n: nat, i: nat)
    ensures
        i < trailing_ones(n) ==> !bit_at(n + 1, i),
        i == trailing_ones(n) ==> bit_at(n + 1, i),
        i > trailing_ones(n) ==> bit_at(n + 1, i) == bit_at(n, i),
    decreases i,
{
    if n % 2 == 0 {
        if i > 0 {
            assert((n + 1) / 2 == n / 2);
            assert(bit_at(n + 1, i) == bit_at(n / 2, (i - 1) as nat));
            assert(bit_at(n, i) == bit_at(n / 2, (i - 1) as nat));
        }
    } else {
        if i == 0 {
            assert((n + 1) % 2 == 0);
        } else {
            assert((n + 1) / 2 == n / 2 + 1);
            lemma_increment_bit(n / 2, (i - 1) as nat);
        }
    }
}

/// How an increment changes the digit count: it grows exactly when every
/// digit of `n` is a one.
pub proof fn lemma_increment_bit_len(n: nat)
    ensures
        trailing_ones(n) == bit_len(n) ==> bit_len(n + 1) == bit_len(n) + 1,
        trailing_ones(n) < bit_len(n) ==> bit_len(n + 1) == bit_len(n),
    decreases n,
{
    lemma_trailing_ones_le_bit_len(n);
    if n == 0 {
    } else if n % 2 == 0 {
        assert((n + 1) / 2 == n / 2);
    } else {
        assert((n + 1) / 2 == n / 2 + 1);
        lemma_increment_bit_len(n / 2);
        lemma_trailing_ones_le_bit_len(n / 2);
    }
}

/// The highest digit of a positive number is a one.
pub proof fn lemma_top_bit_set(n: nat)
    requires
        n > 0,
    ensures
        bit_at(n, (bit_len(n) - 1) as nat),
    decreases n,
{
    if n >= 2 {
        lemma_top_bit_set(n / 2);
        assert(bit_len(n) == bit_len(n / 2) + 1);
        assert(bit_at(n, (bit_len(n) - 1) as nat) == bit_at(n / 2, (bit_len(n / 2) - 1) as nat));
    } else {
        assert(bit_len(0nat) == 0);
        assert(bit_len(n) == 1);
        assert(bit_at(n, 0));
    }
}

/// Numbers below `2^k` have at most `k` trailing ones.
pub proof fn lemma_trailing_ones_bound(n: nat, k: nat)
    requires
        n < pow2(k),
    ensures
        trailing_ones(n) <= k,
    decreases k,
{
    if k == 0 {
        assert(pow2(0) == 1) by { lemma2_to64(); }
    } else if n % 2 == 1 {
        lemma_pow2_unfold(k);
        assert(n / 2 < pow2((k - 1) as nat));
        lemma_trailing_ones_bound(n / 2, (k - 1) as nat);
    }
}

/// A `u128` count has at most 128 trailing ones.
pub proof fn lemma_trailing_ones_u128(n: u128)
    ensures
        trailing_ones(n as nat) <= 128,
{
    lemma2_to64();
    lemma2_to64_rest();
    lemma_pow2_adds(64, 64);
    assert((n as nat) < pow2(128));
    lemma_trailing_ones_bound(n as nat, 128);
}

/// The number of consecutive set bits of `num`, starting at the least
/// significant end: the number of frontier slots an insertion consumes when
/// the leaf count is `num`.
pub fn count_bit_set_from_right(num: u128) -> (r: usize)
    ensures
        r == trailing_ones(num as nat),
{
    proof {
        lemma_trailing_ones_u128(num);
    }
    let mut n = num;
    let mut len: usize = 0;
    while n % 2 == 1
        invariant
            len + trailing_ones(n as nat) == trailing_ones(num as nat),
            trailing_ones(num as nat) <= 128,
        decreases n,
    {
        n = n / 2;
        len = len + 1;
    }
    len
}

} // verus!
