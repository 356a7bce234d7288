//! Powers of two and the smallest power that covers a length.

use vstd::arithmetic::power2::*;
use vstd::prelude::*;

verus! {

/// The least `k` with `value <= 2^k`.
pub open spec fn ceil_log2(value: nat) -> nat
    decreases value,
{
    if value <= 1 {
        0
    } else {
        1 + ceil_log2(((value + 1) / 2) as nat)
    }
}

/// The least power of two that is at least `value`.
pub open spec fn padded(value: nat) -> nat {
    pow2(ceil_log2(value))
}

/// The padded length is the least power of two that covers a length.
pub proof fn lemma_padded(value: nat)
    requires
        0 < value,
    ensures
        value <= padded(value),
        1 < value ==> padded(value) == 2 * pow2((ceil_log2(value) - 1) as nat) && pow2(
            (ceil_log2(value) - 1) as nat,
        ) < value,
        value == 1 ==> padded(value) == 1,
    decreases value,
{
    lemma2_to64();
    if value > 1 {
        let half = ((value + 1) / 2) as nat;
        lemma_padded(half);
        lemma_pow2_unfold(ceil_log2(value));
        if half > 1 {
            lemma_pow2_unfold(ceil_log2(half));
        }
    }
}

/// A power of two that covers a length, with half of it too short, is the
/// padded length.
pub proof fn lemma_padded_unique(value: nat, exponent: nat)
    requires
        0 < value <= pow2(exponent),
        0 < exponent ==> pow2((exponent - 1) as nat) < value,
    ensures
        ceil_log2(value) == exponent,
        padded(value) == pow2(exponent),
{
    lemma_padded(value);
    lemma2_to64();
    let found = ceil_log2(value);
    if found < exponent {
        if found < exponent - 1 {
            lemma_pow2_strictly_increases(found, (exponent - 1) as nat);
        }
    } else if exponent < found {
        if exponent < found - 1 {
            lemma_pow2_strictly_increases(exponent, (found - 1) as nat);
        }
    }
}

pub proof fn lemma_ceil_log2_bound(value: nat, exponent: nat)
    requires
        0 < value <= pow2(exponent),
    ensures
        ceil_log2(value) <= exponent,
        padded(value) <= pow2(exponent),
{
    lemma_padded(value);
    lemma2_to64();
    let found = ceil_log2(value);
    if exponent < found {
        if exponent < found - 1 {
            lemma_pow2_strictly_increases(exponent, (found - 1) as nat);
        }
    }
    if found < exponent {
        lemma_pow2_strictly_increases(found, exponent);
    }
}

/// `2^exponent` for an exponent below 31.
pub(crate) fn power_of_two(exponent: u32) -> (power: usize)
    requires
        exponent <= 30,
    ensures
        power == pow2(exponent as nat),
        0 < power <= 0x4000_0000,
{
    proof {
        lemma2_to64();
    }
    let mut power: usize = 1;
    let mut index: u32 = 0;
    while index < exponent
        invariant
            index <= exponent <= 30,
            power == pow2(index as nat),
            pow2(30) == 0x4000_0000,
        decreases exponent - index,
    {
        proof {
            lemma_pow2_unfold((index + 1) as nat);
            if index + 1 < 30 {
                lemma_pow2_strictly_increases((index + 1) as nat, 30);
            }
        }
        power = power * 2;
        index = index + 1;
    }
    proof {
        lemma_pow2_pos(exponent as nat);
        if exponent < 30 {
            lemma_pow2_strictly_increases(exponent as nat, 30);
        }
    }
    power
}

/// The exponent of the padded length, for lengths up to `2^30`.
pub(crate) fn padded_exponent(value: usize) -> (exponent: u32)
    requires
        0 < value <= 0x4000_0000,
    ensures
        exponent == ceil_log2(value as nat),
        exponent <= 30,
{
    proof {
        lemma2_to64();
    }
    let mut power: usize = 1;
    let mut exponent: u32 = 0;
    while power < value
        invariant
            0 < value <= 0x4000_0000,
            exponent <= 30,
            power == pow2(exponent as nat),
            0 < exponent ==> pow2((exponent - 1) as nat) < value,
            pow2(30) == 0x4000_0000,
        decreases 30 - exponent,
    {
        proof {
            lemma_pow2_unfold((exponent + 1) as nat);
            if exponent < 30 {
                lemma_pow2_strictly_increases(exponent as nat, 30);
            }
        }
        power = power * 2;
        exponent = exponent + 1;
    }
    proof {
        lemma_padded_unique(value as nat, exponent as nat);
    }
    exponent
}

} // verus!
