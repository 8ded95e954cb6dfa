//! The rank a fire is kept by.
//!
//! A fire's rank is one more than the number of times its ordinal can be halved, so "keep every
//! `2^k`-th fire" is the single comparison `rank > k` and the kept sets nest as `k` grows.
use vstd::arithmetic::div_mod::{lemma_mod_breakdown, lemma_small_mod};
use vstd::arithmetic::power2::{
    lemma2_to64, lemma2_to64_rest, lemma_pow2_pos, lemma_pow2_strictly_increases,
    lemma_pow2_unfold, pow2,
};
use vstd::prelude::*;
use vstd::std_specs::bits::{axiom_u64_trailing_zeros, u64_trailing_zeros};

verus! {

/// The rank of a node's very first fire, above every exponent a squeeze can reach short of this one.
pub const FIRST: u8 = 64;

/// How often `o` can be halved.
pub open spec fn halvings(o: nat) -> nat
    decreases o,
{
    if o == 0 || o % 2 == 1 {
        0
    } else {
        1 + halvings(o / 2)
    }
}

/// The rank of the fire with 0-based ordinal `o`; ordinal 0 saturates.
pub open spec fn rank(o: nat) -> nat {
    if o == 0 {
        FIRST as nat
    } else {
        1 + halvings(o)
    }
}

/// Halving is counting trailing zero bits.
proof fn lemma_halvings_bits(o: u64)
    requires
        o != 0,
    ensures
        halvings(o as nat) == u64_trailing_zeros(o),
        u64_trailing_zeros(o) < 64,
    decreases o,
{
    axiom_u64_trailing_zeros(o);
    let s = u64_trailing_zeros(o) as u64;
    assert((o >> 0u64) & 1u64 == o % 2) by (bit_vector);
    if o % 2 == 1 {
        if s > 0 {
            assert((o >> 0u64) & 1u64 == 0u64);
        }
    } else {
        let h: u64 = o / 2;
        assert(h != 0);
        lemma_halvings_bits(h);
        axiom_u64_trailing_zeros(h);
        let t = u64_trailing_zeros(h) as u64;
        assert(t < 63) by {
            if t == 63 {
                assert((h >> 63u64) & 1u64 == 0u64) by (bit_vector)
                    requires
                        h == o / 2,
                ;
            }
        }
        let t1: u64 = (t + 1) as u64;
        assert((o >> t1) & 1u64 == (h >> t) & 1u64) by (bit_vector)
            requires
                h == o / 2,
                t < 63,
                t1 == t + 1,
        ;
        if s < t1 {
            if s > 0 {
                let s0: u64 = (s - 1) as u64;
                assert((h >> s0) & 1u64 == 0u64);
                assert((o >> s) & 1u64 == (h >> s0) & 1u64) by (bit_vector)
                    requires
                        h == o / 2,
                        0 < s < 64,
                        s0 == s - 1,
                ;
            }
        }
        if s > t1 {
            assert((o >> t1) & 1u64 == 0u64);
        }
    }
}

/// The rank of the fire with ordinal `o`.
pub fn rank_of(o: usize) -> (r: u8)
    ensures
        r == rank(o as nat),
        1 <= r <= FIRST,
{
    let tz: u32 = (o as u64).trailing_zeros();
    proof {
        axiom_u64_trailing_zeros(o as u64);
        if o != 0 {
            lemma_halvings_bits(o as u64);
        }
    }
    let capped: u32 = if tz < 63 {
        tz
    } else {
        63
    };
    1 + capped as u8
}

/// Halving `o` that often takes an `o` that large.
proof fn lemma_halvings_low(o: nat)
    requires
        o > 0,
    ensures
        pow2(halvings(o)) <= o,
    decreases o,
{
    if o % 2 == 1 {
        lemma2_to64();
    } else {
        lemma_halvings_low(o / 2);
        lemma_pow2_unfold(halvings(o));
    }
}

/// An ordinal under `2^63` other than the first ranks under [`FIRST`].
pub proof fn lemma_rank_bound(o: nat)
    requires
        0 < o < 0x8000_0000_0000_0000,
    ensures
        1 <= rank(o) < FIRST,
{
    lemma_halvings_low(o);
    lemma2_to64_rest();
    if halvings(o) >= 63 {
        if halvings(o) > 63 {
            lemma_pow2_strictly_increases(63, halvings(o));
        }
    }
}

/// The rank of any machine-sized ordinal is between 1 and [`FIRST`].
pub proof fn lemma_halvings_u64(o: nat)
    requires
        o < 0x1_0000_0000_0000_0000,
    ensures
        1 <= rank(o) <= FIRST,
{
    if o > 0 {
        lemma_halvings_low(o);
        lemma2_to64_rest();
        if halvings(o) > 63 {
            if halvings(o) > 64 {
                lemma_pow2_strictly_increases(64, halvings(o));
            }
        }
    }
}

/// A fire outranks `k` exactly when `2^k` divides its ordinal: what "keep one fire in `2^k`" means.
pub proof fn rank_is_divisibility(o: nat, k: nat)
    requires
        k < FIRST,
    ensures
        rank(o) > k <==> o % pow2(k) == 0,
    decreases k,
{
    lemma_pow2_pos(k);
    if o == 0 {
        lemma_small_mod(0, pow2(k));
    } else if k == 0 {
        assert(pow2(0) == 1) by {
            lemma2_to64();
        }
    } else {
        lemma_pow2_unfold(k);
        lemma_pow2_pos((k - 1) as nat);
        let h = pow2((k - 1) as nat);
        lemma_mod_breakdown(o as int, 2, h as int);
        if o % 2 == 1 {
            assert(o % pow2(k) != 0);
        } else {
            rank_is_divisibility(o / 2, (k - 1) as nat);
            assert(o / 2 > 0);
        }
    }
}

/// The kept sets nest: what a higher exponent keeps, a lower one keeps too.
pub proof fn kept_sets_nest(o: nat, k: nat, m: nat)
    requires
        k <= m < FIRST,
        o % pow2(m) == 0,
    ensures
        o % pow2(k) == 0,
{
    rank_is_divisibility(o, m);
    rank_is_divisibility(o, k);
}

/// A node's first fire outranks every exponent under [`FIRST`].
pub proof fn first_fire_outranks(k: nat)
    requires
        k < FIRST,
    ensures
        rank(0) > k,
{
}

} // verus!
