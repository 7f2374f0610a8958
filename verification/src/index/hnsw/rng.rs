//! A small deterministic source of pseudo-random numbers (xorshift64*): the same
//! data and the same parameters give the same graph.

use vstd::arithmetic::power::pow;
use vstd::prelude::*;
use vstd::wrapping::u64_specs::wrapping_mul;

verus! {

/// The state that follows a state.
pub open spec fn advanced(x: u64) -> u64 {
    let a = x ^ (x >> 12);
    let b = a ^ (a << 25);
    b ^ (b >> 27)
}

/// The number that is drawn with the step to a state.
pub open spec fn drawn(x: u64) -> u64 {
    wrapping_mul(x, 0x2545_F491_4F6C_DD1D)
}

/// A source of pseudo-random numbers.
pub struct Rng(u64);

impl Rng {
    /// The state of the source.
    pub closed spec fn state(&self) -> u64 {
        self.0
    }

    /// A source that starts from a seed.
    pub fn new(seed: u64) -> (r: Self)
        ensures
            r.state() == seed ^ 0x9E37_79B9_7F4A_7C15,
    {
        Rng(seed ^ 0x9E37_79B9_7F4A_7C15)
    }

    /// The next number.
    pub fn next_u64(&mut self) -> (r: u64)
        ensures
            final(self).state() == advanced(old(self).state()),
            r == drawn(final(self).state()),
    {
        let x: u64 = self.0;
        let a: u64 = x ^ (x >> 12);
        let b: u64 = a ^ (a << 25);
        let c: u64 = b ^ (b >> 27);
        self.0 = c;
        c.wrapping_mul(0x2545_F491_4F6C_DD1D)
    }

    /// The next number cut down to its upper 24 bits.
    pub fn next_u24(&mut self) -> (r: u32)
        ensures
            final(self).state() == advanced(old(self).state()),
            r == upper24(drawn(final(self).state())),
            r < 0x100_0000,
    {
        let x: u64 = self.next_u64();
        (x / 0x100_0000_0000) as u32
    }
}

/// The upper 24 bits of a number.
pub open spec fn upper24(x: u64) -> u32 {
    (x / 0x100_0000_0000) as u32
}

/// Twice the middle between a draw `b` and the next one, with 24 significant bits: where half of
/// it takes one more, it goes to the even neighbour. Over `2^25`, draws are evenly spread between
/// 0 and 1.
pub open spec fn doubled(b: u32) -> int {
    if b < 0x80_0000 {
        2 * b + 1
    } else if b % 2 == 0 {
        2 * b as int
    } else {
        2 * b + 2
    }
}

/// Whether a draw `b` reaches a layer, when each layer holds one node in `m` of the
/// layer below it: `u * m^level <= 1` for `u = doubled(b) / 2^25`.
pub open spec fn reaches(b: u32, m: int, level: nat) -> bool {
    doubled(b) * pow(m, level) <= 0x200_0000
}

/// Whether `level` is the highest layer that a draw reaches, which is
/// `-ln(u) / ln(m)` rounded down.
pub open spec fn top_layer(b: u32, m: int, level: nat) -> bool {
    reaches(b, m, level) && !reaches(b, m, level + 1)
}

/// The layer up to which a draw reaches is the only one of its kind.
pub proof fn law_top_layer_unique(b: u32, m: int, x: nat, y: nat)
    requires
        m >= 2,
        top_layer(b, m, x),
        top_layer(b, m, y),
    ensures
        x == y,
{
    if x < y {
        lemma_reaches_down(b, m, x + 1, y);
    } else if y < x {
        lemma_reaches_down(b, m, y + 1, x);
    }
}

proof fn lemma_reaches_down(b: u32, m: int, x: nat, y: nat)
    requires
        m >= 2,
        x <= y,
        reaches(b, m, y),
    ensures
        reaches(b, m, x),
{
    vstd::arithmetic::power::lemma_pow_increases(m as nat, x, y);
    let k = doubled(b);
    let p = pow(m, x);
    let q = pow(m, y);
    assert(k * p <= k * q) by (nonlinear_arith)
        requires
            p <= q,
            k >= 0,
    ;
}

/// Draws the highest layer of a new node.
pub fn sample_level(rng: &mut Rng, m: usize) -> (r: u32)
    ensures
        final(rng).state() == advanced(old(rng).state()),
        top_layer(
            upper24(drawn(final(rng).state())),
            if m < 2 {
                2
            } else {
                m as int
            },
            r as nat,
        ),
        r <= 25,
{
    let b: u32 = rng.next_u24();
    let base: u64 = if m < 2 {
        2
    } else if m > 0x200_0000 {
        0x200_0001
    } else {
        m as u64
    };
    let ghost mm: int = if m < 2 {
        2
    } else {
        m as int
    };
    let mut reach: u64 = if b < 0x80_0000 {
        2 * b as u64 + 1
    } else if b % 2 == 0 {
        2 * b as u64
    } else {
        2 * b as u64 + 2
    };
    let mut level: u32 = 0;
    proof {
        vstd::arithmetic::power::lemma_pow0(mm);
        vstd::arithmetic::power2::lemma2_to64();
    }
    let limit: u64 = 0x200_0000 / base;
    while reach <= limit
        invariant
            2 <= base <= 0x200_0001,
            limit == 0x200_0000int / base as int,
            mm >= 2,
            base == mm || (base == 0x200_0001 && mm > base),
            reach == doubled(b) * pow(mm, level as nat),
            1 <= reach <= 0x200_0000,
            level <= 25,
            vstd::arithmetic::power2::pow2(level as nat) <= reach,
            vstd::arithmetic::power2::pow2(25) == 0x200_0000,
        decreases 0x200_0000 - reach,
    {
        proof {
            assert(reach * base <= 0x200_0000) by (nonlinear_arith)
                requires
                    reach <= 0x200_0000int / base as int,
                    base >= 2,
            ;
            assert(base <= 0x200_0000) by (nonlinear_arith)
                requires
                    reach >= 1,
                    reach * base <= 0x200_0000,
            ;
            vstd::arithmetic::power::lemma_pow_adds(mm, level as nat, 1);
            vstd::arithmetic::power::lemma_pow1(mm);
            let p = pow(mm, level as nat);
            let k = doubled(b);
            assert((k * p) * mm == k * (p * mm)) by (nonlinear_arith);
            assert(reach * base >= 2 * reach) by (nonlinear_arith)
                requires
                    base >= 2,
                    reach >= 1,
            ;
            vstd::arithmetic::power2::lemma_pow2_unfold((level + 1) as nat);
            if level >= 25 {
                vstd::arithmetic::power2::lemma_pow2_strictly_increases(25, (level + 1) as nat);
            }
        }
        reach = reach * base;
        level = level + 1;
    }
    proof {
        vstd::arithmetic::power::lemma_pow_adds(mm, level as nat, 1);
        vstd::arithmetic::power::lemma_pow1(mm);
        let p = pow(mm, level as nat);
        let k = doubled(b);
        assert((k * p) * mm == k * (p * mm)) by (nonlinear_arith);
        assert(reach * base > 0x200_0000) by (nonlinear_arith)
            requires
                reach > 0x200_0000int / base as int,
                base >= 2,
        ;
        assert(reach * mm >= reach * base) by (nonlinear_arith)
            requires
                mm >= base,
                reach >= 1,
        ;
    }
    level
}

} // verus!
