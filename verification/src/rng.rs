//! Small deterministic PRNG (xoshiro256++), seeded via splitmix64.

use vstd::prelude::*;

verus! {

/// The generator's four words of state.
///
/// Used for proposal priorities. Determinism given a seed is part of the
/// crate's contract: it makes whole-protocol simulation tests reproducible.
/// The network adversary in QuePaxa's model is content-oblivious, so the
/// generator does not need to be cryptographically strong; callers provide
/// entropy through the seed in production.
#[derive(Clone, Copy, Debug, PartialEq, Eq, Structural)]
pub struct Rng {
    pub s0: u64,
    pub s1: u64,
    pub s2: u64,
    pub s3: u64,
}

/// The increment of the splitmix64 counter.
pub const GOLDEN: u64 = 0x9e37_79b9_7f4a_7c15;

/// The splitmix64 output for counter value `sm`.
pub open spec fn splitmix(sm: u64) -> u64 {
    let z1 = (sm ^ (sm >> 30)).wrapping_mul(0xbf58_476d_1ce4_e5b9);
    let z2 = (z1 ^ (z1 >> 27)).wrapping_mul(0x94d0_49bb_1331_11eb);
    z2 ^ (z2 >> 31)
}

/// The splitmix64 counter after `k` increments from `seed`.
pub open spec fn counter(seed: u64, k: nat) -> u64
    decreases k,
{
    if k == 0 {
        seed
    } else {
        counter(seed, (k - 1) as nat).wrapping_add(GOLDEN)
    }
}

/// `x` rotated left by 23 bits.
pub open spec fn rotated23(x: u64) -> u64 {
    (x << 23) | (x >> 41)
}

/// `x` rotated left by 45 bits.
pub open spec fn rotated45(x: u64) -> u64 {
    (x << 45) | (x >> 19)
}

impl Rng {
    /// The generator that `seed` stands for: four splitmix64 outputs.
    pub open spec fn seeded(seed: u64) -> Rng {
        Rng {
            s0: splitmix(counter(seed, 1)),
            s1: splitmix(counter(seed, 2)),
            s2: splitmix(counter(seed, 3)),
            s3: splitmix(counter(seed, 4)),
        }
    }

    /// The next output of the generator.
    pub open spec fn output(self) -> u64 {
        rotated23(self.s0.wrapping_add(self.s3)).wrapping_add(self.s0)
    }

    /// The generator after one output.
    pub open spec fn advanced(self) -> Rng {
        let s2 = self.s2 ^ self.s0;
        let s3 = self.s3 ^ self.s1;
        Rng {
            s0: self.s0 ^ s3,
            s1: self.s1 ^ s2,
            s2: s2 ^ (self.s1 << 17),
            s3: rotated45(s3),
        }
    }

    /// The next draw from `[low, high]`.
    pub open spec fn draw(self, low: u64, high: u64) -> u64 {
        (low + self.output() as int % (high - low + 1)) as u64
    }

    pub fn new(seed: u64) -> (r: Rng)
        ensures
            r == Rng::seeded(seed),
    {
        // splitmix64 expansion, as recommended by the xoshiro authors.
        let c1 = seed.wrapping_add(GOLDEN);
        let c2 = c1.wrapping_add(GOLDEN);
        let c3 = c2.wrapping_add(GOLDEN);
        let c4 = c3.wrapping_add(GOLDEN);
        proof {
            reveal_with_fuel(counter, 5);
        }
        Rng { s0: mix(c1), s1: mix(c2), s2: mix(c3), s3: mix(c4) }
    }

    pub fn next_u64(&mut self) -> (r: u64)
        ensures
            r == old(self).output(),
            *final(self) == old(self).advanced(),
    {
        let x = self.s0.wrapping_add(self.s3);
        let result = ((x << 23) | (x >> 41)).wrapping_add(self.s0);
        let t = self.s1 << 17;
        let s2 = self.s2 ^ self.s0;
        let s3 = self.s3 ^ self.s1;
        let s1 = self.s1 ^ s2;
        let s0 = self.s0 ^ s3;
        *self = Rng { s0, s1, s2: s2 ^ t, s3: (s3 << 45) | (s3 >> 19) };
        result
    }

    /// Uniform draw from `[low, high]` (inclusive). Modulo bias is
    /// irrelevant for priority draws against a content-oblivious adversary.
    pub fn range_inclusive(&mut self, low: u64, high: u64) -> (r: u64)
        requires
            low <= high,
            high - low < u64::MAX,
        ensures
            r == old(self).draw(low, high),
            low <= r <= high,
            *final(self) == old(self).advanced(),
    {
        let x = self.next_u64();
        let span = high - low + 1;
        proof {
            assert(0 <= x as int % span as int && x as int % span as int <= high - low)
                by (nonlinear_arith)
                requires
                    span == high - low + 1,
                    low <= high,
            ;
        }
        low + x % span
    }
}

/// Computes [`splitmix`].
fn mix(sm: u64) -> (r: u64)
    ensures
        r == splitmix(sm),
{
    let z1 = (sm ^ (sm >> 30)).wrapping_mul(0xbf58_476d_1ce4_e5b9);
    let z2 = (z1 ^ (z1 >> 27)).wrapping_mul(0x94d0_49bb_1331_11eb);
    z2 ^ (z2 >> 31)
}

/// Every draw lies in the requested range.
pub proof fn draws_stay_in_range(rng: Rng, low: u64, high: u64)
    requires
        low <= high,
    ensures
        low <= rng.draw(low, high) <= high,
{
    let x = rng.output() as int;
    let span = high - low + 1;
    assert(0 <= x % span && x % span <= high - low) by (nonlinear_arith)
        requires
            span == high - low + 1,
            low <= high,
    ;
}

/// Bit `i` of `x`, as a number.
pub open spec fn bit(x: u64, i: u64) -> u64 {
    (x >> i) & 1
}

proof fn lemma_turned_bits(x: u64, i: u64)
    requires
        i < 64,
    ensures
        bit((x << 23) | (x >> 41), if i < 41 {
            (i + 23) as u64
        } else {
            (i - 41) as u64
        }) == bit(x, i),
        bit((x << 45) | (x >> 19), if i < 19 {
            (i + 45) as u64
        } else {
            (i - 19) as u64
        }) == bit(x, i),
{
    assert(i < 41 ==> ((((x << 23) | (x >> 41)) >> ((i + 23) as u64)) & 1) == (x >> i) & 1)
        by (bit_vector);
    assert(41 <= i < 64 ==> ((((x << 23) | (x >> 41)) >> ((i - 41) as u64)) & 1) == (x >> i) & 1)
        by (bit_vector);
    assert(i < 19 ==> ((((x << 45) | (x >> 19)) >> ((i + 45) as u64)) & 1) == (x >> i) & 1)
        by (bit_vector);
    assert(19 <= i < 64 ==> ((((x << 45) | (x >> 19)) >> ((i - 19) as u64)) & 1) == (x >> i) & 1)
        by (bit_vector);
}

/// The outputs are those of xoshiro256++: less the first word, an output is
/// the sum of the first and the last word with every bit moved up by 23
/// places, around the end of the word.
pub proof fn outputs_are_scrambled_sums(g: Rng, i: u64)
    requires
        i < 64,
    ensures
        bit(
            g.output().wrapping_sub(g.s0),
            if i < 41 {
                (i + 23) as u64
            } else {
                (i - 41) as u64
            },
        ) == bit(((g.s0 + g.s3) % 0x1_0000_0000_0000_0000) as u64, i),
{
    let x = g.s0.wrapping_add(g.s3);
    lemma_turned_bits(x, i);
    assert(x == ((g.s0 + g.s3) % 0x1_0000_0000_0000_0000) as u64);
    assert(g.output().wrapping_sub(g.s0) == (x << 23) | (x >> 41));
}

/// The state moves on as that of xoshiro256++ does, bit by bit: each word
/// takes in two others, the third one also the second moved up by 17 places,
/// and the last is moved up by 45 places, around the end of the word.
pub proof fn states_advance_linearly(g: Rng, i: u64)
    requires
        i < 64,
    ensures
        bit(g.advanced().s0, i) == (bit(g.s0, i) + bit(g.s1, i) + bit(g.s3, i)) % 2,
        bit(g.advanced().s1, i) == (bit(g.s0, i) + bit(g.s1, i) + bit(g.s2, i)) % 2,
        bit(g.advanced().s2, i) == (bit(g.s0, i) + bit(g.s2, i) + (if i >= 17 {
            bit(g.s1, (i - 17) as u64)
        } else {
            0
        })) % 2,
        bit(
            g.advanced().s3,
            if i < 19 {
                (i + 45) as u64
            } else {
                (i - 19) as u64
            },
        ) == (bit(g.s1, i) + bit(g.s3, i)) % 2,
{
    let (a, b, c, d) = (g.s0, g.s1, g.s2, g.s3);
    lemma_turned_bits(d ^ b, i);
    assert(((a ^ (d ^ b)) >> i) & 1 == (((a >> i) & 1) + ((b >> i) & 1) + ((d >> i) & 1)) % 2)
        by (bit_vector);
    assert(((b ^ (c ^ a)) >> i) & 1 == (((a >> i) & 1) + ((b >> i) & 1) + ((c >> i) & 1)) % 2)
        by (bit_vector);
    assert(17 <= i < 64 ==> (((c ^ a) ^ (b << 17)) >> i) & 1 == (((a >> i) & 1) + ((c >> i) & 1) + (
    (b >> ((i - 17) as u64)) & 1)) % 2) by (bit_vector);
    assert(i < 17 ==> (((c ^ a) ^ (b << 17)) >> i) & 1 == (((a >> i) & 1) + ((c >> i) & 1)) % 2)
        by (bit_vector);
    assert(((d ^ b) >> i) & 1 == (((b >> i) & 1) + ((d >> i) & 1)) % 2) by (bit_vector);
}

/// Nothing is lost as the state moves on: different states stay different.
pub proof fn states_never_merge(g: Rng, h: Rng)
    requires
        g.advanced() == h.advanced(),
    ensures
        g == h,
{
    let (a, b, c, d) = (g.s0, g.s1, g.s2, g.s3);
    let (e, f, k, l) = (h.s0, h.s1, h.s2, h.s3);
    let x = d ^ b;
    let y = l ^ f;
    assert(((x << 45) | (x >> 19)) == ((y << 45) | (y >> 19)) ==> x == y) by (bit_vector);
    assert(a ^ x == e ^ y && x == y ==> a == e) by (bit_vector);
    assert((b ^ (c ^ a) == f ^ (k ^ e)) && a == e && ((c ^ a) ^ (b << 17) == (k ^ e) ^ (f << 17))
        ==> b == f && c == k) by (bit_vector);
    assert(d ^ b == l ^ f && b == f ==> d == l) by (bit_vector);
}

/// The words of a fresh generator are those of splitmix64: the seed and one to
/// four increments, each mixed by two multiplications between three folds.
pub proof fn seeds_are_mixed(seed: u64, k: nat)
    requires
        1 <= k <= 4,
    ensures
        ({
            let g = Rng::seeded(seed);
            let word = if k == 1 {
                g.s0
            } else if k == 2 {
                g.s1
            } else if k == 3 {
                g.s2
            } else {
                g.s3
            };
            let z = ((seed + k * 0x9e37_79b9_7f4a_7c15) % 0x1_0000_0000_0000_0000) as u64;
            let z1 = ((z ^ (z / 0x4000_0000)) * 0xbf58_476d_1ce4_e5b9
                % 0x1_0000_0000_0000_0000) as u64;
            let z2 = ((z1 ^ (z1 / 0x800_0000)) * 0x94d0_49bb_1331_11eb
                % 0x1_0000_0000_0000_0000) as u64;
            word == z2 ^ (z2 / 0x8000_0000)
        }),
{
    reveal_with_fuel(counter, 5);
    let z = ((seed + k * 0x9e37_79b9_7f4a_7c15) % 0x1_0000_0000_0000_0000) as u64;
    assert(z == counter(seed, k));
    let z1 = (z ^ (z >> 30)).wrapping_mul(0xbf58_476d_1ce4_e5b9);
    let z2 = (z1 ^ (z1 >> 27)).wrapping_mul(0x94d0_49bb_1331_11eb);
    assert(z >> 30 == z / 0x4000_0000) by (bit_vector);
    assert(z1 >> 27 == z1 / 0x800_0000) by (bit_vector);
    assert(z2 >> 31 == z2 / 0x8000_0000) by (bit_vector);
}

/// A draw differs from the output by a multiple of the size of the range, so
/// that every number of the range comes up for one output in as many.
pub proof fn draws_follow_the_output(g: Rng, low: u64, high: u64)
    requires
        low <= high,
    ensures
        low <= g.draw(low, high) <= high,
        (g.output() - (g.draw(low, high) - low)) % (high - low + 1) == 0,
{
    draws_stay_in_range(g, low, high);
    let n = high - low + 1;
    let x = g.output() as int;
    vstd::arithmetic::div_mod::lemma_fundamental_div_mod(x, n);
    vstd::arithmetic::div_mod::lemma_mod_bound(x, n);
    assert(g.draw(low, high) - low == x % n);
    vstd::arithmetic::div_mod::lemma_mod_multiples_basic(x / n, n);
    assert(x - x % n == (x / n) * n) by (nonlinear_arith)
        requires
            x == n * (x / n) + x % n,
    ;
}

} // verus!
