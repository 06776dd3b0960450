//! The deterministic randomness scenery is scattered with: a seed per
//! settlement, a 64-bit mixer, and a xorshift generator.

use vstd::prelude::*;
use crate::layout::{fnv_hash, stable_hash};

verus! {

/// `x * y` modulo 2^64.
pub open spec fn mul64(x: u64, y: u64) -> u64 {
    ((x as nat * y as nat) % 0x1_0000_0000_0000_0000) as u64
}

/// The seed scenery for `key` is drawn from: the hash of a fixed tag in the
/// high half and the hash of the key in the low half, and never zero.
pub open spec fn seed_of(key: Seq<char>) -> u64 {
    let high = fnv_hash(vstd::utf8::encode_utf8("repo-city-scenery"@)) as u64;
    let low = fnv_hash(vstd::utf8::encode_utf8(key)) as u64;
    let seed = (high * 0x1_0000_0000 + low) as u64;
    if seed == 0 {
        1
    } else {
        seed
    }
}

/// The seed the scenery of `seed_key` is drawn from.
pub fn seed_from_key(seed_key: &str) -> (s: u64)
    ensures
        s == seed_of(seed_key@),
{
    let high = stable_hash("repo-city-scenery") as u64;
    let low = stable_hash(seed_key) as u64;
    assert((high << 32u64) | low == high * 0x1_0000_0000 + low) by (bit_vector)
        requires
            high < 0x1_0000_0000,
            low < 0x1_0000_0000,
    ;
    let seed = (high << 32u64) | low;
    if seed == 0 {
        1
    } else {
        seed
    }
}

/// A 64-bit finaliser: three rounds of shift-xor, two of them followed by a
/// wrapping multiply.
pub open spec fn mixed(value: u64) -> u64 {
    let a = value ^ (value >> 30u64);
    let b = mul64(a, 0xbf58_476d_1ce4_e5b9);
    let c = b ^ (b >> 27u64);
    let d = mul64(c, 0x94d0_49bb_1331_11eb);
    d ^ (d >> 31u64)
}

/// Scrambles the bits of `value` so that nearby inputs give unrelated
/// outputs.
pub fn mix64(value: u64) -> (r: u64)
    ensures
        r == mixed(value),
{
    let mut v = value;
    v = v ^ (v >> 30u64);
    v = v.wrapping_mul(0xbf58_476d_1ce4_e5b9);
    v = v ^ (v >> 27u64);
    v = v.wrapping_mul(0x94d0_49bb_1331_11eb);
    v ^ (v >> 31u64)
}

/// One xorshift step.
pub open spec fn xorshift(state: u64) -> u64 {
    let a = state ^ (state << 13u64);
    let b = a ^ (a >> 7u64);
    b ^ (b << 17u64)
}

/// A small deterministic generator: the same seed gives the same stream on
/// every run and machine.
pub struct Rng {
    state: u64,
}

impl Rng {
    /// The generator's state.
    pub closed spec fn state(&self) -> u64 {
        self.state
    }

    /// A generator seeded with `seed`, or with one where `seed` is zero.
    pub fn new(seed: u64) -> (r: Self)
        ensures
            r.state() == if seed >= 1 {
                seed
            } else {
                1
            },
    {
        Rng { state: if seed >= 1 { seed } else { 1 } }
    }

    /// Advances the generator and returns its new state.
    pub fn next(&mut self) -> (v: u64)
        ensures
            v == xorshift(old(self).state()),
            final(self).state() == v,
    {
        let mut value = self.state;
        value = value ^ (value << 13u64);
        value = value ^ (value >> 7u64);
        value = value ^ (value << 17u64);
        self.state = value;
        value
    }

    /// A value below `upper`, from the next step.
    pub fn usize(&mut self, upper: usize) -> (v: usize)
        requires
            upper > 0,
        ensures
            final(self).state() == xorshift(old(self).state()),
            v == (xorshift(old(self).state()) as nat) % (upper as nat),
    {
        let n = self.next();
        (n % (upper as u64)) as usize
    }
}

/// A generator never stalls: from any state but zero, a step never lands on
/// zero, so a seeded generator, which never starts at zero, keeps moving.
pub proof fn law_the_generator_never_stalls(state: u64)
    requires
        state != 0,
    ensures
        xorshift(state) != 0,
{
    assert(state != 0 ==> ((state ^ (state << 13u64)) ^ ((state ^ (state << 13u64)) >> 7u64)) ^ (((state ^ (state << 13u64)) ^ ((state ^ (state << 13u64)) >> 7u64)) << 17u64) != 0) by (bit_vector);
}

/// A scenery seed is never zero, whatever the key.
pub proof fn law_a_seed_is_never_zero(key: Seq<char>)
    ensures
        seed_of(key) != 0,
{
}

} // verus!
