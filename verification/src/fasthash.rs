//! A fast deterministic hasher for integer keys.
//!
//! This multiply-and-rotate hash is a few instructions. No per-process seed.

use std::hash::Hasher;
use vstd::arithmetic::div_mod::{
    lemma_mod_multiples_vanish, lemma_mul_mod_noop_left, lemma_small_mod,
};
use vstd::arithmetic::power::pow;
use vstd::prelude::*;

verus! {

/// The multiplier of the hash.
pub const SEED: u64 = 0x51_7c_c1_b7_27_22_0a_95;

/// The bits of a word, rotated left by five places.
pub open spec fn rotated(hash: u64) -> u64 {
    (hash << 5) | (hash >> 59)
}

/// A hash after one more word.
pub open spec fn mixed(hash: u64, word: u64) -> u64 {
    (((rotated(hash) ^ word) * SEED) % 0x1_0000_0000_0000_0000) as u64
}

/// A number from its bytes, the least significant first.
pub open spec fn le_number(bytes: Seq<u8>) -> nat
    decreases bytes.len(),
{
    if bytes.len() == 0 {
        0
    } else {
        bytes[0] as nat + 256 * le_number(bytes.drop_first())
    }
}

/// A hash after some bytes: a word for every eight of them, and one for the
/// rest.
pub open spec fn mixed_bytes(hash: u64, bytes: Seq<u8>) -> u64
    decreases bytes.len(),
{
    if bytes.len() == 0 {
        hash
    } else if bytes.len() <= 8 {
        mixed(hash, le_number(bytes) as u64)
    } else {
        mixed_bytes(mixed(hash, le_number(bytes.take(8)) as u64), bytes.skip(8))
    }
}

/// Multiply-and-rotate hasher for integer keys.
pub struct FxHasher {
    hash: u64,
}

impl Default for FxHasher {
    fn default() -> (hasher: Self)
        ensures
            hasher@ == 0,
    {
        FxHasher { hash: 0 }
    }
}

impl View for FxHasher {
    type V = u64;

    closed spec fn view(&self) -> u64 {
        self.hash
    }
}

/// Mixing in a word never merges two hashes into one: the multiplier is odd.
pub proof fn law_mixing_loses_nothing(a: u64, b: u64, word: u64)
    requires
        mixed(a, word) == mixed(b, word),
    ensures
        a == b,
{
    let x = rotated(a) ^ word;
    let y = rotated(b) ^ word;
    lemma_odd_multiplier(x, y);
    assert(a == b) by (bit_vector)
        requires
            ((a << 5) | (a >> 59)) ^ word == ((b << 5) | (b >> 59)) ^ word,
    ;
}

/// Multiplying by the odd seed can be undone.
proof fn lemma_odd_multiplier(x: u64, y: u64)
    requires
        (x * SEED) % 0x1_0000_0000_0000_0000 == (y * SEED) % 0x1_0000_0000_0000_0000,
    ensures
        x == y,
{
    let inverse: int = 0x2040_003d_7809_70bd;
    let m: int = 0x1_0000_0000_0000_0000;
    lemma_undone(x as int, inverse);
    lemma_undone(y as int, inverse);
    lemma_mul_mod_noop_left(x * SEED, inverse, m);
    lemma_mul_mod_noop_left(y * SEED, inverse, m);
}

/// The inverse of the seed undoes a multiplication by it.
proof fn lemma_undone(x: int, inverse: int)
    requires
        0 <= x < 0x1_0000_0000_0000_0000,
        inverse == 0x2040_003d_7809_70bd,
    ensures
        ((x * SEED) * inverse) % 0x1_0000_0000_0000_0000 == x,
{
    let m: int = 0x1_0000_0000_0000_0000;
    let wraps: int = (SEED * inverse) / m;
    assert(SEED * inverse == wraps * m + 1);
    assert((x * SEED) * inverse == x * (SEED * inverse)) by (nonlinear_arith);
    assert(x * (wraps * m + 1) == m * (x * wraps) + x) by (nonlinear_arith);
    lemma_mod_multiples_vanish(x * wraps, x, m);
    lemma_small_mod(x as nat, m as nat);
}

/// A number from the bytes in a range, the least significant first.
fn le_word(bytes: &[u8], from: usize, to: usize) -> (word: u64)
    requires
        from <= to <= bytes@.len(),
        to - from <= 8,
    ensures
        word == le_number(bytes@.subrange(from as int, to as int)),
{
    let mut word: u64 = 0;
    let mut at: usize = to;
    proof {
        reveal(pow);
    }
    while at > from
        invariant
            from <= at <= to <= bytes@.len(),
            to - from <= 8,
            word == le_number(bytes@.subrange(at as int, to as int)),
            word < pow(256, (to - at) as nat),
        decreases at,
    {
        at = at - 1;
        let ghost rest = bytes@.subrange(at as int, to as int);
        proof {
            assert(rest.drop_first() =~= bytes@.subrange(at + 1, to as int));
            lemma_word_fits((to - at - 1) as nat);
        }
        word = word * 256 + bytes[at] as u64;
    }
    word
}

/// Less than eight bytes leave room for one more.
proof fn lemma_word_fits(n: nat)
    requires
        n < 8,
    ensures
        pow(256, n) <= 0x100_0000_0000_0000,
        pow(256, n + 1) == 256 * pow(256, n),
{
    reveal(pow);
    assert(pow(256, 0) == 1);
    assert(pow(256, 1) == 256);
    assert(pow(256, 2) == 0x1_0000);
    assert(pow(256, 3) == 0x100_0000);
    assert(pow(256, 4) == 0x1_0000_0000);
    assert(pow(256, 5) == 0x100_0000_0000);
    assert(pow(256, 6) == 0x1_0000_0000_0000);
    assert(pow(256, 7) == 0x100_0000_0000_0000);
}

impl FxHasher {
    fn mix(&mut self, word: u64)
        ensures
            final(self)@ == mixed(old(self)@, word),
    {
        let rotated: u64 = (self.hash << 5) | (self.hash >> 59);
        self.hash = (rotated ^ word).wrapping_mul(SEED);
    }
}

impl Hasher for FxHasher {
    fn write(&mut self, bytes: &[u8])
        ensures
            final(self)@ == mixed_bytes(old(self)@, bytes@),
    {
        let mut at: usize = 0;
        assert(bytes@.skip(0) =~= bytes@);
        while at < bytes.len()
            invariant
                at <= bytes@.len(),
                mixed_bytes(self@, bytes@.skip(at as int)) == mixed_bytes(old(self)@, bytes@),
            decreases bytes@.len() - at,
        {
            let end: usize = if bytes.len() - at <= 8 {
                bytes.len()
            } else {
                at + 8
            };
            let word: u64 = le_word(bytes, at, end);
            proof {
                let left = bytes@.skip(at as int);
                if left.len() <= 8 {
                    assert(bytes@.subrange(at as int, end as int) =~= left);
                    assert(bytes@.skip(end as int) =~= Seq::<u8>::empty());
                } else {
                    assert(bytes@.subrange(at as int, end as int) =~= left.take(8));
                    assert(bytes@.skip(end as int) =~= left.skip(8));
                }
            }
            self.mix(word);
            at = end;
        }
    }

    fn write_u64(&mut self, n: u64)
        ensures
            final(self)@ == mixed(old(self)@, n),
    {
        self.mix(n);
    }

    fn write_usize(&mut self, n: usize)
        ensures
            final(self)@ == mixed(old(self)@, n as u64),
    {
        self.mix(n as u64);
    }

    fn finish(&self) -> (hash: u64)
        ensures
            hash == self@,
    {
        self.hash
    }
}

} // verus!
