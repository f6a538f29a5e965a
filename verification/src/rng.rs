//! The pseudo-random generator for rollouts and tie-breaking.
//!
//! A small keyed generator (one 64-bit word of state, advanced by a
//! wrapping add and mixed by a wide multiply) with rejection sampling for
//! unbiased bounded draws.  The game treats it as a capability: produce a
//! uniformly distributed index below a bound, or pick an element of a
//! list.  A fresh session is seeded from the process entropy of the rand
//! crate; everything after the seed is verified code.

use vstd::prelude::*;
use crate::numeric::lemma_word_product_fits;

verus! {

/// Two to the sixty-fourth, the modulus of the generator's state.
pub const WORD_MODULUS: u128 = 0x1_0000_0000_0000_0000;

/// The generator: one word of state.
pub struct Rng {
    state: u64,
}

/// The state advance: a wrapping add of the key constant.
pub open spec fn wy_step(s: u64) -> u64 {
    ((s + 0xA0761D6478BD642F) % (WORD_MODULUS as int)) as u64
}

/// The output mix: the two halves of a wide multiply, folded together.
pub open spec fn wy_out(s: u64) -> u64 {
    let t: u128 = ((s as u128) * ((s ^ 0xE7037ED1A0B428DB) as u128)) as u128;
    ((t % (WORD_MODULUS as u128)) as u64) ^ ((t / (WORD_MODULUS as u128)) as u64)
}

/// The lower word of the wide product, as the rejection test sees it.
pub open spec fn spec_wrap_mul(a: u64, n: u64) -> u64 {
    ((a * n) % (WORD_MODULUS as int)) as u64
}

/// The upper word of the wide product: the value of an accepted draw.
pub open spec fn spec_mul_high(a: u64, n: u64) -> u64 {
    ((a * n) / (WORD_MODULUS as int)) as u64
}

/// The biased residue: draws whose lower product word falls below it
/// are rejected, which makes the bounded draw unbiased.
pub open spec fn spec_threshold(n: u64) -> u64 {
    (((u64::MAX - n) + 1) % (n as int)) as u64
}

/// The state and value after the rejection phase: from state `s`, words
/// are drawn until one's lower product word reaches the threshold, or
/// the given number of draws is spent.
pub open spec fn spec_rejection(s: u64, n: u64, tries: nat) -> (u64, u64)
    decreases tries,
{
    let s2 = wy_step(s);
    let w = wy_out(s2);
    if spec_wrap_mul(w, n) < spec_threshold(n) && tries > 1 {
        spec_rejection(s2, n, (tries - 1) as nat)
    } else {
        (s2, spec_mul_high(w, n))
    }
}

/// The exact state and value of one bounded draw from state `s`: the
/// generator is a pure function of its word of state, so equal seeds
/// give equal draw sequences.
pub open spec fn spec_gen_mod(s: u64, n: u64) -> (u64, u64) {
    let s1 = wy_step(s);
    let w = wy_out(s1);
    if spec_wrap_mul(w, n) < n && spec_wrap_mul(w, n) < spec_threshold(n) {
        spec_rejection(s1, n, u64::MAX as nat)
    } else {
        (s1, spec_mul_high(w, n))
    }
}

/// The upper word of the wide product of two words.
fn mul_high_u64(a: u64, b: u64) -> (r: u64)
    ensures
        r == (a as u128) * (b as u128) / (WORD_MODULUS as int),
        r == spec_mul_high(a, b),
        b > 0 ==> r < b,
{
    proof {
        lemma_word_product_fits(a, b);
    }
    let prod: u128 = (a as u128) * (b as u128);
    proof {
        if b > 0 {
            assert(prod < (b as u128) * WORD_MODULUS) by (nonlinear_arith)
                requires
                    prod == (a as u128) * (b as u128),
                    a < WORD_MODULUS,
                    b > 0,
            ;
            assert(prod / WORD_MODULUS < b) by (nonlinear_arith)
                requires
                    prod < (b as u128) * WORD_MODULUS,
                    b > 0,
            ;
        }
    }
    (prod / WORD_MODULUS) as u64
}

/// Relies on rand::random: one word drawn from the rand crate's
/// thread-local generator, to seed a session.
#[verifier::external_body]
fn entropy_seed() -> u64 {
    rand::random::<u64>()
}

impl Rng {
    /// The current state word.
    pub closed spec fn spec_seed(self) -> u64 {
        self.state
    }

    /// A generator starting from the given seed.
    pub fn with_seed(seed: u64) -> (r: Rng)
        ensures
            r.spec_seed() == seed,
    {
        let mut rng = Rng { state: 0 };
        rng.seed(seed);
        rng
    }

    /// A generator seeded from process entropy.
    pub fn new() -> (r: Rng) {
        Rng::with_seed(entropy_seed())
    }

    /// Rekeys the generator.
    pub fn seed(&mut self, seed: u64)
        ensures
            final(self).spec_seed() == seed,
    {
        self.state = seed;
    }

    /// The current seed, for reproducing a session.
    pub fn get_seed(&self) -> (r: u64)
        ensures
            r == self.spec_seed(),
    {
        self.state
    }

    /// One raw word: advances the state and mixes it into the output.
    fn gen_u64(&mut self) -> (r: u64)
        ensures
            final(self).spec_seed() == wy_step(old(self).spec_seed()),
            r == wy_out(final(self).spec_seed()),
    {
        let s = self.state.wrapping_add(0xA0761D6478BD642F);
        self.state = s;
        proof {
            lemma_word_product_fits(s, s ^ 0xE7037ED1A0B428DB);
        }
        let t: u128 = (s as u128) * ((s ^ 0xE7037ED1A0B428DB) as u128);
        let lo: u64 = (t % WORD_MODULUS) as u64;
        let hi: u64 = (t / WORD_MODULUS) as u64;
        lo ^ hi
    }

    /// A second generator split off from this one's stream.
    pub fn fork(&mut self) -> (r: Rng)
        ensures
            r.spec_seed() == wy_out(wy_step(old(self).spec_seed())),
            final(self).spec_seed() == wy_step(old(self).spec_seed()),
    {
        let word = self.gen_u64();
        Rng::with_seed(word)
    }

    /// An unbiased word below `n`, by the wide-multiply method with
    /// rejection of the biased residue; exactly the draw that
    /// `spec_gen_mod` computes from the current state, so a seeded
    /// session is reproducible.
    #[verifier::loop_isolation(false)]
    fn gen_mod_u64(&mut self, n: u64) -> (r: u64)
        requires
            n > 0,
        ensures
            r < n,
            final(self).spec_seed() == spec_gen_mod(old(self).spec_seed(), n).0,
            r == spec_gen_mod(old(self).spec_seed(), n).1,
    {
        let ghost s0 = self.spec_seed();
        let mut r = self.gen_u64();
        let mut hi = mul_high_u64(r, n);
        let mut lo = r.wrapping_mul(n);
        proof {
            assert(lo == spec_wrap_mul(r, n));
        }
        if lo < n {
            let t = ((u64::MAX - n) + 1) % n;
            proof {
                assert(t == spec_threshold(n));
            }
            let mut attempts: u64 = 0;
            while lo < t && attempts < u64::MAX
                invariant
                    hi < n,
                    r == wy_out(self.spec_seed()),
                    lo == spec_wrap_mul(r, n),
                    hi == spec_mul_high(r, n),
                    if lo < t && attempts < u64::MAX {
                        spec_gen_mod(s0, n) == spec_rejection(
                            self.spec_seed(),
                            n,
                            (u64::MAX - attempts) as nat,
                        )
                    } else {
                        spec_gen_mod(s0, n) == (self.spec_seed(), hi)
                    },
                decreases u64::MAX - attempts,
            {
                let ghost seed_before = self.spec_seed();
                let ghost tries_before = (u64::MAX - attempts) as nat;
                r = self.gen_u64();
                hi = mul_high_u64(r, n);
                lo = r.wrapping_mul(n);
                attempts = attempts + 1;
                proof {
                    assert(lo == spec_wrap_mul(r, n));
                    assert(spec_rejection(seed_before, n, tries_before) == (if spec_wrap_mul(
                        r,
                        n,
                    ) < spec_threshold(n) && tries_before > 1 {
                        spec_rejection(self.spec_seed(), n, (tries_before - 1) as nat)
                    } else {
                        (self.spec_seed(), spec_mul_high(r, n))
                    }));
                }
            }
        }
        hi
    }

    /// A uniformly distributed index below `n`: exactly the draw that
    /// `spec_gen_mod` computes from the current state.
    pub fn gen_index(&mut self, n: usize) -> (r: usize)
        requires
            n > 0,
        ensures
            r < n,
            final(self).spec_seed() == spec_gen_mod(old(self).spec_seed(), n as u64).0,
            r == spec_gen_mod(old(self).spec_seed(), n as u64).1,
    {
        self.gen_mod_u64(n as u64) as usize
    }

    /// A uniformly chosen element of the list, or nothing when the list
    /// is empty: exactly the element at the index `spec_gen_mod` draws
    /// from the current state, so a seeded session repeats its picks.
    pub fn choice<T: Copy>(&mut self, items: &Vec<T>) -> (r: Option<T>)
        ensures
            match r {
                Option::None => items@.len() == 0 && final(self).spec_seed() == old(
                    self,
                ).spec_seed(),
                Option::Some(v) => {
                    &&& items@.len() > 0
                    &&& spec_gen_mod(old(self).spec_seed(), items@.len() as u64).1 < items@.len()
                    &&& v == items@[spec_gen_mod(
                        old(self).spec_seed(),
                        items@.len() as u64,
                    ).1 as int]
                    &&& final(self).spec_seed() == spec_gen_mod(
                        old(self).spec_seed(),
                        items@.len() as u64,
                    ).0
                },
            },
    {
        let len = items.len();
        if len == 0 {
            return Option::None;
        }
        let index = self.gen_index(len);
        Option::Some(items[index])
    }
}

impl Clone for Rng {
    /// A generator continuing from the same state.
    fn clone(&self) -> (r: Rng)
        ensures
            r.spec_seed() == self.spec_seed(),
    {
        Rng { state: self.state }
    }
}

impl Default for Rng {
    /// A generator seeded from process entropy.
    fn default() -> (r: Rng) {
        Rng::new()
    }
}

} // verus!
