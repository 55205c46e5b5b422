//! The seeded random stream feeding every generation stage.
//!
//! The generator is the wyrand step (final v4.2 constants): the 64-bit state
//! advances by a fixed odd constant, and the output folds the 128-bit product
//! of the state and a xor-tweaked copy of it. Every draw is pinned exactly by
//! the contracts below, so a fixed seed yields one reproducible sequence.

use vstd::prelude::*;

verus! {

/// Additive constant of the wyrand state advance.
pub const WY_ADD: u64 = 0x2d35_8dcc_aa6c_78a5;

/// Xor constant of the wyrand output mix.
pub const WY_XOR: u64 = 0x8bb8_4b93_962e_acc9;

/// The state after one wyrand advance: wrapping 64-bit addition.
pub open spec fn wy_advance(s: u64) -> u64 {
    ((s + WY_ADD) % 0x1_0000_0000_0000_0000) as u64
}

/// Fold a 128-bit product to 64 bits: low half xor high half.
pub open spec fn wy_mix(p: int) -> u64 {
    (((p % 0x1_0000_0000_0000_0000) as u64) ^ ((p / 0x1_0000_0000_0000_0000) as u64)) as u64
}

/// The value a wyrand step outputs when the advanced state is `s`.
pub open spec fn wy_output(s: u64) -> u64 {
    wy_mix((s as u128) * ((s ^ WY_XOR) as u128))
}

/// The draw produced by one step from state `s`, reduced to `0..n`.
pub open spec fn wy_draw(s: u64, n: u64) -> u64
    recommends
        n > 0,
{
    (wy_output(wy_advance(s)) % n) as u64
}

/// A seeded pseudo-random stream; one linear sequence of draws per seed.
pub struct RandomStream {
    pub state: u64,
}

impl RandomStream {
    /// Start a stream from a seed; the seed is the initial state.
    pub fn new(seed: u64) -> (r: RandomStream)
        ensures
            r.state == seed,
    {
        RandomStream { state: seed }
    }

    /// One wyrand step: advance the state and return the mixed output.
    pub fn next_u64(&mut self) -> (r: u64)
        ensures
            final(self).state == wy_advance(old(self).state),
            r == wy_output(final(self).state),
    {
        let s: u64 = self.state.wrapping_add(WY_ADD);
        self.state = s;
        let t: u64 = s ^ WY_XOR;
        proof {
            assert((s as int) * (t as int) < 0x1_0000_0000_0000_0000_0000_0000_0000_0000)
                by (nonlinear_arith)
                requires
                    s <= 0xffff_ffff_ffff_ffff,
                    t <= 0xffff_ffff_ffff_ffff,
            ;
        }
        let p: u128 = (s as u128) * (t as u128);
        proof {
            assert(p >> 64 == p / 0x1_0000_0000_0000_0000) by (bit_vector);
            assert(p >> 64 < 0x1_0000_0000_0000_0000) by (bit_vector);
        }
        let lo: u64 = #[verifier::truncate] (p as u64);
        let hi: u64 = (p >> 64) as u64;
        proof {
            assert(#[verifier::truncate] (p as u64) == (p % 0x1_0000_0000_0000_0000) as u64)
                by (bit_vector);
        }
        lo ^ hi
    }

    /// Draw a value in `0..n` by reducing one step's output modulo `n`.
    pub fn next_below(&mut self, n: u64) -> (r: u64)
        requires
            n > 0,
        ensures
            final(self).state == wy_advance(old(self).state),
            r == wy_draw(old(self).state, n),
            r < n,
    {
        let v = self.next_u64();
        v % n
    }

    /// Draw an index into a non-empty collection of `len` elements.
    pub fn next_index(&mut self, len: usize) -> (r: usize)
        requires
            len > 0,
        ensures
            final(self).state == wy_advance(old(self).state),
            r == wy_draw(old(self).state, len as u64),
            r < len,
    {
        self.next_below(len as u64) as usize
    }

    /// Draw an integer in the half-open range `lo..hi`.
    pub fn next_in_range_i64(&mut self, lo: i64, hi: i64) -> (r: i64)
        requires
            lo < hi,
            hi - lo <= 0x7fff_ffff_ffff_ffff,
        ensures
            final(self).state == wy_advance(old(self).state),
            r == lo + wy_draw(old(self).state, (hi - lo) as u64),
            lo <= r < hi,
    {
        let span: u64 = (hi - lo) as u64;
        let off = self.next_below(span);
        lo + off as i64
    }

    /// Draw an unsigned integer in the half-open range `lo..hi`.
    pub fn next_in_range_u32(&mut self, lo: u32, hi: u32) -> (r: u32)
        requires
            lo < hi,
        ensures
            final(self).state == wy_advance(old(self).state),
            r == lo + wy_draw(old(self).state, (hi - lo) as u64),
            lo <= r < hi,
    {
        let off = self.next_below((hi - lo) as u64);
        lo + off as u32
    }
}

} // verus!
