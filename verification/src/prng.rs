//! A small permuted congruential generator. Every draw is a function of the
//! generator's state, so a world made from one seed is always the same world.

use vstd::prelude::*;

verus! {

pub const PCG_MULTIPLIER: u64 = 6364136223846793005;

pub const PCG_INCREMENT: u64 = 1442695040888963407;

/// The state that follows `state`.
pub open spec fn advance(state: u64) -> u64 {
    state.wrapping_mul(PCG_MULTIPLIER).wrapping_add(PCG_INCREMENT)
}

/// The 32 bits that a generator in `state` hands out: the upper bits of the
/// state, folded once and rotated right by the top five bits.
pub open spec fn output(state: u64) -> u32 {
    let folded: u32 = (((state >> 18) ^ state) >> 27) as u32;
    let turn: u32 = (state >> 59) as u32;
    if turn == 0 {
        folded
    } else {
        (folded >> turn) | (folded << ((32 - turn) as u32))
    }
}

/// The state after `n` draws from `state`.
pub open spec fn advance_by(state: u64, n: nat) -> u64
    decreases n,
{
    if n == 0 {
        state
    } else {
        advance_by(advance(state), (n - 1) as nat)
    }
}

/// Where the raw draw `raw` falls in `lo..=hi`: the range is cut into
/// `hi - lo + 1` equal parts of the 2^32 raw values.
pub open spec fn spread(lo: u32, hi: u32, raw: u32) -> int {
    lo + (raw * (hi - lo + 1)) / 0x1_0000_0000
}

/// The raw draw falls into the range.
pub proof fn lemma_spread_in_range(lo: u32, hi: u32, raw: u32)
    requires
        lo <= hi,
    ensures
        lo <= spread(lo, hi, raw) <= hi,
{
    let width: int = hi - lo + 1;
    assert(0 <= raw * width < 0x1_0000_0000 * width) by (nonlinear_arith)
        requires
            0 <= raw < 0x1_0000_0000,
            width > 0,
    ;
    assert(0 <= (raw * width) / 0x1_0000_0000 < width) by (nonlinear_arith)
        requires
            0 <= raw * width < 0x1_0000_0000 * width,
    ;
}

/// Advancing by `a` draws and then by `b` is advancing by `a + b`.
pub proof fn lemma_advance_by_add(state: u64, a: nat, b: nat)
    ensures
        advance_by(advance_by(state, a), b) == advance_by(state, a + b),
    decreases a,
{
    if a > 0 {
        lemma_advance_by_add(advance(state), (a - 1) as nat, b);
    }
}

/// The draws that a generator in `state` hands out next, `n` of them.
pub open spec fn draws(state: u64, n: nat) -> Seq<u32> {
    Seq::new(n, |i: int| output(advance_by(state, i as nat)))
}

/// A generator that is stored and brought back goes on as it would have:
/// what it hands out hangs on its state alone.
pub proof fn lemma_same_state_same_draws(a: PCG32, b: PCG32, n: nat)
    requires
        a.state == b.state,
    ensures
        draws(a.state, n) == draws(b.state, n),
        a.after_n(n) == b.after_n(n),
        a == b,
{
}

/// The generator: 64 bits of state.
#[derive(Debug, Clone, Copy, PartialEq, Eq, Structural)]
pub struct PCG32 {
    pub state: u64,
}

impl Default for PCG32 {
    fn default() -> (r: Self)
        ensures
            r == PCG32::spec_new(0),
    {
        PCG32::new(0)
    }
}

impl PCG32 {
    /// A generator started from `seed`.
    pub open spec fn spec_new(seed: u64) -> PCG32 {
        PCG32 { state: advance(seed.wrapping_add(PCG_INCREMENT)) }
    }

    /// A generator started from `seed`.
    #[verifier::when_used_as_spec(spec_new)]
    pub fn new(seed: u64) -> (r: PCG32)
        ensures
            r == Self::spec_new(seed),
    {
        let s: u64 = seed.wrapping_add(PCG_INCREMENT);
        PCG32 { state: s.wrapping_mul(PCG_MULTIPLIER).wrapping_add(PCG_INCREMENT) }
    }

    /// The generator after one draw.
    pub open spec fn after(self) -> PCG32 {
        PCG32 { state: advance(self.state) }
    }

    /// The generator after `n` draws.
    pub open spec fn after_n(self, n: nat) -> PCG32 {
        PCG32 { state: advance_by(self.state, n) }
    }

    /// The next 32 bits.
    pub fn next_u32(&mut self) -> (r: u32)
        ensures
            r == output(old(self).state),
            *final(self) == old(self).after(),
    {
        let s: u64 = self.state;
        self.state = s.wrapping_mul(PCG_MULTIPLIER).wrapping_add(PCG_INCREMENT);
        let folded: u32 = (((s >> 18) ^ s) >> 27) as u32;
        let turn: u32 = (s >> 59) as u32;
        assert(turn < 32) by (bit_vector)
            requires
                turn == (s >> 59) as u32,
        ;
        if turn == 0 {
            folded
        } else {
            (folded >> turn) | (folded << (32 - turn))
        }
    }

    /// A number in `lo..=hi`, from one draw.
    pub fn roll(&mut self, lo: u32, hi: u32) -> (r: u32)
        requires
            lo <= hi,
        ensures
            r == spread(lo, hi, output(old(self).state)),
            lo <= r <= hi,
            *final(self) == old(self).after(),
    {
        let raw: u32 = self.next_u32();
        let width: u64 = (hi - lo) as u64 + 1;
        proof {
            lemma_spread_in_range(lo, hi, raw);
            assert(0 <= raw * width < 0x1_0000_0000 * 0x1_0000_0000) by (nonlinear_arith)
                requires
                    0 <= raw < 0x1_0000_0000,
                    0 < width <= 0x1_0000_0000,
            ;
        }
        let part: u64 = (raw as u64 * width) / 0x1_0000_0000;
        lo + part as u32
    }
}

/// Where the raw draw `raw` falls in `1..=n`.
pub open spec fn step_of(n: i32, raw: u32) -> int {
    spread(1, n as u32, raw)
}

/// A roll of a die with `n` sides: a number in `1..=n`, from one draw.
pub fn step(gen: &mut PCG32, n: i32) -> (r: i32)
    requires
        n >= 1,
    ensures
        r == step_of(n, output(old(gen).state)),
        1 <= r <= n,
        *final(gen) == old(gen).after(),
{
    let r: u32 = gen.roll(1, n as u32);
    r as i32
}

} // verus!
