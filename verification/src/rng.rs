//! Xoshiro256+ pseudo-random generator, deterministic given a seed.
//!
//! The state is four `u64` words initialised via SplitMix64, so that a single
//! `u64` seed expands into a full 256-bit state.  The state is never all-zero
//! (the one state Xoshiro256+ cannot leave), which is the type invariant of
//! [`Rng`].
use vstd::prelude::*;
use vstd::wrapping::u64_specs;
use vstd::arithmetic::div_mod::{lemma_mul_mod_noop_left, lemma_mul_mod_noop_right};
use vstd::arithmetic::mul::lemma_mul_is_associative;

verus! {

/// The four words of a Xoshiro256+ state.
pub type RngState = (u64, u64, u64, u64);

/// Increment of the SplitMix64 counter (the 64-bit golden ratio).
pub const SPLITMIX_GAMMA: u64 = 0x9e3779b97f4a7c15;

/// First multiplier of the SplitMix64 finalizer.
pub const MIX_MUL_1: u64 = 0xbf58476d1ce4e5b9;

/// Second multiplier of the SplitMix64 finalizer.
pub const MIX_MUL_2: u64 = 0x94d049bb133111eb;

/// How many draws beyond the first `choice_index` makes before it settles
/// for the last draw when every one of them was rejected.
pub const DRAW_BUDGET: u64 = 0xffff_ffff_ffff_ffff;

/// `x` rotated left by 45 bits.
pub open spec fn rotate_left_45(x: u64) -> u64 {
    (x << 45u32) | (x >> 19u32)
}

/// The SplitMix64 output finalizer applied to a counter value.
pub open spec fn splitmix_finalize(z: u64) -> u64 {
    let a = u64_specs::wrapping_mul(z ^ (z >> 30u64), MIX_MUL_1);
    let b = u64_specs::wrapping_mul(a ^ (a >> 27u64), MIX_MUL_2);
    b ^ (b >> 31u64)
}

/// The SplitMix64 counter after `k` increments from `seed` (modulo 2^64).
pub open spec fn splitmix_counter(seed: u64, k: nat) -> u64
    decreases k,
{
    if k == 0 {
        seed
    } else {
        u64_specs::wrapping_add(splitmix_counter(seed, (k - 1) as nat), SPLITMIX_GAMMA)
    }
}

/// The state that seeding with `seed` produces: the first four SplitMix64
/// outputs.
pub open spec fn seeded_state(seed: u64) -> RngState {
    (
        splitmix_finalize(splitmix_counter(seed, 1)),
        splitmix_finalize(splitmix_counter(seed, 2)),
        splitmix_finalize(splitmix_counter(seed, 3)),
        splitmix_finalize(splitmix_counter(seed, 4)),
    )
}

/// The state is not all-zero.
pub open spec fn state_nonzero(s: RngState) -> bool {
    s.0 != 0 || s.1 != 0 || s.2 != 0 || s.3 != 0
}

/// The Xoshiro256+ output of a state: the wrapping sum of its first and
/// last words.
pub open spec fn xoshiro_output(s: RngState) -> u64 {
    u64_specs::wrapping_add(s.0, s.3)
}

/// The Xoshiro256+ state transition, in closed form.
pub open spec fn xoshiro_step(s: RngState) -> RngState {
    (
        s.0 ^ s.1 ^ s.3,
        s.0 ^ s.1 ^ s.2,
        s.0 ^ s.2 ^ (s.1 << 17u64),
        rotate_left_45(s.1 ^ s.3),
    )
}

/// The upper 53 bits of an output: the numerator of a uniform sample of
/// `[0, 1)` with spacing 2^-53.
pub open spec fn upper_53_bits(out: u64) -> u64 {
    out >> 11u64
}

/// The rejection threshold of `choice_index`: the largest multiple of `len`
/// that fits in a `u64`.
pub open spec fn rejection_threshold(len: u64) -> u64
    recommends
        len > 0,
{
    (u64::MAX - u64::MAX % len) as u64
}

/// Draws from `s` until a draw falls below `threshold`, with at most
/// `budget` draws after the first; returns the last draw and the state after
/// it.
pub open spec fn draw_below(s: RngState, threshold: u64, budget: nat) -> (u64, RngState)
    decreases budget,
{
    let r = xoshiro_output(s);
    let next = xoshiro_step(s);
    if r < threshold || budget == 0 {
        (r, next)
    } else {
        draw_below(next, threshold, (budget - 1) as nat)
    }
}

/// The index `choice_index(len)` returns from state `s`.
pub open spec fn chosen_index(s: RngState, len: u64) -> u64
    recommends
        len > 0,
{
    draw_below(s, rejection_threshold(len), DRAW_BUDGET as nat).0 % len
}

/// The state `choice_index(len)` leaves behind, from state `s`.
pub open spec fn state_after_choice(s: RngState, len: u64) -> RngState {
    draw_below(s, rejection_threshold(len), DRAW_BUDGET as nat).1
}

/// The xorshift steps of the finalizer are injective.
proof fn lemma_xorshift_injective(a: u64, b: u64)
    ensures
        (a ^ (a >> 30u64)) == (b ^ (b >> 30u64)) ==> a == b,
        (a ^ (a >> 27u64)) == (b ^ (b >> 27u64)) ==> a == b,
        (a ^ (a >> 31u64)) == (b ^ (b >> 31u64)) ==> a == b,
{
    assert((a ^ (a >> 30u64)) == (b ^ (b >> 30u64)) ==> a == b) by (bit_vector);
    assert((a ^ (a >> 27u64)) == (b ^ (b >> 27u64)) ==> a == b) by (bit_vector);
    assert((a ^ (a >> 31u64)) == (b ^ (b >> 31u64)) ==> a == b) by (bit_vector);
}

/// Multiplying back by the inverse of a unit modulo 2^64 recovers the factor.
proof fn lemma_unit_mul_cancel(y: u64, c: u64, c_inv: u64)
    requires
        (c as int * c_inv as int) % 0x1_0000_0000_0000_0000int == 1,
    ensures
        (u64_specs::wrapping_mul(y, c) as int * c_inv as int) % 0x1_0000_0000_0000_0000int
            == y as int,
{
    let m: int = 0x1_0000_0000_0000_0000int;
    let yc: int = y as int * c as int;
    assert(u64_specs::wrapping_mul(y, c) as int == yc % m);
    lemma_mul_mod_noop_left(yc, c_inv as int, m);
    lemma_mul_is_associative(y as int, c as int, c_inv as int);
    lemma_mul_mod_noop_right(y as int, c as int * c_inv as int, m);
    assert((y as int * 1) % m == y as int);
}

/// Multiplication modulo 2^64 by a unit is injective.
proof fn lemma_unit_mul_injective(y1: u64, y2: u64, c: u64, c_inv: u64)
    requires
        (c as int * c_inv as int) % 0x1_0000_0000_0000_0000int == 1,
        u64_specs::wrapping_mul(y1, c) == u64_specs::wrapping_mul(y2, c),
    ensures
        y1 == y2,
{
    lemma_unit_mul_cancel(y1, c, c_inv);
    lemma_unit_mul_cancel(y2, c, c_inv);
}

/// The SplitMix64 finalizer is injective, hence a bijection of `u64`:
/// distinct counter values always give distinct outputs.
pub proof fn lemma_finalize_injective(z1: u64, z2: u64)
    ensures
        splitmix_finalize(z1) == splitmix_finalize(z2) ==> z1 == z2,
{
    let a1 = u64_specs::wrapping_mul(z1 ^ (z1 >> 30u64), MIX_MUL_1);
    let b1 = u64_specs::wrapping_mul(a1 ^ (a1 >> 27u64), MIX_MUL_2);
    let a2 = u64_specs::wrapping_mul(z2 ^ (z2 >> 30u64), MIX_MUL_1);
    let b2 = u64_specs::wrapping_mul(a2 ^ (a2 >> 27u64), MIX_MUL_2);
    if splitmix_finalize(z1) == splitmix_finalize(z2) {
        lemma_xorshift_injective(b1, b2);
        assert((MIX_MUL_2 as int * 0x319642b2d24d8ec3int) % 0x1_0000_0000_0000_0000int == 1);
        lemma_unit_mul_injective(a1 ^ (a1 >> 27u64), a2 ^ (a2 >> 27u64), MIX_MUL_2, 0x319642b2d24d8ec3u64);
        lemma_xorshift_injective(a1, a2);
        assert((MIX_MUL_1 as int * 0x96de1b173f119089int) % 0x1_0000_0000_0000_0000int == 1);
        lemma_unit_mul_injective(z1 ^ (z1 >> 30u64), z2 ^ (z2 >> 30u64), MIX_MUL_1, 0x96de1b173f119089u64);
        lemma_xorshift_injective(z1, z2);
    }
}

/// A SplitMix64 step is injective in its counter: distinct counter values
/// always give distinct outputs.
pub proof fn lemma_splitmix_step_injective(x1: u64, x2: u64)
    ensures
        splitmix_finalize(u64_specs::wrapping_add(x1, SPLITMIX_GAMMA)) == splitmix_finalize(
            u64_specs::wrapping_add(x2, SPLITMIX_GAMMA),
        ) ==> x1 == x2,
{
    lemma_finalize_injective(
        u64_specs::wrapping_add(x1, SPLITMIX_GAMMA),
        u64_specs::wrapping_add(x2, SPLITMIX_GAMMA),
    );
}

/// The SplitMix64 finalizer maps only zero to zero.
pub proof fn lemma_finalize_zero(z: u64)
    ensures
        splitmix_finalize(z) == 0 ==> z == 0,
{
    lemma_finalize_injective(z, 0);
    assert((0u64 ^ (0u64 >> 30u64)) == 0u64 && (0u64 ^ (0u64 >> 27u64)) == 0u64 && (0u64 ^ (0u64
        >> 31u64)) == 0u64) by (bit_vector);
    assert(u64_specs::wrapping_mul(0u64, MIX_MUL_1) == 0);
    assert(u64_specs::wrapping_mul(0u64, MIX_MUL_2) == 0);
}

/// Seeding never yields the all-zero state, whatever the seed.
pub proof fn lemma_seeded_state_nonzero(seed: u64)
    ensures
        state_nonzero(seeded_state(seed)),
{
    let c1 = splitmix_counter(seed, 1);
    let c2 = splitmix_counter(seed, 2);
    assert(c2 == u64_specs::wrapping_add(c1, SPLITMIX_GAMMA));
    lemma_finalize_zero(c1);
    lemma_finalize_zero(c2);
}

/// The Xoshiro256+ transition never reaches the all-zero state from another
/// state.
pub proof fn lemma_step_preserves_nonzero(s: RngState)
    requires
        state_nonzero(s),
    ensures
        state_nonzero(xoshiro_step(s)),
{
    let (a, b, c, d) = s;
    assert((a ^ b ^ d) == 0u64 && (a ^ b ^ c) == 0u64 && (a ^ c ^ (b << 17u64)) == 0u64
        && ((b ^ d) << 45u32) | ((b ^ d) >> 19u32) == 0u64 ==> a == 0u64 && b == 0u64 && c == 0u64
        && d == 0u64) by (bit_vector);
}

/// The state after `k` Xoshiro256+ transitions from `s`.
pub open spec fn state_after_steps(s: RngState, k: nat) -> RngState
    decreases k,
{
    if k == 0 {
        s
    } else {
        xoshiro_step(state_after_steps(s, (k - 1) as nat))
    }
}

/// A seeded generator never reaches the all-zero state, however many
/// outputs it has produced.
pub proof fn lemma_seeded_stream_nonzero(seed: u64, k: nat)
    ensures
        state_nonzero(state_after_steps(seeded_state(seed), k)),
    decreases k,
{
    if k == 0 {
        lemma_seeded_state_nonzero(seed);
    } else {
        lemma_seeded_stream_nonzero(seed, (k - 1) as nat);
        lemma_step_preserves_nonzero(state_after_steps(seeded_state(seed), (k - 1) as nat));
    }
}

/// The Xoshiro256+ transition is injective, so it permutes the states: from
/// any state the stream is purely periodic, and no two states lead into the
/// same one.
pub proof fn lemma_step_injective(s: RngState, t: RngState)
    ensures
        xoshiro_step(s) == xoshiro_step(t) ==> s == t,
{
    let (a, b, c, d) = s;
    let (e, f, g, h) = t;
    assert(((b ^ d) << 45u32) | ((b ^ d) >> 19u32) == ((f ^ h) << 45u32) | ((f ^ h) >> 19u32)
        ==> (b ^ d) == (f ^ h)) by (bit_vector);
    assert((b ^ d) == (f ^ h) && (a ^ b ^ d) == (e ^ f ^ h) ==> a == e) by (bit_vector);
    assert(a == e && (a ^ b ^ c) == (e ^ f ^ g) && (a ^ c ^ (b << 17u64)) == (e ^ g ^ (f << 17u64))
        ==> b == f && c == g) by (bit_vector);
    assert((b ^ d) == (f ^ h) && b == f ==> d == h) by (bit_vector);
}

/// The sequential Xoshiro256+ update equals its closed form.
proof fn lemma_step_closed_form(s0: u64, s1: u64, s2: u64, s3: u64)
    ensures
        s0 ^ (s3 ^ s1) == s0 ^ s1 ^ s3,
        s1 ^ (s2 ^ s0) == s0 ^ s1 ^ s2,
        (s2 ^ s0) ^ (s1 << 17u64) == s0 ^ s2 ^ (s1 << 17u64),
        s3 ^ s1 == s1 ^ s3,
{
    assert(s0 ^ (s3 ^ s1) == s0 ^ s1 ^ s3) by (bit_vector);
    assert(s1 ^ (s2 ^ s0) == s0 ^ s1 ^ s2) by (bit_vector);
    assert((s2 ^ s0) ^ (s1 << 17u64) == s0 ^ s2 ^ (s1 << 17u64)) by (bit_vector);
    assert(s3 ^ s1 == s1 ^ s3) by (bit_vector);
}

/// The rejection threshold is a positive multiple of `len`, and the largest
/// one that fits in a `u64`: every residue modulo `len` has the same number of
/// accepted draws, so `choice_index` has no modulo bias.
pub proof fn lemma_rejection_threshold(len: u64)
    requires
        len > 0,
    ensures
        rejection_threshold(len) % len == 0,
        rejection_threshold(len) >= len,
        rejection_threshold(len) as int + len as int > u64::MAX as int,
{
    let m: int = u64::MAX as int;
    let q: int = m / len as int;
    let r: int = m % len as int;
    assert(m == q * len + r && 0 <= r < len) by (nonlinear_arith)
        requires
            len > 0,
            q == m / len as int,
            r == m % len as int,
    ;
    assert(q >= 1) by (nonlinear_arith)
        requires
            m == q * len + r,
            0 <= r < len,
            len <= m,
    ;
    assert(rejection_threshold(len) as int == q * len);
    assert((q * len) % len as int == 0) by (nonlinear_arith)
        requires
            len > 0,
    ;
    assert(q * len >= len) by (nonlinear_arith)
        requires
            q >= 1,
            len > 0,
    ;
}

/// One SplitMix64 step: advances the counter and returns its finalized value.
/// Distinct counter values give distinct outputs
/// (`lemma_splitmix_step_injective`).
fn splitmix64(x: &mut u64) -> (out: u64)
    ensures
        *final(x) == u64_specs::wrapping_add(*old(x), SPLITMIX_GAMMA),
        out == splitmix_finalize(*final(x)),
{
    *x = x.wrapping_add(SPLITMIX_GAMMA);
    let mut z: u64 = *x;
    z = (z ^ (z >> 30)).wrapping_mul(MIX_MUL_1);
    z = (z ^ (z >> 27)).wrapping_mul(MIX_MUL_2);
    z ^ (z >> 31)
}

/// Xoshiro256+ generator.
pub struct Rng {
    s: [u64; 4],
}

impl View for Rng {
    type V = RngState;

    closed spec fn view(&self) -> RngState {
        (self.s[0], self.s[1], self.s[2], self.s[3])
    }
}

impl Rng {
    #[verifier::type_invariant]
    spec fn state_is_valid(self) -> bool {
        state_nonzero(self@)
    }

    /// Seeds the generator from a single `u64` via SplitMix64.
    pub fn new(seed: u64) -> (rng: Self)
        ensures
            rng@ == seeded_state(seed),
            state_nonzero(rng@),
    {
        let mut s: u64 = seed;
        let a: u64 = splitmix64(&mut s);
        let b: u64 = splitmix64(&mut s);
        let c: u64 = splitmix64(&mut s);
        let d: u64 = splitmix64(&mut s);
        proof {
            reveal_with_fuel(splitmix_counter, 5);
            lemma_seeded_state_nonzero(seed);
        }
        let rng = Rng { s: [a, b, c, d] };
        assert(rng@ == seeded_state(seed));
        rng
    }

    /// Xoshiro256+ output step.
    pub fn next_u64(&mut self) -> (result: u64)
        ensures
            result == xoshiro_output(old(self)@),
            final(self)@ == xoshiro_step(old(self)@),
            state_nonzero(final(self)@),
    {
        proof {
            use_type_invariant(&*self);
        }
        let s0: u64 = self.s[0];
        let s1: u64 = self.s[1];
        let s2: u64 = self.s[2];
        let s3: u64 = self.s[3];
        let result: u64 = s0.wrapping_add(s3);
        let t: u64 = s1 << 17;
        let n2: u64 = s2 ^ s0;
        let n3: u64 = s3 ^ s1;
        let n1: u64 = s1 ^ n2;
        let n0: u64 = s0 ^ n3;
        let n2: u64 = n2 ^ t;
        let n3: u64 = (n3 << 45) | (n3 >> 19);
        proof {
            lemma_step_closed_form(s0, s1, s2, s3);
            lemma_step_preserves_nonzero(self@);
        }
        self.s = [n0, n1, n2, n3];
        result
    }

    /// The upper 53 bits of the next output.  Multiplied by 2^-53 they give
    /// a uniform sample of `[0, 1)` with spacing 2^-53 (every value below 2^53
    /// is exactly representable as an `f64`).
    pub fn next_53_bits(&mut self) -> (bits: u64)
        ensures
            bits == upper_53_bits(xoshiro_output(old(self)@)),
            final(self)@ == xoshiro_step(old(self)@),
            state_nonzero(final(self)@),
            bits < 0x20_0000_0000_0000,
    {
        let out: u64 = self.next_u64();
        assert(out >> 11u64 < 0x20_0000_0000_0000u64) by (bit_vector);
        out >> 11
    }

    /// A uniform random index in `0..len`, by rejection sampling so that no
    /// index is favoured: a draw at or above the largest multiple of `len`
    /// that fits in a `u64` is rejected and drawn again.  After
    /// `DRAW_BUDGET` rejections in a row the last draw is taken as it is.
    pub fn choice_index(&mut self, len: usize) -> (idx: usize)
        requires
            len > 0,
        ensures
            idx < len,
            idx as u64 == chosen_index(old(self)@, len as u64),
            final(self)@ == state_after_choice(old(self)@, len as u64),
            state_nonzero(final(self)@),
    {
        proof {
            use_type_invariant(&*self);
        }
        let len64: u64 = len as u64;
        let threshold: u64 = u64::MAX - (u64::MAX % len64);
        let ghost start: RngState = self@;
        let mut remaining: u64 = DRAW_BUDGET;
        loop
            invariant
                len64 == len as u64,
                len64 > 0,
                threshold == rejection_threshold(len64),
                draw_below(self@, threshold, remaining as nat) == draw_below(
                    start,
                    threshold,
                    DRAW_BUDGET as nat,
                ),
                start == old(self)@,
                state_nonzero(self@),
            decreases remaining,
        {
            let ghost before: RngState = self@;
            let r: u64 = self.next_u64();
            if r < threshold || remaining == 0 {
                assert(draw_below(before, threshold, remaining as nat) == (r, self@));
                return (r % len64) as usize;
            }
            remaining = remaining - 1;
        }
    }

    /// A random element of a non-empty slice, at index `choice_index(len)`.
    pub fn choice<'a, T>(&mut self, slice: &'a [T]) -> (item: &'a T)
        requires
            slice@.len() > 0,
        ensures
            *item == slice@[chosen_index(old(self)@, slice@.len() as u64) as int],
            final(self)@ == state_after_choice(old(self)@, slice@.len() as u64),
            state_nonzero(final(self)@),
    {
        let i: usize = self.choice_index(slice.len());
        &slice[i]
    }
}

} // verus!
