//! Reproducible test data: vectors of pseudo-random `u32` values.
use vstd::prelude::*;
use rand::distributions::Standard;
use rand::{Rng, SeedableRng};
use rand_pcg::Pcg64Mcg;

verus! {

/// `rand_pcg::Pcg64Mcg`, the `pcg64_fast` generator. Verus sees nothing
/// inside it.
#[verifier::external_type_specification]
#[verifier::external_body]
pub struct ExPcg64Mcg(Pcg64Mcg);

/// The 128 bits of state that a generator holds. What it yields next, and
/// the state it then has, depend on nothing else.
pub uninterp spec fn state_of(rng: Pcg64Mcg) -> u128;

/// The state of the generator that `Pcg64Mcg::from_seed` makes of a seed.
pub uninterp spec fn seeded_state(seed: Seq<u8>) -> u128;

/// The state that follows `state` when one `u32` is drawn, and the value
/// drawn.
pub uninterp spec fn drawn_from(state: u128) -> (u128, u32);

/// The state of a generator that began in `state`, after `n` draws.
pub open spec fn state_after(state: u128, n: nat) -> u128
    decreases n,
{
    if n == 0 {
        state
    } else {
        drawn_from(state_after(state, (n - 1) as nat)).0
    }
}

/// The first `n` values drawn from a generator in `state`.
pub open spec fn stream(state: u128, n: nat) -> Seq<u32> {
    Seq::new(n, |i: int| drawn_from(state_after(state, i as nat)).1)
}

/// The seed of sixteen zero bytes.
pub open spec fn zero_seed() -> Seq<u8> {
    Seq::new(16, |i: int| 0u8)
}

/// A generator made of `seed`.
///
/// Trusted: the body calls `Pcg64Mcg::from_seed`, which reads the seed as a
/// little-endian number and never fails; its state depends on the seed
/// alone.
#[verifier::external_body]
fn seeded(seed: [u8; 16]) -> (rng: Pcg64Mcg)
    ensures
        state_of(rng) == seeded_state(seed@),
{
    Pcg64Mcg::from_seed(seed)
}

/// Draws the next `u32`.
///
/// Trusted: the body calls `Rng::sample` with the `Standard` distribution,
/// which for `u32` takes one `next_u32` of the generator: the state is
/// multiplied by a constant and the value is computed from the new state.
#[verifier::external_body]
fn draw(rng: &mut Pcg64Mcg) -> (value: u32)
    ensures
        (state_of(*final(rng)), value) == drawn_from(state_of(*old(rng))),
{
    rng.sample(&Standard)
}

/// A vector of `n` pseudo-random values, the same at every call: the first
/// `n` that the generator yields when seeded with sixteen zero bytes.
///
/// The vector must be one that can be allocated: `4 * n` bytes within
/// `isize::MAX`.
pub fn new_u32_vec(n: usize) -> (v: Vec<u32>)
    requires
        4 * n <= isize::MAX,
    ensures
        v@ == stream(seeded_state(zero_seed()), n as nat),
{
    let seed: [u8; 16] = [0; 16];
    assert(seed@ =~= zero_seed());
    let mut rng = seeded(seed);
    let mut v: Vec<u32> = Vec::with_capacity(n);
    let ghost start = seeded_state(zero_seed());
    let mut i: usize = 0;
    assert(v@ =~= stream(start, 0));
    while i < n
        invariant
            i <= n,
            v@ == stream(start, i as nat),
            state_of(rng) == state_after(start, i as nat),
        decreases n - i,
    {
        let value = draw(&mut rng);
        v.push(value);
        i += 1;
        assert(v@ =~= stream(start, i as nat));
    }
    v
}

} // verus!
