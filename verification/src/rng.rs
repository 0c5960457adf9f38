use rand::rngs::StdRng;
use rand::rngs::ThreadRng;
use rand::Rng;
use rand::SeedableRng;
use vstd::prelude::*;

verus! {

/// The standard generator of `rand`; opaque to the proofs.
#[verifier::external_type_specification]
#[verifier::external_body]
pub struct ExStdRng(StdRng);

/// A generator of `rand` together with what is known of it: the seed it was made
/// from (`None` when it came from the system) and every range asked of it so far,
/// each as its kind (`true` for `usize`, `false` for `u32`) and its bound.
pub struct DrawSource {
    gen: StdRng,
    seed: Ghost<Option<u64>>,
    asked: Ghost<Seq<(bool, u64)>>,
}

impl View for DrawSource {
    type V = (Option<u64>, Seq<(bool, u64)>);

    closed spec fn view(&self) -> Self::V {
        (self.seed@, self.asked@)
    }
}

/// The value `gen_range(0..n)` on `u32` gives for a `StdRng` made by
/// `seed_from_u64(seed)` after the ranges `before` were asked of it, where `usize`
/// has `bits` bits (a `usize` range reads 32 or 64 bits of the stream per try). The
/// generator and the samplers read nothing but the stream, so with the version of
/// `rand` this crate is built with the value depends on these arguments alone.
pub uninterp spec fn seeded_u32(seed: u64, before: Seq<(bool, u64)>, n: u32, bits: u32) -> u32;

/// The value `gen_range(0..n)` on `usize` gives for a `StdRng` made by
/// `seed_from_u64(seed)` after the ranges `before` were asked of it, where `usize`
/// has `bits` bits.
pub uninterp spec fn seeded_usize(seed: u64, before: Seq<(bool, u64)>, n: usize, bits: u32) -> usize;

/// `SeedableRng::seed_from_u64` for `StdRng`: a generator whose stream is fixed by
/// `seed` (the source derives the key from the seed alone); nothing has been asked
/// of it yet.
#[verifier::external_body]
pub(crate) fn rng_from_seed(seed: u64) -> (r: DrawSource)
    ensures
        r@ == (Some(seed), Seq::<(bool, u64)>::empty()),
{
    DrawSource { gen: StdRng::seed_from_u64(seed), seed: Ghost(Some(seed)), asked: Ghost(Seq::empty()) }
}

/// `SeedableRng::from_entropy` for `StdRng`: a generator seeded from the operating
/// system, so no seed is known; nothing has been asked of it yet.
#[verifier::external_body]
pub(crate) fn rng_from_entropy() -> (r: DrawSource)
    ensures
        r@ == (None::<u64>, Seq::<(bool, u64)>::empty()),
{
    DrawSource { gen: StdRng::from_entropy(), seed: Ghost(None), asked: Ghost(Seq::empty()) }
}

/// `Rng::gen_range(0..n)` on `u32` (the same sampler serves `i32`): the value lies
/// in `0..n`; the source panics on an empty range, hence `n > 0`. For a seeded
/// generator it is the value named by `seeded_u32`, since the sampler reads the
/// stream alone; the range is added to what was asked.
#[verifier::external_body]
pub(crate) fn rng_below_u32(src: &mut DrawSource, n: u32) -> (r: u32)
    requires
        n > 0,
    ensures
        r < n,
        final(src)@ == (old(src)@.0, old(src)@.1.push((false, n as u64))),
        old(src)@.0 matches Some(s) ==> r == seeded_u32(s, old(src)@.1, n, usize::BITS),
{
    src.gen.gen_range(0..n)
}

/// `Rng::gen_range(0..n)` on `usize`: the value lies in `0..n`; the source panics
/// on an empty range, hence `n > 0`. For a seeded generator it is the value named
/// by `seeded_usize`; the range is added to what was asked.
#[verifier::external_body]
pub(crate) fn rng_below_usize(src: &mut DrawSource, n: usize) -> (r: usize)
    requires
        n > 0,
    ensures
        r < n,
        final(src)@ == (old(src)@.0, old(src)@.1.push((true, n as u64))),
        old(src)@.0 matches Some(s) ==> r == seeded_usize(s, old(src)@.1, n, usize::BITS),
{
    src.gen.gen_range(0..n)
}

/// The thread-local generator of `rand`; opaque to the proofs.
#[verifier::external_type_specification]
#[verifier::external_body]
pub struct ExThreadRng(ThreadRng);

/// `rand::thread_rng`: a handle on the generator of the current thread, seeded from
/// the operating system. Nothing is claimed of the stream.
#[verifier::external_body]
pub(crate) fn rng_thread() -> ThreadRng {
    rand::thread_rng()
}

/// `Rng::gen_range(0..n)` on `usize` with the thread generator: the value lies in
/// `0..n`; the source panics on an empty range, hence `n > 0`. Which value comes out
/// is left open.
#[verifier::external_body]
pub(crate) fn thread_below_usize(rng: &mut ThreadRng, n: usize) -> (r: usize)
    requires
        n > 0,
    ensures
        r < n,
{
    rng.gen_range(0..n)
}

} // verus!
