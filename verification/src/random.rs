//! The source of randomness that the generator draws from.
//!
//! The maze generator is verified for every order that a shuffle may
//! produce; only the calls into the `rand` crate below are taken on trust.
//! What a seeding and a shuffle return is named, not written out: the same
//! generator gives the same orders, and so the same maze.

use crate::direction::Direction;
use vstd::prelude::*;
use vstd::seq_lib::{to_multiset_contains, to_multiset_len};

verus! {

/// The generator of `rand` that the library draws from. Nothing of its state
/// is visible to the proofs.
#[verifier::external_type_specification]
#[verifier::external_body]
pub struct ExStdRng(rand::rngs::StdRng);

/// The error of `rand` that reports a failing source. Nothing of it is read.
#[verifier::external_type_specification]
#[verifier::external_body]
pub struct ExRandError(rand::Error);

/// Why no maze could be generated.
#[derive(Clone, Copy, Debug, PartialEq, Eq, Structural)]
pub enum GenerationError {
    /// The operating system gave no random bytes to seed a generator with.
    RandomSourceUnavailable,
}

/// The generator that `rand::SeedableRng::seed_from_u64` makes for `StdRng`
/// from the seed `seed`.
pub uninterp spec fn seeded_generator(seed: u64) -> rand::rngs::StdRng;

/// Calls `rand::SeedableRng::seed_from_u64` for `StdRng`. The claim is that
/// the generator that comes back is decided by the seed alone: the call
/// expands the seed by fixed arithmetic and reads nothing else.
#[verifier::external_body]
fn rng_from_seed(seed: u64) -> (rng: rand::rngs::StdRng)
    ensures
        rng == seeded_generator(seed),
{
    rand::SeedableRng::seed_from_u64(seed)
}

/// Calls `rand::SeedableRng::from_rng` for `StdRng` on `rand::rngs::OsRng`,
/// which asks the operating system for the seed and hands on its failure as
/// an error. Nothing is claimed of the outcome.
#[verifier::external_body]
fn rng_from_os() -> (made: Result<rand::rngs::StdRng, rand::Error>) {
    rand::SeedableRng::from_rng(rand::rngs::OsRng)
}

/// The order that `rand::seq::SliceRandom::shuffle` leaves `order` in when it
/// draws from the generator `rng`.
pub uninterp spec fn shuffled_order(order: Seq<Direction>, rng: rand::rngs::StdRng) -> Seq<
    Direction,
>;

/// The generator `rng` as `rand::seq::SliceRandom::shuffle` leaves it when it
/// has shuffled `order`.
pub uninterp spec fn generator_after_shuffle(
    order: Seq<Direction>,
    rng: rand::rngs::StdRng,
) -> rand::rngs::StdRng;

/// Calls `rand::seq::SliceRandom::shuffle` on the slice of `order`. The
/// claims are that the call only swaps elements, so that afterwards `order`
/// holds the same directions as before, each as often as before; and that
/// the order that comes out and the generator as it is left are decided by
/// the order and the generator that went in: the swaps are chosen by draws
/// from the generator, and nothing else is read.
#[verifier::external_body]
fn shuffle(order: &mut Vec<Direction>, rng: &mut rand::rngs::StdRng)
    ensures
        final(order)@.to_multiset() == old(order)@.to_multiset(),
        final(order)@ == shuffled_order(old(order)@, *old(rng)),
        *final(rng) == generator_after_shuffle(old(order)@, *old(rng)),
{
    rand::seq::SliceRandom::shuffle(order.as_mut_slice(), rng)
}

/// The four directions in the order in which they are handed to the shuffle.
pub open spec fn all_directions() -> Seq<Direction> {
    seq![Direction::Right, Direction::Left, Direction::Up, Direction::Down]
}

/// `order` holds each of the four directions once.
pub open spec fn is_direction_order(order: Seq<Direction>) -> bool {
    &&& order.len() == 4
    &&& order.to_multiset() == all_directions().to_multiset()
    &&& forall|d: Direction| order.contains(d)
}

/// The generator `rng` after `k` orders of the four directions were drawn from it.
pub open spec fn generator_after_draws(rng: rand::rngs::StdRng, k: nat) -> rand::rngs::StdRng
    decreases k,
{
    if k == 0 {
        rng
    } else {
        generator_after_shuffle(all_directions(), generator_after_draws(rng, (k - 1) as nat))
    }
}

/// The order of the four directions that is drawn from `rng` after `k` others.
pub open spec fn drawn_order(rng: rand::rngs::StdRng, k: nat) -> Seq<Direction> {
    shuffled_order(all_directions(), generator_after_draws(rng, k))
}

/// The orders that are drawn from `rng`, one after the other.
pub open spec fn orders_of(rng: rand::rngs::StdRng) -> spec_fn(nat) -> Seq<Direction> {
    |k: nat| drawn_order(rng, k)
}

/// A seedable random number generator.
pub struct RandomSource {
    rng: rand::rngs::StdRng,
}

impl RandomSource {
    /// The generator of `rand` that the source draws from.
    pub closed spec fn generator(&self) -> rand::rngs::StdRng {
        self.rng
    }

    /// A source that is seeded with `seed`. It draws from the generator that
    /// `rand` makes from that seed, so two sources made from one seed are the
    /// same, and give the same mazes.
    pub fn from_seed(seed: u64) -> (source: RandomSource)
        ensures
            source.generator() == seeded_generator(seed),
    {
        RandomSource { rng: rng_from_seed(seed) }
    }

    /// What becomes of an attempt to seed a generator: a source that draws
    /// from the generator where there is one, and `RandomSourceUnavailable`
    /// where the seeding failed, whatever the failure was.
    pub fn from_seeding(seeding: Result<rand::rngs::StdRng, rand::Error>) -> (made: Result<
        RandomSource,
        GenerationError,
    >)
        ensures
            match seeding {
                Ok(rng) => made matches Ok(source) && source.generator() == rng,
                Err(_) => made matches Err(e) && e == GenerationError::RandomSourceUnavailable,
            },
    {
        match seeding {
            Ok(rng) => Ok(RandomSource { rng }),
            Err(_) => Err(GenerationError::RandomSourceUnavailable),
        }
    }

    /// A source that is freshly seeded by the operating system, or
    /// `RandomSourceUnavailable` where the operating system gives no seed.
    /// Which of the two it is, and which generator, is up to the operating
    /// system: `from_seeding` says what is made of either.
    pub fn from_os() -> (made: Result<RandomSource, GenerationError>)
        ensures
            made matches Err(e) ==> e == GenerationError::RandomSourceUnavailable,
    {
        RandomSource::from_seeding(rng_from_os())
    }

    /// The four directions in a random order: the order that the shuffle of
    /// `rand` makes of them with the generator of the source, which is left
    /// as that shuffle leaves it.
    pub fn shuffled_directions(&mut self) -> (order: Vec<Direction>)
        ensures
            is_direction_order(order@),
            order@ == shuffled_order(all_directions(), old(self).generator()),
            final(self).generator() == generator_after_shuffle(
                all_directions(),
                old(self).generator(),
            ),
    {
        let mut order: Vec<Direction> = Vec::new();
        order.push(Direction::Right);
        order.push(Direction::Left);
        order.push(Direction::Up);
        order.push(Direction::Down);
        assert(order@ == all_directions());
        shuffle(&mut order, &mut self.rng);
        proof {
            to_multiset_len(order@);
            to_multiset_len(all_directions());
            assert forall|d: Direction| order@.contains(d) by {
                let k: int = match d {
                    Direction::Right => 0,
                    Direction::Left => 1,
                    Direction::Up => 2,
                    Direction::Down => 3,
                };
                assert(all_directions()[k] == d);
                assert(all_directions().contains(d));
                to_multiset_contains(all_directions(), d);
                to_multiset_contains(order@, d);
            }
        }
        order
    }
}

} // verus!
