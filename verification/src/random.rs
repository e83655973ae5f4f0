//! The randomness that the `Random` order draws on.
use crate::key_order::{as_positions, is_permutation};
use rand::rngs::{OsRng, StdRng};
use rand::seq::SliceRandom;
use rand::SeedableRng;
use vstd::prelude::*;

verus! {

/// `rand::rngs::StdRng`, a generator. Nothing of its inside is seen here.
#[verifier::external_type_specification]
#[verifier::external_body]
pub struct ExStdRng(StdRng);

/// A source of shuffles.
///
/// One made by [`RandomSource::new`] seeds itself from the operating system
/// when it is first drawn from; one made by [`RandomSource::seeded`] repeats
/// the same draws for the same seed.
///
/// Its view is the generator that it holds: none as long as the operating
/// system has still to seed it.
#[derive(Debug)]
pub struct RandomSource {
    generator: Option<StdRng>,
}

impl View for RandomSource {
    type V = Option<StdRng>;

    closed spec fn view(&self) -> Option<StdRng> {
        self.generator
    }
}

/// The generator that `rand`'s `StdRng::seed_from_u64` makes of `seed`.
pub uninterp spec fn seeded_generator(seed: u64) -> StdRng;

/// `rand`'s `StdRng::seed_from_u64`. It expands `seed` by fixed arithmetic
/// into the state of the generator and reads nothing else, so the generator
/// is a function of `seed`: [`seeded_generator`] names it. Nothing is claimed
/// of the stream that the generator gives.
#[verifier::external_body]
fn generator_from_seed(seed: u64) -> (generator: StdRng)
    ensures
        generator == seeded_generator(seed),
{
    StdRng::seed_from_u64(seed)
}

/// `rand`'s `StdRng::from_rng` on `OsRng`: a generator seeded by the
/// operating system, or `None` where the operating system has no entropy to
/// give. Nothing is claimed of it.
#[verifier::external_body]
fn generator_from_system() -> Option<StdRng> {
    StdRng::from_rng(OsRng).ok()
}

/// `rand`'s `SliceRandom::shuffle` on a slice: it swaps elements in place, so
/// afterwards the vector holds what it held before, each element as often as
/// before, in an order that nothing is claimed of.
#[verifier::external_body]
fn shuffle_in_place(items: &mut Vec<usize>, generator: &mut StdRng)
    ensures
        final(items)@.to_multiset() == old(items)@.to_multiset(),
{
    items.shuffle(generator);
}

/// The indices `0, 1, .., n - 1`.
spec fn indices(n: nat) -> Seq<usize> {
    Seq::new(n, |i: int| i as usize)
}

/// A vector that holds what `0, 1, .., n - 1` holds is a permutation of them.
proof fn lemma_shuffled_is_permutation(p: Seq<usize>, n: nat)
    requires
        n <= usize::MAX,
        p.to_multiset() == indices(n).to_multiset(),
    ensures
        is_permutation(as_positions(p), n),
{
    broadcast use vstd::seq_lib::group_to_multiset_ensures;

    let all = indices(n);
    assert(p.len() == n) by {
        vstd::seq_lib::to_multiset_len(p);
        vstd::seq_lib::to_multiset_len(all);
    }
    assert(all.no_duplicates());
    all.lemma_multiset_has_no_duplicates();
    p.lemma_multiset_has_no_duplicates_conv();
    assert forall|i: int| 0 <= i < n implies 0 <= #[trigger] as_positions(p)[i] < n by {
        assert(p.contains(p[i]));
        assert(all.to_multiset().count(p[i]) > 0);
        assert(all.contains(p[i]));
    }
}

impl RandomSource {
    /// A source that seeds itself from the operating system on first use.
    /// Where the operating system has no entropy to give then, it draws as
    /// the source of seed 0 does.
    ///
    /// The source holds no generator yet.
    pub fn new() -> (source: RandomSource)
        ensures
            source@ is None,
    {
        RandomSource { generator: None }
    }

    /// A source whose draws are fixed by `seed`.
    ///
    /// The source holds the generator that `seed` gives, so two sources of
    /// one seed are in the same state.
    pub fn seeded(seed: u64) -> (source: RandomSource)
        ensures
            source@ == Some(seeded_generator(seed)),
    {
        RandomSource { generator: Some(generator_from_seed(seed)) }
    }

    /// Draws a permutation of the positions `0..n`.
    pub fn shuffle(&mut self, n: usize) -> (p: Vec<usize>)
        ensures
            is_permutation(as_positions(p@), n as nat),
    {
        let mut p: Vec<usize> = Vec::new();
        let mut i: usize = 0;
        while i < n
            invariant
                i <= n,
                p@ == indices(i as nat),
            decreases n - i,
        {
            p.push(i);
            i += 1;
        }
        let mut generator = match self.generator.take() {
            Some(generator) => generator,
            None => match generator_from_system() {
                Some(generator) => generator,
                None => generator_from_seed(0),
            },
        };
        shuffle_in_place(&mut p, &mut generator);
        proof {
            lemma_shuffled_is_permutation(p@, n as nat);
        }
        self.generator = Some(generator);
        p
    }
}

} // verus!
