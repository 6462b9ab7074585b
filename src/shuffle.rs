//! The reproducible shuffle of a deck, drawn from a seeded SplitMix64
//! stream.

use vstd::prelude::*;

use rand::seq::SliceRandom;
use rand::{Rng, SeedableRng};
use rand_xoshiro::SplitMix64;

use crate::cards::{Card, Orientation, OrientedCard};

verus! {

/// The order of the deck and the coin drawn for each card after shuffling
/// `deck` with a SplitMix64 generator seeded with `seed`.
pub uninterp spec fn seeded_shuffle(deck: Seq<Card>, seed: u64) -> (Seq<Card>, Seq<bool>);

/// Relies on `rand_xoshiro::SplitMix64::seed_from_u64`, rand's
/// `SliceRandom::shuffle` and `Rng::gen_ratio(1, 2)`: seeded with `seed`,
/// the generator shuffles the cards in place, which permutes them, and
/// then draws one fair coin per card. The generator is deterministic, so
/// the outcome depends on the deck and the seed alone.
#[verifier::external_body]
fn shuffle_with_seed(deck: &Vec<Card>, seed: u64) -> (r: (Vec<Card>, Vec<bool>))
    ensures
        (r.0@, r.1@) == seeded_shuffle(deck@, seed),
        r.0@.to_multiset() == deck@.to_multiset(),
        r.1@.len() == deck@.len(),
{
    let mut rng = SplitMix64::seed_from_u64(seed);
    let mut cards = deck.clone();
    cards.shuffle(&mut rng);
    let coins: Vec<bool> = cards.iter().map(|_| rng.gen_ratio(1, 2)).collect();
    (cards, coins)
}

/// The face that a drawn coin gives a card.
pub open spec fn face_of(coin: bool) -> Orientation {
    if coin {
        Orientation::Larger
    } else {
        Orientation::Smaller
    }
}

/// The shuffled deck, each card facing as its coin says.
pub open spec fn shuffled_deck(deck: Seq<Card>, seed: u64) -> Seq<OrientedCard> {
    let (cards, coins) = seeded_shuffle(deck, seed);
    Seq::new(cards.len(), |i: int| OrientedCard { card: cards[i], orientation: face_of(coins[i]) })
}

/// Shuffles the deck in place, reproducibly from `seed`, and returns it
/// with a face given to each card.
pub fn shuffle_deck(deck: &mut Vec<Card>, seed: u64) -> (r: Vec<OrientedCard>)
    ensures
        final(deck)@ == seeded_shuffle(old(deck)@, seed).0,
        final(deck)@.to_multiset() == old(deck)@.to_multiset(),
        r@ == shuffled_deck(old(deck)@, seed),
        r@.len() == old(deck)@.len(),
{
    let ghost unshuffled = deck@;
    let (cards, coins) = shuffle_with_seed(deck, seed);
    proof {
        cards@.to_multiset_ensures();
        unshuffled.to_multiset_ensures();
    }
    let mut dealt: Vec<OrientedCard> = Vec::new();
    let mut i: usize = 0;
    while i < cards.len()
        invariant
            i <= cards@.len(),
            cards@.len() == coins@.len(),
            (cards@, coins@) == seeded_shuffle(unshuffled, seed),
            dealt@ == shuffled_deck(unshuffled, seed).subrange(0, i as int),
        decreases cards@.len() - i,
    {
        let orientation = if coins[i] {
            Orientation::Larger
        } else {
            Orientation::Smaller
        };
        dealt.push(OrientedCard { card: cards[i], orientation });
        i = i + 1;
        assert(dealt@ =~= shuffled_deck(unshuffled, seed).subrange(0, i as int));
    }
    assert(dealt@ =~= shuffled_deck(unshuffled, seed));
    *deck = cards;
    dealt
}

} // verus!
