//! Reproducible dealing: the deck shuffled by a generator seeded with a
//! number, then its first cards.

use rand::seq::SliceRandom;
use rand::SeedableRng;
use rand_chacha::ChaCha8Rng;
use vstd::prelude::*;

use crate::card::{deck, generate_all_cards, Card, DECK_SIZE};

verus! {

/// The order that a ChaCha8 generator seeded with `seed` shuffles `cards`
/// into. Both the seeding and the shuffle are value-stable, so the order is a
/// function of the cards and the seed.
pub uninterp spec fn seeded_shuffle(cards: Seq<Card>, seed: u64) -> Seq<Card>;

/// Relies on `rand_chacha::ChaCha8Rng::seed_from_u64` to build the generator
/// and on `rand::seq::SliceRandom::shuffle`, which permutes the slice by swaps
/// (a Fisher-Yates shuffle) and so keeps every element.
#[verifier::external_body]
fn shuffle_seeded(cards: &mut Vec<Card>, seed: u64)
    ensures
        final(cards)@ == seeded_shuffle(old(cards)@, seed),
        final(cards)@.to_multiset() == old(cards)@.to_multiset(),
{
    let mut rng = ChaCha8Rng::seed_from_u64(seed);
    cards.shuffle(&mut rng);
}

/// The first `n` cards of `cards`.
pub fn deal_from(cards: &Vec<Card>, n: usize) -> (r: Vec<Card>)
    requires
        n <= cards@.len(),
    ensures
        r@ == cards@.take(n as int),
{
    let mut r: Vec<Card> = Vec::new();
    let mut k: usize = 0;
    while k < n
        invariant
            k <= n <= cards@.len(),
            r@ == cards@.take(k as int),
        decreases n - k,
    {
        r.push(cards[k]);
        assert(cards@.take(k as int + 1) =~= cards@.take(k as int).push(cards@[k as int]));
        k = k + 1;
    }
    r
}

/// A hand of `n` cards: the full deck shuffled with `seed`, then its first `n`
/// cards. The same seed always gives the same hand, and no card is dealt
/// twice.
pub fn deal(seed: u64, n: usize) -> (r: Vec<Card>)
    requires
        n <= DECK_SIZE,
    ensures
        r@ == seeded_shuffle(deck(), seed).take(n as int),
        r@.len() == n,
        r@.no_duplicates(),
{
    let mut cards = generate_all_cards();
    let ghost before = cards@;
    shuffle_seeded(&mut cards, seed);
    proof {
        before.lemma_multiset_has_no_duplicates();
        assert forall|x: Card| cards@.to_multiset().contains(x) implies cards@.to_multiset().count(
            x,
        ) == 1 by {
            assert(before.to_multiset().contains(x));
        }
        cards@.lemma_multiset_has_no_duplicates_conv();
        cards@.to_multiset_ensures();
        before.to_multiset_ensures();
    }
    let r = deal_from(&cards, n);
    proof {
        assert forall|i: int, j: int| 0 <= i < r@.len() && 0 <= j < r@.len() && i != j implies r@[i]
            != r@[j] by {
            assert(r@[i] == cards@[i] && r@[j] == cards@[j]);
        }
    }
    r
}

} // verus!
