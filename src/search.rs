//! Searches for sets in a hand: the first one in canonical order, or all of
//! them.

use vstd::prelude::*;

use crate::card::Card;
use crate::combinations::{all_triples, choose3, in_range, index_triples, lemma_all_triples, Positions};
use crate::triple::{is_set, Triple};

verus! {

/// The cards of a hand at three positions.
pub open spec fn triple_at(hand: Seq<Card>, t: Positions) -> Triple {
    Triple { first: hand[t.0 as int], second: hand[t.1 as int], third: hand[t.2 as int] }
}

/// The triples of `hand` at the combinations `ts` that form a set, in the
/// order of `ts`.
pub open spec fn sets_among(hand: Seq<Card>, ts: Seq<Positions>) -> Seq<Triple>
    decreases ts.len(),
{
    if ts.len() == 0 {
        Seq::empty()
    } else {
        let rest = sets_among(hand, ts.drop_last());
        let t = triple_at(hand, ts.last());
        if t.spec_is_set() {
            rest.push(t)
        } else {
            rest
        }
    }
}

/// Every set of the hand, in the canonical order of its positions.
pub open spec fn sets_in(hand: Seq<Card>) -> Seq<Triple> {
    sets_among(hand, all_triples(hand.len() as int))
}

/// The first set of the hand in canonical order, if there is one.
pub open spec fn first_set(hand: Seq<Card>) -> Option<Triple> {
    if sets_in(hand).len() > 0 {
        Some(sets_in(hand)[0])
    } else {
        None
    }
}

proof fn lemma_sets_among_sound(hand: Seq<Card>, ts: Seq<Positions>)
    ensures
        sets_among(hand, ts).len() <= ts.len(),
        forall|k: int|
            0 <= k < sets_among(hand, ts).len() ==> (#[trigger] sets_among(hand, ts)[k]).spec_is_set(),
    decreases ts.len(),
{
    if ts.len() > 0 {
        lemma_sets_among_sound(hand, ts.drop_last());
    }
}

proof fn lemma_sets_among_prefix(hand: Seq<Card>, ts: Seq<Positions>, k: int)
    requires
        0 <= k <= ts.len(),
    ensures
        sets_among(hand, ts.take(k)).len() <= sets_among(hand, ts).len(),
        forall|x: int|
            0 <= x < sets_among(hand, ts.take(k)).len() ==> sets_among(hand, ts)[x]
                == #[trigger] sets_among(hand, ts.take(k))[x],
    decreases ts.len(),
{
    if k == ts.len() {
        assert(ts.take(k) =~= ts);
    } else {
        assert(ts.take(k) =~= ts.drop_last().take(k));
        lemma_sets_among_prefix(hand, ts.drop_last(), k);
    }
}

/// Every triple that the search reports is a set; there are at most C(n, 3)
/// of them for a hand of `n` cards; and the set found first is among them.
pub proof fn lemma_search_consistency(hand: Seq<Card>)
    requires
        hand.len() <= usize::MAX,
    ensures
        forall|k: int| 0 <= k < sets_in(hand).len() ==> (#[trigger] sets_in(hand)[k]).spec_is_set(),
        sets_in(hand).len() <= choose3(hand.len()),
        first_set(hand) matches Some(t) ==> sets_in(hand).contains(t),
{
    lemma_all_triples(hand.len() as int);
    lemma_sets_among_sound(hand, all_triples(hand.len() as int));
    if sets_in(hand).len() > 0 {
        assert(sets_in(hand)[0] == sets_in(hand)[0]);
    }
}

/// Every set of the hand, in canonical order of positions (`i < j < l`,
/// lexicographically). A hand without sets gives an empty sequence.
pub fn find_all_sets(hand: &Vec<Card>) -> (r: Vec<Triple>)
    ensures
        r@ == sets_in(hand@),
{
    let ts = index_triples(hand.len());
    let mut r: Vec<Triple> = Vec::new();
    let mut k: usize = 0;
    while k < ts.len()
        invariant
            ts@ == all_triples(hand@.len() as int),
            forall|x: int| 0 <= x < ts@.len() ==> in_range(#[trigger] ts@[x], 0, hand@.len() as int),
            k <= ts@.len(),
            r@ == sets_among(hand@, ts@.take(k as int)),
        decreases ts.len() - k,
    {
        let t = ts[k];
        assert(in_range(ts@[k as int], 0, hand@.len() as int));
        assert(ts@.take(k as int + 1).drop_last() =~= ts@.take(k as int));
        if is_set(&hand[t.0], &hand[t.1], &hand[t.2]) {
            r.push(Triple::new(hand[t.0], hand[t.1], hand[t.2]));
        }
        k = k + 1;
    }
    assert(ts@.take(k as int) =~= ts@);
    r
}

/// The first set of the hand in canonical order; `None` when the hand holds no
/// set. Stops at the first match.
pub fn find_set(hand: &Vec<Card>) -> (r: Option<Triple>)
    ensures
        r == first_set(hand@),
{
    let ts = index_triples(hand.len());
    let mut k: usize = 0;
    while k < ts.len()
        invariant
            ts@ == all_triples(hand@.len() as int),
            forall|x: int| 0 <= x < ts@.len() ==> in_range(#[trigger] ts@[x], 0, hand@.len() as int),
            k <= ts@.len(),
            sets_among(hand@, ts@.take(k as int)).len() == 0,
        decreases ts.len() - k,
    {
        let t = ts[k];
        assert(in_range(ts@[k as int], 0, hand@.len() as int));
        assert(ts@.take(k as int + 1).drop_last() =~= ts@.take(k as int));
        if is_set(&hand[t.0], &hand[t.1], &hand[t.2]) {
            let found = Triple::new(hand[t.0], hand[t.1], hand[t.2]);
            proof {
                lemma_sets_among_prefix(hand@, ts@, k + 1);
                assert(sets_among(hand@, ts@.take(k as int + 1))[0] == found);
            }
            return Some(found);
        }
        k = k + 1;
    }
    assert(ts@.take(k as int) =~= ts@);
    None
}

} // verus!
