//! Cards, their canonical order, and the full deck.

use vstd::prelude::*;

use crate::attributes::{Color, Count, Shading, Shape};

verus! {

/// One card: a value of each attribute.
#[derive(Clone, Copy, Debug, PartialEq, Eq, Structural, Hash, PartialOrd, Ord)]
pub struct Card {
    pub color: Color,
    pub count: Count,
    pub shading: Shading,
    pub shape: Shape,
}

impl Card {
    pub fn new(color: Color, count: Count, shading: Shading, shape: Shape) -> (r: Card)
        ensures
            r == (Card { color, count, shading, shape }),
    {
        Card { color, count, shading, shape }
    }

    /// Position of the card in the canonical order, 0 to 80. Cards compare
    /// lexicographically by (color, count, shading, shape) exactly as their
    /// positions compare, and distinct cards have distinct positions.
    pub fn position(&self) -> (r: u8)
        ensures
            r as nat == self.rank(),
            r < 81,
    {
        let a: u8 = match self.color {
            Color::Red => 0,
            Color::Green => 1,
            Color::Purple => 2,
        };
        let b: u8 = match self.count {
            Count::One => 0,
            Count::Two => 1,
            Count::Three => 2,
        };
        let c: u8 = match self.shading {
            Shading::Solid => 0,
            Shading::Striped => 1,
            Shading::Open => 2,
        };
        let d: u8 = match self.shape {
            Shape::Diamond => 0,
            Shape::Squiggle => 1,
            Shape::Oval => 2,
        };
        27 * a + 9 * b + 3 * c + d
    }
}

impl Card {
    /// Position of the card in the canonical lexicographic order on
    /// (color, count, shading, shape); also its position in the full deck.
    pub open spec fn rank(self) -> nat {
        27 * self.color.index() + 9 * self.count.index() + 3 * self.shading.index()
            + self.shape.index()
    }

    /// The card of a given rank, for ranks below 81.
    pub open spec fn of_rank(k: nat) -> Card {
        Card {
            color: Color::at(k / 27),
            count: Count::at((k / 9) % 3),
            shading: Shading::at((k / 3) % 3),
            shape: Shape::at(k % 3),
        }
    }
}

/// Number of distinct cards.
pub const DECK_SIZE: usize = 81;

/// The full deck in canonical order: the card of rank `k` at position `k`.
pub open spec fn deck() -> Seq<Card> {
    Seq::new(81, |k: int| Card::of_rank(k as nat))
}

/// Ranks name cards one to one.
pub proof fn lemma_rank_inverse(c: Card)
    ensures
        c.rank() < 81,
        Card::of_rank(c.rank()) == c,
{
    match c.color {
        Color::Red => {},
        Color::Green => {},
        Color::Purple => {},
    }
    match c.count {
        Count::One => {},
        Count::Two => {},
        Count::Three => {},
    }
    match c.shading {
        Shading::Solid => {},
        Shading::Striped => {},
        Shading::Open => {},
    }
    match c.shape {
        Shape::Diamond => {},
        Shape::Squiggle => {},
        Shape::Oval => {},
    }
}

/// The deck holds 81 cards, no card twice, and every possible card.
pub proof fn lemma_deck_complete()
    ensures
        deck().len() == 81,
        deck().no_duplicates(),
        forall|c: Card| #[trigger] deck().contains(c),
        forall|k: int| 0 <= k < 81 ==> (#[trigger] deck()[k]).rank() == k,
{
    assert forall|k: int| 0 <= k < 81 implies (#[trigger] deck()[k]).rank() == k by {
        lemma_of_rank_inverse(k as nat);
    }
    assert forall|c: Card| #[trigger] deck().contains(c) by {
        lemma_rank_inverse(c);
        assert(deck()[c.rank() as int] == c);
    }
    assert forall|i: int, j: int| 0 <= i < 81 && 0 <= j < 81 && i != j implies deck()[i]
        != deck()[j] by {
        lemma_of_rank_inverse(i as nat);
        lemma_of_rank_inverse(j as nat);
    }
}

proof fn lemma_of_rank_inverse(k: nat)
    requires
        k < 81,
    ensures
        Card::of_rank(k).rank() == k,
{
    assert(k / 27 < 3);
    assert((k / 9) % 3 < 3);
    assert((k / 3) % 3 < 3);
    assert(k == 27 * (k / 27) + 9 * ((k / 9) % 3) + 3 * ((k / 3) % 3) + k % 3);
}

/// Every card, in canonical order: color outermost, then count, shading and
/// shape.
pub fn generate_all_cards() -> (r: Vec<Card>)
    ensures
        r@ == deck(),
        r@.len() == DECK_SIZE,
        r@.no_duplicates(),
        forall|c: Card| #[trigger] r@.contains(c),
{
    let colors = Color::values();
    let counts = Count::values();
    let shadings = Shading::values();
    let shapes = Shape::values();
    let mut r: Vec<Card> = Vec::new();
    let mut a: usize = 0;
    while a < 3
        invariant
            0 <= a <= 3,
            colors@ == seq![Color::Red, Color::Green, Color::Purple],
            counts@ == seq![Count::One, Count::Two, Count::Three],
            shadings@ == seq![Shading::Solid, Shading::Striped, Shading::Open],
            shapes@ == seq![Shape::Diamond, Shape::Squiggle, Shape::Oval],
            r@.len() == 27 * a,
            forall|k: int| 0 <= k < r@.len() ==> (#[trigger] r@[k]).rank() == k,
        decreases 3 - a,
    {
        let mut b: usize = 0;
        while b < 3
            invariant
                0 <= a < 3,
                0 <= b <= 3,
                colors@ == seq![Color::Red, Color::Green, Color::Purple],
                counts@ == seq![Count::One, Count::Two, Count::Three],
                shadings@ == seq![Shading::Solid, Shading::Striped, Shading::Open],
                shapes@ == seq![Shape::Diamond, Shape::Squiggle, Shape::Oval],
                r@.len() == 27 * a + 9 * b,
                forall|k: int| 0 <= k < r@.len() ==> (#[trigger] r@[k]).rank() == k,
            decreases 3 - b,
        {
            let mut c: usize = 0;
            while c < 3
                invariant
                    0 <= a < 3,
                    0 <= b < 3,
                    0 <= c <= 3,
                    colors@ == seq![Color::Red, Color::Green, Color::Purple],
                    counts@ == seq![Count::One, Count::Two, Count::Three],
                    shadings@ == seq![Shading::Solid, Shading::Striped, Shading::Open],
                    shapes@ == seq![Shape::Diamond, Shape::Squiggle, Shape::Oval],
                    r@.len() == 27 * a + 9 * b + 3 * c,
                    forall|k: int| 0 <= k < r@.len() ==> (#[trigger] r@[k]).rank() == k,
                decreases 3 - c,
            {
                let mut d: usize = 0;
                while d < 3
                    invariant
                        0 <= a < 3,
                        0 <= b < 3,
                        0 <= c < 3,
                        0 <= d <= 3,
                        colors@ == seq![Color::Red, Color::Green, Color::Purple],
                        counts@ == seq![Count::One, Count::Two, Count::Three],
                        shadings@ == seq![Shading::Solid, Shading::Striped, Shading::Open],
                        shapes@ == seq![Shape::Diamond, Shape::Squiggle, Shape::Oval],
                        r@.len() == 27 * a + 9 * b + 3 * c + d,
                        forall|k: int| 0 <= k < r@.len() ==> (#[trigger] r@[k]).rank() == k,
                    decreases 3 - d,
                {
                    let card = Card::new(colors[a], counts[b], shadings[c], shapes[d]);
                    assert(card.color.index() == a && card.count.index() == b
                        && card.shading.index() == c && card.shape.index() == d);
                    r.push(card);
                    d = d + 1;
                }
                c = c + 1;
            }
            b = b + 1;
        }
        a = a + 1;
    }
    proof {
        lemma_deck_complete();
        assert forall|k: int| 0 <= k < 81 implies r@[k] == deck()[k] by {
            lemma_rank_inverse(r@[k]);
        }
        assert(r@ =~= deck());
    }
    r
}

} // verus!
