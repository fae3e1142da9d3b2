//! Three cards and the rule that decides whether they form a set.

use vstd::prelude::*;

use crate::card::Card;

verus! {

/// Three values of one attribute are uniform when they are all equal or all
/// pairwise different.
pub open spec fn uniform<A>(x: A, y: A, z: A) -> bool {
    (x == y && y == z) || (x != y && y != z && x != z)
}

/// The matching rule: each of the four attributes is uniform over the three
/// cards.
pub open spec fn valid_set(a: Card, b: Card, c: Card) -> bool {
    &&& uniform(a.color, b.color, c.color)
    &&& uniform(a.count, b.count, c.count)
    &&& uniform(a.shading, b.shading, c.shading)
    &&& uniform(a.shape, b.shape, c.shape)
}

/// Three cards taken from a hand, in the order of their positions there.
#[derive(Clone, Copy, Debug, PartialEq, Eq, Structural, Hash)]
pub struct Triple {
    pub first: Card,
    pub second: Card,
    pub third: Card,
}

impl Triple {
    pub open spec fn spec_is_set(self) -> bool {
        valid_set(self.first, self.second, self.third)
    }

    pub open spec fn holds(self, c: Card) -> bool {
        c == self.first || c == self.second || c == self.third
    }

    pub fn new(first: Card, second: Card, third: Card) -> (r: Triple)
        ensures
            r == (Triple { first, second, third }),
    {
        Triple { first, second, third }
    }

    /// Whether the three cards form a set: every attribute is all equal or
    /// all different.
    pub fn is_set(&self) -> (r: bool)
        ensures
            r == self.spec_is_set(),
    {
        is_set(&self.first, &self.second, &self.third)
    }

    /// Whether `c` is one of the three cards.
    pub fn contains(&self, c: &Card) -> (r: bool)
        ensures
            r == self.holds(*c),
    {
        *c == self.first || *c == self.second || *c == self.third
    }
}

/// Whether three cards form a set. Each attribute is checked in turn; the
/// answer is the conjunction of the four checks.
pub fn is_set(a: &Card, b: &Card, c: &Card) -> (r: bool)
    ensures
        r == valid_set(*a, *b, *c),
{
    let color = (a.color == b.color && b.color == c.color) || (a.color != b.color
        && b.color != c.color && a.color != c.color);
    let count = (a.count == b.count && b.count == c.count) || (a.count != b.count
        && b.count != c.count && a.count != c.count);
    let shading = (a.shading == b.shading && b.shading == c.shading) || (a.shading
        != b.shading && b.shading != c.shading && a.shading != c.shading);
    let shape = (a.shape == b.shape && b.shape == c.shape) || (a.shape != b.shape
        && b.shape != c.shape && a.shape != c.shape);
    color && count && shading && shape
}

/// The rule does not depend on the order of the three cards: it gives the same
/// answer for all six orderings.
pub proof fn lemma_is_set_symmetric(a: Card, b: Card, c: Card)
    ensures
        valid_set(a, b, c) == valid_set(a, c, b),
        valid_set(a, b, c) == valid_set(b, a, c),
        valid_set(a, b, c) == valid_set(b, c, a),
        valid_set(a, b, c) == valid_set(c, a, b),
        valid_set(a, b, c) == valid_set(c, b, a),
{
}

/// With three possible values, an attribute fails to be uniform exactly when
/// two of the cards agree on it and the third differs.
pub proof fn lemma_not_uniform_two_equal<A>(x: A, y: A, z: A)
    ensures
        !uniform(x, y, z) <==> ((x == y && y != z) || (y == z && x != y) || (x == z
            && x != y)),
{
}

} // verus!
