//! The four attributes of a card. Each has exactly three values, listed in a
//! fixed canonical order; `index` gives a value's place in that order.

use vstd::prelude::*;

verus! {

#[derive(Clone, Copy, Debug, PartialEq, Eq, Structural, Hash, PartialOrd, Ord)]
pub enum Color {
    Red,
    Green,
    Purple,
}

#[derive(Clone, Copy, Debug, PartialEq, Eq, Structural, Hash, PartialOrd, Ord)]
pub enum Count {
    One,
    Two,
    Three,
}

#[derive(Clone, Copy, Debug, PartialEq, Eq, Structural, Hash, PartialOrd, Ord)]
pub enum Shading {
    Solid,
    Striped,
    Open,
}

#[derive(Clone, Copy, Debug, PartialEq, Eq, Structural, Hash, PartialOrd, Ord)]
pub enum Shape {
    Diamond,
    Squiggle,
    Oval,
}

impl Color {
    /// Position of the value in the canonical order.
    pub open spec fn index(self) -> nat {
        match self {
            Color::Red => 0,
            Color::Green => 1,
            Color::Purple => 2,
        }
    }

    /// The value at position `i` of the canonical order.
    pub open spec fn at(i: nat) -> Color {
        if i == 0 {
            Color::Red
        } else if i == 1 {
            Color::Green
        } else {
            Color::Purple
        }
    }

    /// Every value, in canonical order.
    pub fn values() -> (r: Vec<Color>)
        ensures
            r@ == seq![Color::Red, Color::Green, Color::Purple],
    {
        vec![Color::Red, Color::Green, Color::Purple]
    }
}

impl Count {
    pub open spec fn index(self) -> nat {
        match self {
            Count::One => 0,
            Count::Two => 1,
            Count::Three => 2,
        }
    }

    pub open spec fn at(i: nat) -> Count {
        if i == 0 {
            Count::One
        } else if i == 1 {
            Count::Two
        } else {
            Count::Three
        }
    }

    pub fn values() -> (r: Vec<Count>)
        ensures
            r@ == seq![Count::One, Count::Two, Count::Three],
    {
        vec![Count::One, Count::Two, Count::Three]
    }

    /// The count written as a number of symbols, 1 to 3.
    pub fn number(self) -> (r: u8)
        ensures
            r as nat == self.index() + 1,
    {
        match self {
            Count::One => 1,
            Count::Two => 2,
            Count::Three => 3,
        }
    }

    /// The count with `n` symbols. Any `n` outside 1..=3 is a caller error.
    pub fn from_number(n: u8) -> (r: Count)
        requires
            1 <= n <= 3,
        ensures
            r.index() + 1 == n as nat,
    {
        if n == 1 {
            Count::One
        } else if n == 2 {
            Count::Two
        } else {
            Count::Three
        }
    }
}

impl Shading {
    pub open spec fn index(self) -> nat {
        match self {
            Shading::Solid => 0,
            Shading::Striped => 1,
            Shading::Open => 2,
        }
    }

    pub open spec fn at(i: nat) -> Shading {
        if i == 0 {
            Shading::Solid
        } else if i == 1 {
            Shading::Striped
        } else {
            Shading::Open
        }
    }

    pub fn values() -> (r: Vec<Shading>)
        ensures
            r@ == seq![Shading::Solid, Shading::Striped, Shading::Open],
    {
        vec![Shading::Solid, Shading::Striped, Shading::Open]
    }
}

impl Shape {
    pub open spec fn index(self) -> nat {
        match self {
            Shape::Diamond => 0,
            Shape::Squiggle => 1,
            Shape::Oval => 2,
        }
    }

    pub open spec fn at(i: nat) -> Shape {
        if i == 0 {
            Shape::Diamond
        } else if i == 1 {
            Shape::Squiggle
        } else {
            Shape::Oval
        }
    }

    pub fn values() -> (r: Vec<Shape>)
        ensures
            r@ == seq![Shape::Diamond, Shape::Squiggle, Shape::Oval],
    {
        vec![Shape::Diamond, Shape::Squiggle, Shape::Oval]
    }
}

} // verus!
