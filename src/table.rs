//! Projection of a solved hand onto a grid of three rows, once per set found,
//! with the cards of that set marked.

use vstd::prelude::*;

use crate::card::Card;
use crate::triple::Triple;

verus! {

/// Number of rows of the grid.
pub const ROWS: usize = 3;

/// One position of the grid: the card there, and whether it is marked.
#[derive(Clone, Copy, Debug, PartialEq, Eq, Structural)]
pub struct Cell {
    pub card: Card,
    pub highlighted: bool,
}

/// A hand together with the sets found in it.
#[derive(Debug)]
pub struct Table {
    pub cards: Vec<Card>,
    pub triples: Vec<Triple>,
}

impl Table {
    /// The hand fills the three rows evenly.
    pub open spec fn wf(&self) -> bool {
        self.cards@.len() % 3 == 0
    }

    /// Cards per row.
    pub open spec fn row_len(&self) -> int {
        (self.cards@.len() / 3) as int
    }

    /// The card at row `row`, column `col`.
    pub open spec fn card_at(&self, row: int, col: int) -> Card {
        self.cards@[row * self.row_len() + col]
    }

    /// Whether the card at position `i` of the hand belongs to some set found.
    pub open spec fn in_some_set(&self, i: int) -> bool {
        exists|p: int| 0 <= p < self.triples@.len() && (#[trigger] self.triples@[p]).holds(self.cards@[i])
    }

    /// A table of a hand whose length is a multiple of three.
    pub fn new(cards: Vec<Card>, triples: Vec<Triple>) -> (r: Table)
        requires
            cards@.len() % 3 == 0,
        ensures
            r.cards@ == cards@,
            r.triples@ == triples@,
            r.wf(),
    {
        Table { cards, triples }
    }

    /// Whether the card at position `i` of the hand belongs to at least one of
    /// the sets.
    pub fn is_highlighted(&self, i: usize) -> (r: bool)
        requires
            i < self.cards@.len(),
        ensures
            r == self.in_some_set(i as int),
    {
        let c = self.cards[i];
        let mut p: usize = 0;
        while p < self.triples.len()
            invariant
                p <= self.triples@.len(),
                c == self.cards@[i as int],
                forall|q: int| 0 <= q < p ==> !(#[trigger] self.triples@[q]).holds(c),
            decreases self.triples.len() - p,
        {
            if self.triples[p].contains(&c) {
                return true;
            }
            p = p + 1;
        }
        false
    }

    /// One grid per set, in the order of `triples`. Grid `p` has three rows of
    /// `cards.len() / 3` cells; the cell at row `row`, column `col` holds
    /// `cards[row * (cards.len() / 3) + col]`, marked when that card belongs to
    /// set `p`. A card in two sets is thus marked in two grids.
    pub fn passes(&self) -> (r: Vec<Vec<Vec<Cell>>>)
        requires
            self.wf(),
        ensures
            r@.len() == self.triples@.len(),
            forall|p: int| 0 <= p < r@.len() ==> (#[trigger] r@[p])@.len() == ROWS,
            forall|p: int, row: int|
                0 <= p < r@.len() && 0 <= row < ROWS ==> (#[trigger] r@[p]@[row])@.len()
                    == self.row_len(),
            forall|p: int, row: int, col: int|
                0 <= p < r@.len() && 0 <= row < ROWS && 0 <= col < self.row_len()
                    ==> #[trigger] r@[p]@[row]@[col] == (Cell {
                    card: self.card_at(row, col),
                    highlighted: self.triples@[p].holds(self.card_at(row, col)),
                }),
    {
        let n = self.cards.len();
        let width = n / 3;
        let mut r: Vec<Vec<Vec<Cell>>> = Vec::new();
        let mut p: usize = 0;
        while p < self.triples.len()
            invariant
                self.wf(),
                n == self.cards@.len(),
                width == self.row_len(),
                p <= self.triples@.len(),
                r@.len() == p,
                forall|q: int| 0 <= q < p ==> (#[trigger] r@[q])@.len() == ROWS,
                forall|q: int, row: int|
                    0 <= q < p && 0 <= row < ROWS ==> (#[trigger] r@[q]@[row])@.len() == width,
                forall|q: int, row: int, col: int|
                    0 <= q < p && 0 <= row < ROWS && 0 <= col < width
                        ==> #[trigger] r@[q]@[row]@[col] == (Cell {
                        card: self.card_at(row, col),
                        highlighted: self.triples@[q].holds(self.card_at(row, col)),
                    }),
            decreases self.triples.len() - p,
        {
            let t = self.triples[p];
            let mut grid: Vec<Vec<Cell>> = Vec::new();
            let mut row: usize = 0;
            while row < ROWS
                invariant
                    self.wf(),
                    n == self.cards@.len(),
                    width == self.row_len(),
                    p < self.triples@.len(),
                    t == self.triples@[p as int],
                    row <= ROWS,
                    grid@.len() == row,
                    forall|x: int| 0 <= x < row ==> (#[trigger] grid@[x])@.len() == width,
                    forall|x: int, col: int|
                        0 <= x < row && 0 <= col < width ==> #[trigger] grid@[x]@[col] == (Cell {
                            card: self.card_at(x, col),
                            highlighted: t.holds(self.card_at(x, col)),
                        }),
                decreases ROWS - row,
            {
                let mut line: Vec<Cell> = Vec::new();
                let mut col: usize = 0;
                while col < width
                    invariant
                        self.wf(),
                        n == self.cards@.len(),
                        width == self.row_len(),
                        row < ROWS,
                        col <= width,
                        line@.len() == col,
                        forall|y: int| 0 <= y < col ==> #[trigger] line@[y] == (Cell {
                            card: self.card_at(row as int, y),
                            highlighted: t.holds(self.card_at(row as int, y)),
                        }),
                    decreases width - col,
                {
                    assert(row * width + col < n) by (nonlinear_arith)
                        requires
                            row < 3,
                            col < width,
                            width == n / 3,
                            n % 3 == 0,
                    ;
                    let c = self.cards[row * width + col];
                    let marked = t.contains(&c);
                    line.push(Cell { card: c, highlighted: marked });
                    col = col + 1;
                }
                grid.push(line);
                row = row + 1;
            }
            r.push(grid);
            p = p + 1;
        }
        r
    }
}

} // verus!
