use setvision::attributes::{Color, Count, Shading, Shape};
use setvision::card::Card;
use setvision::search::find_all_sets;
use setvision::table::{Cell, Table, ROWS};
use setvision::triple::Triple;

fn card(color: Color, n: u8, shading: Shading, shape: Shape) -> Card {
    Card::new(color, Count::from_number(n), shading, shape)
}

fn hand() -> Vec<Card> {
    vec![
        card(Color::Red, 1, Shading::Solid, Shape::Diamond),
        card(Color::Red, 2, Shading::Solid, Shape::Diamond),
        card(Color::Green, 1, Shading::Open, Shape::Oval),
        card(Color::Red, 3, Shading::Solid, Shape::Diamond),
        card(Color::Purple, 1, Shading::Striped, Shape::Squiggle),
        card(Color::Purple, 2, Shading::Open, Shape::Oval),
    ]
}

#[test]
fn one_grid_per_set_with_its_cards_marked() {
    let cards = hand();
    let triples = find_all_sets(&cards);
    assert_eq!(triples.len(), 2);
    let table = Table::new(cards.clone(), triples);
    let passes = table.passes();
    assert_eq!(passes.len(), 2);
    assert_eq!(ROWS, 3);
    for grid in &passes {
        assert_eq!(grid.len(), 3);
        for row in grid {
            assert_eq!(row.len(), 2);
        }
    }
    // Row r, column c holds card 2 * r + c.
    assert_eq!(passes[0][0][0], Cell { card: cards[0], highlighted: true });
    assert_eq!(passes[0][0][1], Cell { card: cards[1], highlighted: true });
    assert_eq!(passes[0][1][0], Cell { card: cards[2], highlighted: false });
    assert_eq!(passes[0][1][1], Cell { card: cards[3], highlighted: true });
    assert_eq!(passes[0][2][0], Cell { card: cards[4], highlighted: false });
    assert_eq!(passes[0][2][1], Cell { card: cards[5], highlighted: false });
    // The first card is in both sets, so it is marked in both grids.
    assert_eq!(passes[1][0][0], Cell { card: cards[0], highlighted: true });
    assert_eq!(passes[1][0][1], Cell { card: cards[1], highlighted: false });
    assert_eq!(passes[1][1][0], Cell { card: cards[2], highlighted: true });
    assert_eq!(passes[1][1][1], Cell { card: cards[3], highlighted: false });
    assert_eq!(passes[1][2][0], Cell { card: cards[4], highlighted: true });
    assert_eq!(passes[1][2][1], Cell { card: cards[5], highlighted: false });
}

#[test]
fn highlight_marks_cards_in_any_set() {
    let cards = hand();
    let triples = find_all_sets(&cards);
    let table = Table::new(cards, triples);
    let marked: Vec<bool> = (0..6).map(|i| table.is_highlighted(i)).collect();
    assert_eq!(marked, vec![true, true, true, true, true, false]);
}

#[test]
fn no_sets_no_grids() {
    let cards = hand()[..3].to_vec();
    let table = Table::new(cards, Vec::new());
    assert!(table.passes().is_empty());
    assert!(!table.is_highlighted(0));
}

#[test]
fn grid_of_given_triple() {
    let cards = hand();
    let t = Triple::new(cards[5], cards[4], cards[3]);
    let table = Table::new(cards.clone(), vec![t]);
    let passes = table.passes();
    let marked: Vec<bool> = passes[0].iter().flatten().map(|c| c.highlighted).collect();
    assert_eq!(marked, vec![false, false, false, true, true, true]);
}
