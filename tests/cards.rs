use std::collections::{BTreeSet, HashSet};

use setvision::attributes::{Color, Count, Shading, Shape};
use setvision::card::{generate_all_cards, Card, DECK_SIZE};
use setvision::triple::{is_set, Triple};

fn card(color: Color, n: u8, shading: Shading, shape: Shape) -> Card {
    Card::new(color, Count::from_number(n), shading, shape)
}

#[test]
fn deck_has_every_card_once() {
    let deck = generate_all_cards();
    assert_eq!(deck.len(), 81);
    assert_eq!(DECK_SIZE, 81);
    let unique: HashSet<Card> = deck.iter().copied().collect();
    assert_eq!(unique.len(), 81);
    let ordered: BTreeSet<Card> = deck.iter().copied().collect();
    assert_eq!(ordered.len(), 81);
}

#[test]
fn deck_is_in_canonical_order() {
    let deck = generate_all_cards();
    assert_eq!(deck[0], card(Color::Red, 1, Shading::Solid, Shape::Diamond));
    assert_eq!(deck[1], card(Color::Red, 1, Shading::Solid, Shape::Squiggle));
    assert_eq!(deck[3], card(Color::Red, 1, Shading::Striped, Shape::Diamond));
    assert_eq!(deck[9], card(Color::Red, 2, Shading::Solid, Shape::Diamond));
    assert_eq!(deck[27], card(Color::Green, 1, Shading::Solid, Shape::Diamond));
    assert_eq!(deck[80], card(Color::Purple, 3, Shading::Open, Shape::Oval));
    assert!(deck.windows(2).all(|w| w[0] < w[1]));
    assert_eq!(generate_all_cards(), deck);
}

#[test]
fn attribute_values_in_order() {
    assert_eq!(Color::values(), vec![Color::Red, Color::Green, Color::Purple]);
    assert_eq!(Count::values(), vec![Count::One, Count::Two, Count::Three]);
    assert_eq!(Shading::values(), vec![Shading::Solid, Shading::Striped, Shading::Open]);
    assert_eq!(Shape::values(), vec![Shape::Diamond, Shape::Squiggle, Shape::Oval]);
    assert!(Color::Red < Color::Green && Color::Green < Color::Purple);
}

#[test]
fn count_numbers() {
    assert_eq!(Count::from_number(1), Count::One);
    assert_eq!(Count::from_number(2), Count::Two);
    assert_eq!(Count::from_number(3), Count::Three);
    assert_eq!(Count::Three.number(), 3);
    assert_eq!(Count::One.number(), 1);
}

#[test]
fn known_set_fixture() {
    let a = card(Color::Green, 1, Shading::Solid, Shape::Squiggle);
    let b = card(Color::Green, 2, Shading::Open, Shape::Oval);
    let c = card(Color::Green, 3, Shading::Striped, Shape::Diamond);
    assert!(is_set(&a, &b, &c));
    assert!(Triple::new(a, b, c).is_set());
}

#[test]
fn known_non_set_fixture() {
    let a = card(Color::Green, 1, Shading::Solid, Shape::Squiggle);
    let b = card(Color::Green, 2, Shading::Open, Shape::Oval);
    let c = card(Color::Green, 3, Shading::Solid, Shape::Diamond);
    assert!(!is_set(&a, &b, &c));
    assert!(!Triple::new(a, b, c).is_set());
}

#[test]
fn each_attribute_can_break_a_set() {
    let base = [
        card(Color::Red, 1, Shading::Solid, Shape::Diamond),
        card(Color::Green, 2, Shading::Striped, Shape::Squiggle),
        card(Color::Purple, 3, Shading::Open, Shape::Oval),
    ];
    assert!(is_set(&base[0], &base[1], &base[2]));
    let mut c = base;
    c[2].color = Color::Red;
    assert!(!is_set(&c[0], &c[1], &c[2]));
    let mut c = base;
    c[2].count = Count::Two;
    assert!(!is_set(&c[0], &c[1], &c[2]));
    let mut c = base;
    c[2].shading = Shading::Solid;
    assert!(!is_set(&c[0], &c[1], &c[2]));
    let mut c = base;
    c[2].shape = Shape::Squiggle;
    assert!(!is_set(&c[0], &c[1], &c[2]));
}

#[test]
fn same_card_thrice_is_a_set() {
    let a = card(Color::Purple, 2, Shading::Open, Shape::Oval);
    assert!(is_set(&a, &a, &a));
}

#[test]
fn validity_ignores_order() {
    let deck = generate_all_cards();
    let mut sets = 0;
    for a in deck.iter().step_by(5) {
        for b in deck.iter().step_by(3) {
            for c in deck.iter() {
                let v = is_set(a, b, c);
                assert_eq!(v, is_set(b, a, c));
                assert_eq!(v, is_set(c, b, a));
                assert_eq!(v, is_set(a, c, b));
                assert_eq!(v, is_set(b, c, a));
                assert_eq!(v, is_set(c, a, b));
                if v {
                    sets += 1;
                }
            }
        }
    }
    assert!(sets > 0);
}

#[test]
fn two_distinct_cards_complete_one_set() {
    let deck = generate_all_cards();
    for a in deck.iter().step_by(7) {
        for b in deck.iter().step_by(4) {
            if a != b {
                let thirds = deck.iter().filter(|c| is_set(a, b, c)).count();
                assert_eq!(thirds, 1);
            }
        }
    }
}

#[test]
fn triple_contains_its_cards() {
    let a = card(Color::Green, 1, Shading::Solid, Shape::Squiggle);
    let b = card(Color::Green, 2, Shading::Open, Shape::Oval);
    let c = card(Color::Green, 3, Shading::Striped, Shape::Diamond);
    let other = card(Color::Red, 1, Shading::Solid, Shape::Squiggle);
    let t = Triple::new(a, b, c);
    assert!(t.contains(&a) && t.contains(&b) && t.contains(&c));
    assert!(!t.contains(&other));
}

#[test]
fn positions_follow_the_deck() {
    let deck = generate_all_cards();
    for (k, c) in deck.iter().enumerate() {
        assert_eq!(c.position() as usize, k);
    }
    let a = card(Color::Green, 2, Shading::Open, Shape::Oval);
    assert_eq!(a.position(), 27 + 9 + 6 + 2);
}
