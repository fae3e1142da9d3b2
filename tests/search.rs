use std::collections::HashSet;

use setvision::attributes::{Color, Count, Shading, Shape};
use setvision::card::{generate_all_cards, Card};
use setvision::combinations::{combinations, index_triples};
use setvision::deal::{deal, deal_from};
use setvision::search::{find_all_sets, find_set};
use setvision::triple::{is_set, Triple};

fn card(color: Color, n: u8, shading: Shading, shape: Shape) -> Card {
    Card::new(color, Count::from_number(n), shading, shape)
}

#[test]
fn twelve_positions_give_220_triples() {
    let ts = index_triples(12);
    assert_eq!(ts.len(), 220);
    let unique: HashSet<(usize, usize, usize)> = ts.iter().copied().collect();
    assert_eq!(unique.len(), 220);
    assert!(ts.iter().all(|&(i, j, l)| i < j && j < l && l < 12));
    assert_eq!(ts[0], (0, 1, 2));
    assert_eq!(ts[1], (0, 1, 3));
    assert_eq!(ts[10], (0, 2, 3));
    assert_eq!(ts[219], (9, 10, 11));
    assert!(ts.windows(2).all(|w| w[0] < w[1]));
}

#[test]
fn small_sizes_of_triples() {
    assert!(index_triples(0).is_empty());
    assert!(index_triples(2).is_empty());
    assert_eq!(index_triples(3), vec![(0, 1, 2)]);
    assert_eq!(index_triples(4), vec![(0, 1, 2), (0, 1, 3), (0, 2, 3), (1, 2, 3)]);
    assert_eq!(index_triples(81).len(), 85320);
}

#[test]
fn search_on_dealt_hand_is_consistent() {
    for seed in 0..20u64 {
        let hand = deal(seed, 12);
        let all = find_all_sets(&hand);
        assert!(all.len() <= 220);
        assert!(all.iter().all(|t| t.is_set()));
        let mut expected = Vec::new();
        for (i, j, l) in index_triples(12) {
            if is_set(&hand[i], &hand[j], &hand[l]) {
                expected.push(Triple::new(hand[i], hand[j], hand[l]));
            }
        }
        assert_eq!(all, expected);
        match find_set(&hand) {
            Some(t) => {
                assert!(all.contains(&t));
                assert_eq!(t, all[0]);
            }
            None => assert!(all.is_empty()),
        }
    }
}

#[test]
fn hand_without_sets() {
    let hand = vec![
        card(Color::Green, 1, Shading::Solid, Shape::Squiggle),
        card(Color::Green, 2, Shading::Open, Shape::Oval),
        card(Color::Green, 3, Shading::Solid, Shape::Diamond),
    ];
    assert_eq!(find_set(&hand), None);
    assert!(find_all_sets(&hand).is_empty());
    assert!(find_all_sets(&Vec::new()).is_empty());
    assert_eq!(find_set(&Vec::new()), None);
}

#[test]
fn find_set_returns_first_in_canonical_order() {
    let a = card(Color::Red, 1, Shading::Solid, Shape::Diamond);
    let b = card(Color::Red, 2, Shading::Solid, Shape::Diamond);
    let c = card(Color::Green, 1, Shading::Open, Shape::Oval);
    let d = card(Color::Red, 3, Shading::Solid, Shape::Diamond);
    let e = card(Color::Purple, 1, Shading::Striped, Shape::Squiggle);
    let hand = vec![a, b, c, d, e];
    let all = find_all_sets(&hand);
    assert_eq!(all, vec![Triple::new(a, b, d), Triple::new(a, c, e)]);
    assert_eq!(find_set(&hand), Some(Triple::new(a, b, d)));
}

#[test]
fn full_deck_has_1080_sets() {
    let deck = generate_all_cards();
    assert_eq!(find_all_sets(&deck).len(), 1080);
}

#[test]
fn deal_is_reproducible_and_without_repeats() {
    let first = deal(42, 12);
    let again = deal(42, 12);
    assert_eq!(first, again);
    assert_eq!(first.len(), 12);
    let unique: HashSet<Card> = first.iter().copied().collect();
    assert_eq!(unique.len(), 12);
    assert!(deal(7, 0).is_empty());
}

#[test]
fn deal_shuffles_the_deck() {
    let deck = generate_all_cards();
    let whole = deal(3, 81);
    assert_ne!(whole, deck);
    let mut sorted = whole.clone();
    sorted.sort();
    assert_eq!(sorted, deck);
    assert_eq!(deal(3, 12), whole[..12].to_vec());
    assert_ne!(deal(1, 81), deal(2, 81));
}

#[test]
fn deal_from_takes_a_prefix() {
    let deck = generate_all_cards();
    assert_eq!(deal_from(&deck, 3), deck[..3].to_vec());
    assert!(deal_from(&deck, 0).is_empty());
    assert_eq!(deal_from(&deck, 81), deck);
}

#[test]
fn k_combinations_in_lexicographic_order() {
    assert_eq!(
        combinations(4, 2),
        vec![vec![0, 1], vec![0, 2], vec![0, 3], vec![1, 2], vec![1, 3], vec![2, 3]]
    );
    assert_eq!(combinations(5, 0), vec![Vec::<usize>::new()]);
    assert!(combinations(3, 5).is_empty());
    assert_eq!(combinations(3, 3), vec![vec![0, 1, 2]]);
    assert_eq!(combinations(10, 4).len(), 210);
    let as_triples: Vec<(usize, usize, usize)> =
        combinations(12, 3).iter().map(|c| (c[0], c[1], c[2])).collect();
    assert_eq!(as_triples, index_triples(12));
    assert_eq!(as_triples.len(), 220);
}
