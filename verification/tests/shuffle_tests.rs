use std::collections::HashMap;

use cube_shuffle::distribution_shuffle::{shuffle, Odds, Pack, Pile, ShufflingErrors};
use cube_shuffle::rng::ShuffleRng;

fn pile(cards: usize, numerator: u32, denominator: u32) -> Pile {
    Pile { cards, randomness: Odds { numerator, denominator } }
}

fn pack_sum(p: &Pack) -> usize {
    p.card_sources.iter().map(|e| e.1).sum()
}

fn count_for(packs: &[Pack], name: &str) -> usize {
    packs
        .iter()
        .flat_map(|p| p.card_sources.iter())
        .filter(|e| e.0 == name)
        .map(|e| e.1)
        .sum()
}

#[test]
fn even_piles_fill_packs_exactly() {
    let piles = vec![
        ("A".to_string(), pile(10, 0, 1)),
        ("B".to_string(), pile(10, 0, 1)),
    ];
    for seed in 0..20u64 {
        let mut rng = ShuffleRng::from_seed(seed);
        let packs = shuffle(&piles, 5, &mut rng).unwrap();
        assert_eq!(4, packs.len());
        for p in &packs {
            assert_eq!(5, pack_sum(p));
            for e in &p.card_sources {
                assert!(e.0 == "A" || e.0 == "B");
                assert!(e.1 > 0);
                // 10 cards over 4 packs: each pack holds 2 or 3 of a pile.
                assert!(2 <= e.1 && e.1 <= 3);
            }
        }
        assert_eq!(10, count_for(&packs, "A"));
        assert_eq!(10, count_for(&packs, "B"));
    }
}

#[test]
fn overflow_cards_are_discarded() {
    let piles = vec![("A".to_string(), pile(7, 0, 1))];
    for seed in 0..20u64 {
        let mut rng = ShuffleRng::from_seed(seed);
        let packs = shuffle(&piles, 5, &mut rng).unwrap();
        assert_eq!(1, packs.len());
        assert_eq!(vec![("A".to_string(), 5)], packs[0].card_sources);
    }
}

#[test]
fn empty_piles_give_no_packs() {
    let piles: Vec<(String, Pile)> = Vec::new();
    let mut rng = ShuffleRng::from_seed(3);
    let packs = shuffle(&piles, 5, &mut rng).unwrap();
    assert!(packs.is_empty());
}

#[test]
fn all_empty_piles_give_no_packs() {
    let piles = vec![
        ("A".to_string(), pile(0, 0, 1)),
        ("B".to_string(), pile(0, 1, 1)),
    ];
    let mut rng = ShuffleRng::from_seed(3);
    let packs = shuffle(&piles, 5, &mut rng).unwrap();
    assert!(packs.is_empty());
}

#[test]
fn zero_pack_size_is_refused() {
    let piles = vec![("A".to_string(), pile(10, 0, 1))];
    let mut rng = ShuffleRng::from_seed(9);
    let shuffled = shuffle(&piles, 0, &mut rng);
    assert_eq!(Err(ShufflingErrors::EmptyPacks), shuffled);
}

#[test]
fn zero_pack_size_is_refused_without_piles() {
    let piles: Vec<(String, Pile)> = Vec::new();
    let mut rng = ShuffleRng::from_seed(9);
    let shuffled = shuffle(&piles, 0, &mut rng);
    assert_eq!(Err(ShufflingErrors::EmptyPacks), shuffled);
}

#[test]
fn too_many_cards_overflow() {
    let piles = vec![
        ("A".to_string(), pile(usize::MAX, 0, 1)),
        ("B".to_string(), pile(usize::MAX, 0, 1)),
    ];
    let mut rng = ShuffleRng::from_seed(1);
    let shuffled = shuffle(&piles, 10, &mut rng);
    assert_eq!(
        Err(ShufflingErrors::CardOverflow {
            current_cards: 2 * (usize::MAX as u128),
            max_cards: usize::MAX as u128,
        }),
        shuffled
    );
}

#[test]
fn too_few_cards_for_one_pack() {
    let piles = vec![("A".to_string(), pile(4, 0, 1))];
    let mut rng = ShuffleRng::from_seed(5);
    let packs = shuffle(&piles, 5, &mut rng).unwrap();
    assert!(packs.is_empty());
}

#[test]
fn same_seed_same_packs() {
    let piles = vec![
        ("A".to_string(), pile(9, 1, 2)),
        ("B".to_string(), pile(7, 1, 3)),
        ("C".to_string(), pile(5, 1, 1)),
    ];
    for seed in [0u64, 1, 42, u64::MAX] {
        let mut r1 = ShuffleRng::from_seed(seed);
        let mut r2 = ShuffleRng::from_seed(seed);
        let p1 = shuffle(&piles, 4, &mut r1).unwrap();
        let p2 = shuffle(&piles, 4, &mut r2).unwrap();
        assert_eq!(p1, p2);
    }
}

#[test]
fn zero_and_full_randomness_balance() {
    // A keeps every item; B pools every item, and the pooled items fill
    // exactly the slots they vacated: every pack must come out 2 + 2.
    let piles = vec![
        ("A".to_string(), pile(4, 0, 1)),
        ("B".to_string(), pile(4, 1, 1)),
    ];
    for seed in 0..30u64 {
        let mut rng = ShuffleRng::from_seed(seed);
        let packs = shuffle(&piles, 4, &mut rng).unwrap();
        assert_eq!(2, packs.len());
        for p in &packs {
            let m: HashMap<String, usize> = p.card_sources.iter().cloned().collect();
            assert_eq!(Some(&2), m.get("A"));
            assert_eq!(Some(&2), m.get("B"));
            assert_eq!(2, m.len());
        }
    }
}

#[test]
fn conservation_with_randomness() {
    let piles = vec![
        ("A".to_string(), pile(12, 1, 2)),
        ("B".to_string(), pile(6, 1, 1)),
        ("C".to_string(), pile(6, 1, 4)),
    ];
    for seed in 0..20u64 {
        let mut rng = ShuffleRng::from_seed(seed);
        let packs = shuffle(&piles, 6, &mut rng).unwrap();
        assert_eq!(4, packs.len());
        for p in &packs {
            assert_eq!(6, pack_sum(p));
            for e in &p.card_sources {
                assert!(e.1 > 0);
            }
        }
        assert_eq!(12, count_for(&packs, "A"));
        assert_eq!(6, count_for(&packs, "B"));
        assert_eq!(6, count_for(&packs, "C"));
    }
}

#[test]
fn discard_choice_is_randomized() {
    // One of seven cards is discarded. Were the discard choice not drawn
    // from the random source, the first pile's single card would be
    // discarded on every run.
    let piles = vec![
        ("A".to_string(), pile(1, 0, 1)),
        ("B".to_string(), pile(6, 0, 1)),
    ];
    let mut a_appeared = false;
    for seed in 0..60u64 {
        let mut rng = ShuffleRng::from_seed(seed);
        let packs = shuffle(&piles, 3, &mut rng).unwrap();
        assert_eq!(2, packs.len());
        if count_for(&packs, "A") > 0 {
            a_appeared = true;
        }
    }
    assert!(a_appeared);
}
