use cube_shuffle::distribution_shuffle::{Odds, Pile, ShufflingErrors};
use cube_shuffle::output::Formats;
use cube_shuffle::request::{distribute_shuffle, DistributeError};

fn pile(cards: usize, numerator: u32, denominator: u32) -> Pile {
    Pile { cards, randomness: Odds { numerator, denominator } }
}

#[test]
fn no_piles_is_an_error() {
    let piles: Vec<(String, Pile)> = Vec::new();
    let r = distribute_shuffle(&piles, 15, "seed");
    assert_eq!(Err(DistributeError::NoPiles), r);
}

#[test]
fn all_empty_piles_is_an_error() {
    let piles = vec![
        ("A".to_string(), pile(0, 0, 1)),
        ("B".to_string(), pile(0, 0, 1)),
    ];
    let r = distribute_shuffle(&piles, 15, "seed");
    assert_eq!(Err(DistributeError::EmptyPiles), r);
}

#[test]
fn zero_pack_size_reports_the_shuffling_error() {
    let piles = vec![("A".to_string(), pile(5, 0, 1))];
    let r = distribute_shuffle(&piles, 0, "seed");
    assert_eq!(
        Err(DistributeError::Shuffling(ShufflingErrors::EmptyPacks)),
        r
    );
}

#[test]
fn too_few_cards_is_an_error() {
    let piles = vec![("A".to_string(), pile(3, 0, 1))];
    let r = distribute_shuffle(&piles, 5, "seed");
    assert_eq!(
        Err(DistributeError::NotEnoughCards { total_cards: 3, pack_size: 5 }),
        r
    );
}

#[test]
fn card_overflow_is_reported() {
    let piles = vec![
        ("A".to_string(), pile(usize::MAX, 0, 1)),
        ("B".to_string(), pile(2, 0, 1)),
    ];
    let r = distribute_shuffle(&piles, 10, "seed");
    assert_eq!(
        Err(DistributeError::Shuffling(ShufflingErrors::CardOverflow {
            current_cards: usize::MAX as u128 + 2,
            max_cards: usize::MAX as u128,
        })),
        r
    );
}

#[test]
fn a_full_request_produces_packs() {
    let piles = vec![
        ("A".to_string(), pile(10, 1, 2)),
        ("B".to_string(), pile(8, 0, 1)),
    ];
    let packs = distribute_shuffle(&piles, 6, "my draft").unwrap();
    assert_eq!(3, packs.len());
    for p in &packs {
        let total: usize = p.card_sources.iter().map(|e| e.1).sum();
        assert_eq!(6, total);
    }
}

#[test]
fn the_same_request_is_reproducible() {
    let piles = vec![
        ("A".to_string(), pile(10, 1, 2)),
        ("B".to_string(), pile(8, 1, 4)),
    ];
    let p1 = distribute_shuffle(&piles, 6, "my draft").unwrap();
    let p2 = distribute_shuffle(&piles, 6, "my draft").unwrap();
    assert_eq!(p1, p2);
}

#[test]
fn formats_are_distinct() {
    let all = [Formats::Debug, Formats::PrettyDebug, Formats::Json, Formats::Yaml];
    for (i, a) in all.iter().enumerate() {
        for (j, b) in all.iter().enumerate() {
            assert_eq!(i == j, a == b);
        }
    }
}
