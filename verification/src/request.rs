//! The user-facing shuffle request: validates the piles, derives the seed
//! from free-form text, runs the allocator, and classifies every way the
//! request can fail so a presentation layer only has to word the messages.

use vstd::prelude::*;

use crate::distribution_shuffle::{
    piles_wf, shuffle, shuffle_post, spec_total_cards, total_of_piles, Pack, Pile, ShufflingErrors,
};
use crate::rng::ShuffleRng;
use crate::seeding::get_seed;

verus! {

/// Why a shuffle request produced no packs.
#[derive(Clone, Copy, Debug, PartialEq, Eq)]
pub enum DistributeError {
    /// No piles were supplied.
    NoPiles,
    /// Piles were supplied, but all of them are empty.
    EmptyPiles,
    /// The items do not fill even one pack of the requested size.
    NotEnoughCards { total_cards: u128, pack_size: usize },
    /// The allocator itself refused the request.
    Shuffling(ShufflingErrors),
}

/// Runs one shuffle request: the piles, the requested pack size, and the
/// seed text. Succeeds exactly when there is at least one pile, the piles
/// hold at least one item in total and enough items for one pack, the pack
/// size is positive, and the total fits the working count type; each
/// failure names its cause.
pub fn distribute_shuffle(piles: &Vec<(String, Pile)>, pack_size: usize, seed: &str) -> (r: Result<
    Vec<Pack>,
    DistributeError,
>)
    requires
        piles_wf(piles@),
    ensures
        piles@.len() == 0 ==> r == Err::<Vec<Pack>, DistributeError>(DistributeError::NoPiles),
        piles@.len() > 0 && spec_total_cards(piles@) == 0 ==> r == Err::<
            Vec<Pack>,
            DistributeError,
        >(DistributeError::EmptyPiles),
        piles@.len() > 0 && spec_total_cards(piles@) > 0 && pack_size == 0 ==> r == Err::<
            Vec<Pack>,
            DistributeError,
        >(DistributeError::Shuffling(ShufflingErrors::EmptyPacks)),
        piles@.len() > 0 && pack_size > 0 && spec_total_cards(piles@) > usize::MAX ==> r == Err::<
            Vec<Pack>,
            DistributeError,
        >(
            DistributeError::Shuffling(
                ShufflingErrors::CardOverflow {
                    current_cards: spec_total_cards(piles@) as u128,
                    max_cards: usize::MAX as u128,
                },
            ),
        ),
        piles@.len() > 0 && pack_size > 0 && 0 < spec_total_cards(piles@) <= usize::MAX
            && spec_total_cards(piles@) / pack_size as int == 0 ==> r == Err::<
            Vec<Pack>,
            DistributeError,
        >(
            DistributeError::NotEnoughCards {
                total_cards: spec_total_cards(piles@) as u128,
                pack_size,
            },
        ),
        piles@.len() > 0 && pack_size > 0 && 0 < spec_total_cards(piles@) <= usize::MAX
            && spec_total_cards(piles@) / pack_size as int > 0 ==> r is Ok && shuffle_post(
            piles@,
            pack_size as int,
            r->Ok_0@,
        ) && r->Ok_0@.len() > 0,
{
    if piles.len() == 0 {
        return Err(DistributeError::NoPiles);
    }
    let total_cards: u128 = total_of_piles(piles);
    if total_cards == 0 {
        return Err(DistributeError::EmptyPiles);
    }
    let seed_value = get_seed(seed);
    let mut rng = ShuffleRng::from_seed(seed_value);
    match shuffle(piles, pack_size, &mut rng) {
        Ok(packs) => {
            if packs.len() == 0 {
                return Err(
                    DistributeError::NotEnoughCards { total_cards, pack_size },
                );
            }
            Ok(packs)
        },
        Err(e) => Err(DistributeError::Shuffling(e)),
    }
}

} // verus!
