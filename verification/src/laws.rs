//! Consequences of the allocator's contract, stated on their own so a
//! reader finds them spelled out rather than implied.

use vstd::prelude::*;

use crate::distribution_shuffle::{
    conserves_piles, f_cards, f_for, f_id, f_pack_for, packs_count_for, shuffle_post,
    spec_total_cards, Pack, Pile,
};
use crate::seq_sums::{
    lemma_sum_by_all_at_floor, lemma_sum_by_lower_bound, lemma_sum_by_upper_bound, sum_by,
};

verus! {

/// Measure of a pack: the number of items it holds.
pub open spec fn f_pack_total() -> spec_fn(Pack) -> int {
    |p: Pack| p.total()
}

/// Law: too few items for a single pack yield no packs at all.
pub proof fn lemma_small_total_no_packs(piles: Seq<(String, Pile)>, pack_size: int, packs: Seq<
    Pack,
>)
    requires
        pack_size > 0,
        shuffle_post(piles, pack_size, packs),
        spec_total_cards(piles) < pack_size,
    ensures
        packs.len() == 0,
{
    let t = spec_total_cards(piles);
    assert(forall|i: int| 0 <= i < piles.len() ==> 0 <= #[trigger] f_cards()(piles[i]));
    lemma_sum_by_lower_bound(piles, f_cards(), 0);
    assert(t == 0 * pack_size + t) by (nonlinear_arith);
    vstd::arithmetic::div_mod::lemma_fundamental_div_mod_converse_div(t, pack_size, 0, t);
}

/// Law: over all packs together, exactly the evenly divisible part of the
/// total is handed out: the counts sum to `(T / pack_size) * pack_size`,
/// which is the total minus the discarded remainder.
pub proof fn lemma_distributed_total(piles: Seq<(String, Pile)>, pack_size: int, packs: Seq<Pack>)
    requires
        pack_size > 0,
        shuffle_post(piles, pack_size, packs),
    ensures
        sum_by(packs, f_pack_total()) == (spec_total_cards(piles) / pack_size) * pack_size,
        sum_by(packs, f_pack_total()) == spec_total_cards(piles) - spec_total_cards(piles)
            % pack_size,
{
    let t = spec_total_cards(piles);
    assert(forall|k: int|
        0 <= k < packs.len() ==> #[trigger] f_pack_total()(packs[k]) == pack_size);
    lemma_sum_by_lower_bound(packs, f_pack_total(), pack_size);
    lemma_sum_by_upper_bound(packs, f_pack_total(), pack_size);
    assert(sum_by(packs, f_pack_total()) == pack_size * packs.len());
    assert(pack_size * (t / pack_size) == (t / pack_size) * pack_size) by (nonlinear_arith);
    vstd::arithmetic::div_mod::lemma_fundamental_div_mod(t, pack_size);
}

/// Law: when the pack size divides the total exactly, nothing is
/// discarded, and every pile's items are fully conserved: across all packs
/// the counts recorded under the pile's name add up to the pile's size.
pub proof fn lemma_exact_conservation(piles: Seq<(String, Pile)>, pack_size: int, packs: Seq<Pack>)
    requires
        pack_size > 0,
        shuffle_post(piles, pack_size, packs),
        spec_total_cards(piles) % pack_size == 0,
    ensures
        forall|i: int|
            0 <= i < piles.len() ==> packs_count_for(packs, (#[trigger] piles[i]).0@)
                == piles[i].1.cards,
{
    let d = choose|d: Seq<int>| conserves_piles(piles, pack_size, packs, d);
    assert(sum_by(d, f_id()) == 0);
    assert(forall|i: int| 0 <= i < d.len() ==> 0 <= #[trigger] f_id()(d[i]));
    lemma_sum_by_all_at_floor(d, f_id(), 0);
    assert forall|i: int| 0 <= i < piles.len() implies packs_count_for(
        packs,
        (#[trigger] piles[i]).0@,
    ) == piles[i].1.cards by {
        assert(f_id()(d[i]) == 0);
    }
}

/// Law: a name that belongs to no pile is recorded nowhere: no pack holds
/// any items under it.
pub proof fn lemma_unknown_names_get_nothing(
    piles: Seq<(String, Pile)>,
    pack_size: int,
    packs: Seq<Pack>,
    name: Seq<char>,
)
    requires
        pack_size > 0,
        shuffle_post(piles, pack_size, packs),
        forall|i: int| 0 <= i < piles.len() ==> (#[trigger] piles[i]).0@ != name,
    ensures
        packs_count_for(packs, name) == 0,
{
    assert forall|k: int| 0 <= k < packs.len() implies #[trigger] f_pack_for(name)(packs[k])
        == 0 by {
        let entries = packs[k].card_sources@;
        assert forall|x: int| 0 <= x < entries.len() implies #[trigger] f_for(name)(entries[x])
            == 0 by {
            assert(packs[k].card_sources@[x] == entries[x]);
            let i = choose|i: int|
                0 <= i < piles.len() && packs[k].card_sources@[x].0@ == piles[i].0@;
            assert(piles[i].0@ != name);
        }
        lemma_sum_by_upper_bound(entries, f_for(name), 0);
        lemma_sum_by_lower_bound(entries, f_for(name), 0);
    }
    lemma_sum_by_upper_bound(packs, f_pack_for(name), 0);
    lemma_sum_by_lower_bound(packs, f_pack_for(name), 0);
}

/// Law: a pile that never randomizes its items is spread as evenly as
/// possible: when the pack size divides the total exactly, every single
/// pack holds either the floor or the ceiling of the pile's size divided
/// by the number of packs.
pub proof fn lemma_even_spread(piles: Seq<(String, Pile)>, pack_size: int, packs: Seq<Pack>)
    requires
        pack_size > 0,
        shuffle_post(piles, pack_size, packs),
        spec_total_cards(piles) % pack_size == 0,
    ensures
        forall|i: int, k: int|
            #![trigger piles[i], packs[k]]
            0 <= i < piles.len() && 0 <= k < packs.len() && piles[i].1.randomness.is_never()
                ==> piles[i].1.cards as int / (packs.len() as int) <= packs[k].count_for(piles[i].0@)
                <= piles[i].1.cards as int / (packs.len() as int) + 1,
{
    let d = choose|d: Seq<int>| conserves_piles(piles, pack_size, packs, d);
    assert(sum_by(d, f_id()) == 0);
    assert(forall|i: int| 0 <= i < d.len() ==> 0 <= #[trigger] f_id()(d[i]));
    lemma_sum_by_all_at_floor(d, f_id(), 0);
    assert forall|i: int, k: int|
        #![trigger piles[i], packs[k]]
        0 <= i < piles.len() && 0 <= k < packs.len()
            && piles[i].1.randomness.is_never() implies piles[i].1.cards as int / (packs.len() as int)
        <= packs[k].count_for(piles[i].0@) <= piles[i].1.cards as int / (packs.len() as int) + 1 by {
        assert(f_id()(d[i]) == 0);
        assert(piles[i].1.cards - d[i] == piles[i].1.cards as int);
    }
}

} // verus!
