//! The allocator: partitions all items of a collection of named piles into
//! equal-sized packs. Each pile's items are spread round-robin over the
//! packs; a per-pile fraction of the items is instead pooled and later
//! redistributed uniformly at random over the slots reserved for it; items
//! left over after exact division into packs are discarded uniformly at
//! random. See `shuffle` for the contract.

use vstd::prelude::*;

use crate::rng::ShuffleRng;
use crate::seq_sums::{
    lemma_sum_by_all_at_floor, lemma_sum_by_element_le, lemma_sum_by_lower_bound,
    lemma_sum_by_multiset_eq, lemma_sum_by_push, lemma_sum_by_remove, lemma_sum_by_split,
    lemma_sum_by_transfer, lemma_sum_by_update, lemma_sum_by_upper_bound, sum_by,
};

verus! {

broadcast use vstd::seq_lib::group_seq_properties;

/// A probability, given as the ratio `numerator / denominator`.
#[derive(Clone, Copy, Debug, PartialEq, Eq)]
pub struct Odds {
    pub numerator: u32,
    pub denominator: u32,
}

impl Odds {
    /// A well-formed ratio denotes a probability: it is between zero and one.
    pub open spec fn wf(self) -> bool {
        0 < self.denominator && self.numerator <= self.denominator
    }

    /// The pile keeps every item for itself.
    pub open spec fn is_never(self) -> bool {
        self.numerator == 0
    }
}

/// A named source of items: how many it holds, and the probability with
/// which each of its items is redistributed at random.
#[derive(Clone, Copy, Debug, PartialEq, Eq)]
pub struct Pile {
    pub cards: usize,
    pub randomness: Odds,
}

/// One output group: how many items each pile contributed to it. The entry
/// list models a mapping; a well-formed pack holds each pile name at most
/// once and only with a positive count.
#[derive(Clone, Debug, PartialEq, Eq)]
pub struct Pack {
    pub card_sources: Vec<(String, usize)>,
}

/// Why no packs could be produced.
#[derive(Clone, Copy, Debug, PartialEq, Eq)]
pub enum ShufflingErrors {
    /// The requested pack size is zero.
    EmptyPacks,
    /// The piles together hold more items than the working count type can
    /// represent.
    CardOverflow { current_cards: u128, max_cards: u128 },
}

// ---------------------------------------------------------------------------
// Measures used throughout the contracts.
// ---------------------------------------------------------------------------

/// Measure of a pack entry: its count.
pub open spec fn f_count() -> spec_fn((String, usize)) -> int {
    |e: (String, usize)| e.1 as int
}

/// Measure of a pack entry: its count if it is recorded under `name`,
/// else zero.
pub open spec fn f_for(name: Seq<char>) -> spec_fn((String, usize)) -> int {
    |e: (String, usize)| if e.0@ == name { e.1 as int } else { 0 }
}

/// Measure of a pile entry: how many items the pile holds.
pub open spec fn f_cards() -> spec_fn((String, Pile)) -> int {
    |e: (String, Pile)| e.1.cards as int
}

/// Measure of a pack: how many items it records under `name`.
pub open spec fn f_pack_for(name: Seq<char>) -> spec_fn(Pack) -> int {
    |p: Pack| p.count_for(name)
}

/// The identity measure on integers.
pub open spec fn f_id() -> spec_fn(int) -> int {
    |x: int| x
}

pub open spec fn f_usize() -> spec_fn(usize) -> int {
    |x: usize| x as int
}

impl Pack {
    /// The number of items in the pack.
    pub open spec fn total(self) -> int {
        sum_by(self.card_sources@, f_count())
    }

    /// The number of items the pack records under `name`.
    pub open spec fn count_for(self, name: Seq<char>) -> int {
        sum_by(self.card_sources@, f_for(name))
    }

    /// Each name appears at most once, and only with a positive count.
    pub open spec fn wf(self) -> bool {
        &&& forall|i: int, j: int|
            0 <= i < j < self.card_sources@.len() ==> #[trigger] self.card_sources@[i].0@
                != #[trigger] self.card_sources@[j].0@
        &&& forall|i: int|
            0 <= i < self.card_sources@.len() ==> (#[trigger] self.card_sources@[i]).1 > 0
    }
}

/// The number of items a pack sequence records under `name`, over all packs.
pub open spec fn packs_count_for(packs: Seq<Pack>, name: Seq<char>) -> int {
    sum_by(packs, f_pack_for(name))
}

/// The total number of items across all piles.
pub open spec fn spec_total_cards(piles: Seq<(String, Pile)>) -> int {
    sum_by(piles, f_cards())
}

/// The input models a mapping: pile names are distinct, and every
/// randomness ratio denotes a probability.
pub open spec fn piles_wf(piles: Seq<(String, Pile)>) -> bool {
    &&& forall|i: int, j: int|
        0 <= i < j < piles.len() ==> #[trigger] piles[i].0@ != #[trigger] piles[j].0@
    &&& forall|i: int| 0 <= i < piles.len() ==> (#[trigger] piles[i]).1.randomness.wf()
}

/// Every name recorded in any pack is the name of one of the piles.
pub open spec fn packs_keys_from(packs: Seq<Pack>, piles: Seq<(String, Pile)>) -> bool {
    forall|k: int, x: int|
        0 <= k < packs.len() && 0 <= x < packs[k].card_sources@.len() ==> exists|i: int|
            0 <= i < piles.len() && (#[trigger] packs[k].card_sources@[x]).0@ == piles[i].0@
}

/// How the items of each pile are accounted for: `d[i]` of pile `i`'s items
/// were discarded, and the rest appear, under the pile's own name, spread
/// over the packs. Exactly the leftover after division into packs is
/// discarded in total. A pile that never randomizes its items is moreover
/// spread as evenly as possible: each pack holds its floor-or-ceiling share
/// of the pile's undiscarded items.
pub open spec fn conserves_piles(
    piles: Seq<(String, Pile)>,
    pack_size: int,
    packs: Seq<Pack>,
    d: Seq<int>,
) -> bool {
    &&& d.len() == piles.len()
    &&& forall|i: int| 0 <= i < piles.len() ==> 0 <= #[trigger] d[i] <= piles[i].1.cards
    &&& sum_by(d, f_id()) == spec_total_cards(piles) % pack_size
    &&& forall|i: int|
        0 <= i < piles.len() ==> packs_count_for(packs, (#[trigger] piles[i]).0@)
            == piles[i].1.cards - d[i]
    &&& forall|i: int, k: int|
        #![trigger piles[i], packs[k]]
        0 <= i < piles.len() && 0 <= k < packs.len() && piles[i].1.randomness.is_never() ==> (
        piles[i].1.cards - d[i]) / (packs.len() as int) <= packs[k].count_for(piles[i].0@) <= (
        piles[i].1.cards - d[i]) / (packs.len() as int) + 1
}

/// What `shuffle` guarantees of a successful result.
pub open spec fn shuffle_post(piles: Seq<(String, Pile)>, pack_size: int, packs: Seq<Pack>) -> bool {
    let t = spec_total_cards(piles);
    &&& packs.len() == t / pack_size
    &&& forall|k: int| 0 <= k < packs.len() ==> (#[trigger] packs[k]).wf()
    &&& forall|k: int| 0 <= k < packs.len() ==> (#[trigger] packs[k]).total() == pack_size
    &&& packs_keys_from(packs, piles)
    &&& exists|d: Seq<int>| conserves_piles(piles, pack_size, packs, d)
}

// ---------------------------------------------------------------------------
// Internal accumulator state.
// ---------------------------------------------------------------------------

/// One pack in the making: per-pile counts, slots reserved for the random
/// redistribution, and the cached total of both.
pub(crate) struct Accum {
    pub(crate) counts: Vec<usize>,
    pub(crate) pending: usize,
    pub(crate) total: usize,
}

pub(crate) open spec fn f_total() -> spec_fn(Accum) -> int {
    |a: Accum| a.total as int
}

pub(crate) open spec fn f_pending() -> spec_fn(Accum) -> int {
    |a: Accum| a.pending as int
}

pub(crate) open spec fn f_col(i: int) -> spec_fn(Accum) -> int {
    |a: Accum| a.counts@[i] as int
}

pub(crate) open spec fn f_match(i: int) -> spec_fn(usize) -> int {
    |x: usize| if x == i { 1int } else { 0int }
}

pub(crate) open spec fn f_flag() -> spec_fn(bool) -> int {
    |b: bool| if b { 1int } else { 0int }
}

/// The number of `true` entries of a flag sequence.
pub(crate) open spec fn num_true(s: Seq<bool>) -> int {
    sum_by(s, f_flag())
}

pub(crate) open spec fn acc_wf(a: Accum, n_piles: int) -> bool {
    &&& a.counts@.len() == n_piles
    &&& a.total as int == sum_by(a.counts@, f_usize()) + a.pending
}

pub(crate) open spec fn sorted_by_total(s: Seq<Accum>) -> bool {
    forall|i: int, j: int|
        0 <= i <= j < s.len() ==> (#[trigger] s[i]).total <= (#[trigger] s[j]).total
}

/// All accumulators hold either `a / m` or `a / m + 1` items, `a` being the
/// number of items assigned so far and `m` the number of packs.
pub(crate) open spec fn balanced(s: Seq<Accum>, a: int, m: int) -> bool {
    forall|j: int|
        0 <= j < s.len() ==> (#[trigger] s[j]).total == a / m || s[j].total == a / m + 1
}

/// The state of one accumulator's per-pile counts once the first `done`
/// piles are dealt: later piles have contributed nothing yet, and a dealt
/// pile that never randomizes has landed its floor-or-ceiling share of
/// undiscarded items here, `m` being the number of packs.
pub(crate) open spec fn acc_cols_ok(
    a: Accum,
    piles: Seq<(String, Pile)>,
    disc: Seq<int>,
    done: int,
    m: int,
) -> bool {
    &&& (forall|i: int| done <= i < piles.len() ==> #[trigger] a.counts@[i] as int == 0)
    &&& (forall|i: int|
        0 <= i < done && piles[i].1.randomness.is_never() ==> #[trigger] a.counts@[i] as int == (
        piles[i].1.cards - disc[i]) / m || a.counts@[i] as int == (piles[i].1.cards - disc[i]) / m
            + 1)
}

/// `acc_cols_ok` is a property of the accumulator alone, so it survives a
/// reordering of the row.
proof fn lemma_cols_ok_transfer(
    s: Seq<Accum>,
    t2: Seq<Accum>,
    piles: Seq<(String, Pile)>,
    disc: Seq<int>,
    done: int,
    m: int,
)
    requires
        forall|j: int|
            0 <= j < t2.len() ==> exists|j2: int| 0 <= j2 < s.len() && s[j2] == #[trigger] t2[j],
        forall|j: int| 0 <= j < s.len() ==> acc_cols_ok(#[trigger] s[j], piles, disc, done, m),
    ensures
        forall|j: int| 0 <= j < t2.len() ==> acc_cols_ok(#[trigger] t2[j], piles, disc, done, m),
{
    assert forall|j: int| 0 <= j < t2.len() implies acc_cols_ok(
        #[trigger] t2[j],
        piles,
        disc,
        done,
        m,
    ) by {
        let j2 = choose|j2: int| 0 <= j2 < s.len() && s[j2] == t2[j];
        assert(acc_cols_ok(s[j2], piles, disc, done, m));
    }
}

// ---------------------------------------------------------------------------
// Small verified helpers.
// ---------------------------------------------------------------------------

/// Sums all piles' item counts in a type wide enough not to wrap.
pub(crate) fn total_of_piles(piles: &Vec<(String, Pile)>) -> (t: u128)
    ensures
        t == spec_total_cards(piles@),
{
    let n = piles.len();
    let mut t: u128 = 0;
    let mut i: usize = 0;
    while i < n
        invariant
            0 <= i <= n,
            n == piles@.len(),
            t == sum_by(piles@.take(i as int), f_cards()),
            t <= i * (usize::MAX as int),
        decreases n - i,
    {
        proof {
            assert(piles@.take(i + 1) =~= piles@.take(i as int).push(piles@[i as int]));
            lemma_sum_by_push(piles@.take(i as int), f_cards(), piles@[i as int]);
            assert((i + 1) * (usize::MAX as int) == i * (usize::MAX as int) + usize::MAX) by (nonlinear_arith);
            assert((i + 1) * (usize::MAX as int) <= n * (usize::MAX as int)) by (nonlinear_arith)
                requires i + 1 <= n;
            assert(n * (usize::MAX as int) < u128::MAX) by (nonlinear_arith)
                requires n <= usize::MAX;
        }
        t = t + (piles[i].1.cards as u128);
        i = i + 1;
    }
    proof {
        assert(piles@.take(n as int) =~= piles@);
    }
    t
}

/// A fresh accumulator with a zeroed count for each pile.
fn new_accum(n_piles: usize) -> (a: Accum)
    ensures
        acc_wf(a, n_piles as int),
        a.pending == 0,
        a.total == 0,
        forall|i: int| 0 <= i < n_piles ==> a.counts@[i] == 0,
{
    let mut counts: Vec<usize> = Vec::new();
    let mut i: usize = 0;
    while i < n_piles
        invariant
            0 <= i <= n_piles,
            counts@.len() == i,
            forall|j: int| 0 <= j < i ==> counts@[j] == 0,
            sum_by(counts@, f_usize()) == 0,
        decreases n_piles - i,
    {
        proof {
            lemma_sum_by_push(counts@, f_usize(), 0usize);
        }
        counts.push(0);
        i = i + 1;
    }
    Accum { counts, pending: 0, total: 0 }
}

/// Sorts accumulators by their current total, ascending, by repeatedly
/// extracting a minimal element.
fn sort_accs(v: Vec<Accum>) -> (r: Vec<Accum>)
    ensures
        r@.to_multiset() == v@.to_multiset(),
        r@.len() == v@.len(),
        sorted_by_total(r@),
{
    broadcast use vstd::seq_lib::group_to_multiset_ensures;

    let mut rem = v;
    let mut out: Vec<Accum> = Vec::new();
    proof {
        assert(out@.to_multiset().add(rem@.to_multiset()) =~= v@.to_multiset());
    }
    while rem.len() > 0
        invariant
            out@.to_multiset().add(rem@.to_multiset()) == v@.to_multiset(),
            out@.len() + rem@.len() == v@.len(),
            sorted_by_total(out@),
            forall|i: int, j: int|
                0 <= i < out@.len() && 0 <= j < rem@.len() ==> (#[trigger] out@[i]).total
                    <= (#[trigger] rem@[j]).total,
        decreases rem@.len(),
    {
        let mut k: usize = 1;
        let mut mi: usize = 0;
        while k < rem.len()
            invariant
                0 < rem@.len(),
                0 <= mi < k <= rem@.len(),
                forall|j: int| 0 <= j < k ==> rem@[mi as int].total <= (#[trigger] rem@[j]).total,
            decreases rem@.len() - k,
        {
            if rem[k].total < rem[mi].total {
                mi = k;
            }
            k = k + 1;
        }
        let ghost rem0 = rem@;
        let ghost out0 = out@;
        let a = rem.remove(mi);
        out.push(a);
        proof {
            assert(rem@ == rem0.remove(mi as int));
            assert(rem@.to_multiset() == rem0.to_multiset().remove(a));
            assert(out@.to_multiset() == out0.to_multiset().insert(a));
            assert(rem0.to_multiset().count(a) > 0) by {
                assert(rem0[mi as int] == a);
                assert(rem0.contains(a));
            }
            assert(out@.to_multiset().add(rem@.to_multiset()) =~= out0.to_multiset().add(
                rem0.to_multiset(),
            ));
            assert forall|i: int, j: int|
                0 <= i < out@.len() && 0 <= j < rem@.len() implies (#[trigger] out@[i]).total
                <= (#[trigger] rem@[j]).total by {
                assert(rem@[j] == rem0[if j < mi as int { j } else { j + 1 }]);
                if i < out0.len() {
                    assert(out@[i] == out0[i]);
                } else {
                    assert(out@[i] == a);
                }
            }
            assert forall|i: int, j: int| 0 <= i <= j < out@.len() implies (#[trigger] out@[i]).total
                <= (#[trigger] out@[j]).total by {
                if j == out@.len() - 1 && i < j {
                    assert(out@[i] == out0[i]);
                    assert(out@[j] == a);
                    assert(rem0[mi as int] == a);
                }
            }
        }
    }
    proof {
        assert(rem@.to_multiset().len() == 0);
        assert(out@.to_multiset() =~= out@.to_multiset().add(rem@.to_multiset()));
    }
    out
}

/// Chooses `overflow` distinct item indices below `total` uniformly at
/// random and returns them as a flag vector: `flags[i]` says whether item
/// `i` is discarded. Draws from the random source only when `overflow > 0`.
fn build_discards(total: usize, overflow: usize, random: &mut ShuffleRng) -> (flags: Vec<bool>)
    requires
        overflow <= total,
    ensures
        flags@.len() == total,
        num_true(flags@) == overflow,
{
    broadcast use vstd::seq_lib::group_to_multiset_ensures;

    let mut flags: Vec<bool> = Vec::new();
    let mut i: usize = 0;
    while i < total
        invariant
            0 <= i <= total,
            flags@.len() == i,
            forall|j: int| 0 <= j < i ==> !(#[trigger] flags@[j]),
            num_true(flags@) == 0,
        decreases total - i,
    {
        proof {
            lemma_sum_by_push(flags@, f_flag(), false);
        }
        flags.push(false);
        i = i + 1;
    }
    if overflow == 0 {
        return flags;
    }
    let mut idx: Vec<usize> = Vec::new();
    let mut i: usize = 0;
    while i < total
        invariant
            0 <= i <= total,
            idx@.len() == i,
            forall|j: int| 0 <= j < i ==> #[trigger] idx@[j] == j,
        decreases total - i,
    {
        idx.push(i);
        i = i + 1;
    }
    proof {
        assert(idx@.no_duplicates());
        idx@.lemma_multiset_has_no_duplicates();
    }
    let ghost idx0 = idx@;
    random.shuffle_vec(&mut idx);
    proof {
        assert(idx@.to_multiset().len() == idx0.to_multiset().len());
        assert forall|x: usize| idx@.to_multiset().contains(x) implies idx@.to_multiset().count(x)
            == 1 && x < total by {
            assert(idx0.to_multiset().count(x) > 0);
            assert(idx0.contains(x));
        }
        idx@.lemma_multiset_has_no_duplicates_conv();
        assert forall|j: int| 0 <= j < idx@.len() implies #[trigger] idx@[j] < total by {
            assert(idx@.contains(idx@[j]));
            assert(idx@.to_multiset().count(idx@[j]) > 0);
            assert(idx0.contains(idx@[j]));
        }
    }
    let mut k: usize = 0;
    while k < overflow
        invariant
            0 <= k <= overflow <= total,
            flags@.len() == total,
            idx@.len() == total,
            idx@.no_duplicates(),
            forall|j: int| 0 <= j < idx@.len() ==> #[trigger] idx@[j] < total,
            forall|j: int|
                0 <= j < total ==> ((#[trigger] flags@[j]) <==> exists|k2: int|
                    0 <= k2 < k && idx@[k2] == j),
            num_true(flags@) == k,
        decreases overflow - k,
    {
        let j = idx[k];
        proof {
            if flags@[j as int] {
                let k2 = choose|k2: int| 0 <= k2 < k && idx@[k2] == j as int;
                assert(idx@[k2] == idx@[k as int]);
                assert(false);
            }
            lemma_sum_by_update(flags@, f_flag(), j as int, true);
        }
        let ghost flags0 = flags@;
        flags[j] = true;
        proof {
            assert(flags@ == flags0.update(j as int, true));
            assert forall|j2: int| 0 <= j2 < total implies ((#[trigger] flags@[j2]) <==> exists|
                k2: int,
            | 0 <= k2 < k + 1 && idx@[k2] == j2) by {
                if j2 == j as int {
                    assert(idx@[k as int] == j2);
                } else {
                    assert(flags@[j2] == flags0[j2]);
                }
            }
        }
        k = k + 1;
    }
    flags
}

// ---------------------------------------------------------------------------
// Arithmetic of the round-robin deal.
// ---------------------------------------------------------------------------

/// How many of the first `k` round-robin credits land on the pack at
/// position `j`, with `m` packs: the number of `x` in `[0, k)` with
/// `x % m == j`.
pub(crate) open spec fn num_dealt(k: int, j: int, m: int) -> int {
    (k - j + m - 1) / m
}

proof fn lemma_num_dealt(k: int, j: int, m: int)
    requires
        0 <= j < m,
        0 <= k,
    ensures
        num_dealt(k, j, m) == k / m + if j < k % m {
            1int
        } else {
            0int
        },
{
    let q = k / m;
    let r = k % m;
    vstd::arithmetic::div_mod::lemma_fundamental_div_mod(k, m);
    if j < r {
        assert(k - j + m - 1 == (q + 1) * m + (r - j - 1)) by (nonlinear_arith)
            requires
                k == q * m + r,
        ;
        vstd::arithmetic::div_mod::lemma_fundamental_div_mod_converse_div(
            k - j + m - 1,
            m,
            q + 1,
            r - j - 1,
        );
    } else {
        assert(k - j + m - 1 == q * m + (r + m - 1 - j)) by (nonlinear_arith)
            requires
                k == q * m + r,
        ;
        vstd::arithmetic::div_mod::lemma_fundamental_div_mod_converse_div(
            k - j + m - 1,
            m,
            q,
            r + m - 1 - j,
        );
    }
}

/// One more credit lands on the pack at position `k % m` and nowhere else.
proof fn lemma_num_dealt_step(k: int, j: int, m: int)
    requires
        0 <= j < m,
        0 <= k,
    ensures
        num_dealt(k + 1, j, m) == num_dealt(k, j, m) + if j == k % m {
            1int
        } else {
            0int
        },
{
    let q = k / m;
    let r = k % m;
    vstd::arithmetic::div_mod::lemma_fundamental_div_mod(k, m);
    lemma_num_dealt(k, j, m);
    lemma_num_dealt(k + 1, j, m);
    if r + 1 < m {
        assert(k + 1 == q * m + (r + 1)) by (nonlinear_arith)
            requires
                k == m * q + r,
        ;
        vstd::arithmetic::div_mod::lemma_fundamental_div_mod_converse_div(k + 1, m, q, r + 1);
        vstd::arithmetic::div_mod::lemma_fundamental_div_mod_converse_mod(k + 1, m, q, r + 1);
    } else {
        assert(k + 1 == (q + 1) * m + 0) by (nonlinear_arith)
            requires
                k == m * q + r,
                r + 1 == m,
        ;
        vstd::arithmetic::div_mod::lemma_fundamental_div_mod_converse_div(k + 1, m, q + 1, 0);
        vstd::arithmetic::div_mod::lemma_fundamental_div_mod_converse_mod(k + 1, m, q + 1, 0);
    }
}

/// A prefix of the pile list never holds more items than the whole list,
/// and item counts are nonnegative.
proof fn lemma_prefix_cards_bounds(piles: Seq<(String, Pile)>, t: int)
    requires
        0 <= t <= piles.len(),
    ensures
        0 <= sum_by(piles.take(t), f_cards()) <= sum_by(piles, f_cards()),
{
    lemma_sum_by_split(piles, f_cards(), t);
    assert(forall|x: int|
        0 <= x < piles.take(t).len() ==> 0 <= #[trigger] f_cards()(piles.take(t)[x]));
    assert(forall|x: int|
        0 <= x < piles.skip(t).len() ==> 0 <= #[trigger] f_cards()(piles.skip(t)[x]));
    lemma_sum_by_lower_bound(piles.take(t), f_cards(), 0);
    lemma_sum_by_lower_bound(piles.skip(t), f_cards(), 0);
}

/// Extending the counted prefix of the flag vector by one position.
proof fn lemma_num_true_step(s: Seq<bool>, i: int)
    requires
        0 <= i < s.len(),
    ensures
        num_true(s.take(i + 1)) == num_true(s.take(i)) + if s[i] {
            1int
        } else {
            0int
        },
{
    assert(s.take(i + 1) =~= s.take(i).push(s[i]));
    lemma_sum_by_push(s.take(i), f_flag(), s[i]);
}

/// Everything the allocation loop tracks of an accumulator row survives a
/// reordering of the row.
proof fn lemma_row_transfer(s: Seq<Accum>, t: Seq<Accum>, n: int, a: int, m: int)
    requires
        s.to_multiset() == t.to_multiset(),
        forall|j: int| 0 <= j < s.len() ==> acc_wf(#[trigger] s[j], n),
        balanced(s, a, m),
    ensures
        t.len() == s.len(),
        forall|j: int| 0 <= j < t.len() ==> acc_wf(#[trigger] t[j], n),
        balanced(t, a, m),
        sum_by(t, f_total()) == sum_by(s, f_total()),
        sum_by(t, f_pending()) == sum_by(s, f_pending()),
        forall|i: int| #[trigger] sum_by(t, f_col(i)) == sum_by(s, f_col(i)),
        forall|j: int|
            0 <= j < t.len() ==> exists|j2: int| 0 <= j2 < s.len() && s[j2] == #[trigger] t[j],
{
    broadcast use vstd::seq_lib::group_to_multiset_ensures;

    assert(t.len() == s.len()) by {
        assert(s.to_multiset().len() == s.len());
        assert(t.to_multiset().len() == t.len());
    }
    assert forall|j: int| 0 <= j < t.len() implies acc_wf(#[trigger] t[j], n) && (t[j].total == a
        / m || t[j].total == a / m + 1) && exists|j2: int| 0 <= j2 < s.len() && s[j2] == t[j] by {
        assert(t.contains(t[j]));
        assert(t.to_multiset().count(t[j]) > 0);
        assert(s.to_multiset().count(t[j]) > 0);
        assert(s.contains(t[j]));
        let j2 = choose|j2: int| 0 <= j2 < s.len() && s[j2] == t[j];
        assert(acc_wf(s[j2], n));
    }
    lemma_sum_by_multiset_eq(s, t, f_total());
    lemma_sum_by_multiset_eq(s, t, f_pending());
    assert forall|i: int| #[trigger] sum_by(t, f_col(i)) == sum_by(s, f_col(i)) by {
        lemma_sum_by_multiset_eq(s, t, f_col(i));
    }
}

/// In a sorted, balanced accumulator row summing to `a`, the totals are
/// pinned pointwise: the first `m - a % m` packs hold `a / m` items, the
/// rest `a / m + 1`.
proof fn lemma_sorted_balanced_pointwise(s: Seq<Accum>, a: int, m: int)
    requires
        0 < m,
        0 <= a,
        s.len() == m,
        sorted_by_total(s),
        balanced(s, a, m),
        sum_by(s, f_total()) == a,
    ensures
        forall|j: int|
            0 <= j < m ==> (#[trigger] s[j]).total == a / m + if j >= m - a % m {
                1int
            } else {
                0int
            },
{
    let q = a / m;
    let r = a % m;
    vstd::arithmetic::div_mod::lemma_fundamental_div_mod(a, m);
    assert forall|j: int| 0 <= j < m implies (#[trigger] s[j]).total == q + if j >= m - r {
        1int
    } else {
        0int
    } by {
        if j < m - r && s[j].total != q {
            // Everything from j on holds q + 1 items; the sum then exceeds a.
            assert(s[j].total == q + 1);
            lemma_sum_by_split(s, f_total(), j);
            assert forall|x: int| 0 <= x < s.take(j).len() implies q <= #[trigger] f_total()(
                s.take(j)[x],
            ) by {
                assert(s.take(j)[x] == s[x]);
            }
            lemma_sum_by_lower_bound(s.take(j), f_total(), q);
            assert forall|x: int| 0 <= x < s.skip(j).len() implies q + 1 <= #[trigger] f_total()(
                s.skip(j)[x],
            ) by {
                assert(s.skip(j)[x] == s[j + x]);
                assert(s[j].total <= s[j + x].total);
            }
            lemma_sum_by_lower_bound(s.skip(j), f_total(), q + 1);
            assert(s.take(j).len() == j);
            assert(s.skip(j).len() == m - j);
            assert(a >= q * j + (q + 1) * (m - j));
            assert(q * j + (q + 1) * (m - j) > m * q + r) by (nonlinear_arith)
                requires
                    0 <= j < m - r,
                    0 <= r,
            ;
            assert(false);
        }
        if j >= m - r && s[j].total == q {
            // Everything up to j holds q items; the sum then falls short of a.
            lemma_sum_by_split(s, f_total(), j + 1);
            assert forall|x: int| 0 <= x < s.take(j + 1).len() implies #[trigger] f_total()(
                s.take(j + 1)[x],
            ) <= q by {
                assert(s.take(j + 1)[x] == s[x]);
                assert(s[x].total <= s[j].total);
            }
            lemma_sum_by_upper_bound(s.take(j + 1), f_total(), q);
            assert forall|x: int| 0 <= x < s.skip(j + 1).len() implies #[trigger] f_total()(
                s.skip(j + 1)[x],
            ) <= q + 1 by {
                assert(s.skip(j + 1)[x] == s[j + 1 + x]);
            }
            lemma_sum_by_upper_bound(s.skip(j + 1), f_total(), q + 1);
            assert(s.take(j + 1).len() == j + 1);
            assert(s.skip(j + 1).len() == m - j - 1);
            assert(a <= q * (j + 1) + (q + 1) * (m - j - 1));
            assert(q * (j + 1) + (q + 1) * (m - j - 1) < m * q + r) by (nonlinear_arith)
                requires
                    m - r <= j < m,
                    r < m,
            ;
            assert(false);
        }
    }
}

/// Dealing `k` items round-robin onto a sorted balanced row keeps the row
/// balanced for the new item count.
proof fn lemma_deal_keeps_balance(s0: Seq<Accum>, s1: Seq<Accum>, a0: int, k: int, m: int)
    requires
        0 < m,
        0 <= a0,
        0 <= k,
        s0.len() == m,
        s1.len() == m,
        sorted_by_total(s0),
        balanced(s0, a0, m),
        sum_by(s0, f_total()) == a0,
        forall|j: int|
            0 <= j < m ==> (#[trigger] s1[j]).total == s0[j].total + num_dealt(k, j, m),
    ensures
        balanced(s1, a0 + k, m),
{
    let q = a0 / m;
    let r = a0 % m;
    let bigq = k / m;
    let bigr = k % m;
    vstd::arithmetic::div_mod::lemma_fundamental_div_mod(a0, m);
    vstd::arithmetic::div_mod::lemma_fundamental_div_mod(k, m);
    lemma_sorted_balanced_pointwise(s0, a0, m);
    if r + bigr < m {
        assert(a0 + k == (q + bigq) * m + (r + bigr)) by (nonlinear_arith)
            requires
                a0 == q * m + r,
                k == bigq * m + bigr,
        ;
        vstd::arithmetic::div_mod::lemma_fundamental_div_mod_converse_div(
            a0 + k,
            m,
            q + bigq,
            r + bigr,
        );
        assert forall|j: int| 0 <= j < m implies (#[trigger] s1[j]).total == (a0 + k) / m || s1[
            j
        ].total == (a0 + k) / m + 1 by {
            lemma_num_dealt(k, j, m);
        }
    } else {
        assert(a0 + k == (q + bigq + 1) * m + (r + bigr - m)) by (nonlinear_arith)
            requires
                a0 == q * m + r,
                k == bigq * m + bigr,
        ;
        vstd::arithmetic::div_mod::lemma_fundamental_div_mod_converse_div(
            a0 + k,
            m,
            q + bigq + 1,
            r + bigr - m,
        );
        assert forall|j: int| 0 <= j < m implies (#[trigger] s1[j]).total == (a0 + k) / m || s1[
            j
        ].total == (a0 + k) / m + 1 by {
            lemma_num_dealt(k, j, m);
            if j < m - r && j >= bigr {
                assert(r + bigr >= m);
                assert(false);
            }
        }
    }
}

/// Partitions the items of `piles` into packs of exactly `pack_size` items.
///
/// Fails with `EmptyPacks` exactly when `pack_size` is zero, and with
/// `CardOverflow` when the piles together hold more items than a `usize`
/// can count. Otherwise it succeeds with one pack per `pack_size` whole
/// items; the leftover items are discarded uniformly at random. Every pack
/// records, per pile name, a positive number of items, summing to
/// `pack_size`; across all packs each pile's items are conserved save for
/// its share of the discard.
#[verifier::rlimit(60)]
pub fn shuffle(piles: &Vec<(String, Pile)>, pack_size: usize, random: &mut ShuffleRng) -> (r:
    Result<Vec<Pack>, ShufflingErrors>)
    requires
        piles_wf(piles@),
    ensures
        pack_size == 0 <==> r == Err::<Vec<Pack>, ShufflingErrors>(ShufflingErrors::EmptyPacks),
        pack_size > 0 && spec_total_cards(piles@) > usize::MAX ==> r == Err::<
            Vec<Pack>,
            ShufflingErrors,
        >(
            ShufflingErrors::CardOverflow {
                current_cards: spec_total_cards(piles@) as u128,
                max_cards: usize::MAX as u128,
            },
        ),
        pack_size > 0 && spec_total_cards(piles@) <= usize::MAX ==> r is Ok && shuffle_post(
            piles@,
            pack_size as int,
            r->Ok_0@,
        ),
{
    if pack_size == 0 {
        return Err(ShufflingErrors::EmptyPacks);
    }
    let card_count: u128 = total_of_piles(piles);
    if card_count > usize::MAX as u128 {
        return Err(
            ShufflingErrors::CardOverflow {
                current_cards: card_count,
                max_cards: usize::MAX as u128,
            },
        );
    }
    let n = piles.len();
    let total: usize = card_count as usize;
    let pack_count: usize = total / pack_size;
    let pack_overflow: usize = total % pack_size;
    proof {
        vstd::arithmetic::div_mod::lemma_fundamental_div_mod(total as int, pack_size as int);
    }
    let discarded: Vec<bool> = build_discards(total, pack_overflow, random);
    if pack_count == 0 {
        // Too few items to fill a single pack: every item is discarded.
        proof {
            let d = Seq::new(piles@.len(), |i: int| piles@[i].1.cards as int);
            assert forall|i: int| 0 <= i < piles@.len() implies #[trigger] f_cards()(piles@[i])
                == f_id()(d[i]) by {}
            lemma_sum_by_transfer(piles@, d, f_cards(), f_id());
            let empty = Seq::<Pack>::empty();
            vstd::arithmetic::div_mod::lemma_fundamental_div_mod(
                total as int,
                pack_size as int,
            );
            assert(pack_count as int == total as int / pack_size as int);
            assert(total as int == pack_size as int * (total as int / pack_size as int)
                + total as int % pack_size as int);
            assert(total as int / pack_size as int == 0);
            assert(total as int % pack_size as int == total as int) by (nonlinear_arith)
                requires
                    total as int == pack_size as int * (total as int / pack_size as int)
                        + total as int % pack_size as int,
                    total as int / pack_size as int == 0,
            ;
            assert forall|i: int| 0 <= i < piles@.len() implies packs_count_for(
                empty,
                (#[trigger] piles@[i]).0@,
            ) == piles@[i].1.cards - d[i] by {
                assert(d[i] == piles@[i].1.cards as int);
                assert(packs_count_for(empty, piles@[i].0@) == 0);
            }
            assert(conserves_piles(piles@, pack_size as int, empty, d));
            assert(shuffle_post(piles@, pack_size as int, empty));
        }
        return Ok(Vec::new());
    }

    // One empty accumulator per pack.
    let mut accs: Vec<Accum> = Vec::new();
    let mut j0: usize = 0;
    while j0 < pack_count
        invariant
            0 <= j0 <= pack_count,
            n == piles@.len(),
            accs@.len() == j0,
            forall|j: int| 0 <= j < j0 ==> acc_wf(#[trigger] accs@[j], n as int),
            forall|j: int|
                0 <= j < j0 ==> (#[trigger] accs@[j]).total == 0 && accs@[j].pending == 0,
            sum_by(accs@, f_total()) == 0,
            sum_by(accs@, f_pending()) == 0,
            forall|i: int| 0 <= i < n ==> #[trigger] sum_by(accs@, f_col(i)) == 0,
            forall|j: int, i: int|
                #![trigger accs@[j].counts@[i]]
                0 <= j < j0 && 0 <= i < n ==> accs@[j].counts@[i] == 0,
        decreases pack_count - j0,
    {
        let a = new_accum(n);
        proof {
            lemma_sum_by_push(accs@, f_total(), a);
            lemma_sum_by_push(accs@, f_pending(), a);
            assert forall|i: int| 0 <= i < n implies #[trigger] sum_by(accs@.push(a), f_col(i))
                == 0 by {
                lemma_sum_by_push(accs@, f_col(i), a);
            }
        }
        accs.push(a);
        j0 = j0 + 1;
    }

    let mut card_index: usize = 0;
    let mut randomized: Vec<usize> = Vec::new();
    let ghost mut disc = Seq::<int>::new(n as nat, |i: int| 0int);
    proof {
        assert(piles@.take(0) =~= Seq::<(String, Pile)>::empty());
        assert(discarded@.take(0) =~= Seq::<bool>::empty());
        assert forall|i: int| 0 <= i < disc.len() implies #[trigger] f_id()(disc[i]) == 0 by {}
        lemma_sum_by_upper_bound(disc, f_id(), 0);
        lemma_sum_by_lower_bound(disc, f_id(), 0);
        assert forall|j: int| 0 <= j < accs@.len() implies acc_cols_ok(
            #[trigger] accs@[j],
            piles@,
            disc,
            0,
            pack_count as int,
        ) by {}
    }
    let mut t: usize = 0;
    while t < n
        invariant
            piles_wf(piles@),
            n == piles@.len(),
            0 < pack_size,
            total as int == spec_total_cards(piles@),
            pack_count as int == total as int / pack_size as int,
            pack_overflow as int == total as int % pack_size as int,
            0 < pack_count,
            discarded@.len() == total,
            num_true(discarded@) == pack_overflow,
            0 <= t <= n,
            accs@.len() == pack_count,
            forall|j: int| 0 <= j < accs@.len() ==> acc_wf(#[trigger] accs@[j], n as int),
            sorted_by_total(accs@),
            card_index as int == sum_by(piles@.take(t as int), f_cards()),
            card_index <= total,
            balanced(
                accs@,
                card_index - num_true(discarded@.take(card_index as int)),
                pack_count as int,
            ),
            sum_by(accs@, f_total()) == card_index - num_true(discarded@.take(card_index as int)),
            0 <= num_true(discarded@.take(card_index as int)) <= card_index,
            randomized@.len() == sum_by(accs@, f_pending()),
            forall|x: int| 0 <= x < randomized@.len() ==> #[trigger] randomized@[x] < n,
            forall|x: int|
                0 <= x < randomized@.len() ==> piles@[#[trigger] randomized@[x] as int].1.randomness.numerator
                    > 0,
            disc.len() == n,
            forall|i: int| 0 <= i < n ==> 0 <= #[trigger] disc[i],
            forall|i: int| 0 <= i < t ==> #[trigger] disc[i] <= piles@[i].1.cards,
            forall|i: int| t <= i < n ==> #[trigger] disc[i] == 0,
            sum_by(disc, f_id()) == num_true(discarded@.take(card_index as int)),
            forall|i: int|
                0 <= i < n ==> #[trigger] sum_by(accs@, f_col(i)) + sum_by(
                    randomized@,
                    f_match(i),
                ) + disc[i] == (if i < t {
                    piles@[i].1.cards as int
                } else {
                    0int
                }),
            forall|j: int|
                0 <= j < accs@.len() ==> acc_cols_ok(
                    #[trigger] accs@[j],
                    piles@,
                    disc,
                    t as int,
                    pack_count as int,
                ),
        decreases n - t,
    {
        let pile: Pile = piles[t].1;
        proof {
            assert(piles@.take(t + 1) =~= piles@.take(t as int).push(piles@[t as int]));
            lemma_sum_by_push(piles@.take(t as int), f_cards(), piles@[t as int]);
            lemma_prefix_cards_bounds(piles@, t + 1);
            assert forall|j: int| 0 <= j < pack_count implies #[trigger] num_dealt(
                0,
                j,
                pack_count as int,
            ) == 0 by {
                lemma_num_dealt(0, j, pack_count as int);
                vstd::arithmetic::div_mod::lemma_fundamental_div_mod_converse_div(
                    0,
                    pack_count as int,
                    0,
                    0,
                );
                vstd::arithmetic::div_mod::lemma_fundamental_div_mod_converse_mod(
                    0,
                    pack_count as int,
                    0,
                    0,
                );
            }
        }
        let ghost accs0 = accs@;
        let ghost ci0 = card_index as int;
        let ghost a0 = ci0 - num_true(discarded@.take(ci0));
        let mut pile_modifier: usize = 0;
        let mut c: usize = 0;
        while c < pile.cards
            invariant
                piles_wf(piles@),
                n == piles@.len(),
                0 < pack_size,
                0 < pack_count,
                total as int == spec_total_cards(piles@),
                discarded@.len() == total,
                0 <= t < n,
                pile == piles@[t as int].1,
                0 <= c <= pile.cards,
                pile_modifier <= c,
                card_index as int == ci0 + c,
                ci0 == sum_by(piles@.take(t as int), f_cards()),
                ci0 + pile.cards <= total,
                accs@.len() == pack_count,
                forall|j: int| 0 <= j < accs@.len() ==> acc_wf(#[trigger] accs@[j], n as int),
                accs0.len() == pack_count,
                sorted_by_total(accs0),
                balanced(accs0, a0, pack_count as int),
                sum_by(accs0, f_total()) == a0,
                a0 == ci0 - num_true(discarded@.take(ci0)),
                0 <= a0 <= ci0,
                num_true(discarded@.take(card_index as int)) == num_true(discarded@.take(ci0))
                    + pile_modifier,
                forall|j: int|
                    0 <= j < pack_count ==> (#[trigger] accs@[j]).total as int == accs0[j].total
                        + num_dealt(c - pile_modifier, j, pack_count as int),
                sum_by(accs@, f_total()) == a0 + (c - pile_modifier),
                randomized@.len() == sum_by(accs@, f_pending()),
                forall|x: int| 0 <= x < randomized@.len() ==> #[trigger] randomized@[x] < n,
                forall|x: int|
                    0 <= x < randomized@.len() ==> piles@[#[trigger] randomized@[
                        x
                    ] as int].1.randomness.numerator > 0,
                disc.len() == n,
                forall|i: int| 0 <= i < n ==> 0 <= #[trigger] disc[i],
                forall|i: int| 0 <= i < t ==> #[trigger] disc[i] <= piles@[i].1.cards,
                disc[t as int] == pile_modifier,
                forall|i: int| t < i < n ==> #[trigger] disc[i] == 0,
                sum_by(disc, f_id()) == num_true(discarded@.take(card_index as int)),
                forall|i: int|
                    0 <= i < n ==> #[trigger] sum_by(accs@, f_col(i)) + sum_by(
                        randomized@,
                        f_match(i),
                    ) + disc[i] == (if i < t {
                        piles@[i].1.cards as int
                    } else if i == t {
                        c as int
                    } else {
                        0int
                    }),
                forall|j: int, i: int|
                    #![trigger accs@[j].counts@[i]]
                    0 <= j < accs@.len() && t < i < n ==> accs@[j].counts@[i] == 0,
                forall|j: int, i: int|
                    #![trigger accs@[j].counts@[i]]
                    0 <= j < accs@.len() && 0 <= i < t && piles@[i].1.randomness.is_never()
                        ==> accs@[j].counts@[i] as int == (piles@[i].1.cards - disc[i])
                        / pack_count as int || accs@[j].counts@[i] as int == (piles@[i].1.cards
                        - disc[i]) / pack_count as int + 1,
                piles@[t as int].1.randomness.is_never() ==> forall|j: int|
                    0 <= j < accs@.len() ==> #[trigger] accs@[j].counts@[t as int] as int
                        == num_dealt(c - pile_modifier, j, pack_count as int),
            decreases pile.cards - c,
        {
            proof {
                lemma_num_true_step(discarded@, card_index as int);
            }
            if discarded[card_index] {
                card_index = card_index + 1;
                pile_modifier = pile_modifier + 1;
                proof {
                    lemma_sum_by_update(disc, f_id(), t as int, disc[t as int] + 1);
                    disc = disc.update(t as int, disc[t as int] + 1);
                }
            } else {
                card_index = card_index + 1;
                proof {
                    assert(piles@[t as int].1.randomness.wf());
                }
                let skip = random.gen_ratio(pile.randomness.numerator, pile.randomness.denominator);
                let ghost rand0 = randomized@;
                if skip {
                    randomized.push(t);
                    proof {
                        assert forall|i: int| 0 <= i < n implies #[trigger] sum_by(
                            randomized@,
                            f_match(i),
                        ) == sum_by(rand0, f_match(i)) + if i == t as int {
                            1int
                        } else {
                            0int
                        } by {
                            lemma_sum_by_push(rand0, f_match(i), t);
                        }
                    }
                }
                let kk = c - pile_modifier;
                let pk = kk % pack_count;
                proof {
                    // The accumulator can take one more item without wrapping.
                    assert forall|x: int| 0 <= x < accs@.len() implies 0 <= #[trigger] f_total()(
                        accs@[x],
                    ) by {}
                    lemma_sum_by_element_le(accs@, f_total(), pk as int);
                    assert(accs@[pk as int].total <= a0 + kk);
                    assert(a0 + kk < total);
                    let ac = accs@[pk as int];
                    assert(acc_wf(ac, n as int));
                    assert forall|x: int| 0 <= x < ac.counts@.len() implies 0 <= #[trigger] f_usize()(
                        ac.counts@[x],
                    ) by {}
                    lemma_sum_by_lower_bound(ac.counts@, f_usize(), 0);
                    assert(ac.pending <= ac.total);
                    lemma_sum_by_element_le(ac.counts@, f_usize(), t as int);
                    assert(ac.counts@[t as int] <= ac.total);
                }
                let ghost accsb = accs@;
                if skip {
                    let cur = accs[pk].pending;
                    accs[pk].pending = cur + 1;
                } else {
                    let cur = accs[pk].counts[t];
                    accs[pk].counts[t] = cur + 1;
                }
                let curt = accs[pk].total;
                accs[pk].total = curt + 1;
                proof {
                    let a2 = accs@[pk as int];
                    assert(accs@ =~= accsb.update(pk as int, a2));
                    assert(a2.total == accsb[pk as int].total + 1);
                    if skip {
                        assert(a2.counts@ == accsb[pk as int].counts@);
                        assert(a2.pending == accsb[pk as int].pending + 1);
                    } else {
                        assert(a2.counts@ == accsb[pk as int].counts@.update(
                            t as int,
                            (accsb[pk as int].counts@[t as int] + 1) as usize,
                        ));
                        assert(a2.pending == accsb[pk as int].pending);
                        lemma_sum_by_update(
                            accsb[pk as int].counts@,
                            f_usize(),
                            t as int,
                            (accsb[pk as int].counts@[t as int] + 1) as usize,
                        );
                    }
                    assert(acc_wf(a2, n as int));
                    lemma_sum_by_update(accsb, f_total(), pk as int, a2);
                    lemma_sum_by_update(accsb, f_pending(), pk as int, a2);
                    assert forall|i: int| 0 <= i < n implies #[trigger] sum_by(accs@, f_col(i))
                        == sum_by(accsb, f_col(i)) + if !skip && i == t as int {
                        1int
                    } else {
                        0int
                    } by {
                        lemma_sum_by_update(accsb, f_col(i), pk as int, a2);
                    }
                    assert forall|j: int| 0 <= j < pack_count implies (#[trigger] accs@[
                        j
                    ]).total as int == accs0[j].total + num_dealt(
                        kk + 1,
                        j,
                        pack_count as int,
                    ) by {
                        lemma_num_dealt_step(kk as int, j, pack_count as int);
                        if j != pk as int {
                            assert(accs@[j] == accsb[j]);
                            assert(j != kk as int % pack_count as int);
                        } else {
                            assert(j == kk as int % pack_count as int);
                        }
                    }
                    assert forall|j: int, i: int|
                        #![trigger accs@[j].counts@[i]]
                        0 <= j < accs@.len() && t < i < n implies accs@[j].counts@[i] == 0 by {
                        if j == pk as int {
                            assert(a2.counts@[i] == accsb[pk as int].counts@[i]);
                        } else {
                            assert(accs@[j] == accsb[j]);
                        }
                    }
                    assert forall|j: int, i: int|
                        #![trigger accs@[j].counts@[i]]
                        0 <= j < accs@.len() && 0 <= i < t
                            && piles@[i].1.randomness.is_never() implies (accs@[j].counts@[
                        i
                    ] as int == (piles@[i].1.cards - disc[i]) / pack_count as int || accs@[
                        j
                    ].counts@[i] as int == (piles@[i].1.cards - disc[i]) / pack_count as int
                        + 1) by {
                        if j == pk as int {
                            assert(a2.counts@[i] == accsb[pk as int].counts@[i]);
                        } else {
                            assert(accs@[j] == accsb[j]);
                        }
                    }
                    if piles@[t as int].1.randomness.is_never() {
                        assert(!skip);
                        assert forall|j: int| 0 <= j < accs@.len() implies #[trigger] accs@[
                            j
                        ].counts@[t as int] as int == num_dealt(
                            kk + 1,
                            j,
                            pack_count as int,
                        ) by {
                            lemma_num_dealt_step(kk as int, j, pack_count as int);
                            if j == pk as int {
                                assert(j == kk as int % pack_count as int);
                            } else {
                                assert(accs@[j] == accsb[j]);
                                assert(j != kk as int % pack_count as int);
                            }
                        }
                    }
                }
            }
            c = c + 1;
        }
        proof {
            lemma_deal_keeps_balance(
                accs0,
                accs@,
                a0,
                c - pile_modifier,
                pack_count as int,
            );
            assert forall|j: int| 0 <= j < accs@.len() implies acc_cols_ok(
                #[trigger] accs@[j],
                piles@,
                disc,
                t + 1,
                pack_count as int,
            ) by {
                assert forall|i: int|
                    0 <= i < t + 1 && piles@[i].1.randomness.is_never() implies #[trigger] accs@[
                    j
                ].counts@[i] as int == (piles@[i].1.cards - disc[i]) / pack_count as int || accs@[
                    j
                ].counts@[i] as int == (piles@[i].1.cards - disc[i]) / pack_count as int + 1 by {
                    if i == t as int {
                        assert(accs@[j].counts@[i] as int == num_dealt(
                            c - pile_modifier,
                            j,
                            pack_count as int,
                        ));
                        lemma_num_dealt((c - pile_modifier) as int, j, pack_count as int);
                        assert(piles@[i].1.cards - disc[i] == c - pile_modifier);
                    }
                }
            }
        }
        let ghost accs1 = accs@;
        let ghost aa = a0 + (c - pile_modifier);
        random.shuffle_vec(&mut accs);
        proof {
            lemma_row_transfer(accs1, accs@, n as int, aa, pack_count as int);
            lemma_cols_ok_transfer(accs1, accs@, piles@, disc, t + 1, pack_count as int);
        }
        let ghost accs2 = accs@;
        accs = sort_accs(accs);
        proof {
            lemma_row_transfer(accs2, accs@, n as int, aa, pack_count as int);
            lemma_cols_ok_transfer(accs2, accs@, piles@, disc, t + 1, pack_count as int);
        }
        t = t + 1;
    }
    proof {
        assert(piles@.take(n as int) =~= piles@);
        assert(card_index == total);
        assert(discarded@.take(total as int) =~= discarded@);
    }
    let packs = redistribute_and_finish(
        accs,
        randomized,
        piles,
        pack_size,
        pack_count,
        total,
        pack_overflow,
        Ghost(disc),
        random,
    );
    Ok(packs)
}

/// The closing phase of the allocation: shuffles the randomized pool,
/// fills every reserved slot from it, and assembles the finished packs.
#[verifier::rlimit(60)]
fn redistribute_and_finish(
    accs: Vec<Accum>,
    randomized: Vec<usize>,
    piles: &Vec<(String, Pile)>,
    pack_size: usize,
    pack_count: usize,
    total: usize,
    pack_overflow: usize,
    Ghost(disc): Ghost<Seq<int>>,
    random: &mut ShuffleRng,
) -> (packs: Vec<Pack>)
    requires
        piles_wf(piles@),
        0 < pack_size,
        0 < pack_count,
        total as int == spec_total_cards(piles@),
        pack_count as int == total as int / pack_size as int,
        pack_overflow as int == total as int % pack_size as int,
        accs@.len() == pack_count,
        forall|j: int| 0 <= j < accs@.len() ==> acc_wf(#[trigger] accs@[j], piles@.len() as int),
        sum_by(accs@, f_total()) == total - pack_overflow,
        balanced(accs@, total - pack_overflow, pack_count as int),
        randomized@.len() == sum_by(accs@, f_pending()),
        forall|x: int| 0 <= x < randomized@.len() ==> #[trigger] randomized@[x] < piles@.len(),
        forall|x: int|
            0 <= x < randomized@.len() ==> piles@[#[trigger] randomized@[
                x
            ] as int].1.randomness.numerator > 0,
        disc.len() == piles@.len(),
        forall|i: int| 0 <= i < piles@.len() ==> 0 <= #[trigger] disc[i] <= piles@[i].1.cards,
        sum_by(disc, f_id()) == pack_overflow as int,
        forall|i: int|
            0 <= i < piles@.len() ==> #[trigger] sum_by(accs@, f_col(i)) + sum_by(
                randomized@,
                f_match(i),
            ) + disc[i] == piles@[i].1.cards as int,
        forall|j: int|
            0 <= j < accs@.len() ==> acc_cols_ok(
                #[trigger] accs@[j],
                piles@,
                disc,
                piles@.len() as int,
                pack_count as int,
            ),
    ensures
        shuffle_post(piles@, pack_size as int, packs@),
{
    let n = piles.len();
    let mut randomized = randomized;
    proof {
        let aa = total - pack_overflow;
        vstd::arithmetic::div_mod::lemma_fundamental_div_mod(total as int, pack_size as int);
        assert(aa == pack_size * pack_count);
        vstd::arithmetic::div_mod::lemma_fundamental_div_mod_converse_div(
            aa,
            pack_count as int,
            pack_size as int,
            0,
        );
        assert forall|x: int| 0 <= x < accs@.len() implies pack_size as int <= #[trigger] f_total()(
            accs@[x],
        ) by {}
        assert(aa == pack_size as int * accs@.len());
        lemma_sum_by_all_at_floor(accs@, f_total(), pack_size as int);
    }
    let ghost rand1 = randomized@;
    random.shuffle_vec(&mut randomized);
    proof {
        broadcast use vstd::seq_lib::group_to_multiset_ensures;

        assert(randomized@.len() == rand1.len()) by {
            assert(rand1.to_multiset().len() == rand1.len());
            assert(randomized@.to_multiset().len() == randomized@.len());
        }
        assert forall|x: int| 0 <= x < randomized@.len() implies #[trigger] randomized@[x] < n
            && piles@[randomized@[x] as int].1.randomness.numerator > 0 by {
            assert(randomized@.contains(randomized@[x]));
            assert(randomized@.to_multiset().count(randomized@[x]) > 0);
            assert(rand1.to_multiset().count(randomized@[x]) > 0);
            assert(rand1.contains(randomized@[x]));
            let x2 = choose|x2: int| 0 <= x2 < rand1.len() && rand1[x2] == randomized@[x];
            assert(rand1[x2] < n);
            assert(piles@[rand1[x2] as int].1.randomness.numerator > 0);
        }
        assert forall|i: int| 0 <= i < n implies #[trigger] sum_by(randomized@, f_match(i))
            == sum_by(rand1, f_match(i)) by {
            lemma_sum_by_multiset_eq(rand1, randomized@, f_match(i));
        }
    }
    let ghost accs_fin = accs@;
    let ghost rand_fin = randomized@;
    let packs = finalize_packs(accs, randomized, piles);
    proof {
        assert forall|k: int| 0 <= k < packs@.len() implies (#[trigger] packs@[k]).total()
            == pack_size as int by {
            assert(f_total()(accs_fin[k]) == pack_size as int);
        }
        assert forall|i: int| 0 <= i < n implies packs_count_for(
            packs@,
            (#[trigger] piles@[i]).0@,
        ) == piles@[i].1.cards - disc[i] by {
            assert(sum_by(accs_fin, f_col(i)) + sum_by(rand_fin, f_match(i)) + disc[i]
                == piles@[i].1.cards as int);
        }
        assert forall|i: int, k: int|
            #![trigger piles@[i], packs@[k]]
            0 <= i < n && 0 <= k < packs@.len()
                && piles@[i].1.randomness.is_never() implies (piles@[i].1.cards - disc[i]) / (
        packs@.len() as int) <= packs@[k].count_for(piles@[i].0@) <= (piles@[i].1.cards - disc[i])
            / (packs@.len() as int) + 1 by {
            assert(sum_by(rand_fin, f_match(i)) == 0) by {
                assert forall|x: int| 0 <= x < rand_fin.len() implies #[trigger] f_match(i)(
                    rand_fin[x],
                ) == 0 by {
                    assert(piles@[rand_fin[x] as int].1.randomness.numerator > 0);
                }
                lemma_sum_by_upper_bound(rand_fin, f_match(i), 0);
                lemma_sum_by_lower_bound(rand_fin, f_match(i), 0);
            }
            assert(packs@[k].count_for(piles@[i].0@) == accs_fin[k].counts@[i] as int);
            assert(acc_cols_ok(accs_fin[k], piles@, disc, n as int, pack_count as int));
            assert(packs@.len() == pack_count);
        }
        assert(conserves_piles(piles@, pack_size as int, packs@, disc));
        assert(shuffle_post(piles@, pack_size as int, packs@));
    }
    packs
}

/// Gives one accumulator its reserved share of the pooled identities,
/// popping them off the pool's end, then records every pile with a
/// positive count under the pile's name.
#[verifier::rlimit(30)]
fn finalize_one(acc: Accum, pool: &mut Vec<usize>, piles: &Vec<(String, Pile)>) -> (pk: Pack)
    requires
        forall|i: int, j: int|
            0 <= i < j < piles@.len() ==> #[trigger] piles@[i].0@ != #[trigger] piles@[j].0@,
        acc_wf(acc, piles@.len() as int),
        acc.pending <= old(pool)@.len(),
        forall|x: int| 0 <= x < old(pool)@.len() ==> #[trigger] old(pool)@[x] < piles@.len(),
    ensures
        final(pool)@ == old(pool)@.take(old(pool)@.len() - acc.pending),
        pk.wf(),
        pk.total() == acc.total as int,
        forall|x: int|
            0 <= x < pk.card_sources@.len() ==> exists|i: int|
                0 <= i < piles@.len() && (#[trigger] pk.card_sources@[x]).0@ == piles@[i].0@,
        forall|i: int|
            0 <= i < piles@.len() ==> #[trigger] pk.count_for(piles@[i].0@) == acc.counts@[i]
                + sum_by(
                old(pool)@.skip(old(pool)@.len() - acc.pending),
                f_match(i),
            ),
{
    let n = piles.len();
    let ghost pool_at = pool@;
    let ghost counts_at = acc.counts@;
    let pend = acc.pending;
    let mut acc = acc;
    let mut p: usize = 0;
    while p < pend
        invariant
            0 <= p <= pend,
            n == piles@.len(),
            acc.counts@.len() == n,
            acc.pending == pend,
            pend <= pool_at.len(),
            acc.total as int == sum_by(counts_at, f_usize()) + pend,
            pool@ == pool_at.take(pool_at.len() - p),
            forall|x: int| 0 <= x < pool_at.len() ==> #[trigger] pool_at[x] < n,
            forall|i: int|
                0 <= i < n ==> #[trigger] acc.counts@[i] + sum_by(pool@, f_match(i))
                    == counts_at[i] + sum_by(pool_at, f_match(i)),
            sum_by(acc.counts@, f_usize()) == sum_by(counts_at, f_usize()) + p,
        decreases pend - p,
    {
        let ghost pool0 = pool@;
        let src_opt = pool.pop();
        let src = src_opt.unwrap();
        proof {
            assert(pool0 =~= pool@.push(src));
            assert(pool@ =~= pool_at.take(pool_at.len() - (p + 1)));
            assert(src == pool_at[pool_at.len() - p - 1]);
            assert forall|i: int| 0 <= i < n implies sum_by(pool0, f_match(i)) == sum_by(
                pool@,
                f_match(i),
            ) + f_match(i)(src) by {
                lemma_sum_by_push(pool@, f_match(i), src);
            }
            assert forall|x: int| 0 <= x < acc.counts@.len() implies 0 <= #[trigger] f_usize()(
                acc.counts@[x],
            ) by {}
            lemma_sum_by_element_le(acc.counts@, f_usize(), src as int);
            lemma_sum_by_update(acc.counts@, f_usize(), src as int, (acc.counts@[src as int]
                + 1) as usize);
        }
        let ghost counts0 = acc.counts@;
        let cur = acc.counts[src];
        acc.counts[src] = cur + 1;
        proof {
            assert(acc.counts@ == counts0.update(src as int, (cur + 1) as usize));
            assert forall|i: int| 0 <= i < n implies #[trigger] acc.counts@[i] + sum_by(
                pool@,
                f_match(i),
            ) == counts_at[i] + sum_by(pool_at, f_match(i)) by {
                if i == src as int {
                    assert(f_match(i)(src) == 1);
                } else {
                    assert(acc.counts@[i] == counts0[i]);
                    assert(f_match(i)(src) == 0);
                }
            }
        }
        p = p + 1;
    }
    // Record every pile with a positive count under its name.
    let ghost counts_fin = acc.counts@;
    let mut entries: Vec<(String, usize)> = Vec::new();
    let mut i2: usize = 0;
    while i2 < n
        invariant
            0 <= i2 <= n,
            n == piles@.len(),
            forall|i: int, j: int|
                0 <= i < j < n ==> #[trigger] piles@[i].0@ != #[trigger] piles@[j].0@,
            acc.counts@ == counts_fin,
            acc.counts@.len() == n,
            forall|x: int, y: int|
                0 <= x < y < entries@.len() ==> #[trigger] entries@[x].0@
                    != #[trigger] entries@[y].0@,
            forall|x: int| 0 <= x < entries@.len() ==> (#[trigger] entries@[x]).1 > 0,
            forall|x: int|
                0 <= x < entries@.len() ==> exists|y: int|
                    0 <= y < i2 && (#[trigger] entries@[x]).0@ == piles@[y].0@,
            forall|y: int|
                0 <= y < i2 ==> sum_by(entries@, f_for((#[trigger] piles@[y]).0@))
                    == counts_fin[y] as int,
            forall|y: int|
                i2 <= y < n ==> sum_by(entries@, f_for((#[trigger] piles@[y]).0@)) == 0,
            sum_by(entries@, f_count()) == sum_by(counts_fin.take(i2 as int), f_usize()),
        decreases n - i2,
    {
        let ghost entries0 = entries@;
        let c = acc.counts[i2];
        if c > 0 {
            let name = piles[i2].0.clone();
            entries.push((name, c));
            proof {
                let e = entries@.last();
                assert(e.0@ == piles@[i2 as int].0@);
                assert(entries@ =~= entries0.push(e));
                lemma_sum_by_push(entries0, f_count(), e);
                assert forall|y: int| 0 <= y < n implies sum_by(
                    entries@,
                    f_for((#[trigger] piles@[y]).0@),
                ) == sum_by(entries0, f_for(piles@[y].0@)) + if y == i2 as int {
                    c as int
                } else {
                    0int
                } by {
                    lemma_sum_by_push(entries0, f_for(piles@[y].0@), e);
                    if y != i2 as int {
                        assert(piles@[y].0@ != piles@[i2 as int].0@);
                    }
                }
                assert forall|x: int, y: int|
                    0 <= x < y < entries@.len() implies #[trigger] entries@[x].0@
                    != #[trigger] entries@[y].0@ by {
                    if y == entries@.len() - 1 {
                        let y0 = choose|y0: int| 0 <= y0 < i2 && entries0[x].0@ == piles@[y0].0@;
                        assert(piles@[y0].0@ != piles@[i2 as int].0@);
                    }
                }
            }
        } else {
            proof {
                assert(counts_fin[i2 as int] as int == 0);
            }
        }
        proof {
            assert(counts_fin.take(i2 + 1) =~= counts_fin.take(i2 as int).push(
                counts_fin[i2 as int],
            ));
            lemma_sum_by_push(counts_fin.take(i2 as int), f_usize(), counts_fin[i2 as int]);
        }
        i2 = i2 + 1;
    }
    let pk = Pack { card_sources: entries };
    proof {
        assert(counts_fin.take(n as int) =~= counts_fin);
        assert forall|i: int| 0 <= i < n implies #[trigger] pk.count_for(piles@[i].0@)
            == counts_at[i] + sum_by(
            pool_at.skip(pool_at.len() - pend),
            f_match(i),
        ) by {
            lemma_sum_by_split(pool_at, f_match(i), pool_at.len() - pend);
            assert(pool@ == pool_at.take(pool_at.len() - pend));
            assert(pk.count_for(piles@[i].0@) == counts_fin[i] as int);
        }
    }
    pk
}

/// Turns the accumulators into finished packs: hands each accumulator as
/// many pooled pile identities as it has reserved slots (consuming the
/// shuffled pool from its end, one global order across all packs).
fn finalize_packs(accs: Vec<Accum>, randomized: Vec<usize>, piles: &Vec<(String, Pile)>) -> (packs:
    Vec<Pack>)
    requires
        forall|i: int, j: int|
            0 <= i < j < piles@.len() ==> #[trigger] piles@[i].0@ != #[trigger] piles@[j].0@,
        forall|j: int| 0 <= j < accs@.len() ==> acc_wf(#[trigger] accs@[j], piles@.len() as int),
        randomized@.len() == sum_by(accs@, f_pending()),
        forall|x: int| 0 <= x < randomized@.len() ==> #[trigger] randomized@[x] < piles@.len(),
    ensures
        packs@.len() == accs@.len(),
        forall|j: int| 0 <= j < packs@.len() ==> (#[trigger] packs@[j]).wf(),
        forall|j: int|
            0 <= j < packs@.len() ==> (#[trigger] packs@[j]).total() == accs@[j].total as int,
        packs_keys_from(packs@, piles@),
        forall|i: int|
            0 <= i < piles@.len() ==> packs_count_for(packs@, (#[trigger] piles@[i]).0@) == sum_by(
                accs@,
                f_col(i),
            ) + sum_by(randomized@, f_match(i)),
        forall|j: int, i: int|
            #![trigger packs@[j], piles@[i]]
            0 <= j < packs@.len() && 0 <= i < piles@.len() && sum_by(randomized@, f_match(i)) == 0
                ==> packs@[j].count_for(piles@[i].0@) == accs@[j].counts@[i] as int,
{
    let ghost accs_g = accs@;
    let ghost rand_g = randomized@;
    let n = piles.len();
    let mut rem = accs;
    let mut pool = randomized;
    let mut packs: Vec<Pack> = Vec::new();
    proof {
        assert(rem@ =~= accs_g.skip(0));
        assert forall|i: int| 0 <= i < n implies packs_count_for(packs@, (#[trigger] piles@[i]).0@)
            + sum_by(rem@, f_col(i)) + sum_by(pool@, f_match(i)) == sum_by(accs_g, f_col(i))
            + sum_by(rand_g, f_match(i)) by {}
        assert forall|i: int| 0 <= i < n implies 0 <= #[trigger] sum_by(pool@, f_match(i))
            <= sum_by(rand_g, f_match(i)) by {
            assert(forall|x: int| 0 <= x < pool@.len() ==> 0 <= #[trigger] f_match(i)(pool@[x]));
            lemma_sum_by_lower_bound(pool@, f_match(i), 0);
        }
    }
    while rem.len() > 0
        invariant
            n == piles@.len(),
            forall|i: int, j: int|
                0 <= i < j < n ==> #[trigger] piles@[i].0@ != #[trigger] piles@[j].0@,
            forall|j: int| 0 <= j < accs_g.len() ==> acc_wf(#[trigger] accs_g[j], n as int),
            packs@.len() + rem@.len() == accs_g.len(),
            rem@ == accs_g.skip(packs@.len() as int),
            pool@.len() == sum_by(rem@, f_pending()),
            forall|x: int| 0 <= x < pool@.len() ==> #[trigger] pool@[x] < n,
            forall|j: int| 0 <= j < packs@.len() ==> (#[trigger] packs@[j]).wf(),
            forall|j: int|
                0 <= j < packs@.len() ==> (#[trigger] packs@[j]).total() == accs_g[j].total as int,
            packs_keys_from(packs@, piles@),
            forall|i: int|
                0 <= i < n ==> packs_count_for(packs@, (#[trigger] piles@[i]).0@) + sum_by(
                    rem@,
                    f_col(i),
                ) + sum_by(pool@, f_match(i)) == sum_by(accs_g, f_col(i)) + sum_by(
                    rand_g,
                    f_match(i),
                ),
            forall|i: int|
                0 <= i < n ==> 0 <= #[trigger] sum_by(pool@, f_match(i)) <= sum_by(
                    rand_g,
                    f_match(i),
                ),
            forall|j: int, i: int|
                #![trigger packs@[j], piles@[i]]
                0 <= j < packs@.len() && 0 <= i < n && sum_by(rand_g, f_match(i)) == 0
                    ==> packs@[j].count_for(piles@[i].0@) == accs_g[j].counts@[i] as int,
        decreases rem@.len(),
    {
        let ghost k = packs@.len() as int;
        let ghost rem0 = rem@;
        let acc = rem.remove(0);
        let ghost acc_g = acc;
        proof {
            assert(acc_g == accs_g[k]);
            assert(rem@ =~= accs_g.skip(k + 1)) by {
                assert(rem@ =~= accs_g.skip(k).remove(0));
            }
            lemma_sum_by_remove(rem0, f_pending(), 0);
            assert forall|i: int| 0 <= i < n implies sum_by(rem0, f_col(i)) == f_col(i)(acc_g)
                + sum_by(rem@, f_col(i)) by {
                lemma_sum_by_remove(rem0, f_col(i), 0);
            }
            assert forall|x: int| 0 <= x < rem@.len() implies 0 <= #[trigger] f_pending()(
                rem@[x],
            ) by {}
            lemma_sum_by_lower_bound(rem@, f_pending(), 0);
        }
        let ghost pool_at = pool@;
        let pk = finalize_one(acc, &mut pool, piles);
        let ghost packs0 = packs@;
        packs.push(pk);
        proof {
            let pend = acc_g.pending as int;
            let ghost consumed = pool_at.skip(pool_at.len() - pend);
            assert(packs@ =~= packs0.push(pk));
            assert(pool@ == pool_at.take(pool_at.len() - pend));
            assert forall|x: int| 0 <= x < pool@.len() implies #[trigger] pool@[x] < n by {
                assert(pool@[x] == pool_at[x]);
            }
            assert forall|j: int| 0 <= j < packs@.len() implies (#[trigger] packs@[j]).total()
                == accs_g[j].total as int by {
                if j < packs0.len() {
                    assert(packs@[j] == packs0[j]);
                }
            }
            assert forall|j: int| 0 <= j < packs@.len() implies (#[trigger] packs@[j]).wf() by {
                if j < packs0.len() {
                    assert(packs@[j] == packs0[j]);
                }
            }
            assert(packs_keys_from(packs@, piles@)) by {
                assert forall|k2: int, x: int|
                    0 <= k2 < packs@.len() && 0 <= x < packs@[k2].card_sources@.len() implies exists|
                    i: int,
                | 0 <= i < piles@.len() && (#[trigger] packs@[k2].card_sources@[x]).0@
                    == piles@[i].0@ by {
                    if k2 < packs0.len() {
                        assert(packs@[k2] == packs0[k2]);
                    } else {
                        assert(packs@[k2] == pk);
                    }
                }
            }
            assert forall|i: int| 0 <= i < n implies packs_count_for(
                packs@,
                (#[trigger] piles@[i]).0@,
            ) + sum_by(rem@, f_col(i)) + sum_by(pool@, f_match(i)) == sum_by(accs_g, f_col(i))
                + sum_by(rand_g, f_match(i)) by {
                lemma_sum_by_push(packs0, f_pack_for(piles@[i].0@), pk);
                assert(f_pack_for(piles@[i].0@)(pk) == pk.count_for(piles@[i].0@));
                assert(pk.count_for(piles@[i].0@) == acc_g.counts@[i] + sum_by(
                    consumed,
                    f_match(i),
                ));
                lemma_sum_by_split(pool_at, f_match(i), pool_at.len() - pend);
                assert(sum_by(rem0, f_col(i)) == acc_g.counts@[i] + sum_by(rem@, f_col(i)));
            }
            assert forall|i: int| 0 <= i < n implies 0 <= #[trigger] sum_by(pool@, f_match(i))
                <= sum_by(rand_g, f_match(i)) by {
                lemma_sum_by_split(pool_at, f_match(i), pool_at.len() - pend);
                assert(forall|x: int|
                    0 <= x < pool@.len() ==> 0 <= #[trigger] f_match(i)(pool@[x]));
                lemma_sum_by_lower_bound(pool@, f_match(i), 0);
                assert(forall|x: int|
                    0 <= x < consumed.len() ==> 0 <= #[trigger] f_match(i)(consumed[x]));
                lemma_sum_by_lower_bound(consumed, f_match(i), 0);
            }
            assert forall|j: int, i: int|
                #![trigger packs@[j], piles@[i]]
                0 <= j < packs@.len() && 0 <= i < n && sum_by(rand_g, f_match(i))
                    == 0 implies packs@[j].count_for(piles@[i].0@) == accs_g[j].counts@[
                i
            ] as int by {
                if j < packs0.len() {
                    assert(packs@[j] == packs0[j]);
                } else {
                    assert(packs@[j] == pk);
                    assert(sum_by(pool_at, f_match(i)) == 0);
                    lemma_sum_by_split(pool_at, f_match(i), pool_at.len() - pend);
                    assert(forall|x: int|
                        0 <= x < pool@.len() ==> 0 <= #[trigger] f_match(i)(pool@[x]));
                    lemma_sum_by_lower_bound(pool@, f_match(i), 0);
                    assert(forall|x: int|
                        0 <= x < consumed.len() ==> 0 <= #[trigger] f_match(i)(consumed[x]));
                    lemma_sum_by_lower_bound(consumed, f_match(i), 0);
                    assert(sum_by(consumed, f_match(i)) == 0);
                    assert(pk.count_for(piles@[i].0@) == acc_g.counts@[i] as int);
                }
            }
        }
    }
    proof {
        assert(rem@.len() == 0);
        assert(packs@.len() == accs_g.len());
        assert forall|i: int| 0 <= i < n implies packs_count_for(
            packs@,
            (#[trigger] piles@[i]).0@,
        ) == sum_by(accs_g, f_col(i)) + sum_by(rand_g, f_match(i)) by {
            assert(sum_by(rem@, f_col(i)) == 0);
            assert(sum_by(pool@, f_match(i)) == 0);
        }
    }
    packs
}

} // verus!
