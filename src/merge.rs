//! The k-way merge of per-venue book sides, stated as spec functions, with
//! the facts about it that the aggregator's contracts rest on.
use vstd::prelude::*;

use crate::exchange::ExchangeId;
use crate::order_book::{asks_sorted, bids_sorted, PriceLevel};

verus! {

/// On the bid side a higher price ranks ahead; on the ask side a lower one.
pub open spec fn better(is_bid: bool, a: u64, b: u64) -> bool {
    if is_bid {
        a > b
    } else {
        a < b
    }
}

/// Levels of one side ordered best first.
pub open spec fn side_sorted(is_bid: bool, s: Seq<PriceLevel>) -> bool {
    if is_bid {
        bids_sorted(s)
    } else {
        asks_sorted(s)
    }
}

/// The level that venue `j` offers next, given how far each venue has been consumed.
pub open spec fn candidate(sides: Seq<Seq<PriceLevel>>, cursors: Seq<int>, j: int) -> PriceLevel {
    sides[j][cursors[j]]
}

/// Among venues `0..k`, the one with the best candidate; on equal prices the
/// earliest venue is kept.
pub open spec fn best_among(sides: Seq<Seq<PriceLevel>>, cursors: Seq<int>, is_bid: bool, k: nat) -> nat
    decreases k,
{
    if k <= 1 {
        0
    } else {
        let b = best_among(sides, cursors, is_bid, (k - 1) as nat);
        if better(
            is_bid,
            candidate(sides, cursors, k - 1).price,
            candidate(sides, cursors, b as int).price,
        ) {
            (k - 1) as nat
        } else {
            b
        }
    }
}

/// How many levels of each venue the first `i` output slots have consumed.
pub open spec fn cursors_after(sides: Seq<Seq<PriceLevel>>, is_bid: bool, i: nat) -> Seq<int>
    decreases i,
{
    if i == 0 {
        Seq::new(sides.len(), |j: int| 0int)
    } else {
        let c = cursors_after(sides, is_bid, (i - 1) as nat);
        let b = best_among(sides, c, is_bid, sides.len()) as int;
        c.update(b, c[b] + 1)
    }
}

/// The venue that fills output slot `i`.
pub open spec fn pick(sides: Seq<Seq<PriceLevel>>, is_bid: bool, i: nat) -> int {
    best_among(sides, cursors_after(sides, is_bid, i), is_bid, sides.len()) as int
}

/// The level written to output slot `i`.
pub open spec fn picked_level(sides: Seq<Seq<PriceLevel>>, is_bid: bool, i: nat) -> PriceLevel {
    candidate(sides, cursors_after(sides, is_bid, i), pick(sides, is_bid, i))
}

/// The first `n` levels of the merged side.
pub open spec fn merged_levels(sides: Seq<Seq<PriceLevel>>, is_bid: bool, n: nat) -> Seq<PriceLevel> {
    Seq::new(n, |i: int| picked_level(sides, is_bid, i as nat))
}

/// The venue of each of the first `n` levels of the merged side.
pub open spec fn merged_sources(
    ids: Seq<ExchangeId>,
    sides: Seq<Seq<PriceLevel>>,
    is_bid: bool,
    n: nat,
) -> Seq<ExchangeId> {
    Seq::new(n, |i: int| ids[pick(sides, is_bid, i as nat)])
}

/// The chosen venue is in range, no venue's candidate ranks ahead of it, and
/// every earlier venue's candidate ranks strictly behind it.
pub proof fn lemma_best_among(sides: Seq<Seq<PriceLevel>>, cursors: Seq<int>, is_bid: bool, k: nat)
    requires
        k >= 1,
    ensures
        best_among(sides, cursors, is_bid, k) < k,
        forall|j: int|
            0 <= j < k ==> !better(
                is_bid,
                #[trigger] candidate(sides, cursors, j).price,
                candidate(sides, cursors, best_among(sides, cursors, is_bid, k) as int).price,
            ),
        forall|j: int|
            0 <= j < best_among(sides, cursors, is_bid, k) ==> better(
                is_bid,
                candidate(sides, cursors, best_among(sides, cursors, is_bid, k) as int).price,
                #[trigger] candidate(sides, cursors, j).price,
            ),
    decreases k,
{
    if k > 1 {
        lemma_best_among(sides, cursors, is_bid, (k - 1) as nat);
    }
}

/// Every cursor stays between 0 and the number of slots filled so far.
pub proof fn lemma_cursors_bounded(sides: Seq<Seq<PriceLevel>>, is_bid: bool, i: nat)
    requires
        sides.len() >= 1,
    ensures
        cursors_after(sides, is_bid, i).len() == sides.len(),
        forall|j: int|
            0 <= j < sides.len() ==> 0 <= #[trigger] cursors_after(sides, is_bid, i)[j] <= i,
    decreases i,
{
    if i > 0 {
        let c = cursors_after(sides, is_bid, (i - 1) as nat);
        lemma_cursors_bounded(sides, is_bid, (i - 1) as nat);
        lemma_best_among(sides, c, is_bid, sides.len());
    }
}

/// Consecutive merged levels never move from better to worse order.
proof fn lemma_merged_step(sides: Seq<Seq<PriceLevel>>, is_bid: bool, n: nat, i: nat)
    requires
        sides.len() >= 1,
        forall|j: int| 0 <= j < sides.len() ==> (#[trigger] sides[j]).len() == n,
        forall|j: int| 0 <= j < sides.len() ==> side_sorted(is_bid, #[trigger] sides[j]),
        i + 1 < n,
    ensures
        !better(is_bid, picked_level(sides, is_bid, i + 1).price, picked_level(sides, is_bid, i).price),
{
    let c = cursors_after(sides, is_bid, i);
    let b = pick(sides, is_bid, i);
    let c2 = cursors_after(sides, is_bid, i + 1);
    let b2 = pick(sides, is_bid, i + 1);
    lemma_cursors_bounded(sides, is_bid, i);
    lemma_cursors_bounded(sides, is_bid, i + 1);
    lemma_best_among(sides, c, is_bid, sides.len());
    lemma_best_among(sides, c2, is_bid, sides.len());
    assert(c2 == c.update(b, c[b] + 1));
    if b2 == b {
        assert(c2[b] == c[b] + 1);
        assert(c[b] + 1 < n);
        assert(side_sorted(is_bid, sides[b]));
    } else {
        assert(c2[b2] == c[b2]);
        assert(candidate(sides, c2, b2) == candidate(sides, c, b2));
    }
}

/// The merge of sides that are each ordered best first is ordered best first.
pub proof fn lemma_merged_sorted(sides: Seq<Seq<PriceLevel>>, is_bid: bool, n: nat)
    requires
        sides.len() >= 1,
        forall|j: int| 0 <= j < sides.len() ==> (#[trigger] sides[j]).len() == n,
        forall|j: int| 0 <= j < sides.len() ==> side_sorted(is_bid, #[trigger] sides[j]),
    ensures
        side_sorted(is_bid, merged_levels(sides, is_bid, n)),
{
    let m = merged_levels(sides, is_bid, n);
    assert forall|a: int, b: int| 0 <= a <= b < n implies #[trigger] m[a].price >= #[trigger] m[b].price
        || !is_bid by {
        lemma_merged_chain(sides, is_bid, n, a as nat, b as nat);
    }
    assert forall|a: int, b: int| 0 <= a <= b < n implies #[trigger] m[a].price <= #[trigger] m[b].price
        || is_bid by {
        lemma_merged_chain(sides, is_bid, n, a as nat, b as nat);
    }
}

proof fn lemma_merged_chain(sides: Seq<Seq<PriceLevel>>, is_bid: bool, n: nat, a: nat, b: nat)
    requires
        sides.len() >= 1,
        forall|j: int| 0 <= j < sides.len() ==> (#[trigger] sides[j]).len() == n,
        forall|j: int| 0 <= j < sides.len() ==> side_sorted(is_bid, #[trigger] sides[j]),
        a <= b < n,
    ensures
        !better(is_bid, picked_level(sides, is_bid, b).price, picked_level(sides, is_bid, a).price),
    decreases b - a,
{
    if a < b {
        lemma_merged_chain(sides, is_bid, n, a, (b - 1) as nat);
        lemma_merged_step(sides, is_bid, n, (b - 1) as nat);
    }
}

/// With a single venue, the merge is that venue's side unchanged.
pub proof fn lemma_merge_single(sides: Seq<Seq<PriceLevel>>, is_bid: bool, n: nat)
    requires
        sides.len() == 1,
        sides[0].len() == n,
    ensures
        merged_levels(sides, is_bid, n) == sides[0],
        forall|i: int| 0 <= i < n ==> #[trigger] pick(sides, is_bid, i as nat) == 0,
{
    assert forall|i: nat| #[trigger] cursors_after(sides, is_bid, i)[0] == i by {
        lemma_single_cursor(sides, is_bid, i);
    }
    assert(merged_levels(sides, is_bid, n) =~= sides[0]);
}

proof fn lemma_single_cursor(sides: Seq<Seq<PriceLevel>>, is_bid: bool, i: nat)
    requires
        sides.len() == 1,
    ensures
        cursors_after(sides, is_bid, i)[0] == i,
        cursors_after(sides, is_bid, i).len() == 1,
    decreases i,
{
    if i > 0 {
        lemma_single_cursor(sides, is_bid, (i - 1) as nat);
    }
}

/// The first merged level is the best first level of any venue, taken from
/// the earliest venue that offers that price.
pub proof fn lemma_first_slot(sides: Seq<Seq<PriceLevel>>, is_bid: bool)
    requires
        sides.len() >= 1,
    ensures
        0 <= pick(sides, is_bid, 0) < sides.len(),
        picked_level(sides, is_bid, 0) == sides[pick(sides, is_bid, 0)][0],
        forall|j: int|
            0 <= j < sides.len() ==> !better(
                is_bid,
                (#[trigger] sides[j])[0].price,
                sides[pick(sides, is_bid, 0)][0].price,
            ),
        forall|j: int|
            0 <= j < pick(sides, is_bid, 0) ==> better(
                is_bid,
                sides[pick(sides, is_bid, 0)][0].price,
                (#[trigger] sides[j])[0].price,
            ),
{
    let c = cursors_after(sides, is_bid, 0);
    lemma_best_among(sides, c, is_bid, sides.len());
    let p = pick(sides, is_bid, 0);
    assert(c[p] == 0);
    assert forall|j: int| 0 <= j < sides.len() implies !better(
        is_bid,
        (#[trigger] sides[j])[0].price,
        sides[p][0].price,
    ) by {
        assert(c[j] == 0);
        assert(candidate(sides, c, j) == sides[j][0]);
    }
    assert forall|j: int| 0 <= j < p implies better(
        is_bid,
        sides[p][0].price,
        (#[trigger] sides[j])[0].price,
    ) by {
        assert(c[j] == 0);
        assert(candidate(sides, c, j) == sides[j][0]);
    }
}

} // verus!
