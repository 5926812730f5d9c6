use vstd::prelude::*;
use vstd::string::StringSliceAdditionalSpecFns;

use crate::decimal::{decimal_of, parse_decimal};
use crate::exchange::ExchangeId;
use crate::merge::{
    best_among, candidate, cursors_after, lemma_best_among, lemma_cursors_bounded, lemma_first_slot,
    lemma_merge_single, lemma_merged_sorted, merged_levels, merged_sources, pick, side_sorted,
};

verus! {

/// Prices and amounts are fixed-point numbers with this many decimal places.
pub const DECIMALS: u32 = 8;

/// One whole unit in fixed-point terms.
pub const SCALE: u64 = 100_000_000;

/// Stands for a price of +infinity: it sorts after every real ask.
pub const INFINITE_PRICE: u64 = 0xffff_ffff_ffff_ffff;

/// A price and the quantity available at it, both fixed-point.
#[derive(Copy, Clone, Debug, PartialEq, Eq, Structural)]
pub struct PriceLevel {
    pub price: u64,
    pub amount: u64,
}

impl From<(u64, u64)> for PriceLevel {
    fn from(t: (u64, u64)) -> (r: Self)
        ensures
            r == level_of(t),
    {
        PriceLevel { price: t.0, amount: t.1 }
    }
}

impl vstd::std_specs::convert::FromSpecImpl<(u64, u64)> for PriceLevel {
    open spec fn obeys_from_spec() -> bool {
        true
    }

    open spec fn from_spec(t: (u64, u64)) -> PriceLevel {
        level_of(t)
    }
}

/// The level with price `t.0` and amount `t.1`.
pub open spec fn level_of(t: (u64, u64)) -> PriceLevel {
    PriceLevel { price: t.0, amount: t.1 }
}

/// The level written as `[price, amount]` in decimal text.
pub open spec fn level_text(t: [&str; 2]) -> Option<PriceLevel> {
    match (decimal_of(t@[0].spec_bytes()), decimal_of(t@[1].spec_bytes())) {
        (Some(price), Some(amount)) => Some(PriceLevel { price, amount }),
        _ => None,
    }
}

impl PriceLevel {
    /// Reads a level from `[price, amount]` decimal text.
    pub fn parse(t: &[&str; 2]) -> (r: Option<PriceLevel>)
        ensures
            r == level_text(*t),
    {
        let price = parse_decimal(t[0].as_bytes());
        let amount = parse_decimal(t[1].as_bytes());
        match (price, amount) {
            (Some(price), Some(amount)) => Some(PriceLevel { price, amount }),
            _ => None,
        }
    }
}

/// The empty bid level: price 0, sorting below every real bid.
pub open spec fn empty_bid() -> PriceLevel {
    PriceLevel { price: 0, amount: 0 }
}

/// The empty ask level: price +infinity, sorting above every real ask.
pub open spec fn empty_ask() -> PriceLevel {
    PriceLevel { price: INFINITE_PRICE, amount: 0 }
}

/// Bids and asks of one book, best first.
#[derive(Copy, Clone, Debug)]
pub struct OrderBook<const N: usize> {
    pub bid: [PriceLevel; N],
    pub ask: [PriceLevel; N],
}

/// For each level of a consolidated book, the venue it came from.
#[derive(Copy, Clone, Debug)]
pub struct Sources<const N: usize> {
    pub bid: [ExchangeId; N],
    pub ask: [ExchangeId; N],
}

/// Bids never rise with depth.
pub open spec fn bids_sorted(s: Seq<PriceLevel>) -> bool {
    forall|i: int, j: int| 0 <= i <= j < s.len() ==> s[i].price >= s[j].price
}

/// Asks never fall with depth.
pub open spec fn asks_sorted(s: Seq<PriceLevel>) -> bool {
    forall|i: int, j: int| 0 <= i <= j < s.len() ==> s[i].price <= s[j].price
}

impl<const N: usize> OrderBook<N> {
    /// The book of a venue that has not reported yet.
    pub open spec fn empty() -> Self {
        OrderBook {
            bid: vstd::array::spec_array_fill_for_copy_type(empty_bid()),
            ask: vstd::array::spec_array_fill_for_copy_type(empty_ask()),
        }
    }

    /// A book whose levels are all empty is the empty book.
    pub proof fn lemma_empty_unique(b: Self)
        requires
            forall|i: int| 0 <= i < N ==> b.bid@[i] == empty_bid(),
            forall|i: int| 0 <= i < N ==> b.ask@[i] == empty_ask(),
        ensures
            b == Self::empty(),
    {
        assert(b.bid =~= Self::empty().bid);
        assert(b.ask =~= Self::empty().ask);
    }

    /// Both sides are ordered best first.
    pub open spec fn wf(&self) -> bool {
        bids_sorted(self.bid@) && asks_sorted(self.ask@)
    }

    /// Reads a book from `[price, amount]` decimal text, best first; `None`
    /// if any level is not two numerals.
    pub fn parse(bid_str: &[[&str; 2]; N], ask_str: &[[&str; 2]; N]) -> (r: Option<Self>)
        ensures
            r is Some <==> forall|i: int|
                0 <= i < N ==> (#[trigger] level_text(bid_str@[i]) is Some && level_text(
                    ask_str@[i],
                ) is Some),
            r matches Some(b) ==> forall|i: int|
                0 <= i < N ==> Some(#[trigger] b.bid@[i]) == level_text(bid_str@[i]) && Some(
                    b.ask@[i],
                ) == level_text(ask_str@[i]),
    {
        let mut r = Self::default();
        let mut i: usize = 0;
        while i < N
            invariant
                0 <= i <= N,
                forall|k: int|
                    0 <= k < i ==> Some(#[trigger] r.bid@[k]) == level_text(bid_str@[k]) && Some(
                        r.ask@[k],
                    ) == level_text(ask_str@[k]),
            decreases N - i,
        {
            match (PriceLevel::parse(&bid_str[i]), PriceLevel::parse(&ask_str[i])) {
                (Some(b), Some(a)) => {
                    r.bid[i] = b;
                    r.ask[i] = a;
                },
                _ => {
                    assert(!(level_text(bid_str@[i as int]) is Some && level_text(
                        ask_str@[i as int],
                    ) is Some));
                    return None;
                },
            }
            i = i + 1;
        }
        assert forall|k: int| 0 <= k < N implies (#[trigger] level_text(bid_str@[k]) is Some
            && level_text(ask_str@[k]) is Some) by {
            assert(Some(r.bid@[k]) == level_text(bid_str@[k]));
        }
        Some(r)
    }

    /// Whether both sides are ordered best first.
    pub fn is_sorted(&self) -> (r: bool)
        ensures
            r == self.wf(),
    {
        let mut i: usize = 1;
        while i < N
            invariant
                1 <= i <= N || N == 0,
                forall|a: int, b: int| 0 <= a <= b < i && b < N ==> self.bid@[a].price >= self.bid@[b].price,
                forall|a: int, b: int| 0 <= a <= b < i && b < N ==> self.ask@[a].price <= self.ask@[b].price,
            decreases N - i,
        {
            if self.bid[i - 1].price < self.bid[i].price || self.ask[i - 1].price > self.ask[i].price {
                return false;
            }
            i = i + 1;
        }
        true
    }

    /// Builds a book from `(price, amount)` pairs, best first.
    pub fn from(bid: &[(u64, u64); N], ask: &[(u64, u64); N]) -> (r: Self)
        ensures
            forall|i: int| 0 <= i < N ==> r.bid@[i] == level_of(bid@[i]),
            forall|i: int| 0 <= i < N ==> r.ask@[i] == level_of(ask@[i]),
    {
        let mut r = Self::default();
        let mut i: usize = 0;
        while i < N
            invariant
                0 <= i <= N,
                forall|k: int| 0 <= k < i ==> r.bid@[k] == level_of(bid@[k]),
                forall|k: int| 0 <= k < i ==> r.ask@[k] == level_of(ask@[k]),
            decreases N - i,
        {
            r.bid[i] = PriceLevel::from(bid[i]);
            r.ask[i] = PriceLevel::from(ask[i]);
            i = i + 1;
        }
        r
    }
}

impl<const N: usize> Default for OrderBook<N> {
    /// The book of a venue that has not reported yet.
    fn default() -> (r: Self)
        ensures
            forall|i: int| 0 <= i < N ==> r.bid@[i] == empty_bid(),
            forall|i: int| 0 <= i < N ==> r.ask@[i] == empty_ask(),
            r.wf(),
    {
        OrderBook {
            bid: [PriceLevel { price: 0, amount: 0 }; N],
            ask: [PriceLevel { price: INFINITE_PRICE, amount: 0 }; N],
        }
    }
}

/// The chosen side of each book, in venue order.
pub open spec fn sides_of<const N: usize>(books: Seq<OrderBook<N>>, is_bid: bool) -> Seq<Seq<PriceLevel>> {
    Seq::new(books.len(), |j: int| if is_bid { books[j].bid@ } else { books[j].ask@ })
}

/// Ids are pairwise distinct.
pub open spec fn distinct_ids(ids: Seq<ExchangeId>) -> bool {
    forall|a: int, b: int| 0 <= a < b < ids.len() ==> ids[a] != ids[b]
}

/// Holds the latest book of each configured venue and merges them on demand.
pub struct Aggregator<const N: usize> {
    exchange_ids: Vec<ExchangeId>,
    order_books: Vec<OrderBook<N>>,
}

impl<const N: usize> Aggregator<N> {
    /// The configured venues, in configuration order.
    pub closed spec fn ids(&self) -> Seq<ExchangeId> {
        self.exchange_ids@
    }

    /// The latest book of each venue, by venue index.
    pub closed spec fn books(&self) -> Seq<OrderBook<N>> {
        self.order_books@
    }

    /// At least one venue, distinct ids, one sorted book per venue.
    pub open spec fn wf(&self) -> bool {
        &&& self.ids().len() >= 1
        &&& self.books().len() == self.ids().len()
        &&& distinct_ids(self.ids())
        &&& forall|j: int| 0 <= j < self.books().len() ==> (#[trigger] self.books()[j]).wf()
    }

    /// `book` and `sources` are the merge of the current books, both sides.
    pub open spec fn is_aggregate(&self, book: OrderBook<N>, sources: Sources<N>) -> bool {
        &&& book.bid@ == merged_levels(sides_of(self.books(), true), true, N as nat)
        &&& book.ask@ == merged_levels(sides_of(self.books(), false), false, N as nat)
        &&& sources.bid@ == merged_sources(self.ids(), sides_of(self.books(), true), true, N as nat)
        &&& sources.ask@ == merged_sources(self.ids(), sides_of(self.books(), false), false, N as nat)
    }

    /// One empty book per venue, in the given order.
    pub fn new(exchange_ids: Vec<ExchangeId>) -> (r: Self)
        requires
            exchange_ids@.len() >= 1,
            distinct_ids(exchange_ids@),
        ensures
            r.wf(),
            r.ids() == exchange_ids@,
            forall|j: int|
                0 <= j < r.books().len() ==> #[trigger] r.books()[j] == OrderBook::<N>::empty(),
    {
        let mut order_books: Vec<OrderBook<N>> = Vec::new();
        let mut j: usize = 0;
        while j < exchange_ids.len()
            invariant
                j <= exchange_ids@.len(),
                order_books@.len() == j,
                forall|k: int| 0 <= k < j ==> #[trigger] order_books@[k] == OrderBook::<N>::empty(),
            decreases exchange_ids@.len() - j,
        {
            let book = Self::empty_book();
            order_books.push(book);
            j = j + 1;
        }
        Aggregator { exchange_ids, order_books }
    }

    fn empty_book() -> (r: OrderBook<N>)
        ensures
            r == OrderBook::<N>::empty(),
    {
        let r = OrderBook::default();
        proof {
            OrderBook::<N>::lemma_empty_unique(r);
        }
        r
    }

    /// Replaces the book of venue `idx` by `order_book`.
    pub fn update(&mut self, idx: usize, order_book: OrderBook<N>)
        requires
            old(self).wf(),
            idx < old(self).ids().len(),
            order_book.wf(),
        ensures
            final(self).wf(),
            final(self).ids() == old(self).ids(),
            final(self).books() == old(self).books().update(idx as int, order_book),
    {
        self.order_books.set(idx, order_book);
    }

    /// The consolidated book of depth `N` with the venue of every level.
    pub fn aggregate(&self) -> (r: (OrderBook<N>, Sources<N>))
        requires
            self.wf(),
        ensures
            self.is_aggregate(r.0, r.1),
            r.0.wf(),
    {
        let (bid, bid_sources) = self.merge(true);
        let (ask, ask_sources) = self.merge(false);
        let r = (OrderBook { bid, ask }, Sources { bid: bid_sources, ask: ask_sources });
        proof {
            self.lemma_aggregate_sorted(r.0, r.1);
        }
        r
    }

    proof fn lemma_sides(&self, is_bid: bool)
        requires
            self.wf(),
        ensures
            sides_of(self.books(), is_bid).len() == self.books().len(),
            forall|j: int|
                0 <= j < self.books().len() ==> (#[trigger] sides_of(self.books(), is_bid)[j]).len()
                    == N,
            forall|j: int|
                0 <= j < self.books().len() ==> side_sorted(
                    is_bid,
                    #[trigger] sides_of(self.books(), is_bid)[j],
                ),
    {
        assert forall|j: int| 0 <= j < self.books().len() implies side_sorted(
            is_bid,
            #[trigger] sides_of(self.books(), is_bid)[j],
        ) by {
            assert(self.books()[j].wf());
        }
    }

    /// Whatever the venues' books, the consolidated bids never rise and the
    /// consolidated asks never fall with depth.
    pub proof fn lemma_aggregate_sorted(&self, book: OrderBook<N>, sources: Sources<N>)
        requires
            self.wf(),
            self.is_aggregate(book, sources),
        ensures
            book.wf(),
    {
        self.lemma_sides(true);
        self.lemma_sides(false);
        lemma_merged_sorted(sides_of(self.books(), true), true, N as nat);
        lemma_merged_sorted(sides_of(self.books(), false), false, N as nat);
    }

    /// Each consolidated level is a level that its attributed venue holds
    /// now, on the same side.
    pub proof fn lemma_attribution(&self, book: OrderBook<N>, sources: Sources<N>, i: int, j: int)
        requires
            self.wf(),
            self.is_aggregate(book, sources),
            0 <= i < N,
            0 <= j < self.ids().len(),
        ensures
            self.ids()[j] == sources.bid@[i] ==> exists|d: int|
                0 <= d < N && book.bid@[i] == #[trigger] self.books()[j].bid@[d],
            self.ids()[j] == sources.ask@[i] ==> exists|d: int|
                0 <= d < N && book.ask@[i] == #[trigger] self.books()[j].ask@[d],
    {
        self.lemma_attribution_side(true, i);
        self.lemma_attribution_side(false, i);
        let pb = pick(sides_of(self.books(), true), true, i as nat);
        let pa = pick(sides_of(self.books(), false), false, i as nat);
        if self.ids()[j] == sources.bid@[i] {
            assert(self.ids()[pb] == sources.bid@[i]);
            assert(pb == j);
        }
        if self.ids()[j] == sources.ask@[i] {
            assert(self.ids()[pa] == sources.ask@[i]);
            assert(pa == j);
        }
    }

    proof fn lemma_attribution_side(&self, is_bid: bool, i: int)
        requires
            self.wf(),
            0 <= i < N,
        ensures
            ({
                let sides = sides_of(self.books(), is_bid);
                let p = pick(sides, is_bid, i as nat);
                &&& 0 <= p < self.ids().len()
                &&& 0 <= cursors_after(sides, is_bid, i as nat)[p] < N
                &&& merged_levels(sides, is_bid, N as nat)[i] == sides[p][cursors_after(
                    sides,
                    is_bid,
                    i as nat,
                )[p]]
            }),
    {
        let sides = sides_of(self.books(), is_bid);
        lemma_cursors_bounded(sides, is_bid, i as nat);
        lemma_best_among(
            sides,
            cursors_after(sides, is_bid, i as nat),
            is_bid,
            sides.len(),
        );
    }

    /// A venue that has not reported yet is credited with no level on a side
    /// where some other venue quotes only real prices: its empty bids (price
    /// 0) rank below every positive bid, its empty asks below every finite ask.
    pub proof fn lemma_empty_venue_ranks_last(
        &self,
        book: OrderBook<N>,
        sources: Sources<N>,
        u: int,
        j: int,
    )
        requires
            self.wf(),
            self.is_aggregate(book, sources),
            0 <= u < self.ids().len(),
            0 <= j < self.ids().len(),
            self.books()[u] == OrderBook::<N>::empty(),
        ensures
            (forall|d: int| 0 <= d < N ==> #[trigger] self.books()[j].bid@[d].price > 0) ==> (forall|
                i: int,
            | 0 <= i < N ==> #[trigger] sources.bid@[i] != self.ids()[u]),
            (forall|d: int| 0 <= d < N ==> #[trigger] self.books()[j].ask@[d].price < INFINITE_PRICE)
                ==> (forall|i: int| 0 <= i < N ==> #[trigger] sources.ask@[i] != self.ids()[u]),
    {
        self.lemma_sides(true);
        self.lemma_sides(false);
        assert forall|i: int| 0 <= i < N && (forall|d: int| 0 <= d < N ==> #[trigger] self.books()[j].bid@[d].price > 0)
            implies #[trigger] sources.bid@[i] != self.ids()[u] by {
            self.lemma_empty_not_picked(true, u, j, i);
            assert(sources.bid@[i] == self.ids()[pick(sides_of(self.books(), true), true, i as nat)]);
        }
        assert forall|i: int| 0 <= i < N && (forall|d: int| 0 <= d < N ==> #[trigger] self.books()[j].ask@[d].price < INFINITE_PRICE)
            implies #[trigger] sources.ask@[i] != self.ids()[u] by {
            self.lemma_empty_not_picked(false, u, j, i);
            assert(sources.ask@[i] == self.ids()[pick(sides_of(self.books(), false), false, i as nat)]);
        }
    }

    proof fn lemma_empty_not_picked(&self, is_bid: bool, u: int, j: int, i: int)
        requires
            self.wf(),
            0 <= u < self.ids().len(),
            0 <= j < self.ids().len(),
            0 <= i < N,
            self.books()[u] == OrderBook::<N>::empty(),
            is_bid ==> forall|d: int| 0 <= d < N ==> #[trigger] self.books()[j].bid@[d].price > 0,
            !is_bid ==> forall|d: int|
                0 <= d < N ==> #[trigger] self.books()[j].ask@[d].price < INFINITE_PRICE,
        ensures
            self.ids()[pick(sides_of(self.books(), is_bid), is_bid, i as nat)] != self.ids()[u],
    {
        let sides = sides_of(self.books(), is_bid);
        let c = cursors_after(sides, is_bid, i as nat);
        lemma_cursors_bounded(sides, is_bid, i as nat);
        lemma_best_among(sides, c, is_bid, sides.len());
        let p = pick(sides, is_bid, i as nat);
        if p == u {
            assert(0 <= c[u] < N);
            assert(0 <= c[j] < N);
            assert(candidate(sides, c, u) == sides[u][c[u]]);
            assert(candidate(sides, c, j) == sides[j][c[j]]);
            if is_bid {
                assert(self.books()[j].bid@[c[j]].price > 0);
                assert(sides[u][c[u]] == empty_bid());
            } else {
                assert(self.books()[j].ask@[c[j]].price < INFINITE_PRICE);
                assert(sides[u][c[u]] == empty_ask());
            }
        }
        assert(0 <= p < self.ids().len());
        if p < u {
            assert(self.ids()[p] != self.ids()[u]);
        } else if u < p {
            assert(self.ids()[u] != self.ids()[p]);
        }
    }

    /// Two aggregations of the same state give identical results.
    pub proof fn lemma_aggregate_deterministic(
        &self,
        book1: OrderBook<N>,
        sources1: Sources<N>,
        book2: OrderBook<N>,
        sources2: Sources<N>,
    )
        requires
            self.is_aggregate(book1, sources1),
            self.is_aggregate(book2, sources2),
        ensures
            book1 == book2,
            sources1 == sources2,
    {
        assert(book1.bid =~= book2.bid);
        assert(book1.ask =~= book2.ask);
        assert(sources1.bid =~= sources2.bid);
        assert(sources1.ask =~= sources2.ask);
    }

    /// With one venue, the consolidated book is that venue's book, every
    /// level attributed to it.
    pub proof fn lemma_single_source(&self, book: OrderBook<N>, sources: Sources<N>)
        requires
            self.wf(),
            self.ids().len() == 1,
            self.is_aggregate(book, sources),
        ensures
            book == self.books()[0],
            forall|i: int| 0 <= i < N ==> sources.bid@[i] == self.ids()[0],
            forall|i: int| 0 <= i < N ==> sources.ask@[i] == self.ids()[0],
    {
        self.lemma_sides(true);
        self.lemma_sides(false);
        lemma_merge_single(sides_of(self.books(), true), true, N as nat);
        lemma_merge_single(sides_of(self.books(), false), false, N as nat);
        assert(book.bid =~= self.books()[0].bid);
        assert(book.ask =~= self.books()[0].ask);
    }

    /// The best consolidated bid is the highest first bid of any venue, and
    /// among venues that offer that price it is attributed to the earliest
    /// configured one; the best ask likewise with the lowest price.
    pub proof fn lemma_best_level_tie_break(&self, book: OrderBook<N>, sources: Sources<N>)
        requires
            self.wf(),
            self.is_aggregate(book, sources),
            N >= 1,
        ensures
            exists|p: int|
                0 <= p < self.ids().len() && sources.bid@[0] == self.ids()[p] && book.bid@[0]
                    == self.books()[p].bid@[0] && (forall|j: int|
                    0 <= j < self.ids().len() ==> #[trigger] self.books()[j].bid@[0].price
                        <= book.bid@[0].price) && (forall|j: int|
                    0 <= j < p ==> #[trigger] self.books()[j].bid@[0].price < book.bid@[0].price),
            exists|p: int|
                0 <= p < self.ids().len() && sources.ask@[0] == self.ids()[p] && book.ask@[0]
                    == self.books()[p].ask@[0] && (forall|j: int|
                    0 <= j < self.ids().len() ==> #[trigger] self.books()[j].ask@[0].price
                        >= book.ask@[0].price) && (forall|j: int|
                    0 <= j < p ==> #[trigger] self.books()[j].ask@[0].price > book.ask@[0].price),
    {
        let sb = sides_of(self.books(), true);
        let sa = sides_of(self.books(), false);
        lemma_first_slot(sb, true);
        lemma_first_slot(sa, false);
        let pb = pick(sb, true, 0);
        let pa = pick(sa, false, 0);
        assert(book.bid@[0] == merged_levels(sb, true, N as nat)[0]);
        assert(book.ask@[0] == merged_levels(sa, false, N as nat)[0]);
        assert(sources.bid@[0] == merged_sources(self.ids(), sb, true, N as nat)[0]);
        assert(sources.ask@[0] == merged_sources(self.ids(), sa, false, N as nat)[0]);
        assert(sources.bid@[0] == self.ids()[pb]);
        assert(sources.ask@[0] == self.ids()[pa]);
        assert(sb[pb] == self.books()[pb].bid@);
        assert(sa[pa] == self.books()[pa].ask@);
        assert(book.bid@[0] == self.books()[pb].bid@[0]);
        assert(book.ask@[0] == self.books()[pa].ask@[0]);
        assert forall|j: int| 0 <= j < self.ids().len() implies #[trigger] self.books()[j].bid@[0].price
            <= book.bid@[0].price by {
            assert(sb[j] == self.books()[j].bid@);
        }
        assert forall|j: int| 0 <= j < pb implies #[trigger] self.books()[j].bid@[0].price
            < book.bid@[0].price by {
            assert(sb[j] == self.books()[j].bid@);
        }
        assert forall|j: int| 0 <= j < self.ids().len() implies #[trigger] self.books()[j].ask@[0].price
            >= book.ask@[0].price by {
            assert(sa[j] == self.books()[j].ask@);
        }
        assert forall|j: int| 0 <= j < pa implies #[trigger] self.books()[j].ask@[0].price
            > book.ask@[0].price by {
            assert(sa[j] == self.books()[j].ask@);
        }
    }

    /// Applies one venue's new book and returns the recomputed consolidated book.
    pub fn process(&mut self, idx: usize, order_book: OrderBook<N>) -> (r: (OrderBook<N>, Sources<N>))
        requires
            old(self).wf(),
            idx < old(self).ids().len(),
            order_book.wf(),
        ensures
            final(self).wf(),
            final(self).ids() == old(self).ids(),
            final(self).books() == old(self).books().update(idx as int, order_book),
            final(self).is_aggregate(r.0, r.1),
    {
        self.update(idx, order_book);
        self.aggregate()
    }

    /// Level `depth` of venue `j` on one side.
    fn level(&self, j: usize, depth: usize, is_bid: bool) -> (r: PriceLevel)
        requires
            j < self.order_books@.len(),
            depth < N,
        ensures
            r == sides_of(self.books(), is_bid)[j as int][depth as int],
    {
        if is_bid {
            self.order_books[j].bid[depth]
        } else {
            self.order_books[j].ask[depth]
        }
    }

    /// Merges one side of every venue's book, best level first.
    fn merge(&self, is_bid: bool) -> (r: ([PriceLevel; N], [ExchangeId; N]))
        requires
            self.wf(),
        ensures
            r.0@ == merged_levels(sides_of(self.books(), is_bid), is_bid, N as nat),
            r.1@ == merged_sources(self.ids(), sides_of(self.books(), is_bid), is_bid, N as nat),
    {
        let ghost sides = sides_of(self.books(), is_bid);
        let k = self.order_books.len();
        let mut cursors: Vec<usize> = Vec::new();
        while cursors.len() < k
            invariant
                cursors@.len() <= k,
                k == self.order_books@.len(),
                forall|j: int| 0 <= j < cursors@.len() ==> #[trigger] cursors@[j] == 0,
            decreases k - cursors@.len(),
        {
            cursors.push(0);
        }
        let mut levels = [PriceLevel { price: 0, amount: 0 }; N];
        let mut sources = [ExchangeId::Aggregate; N];
        let mut i: usize = 0;
        assert(cursors_after(sides, is_bid, 0) =~= Seq::new(k as nat, |j: int| cursors@[j] as int));
        while i < N
            invariant
                self.wf(),
                sides == sides_of(self.books(), is_bid),
                k == self.order_books@.len(),
                i <= N,
                cursors@.len() == k,
                cursors_after(sides, is_bid, i as nat) == Seq::new(k as nat, |j: int| cursors@[j] as int),
                forall|s: int|
                    0 <= s < i ==> levels@[s] == #[trigger] merged_levels(sides, is_bid, N as nat)[s],
                forall|s: int|
                    0 <= s < i ==> sources@[s] == #[trigger] merged_sources(
                        self.ids(),
                        sides,
                        is_bid,
                        N as nat,
                    )[s],
            decreases N - i,
        {
            let ghost c = cursors_after(sides, is_bid, i as nat);
            proof {
                lemma_cursors_bounded(sides, is_bid, i as nat);
            }
            assert(cursors@[0] as int == c[0]);
            let mut best: usize = 0;
            let mut best_level = self.level(0, cursors[0], is_bid);
            let mut j: usize = 1;
            while j < k
                invariant
                    self.wf(),
                    sides == sides_of(self.books(), is_bid),
                    k == self.order_books@.len(),
                    i < N,
                    cursors@.len() == k,
                    c == Seq::new(k as nat, |j: int| cursors@[j] as int),
                    forall|x: int| 0 <= x < k ==> 0 <= #[trigger] c[x] <= i,
                    1 <= j <= k,
                    best as int == best_among(sides, c, is_bid, j as nat),
                    best < j,
                    best_level == candidate(sides, c, best as int),
                decreases k - j,
            {
                assert(c[j as int] == cursors@[j as int] as int);
                let level = self.level(j, cursors[j], is_bid);
                if (is_bid && level.price > best_level.price) || (!is_bid && level.price < best_level.price) {
                    best = j;
                    best_level = level;
                }
                j = j + 1;
            }
            levels[i] = best_level;
            sources[i] = self.exchange_ids[best];
            assert(c[best as int] <= i);
            cursors.set(best, cursors[best] + 1);
            proof {
                assert(cursors_after(sides, is_bid, (i + 1) as nat) =~= Seq::new(
                    k as nat,
                    |j: int| cursors@[j] as int,
                ));
            }
            i = i + 1;
        }
        assert(levels@ =~= merged_levels(sides, is_bid, N as nat));
        assert(sources@ =~= merged_sources(self.ids(), sides, is_bid, N as nat));
        (levels, sources)
    }
}

} // verus!
