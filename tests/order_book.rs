use orderbook_aggregator::exchange::ExchangeId;
use orderbook_aggregator::order_book::{Aggregator, OrderBook, PriceLevel, INFINITE_PRICE, SCALE};

fn lv(price: u64, amount: u64) -> PriceLevel {
    PriceLevel { price, amount }
}

#[test]
fn aggregates_order_books() {
    let b0 = OrderBook::from(
        &[(100 * SCALE, SCALE), (95 * SCALE, SCALE / 2)],
        &[(110 * SCALE, SCALE / 4), (115 * SCALE, SCALE / 2)],
    );
    let b1 = OrderBook::from(
        &[(101 * SCALE, 3 * SCALE / 2), (94 * SCALE, 4 * SCALE / 10)],
        &[(112 * SCALE, SCALE / 4), (118 * SCALE, SCALE / 2)],
    );

    let mut aggregator = Aggregator::new(vec![ExchangeId::Binance, ExchangeId::Bitstamp]);
    aggregator.update(0, b0);
    aggregator.update(1, b1);

    let (book, sources) = aggregator.aggregate();

    assert_eq!(book.bid[0], (101 * SCALE, 3 * SCALE / 2).into());
    assert_eq!(sources.bid[0], ExchangeId::Bitstamp);
    assert_eq!(book.bid[1], (100 * SCALE, SCALE).into());
    assert_eq!(sources.bid[1], ExchangeId::Binance);

    assert_eq!(book.ask[0], (110 * SCALE, SCALE / 4).into());
    assert_eq!(sources.ask[0], ExchangeId::Binance);
    assert_eq!(book.ask[1], (112 * SCALE, SCALE / 4).into());
    assert_eq!(sources.ask[1], ExchangeId::Bitstamp);
}

#[test]
fn merge_example_from_two_venues() {
    let a = OrderBook::from(&[(100, 10), (95, 5)], &[(110, 25), (115, 50)]);
    let b = OrderBook::from(&[(101, 15), (94, 4)], &[(112, 25), (118, 50)]);
    let mut agg = Aggregator::new(vec![ExchangeId::Binance, ExchangeId::Bitstamp]);
    agg.update(0, a);
    agg.update(1, b);
    let (book, sources) = agg.aggregate();
    assert_eq!(book.bid, [lv(101, 15), lv(100, 10)]);
    assert_eq!(sources.bid, [ExchangeId::Bitstamp, ExchangeId::Binance]);
    assert_eq!(book.ask, [lv(110, 25), lv(112, 25)]);
    assert_eq!(sources.ask, [ExchangeId::Binance, ExchangeId::Bitstamp]);
}

#[test]
fn untouched_venue_keeps_empty_levels() {
    let real = OrderBook::from(&[(7, 1), (5, 2), (1, 3)], &[(9, 1), (12, 2), (20, 3)]);
    let mut agg = Aggregator::<3>::new(vec![ExchangeId::Bitstamp, ExchangeId::Binance]);
    let (empty, _) = agg.aggregate();
    assert_eq!(empty.bid, [lv(0, 0); 3]);
    assert_eq!(empty.ask, [lv(INFINITE_PRICE, 0); 3]);

    agg.update(1, real);
    let (book, sources) = agg.aggregate();
    assert_eq!(book.bid, [lv(7, 1), lv(5, 2), lv(1, 3)]);
    assert_eq!(sources.bid, [ExchangeId::Binance; 3]);
    assert_eq!(book.ask, [lv(9, 1), lv(12, 2), lv(20, 3)]);
    assert_eq!(sources.ask, [ExchangeId::Binance; 3]);
}

#[test]
fn empty_book_is_sentinel_filled() {
    let b = OrderBook::<4>::default();
    assert_eq!(b.bid, [lv(0, 0); 4]);
    assert_eq!(b.ask, [lv(INFINITE_PRICE, 0); 4]);
}

#[test]
fn result_is_sorted_on_both_sides() {
    let a = OrderBook::from(&[(50, 1), (40, 1), (10, 1), (5, 1)], &[(60, 1), (61, 1), (90, 1), (95, 1)]);
    let b = OrderBook::from(&[(45, 2), (44, 2), (43, 2), (0, 2)], &[(55, 2), (70, 2), (71, 2), (72, 2)]);
    let c = OrderBook::from(&[(60, 3), (9, 3), (8, 3), (7, 3)], &[(58, 3), (59, 3), (100, 3), (101, 3)]);
    let mut agg = Aggregator::new(vec![ExchangeId::Binance, ExchangeId::Bitstamp, ExchangeId::Aggregate]);
    agg.update(0, a);
    agg.update(1, b);
    agg.update(2, c);
    let (book, sources) = agg.aggregate();
    let bid_prices: Vec<u64> = book.bid.iter().map(|l| l.price).collect();
    let ask_prices: Vec<u64> = book.ask.iter().map(|l| l.price).collect();
    assert_eq!(bid_prices, vec![60, 50, 45, 44]);
    assert_eq!(ask_prices, vec![55, 58, 59, 60]);
    assert_eq!(sources.bid, [ExchangeId::Aggregate, ExchangeId::Binance, ExchangeId::Bitstamp, ExchangeId::Bitstamp]);
    assert_eq!(sources.ask, [ExchangeId::Bitstamp, ExchangeId::Aggregate, ExchangeId::Aggregate, ExchangeId::Binance]);
}

#[test]
fn aggregate_twice_gives_same_result() {
    let a = OrderBook::from(&[(5, 1), (4, 1)], &[(6, 1), (7, 1)]);
    let mut agg = Aggregator::new(vec![ExchangeId::Binance, ExchangeId::Bitstamp]);
    agg.update(1, a);
    let (b1, s1) = agg.aggregate();
    let (b2, s2) = agg.aggregate();
    assert_eq!(b1.bid, b2.bid);
    assert_eq!(b1.ask, b2.ask);
    assert_eq!(s1.bid, s2.bid);
    assert_eq!(s1.ask, s2.ask);
}

#[test]
fn single_venue_passes_through() {
    let a = OrderBook::from(&[(9, 1), (9, 2), (3, 3)], &[(10, 4), (11, 5), (11, 6)]);
    let mut agg = Aggregator::new(vec![ExchangeId::Bitstamp]);
    agg.update(0, a);
    let (book, sources) = agg.aggregate();
    assert_eq!(book.bid, a.bid);
    assert_eq!(book.ask, a.ask);
    assert_eq!(sources.bid, [ExchangeId::Bitstamp; 3]);
    assert_eq!(sources.ask, [ExchangeId::Bitstamp; 3]);
}

#[test]
fn equal_best_price_goes_to_first_venue() {
    let a = OrderBook::from(&[(100, 1), (90, 1)], &[(110, 1), (120, 1)]);
    let b = OrderBook::from(&[(100, 2), (95, 2)], &[(110, 2), (111, 2)]);
    let mut agg = Aggregator::new(vec![ExchangeId::Bitstamp, ExchangeId::Binance]);
    agg.update(0, a);
    agg.update(1, b);
    let (book, sources) = agg.aggregate();
    assert_eq!(book.bid, [lv(100, 1), lv(100, 2)]);
    assert_eq!(sources.bid, [ExchangeId::Bitstamp, ExchangeId::Binance]);
    assert_eq!(book.ask, [lv(110, 1), lv(110, 2)]);
    assert_eq!(sources.ask, [ExchangeId::Bitstamp, ExchangeId::Binance]);
}

#[test]
fn process_updates_then_aggregates() {
    let a = OrderBook::from(&[(3, 1)], &[(4, 1)]);
    let b = OrderBook::from(&[(2, 1)], &[(5, 1)]);
    let mut agg = Aggregator::new(vec![ExchangeId::Binance, ExchangeId::Bitstamp]);
    let (book, sources) = agg.process(1, b);
    assert_eq!(book.bid, [lv(2, 1)]);
    assert_eq!(sources.bid, [ExchangeId::Bitstamp]);
    assert_eq!(book.ask, [lv(5, 1)]);
    let (book, sources) = agg.process(0, a);
    assert_eq!(book.bid, [lv(3, 1)]);
    assert_eq!(sources.bid, [ExchangeId::Binance]);
    assert_eq!(book.ask, [lv(4, 1)]);
    assert_eq!(sources.ask, [ExchangeId::Binance]);
}

#[test]
fn price_level_from_pair() {
    let l: PriceLevel = (12, 34).into();
    assert_eq!(l.price, 12);
    assert_eq!(l.amount, 34);
}

#[test]
fn venue_names() {
    assert_eq!(ExchangeId::Binance.name(), "binance");
    assert_eq!(ExchangeId::Bitstamp.name(), "bitstamp");
}
